use hydra_autoscaler::machine_type::{Feature, JobSize, MachineType, System};

#[test]
fn test_empty() {
    let mt = MachineType("".to_string());
    assert_eq!(mt.system(), System("".to_string()));
    assert_eq!(mt.features(), vec![]);
}

#[test]
fn system_is_prefix_before_colon() {
    let mt = MachineType("x86_64-linux:big-parallel,kvm".to_string());
    assert_eq!(mt.system(), System("x86_64-linux".to_string()));
}

#[test]
fn system_without_colon_is_whole_string() {
    let mt = MachineType("aarch64-linux".to_string());
    assert_eq!(mt.system(), System("aarch64-linux".to_string()));
    assert_eq!(mt.features(), vec![]);
}

#[test]
fn features_are_tokens_between_first_and_second_colon() {
    let mt = MachineType("x86_64-linux:big-parallel,kvm".to_string());
    assert_eq!(
        mt.features(),
        vec![
            Feature("big-parallel".to_string()),
            Feature("kvm".to_string())
        ]
    );
}

#[test]
fn features_ignore_third_segment() {
    let mt = MachineType("a:b:c".to_string());
    assert_eq!(mt.system(), System("a".to_string()));
    assert_eq!(mt.features(), vec![Feature("b".to_string())]);
}

#[test]
fn empty_feature_tokens_are_dropped() {
    let mt = MachineType("p:,a,,b,".to_string());
    assert_eq!(
        mt.features(),
        vec![Feature("a".to_string()), Feature("b".to_string())]
    );
}

#[test]
fn trailing_colon_yields_no_features() {
    let mt = MachineType("p:".to_string());
    assert_eq!(mt.system(), System("p".to_string()));
    assert_eq!(mt.features(), vec![]);
}

#[test]
fn missing_platform_segment_yields_empty_platform() {
    let mt = MachineType(":big-parallel".to_string());
    assert_eq!(mt.system(), System("".to_string()));
    assert_eq!(mt.features(), vec![Feature("big-parallel".to_string())]);
}

#[test]
fn job_size_is_big_parallel_when_feature_present() {
    let mt = MachineType("x86_64-linux:big-parallel".to_string());
    assert_eq!(mt.get_job_size(), JobSize::BigParallel);
}

#[test]
fn job_size_is_small_without_the_feature() {
    assert_eq!(
        MachineType("x86_64-linux:kvm,nixos-test".to_string()).get_job_size(),
        JobSize::Small
    );
    assert_eq!(MachineType("".to_string()).get_job_size(), JobSize::Small);
    assert_eq!(
        MachineType("x86_64-linux".to_string()).get_job_size(),
        JobSize::Small
    );
}
