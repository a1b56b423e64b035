use hydra_autoscaler::hardware::{
    build_demand, compute_desired, get_desired_hardware, wanted_count, CategoryEntry, Config,
    DemandEntry, DemandSnapshot, HardwareCategory, HardwarePlan, MachineTypeStatus,
    QueueRunnerStatus, WarningKind,
};
use hydra_autoscaler::machine_type::{JobSize, MachineType, System};

fn plan(name: &str) -> HardwarePlan {
    HardwarePlan {
        bid: 2_000_000,
        plan: name.to_string(),
        netboot_url: format!("https://netboot.example/{name}"),
    }
}

fn category(
    system: &str,
    size: JobSize,
    divisor: usize,
    minimum: usize,
    maximum: usize,
    plans: Vec<HardwarePlan>,
) -> CategoryEntry {
    CategoryEntry {
        system: System(system.to_string()),
        size,
        category: HardwareCategory { divisor, minimum, maximum, plans },
    }
}

#[test]
fn wanted_count_clamps_between_minimum_and_maximum() {
    let cat = HardwareCategory { divisor: 2000, minimum: 1, maximum: 10, plans: vec![] };
    assert_eq!(wanted_count(4500, &cat), 2);
    assert_eq!(wanted_count(0, &cat), 1);
    assert_eq!(wanted_count(1999, &cat), 1);
    assert_eq!(wanted_count(20000, &cat), 10);
    assert_eq!(wanted_count(1_000_000, &cat), 10);
}

#[test]
fn wanted_count_divides_toward_zero() {
    let cat = HardwareCategory { divisor: 3, minimum: 0, maximum: 100, plans: vec![] };
    assert_eq!(wanted_count(8, &cat), 2);
    assert_eq!(wanted_count(9, &cat), 3);
}

#[test]
fn demand_round_robins_over_the_plan_list() {
    // 4500 runnable at divisor 2000, clamped to [1, 10], wants 2 machines,
    // spread round-robin over [A, B].
    let snapshot = DemandSnapshot {
        entries: vec![DemandEntry {
            system: System("x86_64-linux".to_string()),
            size: JobSize::Small,
            runnable: 4500,
        }],
    };
    let categories = vec![category(
        "x86_64-linux",
        JobSize::Small,
        2000,
        1,
        10,
        vec![plan("a"), plan("b")],
    )];
    let (plans, warnings) = compute_desired(&categories, &snapshot);
    assert_eq!(plans.len(), 2);
    assert_eq!(plans[0].plan, "a");
    assert_eq!(plans[1].plan, "b");
    assert!(warnings.is_empty());
}

#[test]
fn round_robin_wraps_around() {
    let snapshot = DemandSnapshot {
        entries: vec![DemandEntry {
            system: System("x86_64-linux".to_string()),
            size: JobSize::Small,
            runnable: 6000,
        }],
    };
    let categories = vec![category(
        "x86_64-linux",
        JobSize::Small,
        2000,
        1,
        10,
        vec![plan("a"), plan("b")],
    )];
    let (plans, _) = compute_desired(&categories, &snapshot);
    assert_eq!(plans.len(), 3);
    assert_eq!(plans[0].plan, "a");
    assert_eq!(plans[1].plan, "b");
    assert_eq!(plans[2].plan, "a");
}

#[test]
fn category_without_demand_data_warns_and_contributes_nothing() {
    let snapshot = DemandSnapshot { entries: vec![] };
    let categories = vec![category(
        "x86_64-linux",
        JobSize::Small,
        2000,
        1,
        10,
        vec![plan("a")],
    )];
    let (plans, warnings) = compute_desired(&categories, &snapshot);
    assert!(plans.is_empty());
    assert_eq!(warnings.len(), 1);
    assert_eq!(warnings[0].kind, WarningKind::NoDemandData);
    assert_eq!(warnings[0].system, System("x86_64-linux".to_string()));
}

#[test]
fn category_without_plans_warns_and_contributes_nothing() {
    let snapshot = DemandSnapshot {
        entries: vec![DemandEntry {
            system: System("x86_64-linux".to_string()),
            size: JobSize::Small,
            runnable: 9000,
        }],
    };
    let categories = vec![category("x86_64-linux", JobSize::Small, 2000, 1, 10, vec![])];
    let (plans, warnings) = compute_desired(&categories, &snapshot);
    assert!(plans.is_empty());
    assert_eq!(warnings.len(), 1);
    assert_eq!(warnings[0].kind, WarningKind::NoPlans);
}

#[test]
fn zero_demand_with_entry_still_yields_the_minimum() {
    let snapshot = DemandSnapshot {
        entries: vec![DemandEntry {
            system: System("x86_64-linux".to_string()),
            size: JobSize::Small,
            runnable: 0,
        }],
    };
    let categories = vec![category(
        "x86_64-linux",
        JobSize::Small,
        2000,
        2,
        10,
        vec![plan("a")],
    )];
    let (plans, warnings) = compute_desired(&categories, &snapshot);
    assert_eq!(plans.len(), 2);
    assert!(warnings.is_empty());
}

fn status(lines: Vec<(&str, usize)>) -> QueueRunnerStatus {
    QueueRunnerStatus {
        machine_types: lines
            .into_iter()
            .map(|(raw, runnable)| {
                (MachineType(raw.to_string()), MachineTypeStatus { runnable })
            })
            .collect(),
    }
}

#[test]
fn build_demand_sums_per_derived_key_and_ignores_unmanaged() {
    let st = status(vec![
        ("x86_64-linux:big-parallel", 3),
        ("x86_64-linux", 2),
        ("x86_64-linux:kvm", 5),
        ("riscv64-linux", 7),
    ]);
    let managed = vec![System("x86_64-linux".to_string()), System("aarch64-linux".to_string())];
    let snap = build_demand(&st, &managed);
    assert_eq!(snap.entries.len(), 2);
    assert_eq!(snap.entries[0].system, System("x86_64-linux".to_string()));
    assert_eq!(snap.entries[0].size, JobSize::BigParallel);
    assert_eq!(snap.entries[0].runnable, 3);
    assert_eq!(snap.entries[1].system, System("x86_64-linux".to_string()));
    assert_eq!(snap.entries[1].size, JobSize::Small);
    assert_eq!(snap.entries[1].runnable, 7);
}

#[test]
fn tag_duplicates_collapse_even_when_separated() {
    let st = status(vec![("x86_64-linux", 0)]);
    let managed = vec![System("x86_64-linux".to_string())];
    let config = Config {
        categories: vec![],
        tags: vec!["a".to_string(), "b".to_string(), "a".to_string()],
        metro: "da".to_string(),
    };
    let (desired, _) = get_desired_hardware(config, &st, &managed);
    assert_eq!(desired.tags, vec!["a".to_string(), "b".to_string()]);
}

#[test]
fn get_desired_hardware_composes_demand_and_sizing() {
    let st = status(vec![("x86_64-linux", 4500)]);
    let managed = vec![System("x86_64-linux".to_string())];
    let config = Config {
        categories: vec![category(
            "x86_64-linux",
            JobSize::Small,
            2000,
            1,
            10,
            vec![plan("a"), plan("b")],
        )],
        tags: vec![
            "hydra".to_string(),
            "hydra".to_string(),
            "ci".to_string(),
            "hydra".to_string(),
        ],
        metro: "da".to_string(),
    };
    let (desired, warnings) = get_desired_hardware(config, &st, &managed);
    assert_eq!(desired.plans.len(), 2);
    assert_eq!(desired.plans[0].plan, "a");
    assert_eq!(desired.plans[1].plan, "b");
    // the tag list is a set: duplicates collapse, first occurrences kept
    assert_eq!(desired.tags, vec!["hydra".to_string(), "ci".to_string()]);
    assert_eq!(desired.metro, "da");
    assert!(warnings.is_empty());
}
