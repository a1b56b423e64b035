use hydra_autoscaler::device::{Device, DeviceState, DeviceType, Plan};
use hydra_autoscaler::lifecycle::{
    drain_marker, drained_tags, has_drain_marker, parse_job_count, past_urgent_termination,
    removal_action, RemovalAction,
};

const HOUR: i64 = 3600;
const NOW: i64 = 1_700_000_000;

fn device(age_hours: i64, state: DeviceState, tags: Vec<String>) -> Device {
    Device {
        hostname: "m1".to_string(),
        id: "id1".to_string(),
        short_id: "id1".to_string(),
        created_at: NOW - age_hours * HOUR,
        device_type: DeviceType::SpotInstance,
        state,
        ipxe_script_url: None,
        spot_instance: true,
        plan: Plan { class: "m1".to_string() },
        tags,
    }
}

#[test]
fn idle_active_device_is_destroyed() {
    assert_eq!(removal_action(&DeviceState::Active, 0), RemovalAction::Destroy);
}

#[test]
fn idle_provisioning_device_is_left_untouched() {
    assert_eq!(removal_action(&DeviceState::Provisioning, 0), RemovalAction::DeferInactive);
    assert_eq!(removal_action(&DeviceState::Queued, 0), RemovalAction::DeferInactive);
}

#[test]
fn busy_device_keeps_draining() {
    assert_eq!(removal_action(&DeviceState::Active, 5), RemovalAction::DeferBusy);
}

#[test]
fn urgent_termination_skips_the_job_monitor() {
    // Cutoff two days back; a 49-hour-old device is past it, so the job
    // monitor is never asked and the count is taken as zero: even a busy
    // machine is destroyed once it is this old.
    let urgent_cutoff = NOW - 48 * HOUR;
    let old = device(49, DeviceState::Active, vec![]);
    assert!(past_urgent_termination(old.created_at, urgent_cutoff));
    assert_eq!(removal_action(&old.state, 0), RemovalAction::Destroy);

    let young = device(47, DeviceState::Active, vec![]);
    assert!(!past_urgent_termination(young.created_at, urgent_cutoff));
}

#[test]
fn drained_tags_appends_the_marker() {
    let tags = vec!["hydra".to_string()];
    let new_tags = drained_tags(&tags);
    assert_eq!(new_tags, vec!["hydra".to_string(), "skip-hydra".to_string()]);
}

#[test]
fn drain_marker_is_detected() {
    let plain = device(1, DeviceState::Active, vec!["hydra".to_string()]);
    assert!(!has_drain_marker(&plain));
    let marked = device(
        1,
        DeviceState::Active,
        vec!["hydra".to_string(), drain_marker().to_string()],
    );
    assert!(has_drain_marker(&marked));
}

#[test]
fn job_counts_parse_as_whole_numbers() {
    assert_eq!(parse_job_count("0"), Some(0));
    assert_eq!(parse_job_count("42"), Some(42));
    assert_eq!(parse_job_count("+7"), Some(7));
    assert_eq!(parse_job_count("18446744073709551615"), Some(u64::MAX));
}

#[test]
fn malformed_job_counts_are_rejected() {
    assert_eq!(parse_job_count(""), None);
    assert_eq!(parse_job_count("+"), None);
    assert_eq!(parse_job_count("3.5"), None);
    assert_eq!(parse_job_count("-1"), None);
    assert_eq!(parse_job_count("abc"), None);
    assert_eq!(parse_job_count("18446744073709551616"), None);
}
