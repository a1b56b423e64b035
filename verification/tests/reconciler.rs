use hydra_autoscaler::device::{Device, DeviceState, DeviceType, Plan};
use hydra_autoscaler::hardware::HardwarePlan;
use hydra_autoscaler::reconcile::reconcile;

const HOUR: i64 = 3600;
const NOW: i64 = 1_700_000_000;

fn plan(name: &str) -> HardwarePlan {
    HardwarePlan {
        bid: 2_000_000,
        plan: name.to_string(),
        netboot_url: format!("https://netboot.example/{name}"),
    }
}

fn device(id: &str, plan_name: &str, age_hours: i64, state: DeviceState) -> Device {
    Device {
        hostname: plan_name.to_string(),
        id: id.to_string(),
        short_id: id.to_string(),
        created_at: NOW - age_hours * HOUR,
        device_type: DeviceType::SpotInstance,
        state,
        ipxe_script_url: Some(format!("https://netboot.example/{plan_name}")),
        spot_instance: true,
        plan: Plan { class: plan_name.to_string() },
        tags: vec!["hydra".to_string()],
    }
}

fn tags() -> Vec<String> {
    vec!["hydra".to_string()]
}

// Rotation cutoff: devices created before this moment are cycled out.
const OLDER_THAN: i64 = NOW - 24 * HOUR;

#[test]
fn matching_device_is_kept_and_unmatched_plans_are_created() {
    let desired = vec![plan("a"), plan("b")];
    let devices = vec![device("dev1", "a", 1, DeviceState::Active)];
    let r = reconcile(desired, devices, &tags(), OLDER_THAN);
    assert_eq!(r.to_keep.len(), 1);
    assert_eq!(r.to_keep[0].id, "dev1");
    assert_eq!(r.to_create.len(), 1);
    assert_eq!(r.to_create[0].plan, "b");
    assert!(r.to_delete.is_empty());
}

#[test]
fn device_past_rotation_age_is_deleted_even_when_it_matches() {
    let desired = vec![plan("a")];
    let devices = vec![device("old1", "a", 25, DeviceState::Active)];
    let r = reconcile(desired, devices, &tags(), OLDER_THAN);
    assert!(r.to_keep.is_empty());
    assert_eq!(r.to_delete.len(), 1);
    assert_eq!(r.to_delete[0].id, "old1");
    // its plan is not consumed, so it is recreated
    assert_eq!(r.to_create.len(), 1);
    assert_eq!(r.to_create[0].plan, "a");
}

#[test]
fn drain_marked_device_is_deleted_even_when_it_matches() {
    let desired = vec![plan("a")];
    let mut d = device("drain1", "a", 1, DeviceState::Active);
    d.tags.push("skip-hydra".to_string());
    let r = reconcile(desired, vec![d], &tags(), OLDER_THAN);
    assert!(r.to_keep.is_empty());
    assert_eq!(r.to_delete.len(), 1);
    assert_eq!(r.to_delete[0].id, "drain1");
    assert_eq!(r.to_create.len(), 1);
}

#[test]
fn mismatched_device_is_deleted() {
    let desired = vec![plan("a")];
    let devices = vec![device("dev1", "c", 1, DeviceState::Active)];
    let r = reconcile(desired, devices, &tags(), OLDER_THAN);
    assert!(r.to_keep.is_empty());
    assert_eq!(r.to_delete.len(), 1);
    assert_eq!(r.to_create.len(), 1);
}

#[test]
fn a_plan_is_consumed_at_most_once() {
    let desired = vec![plan("a")];
    let devices = vec![
        device("dev1", "a", 1, DeviceState::Active),
        device("dev2", "a", 1, DeviceState::Active),
    ];
    let r = reconcile(desired, devices, &tags(), OLDER_THAN);
    assert_eq!(r.to_keep.len(), 1);
    assert_eq!(r.to_keep[0].id, "dev1");
    assert_eq!(r.to_delete.len(), 1);
    assert_eq!(r.to_delete[0].id, "dev2");
    assert!(r.to_create.is_empty());
}

#[test]
fn foreign_and_on_demand_devices_are_invisible() {
    let desired = vec![plan("a")];
    let mut on_demand = device("od1", "a", 1, DeviceState::Active);
    on_demand.device_type = DeviceType::OnDemand;
    let mut foreign = device("f1", "a", 1, DeviceState::Active);
    foreign.tags = vec!["unrelated".to_string()];
    let r = reconcile(desired, vec![on_demand, foreign], &tags(), OLDER_THAN);
    assert!(r.to_keep.is_empty());
    assert!(r.to_delete.is_empty());
    assert_eq!(r.to_create.len(), 1);
}

#[test]
fn partition_sizes_add_up() {
    // D = 3 desired plans, C = 4 visible devices.
    let desired = vec![plan("a"), plan("b"), plan("c")];
    let devices = vec![
        device("dev1", "a", 1, DeviceState::Active),
        device("dev2", "x", 1, DeviceState::Active),
        device("old3", "b", 30, DeviceState::Active),
        device("dev4", "b", 2, DeviceState::Queued),
    ];
    let r = reconcile(desired, devices, &tags(), OLDER_THAN);
    let matched = r.to_keep.len();
    assert_eq!(r.to_create.len() + matched, 3);
    assert_eq!(matched + r.to_delete.len(), 4);
    // no device in more than one partition
    for kept in r.to_keep.iter() {
        assert!(r.to_delete.iter().all(|d| d.id != kept.id));
    }
}

#[test]
fn reconciliation_is_deterministic() {
    let build = || {
        (
            vec![plan("a"), plan("b")],
            vec![
                device("dev1", "a", 1, DeviceState::Active),
                device("dev2", "a", 1, DeviceState::Active),
                device("old3", "b", 30, DeviceState::Active),
            ],
        )
    };
    let (p1, d1) = build();
    let (p2, d2) = build();
    let r1 = reconcile(p1, d1, &tags(), OLDER_THAN);
    let r2 = reconcile(p2, d2, &tags(), OLDER_THAN);
    let ids = |ds: &Vec<Device>| ds.iter().map(|d| d.id.clone()).collect::<Vec<_>>();
    let names = |ps: &Vec<HardwarePlan>| ps.iter().map(|p| p.plan.clone()).collect::<Vec<_>>();
    assert_eq!(ids(&r1.to_keep), ids(&r2.to_keep));
    assert_eq!(ids(&r1.to_delete), ids(&r2.to_delete));
    assert_eq!(names(&r1.to_create), names(&r2.to_create));
}
