//! The reconciler: match the desired plan list against the fleet that
//! actually exists.
//!
//! Devices that do not belong to the fleet (wrong tags, or not a spot
//! instance) are invisible.  Of the visible devices, those past the
//! rotation age or already carrying the drain marker go straight to
//! `to_delete`; each remaining device consumes the first not-yet-consumed
//! desired plan with its netboot URL and plan class, and joins `to_keep`,
//! or joins `to_delete` when no plan is left for it.  Plans left
//! unconsumed become `to_create`.

use vstd::multiset::Multiset;
use vstd::prelude::*;

use crate::device::{Device, DeviceType};
use crate::hardware::HardwarePlan;
use crate::lifecycle::spec_drain_marker;

verus! {

broadcast use {vstd::seq_lib::group_to_multiset_ensures, vstd::multiset::group_multiset_axioms};

/// The desired plan provisions the same kind of machine as the device
/// runs: equal netboot URL and equal plan class.
pub open spec fn plan_matches(p: HardwarePlan, d: Device) -> bool {
    match d.ipxe_script_url {
        Some(u) => u@ == p.netboot_url@ && d.plan.class@ == p.plan@,
        None => false,
    }
}

/// The device belongs to this fleet: a spot instance carrying every
/// desired tag.
pub open spec fn spec_visible(d: Device, tags: Seq<String>) -> bool {
    d.device_type == DeviceType::SpotInstance && d.spec_has_all_tags(tags)
}

/// The device is removed regardless of demand: it is past the rotation
/// age, or it already carries the drain marker.
pub open spec fn spec_forced_out(d: Device, older_than: i64) -> bool {
    d.created_at < older_than || d.spec_has_tag(spec_drain_marker())
}

/// The fleet members among `devices`, in order.
pub open spec fn visible_devices(devices: Seq<Device>, tags: Seq<String>) -> Seq<Device>
    decreases devices.len(),
{
    if devices.len() == 0 {
        devices
    } else {
        let prefix = visible_devices(devices.drop_last(), tags);
        if spec_visible(devices.last(), tags) {
            prefix.push(devices.last())
        } else {
            prefix
        }
    }
}

/// The visible devices routed straight to deletion, in order.
pub open spec fn forced_of(visible: Seq<Device>, older_than: i64) -> Seq<Device>
    decreases visible.len(),
{
    if visible.len() == 0 {
        visible
    } else {
        let prefix = forced_of(visible.drop_last(), older_than);
        if spec_forced_out(visible.last(), older_than) {
            prefix.push(visible.last())
        } else {
            prefix
        }
    }
}

/// The visible devices that still compete for a desired plan, in order.
pub open spec fn pending_of(visible: Seq<Device>, older_than: i64) -> Seq<Device>
    decreases visible.len(),
{
    if visible.len() == 0 {
        visible
    } else {
        let prefix = pending_of(visible.drop_last(), older_than);
        if spec_forced_out(visible.last(), older_than) {
            prefix
        } else {
            prefix.push(visible.last())
        }
    }
}

/// Index of the first plan at or after `i` that matches the device.
pub open spec fn first_match_from(plans: Seq<HardwarePlan>, d: Device, i: int) -> Option<int>
    decreases plans.len() - i,
{
    if i >= plans.len() {
        None
    } else if plan_matches(plans[i], d) {
        Some(i)
    } else {
        first_match_from(plans, d, i + 1)
    }
}

/// `first_match_from` finds the least matching index, or nothing.
pub proof fn lemma_first_match_from(plans: Seq<HardwarePlan>, d: Device, i: int)
    requires
        0 <= i,
    ensures
        match first_match_from(plans, d, i) {
            Some(j) => i <= j < plans.len() && plan_matches(plans[j], d) && (forall|k: int|
                i <= k < j ==> !plan_matches(plans[k], d)),
            None => forall|k: int| i <= k < plans.len() ==> !plan_matches(plans[k], d),
        },
    decreases plans.len() - i,
{
    if i >= plans.len() {
    } else if plan_matches(plans[i], d) {
    } else {
        lemma_first_match_from(plans, d, i + 1);
    }
}

/// The matching pass, device by device: the first device of `pending`
/// either consumes the first plan that matches it and joins `keep`, or
/// joins `del`.  Returns the unconsumed plans, `keep`, and `del`.
pub open spec fn reconcile_loop(
    plans: Seq<HardwarePlan>,
    pending: Seq<Device>,
    keep: Seq<Device>,
    del: Seq<Device>,
) -> (Seq<HardwarePlan>, Seq<Device>, Seq<Device>)
    decreases pending.len(),
{
    if pending.len() == 0 {
        (plans, keep, del)
    } else {
        let d = pending[0];
        match first_match_from(plans, d, 0) {
            Some(i) => reconcile_loop(plans.remove(i), pending.drop_first(), keep.push(d), del),
            None => reconcile_loop(plans, pending.drop_first(), keep, del.push(d)),
        }
    }
}

/// The whole reconciliation as a function of its inputs.
pub open spec fn spec_reconcile(
    plans: Seq<HardwarePlan>,
    devices: Seq<Device>,
    tags: Seq<String>,
    older_than: i64,
) -> (Seq<HardwarePlan>, Seq<Device>, Seq<Device>) {
    let visible = visible_devices(devices, tags);
    reconcile_loop(
        plans,
        pending_of(visible, older_than),
        Seq::empty(),
        forced_of(visible, older_than),
    )
}

/// The three disjoint decisions of one reconciliation pass.
#[derive(Debug)]
pub struct Reconciliation {
    /// Desired plans no current device satisfies: machines to create.
    pub to_create: Vec<HardwarePlan>,
    /// Current devices that satisfy a desired plan: machines to keep.
    pub to_keep: Vec<Device>,
    /// Current devices to drain and destroy.
    pub to_delete: Vec<Device>,
}

/// Does this desired plan provision the same kind of machine as `d` runs?
fn device_matches(p: &HardwarePlan, d: &Device) -> (r: bool)
    ensures
        r == plan_matches(*p, *d),
{
    match &d.ipxe_script_url {
        Some(u) => crate::util::str_eq(u.as_str(), p.netboot_url.as_str()) && crate::util::str_eq(
            d.plan.class.as_str(),
            p.plan.as_str(),
        ),
        None => false,
    }
}

/// Find the first not-yet-consumed plan matching the device.
fn find_plan(plans: &Vec<HardwarePlan>, d: &Device) -> (r: Option<usize>)
    ensures
        match r {
            Some(j) => (j as int) < plans@.len() && first_match_from(plans@, *d, 0) == Some(
                j as int,
            ),
            None => first_match_from(plans@, *d, 0) is None,
        },
{
    let mut i: usize = 0;
    while i < plans.len()
        invariant
            i <= plans@.len(),
            forall|k: int| 0 <= k < i ==> !plan_matches(plans@[k], *d),
        decreases plans@.len() - i,
    {
        if device_matches(&plans[i], d) {
            proof {
                lemma_first_match_from(plans@, *d, 0);
                if let Some(sj) = first_match_from(plans@, *d, 0) {
                    assert(sj == i);
                } else {
                    assert(false);
                }
            }
            return Some(i);
        }
        i += 1;
    }
    proof {
        lemma_first_match_from(plans@, *d, 0);
        if let Some(sj) = first_match_from(plans@, *d, 0) {
            assert(false);
        }
    }
    None
}

/// One reconciliation pass: partition the current devices against the
/// desired plans.  The result is exactly `spec_reconcile` of the inputs,
/// so equal inputs always produce equal partitions.
pub fn reconcile(
    plans: Vec<HardwarePlan>,
    devices: Vec<Device>,
    tags: &Vec<String>,
    older_than: i64,
) -> (r: Reconciliation)
    ensures
        (r.to_create@, r.to_keep@, r.to_delete@) == spec_reconcile(
            plans@,
            devices@,
            tags@,
            older_than,
        ),
        r.to_create@.len() + r.to_keep@.len() == plans@.len(),
        r.to_keep@.len() + r.to_delete@.len() == visible_devices(devices@, tags@).len(),
{
    let ghost plans0 = plans@;
    let ghost dev0 = devices@;
    let mut devices = devices;
    let mut pending: Vec<Device> = Vec::new();
    let mut to_delete: Vec<Device> = Vec::new();
    let ghost mut i: int = 0;
    proof {
        assert(dev0.take(0) =~= Seq::<Device>::empty());
        assert(visible_devices(dev0.take(0), tags@) =~= Seq::<Device>::empty());
        assert(devices@ =~= dev0.skip(0));
    }
    while devices.len() > 0
        invariant
            0 <= i <= dev0.len(),
            devices@ == dev0.skip(i),
            pending@ == pending_of(visible_devices(dev0.take(i), tags@), older_than),
            to_delete@ == forced_of(visible_devices(dev0.take(i), tags@), older_than),
        decreases devices@.len(),
    {
        let d = devices.remove(0);
        let ghost visprev = visible_devices(dev0.take(i), tags@);
        proof {
            assert(dev0.skip(i)[0] == dev0[i]);
            assert(d == dev0[i]);
            assert(dev0.skip(i).remove(0) =~= dev0.skip(i + 1));
            assert(dev0.take(i + 1).drop_last() =~= dev0.take(i));
            assert(dev0.take(i + 1).last() == dev0[i]);
        }
        let visible = if d.device_type == DeviceType::SpotInstance {
            d.has_all_tags(tags)
        } else {
            false
        };
        if visible {
            proof {
                assert(visible_devices(dev0.take(i + 1), tags@) == visprev.push(d));
                assert(visprev.push(d).drop_last() =~= visprev);
                assert(visprev.push(d).last() == d);
            }
            let forced = d.created_at < older_than || crate::lifecycle::has_drain_marker(&d);
            if forced {
                to_delete.push(d);
            } else {
                pending.push(d);
            }
        } else {
            proof {
                assert(visible_devices(dev0.take(i + 1), tags@) == visprev);
            }
        }
        proof {
            i = i + 1;
        }
    }
    proof {
        assert(dev0.take(dev0.len() as int) =~= dev0);
    }
    let ghost visible0 = visible_devices(dev0, tags@);
    let ghost pending0 = pending@;
    let ghost forced0 = to_delete@;
    let mut remaining = plans;
    let mut to_keep: Vec<Device> = Vec::new();
    proof {
        assert(to_keep@ =~= Seq::<Device>::empty());
    }
    while pending.len() > 0
        invariant
            reconcile_loop(plans0, pending0, Seq::empty(), forced0) == reconcile_loop(
                remaining@,
                pending@,
                to_keep@,
                to_delete@,
            ),
        decreases pending@.len(),
    {
        let d = pending.remove(0);
        let ghost pendprev = pending@.insert(0, d);
        proof {
            assert(pendprev[0] == d);
            assert(pendprev.drop_first() =~= pending@);
        }
        match find_plan(&remaining, &d) {
            Some(j) => {
                proof {
                    lemma_first_match_from(remaining@, d, 0);
                }
                let consumed = remaining.remove(j);
                to_keep.push(d);
            },
            None => {
                to_delete.push(d);
            },
        }
    }
    proof {
        assert(pending@.len() == 0);
        assert(reconcile_loop(remaining@, pending@, to_keep@, to_delete@) == (
            remaining@,
            to_keep@,
            to_delete@,
        ));
        lemma_reconcile_loop_counts(plans0, pending0, Seq::empty(), forced0);
        lemma_split_filters(visible0, older_than);
    }
    Reconciliation { to_create: remaining, to_keep, to_delete }
}

/// The forced and pending devices together are exactly the visible
/// devices: their lengths add up and their contents agree as multisets.
pub proof fn lemma_split_filters(visible: Seq<Device>, older_than: i64)
    ensures
        forced_of(visible, older_than).len() + pending_of(visible, older_than).len()
            == visible.len(),
        forced_of(visible, older_than).to_multiset().add(
            pending_of(visible, older_than).to_multiset(),
        ) == visible.to_multiset(),
    decreases visible.len(),
{
    if visible.len() == 0 {
        assert(forced_of(visible, older_than).to_multiset().add(
            pending_of(visible, older_than).to_multiset(),
        ) =~= visible.to_multiset());
    } else {
        lemma_split_filters(visible.drop_last(), older_than);
        assert(visible.drop_last().push(visible.last()) =~= visible);
        assert(forced_of(visible, older_than).to_multiset().add(
            pending_of(visible, older_than).to_multiset(),
        ) =~= visible.to_multiset());
    }
}

/// Sizes and contents through the matching pass: every matched device
/// consumes exactly one plan, and the devices that went in come out in
/// `keep` or `del`, none lost and none invented.
pub proof fn lemma_reconcile_loop_counts(
    plans: Seq<HardwarePlan>,
    pending: Seq<Device>,
    keep: Seq<Device>,
    del: Seq<Device>,
)
    ensures
        ({
            let r = reconcile_loop(plans, pending, keep, del);
            &&& r.0.len() + r.1.len() == plans.len() + keep.len()
            &&& r.1.len() + r.2.len() == keep.len() + del.len() + pending.len()
            &&& r.1.to_multiset().add(r.2.to_multiset()) == keep.to_multiset().add(
                del.to_multiset(),
            ).add(pending.to_multiset())
        }),
    decreases pending.len(),
{
    let r = reconcile_loop(plans, pending, keep, del);
    if pending.len() == 0 {
        assert(pending.to_multiset() =~= Multiset::<Device>::empty());
        assert(r.1.to_multiset().add(r.2.to_multiset()) =~= keep.to_multiset().add(
            del.to_multiset(),
        ).add(pending.to_multiset()));
    } else {
        let d = pending[0];
        lemma_first_match_from(plans, d, 0);
        assert(pending.remove(0) =~= pending.drop_first());
        assert(pending.contains(d)) by {
            assert(pending[0] == d);
        }
        assert(pending.drop_first().to_multiset().insert(d) =~= pending.to_multiset());
        match first_match_from(plans, d, 0) {
            Some(j) => {
                lemma_reconcile_loop_counts(plans.remove(j), pending.drop_first(), keep.push(d), del);
                assert(r.1.to_multiset().add(r.2.to_multiset()) =~= keep.to_multiset().add(
                    del.to_multiset(),
                ).add(pending.to_multiset()));
            },
            None => {
                lemma_reconcile_loop_counts(plans, pending.drop_first(), keep, del.push(d));
                assert(r.1.to_multiset().add(r.2.to_multiset()) =~= keep.to_multiset().add(
                    del.to_multiset(),
                ).add(pending.to_multiset()));
            },
        }
    }
}

/// Where the matching pass's outputs come from: kept devices were already
/// kept or were pending, and nothing ever leaves `del`.
proof fn lemma_reconcile_loop_provenance(
    plans: Seq<HardwarePlan>,
    pending: Seq<Device>,
    keep: Seq<Device>,
    del: Seq<Device>,
)
    ensures
        ({
            let r = reconcile_loop(plans, pending, keep, del);
            &&& forall|d: Device|
                #[trigger] r.1.contains(d) ==> keep.contains(d) || pending.contains(d)
            &&& forall|d: Device| #[trigger] del.contains(d) ==> r.2.contains(d)
        }),
    decreases pending.len(),
{
    let r = reconcile_loop(plans, pending, keep, del);
    if pending.len() == 0 {
    } else {
        let d0 = pending[0];
        assert(pending.contains(d0)) by {
            assert(pending[0] == d0);
        }
        match first_match_from(plans, d0, 0) {
            Some(j) => {
                lemma_first_match_from(plans, d0, 0);
                let rr = reconcile_loop(plans.remove(j), pending.drop_first(), keep.push(d0), del);
                assert(r == rr);
                lemma_reconcile_loop_provenance(
                    plans.remove(j),
                    pending.drop_first(),
                    keep.push(d0),
                    del,
                );
                assert forall|d: Device| #[trigger] r.1.contains(d) implies keep.contains(d)
                    || pending.contains(d) by {
                    assert(keep.push(d0).contains(d) || pending.drop_first().contains(d));
                    if keep.push(d0).contains(d) {
                        let w = choose|w: int|
                            0 <= w < keep.push(d0).len() && keep.push(d0)[w] == d;
                        if w < keep.len() {
                            assert(keep[w] == d);
                        } else {
                            assert(d == d0);
                        }
                    } else {
                        let w = choose|w: int|
                            0 <= w < pending.drop_first().len() && pending.drop_first()[w] == d;
                        assert(pending[w + 1] == d);
                    }
                }
            },
            None => {
                let rr = reconcile_loop(plans, pending.drop_first(), keep, del.push(d0));
                assert(r == rr);
                lemma_reconcile_loop_provenance(plans, pending.drop_first(), keep, del.push(d0));
                assert forall|d: Device| #[trigger] r.1.contains(d) implies keep.contains(d)
                    || pending.contains(d) by {
                    assert(keep.contains(d) || pending.drop_first().contains(d));
                    if pending.drop_first().contains(d) {
                        let w = choose|w: int|
                            0 <= w < pending.drop_first().len() && pending.drop_first()[w] == d;
                        assert(pending[w + 1] == d);
                    }
                }
                assert forall|d: Device| #[trigger] del.contains(d) implies r.2.contains(d) by {
                    let w = choose|w: int| 0 <= w < del.len() && del[w] == d;
                    assert(del.push(d0)[w] == d);
                    assert(del.push(d0).contains(d));
                }
            },
        }
    }
}

/// Every device of `forced_of` (resp. `pending_of`) satisfies (resp.
/// refutes) the forced-removal predicate, and comes from `visible`.
proof fn lemma_split_membership(visible: Seq<Device>, older_than: i64)
    ensures
        forall|d: Device|
            #[trigger] forced_of(visible, older_than).contains(d) ==> visible.contains(d)
                && spec_forced_out(d, older_than),
        forall|d: Device|
            #[trigger] pending_of(visible, older_than).contains(d) ==> visible.contains(d)
                && !spec_forced_out(d, older_than),
        forall|d: Device|
            visible.contains(d) && spec_forced_out(d, older_than) ==> #[trigger] forced_of(
                visible,
                older_than,
            ).contains(d),
    decreases visible.len(),
{
    if visible.len() == 0 {
    } else {
        lemma_split_membership(visible.drop_last(), older_than);
        let prev = visible.drop_last();
        let last = visible.last();
        let fo = forced_of(visible, older_than);
        let po = pending_of(visible, older_than);
        let fprev = forced_of(prev, older_than);
        let pprev = pending_of(prev, older_than);
        assert(forall|d: Device| #[trigger] prev.contains(d) ==> visible.contains(d)) by {
            assert forall|d: Device| #[trigger] prev.contains(d) implies visible.contains(d) by {
                let w = choose|w: int| 0 <= w < prev.len() && prev[w] == d;
                assert(visible[w] == d);
            }
        }
        assert(visible.contains(last)) by {
            assert(visible[visible.len() - 1] == last);
        }
        assert forall|d: Device| #[trigger] fo.contains(d) implies visible.contains(d)
            && spec_forced_out(d, older_than) by {
            let w = choose|w: int| 0 <= w < fo.len() && fo[w] == d;
            if spec_forced_out(last, older_than) {
                if w < fprev.len() {
                    assert(fprev[w] == d);
                    assert(fprev.contains(d));
                } else {
                    assert(d == last);
                }
            } else {
                assert(fprev[w] == d);
                assert(fprev.contains(d));
            }
        }
        assert forall|d: Device| #[trigger] po.contains(d) implies visible.contains(d)
            && !spec_forced_out(d, older_than) by {
            let w = choose|w: int| 0 <= w < po.len() && po[w] == d;
            if !spec_forced_out(last, older_than) {
                if w < pprev.len() {
                    assert(pprev[w] == d);
                    assert(pprev.contains(d));
                } else {
                    assert(d == last);
                }
            } else {
                assert(pprev[w] == d);
                assert(pprev.contains(d));
            }
        }
        assert forall|d: Device|
            visible.contains(d) && spec_forced_out(d, older_than) implies #[trigger] fo.contains(
            d,
        ) by {
            let w = choose|w: int| 0 <= w < visible.len() && visible[w] == d;
            if w < prev.len() {
                assert(prev[w] == d);
                assert(prev.contains(d));
                assert(fprev.contains(d));
                let v = choose|v: int| 0 <= v < fprev.len() && fprev[v] == d;
                if spec_forced_out(last, older_than) {
                    assert(fo[v] == d);
                } else {
                    assert(fo[v] == d);
                }
            } else {
                assert(d == last);
                assert(fo[fo.len() - 1] == d);
            }
        }
    }
}

/// The reconciler never invents, loses, or duplicates a device: the
/// kept and deleted devices together are exactly the visible fleet, and
/// unmatched plans plus matched devices account for every desired plan.
pub proof fn lemma_reconcile_partition(
    plans: Seq<HardwarePlan>,
    devices: Seq<Device>,
    tags: Seq<String>,
    older_than: i64,
)
    ensures
        ({
            let r = spec_reconcile(plans, devices, tags, older_than);
            let visible = visible_devices(devices, tags);
            &&& r.0.len() + r.1.len() == plans.len()
            &&& r.1.len() + r.2.len() == visible.len()
            &&& r.1.to_multiset().add(r.2.to_multiset()) == visible.to_multiset()
        }),
{
    let visible = visible_devices(devices, tags);
    let pend = pending_of(visible, older_than);
    let forc = forced_of(visible, older_than);
    lemma_reconcile_loop_counts(plans, pend, Seq::empty(), forc);
    lemma_split_filters(visible, older_than);
    let r = spec_reconcile(plans, devices, tags, older_than);
    assert(Seq::<Device>::empty().to_multiset() =~= Multiset::<Device>::empty());
    assert(r.1.to_multiset().add(r.2.to_multiset()) =~= visible.to_multiset());
}

/// Everything the visibility filter lets through comes from the device
/// list itself.
proof fn lemma_visible_membership(devices: Seq<Device>, tags: Seq<String>)
    ensures
        forall|d: Device|
            #[trigger] visible_devices(devices, tags).contains(d) ==> devices.contains(d),
    decreases devices.len(),
{
    if devices.len() > 0 {
        lemma_visible_membership(devices.drop_last(), tags);
        let prev = devices.drop_last();
        let vis = visible_devices(devices, tags);
        assert forall|d: Device| #[trigger] vis.contains(d) implies devices.contains(d) by {
            let w = choose|w: int| 0 <= w < vis.len() && vis[w] == d;
            let vprev = visible_devices(prev, tags);
            if spec_visible(devices.last(), tags) && w == vprev.len() {
                assert(devices[devices.len() - 1] == d);
            } else {
                assert(vprev[w] == d);
                assert(vprev.contains(d));
                let v = choose|v: int| 0 <= v < prev.len() && prev[v] == d;
                assert(devices[v] == d);
            }
        }
    }
}

/// A duplicate-free device list filters to a duplicate-free visible fleet.
proof fn lemma_visible_no_duplicates(devices: Seq<Device>, tags: Seq<String>)
    requires
        devices.no_duplicates(),
    ensures
        visible_devices(devices, tags).no_duplicates(),
    decreases devices.len(),
{
    if devices.len() > 0 {
        let prev = devices.drop_last();
        let last = devices.last();
        assert(prev.no_duplicates()) by {
            assert(forall|k: int| 0 <= k < prev.len() ==> prev[k] == devices[k]);
        }
        lemma_visible_no_duplicates(prev, tags);
        lemma_visible_membership(prev, tags);
        let vprev = visible_devices(prev, tags);
        if spec_visible(last, tags) {
            assert(!vprev.contains(last)) by {
                if vprev.contains(last) {
                    assert(prev.contains(last));
                    let v = choose|v: int| 0 <= v < prev.len() && prev[v] == last;
                    assert(devices[v] == devices[devices.len() - 1]);
                    assert(false);
                }
            }
            assert(vprev.push(last).no_duplicates()) by {
                assert forall|a: int, b: int|
                    0 <= a < b < vprev.push(last).len() implies vprev.push(last)[a] != vprev.push(
                    last,
                )[b] by {
                    if b < vprev.len() {
                    } else {
                        assert(vprev.push(last)[b] == last);
                        if vprev.push(last)[a] == last {
                            assert(vprev[a] == last);
                            assert(vprev.contains(last));
                        }
                    }
                }
            }
        }
    }
}

/// No device lands in both `to_keep` and `to_delete`: on a duplicate-free
/// device list the two partitions are disjoint.
pub proof fn lemma_reconcile_no_overlap(
    plans: Seq<HardwarePlan>,
    devices: Seq<Device>,
    tags: Seq<String>,
    older_than: i64,
)
    requires
        devices.no_duplicates(),
    ensures
        forall|d: Device|
            !(#[trigger] spec_reconcile(plans, devices, tags, older_than).1.contains(d)
                && spec_reconcile(plans, devices, tags, older_than).2.contains(d)),
{
    let visible = visible_devices(devices, tags);
    let r = spec_reconcile(plans, devices, tags, older_than);
    lemma_visible_no_duplicates(devices, tags);
    visible.lemma_multiset_has_no_duplicates();
    lemma_reconcile_partition(plans, devices, tags, older_than);
    assert forall|d: Device|
        !(#[trigger] r.1.contains(d) && r.2.contains(d)) by {
        if r.1.contains(d) && r.2.contains(d) {
            assert(r.1.to_multiset().count(d) > 0);
            assert(r.2.to_multiset().count(d) > 0);
            assert(visible.to_multiset().count(d) == r.1.to_multiset().count(d)
                + r.2.to_multiset().count(d));
            assert(visible.to_multiset().contains(d));
            assert(visible.to_multiset().count(d) == 1);
            assert(false);
        }
    }
}

/// Running the reconciler twice on equal inputs yields equal partitions:
/// the outcome is a pure function of the desired plans, the device list,
/// the tag filter and the rotation cutoff.
pub proof fn lemma_reconcile_deterministic(
    plans1: Seq<HardwarePlan>,
    devices1: Seq<Device>,
    tags1: Seq<String>,
    older_than1: i64,
    plans2: Seq<HardwarePlan>,
    devices2: Seq<Device>,
    tags2: Seq<String>,
    older_than2: i64,
)
    requires
        plans1 == plans2,
        devices1 == devices2,
        tags1 == tags2,
        older_than1 == older_than2,
    ensures
        spec_reconcile(plans1, devices1, tags1, older_than1) == spec_reconcile(
            plans2,
            devices2,
            tags2,
            older_than2,
        ),
{
}

/// A visible device already carrying the drain marker always lands in
/// `to_delete` and never in `to_keep`, whatever the desired plans say.
pub proof fn lemma_drain_marker_forces_delete(
    plans: Seq<HardwarePlan>,
    devices: Seq<Device>,
    tags: Seq<String>,
    older_than: i64,
    d: Device,
)
    requires
        visible_devices(devices, tags).contains(d),
        d.spec_has_tag(spec_drain_marker()),
    ensures
        spec_reconcile(plans, devices, tags, older_than).2.contains(d),
        !spec_reconcile(plans, devices, tags, older_than).1.contains(d),
{
    let visible = visible_devices(devices, tags);
    let pend = pending_of(visible, older_than);
    let forc = forced_of(visible, older_than);
    lemma_split_membership(visible, older_than);
    assert(spec_forced_out(d, older_than));
    assert(forc.contains(d));
    lemma_reconcile_loop_provenance(plans, pend, Seq::empty(), forc);
    assert(!pend.contains(d));
    let r = spec_reconcile(plans, devices, tags, older_than);
    if r.1.contains(d) {
        assert(Seq::<Device>::empty().contains(d) || pend.contains(d));
        assert(false);
    }
}

} // verus!
