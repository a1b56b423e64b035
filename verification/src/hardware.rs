//! The sizing policy: from observed demand to a desired list of machine
//! plans.
//!
//! Demand is summarized per (platform, job size) key by summing the
//! runnable-job counts the queue reports; each configured sizing category
//! then contributes `clamp(runnable / divisor, minimum, maximum)` machines,
//! spread round-robin over the category's plan list.  Categories with no
//! demand data or with no plans contribute nothing and raise a warning.

use vstd::arithmetic::div_mod::lemma_div_is_ordered;
use vstd::prelude::*;

use crate::machine_type::{spec_job_size, spec_system, JobSize, MachineType, System};

verus! {

/// The queue's report for one raw machine-type descriptor.
#[derive(Debug)]
pub struct MachineTypeStatus {
    pub runnable: usize,
}

/// The queue's whole status report: one entry per raw machine type.
#[derive(Debug)]
pub struct QueueRunnerStatus {
    pub machine_types: Vec<(MachineType, MachineTypeStatus)>,
}

/// A provisionable machine template.  `bid` is the spot bid price in
/// fixed-point micro-units of currency.
#[derive(Debug)]
pub struct HardwarePlan {
    pub bid: u64,
    pub plan: String,
    pub netboot_url: String,
}

impl Clone for HardwarePlan {
    fn clone(&self) -> (r: Self)
        ensures
            r == *self,
    {
        HardwarePlan {
            bid: self.bid,
            plan: self.plan.clone(),
            netboot_url: self.netboot_url.clone(),
        }
    }
}

/// The capacity policy of one sizing category.
#[derive(Debug)]
pub struct HardwareCategory {
    pub divisor: usize,
    pub minimum: usize,
    pub maximum: usize,
    pub plans: Vec<HardwarePlan>,
}

/// One sizing category together with the (platform, job size) demand key
/// it watches.
#[derive(Debug)]
pub struct CategoryEntry {
    pub system: System,
    pub size: JobSize,
    pub category: HardwareCategory,
}

/// The parsed configuration: the sizing categories, plus the tags and the
/// metro to stamp on machines this fleet creates.
#[derive(Debug)]
pub struct Config {
    pub categories: Vec<CategoryEntry>,
    pub tags: Vec<String>,
    pub metro: String,
}

/// One sizing pass's output: the desired plan list (duplicates allowed,
/// one element per desired machine) and the tags/metro for new machines.
#[derive(Debug)]
pub struct DesiredHardwareConfig {
    pub plans: Vec<HardwarePlan>,
    pub tags: Vec<String>,
    pub metro: String,
}

/// One (platform, job size) key of the demand snapshot with its summed
/// runnable-job count.
#[derive(Debug)]
pub struct DemandEntry {
    pub system: System,
    pub size: JobSize,
    pub runnable: usize,
}

/// Observed demand, summed per (platform, job size) key.
#[derive(Debug)]
pub struct DemandSnapshot {
    pub entries: Vec<DemandEntry>,
}

/// Why a sizing category contributed nothing this pass.
#[derive(Clone, Copy, Debug, PartialEq, Eq, Structural)]
pub enum WarningKind {
    /// The snapshot holds no entry for the category's demand key.
    NoDemandData,
    /// The category's plan list is empty.
    NoPlans,
}

/// A non-fatal sizing anomaly: the category with this demand key
/// contributed no machines.
#[derive(Debug)]
pub struct SizingWarning {
    pub system: System,
    pub size: JobSize,
    pub kind: WarningKind,
}

// ---------------------------------------------------------------------
// Abstract views: demand entries as (platform characters, size, count).
// ---------------------------------------------------------------------

/// Abstract view of a demand entry.
pub open spec fn abs_entry(e: DemandEntry) -> (Seq<char>, JobSize, nat) {
    (e.system.0@, e.size, e.runnable as nat)
}

/// Abstract view of a demand entry list.
pub open spec fn abs_entries(s: Seq<DemandEntry>) -> Seq<(Seq<char>, JobSize, nat)> {
    s.map_values(|e: DemandEntry| abs_entry(e))
}

/// Abstract view of one queue report line: raw descriptor and count.
pub open spec fn abs_mt(p: (MachineType, MachineTypeStatus)) -> (Seq<char>, nat) {
    (p.0.0@, p.1.runnable as nat)
}

/// Abstract view of the queue report.
pub open spec fn abs_mts(s: Seq<(MachineType, MachineTypeStatus)>) -> Seq<(Seq<char>, nat)> {
    s.map_values(|p: (MachineType, MachineTypeStatus)| abs_mt(p))
}

/// Abstract view of the managed-platform list.
pub open spec fn abs_systems(s: Seq<System>) -> Seq<Seq<char>> {
    s.map_values(|y: System| y.0@)
}

/// The snapshot entry carries exactly this demand key.
pub open spec fn key_matches(e: (Seq<char>, JobSize, nat), sys: Seq<char>, size: JobSize) -> bool {
    e.0 == sys && e.1 == size
}

/// Index of the first snapshot entry with this key, at or after `i`.
pub open spec fn key_index_from(
    snap: Seq<(Seq<char>, JobSize, nat)>,
    sys: Seq<char>,
    size: JobSize,
    i: int,
) -> Option<int>
    decreases snap.len() - i,
{
    if i >= snap.len() {
        None
    } else if key_matches(snap[i], sys, size) {
        Some(i)
    } else {
        key_index_from(snap, sys, size, i + 1)
    }
}

/// `key_index_from` finds the least matching index, or nothing.
pub proof fn lemma_key_index_from(
    snap: Seq<(Seq<char>, JobSize, nat)>,
    sys: Seq<char>,
    size: JobSize,
    i: int,
)
    requires
        0 <= i,
    ensures
        match key_index_from(snap, sys, size, i) {
            Some(j) => i <= j < snap.len() && key_matches(snap[j], sys, size) && (forall|k: int|
                i <= k < j ==> !key_matches(snap[k], sys, size)),
            None => forall|k: int| i <= k < snap.len() ==> !key_matches(snap[k], sys, size),
        },
    decreases snap.len() - i,
{
    if i >= snap.len() {
    } else if key_matches(snap[i], sys, size) {
    } else {
        lemma_key_index_from(snap, sys, size, i + 1);
    }
}

/// Total demand the snapshot records for a key (summed, so it is
/// meaningful even on snapshots with repeated keys).
pub open spec fn demand_of(
    snap: Seq<(Seq<char>, JobSize, nat)>,
    sys: Seq<char>,
    size: JobSize,
) -> nat
    decreases snap.len(),
{
    if snap.len() == 0 {
        0
    } else {
        demand_of(snap.drop_last(), sys, size) + if key_matches(snap.last(), sys, size) {
            snap.last().2
        } else {
            0
        }
    }
}

/// The snapshot holds an entry for this key.
pub open spec fn has_key(snap: Seq<(Seq<char>, JobSize, nat)>, sys: Seq<char>, size: JobSize) -> bool {
    exists|i: int| 0 <= i < snap.len() && key_matches(snap[i], sys, size)
}

/// No two snapshot entries carry the same key.
pub open spec fn keys_unique(snap: Seq<(Seq<char>, JobSize, nat)>) -> bool {
    forall|a: int, b: int|
        0 <= a < b < snap.len() ==> !((#[trigger] snap[a]).0 == (#[trigger] snap[b]).0
            && snap[a].1 == snap[b].1)
}

/// The queue line's derived demand key is exactly (sys, size).
pub open spec fn mt_matches(p: (Seq<char>, nat), sys: Seq<char>, size: JobSize) -> bool {
    spec_system(p.0) == sys && spec_job_size(p.0) == size
}

/// Sum of the queue's runnable counts whose derived key is (sys, size).
pub open spec fn runnable_sum(mts: Seq<(Seq<char>, nat)>, sys: Seq<char>, size: JobSize) -> nat
    decreases mts.len(),
{
    if mts.len() == 0 {
        0
    } else {
        runnable_sum(mts.drop_last(), sys, size) + if mt_matches(mts.last(), sys, size) {
            mts.last().1
        } else {
            0
        }
    }
}

/// Some queue line derives to this demand key.
pub open spec fn mt_present(mts: Seq<(Seq<char>, nat)>, sys: Seq<char>, size: JobSize) -> bool {
    exists|i: int| 0 <= i < mts.len() && mt_matches(mts[i], sys, size)
}

/// The demand snapshot built from the queue report: lines are processed
/// in order; a line whose platform is not managed is ignored; otherwise
/// its count is added to the entry with its derived key, a new entry
/// being appended for a key not seen before.
pub open spec fn spec_build_demand(mts: Seq<(Seq<char>, nat)>, managed: Seq<Seq<char>>) -> Seq<
    (Seq<char>, JobSize, nat),
>
    decreases mts.len(),
{
    if mts.len() == 0 {
        Seq::empty()
    } else {
        let prev = spec_build_demand(mts.drop_last(), managed);
        let raw = mts.last().0;
        let run = mts.last().1;
        let sys = spec_system(raw);
        let size = spec_job_size(raw);
        if !managed.contains(sys) {
            prev
        } else {
            match key_index_from(prev, sys, size, 0) {
                Some(j) => prev.update(j, (sys, size, prev[j].2 + run)),
                None => prev.push((sys, size, run)),
            }
        }
    }
}

// ---------------------------------------------------------------------
// Lemmas about demand sums.
// ---------------------------------------------------------------------

/// Appending an entry adds its count to its own key and nothing else.
proof fn lemma_demand_push(
    snap: Seq<(Seq<char>, JobSize, nat)>,
    e: (Seq<char>, JobSize, nat),
    sys: Seq<char>,
    size: JobSize,
)
    ensures
        demand_of(snap.push(e), sys, size) == demand_of(snap, sys, size) + if key_matches(
            e,
            sys,
            size,
        ) {
            e.2
        } else {
            0
        },
{
    assert(snap.push(e).drop_last() =~= snap);
    assert(snap.push(e).last() == e);
}

/// Replacing the entry at `j` swaps its contribution for the new one.
proof fn lemma_demand_update(
    snap: Seq<(Seq<char>, JobSize, nat)>,
    j: int,
    e: (Seq<char>, JobSize, nat),
    sys: Seq<char>,
    size: JobSize,
)
    requires
        0 <= j < snap.len(),
    ensures
        demand_of(snap.update(j, e), sys, size) + (if key_matches(snap[j], sys, size) {
            snap[j].2
        } else {
            0
        }) == demand_of(snap, sys, size) + (if key_matches(e, sys, size) {
            e.2
        } else {
            0
        }),
    decreases snap.len(),
{
    if j == snap.len() - 1 {
        assert(snap.update(j, e).drop_last() =~= snap.drop_last());
        assert(snap.update(j, e).last() == e);
    } else {
        assert(snap.update(j, e).drop_last() =~= snap.drop_last().update(j, e));
        assert(snap.update(j, e).last() == snap.last());
        lemma_demand_update(snap.drop_last(), j, e, sys, size);
        assert(snap.drop_last()[j] == snap[j]);
    }
}

/// A key no entry carries sums to zero.
proof fn lemma_demand_absent(snap: Seq<(Seq<char>, JobSize, nat)>, sys: Seq<char>, size: JobSize)
    requires
        !has_key(snap, sys, size),
    ensures
        demand_of(snap, sys, size) == 0,
    decreases snap.len(),
{
    if snap.len() > 0 {
        assert(!key_matches(snap.last(), sys, size));
        assert(forall|i: int|
            0 <= i < snap.drop_last().len() ==> snap.drop_last()[i] == snap[i]);
        lemma_demand_absent(snap.drop_last(), sys, size);
    }
}

/// With unique keys, the sum for a key is the matching entry's count.
pub proof fn lemma_demand_single(
    snap: Seq<(Seq<char>, JobSize, nat)>,
    j: int,
    sys: Seq<char>,
    size: JobSize,
)
    requires
        keys_unique(snap),
        0 <= j < snap.len(),
        key_matches(snap[j], sys, size),
    ensures
        demand_of(snap, sys, size) == snap[j].2,
    decreases snap.len(),
{
    if j == snap.len() - 1 {
        assert(!has_key(snap.drop_last(), sys, size)) by {
            if has_key(snap.drop_last(), sys, size) {
                let a = choose|a: int|
                    0 <= a < snap.drop_last().len() && key_matches(snap.drop_last()[a], sys, size);
                assert(snap[a] == snap.drop_last()[a]);
                assert(!(snap[a].0 == snap[j].0 && snap[a].1 == snap[j].1));
            }
        }
        lemma_demand_absent(snap.drop_last(), sys, size);
    } else {
        assert(!key_matches(snap.last(), sys, size)) by {
            let l = snap.len() - 1;
            assert(!(snap[j].0 == snap[l].0 && snap[j].1 == snap[l].1));
        }
        assert(keys_unique(snap.drop_last())) by {
            assert(forall|i: int|
                0 <= i < snap.drop_last().len() ==> snap.drop_last()[i] == snap[i]);
        }
        assert(snap.drop_last()[j] == snap[j]);
        lemma_demand_single(snap.drop_last(), j, sys, size);
    }
}

/// One more queue line adds its count to its own key's sum.
proof fn lemma_rsum_take_step(mts: Seq<(Seq<char>, nat)>, i: int, sys: Seq<char>, size: JobSize)
    requires
        0 <= i < mts.len(),
    ensures
        runnable_sum(mts.take(i + 1), sys, size) == runnable_sum(mts.take(i), sys, size)
            + if mt_matches(mts[i], sys, size) {
            mts[i].1
        } else {
            0
        },
{
    assert(mts.take(i + 1).drop_last() =~= mts.take(i));
    assert(mts.take(i + 1).last() == mts[i]);
}

/// A prefix of the queue report never sums to more than the whole.
proof fn lemma_rsum_take_le(mts: Seq<(Seq<char>, nat)>, i: int, sys: Seq<char>, size: JobSize)
    requires
        0 <= i <= mts.len(),
    ensures
        runnable_sum(mts.take(i), sys, size) <= runnable_sum(mts, sys, size),
    decreases mts.len() - i,
{
    if i == mts.len() {
        assert(mts.take(i) =~= mts);
    } else {
        lemma_rsum_take_step(mts, i, sys, size);
        lemma_rsum_take_le(mts, i + 1, sys, size);
    }
}

/// What the built snapshot holds for each key: the summed runnable count
/// of the managed lines deriving to it, with a key present exactly when a
/// managed line derives to it.
pub proof fn lemma_build_sound(
    mts: Seq<(Seq<char>, nat)>,
    managed: Seq<Seq<char>>,
    sys: Seq<char>,
    size: JobSize,
)
    ensures
        demand_of(spec_build_demand(mts, managed), sys, size) == if managed.contains(sys) {
            runnable_sum(mts, sys, size)
        } else {
            0
        },
        has_key(spec_build_demand(mts, managed), sys, size) <==> (managed.contains(sys)
            && mt_present(mts, sys, size)),
    decreases mts.len(),
{
    if mts.len() == 0 {
    } else {
        let prev = spec_build_demand(mts.drop_last(), managed);
        let raw = mts.last().0;
        let run = mts.last().1;
        let lsys = spec_system(raw);
        let lsize = spec_job_size(raw);
        lemma_build_sound(mts.drop_last(), managed, sys, size);
        assert(mt_present(mts.drop_last(), sys, size) ==> mt_present(mts, sys, size)) by {
            if mt_present(mts.drop_last(), sys, size) {
                let w = choose|w: int|
                    0 <= w < mts.drop_last().len() && mt_matches(mts.drop_last()[w], sys, size);
                assert(mts[w] == mts.drop_last()[w]);
                assert(mt_matches(mts[w], sys, size));
            }
        }
        assert(runnable_sum(mts, sys, size) == runnable_sum(mts.drop_last(), sys, size)
            + if mt_matches(mts.last(), sys, size) {
            run
        } else {
            0
        });
        if !managed.contains(lsys) {
            // the line is ignored
            if mt_matches(mts.last(), sys, size) {
                assert(sys == lsys);
                assert(!managed.contains(sys));
            }
            assert(mt_present(mts, sys, size) && managed.contains(sys) ==> mt_present(
                mts.drop_last(),
                sys,
                size,
            )) by {
                if mt_present(mts, sys, size) && managed.contains(sys) {
                    let w = choose|w: int| 0 <= w < mts.len() && mt_matches(mts[w], sys, size);
                    if w == mts.len() - 1 {
                        assert(sys == lsys);
                        assert(false);
                    } else {
                        assert(mts.drop_last()[w] == mts[w]);
                    }
                }
            }
        } else {
            lemma_key_index_from(prev, lsys, lsize, 0);
            let matches_here = mt_matches(mts.last(), sys, size);
            match key_index_from(prev, lsys, lsize, 0) {
                Some(j) => {
                    let e = (lsys, lsize, prev[j].2 + run);
                    let built = prev.update(j, e);
                    lemma_demand_update(prev, j, e, sys, size);
                    if matches_here {
                        assert(sys == lsys && size == lsize);
                        assert(key_matches(prev[j], sys, size));
                        assert(key_matches(e, sys, size));
                        assert(demand_of(built, sys, size) == demand_of(prev, sys, size) + run);
                        assert(has_key(built, sys, size)) by {
                            assert(key_matches(built[j], sys, size));
                        }
                        assert(mt_present(mts, sys, size)) by {
                            assert(mt_matches(mts[mts.len() - 1], sys, size));
                        }
                    } else {
                        assert(!(key_matches(prev[j], sys, size))) by {
                            if key_matches(prev[j], sys, size) {
                                assert(sys == lsys && size == lsize);
                            }
                        }
                        assert(!(key_matches(e, sys, size)));
                        assert(demand_of(built, sys, size) == demand_of(prev, sys, size));
                        assert(has_key(built, sys, size) <==> has_key(prev, sys, size)) by {
                            if has_key(prev, sys, size) {
                                let a = choose|a: int|
                                    0 <= a < prev.len() && key_matches(prev[a], sys, size);
                                assert(a != j);
                                assert(built[a] == prev[a]);
                                assert(key_matches(built[a], sys, size));
                            }
                            if has_key(built, sys, size) {
                                let a = choose|a: int|
                                    0 <= a < built.len() && key_matches(built[a], sys, size);
                                assert(a != j);
                                assert(prev[a] == built[a]);
                                assert(key_matches(prev[a], sys, size));
                            }
                        }
                        assert(mt_present(mts, sys, size) <==> mt_present(
                            mts.drop_last(),
                            sys,
                            size,
                        )) by {
                            if mt_present(mts, sys, size) {
                                let w = choose|w: int|
                                    0 <= w < mts.len() && mt_matches(mts[w], sys, size);
                                if w == mts.len() - 1 {
                                    assert(false);
                                } else {
                                    assert(mts.drop_last()[w] == mts[w]);
                                }
                            }
                        }
                    }
                },
                None => {
                    let e = (lsys, lsize, run);
                    let built = prev.push(e);
                    lemma_demand_push(prev, e, sys, size);
                    if matches_here {
                        assert(sys == lsys && size == lsize);
                        assert(key_matches(e, sys, size));
                        assert(demand_of(built, sys, size) == demand_of(prev, sys, size) + run);
                        assert(has_key(built, sys, size)) by {
                            assert(built[built.len() - 1] == e);
                            assert(key_matches(built[built.len() - 1], sys, size));
                        }
                        assert(mt_present(mts, sys, size)) by {
                            assert(mt_matches(mts[mts.len() - 1], sys, size));
                        }
                    } else {
                        assert(!(key_matches(e, sys, size)));
                        assert(demand_of(built, sys, size) == demand_of(prev, sys, size));
                        assert(has_key(built, sys, size) <==> has_key(prev, sys, size)) by {
                            if has_key(prev, sys, size) {
                                let a = choose|a: int|
                                    0 <= a < prev.len() && key_matches(prev[a], sys, size);
                                assert(built[a] == prev[a]);
                                assert(key_matches(built[a], sys, size));
                            }
                            if has_key(built, sys, size) {
                                let a = choose|a: int|
                                    0 <= a < built.len() && key_matches(built[a], sys, size);
                                if a == built.len() - 1 {
                                    assert(false);
                                } else {
                                    assert(prev[a] == built[a]);
                                    assert(key_matches(prev[a], sys, size));
                                }
                            }
                        }
                        assert(mt_present(mts, sys, size) <==> mt_present(
                            mts.drop_last(),
                            sys,
                            size,
                        )) by {
                            if mt_present(mts, sys, size) {
                                let w = choose|w: int|
                                    0 <= w < mts.len() && mt_matches(mts[w], sys, size);
                                if w == mts.len() - 1 {
                                    assert(false);
                                } else {
                                    assert(mts.drop_last()[w] == mts[w]);
                                }
                            }
                        }
                    }
                },
            }
        }
    }
}

/// The built snapshot never repeats a key.
pub proof fn lemma_build_unique(mts: Seq<(Seq<char>, nat)>, managed: Seq<Seq<char>>)
    ensures
        keys_unique(spec_build_demand(mts, managed)),
    decreases mts.len(),
{
    if mts.len() > 0 {
        let prev = spec_build_demand(mts.drop_last(), managed);
        let raw = mts.last().0;
        let lsys = spec_system(raw);
        let lsize = spec_job_size(raw);
        lemma_build_unique(mts.drop_last(), managed);
        if managed.contains(lsys) {
            lemma_key_index_from(prev, lsys, lsize, 0);
            match key_index_from(prev, lsys, lsize, 0) {
                Some(j) => {
                    let e = (lsys, lsize, prev[j].2 + mts.last().1);
                    let built = prev.update(j, e);
                    assert(keys_unique(built)) by {
                        assert(forall|k: int|
                            0 <= k < built.len() ==> (#[trigger] built[k]).0 == prev[k].0
                                && built[k].1 == prev[k].1);
                    }
                },
                None => {
                    let e = (lsys, lsize, mts.last().1);
                    let built = prev.push(e);
                    assert(keys_unique(built)) by {
                        assert(forall|a: int, b: int|
                            0 <= a < b < built.len() && b < prev.len() ==> !((
                            #[trigger] built[a]).0 == (#[trigger] built[b]).0 && built[a].1
                                == built[b].1));
                        assert(forall|a: int|
                            0 <= a < prev.len() ==> !key_matches(#[trigger] prev[a], lsys, lsize));
                        assert(forall|a: int|
                            0 <= a < prev.len() ==> !((#[trigger] built[a]).0 == e.0 && built[a].1
                                == e.1));
                    }
                },
            }
        }
    }
}

// ---------------------------------------------------------------------
// The sizing arithmetic.
// ---------------------------------------------------------------------

/// How many machines a category wants:
/// `min(maximum, max(minimum, runnable / divisor))`.
pub open spec fn spec_wanted(runnable: nat, divisor: nat, minimum: nat, maximum: nat) -> nat
    recommends
        divisor > 0,
{
    let q = runnable / divisor;
    let lo = if q < minimum {
        minimum
    } else {
        q
    };
    if lo > maximum {
        maximum
    } else {
        lo
    }
}

/// With a sane category (minimum at most maximum), the wanted count
/// always lies between the two bounds.
pub proof fn lemma_wanted_in_range(runnable: nat, divisor: nat, minimum: nat, maximum: nat)
    requires
        divisor > 0,
        minimum <= maximum,
    ensures
        minimum <= spec_wanted(runnable, divisor, minimum, maximum) <= maximum,
{
}

/// The wanted count never decreases as demand grows.
pub proof fn lemma_wanted_monotone(r1: nat, r2: nat, divisor: nat, minimum: nat, maximum: nat)
    requires
        divisor > 0,
        r1 <= r2,
    ensures
        spec_wanted(r1, divisor, minimum, maximum) <= spec_wanted(r2, divisor, minimum, maximum),
{
    lemma_div_is_ordered(r1 as int, r2 as int, divisor as int);
}

/// Compute the wanted machine count for a category under observed demand.
pub fn wanted_count(runnable: usize, category: &HardwareCategory) -> (w: usize)
    requires
        category.divisor > 0,
    ensures
        w as nat == spec_wanted(
            runnable as nat,
            category.divisor as nat,
            category.minimum as nat,
            category.maximum as nat,
        ),
{
    let q = runnable / category.divisor;
    let lo = if q < category.minimum {
        category.minimum
    } else {
        q
    };
    if lo > category.maximum {
        category.maximum
    } else {
        lo
    }
}

// ---------------------------------------------------------------------
// Desired plans and warnings, category by category.
// ---------------------------------------------------------------------

/// `n` plans drawn from `plans` in round-robin order.
pub open spec fn round_robin(plans: Seq<HardwarePlan>, n: nat) -> Seq<HardwarePlan>
    recommends
        plans.len() > 0,
{
    Seq::new(n, |k: int| plans[k % plans.len() as int])
}

/// What one category contributes to the desired plan list.
pub open spec fn category_contribution(
    c: CategoryEntry,
    snap: Seq<(Seq<char>, JobSize, nat)>,
) -> Seq<HardwarePlan> {
    if !has_key(snap, c.system.0@, c.size) {
        Seq::empty()
    } else if c.category.plans@.len() == 0 {
        Seq::empty()
    } else {
        round_robin(
            c.category.plans@,
            spec_wanted(
                demand_of(snap, c.system.0@, c.size),
                c.category.divisor as nat,
                c.category.minimum as nat,
                c.category.maximum as nat,
            ),
        )
    }
}

/// The whole desired plan list: category contributions concatenated in
/// configuration order.
pub open spec fn desired_plans(
    categories: Seq<CategoryEntry>,
    snap: Seq<(Seq<char>, JobSize, nat)>,
) -> Seq<HardwarePlan>
    decreases categories.len(),
{
    if categories.len() == 0 {
        Seq::empty()
    } else {
        desired_plans(categories.drop_last(), snap) + category_contribution(categories.last(), snap)
    }
}

/// The warning a category raises, if any.
pub open spec fn category_warning(c: CategoryEntry, snap: Seq<(Seq<char>, JobSize, nat)>) -> Option<
    SizingWarning,
> {
    if !has_key(snap, c.system.0@, c.size) {
        Some(SizingWarning { system: c.system, size: c.size, kind: WarningKind::NoDemandData })
    } else if c.category.plans@.len() == 0 {
        Some(SizingWarning { system: c.system, size: c.size, kind: WarningKind::NoPlans })
    } else {
        None
    }
}

/// All warnings of one sizing pass, in configuration order.
pub open spec fn spec_warnings(
    categories: Seq<CategoryEntry>,
    snap: Seq<(Seq<char>, JobSize, nat)>,
) -> Seq<SizingWarning>
    decreases categories.len(),
{
    if categories.len() == 0 {
        Seq::empty()
    } else {
        spec_warnings(categories.drop_last(), snap) + match category_warning(
            categories.last(),
            snap,
        ) {
            Some(w) => seq![w],
            None => Seq::empty(),
        }
    }
}

// ---------------------------------------------------------------------
// Executable sizing pass.
// ---------------------------------------------------------------------

/// Whether `sys` is one of the managed platforms.
fn is_managed(managed: &Vec<System>, sys: &str) -> (r: bool)
    ensures
        r == abs_systems(managed@).contains(sys@),
{
    let mut i: usize = 0;
    while i < managed.len()
        invariant
            i <= managed@.len(),
            forall|k: int| 0 <= k < i ==> abs_systems(managed@)[k] != sys@,
        decreases managed@.len() - i,
    {
        if crate::util::str_eq(managed[i].0.as_str(), sys) {
            proof {
                assert(abs_systems(managed@)[i as int] == sys@);
            }
            return true;
        }
        i += 1;
    }
    proof {
        if abs_systems(managed@).contains(sys@) {
            let w = choose|w: int|
                0 <= w < abs_systems(managed@).len() && abs_systems(managed@)[w] == sys@;
            assert(false);
        }
    }
    false
}

/// Find the snapshot entry carrying this demand key.
fn find_demand(snapshot: &DemandSnapshot, sys: &str, size: JobSize) -> (r: Option<usize>)
    ensures
        match r {
            Some(j) => (j as int) < snapshot.entries@.len() && key_matches(
                abs_entries(snapshot.entries@)[j as int],
                sys@,
                size,
            ),
            None => !has_key(abs_entries(snapshot.entries@), sys@, size),
        },
{
    let ghost snap = abs_entries(snapshot.entries@);
    let mut i: usize = 0;
    while i < snapshot.entries.len()
        invariant
            snap == abs_entries(snapshot.entries@),
            i <= snapshot.entries@.len(),
            forall|k: int| 0 <= k < i ==> !key_matches(snap[k], sys@, size),
        decreases snapshot.entries@.len() - i,
    {
        let e = &snapshot.entries[i];
        if crate::util::str_eq(e.system.0.as_str(), sys) && e.size == size {
            proof {
                assert(key_matches(snap[i as int], sys@, size));
            }
            return Some(i);
        }
        proof {
            assert(snap[i as int] == abs_entry(snapshot.entries@[i as int]));
            assert(!key_matches(snap[i as int], sys@, size));
        }
        i += 1;
    }
    proof {
        if has_key(snap, sys@, size) {
            let w = choose|w: int| 0 <= w < snap.len() && key_matches(snap[w], sys@, size);
            assert(false);
        }
    }
    None
}

/// Build the demand snapshot from the queue's report, ignoring lines
/// whose platform is not managed and summing counts per derived key.
pub fn build_demand(status: &QueueRunnerStatus, managed: &Vec<System>) -> (snap: DemandSnapshot)
    requires
        forall|sys: Seq<char>, size: JobSize|
            #[trigger] runnable_sum(abs_mts(status.machine_types@), sys, size) <= usize::MAX,
    ensures
        abs_entries(snap.entries@) == spec_build_demand(
            abs_mts(status.machine_types@),
            abs_systems(managed@),
        ),
        keys_unique(abs_entries(snap.entries@)),
{
    let ghost amts = abs_mts(status.machine_types@);
    let ghost ams = abs_systems(managed@);
    let mut entries: Vec<DemandEntry> = Vec::new();
    let mut i: usize = 0;
    proof {
        assert(amts.take(0) =~= Seq::<(Seq<char>, nat)>::empty());
        assert(abs_entries(entries@) =~= Seq::<(Seq<char>, JobSize, nat)>::empty());
    }
    while i < status.machine_types.len()
        invariant
            amts == abs_mts(status.machine_types@),
            ams == abs_systems(managed@),
            i <= status.machine_types@.len(),
            forall|sys: Seq<char>, size: JobSize|
                #[trigger] runnable_sum(amts, sys, size) <= usize::MAX,
            abs_entries(entries@) == spec_build_demand(amts.take(i as int), ams),
        decreases status.machine_types@.len() - i,
    {
        let ghost snap0 = abs_entries(entries@);
        let mt = &status.machine_types[i].0;
        let run = status.machine_types[i].1.runnable;
        let sysv = mt.system();
        let size = mt.get_job_size();
        let ghost lsys = spec_system(amts[i as int].0);
        let ghost lsize = spec_job_size(amts[i as int].0);
        proof {
            assert(amts[i as int] == abs_mt(status.machine_types@[i as int]));
            assert(sysv.0@ == lsys);
            assert(size == lsize);
            assert(amts.take(i + 1).drop_last() =~= amts.take(i as int));
            assert(amts.take(i + 1).last() == amts[i as int]);
        }
        if is_managed(managed, sysv.0.as_str()) {
            let found = find_first_key(&entries, sysv.0.as_str(), size);
            proof {
                lemma_key_index_from(snap0, lsys, lsize, 0);
            }
            match found {
                Some(j) => {
                    proof {
                        // the exec scan found the same index the spec picks
                        if let Some(sj) = key_index_from(snap0, lsys, lsize, 0) {
                            assert(sj == j);
                        } else {
                            assert(false);
                        }
                        // the addition below cannot overflow
                        lemma_build_unique(amts.take(i as int), ams);
                        lemma_demand_single(snap0, j as int, lsys, lsize);
                        lemma_build_sound(amts.take(i as int), ams, lsys, lsize);
                        lemma_rsum_take_step(amts, i as int, lsys, lsize);
                        lemma_rsum_take_le(amts, i + 1, lsys, lsize);
                        assert(mt_matches(amts[i as int], lsys, lsize));
                        assert(snap0[j as int].2 + run <= usize::MAX);
                    }
                    let old_entry = entries.remove(j);
                    let new_entry = DemandEntry {
                        system: old_entry.system,
                        size: old_entry.size,
                        runnable: old_entry.runnable + run,
                    };
                    entries.insert(j, new_entry);
                    proof {
                        assert(entries@ =~= entries@.subrange(0, entries@.len() as int));
                        assert(abs_entries(entries@) =~= snap0.update(
                            j as int,
                            (lsys, lsize, snap0[j as int].2 + run as nat),
                        ));
                    }
                },
                None => {
                    proof {
                        if let Some(sj) = key_index_from(snap0, lsys, lsize, 0) {
                            assert(key_matches(snap0[sj], lsys, lsize));
                            assert(false);
                        }
                    }
                    entries.push(DemandEntry { system: sysv, size, runnable: run });
                    proof {
                        assert(abs_entries(entries@) =~= snap0.push((lsys, lsize, run as nat)));
                    }
                },
            }
        } else {
            proof {
                assert(!ams.contains(lsys));
            }
        }
        i += 1;
    }
    proof {
        assert(amts.take(status.machine_types@.len() as int) =~= amts);
        lemma_build_unique(amts, ams);
    }
    DemandSnapshot { entries }
}

/// Find the first demand entry with this key, scanning in order.
fn find_first_key(entries: &Vec<DemandEntry>, sys: &str, size: JobSize) -> (r: Option<usize>)
    ensures
        match r {
            Some(j) => (j as int) < entries@.len() && key_index_from(
                abs_entries(entries@),
                sys@,
                size,
                0,
            ) == Some(j as int),
            None => key_index_from(abs_entries(entries@), sys@, size, 0) is None,
        },
{
    let ghost snap = abs_entries(entries@);
    let mut i: usize = 0;
    while i < entries.len()
        invariant
            snap == abs_entries(entries@),
            i <= entries@.len(),
            forall|k: int| 0 <= k < i ==> !key_matches(snap[k], sys@, size),
        decreases entries@.len() - i,
    {
        let e = &entries[i];
        if crate::util::str_eq(e.system.0.as_str(), sys) && e.size == size {
            proof {
                assert(key_matches(snap[i as int], sys@, size));
                lemma_key_index_from(snap, sys@, size, 0);
                if let Some(sj) = key_index_from(snap, sys@, size, 0) {
                    assert(sj == i);
                } else {
                    assert(false);
                }
            }
            return Some(i);
        }
        proof {
            assert(snap[i as int] == abs_entry(entries@[i as int]));
            assert(!key_matches(snap[i as int], sys@, size));
        }
        i += 1;
    }
    proof {
        lemma_key_index_from(snap, sys@, size, 0);
        if let Some(sj) = key_index_from(snap, sys@, size, 0) {
            assert(false);
        }
    }
    None
}

/// One sizing pass over the configured categories: the desired plan list
/// and the warnings, both in configuration order.
pub fn compute_desired(categories: &Vec<CategoryEntry>, snapshot: &DemandSnapshot) -> (r: (
    Vec<HardwarePlan>,
    Vec<SizingWarning>,
))
    requires
        forall|k: int|
            0 <= k < categories@.len() ==> (#[trigger] categories@[k]).category.divisor > 0,
        keys_unique(abs_entries(snapshot.entries@)),
    ensures
        r.0@ == desired_plans(categories@, abs_entries(snapshot.entries@)),
        r.1@ == spec_warnings(categories@, abs_entries(snapshot.entries@)),
{
    let ghost snap = abs_entries(snapshot.entries@);
    let mut plans: Vec<HardwarePlan> = Vec::new();
    let mut warnings: Vec<SizingWarning> = Vec::new();
    let mut i: usize = 0;
    proof {
        assert(categories@.take(0) =~= Seq::<CategoryEntry>::empty());
        assert(plans@ =~= desired_plans(categories@.take(0), snap));
        assert(warnings@ =~= spec_warnings(categories@.take(0), snap));
    }
    while i < categories.len()
        invariant
            snap == abs_entries(snapshot.entries@),
            keys_unique(snap),
            i <= categories@.len(),
            forall|k: int|
                0 <= k < categories@.len() ==> (#[trigger] categories@[k]).category.divisor > 0,
            plans@ == desired_plans(categories@.take(i as int), snap),
            warnings@ == spec_warnings(categories@.take(i as int), snap),
        decreases categories@.len() - i,
    {
        let c = &categories[i];
        let ghost centry = categories@[i as int];
        proof {
            assert(categories@.take(i + 1).drop_last() =~= categories@.take(i as int));
            assert(categories@.take(i + 1).last() == centry);
        }
        let ghost plans0 = plans@;
        let ghost warnings0 = warnings@;
        match find_demand(snapshot, c.system.0.as_str(), c.size) {
            None => {
                warnings.push(
                    SizingWarning {
                        system: c.system.clone(),
                        size: c.size,
                        kind: WarningKind::NoDemandData,
                    },
                );
                proof {
                    assert(category_warning(centry, snap) == Some(
                        SizingWarning {
                            system: centry.system,
                            size: centry.size,
                            kind: WarningKind::NoDemandData,
                        },
                    ));
                    assert(warnings@ =~= warnings0 + seq![
                        category_warning(centry, snap)
                            .unwrap(),
                    ]);
                    assert(category_contribution(centry, snap) =~= Seq::<HardwarePlan>::empty());
                    assert(plans@ =~= plans0 + category_contribution(centry, snap));
                }
            },
            Some(j) => {
                let runnable = snapshot.entries[j].runnable;
                proof {
                    lemma_demand_single(snap, j as int, centry.system.0@, centry.size);
                    assert(abs_entries(snapshot.entries@)[j as int] == abs_entry(
                        snapshot.entries@[j as int],
                    ));
                    assert(demand_of(snap, centry.system.0@, centry.size) == runnable as nat);
                }
                if c.category.plans.len() == 0 {
                    warnings.push(
                        SizingWarning {
                            system: c.system.clone(),
                            size: c.size,
                            kind: WarningKind::NoPlans,
                        },
                    );
                    proof {
                        assert(warnings@ =~= warnings0 + seq![
                            category_warning(centry, snap)
                                .unwrap(),
                        ]);
                        assert(category_contribution(centry, snap)
                            =~= Seq::<HardwarePlan>::empty());
                        assert(plans@ =~= plans0 + category_contribution(centry, snap));
                    }
                } else {
                    let w = wanted_count(runnable, &c.category);
                    let plen = c.category.plans.len();
                    let mut k: usize = 0;
                    proof {
                        assert(plans0 + round_robin(centry.category.plans@, 0) =~= plans0);
                    }
                    while k < w
                        invariant
                            0 <= i < categories@.len(),
                            centry == categories@[i as int],
                            *c == centry,
                            k <= w,
                            plen == centry.category.plans@.len(),
                            plen > 0,
                            plans@ == plans0 + round_robin(centry.category.plans@, k as nat),
                        decreases w - k,
                    {
                        plans.push(c.category.plans[k % plen].clone());
                        proof {
                            assert(plans@ =~= plans0 + round_robin(
                                centry.category.plans@,
                                (k + 1) as nat,
                            ));
                        }
                        k += 1;
                    }
                    proof {
                        assert(category_contribution(centry, snap) == round_robin(
                            centry.category.plans@,
                            spec_wanted(
                                demand_of(snap, centry.system.0@, centry.size),
                                centry.category.divisor as nat,
                                centry.category.minimum as nat,
                                centry.category.maximum as nat,
                            ),
                        ));
                        assert(plans@ == plans0 + category_contribution(centry, snap));
                        assert(category_warning(centry, snap) is None);
                        assert(warnings@ =~= warnings0 + Seq::<SizingWarning>::empty());
                    }
                }
            },
        }
        i += 1;
    }
    proof {
        assert(categories@.take(categories@.len() as int) =~= categories@);
    }
    (plans, warnings)
}

/// A tag with these contents already stands somewhere in `tags[..upto]`.
pub open spec fn tag_seen(tags: Seq<String>, upto: int, t: Seq<char>) -> bool {
    exists|j: int| 0 <= j < upto && tags[j]@ == t
}

/// The tag list with all duplicates removed (compared by contents), the
/// first occurrence of each tag kept: the fleet's tags form a set.
pub open spec fn unique_tags(tags: Seq<String>) -> Seq<String>
    decreases tags.len(),
{
    if tags.len() == 0 {
        tags
    } else {
        let prefix = unique_tags(tags.drop_last());
        if tag_seen(tags, tags.len() - 1, tags.last()@) {
            prefix
        } else {
            prefix.push(tags.last())
        }
    }
}

/// Copy `tags` with all duplicates removed, keeping first occurrences.
fn dedup_tags(tags: &Vec<String>) -> (r: Vec<String>)
    ensures
        r@ == unique_tags(tags@),
{
    let mut r: Vec<String> = Vec::new();
    let mut i: usize = 0;
    proof {
        assert(tags@.take(0) =~= Seq::<String>::empty());
        assert(r@ =~= unique_tags(tags@.take(0)));
    }
    while i < tags.len()
        invariant
            i <= tags@.len(),
            r@ == unique_tags(tags@.take(i as int)),
        decreases tags@.len() - i,
    {
        proof {
            assert(tags@.take(i + 1).drop_last() =~= tags@.take(i as int));
            assert(tags@.take(i + 1).last() == tags@[i as int]);
        }
        let mut seen = false;
        let mut j: usize = 0;
        while j < i
            invariant
                j <= i < tags@.len(),
                seen == tag_seen(tags@, j as int, tags@[i as int]@),
            decreases i - j,
        {
            if crate::util::str_eq(tags[j].as_str(), tags[i].as_str()) {
                seen = true;
            }
            proof {
                if !seen {
                    assert(forall|k: int|
                        0 <= k < j ==> tags@[k]@ != tags@[i as int]@) by {
                        if tag_seen(tags@, j as int, tags@[i as int]@) {
                            assert(false);
                        }
                    }
                }
            }
            j += 1;
        }
        proof {
            // the scan over [0, i) decides the spec's seen-before test for
            // the prefix of length i + 1
            assert(tag_seen(tags@.take(i + 1), i as int, tags@.take(i + 1).last()@) == tag_seen(
                tags@,
                i as int,
                tags@[i as int]@,
            )) by {
                if tag_seen(tags@.take(i + 1), i as int, tags@.take(i + 1).last()@) {
                    let w = choose|w: int|
                        0 <= w < i && (#[trigger] tags@.take(i + 1)[w])@ == tags@.take(
                            i + 1,
                        ).last()@;
                    assert(tags@[w]@ == tags@[i as int]@);
                }
                if tag_seen(tags@, i as int, tags@[i as int]@) {
                    let w = choose|w: int| 0 <= w < i && tags@[w]@ == tags@[i as int]@;
                    assert(tags@.take(i + 1)[w]@ == tags@.take(i + 1).last()@);
                }
            }
        }
        if !seen {
            r.push(tags[i].clone());
        }
        i += 1;
    }
    proof {
        assert(tags@.take(tags@.len() as int) =~= tags@);
    }
    r
}

/// The deduplicated tag list is a set: no two entries share contents,
/// every entry is one of the configured tags, and every configured tag
/// is represented.
pub proof fn lemma_unique_tags_is_set(tags: Seq<String>)
    ensures
        forall|a: int, b: int|
            0 <= a < b < unique_tags(tags).len() ==> unique_tags(tags)[a]@ != unique_tags(tags)[b]@,
        forall|a: int|
            0 <= a < unique_tags(tags).len() ==> tags.contains(#[trigger] unique_tags(tags)[a]),
        forall|j: int|
            0 <= j < tags.len() ==> exists|a: int|
                0 <= a < unique_tags(tags).len() && (#[trigger] tags[j])@ == unique_tags(tags)[a]@,
    decreases tags.len(),
{
    if tags.len() > 0 {
        let prev = tags.drop_last();
        let last = tags.last();
        let uprev = unique_tags(prev);
        let u = unique_tags(tags);
        lemma_unique_tags_is_set(prev);
        assert(forall|a: int| 0 <= a < prev.len() ==> prev[a] == tags[a]);
        if !tag_seen(tags, tags.len() - 1, last@) {
            // the last tag is new: it is appended, and differs from every
            // earlier entry, each of which comes from the prefix
            assert(u == uprev.push(last));
            assert forall|a: int, b: int|
                0 <= a < b < u.len() implies u[a]@ != u[b]@ by {
                if b < uprev.len() {
                } else {
                    assert(u[b] == last);
                    assert(prev.contains(uprev[a]));
                    let w = choose|w: int| 0 <= w < prev.len() && prev[w] == uprev[a];
                    if u[a]@ == last@ {
                        assert(tags[w]@ == last@);
                        assert(tag_seen(tags, tags.len() - 1, last@));
                    }
                }
            }
        }
        assert forall|a: int| 0 <= a < u.len() implies tags.contains(#[trigger] u[a]) by {
            if a < uprev.len() {
                assert(u[a] == uprev[a]);
                assert(prev.contains(uprev[a]));
                let w = choose|w: int| 0 <= w < prev.len() && prev[w] == uprev[a];
                assert(tags[w] == u[a]);
            } else {
                assert(u[a] == last);
                assert(tags[tags.len() - 1] == last);
            }
        }
        assert forall|j: int|
            0 <= j < tags.len() implies exists|a: int|
            0 <= a < u.len() && (#[trigger] tags[j])@ == u[a]@ by {
            if j < tags.len() - 1 {
                assert(prev[j] == tags[j]);
                assert(exists|a: int| 0 <= a < uprev.len() && prev[j]@ == uprev[a]@);
                let a = choose|a: int| 0 <= a < uprev.len() && prev[j]@ == (#[trigger] uprev[a])@;
                assert(u[a]@ == tags[j]@);
            } else {
                if tag_seen(tags, tags.len() - 1, last@) {
                    let w = choose|w: int| 0 <= w < tags.len() - 1 && (#[trigger] tags[w])@ == last@;
                    assert(prev[w] == tags[w]);
                    assert(exists|a: int| 0 <= a < uprev.len() && prev[w]@ == uprev[a]@);
                    let a = choose|a: int|
                        0 <= a < uprev.len() && prev[w]@ == (#[trigger] uprev[a])@;
                    assert(u[a]@ == tags[j]@);
                } else {
                    assert(u[u.len() - 1]@ == tags[j]@);
                }
            }
        }
    }
}

/// The whole sizing pass: build the demand snapshot from the queue's
/// report, size every category against it, and clean the tag list.
pub fn get_desired_hardware(config: Config, status: &QueueRunnerStatus, managed: &Vec<System>) -> (r:
    (DesiredHardwareConfig, Vec<SizingWarning>))
    requires
        forall|k: int|
            0 <= k < config.categories@.len() ==> (#[trigger] config.categories@[k]).category.divisor
                > 0,
        forall|sys: Seq<char>, size: JobSize|
            #[trigger] runnable_sum(abs_mts(status.machine_types@), sys, size) <= usize::MAX,
    ensures
        r.0.plans@ == desired_plans(
            config.categories@,
            spec_build_demand(abs_mts(status.machine_types@), abs_systems(managed@)),
        ),
        r.1@ == spec_warnings(
            config.categories@,
            spec_build_demand(abs_mts(status.machine_types@), abs_systems(managed@)),
        ),
        r.0.tags@ == unique_tags(config.tags@),
        r.0.metro == config.metro,
{
    let snap = build_demand(status, managed);
    let (plans, warnings) = compute_desired(&config.categories, &snap);
    let tags = dedup_tags(&config.tags);
    (DesiredHardwareConfig { plans, tags, metro: config.metro }, warnings)
}

} // verus!

