//! The drain-then-destroy progression for devices selected for removal.
//!
//! A device picked for removal is first marked with the drain tag, so the
//! decision survives into later cycles.  It is destroyed only once it has
//! no running jobs and has finished provisioning; a device old enough to
//! pass the urgent-termination threshold is destroyed without consulting
//! the job monitor at all.

use vstd::prelude::*;
use vstd::string::StrSliceExecFns;

use crate::device::{Device, DeviceState};

verus! {

/// Contents of the drain marker tag.
pub open spec fn spec_drain_marker() -> Seq<char> {
    "skip-hydra"@
}

/// The tag that marks a device as draining: machines carrying it stop
/// receiving work and are destroyed once idle.
pub fn drain_marker() -> (s: &'static str)
    ensures
        s@ == spec_drain_marker(),
{
    "skip-hydra"
}

/// Whether the device already carries the drain marker tag.
pub fn has_drain_marker(d: &Device) -> (r: bool)
    ensures
        r == d.spec_has_tag(spec_drain_marker()),
{
    d.has_tag(drain_marker())
}

/// The device's tag list with the drain marker appended: the full
/// replacement tag set to send to the provider when marking the device.
pub fn drained_tags(tags: &Vec<String>) -> (r: Vec<String>)
    ensures
        r@.len() == tags@.len() + 1,
        forall|i: int| 0 <= i < tags@.len() ==> r@[i] == tags@[i],
        r@[tags@.len() as int]@ == spec_drain_marker(),
{
    let mut r: Vec<String> = Vec::new();
    let mut i: usize = 0;
    while i < tags.len()
        invariant
            i <= tags@.len(),
            r@.len() == i,
            forall|k: int| 0 <= k < i ==> r@[k] == tags@[k],
        decreases tags@.len() - i,
    {
        r.push(tags[i].clone());
        i += 1;
    }
    r.push(drain_marker().to_owned());
    r
}

/// A device has passed the urgent-termination threshold: its in-flight
/// jobs are disregarded and the job monitor is not consulted.
pub fn past_urgent_termination(created_at: i64, urgent_cutoff: i64) -> (r: bool)
    ensures
        r == (created_at < urgent_cutoff),
{
    created_at < urgent_cutoff
}

/// What one removal cycle does with a draining device.
#[derive(Clone, Copy, Debug, PartialEq, Eq, Structural)]
pub enum RemovalAction {
    /// No jobs are running and the device is active: destroy it now.
    Destroy,
    /// No jobs are running but the device has not finished provisioning:
    /// leave it untouched this cycle.
    DeferInactive,
    /// Jobs are still running: keep draining and try again next cycle.
    DeferBusy,
}

/// The removal decision for a draining device, as a function of its
/// provider state and its (possibly overridden) running-job count.
pub open spec fn spec_removal_action(state: DeviceState, job_count: u64) -> RemovalAction {
    if job_count == 0 {
        if state == DeviceState::Active {
            RemovalAction::Destroy
        } else {
            RemovalAction::DeferInactive
        }
    } else {
        RemovalAction::DeferBusy
    }
}

/// Decide what to do with a draining device: destroy it exactly when it
/// has no running jobs and is active; otherwise defer.
pub fn removal_action(state: &DeviceState, job_count: u64) -> (a: RemovalAction)
    ensures
        a == spec_removal_action(*state, job_count),
{
    if job_count == 0 {
        if *state == DeviceState::Active {
            RemovalAction::Destroy
        } else {
            RemovalAction::DeferInactive
        }
    } else {
        RemovalAction::DeferBusy
    }
}

/// A digit character.
pub open spec fn is_digit(c: char) -> bool {
    '0' as u32 <= c as u32 <= '9' as u32
}

/// The numeric value of a digit character.
pub open spec fn digit_val(c: char) -> nat {
    (c as u32 - '0' as u32) as nat
}

/// The value of a string of digits, read in base ten.
pub open spec fn dec_value(s: Seq<char>) -> nat
    decreases s.len(),
{
    if s.len() == 0 {
        0
    } else {
        dec_value(s.drop_last()) * 10 + digit_val(s.last())
    }
}

/// The digit part of a job-count string: an optional leading `+` sign is
/// accepted, as the standard integer parser accepts it.
pub open spec fn dec_body(s: Seq<char>) -> Seq<char> {
    if s.len() > 0 && s[0] == '+' {
        s.drop_first()
    } else {
        s
    }
}

/// A well-formed job-count string: an optional `+` sign followed by at
/// least one digit, with a value that fits in a `u64`.
pub open spec fn valid_job_count(s: Seq<char>) -> bool {
    &&& dec_body(s).len() > 0
    &&& forall|i: int| 0 <= i < dec_body(s).len() ==> is_digit(#[trigger] dec_body(s)[i])
    &&& dec_value(dec_body(s)) <= u64::MAX
}

/// Extending a digit string cannot decrease its value.
proof fn lemma_dec_value_prefix(s: Seq<char>, i: int, j: int)
    requires
        0 <= i <= j <= s.len(),
    ensures
        dec_value(s.take(i)) <= dec_value(s.take(j)),
    decreases j - i,
{
    if i < j {
        lemma_dec_value_prefix(s, i, j - 1);
        assert(s.take(j).drop_last() =~= s.take(j - 1));
        assert(dec_value(s.take(j)) == dec_value(s.take(j - 1)) * 10 + digit_val(s.take(j).last()));
        assert(dec_value(s.take(j - 1)) <= dec_value(s.take(j - 1)) * 10) by (nonlinear_arith);
    }
}

/// Parse the job monitor's measurement string as a whole number of jobs.
/// Returns the value exactly when the string is an optionally signed
/// string of digits whose value fits in a `u64`.
pub fn parse_job_count(s: &str) -> (r: Option<u64>)
    ensures
        match r {
            Some(v) => valid_job_count(s@) && v == dec_value(dec_body(s@)),
            None => !valid_job_count(s@),
        },
{
    let n = s.unicode_len();
    let mut start: usize = 0;
    if n > 0 && s.get_char(0) == '+' {
        start = 1;
    }
    let ghost body = dec_body(s@);
    proof {
        assert(body =~= s@.skip(start as int));
    }
    if n == start {
        return None;
    }
    let mut v: u64 = 0;
    let mut i: usize = start;
    while i < n
        invariant
            n == s@.len(),
            start <= i <= n,
            body == s@.skip(start as int),
            body == dec_body(s@),
            forall|k: int| 0 <= k < i - start ==> is_digit(#[trigger] body[k]),
            v == dec_value(body.take(i - start)),
        decreases n - i,
    {
        let c = s.get_char(i);
        let u = c as u32;
        proof {
            assert(body[i - start] == s@[i as int]);
            assert('0' as u32 == 48u32 && '9' as u32 == 57u32);
        }
        if u < 48 || u > 57 {
            proof {
                assert(!is_digit(dec_body(s@)[i - start]));
            }
            return None;
        }
        let d = (u - 48) as u64;
        let ghost prev = v;
        proof {
            assert(is_digit(body[i - start]));
            assert(digit_val(body[i - start]) == d as nat);
        }
        let next = match v.checked_mul(10) {
            Some(m) => match m.checked_add(d) {
                Some(t) => t,
                None => {
                    proof {
                        assert(prev * 10 + digit_val(body[i - start]) > u64::MAX);
                        lemma_overflow_means_invalid(body, i - start, prev as nat);
                    }
                    return None;
                },
            },
            None => {
                proof {
                    assert(prev * 10 > u64::MAX);
                    assert(prev * 10 + digit_val(body[i - start]) > u64::MAX);
                    lemma_overflow_means_invalid(body, i - start, prev as nat);
                }
                return None;
            },
        };
        proof {
            assert(body.take(i - start + 1).drop_last() =~= body.take(i - start));
            assert(body.take(i - start + 1).last() == body[i - start]);
            assert(digit_val(body[i - start]) == d);
        }
        v = next;
        i += 1;
    }
    proof {
        assert(body.take(n - start) =~= body);
    }
    Some(v)
}

/// If one more digit pushes the running value past `u64::MAX`, the whole
/// string's value is past it too.
proof fn lemma_overflow_means_invalid(body: Seq<char>, k: int, v: nat)
    requires
        0 <= k < body.len(),
        v == dec_value(body.take(k)),
        v * 10 + digit_val(body[k]) > u64::MAX,
    ensures
        dec_value(body) > u64::MAX,
{
    assert(body.take(k + 1).drop_last() =~= body.take(k));
    assert(body.take(k + 1).last() == body[k]);
    assert(dec_value(body.take(k + 1)) == v * 10 + digit_val(body[k]));
    lemma_dec_value_prefix(body, k + 1, body.len() as int);
    assert(body.take(body.len() as int) =~= body);
}

} // verus!

