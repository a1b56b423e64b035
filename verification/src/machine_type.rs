//! Raw machine-type descriptors and what the autoscaler reads out of them.
//!
//! A descriptor has the shape `platform:feature1,feature2,...`.  The platform
//! is everything before the first `:`; the features are the comma-separated,
//! non-empty tokens between the first and the second `:`.  Parsing is total:
//! a missing platform segment yields an empty platform, a missing feature
//! segment yields no features.

use vstd::prelude::*;
use vstd::string::StrSliceExecFns;

verus! {

/// Coarse resource tier of a job: everything is `Small` unless the
/// descriptor carries the `big-parallel` feature.
#[derive(Clone, Copy, Debug, PartialEq, Eq, Structural)]
pub enum JobSize {
    Small,
    BigParallel,
}

/// A platform identifier (an OS/CPU-architecture pair), compared by value.
#[derive(Debug)]
pub struct System(pub String);

/// One feature token of a machine-type descriptor.
#[derive(Debug)]
pub struct Feature(pub String);

/// A raw machine-type descriptor string as the queue reports it.
#[derive(Debug)]
pub struct MachineType(pub String);

impl Clone for System {
    fn clone(&self) -> (r: Self)
        ensures
            r == *self,
    {
        System(self.0.clone())
    }
}

impl PartialEq for System {
    fn eq(&self, other: &System) -> bool {
        crate::util::str_eq(self.0.as_str(), other.0.as_str())
    }
}

impl vstd::std_specs::cmp::PartialEqSpecImpl for System {
    open spec fn obeys_eq_spec() -> bool {
        true
    }

    open spec fn eq_spec(&self, other: &System) -> bool {
        self.0@ == other.0@
    }
}

impl PartialEq for Feature {
    fn eq(&self, other: &Feature) -> bool {
        crate::util::str_eq(self.0.as_str(), other.0.as_str())
    }
}

impl vstd::std_specs::cmp::PartialEqSpecImpl for Feature {
    open spec fn obeys_eq_spec() -> bool {
        true
    }

    open spec fn eq_spec(&self, other: &Feature) -> bool {
        self.0@ == other.0@
    }
}

/// Position of the first occurrence of `c` in `s` at or after `i`.
pub open spec fn find_from(s: Seq<char>, c: char, i: int) -> Option<int>
    decreases s.len() - i,
{
    if i >= s.len() {
        None
    } else if s[i] == c {
        Some(i)
    } else {
        find_from(s, c, i + 1)
    }
}

/// `find_from` returns the least occurrence at or after `i`, or `None`
/// when there is none.
pub proof fn lemma_find_from(s: Seq<char>, c: char, i: int)
    requires
        0 <= i,
    ensures
        match find_from(s, c, i) {
            Some(j) => i <= j < s.len() && s[j] == c && (forall|k: int| i <= k < j ==> s[k] != c),
            None => forall|k: int| i <= k < s.len() ==> s[k] != c,
        },
    decreases s.len() - i,
{
    if i >= s.len() {
    } else if s[i] == c {
    } else {
        lemma_find_from(s, c, i + 1);
    }
}

/// The platform segment: everything before the first `:`, or the whole
/// string when there is no `:`.
pub open spec fn spec_system(s: Seq<char>) -> Seq<char> {
    match find_from(s, ':', 0) {
        Some(i) => s.take(i),
        None => s,
    }
}

/// The feature segment: everything between the first and the second `:`,
/// or empty when there is no `:`.
pub open spec fn spec_feature_segment(s: Seq<char>) -> Seq<char> {
    match find_from(s, ':', 0) {
        None => Seq::empty(),
        Some(i) => match find_from(s, ':', i + 1) {
            None => s.skip(i + 1),
            Some(j) => s.subrange(i + 1, j),
        },
    }
}

/// The comma-separated tokens of `s`, empty tokens included.
pub open spec fn split_commas(s: Seq<char>) -> Seq<Seq<char>>
    decreases s.len(),
    via split_commas_decreases
{
    match find_from(s, ',', 0) {
        None => seq![s],
        Some(i) => seq![s.take(i)] + split_commas(s.skip(i + 1)),
    }
}

#[via_fn]
proof fn split_commas_decreases(s: Seq<char>) {
    lemma_find_from(s, ',', 0);
}

/// The feature tokens of a descriptor: the non-empty comma-separated
/// tokens of its feature segment.
pub open spec fn spec_features(s: Seq<char>) -> Seq<Seq<char>> {
    split_commas(spec_feature_segment(s)).filter(|t: Seq<char>| t.len() != 0)
}

/// The job size a descriptor selects: `BigParallel` exactly when the
/// `big-parallel` feature is present.
pub open spec fn spec_job_size(s: Seq<char>) -> JobSize {
    if spec_features(s).contains("big-parallel"@) {
        JobSize::BigParallel
    } else {
        JobSize::Small
    }
}

/// Scan for the first occurrence of `c` at or after `from`.
fn find_char_from(s: &str, c: char, from: usize) -> (r: Option<usize>)
    requires
        from <= s@.len(),
    ensures
        match r {
            Some(p) => from <= p && (p as int) < s@.len() && find_from(s@, c, from as int)
                == Some(p as int),
            None => find_from(s@, c, from as int) is None,
        },
{
    let n = s.unicode_len();
    let mut i: usize = from;
    while i < n
        invariant
            n == s@.len(),
            from <= i <= n,
            forall|k: int| from <= k < i ==> s@[k] != c,
        decreases n - i,
    {
        if s.get_char(i) == c {
            proof {
                lemma_find_from(s@, c, from as int);
                if let Some(j) = find_from(s@, c, from as int) {
                    assert(j == i);
                } else {
                    assert(false);
                }
            }
            return Some(i);
        }
        i += 1;
    }
    proof {
        lemma_find_from(s@, c, from as int);
    }
    None
}

impl MachineType {
    /// The platform this descriptor targets; empty when the descriptor is
    /// empty.  Never fails.
    pub fn system(&self) -> (r: System)
        ensures
            r.0@ == spec_system(self.0@),
    {
        let s = self.0.as_str();
        match find_char_from(s, ':', 0) {
            Some(i) => System(s.substring_char(0, i).to_owned()),
            None => System(self.0.clone()),
        }
    }

    /// The feature tokens of this descriptor, in order of appearance,
    /// empty tokens dropped.  Never fails.
    pub fn features(&self) -> (r: Vec<Feature>)
        ensures
            r@.map_values(|f: Feature| f.0@) == spec_features(self.0@),
    {
        let s = self.0.as_str();
        let n = s.unicode_len();
        let seg: &str = match find_char_from(s, ':', 0) {
            None => "",
            Some(i) => match find_char_from(s, ':', i + 1) {
                None => s.substring_char(i + 1, n),
                Some(j) => s.substring_char(i + 1, j),
            },
        };
        proof {
            if find_from(self.0@, ':', 0) is None {
                reveal_strlit("");
                assert(seg@ =~= spec_feature_segment(self.0@));
            } else {
                assert(seg@ =~= spec_feature_segment(self.0@));
            }
        }
        split_nonempty_tokens(seg)
    }

    /// `BigParallel` when the `big-parallel` feature is present, `Small`
    /// otherwise.  Never fails.
    pub fn get_job_size(&self) -> (r: JobSize)
        ensures
            r == spec_job_size(self.0@),
    {
        let fs = self.features();
        let ghost fviews = fs@.map_values(|f: Feature| f.0@);
        let mut i: usize = 0;
        while i < fs.len()
            invariant
                fviews == fs@.map_values(|f: Feature| f.0@),
                fviews == spec_features(self.0@),
                i <= fs@.len(),
                forall|k: int| 0 <= k < i ==> fviews[k] != "big-parallel"@,
            decreases fs@.len() - i,
        {
            if crate::util::str_eq(fs[i].0.as_str(), "big-parallel") {
                proof {
                    assert(fviews[i as int] == "big-parallel"@);
                    assert(spec_features(self.0@).contains("big-parallel"@));
                }
                return JobSize::BigParallel;
            }
            i += 1;
        }
        proof {
            assert(forall|k: int| 0 <= k < fviews.len() ==> fviews[k] != "big-parallel"@);
            assert(!spec_features(self.0@).contains("big-parallel"@));
        }
        JobSize::Small
    }
}

/// Split `seg` at commas and keep the non-empty tokens, in order.
fn split_nonempty_tokens(seg: &str) -> (r: Vec<Feature>)
    ensures
        r@.map_values(|f: Feature| f.0@) == split_commas(seg@).filter(
            |t: Seq<char>| t.len() != 0,
        ),
{
    let m = seg.unicode_len();
    let mut res: Vec<Feature> = Vec::new();
    let mut start: usize = 0;
    let mut p: usize = 0;
    proof {
        assert(seg@.skip(0) =~= seg@);
        assert(res@.map_values(|f: Feature| f.0@) =~= Seq::<Seq<char>>::empty());
        assert(Seq::<Seq<char>>::empty() + split_commas(seg@).filter(|t: Seq<char>| t.len() != 0)
            =~= split_commas(seg@).filter(|t: Seq<char>| t.len() != 0));
    }
    while p < m
        invariant
            m == seg@.len(),
            start <= p <= m,
            forall|k: int| start <= k < p ==> seg@[k] != ',',
            res@.map_values(|f: Feature| f.0@) + split_commas(seg@.skip(start as int)).filter(
                |t: Seq<char>| t.len() != 0,
            ) == split_commas(seg@).filter(|t: Seq<char>| t.len() != 0),
        decreases m - p,
    {
        if seg.get_char(p) == ',' {
            let ghost pre = res@.map_values(|f: Feature| f.0@);
            let ghost rest = split_commas(seg@.skip(p + 1)).filter(|t: Seq<char>| t.len() != 0);
            proof {
                lemma_filter_split_step(seg@, start as int, p as int);
            }
            if p > start {
                let tok = seg.substring_char(start, p).to_owned();
                res.push(Feature(tok));
                proof {
                    let tokv = seg@.subrange(start as int, p as int);
                    assert(res@.map_values(|f: Feature| f.0@) =~= pre.push(tokv));
                    assert(pre.push(tokv) + rest =~= pre + (seq![tokv] + rest));
                }
            }
            start = p + 1;
        }
        p += 1;
    }
    proof {
        lemma_split_no_comma(seg@, start as int);
        lemma_filter_singleton(seg@.skip(start as int));
    }
    if m > start {
        let ghost pre = res@.map_values(|f: Feature| f.0@);
        let tok = seg.substring_char(start, m).to_owned();
        res.push(Feature(tok));
        proof {
            let tail = seg@.skip(start as int);
            assert(seg@.subrange(start as int, m as int) =~= tail);
            assert(res@.map_values(|f: Feature| f.0@) =~= pre.push(tail));
            assert(pre.push(tail) =~= pre + seq![tail]);
        }
    } else {
        proof {
            let tail = seg@.skip(start as int);
            assert(tail =~= Seq::<char>::empty());
            assert(tail.len() == 0);
            let fmapped = res@.map_values(|f: Feature| f.0@);
            assert(fmapped + Seq::<Seq<char>>::empty() =~= fmapped);
        }
    }
    res
}

/// When position `p` holds the first comma at or after `start`, splitting
/// the tail at `start` peels off exactly the token `[start, p)`.
proof fn lemma_split_first_comma(s: Seq<char>, start: int, p: int)
    requires
        0 <= start <= p < s.len(),
        s[p] == ',',
        forall|k: int| start <= k < p ==> s[k] != ',',
    ensures
        split_commas(s.skip(start)) == seq![s.subrange(start, p)] + split_commas(s.skip(p + 1)),
{
    let tail = s.skip(start);
    lemma_find_from(tail, ',', 0);
    assert(tail[p - start] == ',');
    if let Some(j) = find_from(tail, ',', 0) {
        assert(j == p - start);
        assert(tail.take(j) =~= s.subrange(start, p));
        assert(tail.skip(j + 1) =~= s.skip(p + 1));
    } else {
        assert(false);
    }
}

/// When no comma stands at or after `start`, the tail is a single token.
proof fn lemma_split_no_comma(s: Seq<char>, start: int)
    requires
        0 <= start <= s.len(),
        forall|k: int| start <= k < s.len() ==> s[k] != ',',
    ensures
        split_commas(s.skip(start)) == seq![s.skip(start)],
{
    let tail = s.skip(start);
    lemma_find_from(tail, ',', 0);
    if let Some(j) = find_from(tail, ',', 0) {
        assert(s[start + j] == ',');
        assert(false);
    }
}

/// Filtering a one-token split keeps the token exactly when it is non-empty.
proof fn lemma_filter_singleton(t: Seq<char>)
    ensures
        seq![t].filter(|x: Seq<char>| x.len() != 0) == if t.len() != 0 {
            seq![t]
        } else {
            Seq::<Seq<char>>::empty()
        },
{
    let pred = |x: Seq<char>| x.len() != 0;
    let e = Seq::<Seq<char>>::empty();
    reveal(Seq::filter);
    assert(e.filter(pred) =~= e);
    e.lemma_filter_push(t, pred);
    assert(seq![t] =~= e.push(t));
    if t.len() != 0 {
        assert(e.filter(pred).push(t) =~= seq![t]);
    }
}

/// One step of the tokenizer's invariant: consuming the token before the
/// first comma moves its (filtered) contribution out of the remainder.
proof fn lemma_filter_split_step(s: Seq<char>, start: int, p: int)
    requires
        0 <= start <= p < s.len(),
        s[p] == ',',
        forall|k: int| start <= k < p ==> s[k] != ',',
    ensures
        split_commas(s.skip(start)).filter(|t: Seq<char>| t.len() != 0) == if p > start {
            seq![s.subrange(start, p)] + split_commas(s.skip(p + 1)).filter(
                |t: Seq<char>| t.len() != 0,
            )
        } else {
            split_commas(s.skip(p + 1)).filter(|t: Seq<char>| t.len() != 0)
        },
{
    let pred = |t: Seq<char>| t.len() != 0;
    lemma_split_first_comma(s, start, p);
    let tok = s.subrange(start, p);
    Seq::<Seq<char>>::filter_distributes_over_add(seq![tok], split_commas(s.skip(p + 1)), pred);
    lemma_filter_singleton(tok);
    if p > start {
        assert(seq![tok].filter(pred) + split_commas(s.skip(p + 1)).filter(pred) =~= seq![tok]
            + split_commas(s.skip(p + 1)).filter(pred));
    } else {
        assert(tok.len() == 0);
        assert(seq![tok].filter(pred) + split_commas(s.skip(p + 1)).filter(pred)
            =~= split_commas(s.skip(p + 1)).filter(pred));
    }
}

/// The empty descriptor parses to an empty platform, no features, and the
/// `Small` job size.
pub proof fn lemma_empty_machine_type()
    ensures
        spec_system(Seq::<char>::empty()) == Seq::<char>::empty(),
        spec_features(Seq::<char>::empty()) == Seq::<Seq<char>>::empty(),
        spec_job_size(Seq::<char>::empty()) == JobSize::Small,
{
    let e = Seq::<char>::empty();
    lemma_find_from(e, ':', 0);
    assert(spec_feature_segment(e) =~= e);
    lemma_split_no_comma(e, 0);
    assert(e.skip(0) =~= e);
    lemma_filter_singleton(e);
    assert(spec_features(e) =~= Seq::<Seq<char>>::empty());
}

} // verus!
