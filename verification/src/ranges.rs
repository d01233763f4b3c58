//! Merging of number ranges into their maximal runs.

use vstd::prelude::*;

verus! {

/// The numbers from `start` to `end`, both included. A span whose start lies above its end holds
/// no number.
#[derive(Clone, Copy, Debug, PartialEq, Eq, Structural)]
pub struct Span {
    pub start: u128,
    pub end: u128,
}

impl Span {
    /// Whether `x` lies in the span.
    pub open spec fn has(self, x: int) -> bool {
        self.start <= x <= self.end
    }
}

/// The numbers that lie in at least one of the spans.
pub open spec fn covered(spans: Seq<Span>) -> Set<int> {
    Set::new(|x: int| exists|i: int| 0 <= i < spans.len() && (#[trigger] spans[i]).has(x))
}

/// No span is empty, they stand in ascending order, and a number is missing between any two.
pub open spec fn separated(spans: Seq<Span>) -> bool {
    &&& forall|i: int| 0 <= i < spans.len() ==> (#[trigger] spans[i]).start <= spans[i].end
    &&& forall|i: int, j: int|
        0 <= i < j < spans.len() ==> (#[trigger] spans[i]).end + 1 < (#[trigger] spans[j]).start
}

/// The spans are the maximal runs of consecutive numbers of `set`, in ascending order.
pub open spec fn is_runs_of(spans: Seq<Span>, set: Set<int>) -> bool {
    &&& separated(spans)
    &&& covered(spans) =~= set
}

/// The maximal runs of consecutive numbers of `set`, in ascending order.
pub open spec fn runs_of(set: Set<int>) -> Seq<Span> {
    choose|spans: Seq<Span>| is_runs_of(spans, set)
}

/// Every member of `set` fits in a `u128`.
pub open spec fn in_u128(set: Set<int>) -> bool {
    forall|x: int| #[trigger] set.contains(x) ==> 0 <= x <= u128::MAX
}

proof fn lemma_runs_agree_below(a: Seq<Span>, b: Seq<Span>, set: Set<int>, n: int)
    requires
        is_runs_of(a, set),
        is_runs_of(b, set),
        0 <= n <= a.len(),
    ensures
        n <= b.len(),
        forall|i: int| 0 <= i < n ==> a[i] == b[i],
    decreases n,
{
    if n > 0 {
        lemma_runs_agree_below(a, b, set, n - 1);
        let k = n - 1;
        let x = a[k].start as int;
        assert(a[k].has(x));
        assert(covered(a).contains(x));
        assert(covered(b).contains(x));
        let j = choose|j: int| 0 <= j < b.len() && (#[trigger] b[j]).has(x);
        if j < k {
            assert(a[j] == b[j]);
            assert(a[j].end + 1 < a[k].start);
        }
        assert(k <= j);
        let y = b[k].start as int;
        assert(b[k].has(y));
        assert(covered(b).contains(y));
        assert(covered(a).contains(y));
        let m = choose|m: int| 0 <= m < a.len() && (#[trigger] a[m]).has(y);
        if m < k {
            assert(a[m] == b[m]);
            assert(b[m].end + 1 < b[k].start);
        }
        assert(k <= m);
        // Both runs start at the smallest member of the set that the earlier runs leave.
        if k < m {
            assert(a[k].end + 1 < a[m].start);
        }
        if k < j {
            assert(b[k].end + 1 < b[j].start);
        }
        assert(a[k].start == b[k].start);
        lemma_run_ends(a, b, set, k);
        lemma_run_ends(b, a, set, k);
    }
}

/// Of two lists of runs of one set, runs that start together end together.
proof fn lemma_run_ends(a: Seq<Span>, b: Seq<Span>, set: Set<int>, k: int)
    requires
        is_runs_of(a, set),
        is_runs_of(b, set),
        0 <= k < a.len(),
        k < b.len(),
        a[k].start == b[k].start,
    ensures
        b[k].end <= a[k].end,
{
    let z = a[k].end + 1;
    assert(a[k].start <= a[k].end);
    if b[k].has(z) {
        assert(covered(b).contains(z));
        assert(covered(a).contains(z));
        let i = choose|i: int| 0 <= i < a.len() && (#[trigger] a[i]).has(z);
        if i < k {
            assert(a[i].end + 1 < a[k].start);
        } else if k < i {
            assert(a[k].end + 1 < a[i].start);
        }
    }
}

/// A set has one list of maximal runs only.
pub proof fn lemma_runs_unique(a: Seq<Span>, b: Seq<Span>, set: Set<int>)
    requires
        is_runs_of(a, set),
        is_runs_of(b, set),
    ensures
        a == b,
{
    lemma_runs_agree_below(a, b, set, a.len() as int);
    lemma_runs_agree_below(b, a, set, b.len() as int);
    assert(a =~= b);
}

/// Adding a span that starts at or above the last run's start.
pub open spec fn absorbed(runs: Seq<Span>, span: Span) -> Seq<Span> {
    if runs.len() > 0 && span.start <= runs.last().end + 1 {
        if span.end > runs.last().end {
            runs.drop_last().push(Span { start: runs.last().start, end: span.end })
        } else {
            runs
        }
    } else {
        runs.push(span)
    }
}

proof fn lemma_absorbed(runs: Seq<Span>, span: Span)
    requires
        separated(runs),
        span.start <= span.end,
        runs.len() > 0 ==> runs.last().start <= span.start,
    ensures
        separated(absorbed(runs, span)),
        covered(absorbed(runs, span)) =~= covered(runs).union(covered(seq![span])),
        absorbed(runs, span).len() > 0,
        absorbed(runs, span).last().start <= span.start,
{
    let after = absorbed(runs, span);
    let one = seq![span];
    assert(one[0] == span);
    assert forall|x: int| covered(after).contains(x) implies covered(runs).union(
        covered(one),
    ).contains(x) by {
        let i = choose|i: int| 0 <= i < after.len() && (#[trigger] after[i]).has(x);
        if i < runs.len() && runs[i].has(x) {
        } else {
            assert(one[0].has(x));
        }
    }
    assert forall|x: int| covered(runs).union(covered(one)).contains(x) implies covered(
        after,
    ).contains(x) by {
        if covered(runs).contains(x) {
            let i = choose|i: int| 0 <= i < runs.len() && (#[trigger] runs[i]).has(x);
            assert(after[i].has(x));
        } else {
            let i = choose|i: int| 0 <= i < one.len() && (#[trigger] one[i]).has(x);
            assert(one[i] == span);
            assert(after[after.len() - 1].has(x));
        }
    }
}

proof fn lemma_runs_exist_below(set: Set<int>, n: nat) -> (runs: Seq<Span>)
    requires
        n <= u128::MAX + 1,
    ensures
        is_runs_of(runs, Set::new(|x: int| 0 <= x < n && set.contains(x))),
    decreases n,
{
    let below = Set::new(|x: int| 0 <= x < n && set.contains(x));
    if n == 0 {
        let runs = Seq::<Span>::empty();
        assert(covered(runs) =~= below);
        runs
    } else {
        let m = (n - 1) as nat;
        let before = Set::new(|x: int| 0 <= x < m && set.contains(x));
        let runs = lemma_runs_exist_below(set, m);
        if set.contains(m as int) {
            let span = Span { start: m as u128, end: m as u128 };
            if runs.len() > 0 {
                let x = runs.last().start as int;
                assert(runs[runs.len() - 1].has(x));
                assert(covered(runs).contains(x));
                assert(before.contains(x));
            }
            lemma_absorbed(runs, span);
            let one = seq![span];
            assert(one[0] == span);
            assert(covered(one) =~= Set::new(|x: int| x == m)) by {
                assert(one[0].has(m as int));
            }
            assert(covered(absorbed(runs, span)) =~= below);
            absorbed(runs, span)
        } else {
            assert(before =~= below);
            runs
        }
    }
}

/// Every set of numbers that fit in a `u128` has maximal runs, and `runs_of` names them.
pub proof fn lemma_runs_of(set: Set<int>)
    requires
        in_u128(set),
    ensures
        is_runs_of(runs_of(set), set),
{
    let n = (u128::MAX + 1) as nat;
    let runs = lemma_runs_exist_below(set, n);
    assert(Set::new(|x: int| 0 <= x < n && set.contains(x)) =~= set);
    assert(is_runs_of(runs, set));
}

/// A list of the maximal runs of a set is the list that `runs_of` names.
pub proof fn lemma_is_runs_of(spans: Seq<Span>, set: Set<int>)
    requires
        is_runs_of(spans, set),
    ensures
        spans == runs_of(set),
{
    lemma_runs_unique(spans, runs_of(set), set);
}

/// Merging the runs that a merge returned changes nothing.
pub proof fn lemma_merge_idempotent(ranges: Seq<Span>)
    ensures
        runs_of(covered(runs_of(covered(ranges)))) == runs_of(covered(ranges)),
{
    lemma_covered_in_u128(ranges);
    lemma_runs_of(covered(ranges));
}

proof fn lemma_covered_in_u128(ranges: Seq<Span>)
    ensures
        in_u128(covered(ranges)),
{
}

/// Adds to `runs` a span that starts at or above the start of the last run.
fn absorb(runs: &mut Vec<Span>, span: Span)
    requires
        separated(old(runs)@),
        span.start <= span.end,
        old(runs)@.len() > 0 ==> old(runs)@.last().start <= span.start,
    ensures
        final(runs)@ == absorbed(old(runs)@, span),
{
    let n: usize = runs.len();
    if n > 0 {
        let last: Span = runs[n - 1];
        if last.end == u128::MAX || span.start <= last.end + 1 {
            if span.end > last.end {
                runs.pop();
                runs.push(Span { start: last.start, end: span.end });
            }
            return;
        }
    }
    runs.push(span);
}

/// The spans of two lists of runs, merged.
fn union_runs(a: &Vec<Span>, b: &Vec<Span>) -> (runs: Vec<Span>)
    requires
        separated(a@),
        separated(b@),
    ensures
        is_runs_of(runs@, covered(a@).union(covered(b@))),
{
    let mut runs: Vec<Span> = Vec::new();
    let mut i: usize = 0;
    let mut j: usize = 0;
    assert(covered(a@.take(0)) =~= Set::<int>::empty());
    assert(covered(b@.take(0)) =~= Set::<int>::empty());
    assert(covered(runs@) =~= Set::<int>::empty());
    while i < a.len() || j < b.len()
        invariant
            separated(a@),
            separated(b@),
            i <= a.len(),
            j <= b.len(),
            separated(runs@),
            covered(runs@) =~= covered(a@.take(i as int)).union(covered(b@.take(j as int))),
            runs@.len() > 0 && i < a.len() ==> runs@.last().start <= a@[i as int].start,
            runs@.len() > 0 && j < b.len() ==> runs@.last().start <= b@[j as int].start,
        decreases a.len() - i + b.len() - j,
    {
        let from_a: bool = i < a.len() && (j >= b.len() || a[i].start <= b[j].start);
        let span: Span = if from_a {
            a[i]
        } else {
            b[j]
        };
        proof {
            lemma_absorbed(runs@, span);
        }
        absorb(&mut runs, span);
        if from_a {
            proof {
                lemma_covered_push(a@.take(i as int), span);
                assert(a@.take(i as int).push(span) =~= a@.take(i + 1));
            }
            i = i + 1;
        } else {
            proof {
                lemma_covered_push(b@.take(j as int), span);
                assert(b@.take(j as int).push(span) =~= b@.take(j + 1));
            }
            j = j + 1;
        }
    }
    assert(a@.take(i as int) =~= a@);
    assert(b@.take(j as int) =~= b@);
    runs
}

pub(crate) proof fn lemma_covered_push(spans: Seq<Span>, span: Span)
    ensures
        covered(spans.push(span)) =~= covered(spans).union(covered(seq![span])),
{
    lemma_covered_add(spans, seq![span]);
    assert(spans.push(span) =~= spans + seq![span]);
}

proof fn lemma_covered_add(a: Seq<Span>, b: Seq<Span>)
    ensures
        covered(a + b) =~= covered(a).union(covered(b)),
{
    let all = a + b;
    assert forall|x: int| covered(a).union(covered(b)).contains(x) implies covered(all).contains(
        x,
    ) by {
        if covered(a).contains(x) {
            let i = choose|i: int| 0 <= i < a.len() && (#[trigger] a[i]).has(x);
            assert(all[i].has(x));
        } else {
            let i = choose|i: int| 0 <= i < b.len() && (#[trigger] b[i]).has(x);
            assert(all[a.len() + i].has(x));
        }
    }
    assert forall|x: int| covered(all).contains(x) implies covered(a).union(covered(b)).contains(
        x,
    ) by {
        let i = choose|i: int| 0 <= i < all.len() && (#[trigger] all[i]).has(x);
        if i < a.len() {
            assert(a[i].has(x));
        } else {
            assert(b[i - a.len()].has(x));
        }
    }
}

fn merge_between(ranges: &Vec<Span>, from: usize, to: usize) -> (runs: Vec<Span>)
    requires
        from <= to <= ranges.len(),
    ensures
        is_runs_of(runs@, covered(ranges@.subrange(from as int, to as int))),
    decreases to - from,
{
    let ghost part = ranges@.subrange(from as int, to as int);
    if to - from >= 2 {
        let middle: usize = from + (to - from) / 2;
        let left: Vec<Span> = merge_between(ranges, from, middle);
        let right: Vec<Span> = merge_between(ranges, middle, to);
        proof {
            let a = ranges@.subrange(from as int, middle as int);
            let b = ranges@.subrange(middle as int, to as int);
            lemma_covered_add(a, b);
            assert(part =~= a + b);
        }
        union_runs(&left, &right)
    } else {
        let mut runs: Vec<Span> = Vec::new();
        if from < to {
            let span: Span = ranges[from];
            assert(part =~= seq![span]);
            if span.start <= span.end {
                runs.push(span);
                assert(runs@ =~= seq![span]);
            } else {
                assert(covered(seq![span]) =~= covered(runs@));
            }
        } else {
            assert(part =~= runs@);
        }
        runs
    }
}

/// Merges ranges that overlap or follow one another, and returns the resulting runs in ascending
/// order. The result depends on the covered numbers alone: neither the order of the ranges nor
/// repetitions among them matter.
pub fn merge_ranges(ranges: &Vec<Span>) -> (runs: Vec<Span>)
    ensures
        is_runs_of(runs@, covered(ranges@)),
        runs@ == runs_of(covered(ranges@)),
{
    let runs: Vec<Span> = merge_between(ranges, 0, ranges.len());
    assert(ranges@.subrange(0, ranges@.len() as int) =~= ranges@);
    proof {
        lemma_is_runs_of(runs@, covered(ranges@));
    }
    runs
}

/// What the runs of spans are: they hold the numbers that lie between the ends of some span and no
/// others.
pub proof fn lemma_runs_hold_what_the_spans_hold(spans: Seq<Span>, x: int)
    ensures
        (exists|i: int| 0 <= i < spans.len() && (#[trigger] spans[i]).start <= x <= spans[i].end)
            <==> (exists|i: int|
            0 <= i < runs_of(covered(spans)).len() && (
            #[trigger] runs_of(covered(spans))[i]).start <= x <= runs_of(covered(spans))[i].end),
{
    let runs = runs_of(covered(spans));
    lemma_covered_in_u128(spans);
    lemma_runs_of(covered(spans));
    assert(covered(spans).contains(x) <==> covered(runs).contains(x));
    if exists|i: int| 0 <= i < spans.len() && (#[trigger] spans[i]).start <= x <= spans[i].end {
        let i = choose|i: int|
            0 <= i < spans.len() && (#[trigger] spans[i]).start <= x <= spans[i].end;
        assert(spans[i].has(x));
        let k = choose|k: int| 0 <= k < runs.len() && (#[trigger] runs[k]).has(x);
        assert(runs[k].start <= x <= runs[k].end);
    }
    if exists|i: int| 0 <= i < runs.len() && (#[trigger] runs[i]).start <= x <= runs[i].end {
        let i = choose|i: int|
            0 <= i < runs.len() && (#[trigger] runs[i]).start <= x <= runs[i].end;
        assert(runs[i].has(x));
        let k = choose|k: int| 0 <= k < spans.len() && (#[trigger] spans[k]).has(x);
        assert(spans[k].start <= x <= spans[k].end);
    }
}

/// The runs of spans stand in ascending order, none is empty, and a number is missing between any
/// two.
pub proof fn lemma_runs_are_apart(spans: Seq<Span>, i: int, j: int)
    requires
        0 <= i < runs_of(covered(spans)).len(),
        0 <= j < runs_of(covered(spans)).len(),
    ensures
        runs_of(covered(spans))[i].start <= runs_of(covered(spans))[i].end,
        i < j ==> runs_of(covered(spans))[i].end + 1 < runs_of(covered(spans))[j].start,
{
    lemma_covered_in_u128(spans);
    lemma_runs_of(covered(spans));
}

} // verus!
