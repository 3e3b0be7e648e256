//! Flattening nested styled spans into the sorted, non-overlapping runs
//! the editor asks for; where spans nest, the innermost one wins.

use std::ops::Range;
use vstd::prelude::*;

verus! {

/// A byte range and the theme name for its look.
pub type Span = (Range<usize>, &'static str);

pub open spec fn span_start(span: Span) -> int {
    span.0.start as int
}

pub open spec fn span_end(span: Span) -> int {
    span.0.end as int
}

/// `span` holds the byte at `p`.
pub open spec fn span_contains(span: Span, p: int) -> bool {
    span_start(span) <= p < span_end(span)
}

/// `outer` holds all of `inner`.
pub open spec fn span_encloses(outer: Span, inner: Span) -> bool {
    span_start(outer) <= span_start(inner) && span_end(inner) <= span_end(outer)
}

pub open spec fn spans_disjoint(a: Span, b: Span) -> bool {
    span_end(a) <= span_start(b) || span_end(b) <= span_start(a)
}

/// The spans nest properly, as tree nodes do: no range runs backwards, and
/// any two spans are disjoint or one holds the other.
pub open spec fn spans_nest(spans: Seq<Span>) -> bool {
    &&& forall|i: int| 0 <= i < spans.len() ==> span_start(#[trigger] spans[i]) <= span_end(spans[i])
    &&& forall|i: int, j: int|
        0 <= i < spans.len() && 0 <= j < spans.len() ==> spans_disjoint(#[trigger] spans[i], #[trigger] spans[j])
            || span_encloses(spans[i], spans[j]) || span_encloses(spans[j], spans[i])
}

/// `x` is where some span starts or ends.
pub open spec fn is_boundary(spans: Seq<Span>, x: int) -> bool {
    exists|i: int| 0 <= i < spans.len() && (span_start(#[trigger] spans[i]) == x || span_end(spans[i]) == x)
}

/// Some span holds the byte at `p`.
pub open spec fn is_covered(spans: Seq<Span>, p: int) -> bool {
    exists|i: int| 0 <= i < spans.len() && span_contains(#[trigger] spans[i], p)
}

/// Span `j` lies no deeper than span `i`: it starts earlier, or starts
/// with it and ends later, or has the same range and comes no later.
pub open spec fn no_deeper(spans: Seq<Span>, j: int, i: int) -> bool {
    ||| span_start(spans[j]) < span_start(spans[i])
    ||| span_start(spans[j]) == span_start(spans[i]) && span_end(spans[j]) > span_end(spans[i])
    ||| span_start(spans[j]) == span_start(spans[i]) && span_end(spans[j]) == span_end(spans[i]) && j <= i
}

/// Span `i` is the innermost span that holds the byte at `p`; of spans
/// with the same range, the later one is the inner.
pub open spec fn is_innermost(spans: Seq<Span>, i: int, p: int) -> bool {
    &&& 0 <= i < spans.len()
    &&& span_contains(spans[i], p)
    &&& forall|j: int| 0 <= j < spans.len() && span_contains(#[trigger] spans[j], p) ==> no_deeper(spans, j, i)
}

/// The run is named after the innermost span at its start.
pub open spec fn named_innermost(spans: Seq<Span>, run: Span) -> bool {
    exists|i: int| is_innermost(spans, i, span_start(run)) && run.1 == spans[i].1
}

/// Some span holds all of `run` and has its name.
pub open spec fn within_span_of_its_name(spans: Seq<Span>, run: Span) -> bool {
    exists|i: int| 0 <= i < spans.len() && span_encloses(#[trigger] spans[i], run) && run.1 == spans[i].1
}

/// `runs` is what flattening `spans` gives. Every run is non-empty, the
/// runs come in order without overlapping, each lies within a span of its
/// name, and each starts and ends where some span starts or ends. When the
/// spans nest properly (as tree nodes do), the runs are exactly the pieces
/// between consecutive span boundaries that some span holds, in order, each
/// named after the innermost span there: no boundary falls strictly inside
/// a run, and every byte some span holds lies in a run.
pub open spec fn flattens(spans: Seq<Span>, runs: Seq<Span>) -> bool {
    &&& runs_ordered(runs)
    &&& forall|r: int| 0 <= r < runs.len() ==> within_span_of_its_name(spans, #[trigger] runs[r])
    &&& forall|r: int|
        0 <= r < runs.len() ==> is_boundary(spans, span_start(#[trigger] runs[r])) && is_boundary(spans, span_end(runs[r]))
    &&& spans_nest(spans) ==> forall|r: int, i: int|
        0 <= r < runs.len() && 0 <= i < spans.len() ==> !(span_start(#[trigger] runs[r]) < span_start(#[trigger] spans[i])
            < span_end(runs[r])) && !(span_start(runs[r]) < span_end(spans[i]) < span_end(runs[r]))
    &&& spans_nest(spans) ==> forall|r: int| 0 <= r < runs.len() ==> named_innermost(spans, #[trigger] runs[r])
    &&& spans_nest(spans) ==> forall|p: int|
        #[trigger] is_covered(spans, p) ==> exists|r: int| 0 <= r < runs.len() && span_contains(#[trigger] runs[r], p)
}

/// The runs are non-empty and come in order without overlapping.
pub open spec fn runs_ordered(runs: Seq<Span>) -> bool {
    &&& forall|r: int| 0 <= r < runs.len() ==> span_start(#[trigger] runs[r]) < span_end(runs[r])
    &&& forall|a: int, b: int| 0 <= a < b < runs.len() ==> span_end(#[trigger] runs[a]) <= span_start(#[trigger] runs[b])
}

/// What a sorted span carries: its range, its name, and where it stood
/// among the spans given.
#[derive(Clone, Copy)]
struct Entry {
    start: usize,
    end: usize,
    name: &'static str,
    index: usize,
}

spec fn entry_contains(e: Entry, p: int) -> bool {
    e.start <= p < e.end
}

spec fn entry_encloses(outer: Entry, inner: Entry) -> bool {
    outer.start <= inner.start && inner.end <= outer.end
}

/// `x` sorts strictly before `y`: by start, then the longer first, then by
/// position among the spans given.
spec fn entry_before(x: Entry, y: Entry) -> bool {
    ||| x.start < y.start
    ||| x.start == y.start && x.end > y.end
    ||| x.start == y.start && x.end == y.end && x.index < y.index
}

spec fn entries_sorted(t: Seq<Entry>) -> bool {
    forall|a: int, b: int| 0 <= a < b < t.len() ==> !entry_before(#[trigger] t[b], #[trigger] t[a])
}

/// `t` holds the spans of `spans`, each with its index, in some order.
spec fn entries_of(spans: Seq<Span>, t: Seq<Entry>) -> bool {
    &&& t.len() == spans.len()
    &&& forall|k: int| 0 <= k < t.len() ==> {
        let e = #[trigger] t[k];
        &&& e.index < spans.len()
        &&& e.start == spans[e.index as int].0.start
        &&& e.end == spans[e.index as int].0.end
        &&& e.name == spans[e.index as int].1
    }
    &&& forall|i: int| 0 <= i < spans.len() ==> #[trigger] has_entry(t, i)
}

/// Some entry of `t` stands for the span at index `i`.
spec fn has_entry(t: Seq<Entry>, i: int) -> bool {
    exists|k: int| 0 <= k < t.len() && (#[trigger] t[k]).index == i
}

fn before(x: Entry, y: Entry) -> (b: bool)
    ensures
        b == entry_before(x, y),
{
    x.start < y.start || (x.start == y.start && (x.end > y.end || (x.end == y.end && x.index < y.index)))
}

proof fn lemma_swap_keeps_entries(spans: Seq<Span>, t: Seq<Entry>, a: int, b: int)
    requires
        entries_of(spans, t),
        0 <= a < t.len(),
        0 <= b < t.len(),
    ensures
        entries_of(spans, t.update(a, t[b]).update(b, t[a])),
{
    let u = t.update(a, t[b]).update(b, t[a]);
    assert forall|i: int| 0 <= i < spans.len() implies #[trigger] has_entry(u, i) by {
        assert(has_entry(t, i));
        let k = choose|k: int| 0 <= k < t.len() && (#[trigger] t[k]).index == i;
        if k == a {
            assert(u[b].index == i);
        } else if k == b {
            assert(u[a].index == i);
        } else {
            assert(u[k].index == i);
        }
    }
}

/// The spans with their indices, sorted by start, the longer first, and
/// otherwise in the order given (a stable insertion sort: the spans of a
/// tree come nearly sorted already).
fn sort_entries(spans: &Vec<Span>) -> (t: Vec<Entry>)
    ensures
        entries_of(spans@, t@),
        entries_sorted(t@),
{
    let n = spans.len();
    let mut t: Vec<Entry> = Vec::new();
    for i in 0..n
        invariant
            n == spans.len(),
            t.len() == i,
            forall|k: int| 0 <= k < i ==> {
                let e = #[trigger] t@[k];
                &&& e.index == k
                &&& e.start == spans@[k].0.start
                &&& e.end == spans@[k].0.end
                &&& e.name == spans@[k].1
            },
    {
        t.push(Entry { start: spans[i].0.start, end: spans[i].0.end, name: spans[i].1, index: i });
    }
    assert forall|i: int| 0 <= i < spans@.len() implies #[trigger] has_entry(t@, i) by {
        assert(t@[i].index == i);
    }
    let mut i: usize = 1;
    while i < n
        invariant
            n == spans.len(),
            t.len() == n,
            1 <= i,
            entries_of(spans@, t@),
            forall|a: int, b: int| 0 <= a < b < i && b < n ==> !entry_before(#[trigger] t@[b], #[trigger] t@[a]),
        decreases n - i,
    {
        let mut j: usize = i;
        while j > 0 && before(t[j], t[j - 1])
            invariant
                n == spans.len(),
                t.len() == n,
                0 <= j <= i < n,
                entries_of(spans@, t@),
                forall|a: int, b: int|
                    0 <= a < b <= i && a != j && b != j ==> !entry_before(#[trigger] t@[b], #[trigger] t@[a]),
                forall|b: int| j < b <= i ==> !entry_before(#[trigger] t@[b], t@[j as int]),
            decreases j,
        {
            let x = t[j - 1];
            let y = t[j];
            proof {
                lemma_swap_keeps_entries(spans@, t@, j - 1, j as int);
            }
            t.set(j - 1, y);
            t.set(j, x);
            j = j - 1;
        }
        proof {
            assert forall|a: int, b: int| 0 <= a < b <= i implies !entry_before(#[trigger] t@[b], #[trigger] t@[a]) by {
                if b == j && a < j - 1 {
                    assert(!entry_before(t@[j - 1], t@[a]));
                }
            }
        }
        i = i + 1;
    }
    t
}

spec fn entries_nest(t: Seq<Entry>) -> bool {
    &&& forall|a: int| 0 <= a < t.len() ==> (#[trigger] t[a]).start <= t[a].end
    &&& forall|a: int, b: int|
        0 <= a < t.len() && 0 <= b < t.len() ==> (#[trigger] t[a]).end <= (#[trigger] t[b]).start
            || t[b].end <= t[a].start || entry_encloses(t[a], t[b]) || entry_encloses(t[b], t[a])
}

spec fn t_boundary(t: Seq<Entry>, x: int) -> bool {
    exists|j: int| 0 <= j < t.len() && ((#[trigger] t[j]).start == x || t[j].end == x)
}

spec fn t_covered(t: Seq<Entry>, p: int) -> bool {
    exists|j: int| 0 <= j < t.len() && entry_contains(#[trigger] t[j], p)
}

/// `t[m]` is the last entry that holds the byte at `p`.
spec fn last_containing(t: Seq<Entry>, m: int, p: int) -> bool {
    &&& 0 <= m < t.len()
    &&& entry_contains(t[m], p)
    &&& forall|j: int| m < j < t.len() ==> !entry_contains(#[trigger] t[j], p)
}

/// No entry starts or ends strictly inside `lo..hi`.
spec fn no_boundary_within(t: Seq<Entry>, lo: int, hi: int) -> bool {
    forall|j: int|
        0 <= j < t.len() ==> !(lo < (#[trigger] t[j]).start < hi) && !(lo < t[j].end < hi)
}

spec fn run_exact(t: Seq<Entry>, r: Span) -> bool {
    &&& t_boundary(t, span_start(r))
    &&& t_boundary(t, span_end(r))
    &&& no_boundary_within(t, span_start(r), span_end(r))
    &&& exists|m: int| last_containing(t, m, span_start(r)) && r.1 == (#[trigger] t[m]).name
}

spec fn run_inside(t: Seq<Entry>, r: Span) -> bool {
    exists|j: int|
        0 <= j < t.len() && (#[trigger] t[j]).start <= span_start(r) && span_end(r) <= t[j].end
            && r.1 == t[j].name
}

spec fn in_stack(st: Seq<usize>, j: int) -> bool {
    exists|a: int| 0 <= a < st.len() && st[a] == j
}

/// The stack of open entries: indices in increasing order, all before
/// `k`, all starting at or before `pos`; when the entries nest, each
/// encloses the ones above it, none has ended before `pos`, and every
/// entry before `k` that is not on the stack has ended by `pos`.
spec fn stack_ok(t: Seq<Entry>, st: Seq<usize>, k: int, pos: int, nest: bool) -> bool {
    &&& forall|a: int, b: int| 0 <= a < b < st.len() ==> (#[trigger] st[a]) < (#[trigger] st[b])
    &&& forall|a: int| 0 <= a < st.len() ==> (#[trigger] st[a]) < k
    &&& forall|a: int| 0 <= a < st.len() ==> t[#[trigger] st[a] as int].start <= pos
    &&& nest ==> forall|a: int, b: int|
        0 <= a < b < st.len() ==> entry_encloses(t[#[trigger] st[a] as int], t[#[trigger] st[b] as int])
    &&& nest ==> forall|a: int| 0 <= a < st.len() ==> t[#[trigger] st[a] as int].end >= pos
    &&& nest ==> forall|j: int| 0 <= j < k && !in_stack(st, j) ==> (#[trigger] t[j]).end <= pos
}

/// The runs so far: ordered, each within an entry of its name, all before
/// `pos`; when the entries nest, each is exact and together they hold every
/// covered byte before `pos`.
spec fn out_ok(t: Seq<Entry>, out: Seq<Span>, pos: int, nest: bool) -> bool {
    &&& runs_ordered(out)
    &&& forall|r: int| 0 <= r < out.len() ==> span_end(#[trigger] out[r]) <= pos
    &&& forall|r: int| 0 <= r < out.len() ==> run_inside(t, #[trigger] out[r])
    &&& forall|r: int|
        0 <= r < out.len() ==> t_boundary(t, span_start(#[trigger] out[r])) && t_boundary(t, span_end(out[r]))
    &&& nest ==> forall|r: int| 0 <= r < out.len() ==> run_exact(t, #[trigger] out[r])
    &&& nest ==> forall|p: int|
        0 <= p < pos && #[trigger] t_covered(t, p) ==> exists|r: int|
            0 <= r < out.len() && span_contains(#[trigger] out[r], p)
}

/// Emitting the run `pos..x` of entry `m` keeps the runs in order.
proof fn lemma_emit(t: Seq<Entry>, out: Seq<Span>, pos: int, x: int, m: int, run: Span, nest: bool)
    requires
        out_ok(t, out, pos, nest),
        0 <= m < t.len(),
        t[m].start <= pos,
        x <= t[m].end,
        span_start(run) == pos,
        span_end(run) == x,
        run.1 == t[m].name,
        pos == 0 || t_boundary(t, pos),
        t_boundary(t, x),
        nest ==> no_boundary_within(t, pos, x),
        nest ==> forall|j: int| m < j < t.len() ==> (#[trigger] t[j]).end <= pos || t[j].start >= x,
    ensures
        out_ok(t, if pos < x { out.push(run) } else { out }, if pos < x { x } else { pos }, nest),
{
    if pos < x {
        let o2 = out.push(run);
        assert(o2[out.len() as int] == run);
        assert(run_inside(t, run)) by {
            assert(t[m].start <= span_start(run));
        }
        assert(t_boundary(t, pos)) by {
            if pos == 0 {
                assert(t[m].start == 0);
            }
        }
        if nest {
            assert(last_containing(t, m, pos));
            assert(run_exact(t, run));
            assert forall|p: int| 0 <= p < x && #[trigger] t_covered(t, p) implies exists|r: int|
                0 <= r < o2.len() && span_contains(#[trigger] o2[r], p) by {
                if p < pos {
                    let r = choose|r: int| 0 <= r < out.len() && span_contains(#[trigger] out[r], p);
                    assert(o2[r] == out[r]);
                } else {
                    assert(span_contains(o2[out.len() as int], p));
                }
            }
        }
        assert forall|a: int, b: int| 0 <= a < b < o2.len() implies span_end(#[trigger] o2[a]) <= span_start(#[trigger] o2[b]) by {
            if b == out.len() {
                assert(span_end(out[a]) <= pos);
            }
        }
    }
}

/// Moving `pos` over bytes that no entry holds keeps the runs in order.
proof fn lemma_skip(t: Seq<Entry>, out: Seq<Span>, pos: int, x: int, nest: bool)
    requires
        out_ok(t, out, pos, nest),
        pos <= x,
        nest ==> forall|j: int| 0 <= j < t.len() ==> (#[trigger] t[j]).end <= pos || t[j].start >= x,
    ensures
        out_ok(t, out, x, nest),
{
    if nest {
        assert forall|p: int| 0 <= p < x && #[trigger] t_covered(t, p) implies exists|r: int|
            0 <= r < out.len() && span_contains(#[trigger] out[r], p) by {
            if p >= pos {
                let j = choose|j: int| 0 <= j < t.len() && entry_contains(#[trigger] t[j], p);
                assert(t[j].end <= pos || t[j].start >= x);
            }
        }
    }
}

proof fn lemma_entry_of(s: Seq<Span>, t: Seq<Entry>, i: int) -> (k: int)
    requires
        entries_of(s, t),
        0 <= i < s.len(),
    ensures
        0 <= k < t.len(),
        t[k].index == i,
        t[k].start == s[i].0.start,
        t[k].end == s[i].0.end,
        t[k].name == s[i].1,
{
    assert(has_entry(t, i));
    let k = choose|k: int| 0 <= k < t.len() && (#[trigger] t[k]).index == i;
    assert(t[k].index == i);
    k
}

/// What the runs show of the sorted entries holds of the spans themselves.
proof fn lemma_runs_transfer(s: Seq<Span>, t: Seq<Entry>, out: Seq<Span>, pos: int, nest: bool)
    requires
        entries_of(s, t),
        entries_sorted(t),
        nest == entries_nest(t),
        out_ok(t, out, pos, nest),
        nest ==> forall|j: int| 0 <= j < t.len() ==> (#[trigger] t[j]).end <= pos,
    ensures
        forall|r: int| 0 <= r < out.len() ==> within_span_of_its_name(s, #[trigger] out[r]),
        forall|r: int|
            0 <= r < out.len() ==> is_boundary(s, span_start(#[trigger] out[r])) && is_boundary(s, span_end(out[r])),
        spans_nest(s) ==> forall|r: int, i: int|
            0 <= r < out.len() && 0 <= i < s.len() ==> !(span_start(#[trigger] out[r]) < span_start(#[trigger] s[i])
                < span_end(out[r])) && !(span_start(out[r]) < span_end(s[i]) < span_end(out[r])),
        spans_nest(s) ==> forall|r: int| 0 <= r < out.len() ==> named_innermost(s, #[trigger] out[r]),
        spans_nest(s) ==> forall|p: int|
            #[trigger] is_covered(s, p) ==> exists|r: int| 0 <= r < out.len() && span_contains(#[trigger] out[r], p),
{
    assert forall|r: int| 0 <= r < out.len() implies within_span_of_its_name(s, #[trigger] out[r]) by {
        assert(run_inside(t, out[r]));
        let j = choose|j: int|
            0 <= j < t.len() && (#[trigger] t[j]).start <= span_start(out[r]) && span_end(out[r]) <= t[j].end
                && out[r].1 == t[j].name;
        let i = t[j].index as int;
        assert(span_encloses(s[i], out[r]));
    }
    assert forall|r: int| 0 <= r < out.len() implies is_boundary(s, span_start(#[trigger] out[r]))
        && is_boundary(s, span_end(out[r])) by {
        let j1 = choose|j: int| 0 <= j < t.len() && ((#[trigger] t[j]).start == span_start(out[r]) || t[j].end == span_start(out[r]));
        let j2 = choose|j: int| 0 <= j < t.len() && ((#[trigger] t[j]).start == span_end(out[r]) || t[j].end == span_end(out[r]));
        let i1 = t[j1].index as int;
        let i2 = t[j2].index as int;
        assert(span_start(s[i1]) == span_start(out[r]) || span_end(s[i1]) == span_start(out[r]));
        assert(span_start(s[i2]) == span_end(out[r]) || span_end(s[i2]) == span_end(out[r]));
    }
    if spans_nest(s) {
        assert(nest) by {
            assert forall|a: int| 0 <= a < t.len() implies (#[trigger] t[a]).start <= t[a].end by {
                assert(span_start(s[t[a].index as int]) <= span_end(s[t[a].index as int]));
            }
            assert forall|a: int, b: int| 0 <= a < t.len() && 0 <= b < t.len() implies (#[trigger] t[a]).end
                <= (#[trigger] t[b]).start || t[b].end <= t[a].start || entry_encloses(t[a], t[b])
                || entry_encloses(t[b], t[a]) by {
                let ia = t[a].index as int;
                let ib = t[b].index as int;
                assert(spans_disjoint(s[ia], s[ib]) || span_encloses(s[ia], s[ib]) || span_encloses(s[ib], s[ia]));
            }
        }
        assert forall|r: int, i: int| 0 <= r < out.len() && 0 <= i < s.len() implies !(span_start(#[trigger] out[r])
            < span_start(#[trigger] s[i]) < span_end(out[r])) && !(span_start(out[r]) < span_end(s[i]) < span_end(out[r])) by {
            assert(run_exact(t, out[r]));
            let k = lemma_entry_of(s, t, i);
            assert(no_boundary_within(t, span_start(out[r]), span_end(out[r])));
            assert(!(span_start(out[r]) < t[k].start < span_end(out[r])));
        }
        assert forall|r: int| 0 <= r < out.len() implies named_innermost(s, #[trigger] out[r]) by {
            let p = span_start(out[r]);
            assert(run_exact(t, out[r]));
            let m = choose|m: int| last_containing(t, m, p) && out[r].1 == (#[trigger] t[m]).name;
            let i = t[m].index as int;
            assert forall|j: int| 0 <= j < s.len() && span_contains(#[trigger] s[j], p) implies no_deeper(s, j, i) by {
                let k = lemma_entry_of(s, t, j);
                assert(entry_contains(t[k], p));
                if k > m {
                    assert(!entry_contains(t[k], p));
                } else if k < m {
                    assert(!entry_before(t[m], t[k]));
                }
            }
            assert(is_innermost(s, i, p));
            assert(out[r].1 == s[i].1);
        }
        assert forall|p: int| #[trigger] is_covered(s, p) implies exists|r: int| 0 <= r < out.len() && span_contains(#[trigger] out[r], p) by {
            let i = choose|i: int| 0 <= i < s.len() && span_contains(#[trigger] s[i], p);
            let k = lemma_entry_of(s, t, i);
            assert(entry_contains(t[k], p));
            assert(t_covered(t, p));
            assert(p < pos) by {
                assert(t[k].end <= pos);
            }
        }
    }
}

fn push_run(out: &mut Vec<Span>, start: usize, end: usize, name: &'static str)
    ensures
        start < end ==> final(out)@ == old(out)@.push((start..end, name)),
        start >= end ==> final(out)@ == old(out)@,
{
    if start < end {
        out.push((start..end, name));
    }
}

/// Flatten nested spans into sorted, non-overlapping runs; the innermost
/// span wins wherever spans nest.
///
/// Every run is non-empty, lies within a span of its name, and starts and
/// ends where some span starts or ends. When the spans nest properly (as
/// tree nodes do), the runs are exactly the pieces between consecutive span
/// boundaries that some span holds, in order, each named after the
/// innermost span there.
pub fn runs(spans: Vec<Span>) -> (out: Vec<Span>)
    ensures
        flattens(spans@, out@),
{
    let t = sort_entries(&spans);
    let n = t.len();
    let ghost nest = entries_nest(t@);
    let mut out: Vec<Span> = Vec::new();
    let mut stack: Vec<usize> = Vec::new();
    let mut pos: usize = 0;
    let mut k: usize = 0;
    while k < n
        invariant
            n == t.len(),
            k <= n,
            entries_sorted(t@),
            nest == entries_nest(t@),
            k == 0 ==> pos == 0 && stack@.len() == 0,
            k > 0 ==> pos == t@[k - 1].start,
            pos == 0 || t_boundary(t@, pos as int),
            stack_ok(t@, stack@, k as int, pos as int, nest),
            out_ok(t@, out@, pos as int, nest),
        decreases n - k,
    {
        let span = t[k];
        let ghost s_start = span.start as int;
        assert(pos <= span.start) by {
            if k > 0 {
                assert(!entry_before(t@[k as int], t@[k - 1]));
            }
        }
        assert forall|j: int| k <= j < n implies (#[trigger] t@[j]).start >= s_start by {
            if j > k {
                assert(!entry_before(t@[j], t@[k as int]));
            }
        }
        while stack.len() > 0 && t[stack[stack.len() - 1]].end <= span.start
            invariant
                n == t.len(),
                k < n,
                span == t@[k as int],
                entries_sorted(t@),
                nest == entries_nest(t@),
                pos <= span.start,
                forall|j: int| k <= j < n ==> (#[trigger] t@[j]).start >= span.start,
                pos == 0 || t_boundary(t@, pos as int),
                stack_ok(t@, stack@, k as int, pos as int, nest),
                out_ok(t@, out@, pos as int, nest),
            decreases stack.len(),
        {
            let m = stack[stack.len() - 1];
            let top = t[m];
            let from = if pos > top.start { pos } else { top.start };
            proof {
                let st = stack@;
                assert(st[st.len() - 1] == m);
                if nest {
                    assert forall|j: int| m < j < n implies (#[trigger] t@[j]).end <= pos || t@[j].start >= top.end by {
                        if j < k && in_stack(st, j) {
                            let a = choose|a: int| 0 <= a < st.len() && st[a] == j;
                            if a < st.len() - 1 {
                                assert(st[a] < st[st.len() - 1]);
                            }
                        }
                    }
                }
                if nest {
                    assert(no_boundary_within(t@, pos as int, top.end as int)) by {
                        assert forall|j: int| 0 <= j < t@.len() implies !(pos < (#[trigger] t@[j]).start < top.end) && !(pos < t@[j].end < top.end) by {
                            if j < k && in_stack(st, j) {
                                let a = choose|a: int| 0 <= a < st.len() && st[a] == j;
                                if a < st.len() - 1 {
                                    assert(entry_encloses(t@[st[a] as int], t@[st[st.len() - 1] as int]));
                                }
                            }
                        }
                    }
                }
                assert(t_boundary(t@, top.end as int)) by {
                    assert(t@[m as int].end == top.end);
                }
                lemma_emit(t@, out@, pos as int, top.end as int, m as int, (from..top.end, top.name), nest);
            }
            push_run(&mut out, from, top.end, top.name);
            let ghost old_pos = pos;
            pos = if pos > top.end { pos } else { top.end };
            let ghost old_st = stack@;
            stack.pop();
            proof {
                assert(stack@ == old_st.drop_last());
                if nest {
                    assert(pos == top.end);
                    assert forall|a: int| 0 <= a < stack@.len() implies t@[#[trigger] stack@[a] as int].end >= pos by {
                        assert(entry_encloses(t@[old_st[a] as int], t@[old_st[old_st.len() - 1] as int]));
                    }
                    assert forall|j: int| 0 <= j < k && !in_stack(stack@, j) implies (#[trigger] t@[j]).end <= pos by {
                        if in_stack(old_st, j) {
                            let a = choose|a: int| 0 <= a < old_st.len() && old_st[a] == j;
                            if a < old_st.len() - 1 {
                                assert(stack@[a] == j);
                                assert(in_stack(stack@, j));
                            }
                        }
                    }
                }
            }
        }
        let ghost before_pos = pos;
        if stack.len() > 0 {
            let m = stack[stack.len() - 1];
            let top = t[m];
            let from = if pos > top.start { pos } else { top.start };
            proof {
                let st = stack@;
                if nest {
                    assert forall|j: int| m < j < n implies (#[trigger] t@[j]).end <= pos || t@[j].start >= span.start by {
                        if j < k && in_stack(st, j) {
                            let a = choose|a: int| 0 <= a < st.len() && st[a] == j;
                            if a < st.len() - 1 {
                                assert(st[a] < st[st.len() - 1]);
                            }
                        }
                    }
                }
                assert(t_boundary(t@, span.start as int)) by {
                    assert(t@[k as int].start == span.start);
                }
                if nest {
                    assert(no_boundary_within(t@, pos as int, span.start as int)) by {
                        assert forall|j: int| 0 <= j < t@.len() implies !(pos < (#[trigger] t@[j]).start < span.start) && !(pos < t@[j].end < span.start) by {
                            if j < k && in_stack(st, j) {
                                let a = choose|a: int| 0 <= a < st.len() && st[a] == j;
                                if a < st.len() - 1 {
                                    assert(entry_encloses(t@[st[a] as int], t@[st[st.len() - 1] as int]));
                                }
                            }
                            if j >= k {
                                assert(t@[j].start <= t@[j].end);
                            }
                        }
                    }
                }
                lemma_emit(t@, out@, pos as int, span.start as int, m as int, (from..span.start, top.name), nest);
            }
            push_run(&mut out, from, span.start, top.name);
        } else {
            proof {
                if nest {
                    assert forall|j: int| 0 <= j < t@.len() implies (#[trigger] t@[j]).end <= pos || t@[j].start >= span.start by {
                        if j < k {
                            assert(!in_stack(stack@, j));
                        }
                    }
                }
                lemma_skip(t@, out@, pos as int, span.start as int, nest);
            }
        }
        pos = if pos > span.start { pos } else { span.start };
        let ghost old_st = stack@;
        stack.push(k);
        proof {
            let st = stack@;
            assert(st == old_st.push(k));
            assert(pos == span.start);
            assert(t_boundary(t@, pos as int)) by {
                assert(t@[k as int].start == span.start);
            }
            if nest {
                if old_st.len() > 0 {
                    let m = old_st[old_st.len() - 1];
                    assert(t@[m as int].end > span.start);
                    assert(!entry_before(t@[k as int], t@[m as int]));
                    assert(entry_encloses(t@[m as int], t@[k as int]));
                    assert forall|a: int, b: int| 0 <= a < b < st.len() implies entry_encloses(t@[#[trigger] st[a] as int], t@[#[trigger] st[b] as int]) by {
                        if b == st.len() - 1 && a < old_st.len() - 1 {
                            assert(entry_encloses(t@[old_st[a] as int], t@[m as int]));
                        }
                    }
                    assert forall|a: int| 0 <= a < st.len() implies t@[#[trigger] st[a] as int].end >= pos by {
                        if a < old_st.len() - 1 {
                            assert(entry_encloses(t@[old_st[a] as int], t@[m as int]));
                        }
                    }
                }
                assert forall|j: int| 0 <= j < k + 1 && !in_stack(st, j) implies (#[trigger] t@[j]).end <= pos by {
                    if j == k {
                        assert(st[st.len() - 1] == k);
                    } else if in_stack(old_st, j) {
                        let a = choose|a: int| 0 <= a < old_st.len() && old_st[a] == j;
                        assert(st[a] == j);
                    }
                }
            }
        }
        k = k + 1;
    }
    while stack.len() > 0
        invariant
            n == t.len(),
            entries_sorted(t@),
            nest == entries_nest(t@),
            pos == 0 || t_boundary(t@, pos as int),
            stack_ok(t@, stack@, n as int, pos as int, nest),
            out_ok(t@, out@, pos as int, nest),
        decreases stack.len(),
    {
        let m = stack[stack.len() - 1];
        let top = t[m];
        let from = if pos > top.start { pos } else { top.start };
        proof {
            let st = stack@;
            if nest {
                assert forall|j: int| m < j < n implies (#[trigger] t@[j]).end <= pos || t@[j].start >= top.end by {
                    if in_stack(st, j) {
                        let a = choose|a: int| 0 <= a < st.len() && st[a] == j;
                        if a < st.len() - 1 {
                            assert(st[a] < st[st.len() - 1]);
                        }
                    }
                }
            }
            if nest {
                assert(no_boundary_within(t@, pos as int, top.end as int)) by {
                    assert forall|j: int| 0 <= j < t@.len() implies !(pos < (#[trigger] t@[j]).start < top.end) && !(pos < t@[j].end < top.end) by {
                        if in_stack(st, j) {
                            let a = choose|a: int| 0 <= a < st.len() && st[a] == j;
                            if a < st.len() - 1 {
                                assert(entry_encloses(t@[st[a] as int], t@[st[st.len() - 1] as int]));
                            }
                        }
                    }
                }
            }
            assert(t_boundary(t@, top.end as int)) by {
                assert(t@[m as int].end == top.end);
            }
            lemma_emit(t@, out@, pos as int, top.end as int, m as int, (from..top.end, top.name), nest);
        }
        push_run(&mut out, from, top.end, top.name);
        pos = if pos > top.end { pos } else { top.end };
        let ghost old_st = stack@;
        stack.pop();
        proof {
            assert(stack@ == old_st.drop_last());
            if nest {
                assert forall|a: int| 0 <= a < stack@.len() implies t@[#[trigger] stack@[a] as int].end >= pos by {
                    assert(entry_encloses(t@[old_st[a] as int], t@[old_st[old_st.len() - 1] as int]));
                }
                assert forall|j: int| 0 <= j < n && !in_stack(stack@, j) implies (#[trigger] t@[j]).end <= pos by {
                    if in_stack(old_st, j) {
                        let a = choose|a: int| 0 <= a < old_st.len() && old_st[a] == j;
                        if a < old_st.len() - 1 {
                            assert(stack@[a] == j);
                            assert(in_stack(stack@, j));
                        }
                    }
                }
            }
        }
    }
    proof {
        if nest {
            assert forall|j: int| 0 <= j < t@.len() implies (#[trigger] t@[j]).end <= pos by {
                assert(!in_stack(stack@, j));
            }
        }
        lemma_runs_transfer(spans@, t@, out@, pos as int, nest);
    }
    out
}


/// Two ordered run lists that hold the same runs are the same list.
proof fn lemma_same_runs(a: Seq<Span>, b: Seq<Span>)
    requires
        runs_ordered(a),
        runs_ordered(b),
        forall|i: int| 0 <= i < a.len() ==> #[trigger] b.contains(a[i]),
        forall|j: int| 0 <= j < b.len() ==> #[trigger] a.contains(b[j]),
    ensures
        a == b,
    decreases a.len(),
{
    if a.len() == 0 {
        if b.len() > 0 {
            assert(a.contains(b[0]));
        }
        assert(a =~= b);
    } else {
        assert(b.contains(a[0]));
        let j0 = choose|j: int| 0 <= j < b.len() && b[j] == a[0];
        assert(a.contains(b[0]));
        let i0 = choose|i: int| 0 <= i < a.len() && a[i] == b[0];
        if i0 > 0 {
            assert(span_end(a[0]) <= span_start(a[i0]));
        }
        if j0 > 0 {
            assert(span_end(b[0]) <= span_start(b[j0]));
        }
        assert(j0 == 0);
        let a1 = a.drop_first();
        let b1 = b.drop_first();
        assert forall|i: int| 0 <= i < a1.len() implies #[trigger] b1.contains(a1[i]) by {
            assert(a1[i] == a[i + 1]);
            assert(b.contains(a[i + 1]));
            let j = choose|j: int| 0 <= j < b.len() && b[j] == a[i + 1];
            assert(span_end(a[0]) <= span_start(a[i + 1]));
            assert(j != 0);
            assert(b1[j - 1] == b[j]);
        }
        assert forall|j: int| 0 <= j < b1.len() implies #[trigger] a1.contains(b1[j]) by {
            assert(b1[j] == b[j + 1]);
            assert(a.contains(b[j + 1]));
            let i = choose|i: int| 0 <= i < a.len() && a[i] == b[j + 1];
            assert(span_end(b[0]) <= span_start(b[j + 1]));
            assert(i != 0);
            assert(a1[i - 1] == a[i]);
        }
        assert forall|x: int, y: int| 0 <= x < y < a1.len() implies span_end(#[trigger] a1[x]) <= span_start(#[trigger] a1[y]) by {
            assert(a1[x] == a[x + 1] && a1[y] == a[y + 1]);
        }
        assert forall|x: int, y: int| 0 <= x < y < b1.len() implies span_end(#[trigger] b1[x]) <= span_start(#[trigger] b1[y]) by {
            assert(b1[x] == b[x + 1] && b1[y] == b[y + 1]);
        }
        lemma_same_runs(a1, b1);
        assert(a =~= b) by {
            assert forall|i: int| 0 <= i < a.len() implies a[i] == b[i] by {
                if i > 0 {
                    assert(a[i] == a1[i - 1]);
                    assert(b[i] == b1[i - 1]);
                }
            }
        }
    }
}

proof fn lemma_innermost_unique(spans: Seq<Span>, i: int, j: int, p: int)
    requires
        is_innermost(spans, i, p),
        is_innermost(spans, j, p),
    ensures
        i == j,
{
    assert(no_deeper(spans, j, i));
    assert(no_deeper(spans, i, j));
}

/// Every run of one flattening of nesting spans is a run of any other.
proof fn lemma_run_in_other(spans: Seq<Span>, a: Seq<Span>, b: Seq<Span>, r: int)
    requires
        spans_nest(spans),
        flattens(spans, a),
        flattens(spans, b),
        0 <= r < a.len(),
    ensures
        b.contains(a[r]),
{
    let x = a[r];
    let p = span_start(x);
    assert(within_span_of_its_name(spans, a[r]));
    let i = choose|i: int| 0 <= i < spans.len() && span_encloses(#[trigger] spans[i], a[r]) && a[r].1 == spans[i].1;
    assert(span_contains(spans[i], p));
    assert(is_covered(spans, p));
    let q = choose|q: int| 0 <= q < b.len() && span_contains(#[trigger] b[q], p);
    let y = b[q];
    assert(is_boundary(spans, span_start(a[r])));
    let k = choose|k: int| 0 <= k < spans.len() && (span_start(#[trigger] spans[k]) == p || span_end(spans[k]) == p);
    assert(!(span_start(b[q]) < span_start(spans[k]) < span_end(b[q])));
    assert(!(span_start(b[q]) < span_end(spans[k]) < span_end(b[q])));
    assert(span_start(y) == p);
    assert(is_boundary(spans, span_end(a[r])));
    let k1 = choose|k: int|
        0 <= k < spans.len() && (span_start(#[trigger] spans[k]) == span_end(x) || span_end(spans[k]) == span_end(x));
    assert(!(span_start(b[q]) < span_start(spans[k1]) < span_end(b[q])));
    assert(!(span_start(b[q]) < span_end(spans[k1]) < span_end(b[q])));
    assert(is_boundary(spans, span_end(b[q])));
    let k2 = choose|k: int|
        0 <= k < spans.len() && (span_start(#[trigger] spans[k]) == span_end(y) || span_end(spans[k]) == span_end(y));
    assert(!(span_start(a[r]) < span_start(spans[k2]) < span_end(a[r])));
    assert(!(span_start(a[r]) < span_end(spans[k2]) < span_end(a[r])));
    assert(span_end(y) == span_end(x));
    assert(named_innermost(spans, a[r]));
    assert(named_innermost(spans, b[q]));
    let ia = choose|ia: int| is_innermost(spans, ia, span_start(a[r])) && a[r].1 == spans[ia].1;
    let ib = choose|ib: int| is_innermost(spans, ib, span_start(b[q])) && b[q].1 == spans[ib].1;
    lemma_innermost_unique(spans, ia, ib, p);
    assert(x.0 == y.0);
    assert(x == y);
}

/// Nesting spans flatten one way only: two lists of runs that both flatten
/// them are the same list.
pub proof fn lemma_flattening_is_unique(spans: Seq<Span>, a: Seq<Span>, b: Seq<Span>)
    requires
        spans_nest(spans),
        flattens(spans, a),
        flattens(spans, b),
    ensures
        a == b,
{
    assert forall|i: int| 0 <= i < a.len() implies #[trigger] b.contains(a[i]) by {
        lemma_run_in_other(spans, a, b, i);
    }
    assert forall|j: int| 0 <= j < b.len() implies #[trigger] a.contains(b[j]) by {
        lemma_run_in_other(spans, b, a, j);
    }
    lemma_same_runs(a, b);
}

proof fn lemma_ordered_nest(out: Seq<Span>)
    requires
        runs_ordered(out),
    ensures
        spans_nest(out),
{
    assert forall|i: int, j: int| 0 <= i < out.len() && 0 <= j < out.len() implies spans_disjoint(
        #[trigger] out[i],
        #[trigger] out[j],
    ) || span_encloses(out[i], out[j]) || span_encloses(out[j], out[i]) by {
        if i < j {
            assert(span_end(out[i]) <= span_start(out[j]));
        } else if j < i {
            assert(span_end(out[j]) <= span_start(out[i]));
        }
    }
}

/// A run of a flattening of ordered runs is one of those runs.
proof fn lemma_run_of_runs(once: Seq<Span>, twice: Seq<Span>, q: int) -> (i: int)
    requires
        runs_ordered(once),
        flattens(once, twice),
        0 <= q < twice.len(),
    ensures
        0 <= i < once.len(),
        twice[q] == once[i],
{
    let y = twice[q];
    assert(within_span_of_its_name(once, twice[q]));
    let i = choose|i: int| 0 <= i < once.len() && span_encloses(#[trigger] once[i], twice[q]) && twice[q].1 == once[i].1;
    assert(is_boundary(once, span_start(twice[q])));
    let k = choose|k: int|
        0 <= k < once.len() && (span_start(#[trigger] once[k]) == span_start(y) || span_end(once[k]) == span_start(y));
    if k < i {
        assert(span_end(once[k]) <= span_start(once[i]));
    } else if i < k {
        assert(span_end(once[i]) <= span_start(once[k]));
    }
    assert(is_boundary(once, span_end(twice[q])));
    let k2 = choose|k: int|
        0 <= k < once.len() && (span_start(#[trigger] once[k]) == span_end(y) || span_end(once[k]) == span_end(y));
    if k2 < i {
        assert(span_end(once[k2]) <= span_start(once[i]));
    } else if i < k2 {
        assert(span_end(once[i]) <= span_start(once[k2]));
    }
    assert(y.0 == once[i].0);
    i
}

/// Flattening runs again changes nothing: what `runs` gives, given back to
/// it, comes out the same.
pub proof fn lemma_flattening_twice_changes_nothing(spans: Seq<Span>, once: Seq<Span>, twice: Seq<Span>)
    requires
        flattens(spans, once),
        flattens(once, twice),
    ensures
        twice == once,
{
    lemma_ordered_nest(once);
    assert forall|q: int| 0 <= q < twice.len() implies #[trigger] once.contains(twice[q]) by {
        let i = lemma_run_of_runs(once, twice, q);
        assert(once[i] == twice[q]);
    }
    assert forall|r: int| 0 <= r < once.len() implies #[trigger] twice.contains(once[r]) by {
        let p = span_start(once[r]);
        assert(span_contains(once[r], p));
        assert(is_covered(once, p));
        let q = choose|q: int| 0 <= q < twice.len() && span_contains(#[trigger] twice[q], p);
        let i = lemma_run_of_runs(once, twice, q);
        if i < r {
            assert(span_end(once[i]) <= span_start(once[r]));
        } else if r < i {
            assert(span_end(once[r]) <= span_start(once[i]));
        }
        assert(twice[q] == once[r]);
    }
    lemma_same_runs(twice, once);
}


/// No two spans share a range.
pub open spec fn ranges_distinct(spans: Seq<Span>) -> bool {
    forall|i: int, j: int| 0 <= i < spans.len() && 0 <= j < spans.len() && i != j ==> (#[trigger] spans[i]).0 != (
    #[trigger] spans[j]).0
}

proof fn lemma_index_of(s: Seq<Span>, x: Span) -> (j: int)
    requires
        s.contains(x),
    ensures
        0 <= j < s.len(),
        s[j] == x,
{
    choose|j: int| 0 <= j < s.len() && s[j] == x
}

/// What flattens nesting spans with distinct ranges flattens the same spans
/// in any other order.
proof fn lemma_flattens_reordered(s: Seq<Span>, p: Seq<Span>, a: Seq<Span>)
    requires
        spans_nest(s),
        ranges_distinct(s),
        ranges_distinct(p),
        forall|x: Span| p.contains(x) <==> s.contains(x),
        flattens(s, a),
    ensures
        spans_nest(p),
        flattens(p, a),
{
    assert forall|i: int| 0 <= i < p.len() implies span_start(#[trigger] p[i]) <= span_end(p[i]) by {
        assert(p.contains(p[i]));
        let j = lemma_index_of(s, p[i]);
        assert(span_start(s[j]) <= span_end(s[j]));
    }
    assert forall|i: int, k: int| 0 <= i < p.len() && 0 <= k < p.len() implies spans_disjoint(
        #[trigger] p[i],
        #[trigger] p[k],
    ) || span_encloses(p[i], p[k]) || span_encloses(p[k], p[i]) by {
        assert(p.contains(p[i]) && p.contains(p[k]));
        let j = lemma_index_of(s, p[i]);
        let l = lemma_index_of(s, p[k]);
        assert(spans_disjoint(s[j], s[l]) || span_encloses(s[j], s[l]) || span_encloses(s[l], s[j]));
    }
    assert forall|r: int| 0 <= r < a.len() implies within_span_of_its_name(p, #[trigger] a[r]) by {
        assert(within_span_of_its_name(s, a[r]));
        let j = choose|j: int| 0 <= j < s.len() && span_encloses(#[trigger] s[j], a[r]) && a[r].1 == s[j].1;
        assert(s.contains(s[j]));
        let i = lemma_index_of(p, s[j]);
        assert(span_encloses(p[i], a[r]));
    }
    assert forall|r: int| 0 <= r < a.len() implies is_boundary(p, span_start(#[trigger] a[r])) && is_boundary(
        p,
        span_end(a[r]),
    ) by {
        assert(is_boundary(s, span_start(a[r])) && is_boundary(s, span_end(a[r])));
        let j1 = choose|j: int|
            0 <= j < s.len() && (span_start(#[trigger] s[j]) == span_start(a[r]) || span_end(s[j]) == span_start(a[r]));
        let j2 = choose|j: int|
            0 <= j < s.len() && (span_start(#[trigger] s[j]) == span_end(a[r]) || span_end(s[j]) == span_end(a[r]));
        assert(s.contains(s[j1]) && s.contains(s[j2]));
        let i1 = lemma_index_of(p, s[j1]);
        let i2 = lemma_index_of(p, s[j2]);
        assert(span_start(p[i1]) == span_start(a[r]) || span_end(p[i1]) == span_start(a[r]));
        assert(span_start(p[i2]) == span_end(a[r]) || span_end(p[i2]) == span_end(a[r]));
    }
    assert forall|r: int, i: int| 0 <= r < a.len() && 0 <= i < p.len() implies !(span_start(#[trigger] a[r])
        < span_start(#[trigger] p[i]) < span_end(a[r])) && !(span_start(a[r]) < span_end(p[i]) < span_end(a[r])) by {
        assert(p.contains(p[i]));
        let j = lemma_index_of(s, p[i]);
        assert(!(span_start(a[r]) < span_start(s[j]) < span_end(a[r])));
        assert(!(span_start(a[r]) < span_end(s[j]) < span_end(a[r])));
    }
    assert forall|r: int| 0 <= r < a.len() implies named_innermost(p, #[trigger] a[r]) by {
        let pt = span_start(a[r]);
        assert(named_innermost(s, a[r]));
        let i = choose|i: int| is_innermost(s, i, pt) && a[r].1 == s[i].1;
        assert(s.contains(s[i]));
        let k = lemma_index_of(p, s[i]);
        assert forall|j: int| 0 <= j < p.len() && span_contains(#[trigger] p[j], pt) implies no_deeper(p, j, k) by {
            assert(p.contains(p[j]));
            let l = lemma_index_of(s, p[j]);
            assert(span_contains(s[l], pt));
            assert(no_deeper(s, l, i));
            if span_start(s[l]) == span_start(s[i]) && span_end(s[l]) == span_end(s[i]) {
                assert(s[l].0 == s[i].0);
                assert(l == i);
                assert(p[j].0 == p[k].0);
                assert(j == k);
            }
        }
        assert(is_innermost(p, k, pt));
    }
    assert forall|pt: int| #[trigger] is_covered(p, pt) implies exists|r: int|
        0 <= r < a.len() && span_contains(#[trigger] a[r], pt) by {
        let i = choose|i: int| 0 <= i < p.len() && span_contains(#[trigger] p[i], pt);
        assert(p.contains(p[i]));
        let j = lemma_index_of(s, p[i]);
        assert(span_contains(s[j], pt));
        assert(is_covered(s, pt));
    }
}

/// The order in which nesting spans with distinct ranges come does not
/// matter: the same spans in another order flatten to the same runs.
pub proof fn lemma_order_of_spans_does_not_matter(s: Seq<Span>, p: Seq<Span>, a: Seq<Span>, b: Seq<Span>)
    requires
        spans_nest(s),
        ranges_distinct(s),
        ranges_distinct(p),
        forall|x: Span| p.contains(x) <==> s.contains(x),
        flattens(s, a),
        flattens(p, b),
    ensures
        a == b,
{
    lemma_flattens_reordered(s, p, a);
    lemma_flattening_is_unique(p, a, b);
}

} // verus!
