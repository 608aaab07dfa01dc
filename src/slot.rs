//! Per-resource slots: a range of time with the available intervals inside it.
use vstd::prelude::*;
use crate::interval::{
    covers, lemma_covers_push, lemma_spans_unique, span_bounded, span_in, span_length, spans_wf,
    total_length, valid_end_key, valid_start_key, Bound, EndBound, Interval, Intervals, Span, StartBound, bound_value, start_key, spans_of, span_difference,
};

verus! {

/// A range of a resource's time and the intervals inside it when the resource works.
#[derive(Clone, Debug)]
pub struct Slot {
    pub range: Interval,
    /// Whether the next computed window may extend this slot.
    pub extensible: bool,
    /// Total length of `intervals`, in seconds.
    pub duration: u64,
    pub intervals: Intervals,
}

/// Every key of `s` lies within `p`.
pub open spec fn spans_within(s: Seq<Span>, p: Span) -> bool {
    forall|k: int| covers(s, k) ==> span_in(p, k)
}

impl Slot {
    pub open spec fn wf(&self) -> bool {
        &&& self.range.wf()
        &&& span_bounded(self.range@)
        &&& self.intervals.wf()
        &&& spans_within(self.intervals@, self.range@)
        &&& self.duration as int == total_length(self.intervals@)
    }
}

/// Slots in ascending order with disjoint ranges.
pub open spec fn slots_wf(s: Seq<Slot>) -> bool {
    &&& forall|i: int| 0 <= i < s.len() ==> (#[trigger] s[i]).wf()
    &&& forall|i: int, j: int|
        0 <= i < j < s.len() ==> (#[trigger] s[i]).range@.1 < (#[trigger] s[j]).range@.0
}

/// Key `k` is free time in some slot of `s`.
pub open spec fn available(s: Seq<Slot>, k: int) -> bool {
    exists|i: int| 0 <= i < s.len() && covers((#[trigger] s[i]).intervals@, k)
}

/// Keys of a collection whose spans all lie within a bounded span are bounded.
pub proof fn lemma_within_bounded(s: Seq<Span>, p: Span)
    requires
        spans_wf(s),
        spans_within(s, p),
        span_bounded(p),
        valid_start_key(p.0),
        valid_end_key(p.1),
    ensures
        forall|i: int| 0 <= i < s.len() ==> span_bounded(#[trigger] s[i]),
        forall|i: int| 0 <= i < s.len() ==> p.0 <= (#[trigger] s[i]).0 && s[i].1 <= p.1,
{
    assert forall|i: int| 0 <= i < s.len() implies p.0 <= (#[trigger] s[i]).0 && s[i].1 <= p.1 by {
        assert(span_in(s[i], s[i].0));
        assert(covers(s, s[i].0));
        assert(span_in(s[i], s[i].1));
        assert(covers(s, s[i].1));
    }
}

/// The length of a collection is defined when all its members are bounded.
pub(crate) fn bounded_length(iv: &Intervals) -> (r: u64)
    requires
        iv.wf(),
        forall|i: int| 0 <= i < iv@.len() ==> span_bounded(#[trigger] iv@[i]),
    ensures
        r as int == total_length(iv@),
{
    match iv.length() {
        Some(l) => l,
        None => {
            proof {
                let i = choose|i: int| 0 <= i < iv@.len() && !span_bounded(iv@[i]);
                assert(span_bounded(iv@[i]));
            }
            0
        },
    }
}

/// Takes whole intervals in order until `duration` seconds are reached, cutting
/// the last one short: the earliest `duration` seconds of `intervals`.
pub fn reduce_intervals(intervals: Intervals, duration: u64) -> (r: Intervals)
    requires
        intervals.wf(),
        forall|i: int| 0 <= i < intervals@.len() ==> span_bounded(#[trigger] intervals@[i]),
        duration <= total_length(intervals@),
    ensures
        r.wf(),
        total_length(r@) == duration,
        forall|i: int| 0 <= i < r@.len() ==> span_bounded(#[trigger] r@[i]),
        forall|k: int| #[trigger] covers(r@, k) ==> covers(intervals@, k),
        r@.len() > 0 ==> forall|k: int|
            covers(intervals@, k) && k <= r@.last().1 ==> #[trigger] covers(r@, k),
        duration == 0 ==> r@.len() == 0,
{
    let ghost s = intervals@;
    let n = intervals.len();
    let mut result = Intervals::new();
    let mut rest: u64 = duration;
    let mut i: usize = 0;
    proof {
        assert(s.subrange(0, 0) =~= Seq::<Span>::empty());
    }
    while i < n && rest > 0
        invariant
            i <= n,
            n == s.len(),
            s == intervals@,
            spans_wf(s),
            forall|j: int| 0 <= j < s.len() ==> span_bounded(#[trigger] s[j]),
            result@ == s.subrange(0, i as int),
            rest as int + total_length(result@) == duration,
            i > 0 ==> rest > 0,
            duration == 0 ==> rest == 0,
            duration <= total_length(s),
            result.wf(),
        decreases n - i,
    {
        let iv = *intervals.get(i);
        let len = match iv.length() {
            Some(l) => l,
            None => 0,
        };
        proof {
            lemma_total_length_prefix(s, i as int + 1);
        }
        if len < rest {
            let ghost before = result@;
            result.insert(iv);
            proof {
                assert(s.subrange(0, i + 1) =~= s.subrange(0, i as int).push(s[i as int]));
                if i > 0 {
                    assert(s[i - 1].1 + 1 < s[i as int].0);
                }
                lemma_push_canonical(before, s[i as int], result@);
                assert(s.subrange(0, i + 1).drop_last() =~= s.subrange(0, i as int));
            }
            rest = rest - len;
            i += 1;
        } else {
            // cut the interval `rest` seconds after its start
            let start = iv.start();
            let sv = match start.value() {
                Some(v) => v,
                None => 0,
            };
            proof {
                assert(span_bounded(s[i as int]));
                assert(iv.wf());
                assert(start_key(start) == iv@.0);
                assert(sv as int == iv@.0 / 2) by {
                    match start {
                        Bound::Open(v) => {},
                        Bound::Closed(v) => {},
                        Bound::Unbounded() => {},
                    }
                }
                assert(len as int == span_length(iv@));
                assert(sv as int + rest as int <= (iv@.1 + 1) / 2);
                assert((iv@.1 + 1) / 2 <= i64::MAX);
            }
            let cut_end = ((sv as i128) + (rest as i128)) as i64;
            let cut = Interval::from_bounds(StartBound(start), EndBound(Bound::Open(cut_end)));
            assert(span_length(cut@) == rest);
            let ghost before = result@;
            result.insert(cut);
            proof {
                if i > 0 {
                    assert(s[i - 1].1 + 1 < s[i as int].0);
                }
                lemma_push_canonical(before, cut@, result@);
                assert(result@.drop_last() =~= before);
                assert(result@.last() == cut@);
                lemma_total_length_prefix(s, i as int);
                assert forall|k: int| #[trigger] covers(result@, k) implies covers(s, k) by {
                    lemma_covers_push(before, cut@, k);
                    if covers(before, k) {
                        let j = choose|j: int| 0 <= j < before.len() && span_in(before[j], k);
                        assert(before[j] == s[j]);
                    } else {
                        assert(span_in(s[i as int], k));
                    }
                }
                assert forall|k: int| covers(s, k) && k <= result@.last().1 implies #[trigger] covers(
                    result@,
                    k,
                ) by {
                    lemma_covers_push(before, cut@, k);
                    let j = choose|j: int| 0 <= j < s.len() && span_in(s[j], k);
                    if j < i {
                        assert(before[j] == s[j]);
                    } else if j > i {
                        assert(s[i as int].1 + 1 < s[j].0);
                    }
                }
            }
            return result;
        }
    }
    proof {
        if i < n {
            assert(rest == 0);
        } else {
            assert(s.subrange(0, n as int) =~= s);
        }
        assert forall|k: int| #[trigger] covers(result@, k) implies covers(s, k) by {
            let j = choose|j: int| 0 <= j < result@.len() && span_in(result@[j], k);
            assert(result@[j] == s[j]);
        }
        if result@.len() > 0 {
            assert forall|k: int| covers(s, k) && k <= result@.last().1 implies #[trigger] covers(
                result@,
                k,
            ) by {
                let j = choose|j: int| 0 <= j < s.len() && span_in(s[j], k);
                let l = result@.len() - 1;
                assert(result@[l] == s[l]);
                if j > l {
                    assert(s[l].1 + 1 < s[j].0);
                } else {
                    assert(result@[j] == s[j]);
                }
            }
        }
    }
    result
}

/// The total length of a prefix is at most the total length.
proof fn lemma_total_length_prefix(s: Seq<Span>, n: int)
    requires
        0 <= n <= s.len(),
        forall|j: int| 0 <= j < s.len() ==> (#[trigger] s[j]).0 <= s[j].1,
    ensures
        total_length(s.subrange(0, n)) <= total_length(s),
    decreases s.len() - n,
{
    if n < s.len() {
        lemma_total_length_prefix(s, n + 1);
        assert(s.subrange(0, n + 1).drop_last() =~= s.subrange(0, n));
        assert(s.subrange(0, n + 1).last() == s[n]);
        assert(span_length(s[n]) >= 0);
    } else {
        assert(s.subrange(0, n) =~= s);
    }
}

/// Inserting a span that lies after every member appends it.
proof fn lemma_push_canonical(before: Seq<Span>, x: Span, after: Seq<Span>)
    requires
        spans_wf(before),
        spans_wf(after),
        x.0 <= x.1,
        valid_start_key(x.0),
        valid_end_key(x.1),
        before.len() > 0 ==> before.last().1 + 1 < x.0,
        forall|k: int| #[trigger] covers(after, k) <==> covers(before, k) || span_in(x, k),
    ensures
        after == before.push(x),
{
    let t = before.push(x);
    assert forall|i: int, j: int| 0 <= i < j < t.len() implies #[trigger] t[i].1 + 1
        < #[trigger] t[j].0 by {
        if j == before.len() {
            lemma_wf_ordered_pub(before, i, before.len() - 1);
        }
    }
    assert forall|k: int| covers(after, k) <==> covers(t, k) by {
        lemma_covers_push(before, x, k);
    }
    lemma_spans_unique(after, t);
}

/// Later spans of a well-formed sequence start and end later.
pub proof fn lemma_wf_ordered_pub(s: Seq<Span>, i: int, j: int)
    requires
        spans_wf(s),
        0 <= i <= j < s.len(),
    ensures
        s[i].0 <= s[j].0,
        s[i].1 <= s[j].1,
{
    if i < j {
        assert(s[i].1 + 1 < s[j].0);
        assert(s[i].0 <= s[i].1);
        assert(s[j].0 <= s[j].1);
    }
}

/// A slot holding the part of `orig` that lies within `p`.
fn residue(orig: &Slot, p: Interval, extensible: bool) -> (r: Slot)
    requires
        orig.wf(),
        p.wf(),
        orig.range@.0 <= p@.0,
        p@.1 <= orig.range@.1,
    ensures
        r.wf(),
        r.range == p,
        r.extensible == extensible,
        forall|k: int| #[trigger] covers(r.intervals@, k) <==> covers(orig.intervals@, k) && span_in(p@, k),
{
    let mut single = Intervals::new();
    single.insert(p);
    let ints = orig.intervals.intersection(&single);
    proof {
        p.lemma_wf_keys();
        orig.range.lemma_wf_keys();
        assert forall|k: int| covers(ints@, k) <==> covers(orig.intervals@, k) && span_in(p@, k) by {
            assert(covers(single@, k) <==> covers(Seq::<Span>::empty(), k) || span_in(p@, k));
        }
        lemma_within_bounded(ints@, p@);
    }
    let d = bounded_length(&ints);
    Slot { range: p, extensible, duration: d, intervals: ints }
}

/// `pieces` are what is left of slot `orig` around `cut`: their ranges are the
/// parts of its range outside `cut`, in order; each keeps the free time of `orig`
/// within its range; only a lone residue that keeps the end of `orig` keeps its
/// extensible flag, the others are not extensible.
pub open spec fn residues_of(pieces: Seq<Slot>, orig: Slot, cut: Span) -> bool {
    &&& pieces.map_values(|p: Slot| p.range@) == span_difference(orig.range@, cut)
    &&& forall|m: int|
        0 <= m < pieces.len() ==> (#[trigger] pieces[m]).extensible == (orig.extensible && pieces.len() == 1
            && pieces[m].range@.1 == orig.range@.1)
    &&& forall|m: int, k: int|
        0 <= m < pieces.len() ==> (#[trigger] covers(pieces[m].intervals@, k) <==> covers(orig.intervals@, k)
            && span_in(pieces[m].range@, k))
}

/// Takes the range of `slot` out of the slot at `idx`: what is left of it on the
/// left stays at `idx`, what is left on the right follows it. Only a lone residue
/// that keeps the slot's end stays extensible.
pub fn remove_slot(slots: &mut Vec<Slot>, idx: usize, slot: &Slot)
    requires
        slots_wf(old(slots)@),
        idx < old(slots)@.len(),
        slot.range.wf(),
        old(slots)@[idx as int].range@.0 <= slot.range@.0,
        slot.range@.1 <= old(slots)@[idx as int].range@.1,
    ensures
        slots_wf(final(slots)@),
        forall|k: int|
            #[trigger] available(final(slots)@, k) <==> available(old(slots)@, k) && !span_in(
                slot.range@,
                k,
            ),
        final(slots)@.subrange(0, idx as int) == old(slots)@.subrange(0, idx as int),
        exists|pieces: Seq<Slot>| #[trigger] residues_of(pieces, old(slots)@[idx as int], slot.range@)
            && final(slots)@ == old(slots)@.subrange(0, idx as int) + pieces + old(slots)@.subrange(
            idx + 1,
            old(slots)@.len() as int,
        ),
{
    let ghost s = slots@;
    let n = slots.len();
    let orig = slots.remove(idx);
    assert(orig == s[idx as int]);
    let ranges = orig.range.difference(&slot.range);
    let ghost pieces: Seq<Slot> = Seq::empty();
    proof {
        assert(spans_of(ranges@).len() == ranges@.len());
    }
    if ranges.len() >= 1 {
        let p0 = ranges[0];
        assert(spans_of(ranges@)[0] == p0@);
        let ext = orig.extensible && ranges.len() == 1 && p0.end() == orig.range.end();
        let r0 = residue(&orig, p0, ext);
        slots.insert(idx, r0);
        proof {
            pieces = pieces.push(r0);
        }
    }
    if ranges.len() == 2 {
        let p1 = ranges[1];
        assert(spans_of(ranges@)[1] == p1@);
        let r1 = residue(&orig, p1, false);
        slots.insert(idx + 1, r1);
        proof {
            pieces = pieces.push(r1);
        }
    }
    proof {
        let t = slots@;
        assert(t =~= s.subrange(0, idx as int) + pieces + s.subrange(idx + 1, n as int));
        assert(pieces.len() == ranges@.len());
        assert forall|m: int| 0 <= m < pieces.len() implies #[trigger] pieces[m].range@
            == spans_of(ranges@)[m] by {
        }
        lemma_splice_slots(s, idx as int, pieces, slot.range@, spans_of(ranges@));
        assert(pieces.map_values(|p: Slot| p.range@) =~= span_difference(orig.range@, slot.range@));
        assert forall|m: int| 0 <= m < pieces.len() implies (#[trigger] pieces[m]).extensible == (orig.extensible
            && pieces.len() == 1 && pieces[m].range@.1 == orig.range@.1) by {
            if m == 0 {
                crate::interval::lemma_end_key_inverse(pieces[0].range.end_spec());
                crate::interval::lemma_end_key_inverse(orig.range.end_spec());
                pieces[0].range.lemma_bounds();
                orig.range.lemma_bounds();
            }
        }
        assert(residues_of(pieces, orig, slot.range@));
        assert(t.subrange(0, idx as int) =~= s.subrange(0, idx as int));
    }
}

/// Replacing slot `idx` by residues that hold its keys outside `cut` keeps the
/// slots well formed and takes exactly the keys of `cut` out of the free time.
#[verifier::rlimit(40)]
proof fn lemma_splice_slots(s: Seq<Slot>, idx: int, pieces: Seq<Slot>, cut: Span, ranges: Seq<Span>)
    requires
        slots_wf(s),
        0 <= idx < s.len(),
        s[idx].range@.0 <= cut.0,
        cut.0 <= cut.1,
        cut.1 <= s[idx].range@.1,
        ranges == span_difference(s[idx].range@, cut),
        pieces.len() == ranges.len(),
        forall|m: int| 0 <= m < pieces.len() ==> #[trigger] pieces[m].range@ == ranges[m],
        forall|m: int| 0 <= m < pieces.len() ==> (#[trigger] pieces[m]).wf(),
        forall|m: int, k: int|
            0 <= m < pieces.len() ==> (#[trigger] covers(pieces[m].intervals@, k) <==> covers(
                s[idx].intervals@,
                k,
            ) && span_in(ranges[m], k)),
    ensures
        slots_wf(s.subrange(0, idx) + pieces + s.subrange(idx + 1, s.len() as int)),
        forall|k: int|
            #[trigger] available(s.subrange(0, idx) + pieces + s.subrange(idx + 1, s.len() as int), k)
                <==> available(s, k) && !span_in(cut, k),
{
    let t = s.subrange(0, idx) + pieces + s.subrange(idx + 1, s.len() as int);
    let pl = pieces.len() as int;
    let orig = s[idx];
    assert forall|i: int| 0 <= i < t.len() implies (#[trigger] t[i]).wf() by {
        if i < idx {
            assert(t[i] == s[i]);
        } else if i < idx + pl {
            assert(t[i] == pieces[i - idx]);
        } else {
            assert(t[i] == s[i - pl + 1]);
        }
    }
    assert forall|i: int, j: int| 0 <= i < j < t.len() implies (#[trigger] t[i]).range@.1 < (
    #[trigger] t[j]).range@.0 by {
        if j < idx {
            assert(t[i] == s[i] && t[j] == s[j]);
        } else if j < idx + pl {
            assert(t[j] == pieces[j - idx]);
            if i < idx {
                assert(t[i] == s[i]);
                assert(s[i].range@.1 < s[idx].range@.0);
            } else {
                assert(t[i] == pieces[i - idx]);
            }
        } else {
            let jj = j - pl + 1;
            assert(t[j] == s[jj]);
            assert(s[idx].range@.1 < s[jj].range@.0);
            if i < idx {
                assert(t[i] == s[i]);
            } else if i < idx + pl {
                assert(t[i] == pieces[i - idx]);
            } else {
                assert(t[i] == s[i - pl + 1]);
            }
        }
    }
    assert forall|k: int| #[trigger] available(t, k) <==> available(s, k) && !span_in(cut, k) by {
        if available(t, k) {
            let i = choose|i: int| 0 <= i < t.len() && covers(t[i].intervals@, k);
            if i < idx {
                assert(t[i] == s[i]);
                assert(s[i].range@.1 < s[idx].range@.0);
                assert(span_in(s[i].range@, k));
            } else if i < idx + pl {
                assert(t[i] == pieces[i - idx]);
                assert(covers(orig.intervals@, k));
            } else {
                assert(t[i] == s[i - pl + 1]);
                assert(s[idx].range@.1 < s[i - pl + 1].range@.0);
                assert(span_in(s[i - pl + 1].range@, k));
            }
            assert(available(s, k));
        }
        if available(s, k) && !span_in(cut, k) {
            let i = choose|i: int| 0 <= i < s.len() && covers(s[i].intervals@, k);
            if i < idx {
                assert(t[i] == s[i]);
            } else if i == idx {
                assert(span_in(orig.range@, k));
                if k < cut.0 {
                    assert(t[idx] == pieces[0]);
                    assert(covers(pieces[0].intervals@, k));
                } else {
                    assert(t[idx + pl - 1] == pieces[pl - 1]);
                    assert(covers(pieces[pl - 1].intervals@, k));
                }
            } else {
                assert(t[i + pl - 1] == s[i]);
            }
        }
    }
}

/// Records newly computed availability `intervals` for the window `[start, end)`:
/// the last slot grows over the window when it is extensible and ends where the
/// window starts; otherwise a new extensible slot for the window is appended.
pub fn add_slot_availability(slots: &mut Vec<Slot>, intervals: Intervals, start: i64, end: i64)
    requires
        slots_wf(old(slots)@),
        intervals.wf(),
        start < end,
        spans_within(intervals@, (2 * start, 2 * end - 1)),
        old(slots)@.len() > 0 ==> old(slots)@.last().range@.1 < 2 * start,
    ensures
        slots_wf(final(slots)@),
        forall|k: int|
            #[trigger] available(final(slots)@, k) <==> available(old(slots)@, k) || covers(
                intervals@,
                k,
            ),
        ({
            let extend = old(slots)@.len() > 0 && old(slots)@.last().extensible
                && old(slots)@.last().range@.1 + 1 == 2 * start;
            &&& extend ==> final(slots)@.len() == old(slots)@.len() && final(slots)@.last().range@
                == (old(slots)@.last().range@.0, 2 * end - 1) && final(slots)@.last().extensible
            &&& !extend ==> final(slots)@.len() == old(slots)@.len() + 1 && final(slots)@.last().range@
                == (2 * start, 2 * end - 1) && final(slots)@.last().extensible
            &&& final(slots)@.drop_last() == old(slots)@.drop_last() || !extend
            &&& final(slots)@.drop_last() == old(slots)@ || extend
        }),
{
    let ghost s = slots@;
    let n = slots.len();
    let window = Interval::new_lcro(start, end);
    proof {
        window.lemma_wf_keys();
        lemma_within_bounded(intervals@, window@);
    }
    let mut extend = false;
    if n > 0 {
        let last = &slots[n - 1];
        proof {
            assert(s[n - 1].wf());
            last.range.lemma_bounds();
        }
        let end_k = EndBound(last.range.end()).key();
        extend = last.extensible && end_k + 1 == 2 * (start as i128);
    }
    if extend {
        let last = slots.pop().unwrap();
        assert(last == s.last());
        let ints = last.intervals.union(&intervals);
        proof {
            last.range.lemma_bounds();
            last.range.lemma_wf_keys();
            assert(last.range@.0 <= 2 * start);
            assert forall|k: int| covers(ints@, k) implies span_in((last.range@.0, 2 * end - 1), k) by {
                if covers(last.intervals@, k) {
                    assert(span_in(last.range@, k));
                } else {
                    assert(covers(intervals@, k));
                }
            }
            lemma_within_bounded(ints@, (last.range@.0, 2 * end - 1));
        }
        let range = Interval::new(last.range.start(), Bound::Open(end));
        let d = bounded_length(&ints);
        let grown = Slot { range, extensible: true, duration: d, intervals: ints };
        slots.push(grown);
        proof {
            let t = slots@;
            assert(t =~= s.drop_last().push(grown));
            assert forall|i: int| 0 <= i < t.len() implies (#[trigger] t[i]).wf() by {
                if i < n - 1 {
                    assert(t[i] == s[i]);
                }
            }
            assert forall|i: int, j: int| 0 <= i < j < t.len() implies (#[trigger] t[i]).range@.1 < (
            #[trigger] t[j]).range@.0 by {
                assert(t[i] == s[i]);
                if j < n - 1 {
                    assert(t[j] == s[j]);
                } else {
                    assert(s[i].range@.1 < s[n - 1].range@.0);
                }
            }
            assert forall|k: int| #[trigger] available(t, k) <==> available(s, k) || covers(intervals@, k) by {
                if available(t, k) {
                    let i = choose|i: int| 0 <= i < t.len() && covers(t[i].intervals@, k);
                    if i < n - 1 {
                        assert(t[i] == s[i]);
                    } else {
                        assert(covers(last.intervals@, k) || covers(intervals@, k));
                        if covers(last.intervals@, k) {
                            assert(covers(s[n - 1].intervals@, k));
                        }
                    }
                }
                if available(s, k) {
                    let i = choose|i: int| 0 <= i < s.len() && covers(s[i].intervals@, k);
                    if i < n - 1 {
                        assert(t[i] == s[i]);
                    } else {
                        assert(covers(t[n - 1].intervals@, k));
                    }
                }
                if covers(intervals@, k) {
                    assert(covers(t[n - 1].intervals@, k));
                }
            }
            assert(t.drop_last() =~= s.drop_last());
        }
    } else {
        let d = bounded_length(&intervals);
        let fresh = Slot { range: window, extensible: true, duration: d, intervals };
        slots.push(fresh);
        proof {
            let t = slots@;
            assert(t =~= s.push(fresh));
            assert forall|i: int| 0 <= i < t.len() implies (#[trigger] t[i]).wf() by {
                if i < n {
                    assert(t[i] == s[i]);
                }
            }
            assert forall|i: int, j: int| 0 <= i < j < t.len() implies (#[trigger] t[i]).range@.1 < (
            #[trigger] t[j]).range@.0 by {
                assert(t[i] == s[i]);
                if j < n {
                    assert(t[j] == s[j]);
                } else {
                    assert(s[i].range@.1 <= s[n - 1].range@.1);
                    assert(s[n - 1].wf());
                }
            }
            assert forall|k: int| #[trigger] available(t, k) <==> available(s, k) || covers(intervals@, k) by {
                if available(t, k) {
                    let i = choose|i: int| 0 <= i < t.len() && covers(t[i].intervals@, k);
                    if i < n {
                        assert(t[i] == s[i]);
                    }
                }
                if available(s, k) {
                    let i = choose|i: int| 0 <= i < s.len() && covers(s[i].intervals@, k);
                    assert(t[i] == s[i]);
                }
                if covers(intervals@, k) {
                    assert(covers(t[n as int].intervals@, k));
                }
            }
            assert(t.drop_last() =~= s);
        }
    }
}

} // verus!
