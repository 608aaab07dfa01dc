//! Greedy placement of one task on the slots of its resources.
use vstd::prelude::*;
use crate::interval::{
    covers, lemma_spans_unique, span_bounded, span_in, spans_wf, total_length, EndBound, Interval, Intervals, Span,
    StartBound,
};
use crate::issue::IssueCode;
use crate::slot::{
    available, bounded_length, lemma_within_bounded, reduce_intervals, remove_slot, slots_wf,
    spans_within, Slot,
};

verus! {

/// Where a task was placed: the resources (by position) and the time they work on it.
#[derive(Clone, Debug)]
pub struct Assignment {
    pub resources: Vec<usize>,
    pub slot: Slot,
}

/// The slot at position `j` of resource `i`.
pub open spec fn slot_of(res: Seq<Vec<Slot>>, i: int, j: int) -> Slot {
    res[i]@[j]
}

/// Every resource's slots are well formed.
pub open spec fn all_slots_wf(res: Seq<Vec<Slot>>) -> bool {
    forall|i: int| 0 <= i < res.len() ==> slots_wf(#[trigger] res[i]@)
}

/// The start of a task: the latest end among its predecessors, the project start
/// when it has none, and `None` when one of them has not finished.
pub open spec fn task_start_spec(preds: Seq<Option<i64>>, project_start: i64) -> Option<i64> {
    if preds.len() == 0 {
        Some(project_start)
    } else if exists|i: int| 0 <= i < preds.len() && preds[i] is None {
        None
    } else {
        Some(max_of(preds))
    }
}

pub open spec fn max_of(preds: Seq<Option<i64>>) -> i64
    decreases preds.len(),
{
    if preds.len() == 0 {
        i64::MIN
    } else {
        let m = max_of(preds.drop_last());
        let v = match preds.last() {
            Some(v) => v,
            None => i64::MIN,
        };
        if m < v {
            v
        } else {
            m
        }
    }
}

/// The instant a task can start, from the finish instants of its predecessors.
pub fn task_start(preds: &Vec<Option<i64>>, project_start: i64) -> (r: Option<i64>)
    ensures
        r == task_start_spec(preds@, project_start),
{
    if preds.len() == 0 {
        return Some(project_start);
    }
    let mut m: i64 = i64::MIN;
    let mut i: usize = 0;
    while i < preds.len()
        invariant
            i <= preds@.len(),
            m == max_of(preds@.subrange(0, i as int)),
            forall|j: int| 0 <= j < i ==> preds@[j] is Some,
        decreases preds.len() - i,
    {
        assert(preds@.subrange(0, i + 1).drop_last() =~= preds@.subrange(0, i as int));
        match preds[i] {
            Some(v) => {
                if m < v {
                    m = v;
                }
            },
            None => {
                return None;
            },
        }
        i += 1;
    }
    assert(preds@.subrange(0, i as int) =~= preds@);
    Some(m)
}

/// Positions still to visit in the slot lists of `req`.
pub open spec fn pending(res: Seq<Vec<Slot>>, req: Seq<usize>, pos: Seq<usize>) -> int
    decreases req.len(),
{
    if req.len() == 0 || pos.len() == 0 {
        0
    } else {
        pending(res, req.drop_last(), pos.drop_last()) + (res[req.last() as int]@.len() - pos.last())
    }
}

proof fn lemma_pending_advance(res: Seq<Vec<Slot>>, req: Seq<usize>, pos: Seq<usize>, r: int, v: usize)
    requires
        req.len() == pos.len(),
        0 <= r < pos.len(),
    ensures
        pending(res, req, pos.update(r, v)) == pending(res, req, pos) - (v - pos[r]),
    decreases req.len(),
{
    let p2 = pos.update(r, v);
    if r == pos.len() - 1 {
        assert(p2.drop_last() =~= pos.drop_last());
    } else {
        assert(p2.drop_last() =~= pos.drop_last().update(r, v));
        lemma_pending_advance(res, req.drop_last(), pos.drop_last(), r, v);
    }
}

proof fn lemma_pending_nonneg(res: Seq<Vec<Slot>>, req: Seq<usize>, pos: Seq<usize>)
    requires
        req.len() == pos.len(),
        forall|r: int| 0 <= r < req.len() ==> 0 <= #[trigger] req[r] < res.len(),
        forall|r: int| 0 <= r < pos.len() ==> pos[r] <= res[req[r] as int]@.len(),
    ensures
        pending(res, req, pos) >= 0,
    decreases req.len(),
{
    if req.len() > 0 {
        lemma_pending_nonneg(res, req.drop_last(), pos.drop_last());
    }
}

/// Inputs of `plan_task`: resource positions in range, required ones distinct, and no
/// selectable resource among the required ones.
pub open spec fn choice_ok(res: Seq<Vec<Slot>>, req: Seq<usize>, sel: Seq<usize>) -> bool {
    &&& forall|r: int| 0 <= r < req.len() ==> #[trigger] req[r] < res.len()
    &&& forall|s: int| 0 <= s < sel.len() ==> #[trigger] sel[s] < res.len()
    &&& forall|a: int, b: int| 0 <= a < b < req.len() ==> req[a] != req[b]
    &&& forall|a: int, b: int| 0 <= a < req.len() && 0 <= b < sel.len() ==> req[a] != sel[b]
}

/// Keys of `ints` lie in the window and in the current slot of every required resource.
pub open spec fn fits_primary(
    ints: Seq<Span>,
    window: Span,
    res: Seq<Vec<Slot>>,
    req: Seq<usize>,
    pos: Seq<usize>,
    upto: int,
) -> bool {
    forall|k: int|
        #[trigger] covers(ints, k) ==> span_in(window, k) && forall|r: int|
            0 <= r < upto ==> covers(slot_of(res, req[r] as int, pos[r] as int).intervals@, k)
}

/// The free time `ints` leaves at least `duration` seconds inside `window`.
pub open spec fn fits(ints: Seq<Span>, window: Span, duration: int) -> bool {
    exists|p: Seq<Span>|
        spans_wf(p) && (forall|k: int| #[trigger] covers(p, k) <==> covers(ints, k) && span_in(window, k))
            && total_length(p) >= duration
}

/// Whether it fits is read off any well-formed form of the common keys.
proof fn lemma_fits_by(ints: Seq<Span>, window: Span, duration: int, p: Seq<Span>)
    requires
        spans_wf(p),
        forall|k: int| #[trigger] covers(p, k) <==> covers(ints, k) && span_in(window, k),
    ensures
        fits(ints, window, duration) <==> total_length(p) >= duration,
{
    if fits(ints, window, duration) {
        let q = choose|q: Seq<Span>|
            spans_wf(q) && (forall|k: int| #[trigger] covers(q, k) <==> covers(ints, k) && span_in(window, k))
                && total_length(q) >= duration;
        assert forall|k: int| covers(q, k) <==> covers(p, k) by {
            assert(covers(q, k) <==> covers(ints, k) && span_in(window, k));
            assert(covers(p, k) <==> covers(ints, k) && span_in(window, k));
        }
        lemma_spans_unique(q, p);
    }
}

/// Free time with no key in the window does not fit a positive duration.
proof fn lemma_no_fit(ints: Seq<Span>, window: Span, duration: int)
    requires
        duration > 0,
        forall|k: int| covers(ints, k) ==> !span_in(window, k),
    ensures
        !fits(ints, window, duration),
{
    let e = Seq::<Span>::empty();
    assert forall|k: int| #[trigger] covers(e, k) <==> covers(ints, k) && span_in(window, k) by {}
    lemma_fits_by(ints, window, duration, e);
}

/// A slot ending before key `key` has no free time at or after it.
proof fn lemma_slot_before(sl: Slot, key: int, window: Span, duration: int)
    requires
        sl.wf(),
        sl.range@.1 < key,
        key <= window.0,
        duration > 0,
    ensures
        !fits(sl.intervals@, window, duration),
{
    assert forall|k: int| covers(sl.intervals@, k) implies !span_in(window, k) by {
        assert(span_in(sl.range@, k));
    }
    lemma_no_fit(sl.intervals@, window, duration);
}

/// `ints` is the earliest part of the free time of tuple `t` in `window`: all
/// its keys are free there, and every free key up to its last one is in it.
pub open spec fn earliest_part(res: Seq<Vec<Slot>>, req: Seq<usize>, t: Seq<usize>, window: Span, ints: Seq<Span>) -> bool {
    &&& forall|k: int| #[trigger] covers(ints, k) ==> tuple_keys(res, req, t, window, k)
    &&& ints.len() > 0 ==> forall|k: int| tuple_keys(res, req, t, window, k) && k <= ints.last().1 ==> #[trigger] covers(ints, k)
}

/// `ints` is the earliest part of the common free time of some choice of slots.
pub open spec fn earliest_of_some(res: Seq<Vec<Slot>>, req: Seq<usize>, window: Span, ints: Seq<Span>) -> bool {
    exists|t: Seq<usize>| valid_tuple(res, req, t) && #[trigger] earliest_part(res, req, t, window, ints)
}

/// The slot that tuple `t` picks for required resource `x`.
pub open spec fn slot_at(res: Seq<Vec<Slot>>, req: Seq<usize>, t: Seq<usize>, x: int) -> Slot {
    res[req[x] as int]@[t[x] as int]
}

/// Key `k` is in the window and free in every slot of tuple `t`.
pub open spec fn tuple_keys(res: Seq<Vec<Slot>>, req: Seq<usize>, t: Seq<usize>, window: Span, k: int) -> bool {
    span_in(window, k) && forall|x: int| 0 <= x < req.len() ==> #[trigger] covers(slot_at(res, req, t, x).intervals@, k)
}

/// The slots of tuple `t` share at least `duration` seconds inside `window`.
pub open spec fn tuple_fits(res: Seq<Vec<Slot>>, req: Seq<usize>, t: Seq<usize>, window: Span, duration: int) -> bool {
    exists|p: Seq<Span>|
        spans_wf(p) && (forall|k: int| #[trigger] covers(p, k) <==> tuple_keys(res, req, t, window, k)) && total_length(p)
            >= duration
}

/// `t` picks one slot of each required resource.
pub open spec fn valid_tuple(res: Seq<Vec<Slot>>, req: Seq<usize>, t: Seq<usize>) -> bool {
    t.len() == req.len() && forall|x: int| 0 <= x < req.len() ==> #[trigger] t[x] < res[req[x] as int]@.len()
}

/// `t` picks, for some resource, a slot before position `pos`.
pub open spec fn excluded(t: Seq<usize>, pos: Seq<usize>, n: int) -> bool {
    exists|x: int| 0 <= x < n && #[trigger] t[x] < pos[x]
}

/// No tuple with a slot before `pos` fits.
pub open spec fn none_tuple(res: Seq<Vec<Slot>>, req: Seq<usize>, pos: Seq<usize>, window: Span, duration: int) -> bool {
    forall|t: Seq<usize>|
        valid_tuple(res, req, t) && #[trigger] excluded(t, pos, req.len() as int) ==> !tuple_fits(res, req, t, window, duration)
}

proof fn lemma_tuple_fits_by(res: Seq<Vec<Slot>>, req: Seq<usize>, t: Seq<usize>, window: Span, duration: int, p: Seq<Span>)
    requires
        spans_wf(p),
        forall|k: int| #[trigger] covers(p, k) <==> tuple_keys(res, req, t, window, k),
    ensures
        tuple_fits(res, req, t, window, duration) <==> total_length(p) >= duration,
{
    if tuple_fits(res, req, t, window, duration) {
        let q = choose|q: Seq<Span>|
            spans_wf(q) && (forall|k: int| #[trigger] covers(q, k) <==> tuple_keys(res, req, t, window, k)) && total_length(q)
                >= duration;
        assert forall|k: int| covers(q, k) <==> covers(p, k) by {
            assert(covers(q, k) <==> tuple_keys(res, req, t, window, k));
            assert(covers(p, k) <==> tuple_keys(res, req, t, window, k));
        }
        lemma_spans_unique(q, p);
    }
}

proof fn lemma_tuple_nokeys(res: Seq<Vec<Slot>>, req: Seq<usize>, t: Seq<usize>, window: Span, duration: int)
    requires
        duration > 0,
        forall|k: int| !tuple_keys(res, req, t, window, k),
    ensures
        !tuple_fits(res, req, t, window, duration),
{
    let e = Seq::<Span>::empty();
    assert forall|k: int| #[trigger] covers(e, k) <==> tuple_keys(res, req, t, window, k) by {}
    lemma_tuple_fits_by(res, req, t, window, duration, e);
}

/// A key shared by a tuple lies in the range of each of its slots.
proof fn lemma_tuple_in_range(res: Seq<Vec<Slot>>, req: Seq<usize>, t: Seq<usize>, window: Span, k: int, x: int)
    requires
        all_slots_wf(res),
        forall|y: int| 0 <= y < req.len() ==> #[trigger] req[y] < res.len(),
        valid_tuple(res, req, t),
        0 <= x < req.len(),
        tuple_keys(res, req, t, window, k),
    ensures
        span_in(slot_at(res, req, t, x).range@, k),
{
    assert(covers(slot_at(res, req, t, x).intervals@, k));
    assert(slots_wf(res[req[x] as int]@));
    assert(t[x] < res[req[x] as int]@.len());
    assert(res[req[x] as int]@[t[x] as int].wf());
}

/// Later slots of a resource start later.
proof fn lemma_slot_order(sl: Seq<Slot>, i: int, j: int)
    requires
        slots_wf(sl),
        0 <= i <= j < sl.len(),
    ensures
        sl[i].range@.0 <= sl[j].range@.0,
        sl[i].range@.1 <= sl[j].range@.1,
{
    assert(sl[i].wf() && sl[j].wf());
    if i < j {
        assert(sl[i].range@.1 < sl[j].range@.0);
    }
}

/// Skipping slots that end before `mx`, the start of a current slot (or the
/// window's start), drops no fitting tuple.
proof fn lemma_skip_keeps(
    res: Seq<Vec<Slot>>,
    req: Seq<usize>,
    pos0: Seq<usize>,
    pos1: Seq<usize>,
    window: Span,
    duration: int,
    mx: int,
)
    requires
        all_slots_wf(res),
        forall|y: int| 0 <= y < req.len() ==> #[trigger] req[y] < res.len(),
        duration > 0,
        pos0.len() == req.len(),
        pos1.len() == req.len(),
        none_tuple(res, req, pos0, window, duration),
        forall|x: int| 0 <= x < req.len() ==> pos0[x] <= #[trigger] pos1[x],
        forall|x: int, j: int| 0 <= x < req.len() && pos0[x] <= j < pos1[x] ==> (#[trigger] res[req[x] as int]@[j]).range@.1 < mx,
        mx <= window.0 || exists|r2: int| 0 <= r2 < req.len() && pos0[r2] < res[req[r2] as int]@.len()
            && mx == (#[trigger] res[req[r2] as int]@[pos0[r2] as int]).range@.0,
    ensures
        none_tuple(res, req, pos1, window, duration),
{
    assert forall|t: Seq<usize>| valid_tuple(res, req, t) && #[trigger] excluded(t, pos1, req.len() as int) implies !tuple_fits(res, req, t, window, duration) by {
        if !excluded(t, pos0, req.len() as int) {
            let x = choose|x: int| 0 <= x < req.len() && #[trigger] t[x] < pos1[x];
            assert(t[x] >= pos0[x]) by {
                if t[x] < pos0[x] {
                    assert(excluded(t, pos0, req.len() as int));
                }
            }
            assert(res[req[x] as int]@[t[x] as int].range@.1 < mx);
            assert forall|k: int| !tuple_keys(res, req, t, window, k) by {
                if tuple_keys(res, req, t, window, k) {
                    lemma_tuple_in_range(res, req, t, window, k, x);
                    if mx <= window.0 {
                    } else {
                        let r2 = choose|r2: int| 0 <= r2 < req.len() && pos0[r2] < res[req[r2] as int]@.len()
                            && mx == (#[trigger] res[req[r2] as int]@[pos0[r2] as int]).range@.0;
                        assert(t[r2] >= pos0[r2]) by {
                            if t[r2] < pos0[r2] {
                                assert(excluded(t, pos0, req.len() as int));
                            }
                        }
                        assert(slots_wf(res[req[r2] as int]@));
                        lemma_slot_order(res[req[r2] as int]@, pos0[r2] as int, t[r2] as int);
                        lemma_tuple_in_range(res, req, t, window, k, r2);
                    }
                }
            }
            lemma_tuple_nokeys(res, req, t, window, duration);
        }
    }
}

/// Moving on from the current slot that ends first drops no fitting tuple when
/// the current tuple does not fit.
proof fn lemma_advance_keeps(res: Seq<Vec<Slot>>, req: Seq<usize>, pos: Seq<usize>, window: Span, duration: int, b: int)
    requires
        all_slots_wf(res),
        forall|y: int| 0 <= y < req.len() ==> #[trigger] req[y] < res.len(),
        duration > 0,
        pos.len() == req.len(),
        0 <= b < req.len(),
        forall|x: int| 0 <= x < req.len() ==> #[trigger] pos[x] < res[req[x] as int]@.len(),
        none_tuple(res, req, pos, window, duration),
        !tuple_fits(res, req, pos, window, duration),
        forall|x: int| 0 <= x < req.len() ==> res[req[b] as int]@[pos[b] as int].range@.1 <= (#[trigger] res[req[x] as int]@[pos[x] as int]).range@.1,
    ensures
        none_tuple(res, req, pos.update(b, (pos[b] + 1) as usize), window, duration),
{
    let pos1 = pos.update(b, (pos[b] + 1) as usize);
    assert forall|t: Seq<usize>| valid_tuple(res, req, t) && #[trigger] excluded(t, pos1, req.len() as int) implies !tuple_fits(res, req, t, window, duration) by {
        if !excluded(t, pos, req.len() as int) {
            assert forall|x: int| 0 <= x < req.len() implies t[x] >= #[trigger] pos[x] by {
                if t[x] < pos[x] {
                    assert(excluded(t, pos, req.len() as int));
                }
            }
            let x0 = choose|x: int| 0 <= x < req.len() && #[trigger] t[x] < pos1[x];
            if x0 != b {
                assert(pos1[x0] == pos[x0]);
            }
            assert(t[b] == pos[b]);
            if t =~= pos {
            } else {
                let y = choose|y: int| 0 <= y < req.len() && t[y] != pos[y];
                assert(t[y] > pos[y]);
                assert(slots_wf(res[req[y] as int]@));
                assert(res[req[y] as int]@[pos[y] as int].range@.1 < res[req[y] as int]@[t[y] as int].range@.0);
                assert forall|k: int| !tuple_keys(res, req, t, window, k) by {
                    if tuple_keys(res, req, t, window, k) {
                        lemma_tuple_in_range(res, req, t, window, k, y);
                        lemma_tuple_in_range(res, req, t, window, k, b);
                        assert(slot_at(res, req, t, b) == res[req[b] as int]@[pos[b] as int]);
                    }
                }
                lemma_tuple_nokeys(res, req, t, window, duration);
            }
        }
    }
}

/// None of the first `upto` slots of resource `i` fits.
pub open spec fn none_fit(res: Seq<Vec<Slot>>, i: int, upto: int, window: Span, duration: int) -> bool {
    forall|j: int| 0 <= j < upto ==> !fits((#[trigger] res[i]@[j]).intervals@, window, duration)
}

/// Advances `pos` past the slots that end before key `key`.
fn skip_before(slots: &Vec<Slot>, pos: usize, key: i128) -> (r: usize)
    requires
        pos <= slots@.len(),
    ensures
        pos <= r <= slots@.len(),
        forall|j: int| pos <= j < r ==> (#[trigger] slots@[j]).range@.1 < key,
{
    let mut p = pos;
    while p < slots.len() && EndBound(slots[p].range.end()).key() < key
        invariant
            pos <= p <= slots@.len(),
            forall|j: int| pos <= j < p ==> (#[trigger] slots@[j]).range@.1 < key,
        decreases slots.len() - p,
    {
        p += 1;
    }
    p
}

/// The keys in `window` that are free in the current slot of every required
/// resource.
fn common_free(window: &Interval, req: &Vec<usize>, pos: &Vec<usize>, res: &Vec<Vec<Slot>>) -> (p: Intervals)
    requires
        window.wf(),
        all_slots_wf(res@),
        pos@.len() == req@.len(),
        forall|x: int| 0 <= x < req@.len() ==> #[trigger] req@[x] < res@.len(),
        forall|x: int| 0 <= x < req@.len() ==> #[trigger] pos@[x] < res@[req@[x] as int]@.len(),
    ensures
        p.wf(),
        forall|k: int| #[trigger] covers(p@, k) <==> span_in(window@, k) && forall|x: int|
            0 <= x < req@.len() ==> #[trigger] covers(slot_of(res@, req@[x] as int, pos@[x] as int).intervals@, k),
{
    let nreq = req.len();
    let mut p = Intervals::new();
    p.insert(*window);
    proof {
        assert forall|k: int| #[trigger] covers(p@, k) <==> span_in(window@, k) by {
            assert(covers(Seq::<Span>::empty(), k) == false);
        }
    }
    let mut r: usize = 0;
    while r < nreq
        invariant
            r <= nreq,
            nreq == req@.len(),
            pos@.len() == nreq,
            all_slots_wf(res@),
            forall|x: int| 0 <= x < req@.len() ==> #[trigger] req@[x] < res@.len(),
            forall|x: int| 0 <= x < nreq ==> #[trigger] pos@[x] < res@[req@[x] as int]@.len(),
            p.wf(),
            forall|k: int| #[trigger] covers(p@, k) <==> span_in(window@, k) && forall|x: int|
                0 <= x < r ==> #[trigger] covers(slot_of(res@, req@[x] as int, pos@[x] as int).intervals@, k),
        decreases nreq - r,
    {
        let i = req[r];
        let ghost before = p@;
        proof {
            assert(slots_wf(res@[i as int]@));
            assert(res@[i as int]@[pos@[r as int] as int].wf());
        }
        p = p.intersection(&res[i][pos[r]].intervals);
        proof {
            assert forall|k: int| #[trigger] covers(p@, k) <==> span_in(window@, k) && forall|x: int|
                0 <= x < r + 1 ==> #[trigger] covers(slot_of(res@, req@[x] as int, pos@[x] as int).intervals@, k) by {
                assert(covers(before, k) <==> span_in(window@, k) && forall|x: int|
                    0 <= x < r ==> #[trigger] covers(slot_of(res@, req@[x] as int, pos@[x] as int).intervals@, k));
                let cur = slot_of(res@, req@[r as int] as int, pos@[r as int] as int);
                assert(cur == res@[i as int]@[pos@[r as int] as int]);
                assert(covers(p@, k) <==> covers(before, k) && covers(cur.intervals@, k));
                if covers(p@, k) {
                    assert forall|x: int| 0 <= x < r + 1 implies #[trigger] covers(slot_of(res@, req@[x] as int, pos@[x] as int).intervals@, k) by {
                        if x == r {
                        }
                    }
                }
                if span_in(window@, k) && forall|x: int|
                    0 <= x < r + 1 ==> #[trigger] covers(slot_of(res@, req@[x] as int, pos@[x] as int).intervals@, k) {
                    assert(covers(cur.intervals@, k));
                    assert(forall|x: int| 0 <= x < r ==> #[trigger] covers(slot_of(res@, req@[x] as int, pos@[x] as int).intervals@, k));
                }
            }
        }
        r += 1;
    }
    p
}

/// Places a task needing `duration` seconds from `task_start` on, before
/// `calculation_end`, on all resources in `req` and, when `sel` is not empty, one
/// resource of `sel`. On success the chosen time is taken out of those resources'
/// slots; every key of it was free in each of them, within the window.
#[verifier::loop_isolation(false)]
#[verifier::rlimit(60)]
pub fn plan_task(
    task_start: i64,
    calculation_end: i64,
    duration: u64,
    req: &Vec<usize>,
    sel: &Vec<usize>,
    res: &mut Vec<Vec<Slot>>,
) -> (r: Result<Assignment, IssueCode>)
    requires
        all_slots_wf(old(res)@),
        choice_ok(old(res)@, req@, sel@),
        duration > 0,
    ensures
        all_slots_wf(final(res)@),
        final(res)@.len() == old(res)@.len(),
        r is Err ==> r == Err::<Assignment, IssueCode>(IssueCode::NoSlotFound) && final(res)@ == old(res)@,
        req@.len() == 0 && sel@.len() == 0 ==> r is Err,
        req@.len() == 1 && sel@.len() == 0 ==> (r is Ok <==> exists|j: int|
            0 <= j < old(res)@[req@[0] as int]@.len() && fits(
                (#[trigger] old(res)@[req@[0] as int]@[j]).intervals@,
                (2 * task_start, 2 * calculation_end - 1),
                duration as int,
            )),
        sel@.len() == 0 && req@.len() >= 1 ==> (r is Ok <==> exists|t: Seq<usize>|
            valid_tuple(old(res)@, req@, t) && #[trigger] tuple_fits(
                old(res)@,
                req@,
                t,
                (2 * task_start, 2 * calculation_end - 1),
                duration as int,
            )),
        sel@.len() == 0 && req@.len() >= 1 ==> (r matches Ok(a) ==> earliest_of_some(
            old(res)@,
            req@,
            (2 * task_start, 2 * calculation_end - 1),
            a.slot.intervals@,
        )),
        r matches Ok(a) ==> {
            &&& a.slot.wf()
            &&& a.slot.duration == duration
            &&& a.slot.intervals.wf()
            &&& total_length(a.slot.intervals@) == duration
            &&& a.slot.range@ == (a.slot.intervals@[0].0, a.slot.intervals@.last().1)
            &&& a.slot.intervals@.len() > 0
            &&& forall|k: int| #[trigger] covers(a.slot.intervals@, k) ==> 2 * task_start <= k < 2
                * calculation_end
            &&& forall|r: int| 0 <= r < req@.len() ==> a.resources@.contains(#[trigger] req@[r])
            &&& sel@.len() > 0 ==> exists|s: int| 0 <= s < sel@.len() && a.resources@.contains(#[trigger] sel@[s])
            &&& forall|i: int| 0 <= i < a.resources@.len() ==> (#[trigger] a.resources@[i]) < old(res)@.len()
            &&& forall|i: int, k: int|
                0 <= i < a.resources@.len() && covers(a.slot.intervals@, k) ==> #[trigger] available(
                    old(res)@[a.resources@[i] as int]@,
                    k,
                )
            &&& forall|i: int, k: int|
                0 <= i < old(res)@.len() && a.resources@.contains(i as usize) ==> (#[trigger] available(
                    final(res)@[i]@,
                    k,
                ) <==> available(old(res)@[i]@, k) && !span_in(a.slot.range@, k))
            &&& forall|i: int|
                0 <= i < old(res)@.len() && !a.resources@.contains(i as usize) ==> #[trigger] final(res)@[i]
                    == old(res)@[i]
        },
{
    let ghost res0 = res@;
    let nreq = req.len();
    let nsel = sel.len();
    let ghost single = nreq == 1 && nsel == 0;
    let ghost multi = nsel == 0 && nreq >= 1;
    let ghost wspan: Span = (2 * task_start, 2 * calculation_end - 1);
    if task_start >= calculation_end || (nreq == 0 && nsel == 0) {
        proof {
            if multi {
                assert forall|t: Seq<usize>| valid_tuple(res0, req@, t) implies !#[trigger] tuple_fits(res0, req@, t, wspan, duration as int) by {
                    lemma_tuple_nokeys(res0, req@, t, wspan, duration as int);
                }
            }
            if single {
                let i = req@[0] as int;
                assert forall|j: int| 0 <= j < res0[i]@.len() implies !fits((#[trigger] res0[i]@[j]).intervals@, wspan, duration as int) by {
                    lemma_no_fit(res0[i]@[j].intervals@, wspan, duration as int);
                }
            }
        }
        return Err(IssueCode::NoSlotFound);
    }
    let window = Interval::new_lcro(task_start, calculation_end);
    let start_key: i128 = 2 * (task_start as i128);
    let mut pos: Vec<usize> = Vec::new();
    let mut r: usize = 0;
    while r < nreq
        invariant
            r <= nreq,
            nreq == req@.len(),
            pos@.len() == r,
            res@ == res0,
            choice_ok(res0, req@, sel@),
            forall|x: int| 0 <= x < r ==> #[trigger] pos@[x] <= res0[req@[x] as int]@.len(),
            single && r == 1 ==> none_fit(res0, req@[0] as int, pos@[0] as int, wspan, duration as int),
            forall|x: int, j: int| 0 <= x < r && 0 <= j < pos@[x] ==> (#[trigger] res0[req@[x] as int]@[j]).range@.1 < start_key,
        decreases nreq - r,
    {
        let i = req[r];
        let p = skip_before(&res[i], 0, start_key);
        proof {
            if single {
                assert(slots_wf(res0[i as int]@));
                assert forall|j: int| 0 <= j < p implies !fits((#[trigger] res0[i as int]@[j]).intervals@, wspan, duration as int) by {
                    assert(res0[i as int]@[j].wf());
                    lemma_slot_before(res0[i as int]@[j], start_key as int, wspan, duration as int);
                }
            }
        }
        let ghost pos_prev = pos@;
        pos.push(p);
        proof {
            assert forall|x: int, j: int| 0 <= x < r + 1 && 0 <= j < pos@[x] implies (#[trigger] res0[req@[x] as int]@[j]).range@.1 < start_key by {
                if x < r {
                    assert(pos@[x] == pos_prev[x]);
                }
            }
        }
        r += 1;
    }
    proof {
        if multi {
            let zeros = Seq::new(nreq as nat, |x: int| 0usize);
            assert forall|t: Seq<usize>| valid_tuple(res0, req@, t) && #[trigger] excluded(t, zeros, req@.len() as int) implies !tuple_fits(res0, req@, t, wspan, duration as int) by {
                let x = choose|x: int| 0 <= x < req@.len() && #[trigger] t[x] < zeros[x];
            }
            lemma_skip_keeps(res0, req@, zeros, pos@, wspan, duration as int, start_key as int);
        }
    }
    let mut spos: Vec<usize> = Vec::new();
    let mut r: usize = 0;
    while r < nsel
        invariant
            r <= nsel,
            nsel == sel@.len(),
            spos@.len() == r,
            res@ == res0,
            choice_ok(res0, req@, sel@),
            forall|x: int| 0 <= x < r ==> #[trigger] spos@[x] <= res0[sel@[x] as int]@.len(),
        decreases nsel - r,
    {
        let i = sel[r];
        let p = skip_before(&res[i], 0, start_key);
        spos.push(p);
        r += 1;
    }
    loop
        invariant
            res@ == res0,
            all_slots_wf(res0),
            choice_ok(res0, req@, sel@),
            nreq == req@.len(),
            nsel == sel@.len(),
            nreq > 0 || nsel > 0,
            duration > 0,
            pos@.len() == nreq,
            spos@.len() == nsel,
            window@ == (2 * task_start, 2 * calculation_end - 1),
            window.wf(),
            task_start < calculation_end,
            forall|x: int| 0 <= x < nreq ==> #[trigger] pos@[x] <= res0[req@[x] as int]@.len(),
            forall|x: int| 0 <= x < nsel ==> #[trigger] spos@[x] <= res0[sel@[x] as int]@.len(),
            single == (nreq == 1 && nsel == 0),
            wspan == window@,
            start_key == 2 * task_start,
            single ==> none_fit(res0, req@[0] as int, pos@[0] as int, wspan, duration as int),
            multi == (nsel == 0 && nreq >= 1),
            multi ==> none_tuple(res0, req@, pos@, wspan, duration as int),
        decreases pending(res0, req@, pos@),
    {
        let ghost pend0 = pending(res0, req@, pos@);
        proof {
            lemma_pending_nonneg(res0, req@, pos@);
        }
        // every required resource needs a current slot; move all of them up to
        // the latest start among those slots
        let mut mx: i128 = start_key;
        let mut r: usize = 0;
        while r < nreq
            invariant
                r <= nreq,
                nreq == req@.len(),
                pos@.len() == nreq,
                res@ == res0,
                choice_ok(res0, req@, sel@),
                forall|x: int| 0 <= x < nreq ==> #[trigger] pos@[x] <= res0[req@[x] as int]@.len(),
                mx >= start_key,
                r == 0 ==> mx == start_key,
                mx == start_key || exists|r2: int| 0 <= r2 < r && pos@[r2] < res0[req@[r2] as int]@.len()
                    && mx == (#[trigger] res0[req@[r2] as int]@[pos@[r2] as int]).range@.0,
                forall|x: int| 0 <= x < r ==> #[trigger] pos@[x] < res0[req@[x] as int]@.len(),
                single && r >= 1 ==> (mx == start_key || mx == res0[req@[0] as int]@[pos@[0] as int].range@.0),
            decreases nreq - r,
        {
            let i = req[r];
            if pos[r] >= res[i].len() {
                proof {
                    if single {
                        assert(pos@[0] == res0[req@[0] as int]@.len());
                    }
                    if multi {
                        assert forall|t: Seq<usize>| valid_tuple(res0, req@, t) implies !#[trigger] tuple_fits(res0, req@, t, wspan, duration as int) by {
                            assert(t[r as int] < pos@[r as int]);
                            assert(excluded(t, pos@, req@.len() as int));
                        }
                    }
                }
                return Err(IssueCode::NoSlotFound);
            }
            let k = StartBound(res[i][pos[r]].range.start()).key();
            proof {
                res0[i as int]@[pos@[r as int] as int].range.lemma_bounds();
                assert(k == res0[i as int]@[pos@[r as int] as int].range@.0);
            }
            let ghost mx_prev = mx;
            if k > mx {
                mx = k;
            }
            proof {
                if mx != start_key {
                    if mx == k {
                        assert(res0[req@[r as int] as int]@[pos@[r as int] as int].range@.0 == mx);
                    } else {
                        let r2 = choose|r2: int| 0 <= r2 < r && pos@[r2] < res0[req@[r2] as int]@.len()
                            && mx_prev == (#[trigger] res0[req@[r2] as int]@[pos@[r2] as int]).range@.0;
                    }
                }
            }
            r += 1;
        }
        let ghost pos_mx = pos@;
        let mut r: usize = 0;
        while r < nreq
            invariant
                r <= nreq,
                nreq == req@.len(),
                pos@.len() == nreq,
                res@ == res0,
                choice_ok(res0, req@, sel@),
                forall|x: int| 0 <= x < nreq ==> #[trigger] pos@[x] <= res0[req@[x] as int]@.len(),
                pending(res0, req@, pos@) <= pend0,
                single ==> none_fit(res0, req@[0] as int, pos@[0] as int, wspan, duration as int),
                single && r == 0 ==> pos@[0] < res0[req@[0] as int]@.len() && (mx == start_key || mx == res0[req@[0] as int]@[pos@[0] as int].range@.0),
                forall|x: int| 0 <= x < nreq ==> pos_mx[x] <= #[trigger] pos@[x],
                forall|x: int| r <= x < nreq ==> #[trigger] pos@[x] == pos_mx[x],
                forall|x: int, j: int| 0 <= x < r && pos_mx[x] <= j < pos@[x] ==> (#[trigger] res0[req@[x] as int]@[j]).range@.1 < mx,
            decreases nreq - r,
        {
            let i = req[r];
            let p = skip_before(&res[i], pos[r], mx);
            proof {
                lemma_pending_advance(res0, req@, pos@, r as int, p);
                if single {
                    let q = pos@[0] as int;
                    let sl = res0[i as int]@;
                    assert(slots_wf(sl));
                    assert forall|j: int| 0 <= j < p implies !fits((#[trigger] sl[j]).intervals@, wspan, duration as int) by {
                        if j >= q {
                            assert(sl[j].wf());
                            assert(sl[q].wf());
                            if mx == start_key {
                                lemma_slot_before(sl[j], start_key as int, wspan, duration as int);
                            } else {
                                if j > q {
                                    assert(sl[q].range@.1 < sl[j].range@.0);
                                }
                                assert(false);
                            }
                        }
                    }
                }
            }
            let ghost pos_prev = pos@;
            pos[r] = p;
            proof {
                assert forall|x: int, j: int| 0 <= x < r + 1 && pos_mx[x] <= j < pos@[x] implies (#[trigger] res0[req@[x] as int]@[j]).range@.1 < mx by {
                    if x < r {
                        assert(pos@[x] == pos_prev[x]);
                    } else {
                        assert(pos_prev[x] == pos_mx[x]);
                    }
                }
            }
            r += 1;
        }
        proof {
            if multi {
                assert(forall|y: int| 0 <= y < req@.len() ==> #[trigger] req@[y] < res0.len());
                lemma_skip_keeps(res0, req@, pos_mx, pos@, wspan, duration as int, mx as int);
            }
        }
        let mut r: usize = 0;
        while r < nreq
            invariant
                r <= nreq,
                nreq == req@.len(),
                pos@.len() == nreq,
                res@ == res0,
                choice_ok(res0, req@, sel@),
                forall|x: int| 0 <= x < nreq ==> #[trigger] pos@[x] <= res0[req@[x] as int]@.len(),
                forall|x: int| 0 <= x < r ==> #[trigger] pos@[x] < res0[req@[x] as int]@.len(),
            decreases nreq - r,
        {
            if pos[r] >= res[req[r]].len() {
                proof {
                    if single {
                        assert(pos@[0] == res0[req@[0] as int]@.len());
                    }
                    if multi {
                        assert forall|t: Seq<usize>| valid_tuple(res0, req@, t) implies !#[trigger] tuple_fits(res0, req@, t, wspan, duration as int) by {
                            assert(t[r as int] < pos@[r as int]);
                            assert(excluded(t, pos@, req@.len() as int));
                        }
                    }
                }
                return Err(IssueCode::NoSlotFound);
            }
            r += 1;
        }
        // the time free on all required resources, within the window
        let p = common_free(&window, req, &pos, res);
        proof {
            assert forall|k: int| #[trigger] covers(p@, k) implies span_in(window@, k) && forall|x: int|
                0 <= x < nreq ==> covers(slot_of(res0, req@[x] as int, pos@[x] as int).intervals@, k) by {
                assert(covers(p@, k) <==> span_in(window@, k) && forall|x: int|
                    0 <= x < nreq ==> #[trigger] covers(slot_of(res0, req@[x] as int, pos@[x] as int).intervals@, k));
            }
            assert(fits_primary(p@, window@, res0, req@, pos@, nreq as int));
            if single {
                assert forall|k: int| #[trigger] covers(p@, k) <==> span_in(window@, k) && covers(
                    slot_of(res0, req@[0] as int, pos@[0] as int).intervals@, k) by {
                    assert(covers(p@, k) <==> span_in(window@, k) && forall|x: int|
                        0 <= x < nreq ==> #[trigger] covers(slot_of(res0, req@[x] as int, pos@[x] as int).intervals@, k));
                }
            }
        }
        proof {
            window.lemma_wf_keys();
            assert(spans_within(p@, window@));
            lemma_within_bounded(p@, window@);
        }
        let plen = bounded_length(&p);
        proof {
            if multi {
                assert forall|k: int| #[trigger] covers(p@, k) <==> tuple_keys(res0, req@, pos@, wspan, k) by {
                    assert(covers(p@, k) <==> span_in(window@, k) && forall|x: int|
                        0 <= x < nreq ==> #[trigger] covers(slot_of(res0, req@[x] as int, pos@[x] as int).intervals@, k));
                    if tuple_keys(res0, req@, pos@, wspan, k) {
                        assert forall|x: int| 0 <= x < nreq implies #[trigger] covers(slot_of(res0, req@[x] as int, pos@[x] as int).intervals@, k) by {
                            assert(covers(slot_at(res0, req@, pos@, x).intervals@, k));
                        }
                    }
                }
                lemma_tuple_fits_by(res0, req@, pos@, wspan, duration as int, p@);
            }
            if single {
                let sl = slot_of(res0, req@[0] as int, pos@[0] as int);
                assert forall|k: int| #[trigger] covers(p@, k) <==> covers(sl.intervals@, k) && span_in(wspan, k) by {}
                lemma_fits_by(sl.intervals@, wspan, duration as int, p@);
            }
        }
        let mut found = false;
        let mut best = Intervals::new();
        let mut best_sel: usize = 0;
        if plen >= duration {
            if nsel == 0 {
                let ghost pv = p@;
                best = reduce_intervals(p, duration);
                proof {
                    if multi {
                        assert forall|k: int| #[trigger] covers(best@, k) implies tuple_keys(res0, req@, pos@, wspan, k) by {
                            assert(covers(pv, k));
                        }
                        if best@.len() > 0 {
                            assert forall|k: int| tuple_keys(res0, req@, pos@, wspan, k) && k <= best@.last().1 implies #[trigger] covers(best@, k) by {
                                assert(covers(pv, k));
                            }
                        }
                        assert(earliest_part(res0, req@, pos@, wspan, best@));
                    }
                }
                found = true;
            } else {
                let pmax = match p.hull() {
                    Some(h) => EndBound(h.end()).key(),
                    None => 2 * (calculation_end as i128) - 1,
                };
                let mut best_end: i128 = 0;
                let mut s: usize = 0;
                while s < nsel
                    invariant
                        s <= nsel,
                        nsel == sel@.len(),
                        spos@.len() == nsel,
                        res@ == res0,
                        all_slots_wf(res0),
                        choice_ok(res0, req@, sel@),
                        duration > 0,
                        forall|x: int| 0 <= x < nsel ==> #[trigger] spos@[x] <= res0[sel@[x] as int]@.len(),
                        p.wf(),
                        forall|i: int| 0 <= i < p@.len() ==> span_bounded(#[trigger] p@[i]),
                        fits_primary(p@, window@, res0, req@, pos@, nreq as int),
                        found ==> {
                            &&& best_sel < s
                            &&& spos@[best_sel as int] < res0[sel@[best_sel as int] as int]@.len()
                            &&& best.wf()
                            &&& total_length(best@) == duration
                            &&& fits_primary(best@, window@, res0, req@, pos@, nreq as int)
                            &&& forall|k: int| #[trigger] covers(best@, k) ==> covers(
                                slot_of(res0, sel@[best_sel as int] as int, spos@[best_sel as int] as int).intervals@,
                                k,
                            )
                        },
                    decreases nsel - s,
                {
                    let i = sel[s];
                    loop
                        invariant
                            s < nsel,
                            nsel == sel@.len(),
                            i == sel@[s as int],
                            spos@.len() == nsel,
                            res@ == res0,
                            all_slots_wf(res0),
                            choice_ok(res0, req@, sel@),
                            duration > 0,
                            forall|x: int| 0 <= x < nsel ==> #[trigger] spos@[x] <= res0[sel@[x] as int]@.len(),
                            p.wf(),
                            forall|i: int| 0 <= i < p@.len() ==> span_bounded(#[trigger] p@[i]),
                            fits_primary(p@, window@, res0, req@, pos@, nreq as int),
                            found ==> {
                                &&& best_sel <= s
                                &&& spos@[best_sel as int] < res0[sel@[best_sel as int] as int]@.len()
                                &&& best.wf()
                                &&& total_length(best@) == duration
                                &&& fits_primary(best@, window@, res0, req@, pos@, nreq as int)
                                &&& forall|k: int| #[trigger] covers(best@, k) ==> covers(
                                    slot_of(res0, sel@[best_sel as int] as int, spos@[best_sel as int] as int).intervals@,
                                    k,
                                )
                            },
                            found ==> best_sel < s,
                        decreases res0[i as int]@.len() - spos@[s as int],
                    {
                        if spos[s] >= res[i].len() {
                            break;
                        }
                        proof {
                            assert(slots_wf(res0[i as int]@));
                            assert(res0[i as int]@[spos@[s as int] as int].wf());
                        }
                        let inter = p.intersection(&res[i][spos[s]].intervals);
                        proof {
                            assert forall|k: int| covers(inter@, k) implies span_in(window@, k) by {
                                assert(covers(p@, k));
                            }
                            lemma_within_bounded(inter@, window@);
                        }
                        let ilen = bounded_length(&inter);
                        if ilen >= duration {
                            let cand = reduce_intervals(inter, duration);
                            let n = cand.len();
                            if n == 0 {
                                proof {
                                    assert(cand@ =~= Seq::<Span>::empty());
                                }
                                break;
                            }
                            let end = EndBound(cand.get(n - 1).end()).key();
                            if !found || end < best_end {
                                best = cand;
                                best_sel = s;
                                best_end = end;
                                found = true;
                            }
                            break;
                        }
                        spos[s] = spos[s] + 1;
                        if spos[s] < res[i].len() && StartBound(res[i][spos[s]].range.start()).key() > pmax {
                            break;
                        }
                    }
                    s += 1;
                }
            }
        }
        if found {
            let a = commit(req, sel, nsel > 0, best_sel, &pos, &spos, best, duration, res, Ghost(window@));
            proof {
                if single {
                    let j = pos@[0] as int;
                    assert(fits(res0[req@[0] as int]@[j].intervals@, wspan, duration as int));
                }
                if multi {
                    assert(valid_tuple(res0, req@, pos@));
                    assert(tuple_fits(res0, req@, pos@, wspan, duration as int));
                    assert(earliest_part(res0, req@, pos@, wspan, a.slot.intervals@));
                    assert(res0 == old(res)@);
                    assert(wspan == (2 * task_start, 2 * calculation_end - 1));
                    assert(earliest_of_some(res0, req@, wspan, a.slot.intervals@));
                }
                let ps = a.resources@;
                assert forall|r: int| 0 <= r < req@.len() implies ps.contains(#[trigger] req@[r]) by {
                    assert(ps[r] == req@[r]);
                }
                if nsel > 0 {
                    assert(ps[nreq as int] == sel@[best_sel as int]);
                    assert(ps.contains(sel@[best_sel as int]));
                }
                assert forall|i: int| 0 <= i < ps.len() implies (#[trigger] ps[i]) < res0.len() by {
                    if i < nreq {
                        assert(ps[i] == req@[i]);
                    }
                }
                assert forall|i: int, k: int|
                    0 <= i < ps.len() && covers(a.slot.intervals@, k) implies #[trigger] available(
                        res0[ps[i] as int]@,
                        k,
                    ) by {
                    if i < nreq {
                        assert(ps[i] == req@[i]);
                        let sl = slot_of(res0, req@[i] as int, pos@[i] as int);
                        assert(covers(sl.intervals@, k));
                        assert(res0[req@[i] as int]@[pos@[i] as int] == sl);
                    } else {
                        assert(ps[i] == sel@[best_sel as int]);
                        let sl = slot_of(res0, sel@[best_sel as int] as int, spos@[best_sel as int] as int);
                        assert(covers(sl.intervals@, k));
                        assert(res0[sel@[best_sel as int] as int]@[spos@[best_sel as int] as int] == sl);
                    }
                }
                assert forall|k: int| #[trigger] covers(a.slot.intervals@, k) implies 2 * task_start <= k
                    < 2 * calculation_end by {
                    assert(span_in(window@, k));
                }
            }
            return Ok(a);
        }
        if nreq == 0 {
            return Err(IssueCode::NoSlotFound);
        }
        // no room with these slots: move on from the one that ends first
        let mut best_r: usize = 0;
        let mut best_e: i128 = EndBound(res[req[0]][pos[0]].range.end()).key();
        proof {
            res0[req@[0] as int]@[pos@[0] as int].range.lemma_bounds();
        }
        let mut r: usize = 1;
        while r < nreq
            invariant
                1 <= r <= nreq,
                best_r < nreq,
                best_e == res0[req@[best_r as int] as int]@[pos@[best_r as int] as int].range@.1,
                forall|x: int| 0 <= x < r ==> best_e <= (#[trigger] res0[req@[x] as int]@[pos@[x] as int]).range@.1,
                nreq == req@.len(),
                pos@.len() == nreq,
                res@ == res0,
                choice_ok(res0, req@, sel@),
                forall|x: int| 0 <= x < nreq ==> #[trigger] pos@[x] < res0[req@[x] as int]@.len(),
            decreases nreq - r,
        {
            let e = EndBound(res[req[r]][pos[r]].range.end()).key();
            proof {
                res0[req@[r as int] as int]@[pos@[r as int] as int].range.lemma_bounds();
            }
            if e < best_e {
                best_e = e;
                best_r = r;
            }
            r += 1;
        }
        let cur = pos[best_r];
        let lim = res[req[best_r]].len();
        proof {
            assert(cur < lim);
            if single {
                assert(best_r == 0);
                assert(!fits(res0[req@[0] as int]@[cur as int].intervals@, wspan, duration as int));
            }
            if multi {
                assert(forall|y: int| 0 <= y < req@.len() ==> #[trigger] req@[y] < res0.len());
                lemma_advance_keeps(res0, req@, pos@, wspan, duration as int, best_r as int);
            }
            lemma_pending_advance(res0, req@, pos@, best_r as int, (cur + 1) as usize);
        }
        pos[best_r] = cur + 1;
        proof {
            lemma_pending_nonneg(res0, req@, pos@);
        }
    }
}

/// One more resource `i` had `cut` taken out of its slots: the bookkeeping of
/// which resources changed, and how, carries over.
proof fn lemma_after_removal(
    res0: Seq<Vec<Slot>>,
    prev: Seq<Vec<Slot>>,
    now: Seq<Vec<Slot>>,
    parts0: Seq<usize>,
    i: usize,
    cut: Span,
)
    requires
        prev.len() == res0.len(),
        res0.len() <= usize::MAX,
        i < res0.len(),
        !parts0.contains(i),
        prev[i as int] == res0[i as int],
        all_slots_wf(prev),
        now == prev.update(i as int, now[i as int]),
        slots_wf(now[i as int]@),
        forall|k: int|
            #[trigger] available(now[i as int]@, k) <==> available(prev[i as int]@, k) && !span_in(cut, k),
        forall|j: int, k: int|
            0 <= j < res0.len() && parts0.contains(j as usize) ==> (#[trigger] available(prev[j]@, k)
                <==> available(res0[j]@, k) && !span_in(cut, k)),
        forall|j: int| 0 <= j < res0.len() && !parts0.contains(j as usize) ==> #[trigger] prev[j] == res0[j],
    ensures
        now.len() == res0.len(),
        all_slots_wf(now),
        forall|j: int, k: int|
            0 <= j < res0.len() && parts0.push(i).contains(j as usize) ==> (#[trigger] available(now[j]@, k)
                <==> available(res0[j]@, k) && !span_in(cut, k)),
        forall|j: int| 0 <= j < res0.len() && !parts0.push(i).contains(j as usize) ==> #[trigger] now[j] == res0[j],
{
    let p1 = parts0.push(i);
    assert forall|j: int| 0 <= j < now.len() implies slots_wf(#[trigger] now[j]@) by {
        if j != i {
            assert(now[j] == prev[j]);
        }
    }
    assert forall|j: int, k: int|
        0 <= j < res0.len() && p1.contains(j as usize) implies (#[trigger] available(now[j]@, k)
            <==> available(res0[j]@, k) && !span_in(cut, k)) by {
        if j != i {
            assert(now[j] == prev[j]);
            let x = choose|x: int| 0 <= x < p1.len() && p1[x] == j as usize;
            if x < parts0.len() {
                assert(parts0[x] == j as usize);
                assert(parts0.contains(j as usize));
            } else {
                assert(p1[x] == i);
            }
            assert(available(prev[j]@, k) <==> available(res0[j]@, k) && !span_in(cut, k));
        } else {
            assert(available(now[i as int]@, k) <==> available(prev[i as int]@, k) && !span_in(cut, k));
        }
    }
    assert forall|j: int| 0 <= j < res0.len() && !p1.contains(j as usize) implies #[trigger] now[j] == res0[j] by {
        assert(p1[parts0.len() as int] == i);
        if j == i {
        } else {
            assert(now[j] == prev[j]);
            if parts0.contains(j as usize) {
                let x = choose|x: int| 0 <= x < parts0.len() && parts0[x] == j as usize;
                assert(p1[x] == j as usize);
            }
        }
    }
}

/// Takes the chosen time out of the slots of the required resources and of the
/// chosen selectable one.
#[verifier::loop_isolation(false)]
fn commit(
    req: &Vec<usize>,
    sel: &Vec<usize>,
    with_sel: bool,
    best_sel: usize,
    pos: &Vec<usize>,
    spos: &Vec<usize>,
    best: Intervals,
    duration: u64,
    res: &mut Vec<Vec<Slot>>,
    window: Ghost<Span>,
) -> (a: Assignment)
    requires
        all_slots_wf(old(res)@),
        choice_ok(old(res)@, req@, sel@),
        pos@.len() == req@.len(),
        spos@.len() == sel@.len(),
        forall|x: int| 0 <= x < req@.len() ==> #[trigger] pos@[x] < old(res)@[req@[x] as int]@.len(),
        with_sel ==> best_sel < sel@.len() && spos@[best_sel as int] < old(res)@[sel@[best_sel as int] as int]@.len(),
        with_sel == (sel@.len() > 0),
        window@.0 >= 2 * (i64::MIN as int),
        window@.1 <= 2 * (i64::MAX as int),
        best.wf(),
        total_length(best@) == duration,
        duration > 0,
        fits_primary(best@, window@, old(res)@, req@, pos@, req@.len() as int),
        with_sel ==> forall|k: int| #[trigger] covers(best@, k) ==> covers(
            slot_of(old(res)@, sel@[best_sel as int] as int, spos@[best_sel as int] as int).intervals@,
            k,
        ),
    ensures
        all_slots_wf(final(res)@),
        final(res)@.len() == old(res)@.len(),
        a.slot.intervals@ == best@,
        a.slot.wf(),
        a.slot.duration == duration,
        a.slot.intervals.wf(),
        a.slot.intervals@.len() > 0,
        a.slot.range@ == (best@[0].0, best@.last().1),
        a.resources@ == (if with_sel { req@.push(sel@[best_sel as int]) } else { req@ }),
        forall|i: int, k: int|
            0 <= i < old(res)@.len() && a.resources@.contains(i as usize) ==> (#[trigger] available(
                final(res)@[i]@,
                k,
            ) <==> available(old(res)@[i]@, k) && !span_in(a.slot.range@, k)),
        forall|i: int|
            0 <= i < old(res)@.len() && !a.resources@.contains(i as usize) ==> #[trigger] final(res)@[i]
                == old(res)@[i],
{
    let ghost res0 = res@;
    let nres = res.len();
    proof {
        if best@.len() == 0 {
            assert(total_length(best@) == 0);
        }
    }
    let hull = match best.hull() {
        Some(h) => h,
        None => Interval::new_lcro(0, 1),
    };
    let slot = Slot { range: hull, extensible: false, duration, intervals: best };
    proof {
        let b = slot.intervals@;
        assert(span_in(b[0], b[0].0));
        assert(covers(b, b[0].0));
        assert(span_in(b[b.len() - 1], b.last().1));
        assert(covers(b, b.last().1));
        assert forall|k: int| covers(b, k) implies span_in(slot.range@, k) by {
            let m = choose|m: int| 0 <= m < b.len() && span_in(b[m], k);
            crate::slot::lemma_wf_ordered_pub(b, 0, m);
            crate::slot::lemma_wf_ordered_pub(b, m, b.len() - 1);
        }
        assert(span_in(window@, b[0].0));
        assert(span_in(window@, b.last().1));
    }
    let mut parts: Vec<usize> = Vec::new();
    let nreq = req.len();
    let mut r: usize = 0;
    while r < nreq
        invariant
            r <= nreq,
            nreq == req@.len(),
            res@.len() == res0.len(),
            all_slots_wf(res@),
            choice_ok(res0, req@, sel@),
            parts@ == req@.subrange(0, r as int),
            slot.range@ == (best@[0].0, best@.last().1),
            forall|i: int, k: int|
                0 <= i < res0.len() && parts@.contains(i as usize) ==> (#[trigger] available(res@[i]@, k)
                    <==> available(res0[i]@, k) && !span_in(slot.range@, k)),
            forall|i: int| 0 <= i < res0.len() && !parts@.contains(i as usize) ==> #[trigger] res@[i] == res0[i],
        decreases nreq - r,
    {
        let i = req[r];
        proof {
            assert(!parts@.contains(i)) by {
                if parts@.contains(i) {
                    let x = choose|x: int| 0 <= x < parts@.len() && parts@[x] == i;
                    assert(req@[x] == req@[r as int]);
                }
            }
            assert(res@[i as int] == res0[i as int]);
            let sl = slot_of(res0, i as int, pos@[r as int] as int);
            assert(slots_wf(res0[i as int]@));
            assert(res0[i as int]@[pos@[r as int] as int].wf());
            assert(sl.wf());
            assert(best@.len() > 0);
            assert(best@[0].0 <= best@[0].1);
            assert(covers(best@, best@[0].0)) by {
                assert(span_in(best@[0], best@[0].0));
            }
            assert(covers(best@, best@.last().1)) by {
                assert(span_in(best@[best@.len() - 1], best@.last().1));
            }
            assert(covers(sl.intervals@, best@[0].0));
            assert(covers(sl.intervals@, best@.last().1));
        }
        let ghost prev = res@;
        let ghost parts0 = parts@;
        remove_slot(&mut res[i], pos[r], &slot);
        parts.push(i);
        proof {
            assert(parts@ =~= req@.subrange(0, r + 1));
            lemma_after_removal(res0, prev, res@, parts0, i, slot.range@);
        }
        r += 1;
    }
    if with_sel {
        let i = sel[best_sel];
        proof {
            assert(!parts@.contains(i)) by {
                if parts@.contains(i) {
                    let x = choose|x: int| 0 <= x < parts@.len() && parts@[x] == i;
                    assert(req@[x] == sel@[best_sel as int]);
                }
            }
            assert(res@[i as int] == res0[i as int]);
            let sl = slot_of(res0, i as int, spos@[best_sel as int] as int);
            assert(slots_wf(res0[i as int]@));
            assert(res0[i as int]@[spos@[best_sel as int] as int].wf());
            assert(sl.wf());
            assert(best@.len() > 0);
            assert(best@[0].0 <= best@[0].1);
            assert(covers(best@, best@[0].0)) by {
                assert(span_in(best@[0], best@[0].0));
            }
            assert(covers(best@, best@.last().1)) by {
                assert(span_in(best@[best@.len() - 1], best@.last().1));
            }
        }
        let ghost prev = res@;
        let ghost parts0 = parts@;
        remove_slot(&mut res[i], spos[best_sel], &slot);
        parts.push(i);
        proof {
            lemma_after_removal(res0, prev, res@, parts0, i, slot.range@);
        }
    }
    proof {
        assert(req@.subrange(0, nreq as int) =~= req@);
    }
    Assignment { resources: parts, slot }
}


} // verus!
