//! Choosing the resources of a task from its constraints, given the random draws.
use vstd::prelude::*;
use crate::problem::{edges_in, has_cycle, reaches, walk, Edge};

verus! {

/// A resource constraint of a task: one of `resources` (by position) works on it.
#[derive(Clone, Debug)]
pub struct ConstraintChoice {
    pub optional: bool,
    pub resources: Vec<usize>,
}

/// The resources chosen for a task and the constraints whose speed counts.
#[derive(Clone, Debug)]
pub struct ResourceChoice {
    pub required: Vec<usize>,
    pub selectable: Vec<usize>,
    pub used: Vec<usize>,
}

/// No resource appears in two constraints, and every constraint names one.
pub open spec fn constraints_ok(cs: Seq<ConstraintChoice>) -> bool {
    &&& forall|i: int| 0 <= i < cs.len() ==> (#[trigger] cs[i]).resources@.len() > 0
    &&& forall|i: int, j: int, x: int, y: int|
        0 <= i < cs.len() && 0 <= j < cs.len() && i != j && 0 <= x < cs[i].resources@.len() && 0 <= y
            < cs[j].resources@.len() ==> #[trigger] cs[i].resources@[x] != #[trigger] cs[j].resources@[y]
}

/// Some resource of `c` is booked (bookings exist).
pub open spec fn booked_hit(c: ConstraintChoice, booked: Seq<usize>) -> bool {
    booked.len() > 0 && exists|x: int| 0 <= x < c.resources@.len() && booked.contains(#[trigger] c.resources@[x])
}

/// How many optional constraints come before position `i`.
pub open spec fn opt_rank(cs: Seq<ConstraintChoice>, i: int) -> int
    decreases i,
{
    if i <= 0 {
        0
    } else {
        opt_rank(cs, i - 1) + if cs[i - 1].optional { 1int } else { 0int }
    }
}

/// The constraints used so far, with those in `req` from position `from` on,
/// are exactly the chosen ones.
pub open spec fn pool_ok(
    cs: Seq<ConstraintChoice>,
    booked: Seq<usize>,
    promote: Seq<usize>,
    used: Seq<usize>,
    req: Seq<usize>,
    from: int,
) -> bool {
    forall|kk: int|
        0 <= kk < cs.len() ==> ((used.contains(kk as usize) || exists|z: int| from <= z < req.len() && req[z] == kk as usize)
            <==> #[trigger] chosen(cs, booked, promote, kk))
}

/// Resource `x` belongs to one of the used constraints.
pub open spec fn from_used(cs: Seq<ConstraintChoice>, used: Seq<usize>, x: usize) -> bool {
    exists|i: int| 0 <= i < used.len() && used[i] < cs.len() && #[trigger] cs[used[i] as int].resources@.contains(x)
}

/// Rank `r` is among the first `j` entries of `promote`.
pub open spec fn promoted_before(promote: Seq<usize>, j: int, r: int) -> bool {
    exists|j2: int| 0 <= j2 < j && promote[j2] == r as usize
}

/// Constraint `i` is used: it has a booked resource, or it is mandatory, or,
/// without bookings, it is an optional one whose rank among the optional ones
/// is in `promote`.
pub open spec fn chosen(cs: Seq<ConstraintChoice>, booked: Seq<usize>, promote: Seq<usize>, i: int) -> bool {
    booked_hit(cs[i], booked) || !cs[i].optional || (booked.len() == 0 && promote.contains(opt_rank(cs, i) as usize))
}

proof fn lemma_rank_range(cs: Seq<ConstraintChoice>, i: int)
    requires
        0 <= i,
    ensures
        0 <= opt_rank(cs, i) <= i,
    decreases i,
{
    if i > 0 {
        lemma_rank_range(cs, i - 1);
    }
}

proof fn lemma_rank_below(cs: Seq<ConstraintChoice>, i: int, n: int)
    requires
        0 <= i < n,
        n <= cs.len(),
        cs[i].optional,
    ensures
        opt_rank(cs, i) < opt_rank(cs, n),
    decreases n - i,
{
    if i + 1 < n {
        lemma_rank_below(cs, i, n - 1);
    }
}

fn contains_index(v: &Vec<usize>, x: usize) -> (r: bool)
    ensures
        r == v@.contains(x),
{
    let mut i: usize = 0;
    while i < v.len()
        invariant
            i <= v@.len(),
            forall|k: int| 0 <= k < i ==> v@[k] != x,
        decreases v.len() - i,
    {
        if v[i] == x {
            assert(v@[i as int] == x);
            return true;
        }
        i += 1;
    }
    false
}

fn first_booked(c: &ConstraintChoice, booked: &Vec<usize>) -> (r: Option<usize>)
    ensures
        r matches Some(x) ==> x < c.resources@.len() && booked@.contains(c.resources@[x as int]),
        r is None ==> forall|x: int| 0 <= x < c.resources@.len() ==> !booked@.contains(#[trigger] c.resources@[x]),
{
    let mut x: usize = 0;
    while x < c.resources.len()
        invariant
            x <= c.resources@.len(),
            forall|y: int| 0 <= y < x ==> !booked@.contains(#[trigger] c.resources@[y]),
        decreases c.resources.len() - x,
    {
        let rid = c.resources[x];
        let mut k: usize = 0;
        while k < booked.len()
            invariant
                k <= booked@.len(),
                x < c.resources@.len(),
                rid == c.resources@[x as int],
                forall|z: int| 0 <= z < k ==> booked@[z] != rid,
            decreases booked.len() - k,
        {
            if booked[k] == rid {
                assert(booked@.contains(rid));
                return Some(x);
            }
            k += 1;
        }
        x += 1;
    }
    None
}

/// Chooses the resources of a task: a constraint with a booked resource takes
/// that resource; without bookings the optional constraints at positions
/// `promote` (among the optional ones) join the required ones; the required
/// constraint with the most resources (the last of equals) becomes selectable;
/// the j-th other required constraint takes its resource at position `picks[j]`
/// modulo its number of resources.
#[verifier::rlimit(100)]
pub fn choose_resources(
    constraints: &Vec<ConstraintChoice>,
    booked: &Vec<usize>,
    promote: &Vec<usize>,
    picks: &Vec<usize>,
) -> (r: ResourceChoice)
    requires
        constraints_ok(constraints@),
    ensures
        forall|i: int| 0 <= i < r.used@.len() ==> (#[trigger] r.used@[i]) < constraints@.len(),
        forall|a: int, b: int| 0 <= a < b < r.used@.len() ==> (#[trigger] r.used@[a]) != (#[trigger] r.used@[b]),
        forall|i: int| 0 <= i < constraints@.len() && !(#[trigger] constraints@[i]).optional ==> r.used@.contains(i as usize),
        forall|i: int| 0 <= i < constraints@.len() ==> (r.used@.contains(i as usize) <==> #[trigger] chosen(
            constraints@, booked@, promote@, i)),
        forall|i: int|
            0 <= i < constraints@.len() && r.used@.contains(i as usize) && !booked_hit(constraints@[i], booked@) ==> (
            #[trigger] constraints@[i]).resources@.len() <= r.selectable@.len(),
        forall|a: int, b: int| 0 <= a < b < r.required@.len() ==> (#[trigger] r.required@[a]) != (#[trigger] r.required@[b]),
        forall|x: int| 0 <= x < r.required@.len() ==> #[trigger] from_used(constraints@, r.used@, r.required@[x]),
        forall|a: int, b: int| 0 <= a < r.required@.len() && 0 <= b < r.selectable@.len() ==> (#[trigger] r.required@[a]) != (#[trigger] r.selectable@[b]),
        r.selectable@.len() > 0 ==> exists|s: int| 0 <= s < constraints@.len() && r.used@.contains(s as usize)
            && #[trigger] constraints@[s].resources@ == r.selectable@,
{
    let n = constraints.len();
    let mut required: Vec<usize> = Vec::new();
    let mut used: Vec<usize> = Vec::new();
    let mut req: Vec<usize> = Vec::new();
    let mut opt: Vec<usize> = Vec::new();
    let has_booking = booked.len() > 0;
    let ghost own_init: Seq<usize> = Seq::empty();
    let mut own: Ghost<Seq<usize>> = Ghost(own_init);
    let mut i: usize = 0;
    while i < n
        invariant
            i <= n,
            n == constraints@.len(),
            constraints_ok(constraints@),
            forall|k: int| 0 <= k < used@.len() ==> (#[trigger] used@[k]) < i,
            forall|k: int| 0 <= k < req@.len() ==> (#[trigger] req@[k]) < i,
            forall|k: int| 0 <= k < opt@.len() ==> (#[trigger] opt@[k]) < i && constraints@[opt@[k] as int].optional,
            forall|a: int, b: int| 0 <= a < b < used@.len() ==> (#[trigger] used@[a]) != (#[trigger] used@[b]),
            forall|a: int, b: int| 0 <= a < b < req@.len() ==> (#[trigger] req@[a]) != (#[trigger] req@[b]),
            forall|a: int, b: int| 0 <= a < used@.len() && 0 <= b < req@.len() ==> (#[trigger] used@[a]) != (#[trigger] req@[b]),
            forall|a: int, b: int| 0 <= a < used@.len() && 0 <= b < opt@.len() ==> (#[trigger] used@[a]) != (#[trigger] opt@[b]),
            forall|a: int, b: int| 0 <= a < req@.len() && 0 <= b < opt@.len() ==> (#[trigger] req@[a]) != (#[trigger] opt@[b]),
            forall|k: int| 0 <= k < i && !(#[trigger] constraints@[k]).optional ==> used@.contains(k as usize) || req@.contains(k as usize),
            own@.len() == required@.len(),
            forall|k: int| 0 <= k < own@.len() ==> (#[trigger] own@[k]) < n && used@.contains(own@[k])
                && constraints@[own@[k] as int].resources@.contains(required@[k]),
            forall|a: int, b: int| 0 <= a < b < own@.len() ==> (#[trigger] own@[a]) != (#[trigger] own@[b]),
            has_booking == (booked@.len() > 0),
            forall|k: int| 0 <= k < i ==> (used@.contains(k as usize) <==> #[trigger] booked_hit(constraints@[k], booked@)),
            forall|k: int| 0 <= k < i ==> (req@.contains(k as usize) <==> !booked_hit(constraints@[k], booked@) && !(#[trigger] constraints@[k]).optional),
            forall|k: int| 0 <= k < i ==> (opt@.contains(k as usize) <==> !booked_hit(constraints@[k], booked@) && (#[trigger] constraints@[k]).optional),
            !has_booking ==> opt@.len() == opt_rank(constraints@, i as int),
            !has_booking ==> forall|q: int| 0 <= q < opt@.len() ==> opt_rank(constraints@, (#[trigger] opt@[q]) as int) == q,
        decreases n - i,
    {
        let c = &constraints[i];
        let ghost (uu, qq, pp) = (used@, req@, opt@);
        let b = if has_booking {
            first_booked(c, booked)
        } else {
            None
        };
        match b {
            Some(x) => {
                let ghost (u0, r0, o0) = (used@, required@, own@);
                required.push(c.resources[x]);
                used.push(i);
                own = Ghost(o0.push(i));
                proof {
                    assert(used@[used@.len() - 1] == i);
                    assert(constraints@[i as int].resources@[x as int] == required@[required@.len() - 1]);
                    assert forall|k: int| 0 <= k < own@.len() implies (#[trigger] own@[k]) < n && used@.contains(own@[k])
                        && constraints@[own@[k] as int].resources@.contains(required@[k]) by {
                        if k < o0.len() {
                            assert(own@[k] == o0[k] && required@[k] == r0[k]);
                            let z = choose|z: int| 0 <= z < u0.len() && u0[z] == o0[k];
                            assert(used@[z] == o0[k]);
                        }
                    }
                    assert forall|a: int, b: int| 0 <= a < b < own@.len() implies (#[trigger] own@[a]) != (#[trigger] own@[b]) by {
                        if b == o0.len() {
                            assert(own@[a] == o0[a]);
                            let z = choose|z: int| 0 <= z < u0.len() && u0[z] == o0[a];
                            assert(u0[z] < i);
                        }
                    }
                }
            },
            None => {
                if c.optional {
                    opt.push(i);
                } else {
                    req.push(i);
                }
            },
        }
        proof {
            assert forall|k: int| 0 <= k < i + 1 && !(#[trigger] constraints@[k]).optional implies used@.contains(k as usize) || req@.contains(k as usize) by {
                if k == i {
                    if used@.len() > uu.len() {
                        assert(used@[used@.len() - 1] == i);
                    } else {
                        assert(req@[req@.len() - 1] == i);
                    }
                } else if uu.contains(k as usize) {
                    let z = choose|z: int| 0 <= z < uu.len() && uu[z] == k as usize;
                    assert(used@[z] == k as usize);
                } else {
                    let z = choose|z: int| 0 <= z < qq.len() && qq[z] == k as usize;
                    assert(req@[z] == k as usize);
                }
            }
        }
        proof {
            if b is Some {
                assert(booked@.contains(c.resources@[b->Some_0 as int]));
                assert(booked_hit(constraints@[i as int], booked@));
            } else if has_booking {
                assert(!booked_hit(constraints@[i as int], booked@));
            }
            assert forall|k: int| 0 <= k < i + 1 implies (used@.contains(k as usize) <==> #[trigger] booked_hit(constraints@[k], booked@))
                && (req@.contains(k as usize) <==> !booked_hit(constraints@[k], booked@) && !constraints@[k].optional)
                && (opt@.contains(k as usize) <==> !booked_hit(constraints@[k], booked@) && constraints@[k].optional) by {
                if k < i {
                    if uu.contains(k as usize) {
                        let z = choose|z: int| 0 <= z < uu.len() && uu[z] == k as usize;
                        assert(used@[z] == k as usize);
                    }
                    if used@.contains(k as usize) {
                        let z = choose|z: int| 0 <= z < used@.len() && used@[z] == k as usize;
                        if z < uu.len() { assert(uu[z] == k as usize); }
                    }
                    if qq.contains(k as usize) {
                        let z = choose|z: int| 0 <= z < qq.len() && qq[z] == k as usize;
                        assert(req@[z] == k as usize);
                    }
                    if req@.contains(k as usize) {
                        let z = choose|z: int| 0 <= z < req@.len() && req@[z] == k as usize;
                        if z < qq.len() { assert(qq[z] == k as usize); }
                    }
                    if pp.contains(k as usize) {
                        let z = choose|z: int| 0 <= z < pp.len() && pp[z] == k as usize;
                        assert(opt@[z] == k as usize);
                    }
                    if opt@.contains(k as usize) {
                        let z = choose|z: int| 0 <= z < opt@.len() && opt@[z] == k as usize;
                        if z < pp.len() { assert(pp[z] == k as usize); }
                    }
                } else {
                    if used@.len() > uu.len() { assert(used@[used@.len() - 1] == i); }
                    if req@.len() > qq.len() { assert(req@[req@.len() - 1] == i); }
                    if opt@.len() > pp.len() { assert(opt@[opt@.len() - 1] == i); }
                    if used@.contains(i) {
                        let z = choose|z: int| 0 <= z < used@.len() && used@[z] == i;
                        if z < uu.len() { assert(uu[z] < i); }
                    }
                    if req@.contains(i) {
                        let z = choose|z: int| 0 <= z < req@.len() && req@[z] == i;
                        if z < qq.len() { assert(qq[z] < i); }
                    }
                    if opt@.contains(i) {
                        let z = choose|z: int| 0 <= z < opt@.len() && opt@[z] == i;
                        if z < pp.len() { assert(pp[z] < i); }
                    }
                }
            }
            if !has_booking {
                assert(opt_rank(constraints@, i + 1) == opt_rank(constraints@, i as int) + if constraints@[i as int].optional { 1int } else { 0int });
                assert forall|q: int| 0 <= q < opt@.len() implies opt_rank(constraints@, (#[trigger] opt@[q]) as int) == q by {
                    if q < pp.len() { assert(opt@[q] == pp[q]); }
                }
            }
        }
        i += 1;
    }
    if !has_booking {
        proof {
            assert forall|kk: int| 0 <= kk < n implies !(#[trigger] used@.contains(kk as usize)) by {
                assert(!booked_hit(constraints@[kk], booked@));
            }
            assert forall|kk: int| 0 <= kk < n implies (req@.contains(kk as usize) <==> !(#[trigger] constraints@[kk]).optional || promoted_before(promote@, 0, opt_rank(constraints@, kk))) by {
                assert(!booked_hit(constraints@[kk], booked@));
            }
            assert forall|kk: int| 0 <= kk < n implies (opt@.contains(kk as usize) <==> (#[trigger] constraints@[kk]).optional) by {
                assert(!booked_hit(constraints@[kk], booked@));
            }
        }
        let mut j: usize = 0;
        while j < promote.len()
            invariant
                n == constraints@.len(),
                forall|k: int| 0 <= k < req@.len() ==> (#[trigger] req@[k]) < n,
                forall|k: int| 0 <= k < opt@.len() ==> (#[trigger] opt@[k]) < n,
                forall|a: int, b: int| 0 <= a < b < req@.len() ==> (#[trigger] req@[a]) != (#[trigger] req@[b]),
                forall|a: int, b: int| 0 <= a < used@.len() && 0 <= b < req@.len() ==> (#[trigger] used@[a]) != (#[trigger] req@[b]),
                forall|a: int, b: int| 0 <= a < used@.len() && 0 <= b < opt@.len() ==> (#[trigger] used@[a]) != (#[trigger] opt@[b]),
                forall|k: int| 0 <= k < n && !(#[trigger] constraints@[k]).optional ==> used@.contains(k as usize) || req@.contains(k as usize),
                forall|k: int| 0 <= k < used@.len() ==> (#[trigger] used@[k]) < n,
                forall|a: int, b: int| 0 <= a < b < used@.len() ==> (#[trigger] used@[a]) != (#[trigger] used@[b]),
                own@.len() == required@.len(),
                forall|k: int| 0 <= k < own@.len() ==> (#[trigger] own@[k]) < n && used@.contains(own@[k])
                    && constraints@[own@[k] as int].resources@.contains(required@[k]),
                forall|a: int, b: int| 0 <= a < b < own@.len() ==> (#[trigger] own@[a]) != (#[trigger] own@[b]),
                constraints_ok(constraints@),
                booked@.len() == 0,
                j <= promote@.len(),
                forall|k: int| 0 <= k < n ==> !(#[trigger] used@.contains(k as usize)),
                forall|k: int| 0 <= k < n ==> (opt@.contains(k as usize) <==> (#[trigger] constraints@[k]).optional),
                opt@.len() == opt_rank(constraints@, n as int),
                forall|q: int| 0 <= q < opt@.len() ==> opt_rank(constraints@, (#[trigger] opt@[q]) as int) == q,
                forall|k: int| 0 <= k < n ==> (req@.contains(k as usize) <==> !(#[trigger] constraints@[k]).optional || promoted_before(promote@, j as int, opt_rank(constraints@, k))),
            decreases promote.len() - j,
        {
            let k = promote[j];
            let ghost r_before = req@;
            let ghost jold: int = j as int;
            let mut pushed: Ghost<bool> = Ghost(false);
            if k < opt.len() {
                let cand = opt[k];
                let present = contains_index(&req, cand);
                if !present {
                    let ghost before = req@;
                    req.push(cand);
                    pushed = Ghost(true);
                    proof {
                        assert forall|a: int, b: int| 0 <= a < b < req@.len() implies (#[trigger] req@[a]) != (#[trigger] req@[b]) by {
                            if b == req@.len() - 1 {
                                assert(req@[a] == before[a]);
                            }
                        }
                        assert forall|kk: int| 0 <= kk < n && !(#[trigger] constraints@[kk]).optional implies used@.contains(kk as usize) || req@.contains(kk as usize) by {
                            if before.contains(kk as usize) {
                                let z = choose|z: int| 0 <= z < before.len() && before[z] == kk as usize;
                                assert(req@[z] == kk as usize);
                            }
                        }
                    }
                }
            }
            assert(pushed@ ==> k < opt@.len() && req@ == r_before.push(opt@[k as int]));
            assert(!pushed@ ==> req@ == r_before && (k < opt@.len() ==> r_before.contains(opt@[k as int])));
            proof {
                assert forall|kk: int| 0 <= kk < n implies (req@.contains(kk as usize) <==> !(#[trigger] constraints@[kk]).optional || promoted_before(promote@, j + 1, opt_rank(constraints@, kk))) by {
                    lemma_rank_range(constraints@, kk);
                    let rk = opt_rank(constraints@, kk);
                    assert(r_before.contains(kk as usize) <==> !constraints@[kk].optional || promoted_before(promote@, j as int, rk));
                    // one more entry of promote
                    if promoted_before(promote@, j + 1, rk) {
                        let j2 = choose|j2: int| 0 <= j2 < j + 1 && promote@[j2] == rk as usize;
                        if j2 < j {
                            assert(promoted_before(promote@, j as int, rk));
                        } else {
                            assert(promote@[j as int] == rk as usize);
                        }
                    }
                    if promoted_before(promote@, j as int, rk) {
                        let j2 = choose|j2: int| 0 <= j2 < j && promote@[j2] == rk as usize;
                        assert(promoted_before(promote@, j + 1, rk));
                    }
                    if promote@[j as int] == rk as usize {
                        assert(promoted_before(promote@, j + 1, rk));
                    }
                    // req grows by at most the candidate
                    if r_before.contains(kk as usize) {
                        let z = choose|z: int| 0 <= z < r_before.len() && r_before[z] == kk as usize;
                        assert(req@[z] == kk as usize);
                    }
                    if req@.contains(kk as usize) && !r_before.contains(kk as usize) {
                        let z = choose|z: int| 0 <= z < req@.len() && req@[z] == kk as usize;
                        if z < r_before.len() {
                            assert(r_before[z] == kk as usize);
                        }
                        assert(pushed@);
                        assert(k < opt@.len());
                        assert(req@[req@.len() - 1] == opt@[k as int]);
                        assert(z == req@.len() - 1);
                        assert(kk as usize == opt@[k as int]);
                        assert(opt_rank(constraints@, opt@[k as int] as int) == k);
                        assert(constraints@[kk].optional);
                        assert(promote@[j as int] == rk as usize);
                    }
                    if constraints@[kk].optional && promote@[j as int] == rk as usize && !r_before.contains(kk as usize) {
                        assert(opt@.contains(kk as usize));
                        let q = choose|q: int| 0 <= q < opt@.len() && opt@[q] == kk as usize;
                        assert(opt_rank(constraints@, opt@[q] as int) == q);
                        assert(rk == q);
                        assert(k == q);
                        assert(pushed@);
                        assert(req@[req@.len() - 1] == kk as usize);
                    }
                }
            }
            j += 1;
            proof {
                assert(j as int == jold + 1);
                assert forall|kk: int| 0 <= kk < n implies (req@.contains(kk as usize) <==> !(#[trigger] constraints@[kk]).optional || promoted_before(promote@, j as int, opt_rank(constraints@, kk))) by {
                    assert(req@.contains(kk as usize) <==> !constraints@[kk].optional || promoted_before(promote@, jold + 1, opt_rank(constraints@, kk)));
                }
            }
        }
    }
    proof {
        assert forall|kk: int| 0 <= kk < n implies (used@.contains(kk as usize) || req@.contains(kk as usize) <==> #[trigger] chosen(
            constraints@, booked@, promote@, kk)) by {
            if !has_booking {
                assert(!booked_hit(constraints@[kk], booked@));
                if promote@.contains(opt_rank(constraints@, kk) as usize) {
                    let j2 = choose|j2: int| 0 <= j2 < promote@.len() && promote@[j2] == opt_rank(constraints@, kk) as usize;
                    assert(promoted_before(promote@, promote@.len() as int, opt_rank(constraints@, kk)));
                }
                if promoted_before(promote@, promote@.len() as int, opt_rank(constraints@, kk)) {
                    let j2 = choose|j2: int| 0 <= j2 < promote@.len() && promote@[j2] == opt_rank(constraints@, kk) as usize;
                    assert(promote@[j2] == opt_rank(constraints@, kk) as usize);
                }
            }
        }
    }
    proof {
        assert forall|kk: int| 0 <= kk < n implies ((used@.contains(kk as usize) || exists|z: int| 0 <= z < req@.len() && req@[z] == kk as usize)
            <==> #[trigger] chosen(constraints@, booked@, promote@, kk)) by {
            assert(used@.contains(kk as usize) || req@.contains(kk as usize) <==> chosen(constraints@, booked@, promote@, kk));
        }
        assert(pool_ok(constraints@, booked@, promote@, used@, req@, 0));
        assert forall|kk: int| 0 <= kk < n && used@.contains(kk as usize) implies #[trigger] booked_hit(constraints@[kk], booked@) by {
            if !has_booking {
                assert(!used@.contains(kk as usize));
            }
        }
    }
    let ghost cands = req@;
    let mut selectable: Vec<usize> = Vec::new();
    if req.len() > 0 {
        let mut best: usize = 0;
        let mut j: usize = 1;
        while j < req.len()
            invariant
                1 <= j <= req@.len(),
                best < req@.len(),
                n == constraints@.len(),
                forall|k: int| 0 <= k < req@.len() ==> (#[trigger] req@[k]) < n,
                forall|z: int| 0 <= z < j ==> constraints@[(#[trigger] req@[z]) as int].resources@.len() <= constraints@[req@[best as int] as int].resources@.len(),
            decreases req.len() - j,
        {
            if constraints[req[j]].resources.len() >= constraints[req[best]].resources.len() {
                best = j;
            }
            j += 1;
        }
        let ghost before = req@;
        let s = req.remove(best);
        let ghost used_before = used@;
        used.push(s);
        proof {
            assert forall|kk: int| 0 <= kk < n implies ((used@.contains(kk as usize) || exists|z: int| 0 <= z < req@.len() && req@[z] == kk as usize)
                <==> #[trigger] chosen(constraints@, booked@, promote@, kk)) by {
                let old_side = used_before.contains(kk as usize) || exists|z: int| 0 <= z < before.len() && before[z] == kk as usize;
                assert(old_side <==> chosen(constraints@, booked@, promote@, kk));
                if used_before.contains(kk as usize) {
                    let z = choose|z: int| 0 <= z < used_before.len() && used_before[z] == kk as usize;
                    assert(used@[z] == kk as usize);
                }
                if exists|z: int| 0 <= z < before.len() && before[z] == kk as usize {
                    let z = choose|z: int| 0 <= z < before.len() && before[z] == kk as usize;
                    if z < best {
                        assert(req@[z] == kk as usize);
                    } else if z == best {
                        assert(used@[used@.len() - 1] == kk as usize);
                    } else {
                        assert(req@[z - 1] == kk as usize);
                    }
                }
                if used@.contains(kk as usize) {
                    let z = choose|z: int| 0 <= z < used@.len() && used@[z] == kk as usize;
                    if z < used_before.len() {
                        assert(used_before[z] == kk as usize);
                    } else {
                        assert(before[best as int] == kk as usize);
                    }
                }
                if exists|z: int| 0 <= z < req@.len() && req@[z] == kk as usize {
                    let z = choose|z: int| 0 <= z < req@.len() && req@[z] == kk as usize;
                    if z < best {
                        assert(before[z] == kk as usize);
                    } else {
                        assert(before[z + 1] == kk as usize);
                    }
                }
            }
            assert(pool_ok(constraints@, booked@, promote@, used@, req@, 0));
        }
        let src = &constraints[s].resources;
        let mut x: usize = 0;
        while x < src.len()
            invariant
                x <= src@.len(),
                selectable@ == src@.subrange(0, x as int),
            decreases src.len() - x,
        {
            selectable.push(src[x]);
            x += 1;
        }
        assert(selectable@ =~= src@);
        assert(forall|z: int| 0 <= z < cands.len() ==> constraints@[(#[trigger] cands[z]) as int].resources@.len() <= selectable@.len());
        proof {
            assert forall|a: int, b: int| 0 <= a < b < req@.len() implies (#[trigger] req@[a]) != (#[trigger] req@[b]) by {
                let a2 = if a < best { a } else { a + 1 };
                let b2 = if b < best { b } else { b + 1 };
                assert(req@[a] == before[a2]);
                assert(req@[b] == before[b2]);
            }
            assert forall|a: int, b: int| 0 <= a < b < used@.len() implies (#[trigger] used@[a]) != (#[trigger] used@[b]) by {
                if b == used@.len() - 1 {
                    assert(used@[a] == used_before[a]);
                    assert(used_before[a] != before[best as int]);
                }
            }
            assert forall|a: int, b: int| 0 <= a < used@.len() && 0 <= b < req@.len() implies (#[trigger] used@[a]) != (#[trigger] req@[b]) by {
                let b2 = if b < best { b } else { b + 1 };
                assert(req@[b] == before[b2]);
                if a < used_before.len() {
                    assert(used@[a] == used_before[a]);
                } else {
                    assert(used@[a] == before[best as int]);
                }
            }
            assert(used@[used@.len() - 1] == s);
            assert forall|k: int| 0 <= k < own@.len() implies (#[trigger] own@[k]) < n && used@.contains(own@[k])
                && constraints@[own@[k] as int].resources@.contains(required@[k]) by {
                let z = choose|z: int| 0 <= z < used_before.len() && used_before[z] == own@[k];
                assert(used@[z] == own@[k]);
            }
            assert forall|k: int| 0 <= k < required@.len() implies !constraints@[s as int].resources@.contains(#[trigger] required@[k]) by {
                let z = choose|z: int| 0 <= z < used_before.len() && used_before[z] == own@[k];
                assert(used_before[z] != before[best as int]);
                lemma_apart(constraints@, own@[k] as int, s as int, required@[k]);
            }
            assert(constraints@[s as int].resources@ == selectable@);
            assert forall|k: int| 0 <= k < n && !(#[trigger] constraints@[k]).optional implies used@.contains(k as usize) || req@.contains(k as usize) by {
                if before.contains(k as usize) {
                    let z = choose|z: int| 0 <= z < before.len() && before[z] == k as usize;
                    if z < best {
                        assert(req@[z] == k as usize);
                    } else if z == best {
                        assert(used@[used@.len() - 1] == k as usize);
                    } else {
                        assert(req@[z - 1] == k as usize);
                    }
                } else {
                    assert(used_before.contains(k as usize));
                    let z = choose|z: int| 0 <= z < used_before.len() && used_before[z] == k as usize;
                    assert(used@[z] == k as usize);
                }
            }
        }
    }
    let mut j: usize = 0;
    while j < req.len()
        invariant
            j <= req@.len(),
            n == constraints@.len(),
            constraints_ok(constraints@),
            forall|k: int| 0 <= k < req@.len() ==> (#[trigger] req@[k]) < n,
            forall|k: int| 0 <= k < used@.len() ==> (#[trigger] used@[k]) < n,
            forall|a: int, b: int| 0 <= a < b < req@.len() ==> (#[trigger] req@[a]) != (#[trigger] req@[b]),
            forall|a: int, b: int| 0 <= a < b < used@.len() ==> (#[trigger] used@[a]) != (#[trigger] used@[b]),
            forall|a: int, b: int| 0 <= a < used@.len() && j <= b < req@.len() ==> (#[trigger] used@[a]) != (#[trigger] req@[b]),
            forall|k: int| 0 <= k < n && !(#[trigger] constraints@[k]).optional ==> used@.contains(k as usize) || exists|z: int| j <= z < req@.len() && req@[z] == k as usize,
            own@.len() == required@.len(),
            forall|k: int| 0 <= k < own@.len() ==> (#[trigger] own@[k]) < n && used@.contains(own@[k])
                && constraints@[own@[k] as int].resources@.contains(required@[k]),
            forall|a: int, b: int| 0 <= a < b < own@.len() ==> (#[trigger] own@[a]) != (#[trigger] own@[b]),
            selectable@.len() > 0 ==> exists|s: int| 0 <= s < constraints@.len() && used@.contains(s as usize)
                && #[trigger] constraints@[s].resources@ == selectable@ && forall|k: int| 0 <= k < required@.len() ==> !constraints@[s].resources@.contains(#[trigger] required@[k]),
            pool_ok(constraints@, booked@, promote@, used@, req@, j as int),
            forall|z: int| 0 <= z < cands.len() ==> constraints@[(#[trigger] cands[z]) as int].resources@.len() <= selectable@.len(),
            forall|z: int| 0 <= z < req@.len() ==> cands.contains(#[trigger] req@[z]),
            forall|kk: int| 0 <= kk < n && used@.contains(kk as usize) && !booked_hit(constraints@[kk], booked@) ==> #[trigger] cands.contains(kk as usize),
        decreases req.len() - j,
    {
        let ci = req[j];
        let ghost jold: int = j as int;
        let ghost used_prev = used@;
        let c = &constraints[ci];
        let p = if j < picks.len() {
            picks[j] % c.resources.len()
        } else {
            0
        };
        let ghost (u0, r0, o0) = (used@, required@, own@);
        required.push(c.resources[p]);
        used.push(ci);
        own = Ghost(o0.push(ci));
        proof {
            assert(used@[used@.len() - 1] == ci);
            assert(constraints@[ci as int].resources@[p as int] == required@[required@.len() - 1]);
            assert forall|k: int| 0 <= k < own@.len() implies (#[trigger] own@[k]) < n && used@.contains(own@[k])
                && constraints@[own@[k] as int].resources@.contains(required@[k]) by {
                if k < o0.len() {
                    assert(own@[k] == o0[k] && required@[k] == r0[k]);
                    let z = choose|z: int| 0 <= z < u0.len() && u0[z] == o0[k];
                    assert(used@[z] == o0[k]);
                }
            }
            assert forall|a: int, b: int| 0 <= a < b < own@.len() implies (#[trigger] own@[a]) != (#[trigger] own@[b]) by {
                if b == o0.len() {
                    assert(own@[a] == o0[a]);
                    let z = choose|z: int| 0 <= z < u0.len() && u0[z] == o0[a];
                    assert(u0[z] != req@[j as int]);
                }
            }
            assert forall|a: int, b: int| 0 <= a < b < used@.len() implies (#[trigger] used@[a]) != (#[trigger] used@[b]) by {
                if b == used@.len() - 1 {
                    assert(used@[a] == u0[a]);
                }
            }
            assert forall|a: int, b: int| 0 <= a < used@.len() && j + 1 <= b < req@.len() implies (#[trigger] used@[a]) != (#[trigger] req@[b]) by {
                if a < u0.len() {
                    assert(used@[a] == u0[a]);
                } else {
                    assert(used@[a] == req@[j as int]);
                }
            }
            assert forall|k: int| 0 <= k < n && !(#[trigger] constraints@[k]).optional implies used@.contains(k as usize) || exists|z: int| j + 1 <= z < req@.len() && req@[z] == k as usize by {
                if u0.contains(k as usize) {
                    let z = choose|z: int| 0 <= z < u0.len() && u0[z] == k as usize;
                    assert(used@[z] == k as usize);
                } else {
                    let z = choose|z: int| j <= z < req@.len() && req@[z] == k as usize;
                    if z == j {
                        assert(used@[used@.len() - 1] == k as usize);
                    }
                }
            }
            if selectable@.len() > 0 {
                let s = choose|s: int| 0 <= s < constraints@.len() && u0.contains(s as usize)
                    && #[trigger] constraints@[s].resources@ == selectable@ && forall|k: int| 0 <= k < r0.len() ==> !constraints@[s].resources@.contains(#[trigger] r0[k]);
                let z = choose|z: int| 0 <= z < u0.len() && u0[z] == s as usize;
                assert(used@[z] == s as usize);
                assert(u0[z] != req@[j as int]);
                assert forall|k: int| 0 <= k < required@.len() implies !constraints@[s].resources@.contains(#[trigger] required@[k]) by {
                    if k == r0.len() {
                        assert(constraints@[ci as int].resources@.contains(required@[k]));
                        lemma_apart(constraints@, ci as int, s, required@[k]);
                    } else {
                        assert(required@[k] == r0[k]);
                    }
                }
            }
        }
        j += 1;
        proof {
            assert(j as int == jold + 1);
            assert forall|kk: int| 0 <= kk < n implies ((used@.contains(kk as usize) || exists|z: int| j <= z < req@.len() && req@[z] == kk as usize)
                <==> #[trigger] chosen(constraints@, booked@, promote@, kk)) by {
                assert((used_prev.contains(kk as usize) || exists|z: int| jold <= z < req@.len() && req@[z] == kk as usize)
                    <==> chosen(constraints@, booked@, promote@, kk));
                if used_prev.contains(kk as usize) {
                    let z = choose|z: int| 0 <= z < used_prev.len() && used_prev[z] == kk as usize;
                    assert(used@[z] == kk as usize);
                }
                if exists|z: int| jold <= z < req@.len() && req@[z] == kk as usize {
                    let z = choose|z: int| jold <= z < req@.len() && req@[z] == kk as usize;
                    if z == jold {
                        assert(used@[used@.len() - 1] == kk as usize);
                    } else {
                        assert(exists|z2: int| j <= z2 < req@.len() && req@[z2] == kk as usize);
                    }
                }
                if used@.contains(kk as usize) {
                    let z = choose|z: int| 0 <= z < used@.len() && used@[z] == kk as usize;
                    if z < used_prev.len() {
                        assert(used_prev[z] == kk as usize);
                    } else {
                        assert(req@[jold] == kk as usize);
                    }
                }
                if exists|z: int| j <= z < req@.len() && req@[z] == kk as usize {
                    let z = choose|z: int| j <= z < req@.len() && req@[z] == kk as usize;
                    assert(exists|z2: int| jold <= z2 < req@.len() && req@[z2] == kk as usize);
                }
            }
            assert(pool_ok(constraints@, booked@, promote@, used@, req@, j as int));
            assert forall|kk: int| 0 <= kk < n && used@.contains(kk as usize) && !booked_hit(constraints@[kk], booked@) implies #[trigger] cands.contains(kk as usize) by {
                let z = choose|z: int| 0 <= z < used@.len() && used@[z] == kk as usize;
                if z < used_prev.len() {
                    assert(used_prev[z] == kk as usize);
                    assert(used_prev.contains(kk as usize));
                } else {
                    assert(req@[jold] == kk as usize);
                }
            }
        }
    }
    proof {
        if selectable@.len() > 0 {
            let s = choose|s: int| 0 <= s < constraints@.len() && used@.contains(s as usize)
                && #[trigger] constraints@[s].resources@ == selectable@ && forall|k: int| 0 <= k < required@.len() ==> !constraints@[s].resources@.contains(#[trigger] required@[k]);
            assert forall|a: int, b: int| 0 <= a < required@.len() && 0 <= b < selectable@.len() implies (#[trigger] required@[a]) != (#[trigger] selectable@[b]) by {
                if required@[a] == selectable@[b] {
                    assert(constraints@[s].resources@[b] == required@[a]);
                    assert(constraints@[s].resources@.contains(required@[a]));
                }
            }
        }
        assert forall|a: int, b: int| 0 <= a < b < required@.len() implies (#[trigger] required@[a]) != (#[trigger] required@[b]) by {
            lemma_apart(constraints@, own@[a] as int, own@[b] as int, required@[a]);
        }
        assert forall|x: int| 0 <= x < required@.len() implies #[trigger] from_used(constraints@, used@, required@[x]) by {
            let c = own@[x];
            assert(used@.contains(c));
            let i = choose|i: int| 0 <= i < used@.len() && used@[i] == c;
            assert(constraints@[used@[i] as int].resources@.contains(required@[x]));
        }
    }
    proof {
        assert forall|i: int| 0 <= i < n && used@.contains(i as usize) && !booked_hit(constraints@[i], booked@) implies (
            #[trigger] constraints@[i]).resources@.len() <= selectable@.len() by {
            assert(cands.contains(i as usize));
            let z = choose|z: int| 0 <= z < cands.len() && cands[z] == i as usize;
        }
        assert forall|i: int| 0 <= i < n implies (used@.contains(i as usize) <==> #[trigger] chosen(constraints@, booked@, promote@, i)) by {
            assert((used@.contains(i as usize) || exists|z: int| req@.len() <= z < req@.len() && req@[z] == i as usize)
                <==> chosen(constraints@, booked@, promote@, i));
        }
    }
    ResourceChoice { required, selectable, used }
}

/// Resources of distinct constraints differ.
proof fn lemma_apart(cs: Seq<ConstraintChoice>, i: int, j: int, r: usize)
    requires
        constraints_ok(cs),
        0 <= i < cs.len(),
        0 <= j < cs.len(),
        i != j,
        cs[i].resources@.contains(r),
    ensures
        !cs[j].resources@.contains(r),
{
    if cs[j].resources@.contains(r) {
        let x = choose|x: int| 0 <= x < cs[i].resources@.len() && cs[i].resources@[x] == r;
        let y = choose|y: int| 0 <= y < cs[j].resources@.len() && cs[j].resources@[y] == r;
        assert(cs[i].resources@[x] != cs[j].resources@[y]);
    }
}

/// The task id a crossover pick refers to.
pub open spec fn pick_id(ids1: Seq<i32>, ids2: Seq<i32>, p: (bool, usize)) -> i32 {
    if p.0 { ids1[p.1 as int] } else { ids2[p.1 as int] }
}

fn contains_id(v: &Vec<i32>, id: i32) -> (r: bool)
    ensures
        r == v@.contains(id),
{
    let mut i: usize = 0;
    while i < v.len()
        invariant
            i <= v@.len(),
            forall|k: int| 0 <= k < i ==> v@[k] != id,
        decreases v.len() - i,
    {
        if v[i] == id {
            assert(v@[i as int] == id);
            return true;
        }
        i += 1;
    }
    false
}

/// Both parents hold the same distinct task ids.
pub open spec fn same_ids(ids1: Seq<i32>, ids2: Seq<i32>) -> bool {
    &&& ids1.len() == ids2.len()
    &&& forall|a: int, b: int| 0 <= a < b < ids1.len() ==> (#[trigger] ids1[a]) != (#[trigger] ids1[b])
    &&& forall|a: int, b: int| 0 <= a < b < ids2.len() ==> (#[trigger] ids2[a]) != (#[trigger] ids2[b])
    &&& forall|x: i32| #[trigger] ids1.contains(x) <==> ids2.contains(x)
}

/// Every id of `ids` has been taken.
pub open spec fn all_taken(ids: Seq<i32>, taken: Seq<i32>, upto: int) -> bool {
    forall|q: int| 0 <= q < upto ==> taken.contains(#[trigger] ids[q])
}

/// With the same ids in both parents, once one parent is wholly taken so is
/// the other.
proof fn lemma_other_taken(ids1: Seq<i32>, ids2: Seq<i32>, taken: Seq<i32>, first: bool)
    requires
        same_ids(ids1, ids2),
        first ==> all_taken(ids1, taken, ids1.len() as int),
        !first ==> all_taken(ids2, taken, ids2.len() as int),
    ensures
        all_taken(ids1, taken, ids1.len() as int),
{
    if !first {
        assert forall|q: int| 0 <= q < ids1.len() implies taken.contains(#[trigger] ids1[q]) by {
            assert(ids1.contains(ids1[q]));
            assert(ids2.contains(ids1[q]));
            let z = choose|z: int| 0 <= z < ids2.len() && ids2[z] == ids1[q];
            assert(taken.contains(ids2[z]));
        }
    }
}

/// Distinct ids of the parent, as many as it has, are all of its ids.
proof fn lemma_count_covers(ids1: Seq<i32>, taken: Seq<i32>)
    requires
        forall|a: int, b: int| 0 <= a < b < ids1.len() ==> (#[trigger] ids1[a]) != (#[trigger] ids1[b]),
        forall|a: int, b: int| 0 <= a < b < taken.len() ==> (#[trigger] taken[a]) != (#[trigger] taken[b]),
        taken.len() == ids1.len(),
        forall|k: int| 0 <= k < taken.len() ==> ids1.contains(#[trigger] taken[k]),
    ensures
        all_taken(ids1, taken, ids1.len() as int),
{
    let t = taken.to_set();
    let s = ids1.to_set();
    taken.unique_seq_to_set();
    ids1.unique_seq_to_set();
    assert(t.subset_of(s)) by {
        assert forall|x: i32| t.contains(x) implies s.contains(x) by {
            let k = choose|k: int| 0 <= k < taken.len() && taken[k] == x;
        }
    }
    vstd::set_lib::lemma_subset_equality(t, s);
    assert forall|q: int| 0 <= q < ids1.len() implies taken.contains(#[trigger] ids1[q]) by {
        assert(s.contains(ids1[q]));
        assert(t.contains(ids1[q]));
    }
}

/// Crossover of two parents given by the task ids of their genes: walking the
/// positions, the source parent flips at each cut point of `points`; each
/// position takes the next gene of the source parent whose task the child does
/// not have yet, or, when the source has none left, the first such gene of the
/// other parent, which ends the walk. `(true, i)` is gene `i` of the first
/// parent, `(false, i)` of the second; no task is taken twice, and when both
/// parents hold the same tasks, every task is taken.
pub fn crossover_picks(ids1: &Vec<i32>, ids2: &Vec<i32>, points: &Vec<usize>) -> (r: Vec<(bool, usize)>)
    ensures
        forall|k: int| 0 <= k < r@.len() ==> (if (#[trigger] r@[k]).0 { r@[k].1 < ids1@.len() } else { r@[k].1 < ids2@.len() }),
        forall|a: int, b: int| 0 <= a < b < r@.len() ==> pick_id(ids1@, ids2@, #[trigger] r@[a]) != pick_id(ids1@, ids2@, #[trigger] r@[b]),
        r@.len() <= if ids1@.len() < ids2@.len() { ids2@.len() } else { ids1@.len() },
        same_ids(ids1@, ids2@) ==> covered(ids1@, ids2@, r@),
{
    let len = if ids1.len() < ids2.len() { ids2.len() } else { ids1.len() };
    let mut picks: Vec<(bool, usize)> = Vec::new();
    let mut taken: Vec<i32> = Vec::new();
    let mut use_first = true;
    let mut i1: usize = 0;
    let mut i2: usize = 0;
    let mut next: usize = 0;
    let mut pos: usize = 0;
    while pos < len
        invariant
            pos <= len,
            len == (if ids1@.len() < ids2@.len() { ids2@.len() } else { ids1@.len() }),
            picks@.len() == pos,
            i1 <= ids1@.len(),
            i2 <= ids2@.len(),
            taken@.len() == picks@.len(),
            forall|k: int| 0 <= k < picks@.len() ==> (if (#[trigger] picks@[k]).0 { picks@[k].1 < ids1@.len() } else { picks@[k].1 < ids2@.len() })
                && taken@[k] == pick_id(ids1@, ids2@, picks@[k]),
            forall|a: int, b: int| 0 <= a < b < taken@.len() ==> (#[trigger] taken@[a]) != (#[trigger] taken@[b]),
            all_taken(ids1@, taken@, i1 as int),
            all_taken(ids2@, taken@, i2 as int),
        decreases len - pos,
    {
        if next < points.len() && pos >= points[next] {
            use_first = !use_first;
            next += 1;
        }
        let mut got = false;
        if use_first {
            while i1 < ids1.len() && !got
                invariant
                    i1 <= ids1@.len(),
                    taken@.len() == picks@.len(),
                    picks@.len() == pos + (if got { 1int } else { 0int }),
                    forall|k: int| 0 <= k < picks@.len() ==> (if (#[trigger] picks@[k]).0 { picks@[k].1 < ids1@.len() } else { picks@[k].1 < ids2@.len() })
                        && taken@[k] == pick_id(ids1@, ids2@, picks@[k]),
                    forall|a: int, b: int| 0 <= a < b < taken@.len() ==> (#[trigger] taken@[a]) != (#[trigger] taken@[b]),
                    all_taken(ids1@, taken@, i1 as int),
                    all_taken(ids2@, taken@, i2 as int),
                decreases ids1.len() - i1,
            {
                let id = ids1[i1];
                let ghost t0 = taken@;
                if !contains_id(&taken, id) {
                    picks.push((true, i1));
                    taken.push(id);
                    got = true;
                }
                proof {
                    assert forall|x: i32| t0.contains(x) implies taken@.contains(x) by {
                        let z = choose|z: int| 0 <= z < t0.len() && t0[z] == x;
                        assert(taken@[z] == x);
                    }
                    assert(taken@.contains(id)) by {
                        if got && !t0.contains(id) {
                            assert(taken@[taken@.len() - 1] == id);
                        }
                    }
                    assert forall|q: int| 0 <= q < i1 + 1 implies taken@.contains(#[trigger] ids1@[q]) by {
                        if q < i1 {
                            assert(t0.contains(ids1@[q]));
                        }
                    }
                    assert forall|q: int| 0 <= q < i2 implies taken@.contains(#[trigger] ids2@[q]) by {
                        assert(t0.contains(ids2@[q]));
                    }
                }
                i1 += 1;
            }
        } else {
            while i2 < ids2.len() && !got
                invariant
                    i2 <= ids2@.len(),
                    taken@.len() == picks@.len(),
                    picks@.len() == pos + (if got { 1int } else { 0int }),
                    forall|k: int| 0 <= k < picks@.len() ==> (if (#[trigger] picks@[k]).0 { picks@[k].1 < ids1@.len() } else { picks@[k].1 < ids2@.len() })
                        && taken@[k] == pick_id(ids1@, ids2@, picks@[k]),
                    forall|a: int, b: int| 0 <= a < b < taken@.len() ==> (#[trigger] taken@[a]) != (#[trigger] taken@[b]),
                    all_taken(ids1@, taken@, i1 as int),
                    all_taken(ids2@, taken@, i2 as int),
                decreases ids2.len() - i2,
            {
                let id = ids2[i2];
                let ghost t0 = taken@;
                if !contains_id(&taken, id) {
                    picks.push((false, i2));
                    taken.push(id);
                    got = true;
                }
                proof {
                    assert forall|x: i32| t0.contains(x) implies taken@.contains(x) by {
                        let z = choose|z: int| 0 <= z < t0.len() && t0[z] == x;
                        assert(taken@[z] == x);
                    }
                    assert(taken@.contains(id)) by {
                        if got && !t0.contains(id) {
                            assert(taken@[taken@.len() - 1] == id);
                        }
                    }
                    assert forall|q: int| 0 <= q < i2 + 1 implies taken@.contains(#[trigger] ids2@[q]) by {
                        if q < i2 {
                            assert(t0.contains(ids2@[q]));
                        }
                    }
                    assert forall|q: int| 0 <= q < i1 implies taken@.contains(#[trigger] ids1@[q]) by {
                        assert(t0.contains(ids1@[q]));
                    }
                }
                i2 += 1;
            }
        }
        if !got {
            // the source has nothing left: one gene from the other parent, then stop
            proof {
                if same_ids(ids1@, ids2@) {
                    lemma_other_taken(ids1@, ids2@, taken@, use_first);
                    lemma_finish(ids1@, ids2@, picks@, taken@);
                }
            }
            let other_first = !use_first;
            let n_other = if other_first { ids1.len() } else { ids2.len() };
            let mut k: usize = 0;
            while k < n_other
                invariant
                    k <= n_other,
                    n_other == (if other_first { ids1@.len() } else { ids2@.len() }),
                    taken@.len() == picks@.len(),
                    picks@.len() <= pos,
                    pos < len,
                    len == (if ids1@.len() < ids2@.len() { ids2@.len() } else { ids1@.len() }),
                    forall|q: int| 0 <= q < picks@.len() ==> (if (#[trigger] picks@[q]).0 { picks@[q].1 < ids1@.len() } else { picks@[q].1 < ids2@.len() })
                        && taken@[q] == pick_id(ids1@, ids2@, picks@[q]),
                    forall|a: int, b: int| 0 <= a < b < taken@.len() ==> (#[trigger] taken@[a]) != (#[trigger] taken@[b]),
                    same_ids(ids1@, ids2@) ==> all_taken(ids1@, taken@, ids1@.len() as int),
                    same_ids(ids1@, ids2@) ==> covered(ids1@, ids2@, picks@),
                decreases n_other - k,
            {
                let id = if other_first { ids1[k] } else { ids2[k] };
                if !contains_id(&taken, id) {
                    proof {
                        if same_ids(ids1@, ids2@) {
                            if other_first {
                                assert(taken@.contains(ids1@[k as int]));
                            } else {
                                assert(ids2@.contains(id));
                                assert(ids1@.contains(id));
                                let z = choose|z: int| 0 <= z < ids1@.len() && ids1@[z] == id;
                                assert(taken@.contains(ids1@[z]));
                            }
                        }
                    }
                    picks.push((other_first, k));
                    taken.push(id);
                    proof {
                        assert(pick_id(ids1@, ids2@, picks@[picks@.len() - 1]) == id);
                    }
                    return picks;
                }
                k += 1;
            }
            return picks;
        }
        pos += 1;
    }
    proof {
        if same_ids(ids1@, ids2@) {
            assert forall|k: int| 0 <= k < taken@.len() implies ids1@.contains(#[trigger] taken@[k]) by {
                let p = picks@[k];
                if p.0 {
                    assert(taken@[k] == ids1@[p.1 as int]);
                } else {
                    assert(taken@[k] == ids2@[p.1 as int]);
                    assert(ids2@.contains(taken@[k]));
                }
            }
            lemma_count_covers(ids1@, taken@);
            lemma_finish(ids1@, ids2@, picks@, taken@);
        }
    }
    picks
}

/// The task ids of the picks.
pub open spec fn pick_ids(ids1: Seq<i32>, ids2: Seq<i32>, picks: Seq<(bool, usize)>) -> Seq<i32> {
    picks.map_values(|p: (bool, usize)| pick_id(ids1, ids2, p))
}

/// Every id of the first parent is the id of some pick.
pub open spec fn covered(ids1: Seq<i32>, ids2: Seq<i32>, picks: Seq<(bool, usize)>) -> bool {
    all_taken(ids1, pick_ids(ids1, ids2, picks), ids1.len() as int)
}

proof fn lemma_finish(ids1: Seq<i32>, ids2: Seq<i32>, picks: Seq<(bool, usize)>, taken: Seq<i32>)
    requires
        taken.len() == picks.len(),
        forall|k: int| 0 <= k < picks.len() ==> taken[k] == pick_id(ids1, ids2, #[trigger] picks[k]),
        all_taken(ids1, taken, ids1.len() as int),
    ensures
        covered(ids1, ids2, picks),
{
    assert(taken =~= pick_ids(ids1, ids2, picks));
}

/// Node `v` comes after all its predecessors in `order`, which holds them all.
pub open spec fn after_preds(edges: Seq<Edge>, order: Seq<usize>, v: usize) -> bool {
    forall|e: int| 0 <= e < edges.len() && (#[trigger] edges[e]).1 == v ==> exists|a: int, b: int|
        0 <= a < b < order.len() && order[a] == edges[e].0 && order[b] == v
}

fn position(v: &Vec<usize>, x: usize) -> (r: Option<usize>)
    ensures
        r matches Some(i) ==> i < v@.len() && v@[i as int] == x,
        r is None ==> !v@.contains(x),
{
    let mut i: usize = 0;
    while i < v.len()
        invariant
            i <= v@.len(),
            forall|k: int| 0 <= k < i ==> v@[k] != x,
        decreases v.len() - i,
    {
        if v[i] == x {
            return Some(i);
        }
        i += 1;
    }
    None
}

/// Node `v` has a predecessor not yet in `order`.
pub open spec fn has_open_pred(edges: Seq<Edge>, order: Seq<usize>, v: usize) -> bool {
    exists|e: int| 0 <= e < edges.len() && edges[e].1 == v && !order.contains(#[trigger] edges[e].0)
}

/// The edge into `v` from an open predecessor that `has_open_pred` promises.
pub open spec fn open_edge(edges: Seq<Edge>, order: Seq<usize>, v: usize) -> int {
    choose|e: int| 0 <= e < edges.len() && edges[e].1 == v && !order.contains(#[trigger] edges[e].0)
}

/// The predecessor of `v` that `has_open_pred` promises.
pub open spec fn open_pred(edges: Seq<Edge>, order: Seq<usize>, v: usize) -> usize {
    edges[open_edge(edges, order, v)].0
}

/// Walking back from `v` over open predecessors, `t` steps.
pub open spec fn back(edges: Seq<Edge>, order: Seq<usize>, v: usize, t: nat) -> usize
    decreases t,
{
    if t == 0 { v } else { open_pred(edges, order, back(edges, order, v, (t - 1) as nat)) }
}

/// Node `v` has some predecessor.
pub open spec fn has_any_pred(edges: Seq<Edge>, v: usize) -> bool {
    exists|e: int| 0 <= e < edges.len() && (#[trigger] edges[e]).1 == v
}

/// An edge from `x` to `v` comes at or after position `from`.
pub open spec fn pending_edge(edges: Seq<Edge>, x: usize, v: usize, from: int) -> bool {
    exists|e: int| from <= e < edges.len() && (#[trigger] edges[e]) == (x, v)
}

/// Every node neither taken nor ready waits for an open predecessor, or for the
/// edges from `x` from position `from` on to be looked at.
pub open spec fn waiting(edges: Seq<Edge>, order: Seq<usize>, ready: Seq<usize>, n: int, x: usize, from: int) -> bool {
    forall|v: usize|
        v < n && !order.contains(v) && !ready.contains(v) ==> #[trigger] has_open_pred(edges, order, v) || pending_edge(
            edges,
            x,
            v,
            from,
        )
}

/// Every node outside `order` has an open predecessor.
pub open spec fn all_open(edges: Seq<Edge>, order: Seq<usize>, n: int) -> bool {
    forall|v: usize| v < n && !order.contains(v) ==> #[trigger] has_open_pred(edges, order, v)
}

proof fn lemma_back_open(edges: Seq<Edge>, order: Seq<usize>, n: int, v: usize, t: nat)
    requires
        edges_in(n, edges),
        all_open(edges, order, n),
        v < n,
        !order.contains(v),
    ensures
        back(edges, order, v, t) < n,
        !order.contains(back(edges, order, v, t)),
        t > 0 ==> exists|e: int| 0 <= e < edges.len() && (#[trigger] edges[e]) == (back(edges, order, v, t), back(edges, order, v, (t - 1) as nat)),
    decreases t,
{
    if t > 0 {
        lemma_back_open(edges, order, n, v, (t - 1) as nat);
        let w = back(edges, order, v, (t - 1) as nat);
        assert(has_open_pred(edges, order, w));
        let e = open_edge(edges, order, w);
        assert(0 <= e < edges.len() && edges[e].1 == w && !order.contains(edges[e].0));
        assert(edges[e] == (back(edges, order, v, t), w));
    }
}

proof fn lemma_back_walk(edges: Seq<Edge>, order: Seq<usize>, n: int, v: usize, i: nat, j: nat)
    requires
        edges_in(n, edges),
        all_open(edges, order, n),
        v < n,
        !order.contains(v),
        i < j,
    ensures
        walk(edges, back(edges, order, v, j) as int, back(edges, order, v, i) as int, (j - i) as nat),
    decreases j - i,
{
    lemma_back_open(edges, order, n, v, j);
    let e = choose|e: int| 0 <= e < edges.len() && (#[trigger] edges[e]) == (back(edges, order, v, j), back(edges, order, v, (j - 1) as nat));
    if j - i == 1 {
        assert(edges[e].0 == back(edges, order, v, j) && edges[e].1 == back(edges, order, v, i));
    } else {
        lemma_back_walk(edges, order, n, v, i, (j - 1) as nat);
        assert(edges[e].0 == back(edges, order, v, j));
        assert(walk(edges, edges[e].1 as int, back(edges, order, v, i) as int, (j - 1 - i) as nat));
    }
}

/// If every node outside `order` has an open predecessor and some node of the
/// graph is outside, the graph has a cycle.
proof fn lemma_stuck_cycle(edges: Seq<Edge>, order: Seq<usize>, n: int, v: usize)
    requires
        edges_in(n, edges),
        all_open(edges, order, n),
        v < n,
        !order.contains(v),
    ensures
        has_cycle(n, edges),
{
    // n + 1 steps back visit some node twice
    let chain = Seq::new((n + 1) as nat, |t: int| back(edges, order, v, t as nat));
    if forall|a: int, b: int| 0 <= a < b < chain.len() ==> chain[a] != chain[b] {
        assert forall|t: int| 0 <= t < chain.len() implies (#[trigger] chain[t]) < n by {
            lemma_back_open(edges, order, n, v, t as nat);
        }
        lemma_distinct_below(chain, n);
    }
    let (a, b) = choose|a: int, b: int| 0 <= a < b < chain.len() && chain[a] == chain[b];
    lemma_back_walk(edges, order, n, v, a as nat, b as nat);
    lemma_back_open(edges, order, n, v, a as nat);
    let x = back(edges, order, v, a as nat);
    assert(walk(edges, x as int, x as int, (b - a) as nat));
    assert(reaches(edges, x as int, x as int));
}

/// A sequence of distinct values below `n` has at most `n` entries.
pub proof fn lemma_distinct_below(s: Seq<usize>, n: int)
    requires
        0 <= n,
        forall|a: int, b: int| 0 <= a < b < s.len() ==> s[a] != s[b],
        forall|t: int| 0 <= t < s.len() ==> (#[trigger] s[t]) < n,
    ensures
        s.len() <= n,
{
    s.unique_seq_to_set();
    let full = Set::new(|x: usize| 0 <= x < n);
    assert(s.to_set().subset_of(full)) by {
        assert forall|x: usize| s.to_set().contains(x) implies full.contains(x) by {
            let t = choose|t: int| 0 <= t < s.len() && s[t] == x;
        }
    }
    lemma_usize_range_size(n);
    vstd::set_lib::lemma_len_subset(s.to_set(), full);
}

/// Distinct values below `n`, fewer than `n`, miss some value below `n`.
proof fn lemma_missing(s: Seq<usize>, n: int) -> (v: usize)
    requires
        0 <= n <= usize::MAX,
        forall|a: int, b: int| 0 <= a < b < s.len() ==> s[a] != s[b],
        s.len() < n,
    ensures
        v < n,
        !s.contains(v),
{
    if forall|x: usize| x < n ==> s.contains(x) {
        let full = Set::new(|x: usize| 0 <= x < n);
        s.unique_seq_to_set();
        assert(full.subset_of(s.to_set())) by {
            assert forall|x: usize| full.contains(x) implies s.to_set().contains(x) by {
                assert(s.contains(x));
            }
        }
        lemma_usize_range_size_exact(n);
        vstd::set_lib::lemma_len_subset(full, s.to_set());
        assert(false);
    }
    choose|x: usize| x < n && !s.contains(x)
}

pub proof fn lemma_usize_range_size_exact(n: int)
    requires
        0 <= n <= usize::MAX + 1,
    ensures
        Set::new(|x: usize| 0 <= x < n).finite(),
        Set::new(|x: usize| 0 <= x < n).len() == n,
    decreases n,
{
    let s = Set::new(|x: usize| 0 <= x < n);
    if n == 0 {
        assert(s =~= Set::empty());
    } else {
        lemma_usize_range_size_exact(n - 1);
        let t = Set::new(|x: usize| 0 <= x < n - 1);
        assert(s =~= t.insert((n - 1) as usize));
    }
}

/// A random order of the nodes that respects the dependencies: starting from
/// the nodes without predecessors, repeatedly the ready node at position
/// `picks[k]` (modulo the number of ready nodes) is taken, and a successor
/// becomes ready once all its predecessors are taken. Nodes on a cycle never
/// become ready.
pub fn random_order(n: usize, edges: &Vec<Edge>, picks: &Vec<usize>) -> (r: Vec<usize>)
    requires
        edges_in(n as int, edges@),
    ensures
        forall|i: int| 0 <= i < r@.len() ==> (#[trigger] r@[i]) < n,
        forall|a: int, b: int| 0 <= a < b < r@.len() ==> (#[trigger] r@[a]) != (#[trigger] r@[b]),
        forall|i: int| 0 <= i < r@.len() ==> after_preds(edges@, r@, #[trigger] r@[i]),
        !has_cycle(n as int, edges@) ==> r@.len() == n,
{
    let mut order: Vec<usize> = Vec::new();
    let mut ready: Vec<usize> = Vec::new();
    // nodes without predecessors
    let mut v: usize = 0;
    while v < n
        invariant
            v <= n,
            edges_in(n as int, edges@),
            order@.len() == 0,
            ready@.len() <= v,
            forall|k: int| 0 <= k < ready@.len() ==> (#[trigger] ready@[k]) < v,
            forall|a: int, b: int| 0 <= a < b < ready@.len() ==> (#[trigger] ready@[a]) != (#[trigger] ready@[b]),
            forall|k: int| 0 <= k < ready@.len() ==> after_preds(edges@, order@.push(#[trigger] ready@[k]), ready@[k]),
            forall|v2: usize| v2 < v && !ready@.contains(v2) ==> #[trigger] has_any_pred(edges@, v2),
        decreases n - v,
    {
        let mut has_pred = false;
        let mut i: usize = 0;
        while i < edges.len()
            invariant
                i <= edges@.len(),
                has_pred == exists|e: int| 0 <= e < i && (#[trigger] edges@[e]).1 == v,
            decreases edges.len() - i,
        {
            if edges[i].1 == v {
                has_pred = true;
            }
            i += 1;
        }
        let ghost r0 = ready@;
        if !has_pred {
            ready.push(v);
        }
        proof {
            assert forall|v2: usize| v2 < v + 1 && !ready@.contains(v2) implies #[trigger] has_any_pred(edges@, v2) by {
                if v2 < v {
                    if !r0.contains(v2) {
                        assert(has_any_pred(edges@, v2));
                    } else {
                        let z = choose|z: int| 0 <= z < r0.len() && r0[z] == v2;
                        assert(ready@[z] == v2);
                    }
                } else {
                    if !has_pred {
                        assert(ready@[ready@.len() - 1] == v);
                    }
                }
            }
        }
        v += 1;
    }
    proof {
        assert forall|v2: usize| v2 < n && !order@.contains(v2) && !ready@.contains(v2) implies #[trigger] has_open_pred(edges@, order@, v2) || pending_edge(edges@, 0, v2, edges@.len() as int) by {
            assert(has_any_pred(edges@, v2));
            let e = choose|e: int| 0 <= e < edges@.len() && (#[trigger] edges@[e]).1 == v2;
            assert(!order@.contains(edges@[e].0));
        }
    }
    let mut k: usize = 0;
    while ready.len() > 0
        invariant
            edges_in(n as int, edges@),
            forall|q: int| 0 <= q < order@.len() ==> (#[trigger] order@[q]) < n,
            forall|q: int| 0 <= q < ready@.len() ==> (#[trigger] ready@[q]) < n,
            forall|a: int, b: int| 0 <= a < b < order@.len() ==> (#[trigger] order@[a]) != (#[trigger] order@[b]),
            forall|a: int, b: int| 0 <= a < b < ready@.len() ==> (#[trigger] ready@[a]) != (#[trigger] ready@[b]),
            forall|a: int, b: int| 0 <= a < order@.len() && 0 <= b < ready@.len() ==> (#[trigger] order@[a]) != (#[trigger] ready@[b]),
            forall|q: int| 0 <= q < order@.len() ==> after_preds(edges@, order@, #[trigger] order@[q]),
            forall|q: int| 0 <= q < ready@.len() ==> after_preds(edges@, order@.push(#[trigger] ready@[q]), ready@[q]),
            order@.len() + ready@.len() <= n,
            k == order@.len(),
            waiting(edges@, order@, ready@, n as int, 0, edges@.len() as int),
        decreases n - order@.len(),
    {
        let draw = if k < picks.len() { picks[k] } else { 0 };
        let idx = draw % ready.len();
        let ghost (o0, r0) = (order@, ready@);
        let x = ready.remove(idx);
        order.push(x);
        proof {
            assert(after_preds(edges@, o0.push(x), x));
            assert forall|q: int| 0 <= q < order@.len() implies after_preds(edges@, order@, #[trigger] order@[q]) by {
                if q < o0.len() {
                    assert(order@[q] == o0[q]);
                    assert forall|e: int| 0 <= e < edges@.len() && (#[trigger] edges@[e]).1 == order@[q] implies exists|a: int, b: int|
                        0 <= a < b < order@.len() && order@[a] == edges@[e].0 && order@[b] == order@[q] by {
                        let (a, b) = choose|a: int, b: int| 0 <= a < b < o0.len() && o0[a] == edges@[e].0 && o0[b] == o0[q];
                        assert(order@[a] == o0[a] && order@[b] == o0[b]);
                    }
                }
            }
            assert forall|a: int, b: int| 0 <= a < b < ready@.len() implies (#[trigger] ready@[a]) != (#[trigger] ready@[b]) by {
                let a2 = if a < idx { a } else { a + 1 };
                let b2 = if b < idx { b } else { b + 1 };
                assert(ready@[a] == r0[a2] && ready@[b] == r0[b2]);
            }
            assert forall|a: int, b: int| 0 <= a < b < order@.len() implies (#[trigger] order@[a]) != (#[trigger] order@[b]) by {
                if b == o0.len() {
                    assert(order@[a] == o0[a]);
                    assert(o0[a] != r0[idx as int]);
                }
            }
            assert forall|a: int, b: int| 0 <= a < order@.len() && 0 <= b < ready@.len() implies (#[trigger] order@[a]) != (#[trigger] ready@[b]) by {
                let b2 = if b < idx { b } else { b + 1 };
                assert(ready@[b] == r0[b2]);
                if a < o0.len() {
                    assert(order@[a] == o0[a]);
                } else {
                    assert(order@[a] == r0[idx as int]);
                }
            }
            assert forall|q: int| 0 <= q < ready@.len() implies after_preds(edges@, order@.push(#[trigger] ready@[q]), ready@[q]) by {
                let q2 = if q < idx { q } else { q + 1 };
                assert(ready@[q] == r0[q2]);
                let y = ready@[q];
                assert(after_preds(edges@, o0.push(y), y));
                let np = order@.push(y);
                assert forall|e: int| 0 <= e < edges@.len() && (#[trigger] edges@[e]).1 == y implies exists|a: int, b: int|
                    0 <= a < b < np.len() && np[a] == edges@[e].0 && np[b] == y by {
                    let (a, b) = choose|a: int, b: int| 0 <= a < b < o0.push(y).len() && o0.push(y)[a] == edges@[e].0 && o0.push(y)[b] == y;
                    assert(b == o0.len()) by {
                        if b < o0.len() {
                            assert(o0[b] == y);
                            assert(o0[b] != r0[q2]);
                        }
                    }
                    assert(np[a] == o0[a]);
                    assert(np[np.len() - 1] == y);
                }
            }
            assert forall|q: int| 0 <= q < order@.len() implies (#[trigger] order@[q]) < n by {
                if q < o0.len() {
                    assert(order@[q] == o0[q]);
                }
            }
            assert forall|q: int| 0 <= q < ready@.len() implies (#[trigger] ready@[q]) < n by {
                let q2 = if q < idx { q } else { q + 1 };
                assert(ready@[q] == r0[q2]);
            }
        }
        proof {
            assert forall|v2: usize| v2 < n && !order@.contains(v2) && !ready@.contains(v2) implies #[trigger] has_open_pred(edges@, order@, v2) || pending_edge(edges@, x, v2, 0) by {
                assert(v2 != x) by {
                    assert(order@[order@.len() - 1] == x);
                }
                assert(!o0.contains(v2)) by {
                    if o0.contains(v2) {
                        let z = choose|z: int| 0 <= z < o0.len() && o0[z] == v2;
                        assert(order@[z] == v2);
                    }
                }
                assert(!r0.contains(v2)) by {
                    if r0.contains(v2) {
                        let z = choose|z: int| 0 <= z < r0.len() && r0[z] == v2;
                        let z2 = if z < idx { z } else { z - 1 };
                        if z == idx {
                        } else {
                            assert(ready@[z2] == v2);
                        }
                    }
                }
                assert(has_open_pred(edges@, o0, v2) || pending_edge(edges@, 0, v2, edges@.len() as int));
                let e = choose|e: int| 0 <= e < edges@.len() && edges@[e].1 == v2 && !o0.contains(#[trigger] edges@[e].0);
                if edges@[e].0 == x {
                    assert(edges@[e] == (x, v2));
                    assert(pending_edge(edges@, x, v2, 0));
                } else {
                    assert(!order@.contains(edges@[e].0)) by {
                        if order@.contains(edges@[e].0) {
                            let z = choose|z: int| 0 <= z < order@.len() && order@[z] == edges@[e].0;
                            if z < o0.len() {
                                assert(o0[z] == edges@[e].0);
                            }
                        }
                    }
                }
            }
        }
        // successors whose predecessors are all taken become ready
        let mut i: usize = 0;
        while i < edges.len()
            invariant
                i <= edges@.len(),
                edges_in(n as int, edges@),
                forall|q: int| 0 <= q < order@.len() ==> (#[trigger] order@[q]) < n,
                forall|q: int| 0 <= q < ready@.len() ==> (#[trigger] ready@[q]) < n,
                forall|a: int, b: int| 0 <= a < b < order@.len() ==> (#[trigger] order@[a]) != (#[trigger] order@[b]),
                forall|a: int, b: int| 0 <= a < b < ready@.len() ==> (#[trigger] ready@[a]) != (#[trigger] ready@[b]),
                forall|a: int, b: int| 0 <= a < order@.len() && 0 <= b < ready@.len() ==> (#[trigger] order@[a]) != (#[trigger] ready@[b]),
                forall|q: int| 0 <= q < order@.len() ==> after_preds(edges@, order@, #[trigger] order@[q]),
                forall|q: int| 0 <= q < ready@.len() ==> after_preds(edges@, order@.push(#[trigger] ready@[q]), ready@[q]),
                order@.len() + ready@.len() <= n,
                waiting(edges@, order@, ready@, n as int, x, i as int),
            decreases edges.len() - i,
        {
            let e = edges[i];
            let ghost ready_at_i = ready@;
            if e.0 == x {
                let w = e.1;
                // all predecessors of w taken?
                let mut all = true;
                let mut j: usize = 0;
                while j < edges.len()
                    invariant
                        j <= edges@.len(),
                        all ==> forall|f: int| 0 <= f < j && (#[trigger] edges@[f]).1 == w ==> order@.contains(edges@[f].0),
                        !all ==> has_open_pred(edges@, order@, w),
                    decreases edges.len() - j,
                {
                    if edges[j].1 == w && position(&order, edges[j].0).is_none() {
                        all = false;
                    }
                    j += 1;
                }
                if all && position(&order, w).is_none() && position(&ready, w).is_none() {
                    proof {
                        assert(!order@.contains(w) && !ready@.contains(w));
                        let np = order@.push(w);
                        assert forall|f: int| 0 <= f < edges@.len() && (#[trigger] edges@[f]).1 == w implies exists|a: int, b: int|
                            0 <= a < b < np.len() && np[a] == edges@[f].0 && np[b] == w by {
                            let a = choose|a: int| 0 <= a < order@.len() && order@[a] == edges@[f].0;
                            assert(np[a] == edges@[f].0);
                            assert(np[np.len() - 1] == w);
                        }
                        // a node neither taken nor ready still fits in n
                        assert(order@.len() + ready@.len() < n) by {
                            lemma_room(order@, ready@, w, n as int);
                        }
                    }
                    let ghost r1 = ready@;
                    ready.push(w);
                    proof {
                        assert forall|a: int, b: int| 0 <= a < b < ready@.len() implies (#[trigger] ready@[a]) != (#[trigger] ready@[b]) by {
                            if b == r1.len() {
                                assert(ready@[a] == r1[a]);
                                assert(r1.contains(r1[a]));
                            }
                        }
                        assert forall|a: int, b: int| 0 <= a < order@.len() && 0 <= b < ready@.len() implies (#[trigger] order@[a]) != (#[trigger] ready@[b]) by {
                            if b == r1.len() {
                                assert(order@.contains(order@[a]));
                            } else {
                                assert(ready@[b] == r1[b]);
                            }
                        }
                        assert forall|q: int| 0 <= q < ready@.len() implies after_preds(edges@, order@.push(#[trigger] ready@[q]), ready@[q]) by {
                            if q < r1.len() {
                                assert(ready@[q] == r1[q]);
                            }
                        }
                        assert forall|q: int| 0 <= q < ready@.len() implies (#[trigger] ready@[q]) < n by {
                            if q < r1.len() {
                                assert(ready@[q] == r1[q]);
                            }
                        }
                        assert(ready@[ready@.len() - 1] == w);
                    }
                }
                proof {
                    if ready_at_i.contains(w) && !ready@.contains(w) {
                        let z = choose|z: int| 0 <= z < ready_at_i.len() && ready_at_i[z] == w;
                        assert(ready@[z] == w);
                    }
                }
                assert(ready@.contains(w) || order@.contains(w) || has_open_pred(edges@, order@, w));
            }
            assert(e.0 == x ==> ready@.contains(e.1) || order@.contains(e.1) || has_open_pred(edges@, order@, e.1));
            proof {
                assert forall|v2: usize| v2 < n && !order@.contains(v2) && !ready@.contains(v2) implies #[trigger] has_open_pred(edges@, order@, v2) || pending_edge(edges@, x, v2, i + 1) by {
                    if !has_open_pred(edges@, order@, v2) {
                        assert(waiting(edges@, order@, ready_at_i, n as int, x, i as int));
                        assert(!ready_at_i.contains(v2)) by {
                            if ready_at_i.contains(v2) {
                                let z = choose|z: int| 0 <= z < ready_at_i.len() && ready_at_i[z] == v2;
                                assert(ready@[z] == v2);
                            }
                        }
                        assert(pending_edge(edges@, x, v2, i as int));
                        let f = choose|f: int| i <= f < edges@.len() && (#[trigger] edges@[f]) == (x, v2);
                        if f == i {
                            assert(e == (x, v2));
                        }
                        assert(pending_edge(edges@, x, v2, i + 1));
                    }
                }
            }
            i += 1;
        }
        k += 1;
    }
    proof {
        assert forall|v2: usize| v2 < n && !order@.contains(v2) implies #[trigger] has_open_pred(edges@, order@, v2) by {
            assert(!ready@.contains(v2));
            if !has_open_pred(edges@, order@, v2) {
                assert(pending_edge(edges@, 0, v2, edges@.len() as int));
                let f = choose|f: int| edges@.len() <= f < edges@.len() && (#[trigger] edges@[f]) == (0usize, v2);
            }
        }
        if !has_cycle(n as int, edges@) && order@.len() < n {
            let v2 = lemma_missing(order@, n as int);
            lemma_stuck_cycle(edges@, order@, n as int, v2);
        }
    }
    order
}

/// Distinct nodes below `n`, taken or ready, leave room for one more outside both.
proof fn lemma_room(order: Seq<usize>, ready: Seq<usize>, w: usize, n: int)
    requires
        w < n,
        !order.contains(w),
        !ready.contains(w),
        forall|q: int| 0 <= q < order.len() ==> (#[trigger] order[q]) < n,
        forall|q: int| 0 <= q < ready.len() ==> (#[trigger] ready[q]) < n,
        forall|a: int, b: int| 0 <= a < b < order.len() ==> (#[trigger] order[a]) != (#[trigger] order[b]),
        forall|a: int, b: int| 0 <= a < b < ready.len() ==> (#[trigger] ready[a]) != (#[trigger] ready[b]),
        forall|a: int, b: int| 0 <= a < order.len() && 0 <= b < ready.len() ==> (#[trigger] order[a]) != (#[trigger] ready[b]),
    ensures
        order.len() + ready.len() < n,
{
    let all = (order + ready).push(w);
    assert forall|a: int, b: int| 0 <= a < b < all.len() implies all[a] != all[b] by {
        if b == all.len() - 1 {
            if a < order.len() {
                assert(all[a] == order[a]);
                assert(order.contains(order[a]));
            } else {
                assert(all[a] == ready[a - order.len()]);
                assert(ready.contains(ready[a - order.len()]));
            }
        } else if b < order.len() {
            assert(all[a] == order[a] && all[b] == order[b]);
        } else if a < order.len() {
            assert(all[a] == order[a] && all[b] == ready[b - order.len()]);
        } else {
            assert(all[a] == ready[a - order.len()] && all[b] == ready[b - order.len()]);
        }
    }
    let s = all.to_set();
    assert forall|x: usize| s.contains(x) implies 0 <= x < n by {
        let i = choose|i: int| 0 <= i < all.len() && all[i] == x;
        if i < order.len() {
            assert(all[i] == order[i]);
        } else if i < order.len() + ready.len() {
            assert(all[i] == ready[i - order.len()]);
        }
    }
    all.unique_seq_to_set();
    let full = Set::new(|x: usize| 0 <= x < n);
    assert(s.subset_of(full));
    lemma_usize_range_size(n);
    vstd::set_lib::lemma_len_subset(s, full);
}

proof fn lemma_usize_range_size(n: int)
    requires
        0 <= n,
    ensures
        Set::new(|x: usize| 0 <= x < n).finite(),
        Set::new(|x: usize| 0 <= x < n).len() <= n,
    decreases n,
{
    let s = Set::new(|x: usize| 0 <= x < n);
    if n == 0 {
        assert(s =~= Set::empty());
    } else {
        lemma_usize_range_size(n - 1);
        let t = Set::new(|x: usize| 0 <= x < n - 1);
        if n - 1 <= usize::MAX {
            assert(s =~= t.insert((n - 1) as usize));
        } else {
            assert(s =~= t);
        }
    }
}

/// Every resource appears in at most one constraint, and at most once in it.
pub open spec fn resources_once(cs: Seq<ConstraintChoice>) -> bool {
    forall|i: int, j: int, x: int, y: int|
        0 <= i < cs.len() && 0 <= j < cs.len() && 0 <= x < cs[i].resources@.len() && 0 <= y < cs[j].resources@.len()
            && (i != j || x != y) ==> #[trigger] cs[i].resources@[x] != #[trigger] cs[j].resources@[y]
}

/// Whether each resource is used at most once among a task's constraints, as a
/// task must be before it is saved.
pub fn check_resources_once(cs: &Vec<ConstraintChoice>) -> (r: bool)
    ensures
        r == resources_once(cs@),
{
    let n = cs.len();
    let mut i: usize = 0;
    while i < n
        invariant
            i <= n,
            n == cs@.len(),
            forall|i2: int, j: int, x: int, y: int|
                0 <= i2 < i && 0 <= j < n && 0 <= x < cs@[i2].resources@.len() && 0 <= y < cs@[j].resources@.len()
                    && (i2 != j || x != y) ==> #[trigger] cs@[i2].resources@[x] != #[trigger] cs@[j].resources@[y],
        decreases n - i,
    {
        let mut x: usize = 0;
        while x < cs[i].resources.len()
            invariant
                i < n,
                n == cs@.len(),
                x <= cs@[i as int].resources@.len(),
                forall|i2: int, j: int, x2: int, y: int|
                    0 <= i2 < i && 0 <= j < n && 0 <= x2 < cs@[i2].resources@.len() && 0 <= y < cs@[j].resources@.len()
                        && (i2 != j || x2 != y) ==> #[trigger] cs@[i2].resources@[x2] != #[trigger] cs@[j].resources@[y],
                forall|x2: int, j: int, y: int|
                    0 <= x2 < x && 0 <= j < n && 0 <= y < cs@[j].resources@.len() && (i != j || x2 != y)
                        ==> #[trigger] cs@[i as int].resources@[x2] != #[trigger] cs@[j].resources@[y],
            decreases cs@[i as int].resources@.len() - x,
        {
            let v = cs[i].resources[x];
            let mut j: usize = 0;
            while j < n
                invariant
                    i < n,
                    n == cs@.len(),
                    x < cs@[i as int].resources@.len(),
                    v == cs@[i as int].resources@[x as int],
                    j <= n,
                    forall|j2: int, y: int|
                        0 <= j2 < j && 0 <= y < cs@[j2].resources@.len() && (i != j2 || x != y) ==> v != #[trigger] cs@[j2].resources@[y],
                decreases n - j,
            {
                let mut y: usize = 0;
                while y < cs[j].resources.len()
                    invariant
                        i < n,
                        j < n,
                        n == cs@.len(),
                        x < cs@[i as int].resources@.len(),
                        v == cs@[i as int].resources@[x as int],
                        y <= cs@[j as int].resources@.len(),
                        forall|j2: int, y2: int|
                            0 <= j2 < j && 0 <= y2 < cs@[j2].resources@.len() && (i != j2 || x != y2) ==> v != #[trigger] cs@[j2].resources@[y2],
                        forall|y2: int| 0 <= y2 < y && (i != j || x != y2) ==> v != #[trigger] cs@[j as int].resources@[y2],
                    decreases cs@[j as int].resources@.len() - y,
                {
                    if (i != j || x != y) && cs[j].resources[y] == v {
                        return false;
                    }
                    y += 1;
                }
                j += 1;
            }
            x += 1;
        }
        i += 1;
    }
    true
}

/// Whether two adjacent tasks on nodes `a` then `b` may swap places: only when
/// no dependency leads from `a` to `b`.
pub fn can_swap(edges: &Vec<Edge>, a: usize, b: usize) -> (r: bool)
    ensures
        r == !edges@.contains((a, b)),
{
    let mut i: usize = 0;
    while i < edges.len()
        invariant
            i <= edges@.len(),
            forall|j: int| 0 <= j < i ==> edges@[j] != (a, b),
        decreases edges.len() - i,
    {
        if edges[i].0 == a && edges[i].1 == b {
            assert(edges@[i as int] == (a, b));
            return false;
        }
        i += 1;
    }
    true
}

} // verus!
