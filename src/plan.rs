//! Planning a whole individual: tasks in dependency order, each placed greedily,
//! then the milestones they fulfil.
use vstd::prelude::*;
use crate::interval::{covers, span_in, Bound};
use crate::issue::{IssueCode, PlanningIssue};
use crate::placer::{
    all_slots_wf, choice_ok, fits, plan_task, task_start, task_start_spec, tuple_fits, valid_tuple, Assignment,
};
use crate::problem::{edges_in, Edge, Node};
use crate::slot::{available, Slot};

verus! {

/// One task of an individual: its graph node, the resources it needs (by
/// position) and the seconds of work left.
#[derive(Clone, Debug)]
pub struct Gene {
    pub node: usize,
    pub task_id: i32,
    pub required: Vec<usize>,
    pub selectable: Vec<usize>,
    pub duration: i64,
}

/// A placed task.
#[derive(Clone, Debug)]
pub struct PlannedTask {
    pub task_id: i32,
    pub node: usize,
    pub assignment: Assignment,
}

#[derive(Clone, Copy, Debug, PartialEq, Eq, Structural)]
pub struct FulfilledMilestone {
    pub milestone_id: i32,
    pub date: i64,
}

/// The result of planning.
#[derive(Clone, Debug)]
pub struct Plan {
    pub assignments: Vec<PlannedTask>,
    pub fulfilled_milestones: Vec<FulfilledMilestone>,
    pub issues: Vec<PlanningIssue>,
    /// Positions of the genes in the order they were planned.
    pub order: Vec<usize>,
    /// What became of each gene, in that order.
    pub outcomes: Vec<Outcome>,
}

/// What became of a gene: placed, or an issue with its code.
#[derive(Clone, Copy, Debug, PartialEq, Eq, Structural)]
pub enum Outcome {
    Placed,
    Issue(IssueCode),
}

/// One gene's turn, from finish times `fin_t` and slots `res_t` to `fin_n` and
/// `res_n`: a `PredIssue` exactly when a predecessor has no finish time yet,
/// else a `NoEffort` exactly when the duration is not positive; otherwise the
/// gene is placed or gets a `NoSlotFound` that leaves everything as it was. A gene
/// without resources never fits; a gene on required resources only is placed
/// exactly when some choice of one slot per resource leaves the duration free in
/// all of them inside `[start, calculation_end)`.
pub open spec fn step_ok(
    edges: Seq<Edge>,
    gene: Gene,
    project_start: i64,
    calculation_end: i64,
    fin_t: Seq<Option<i64>>,
    res_t: Seq<Vec<Slot>>,
    o: Outcome,
    fin_n: Seq<Option<i64>>,
    res_n: Seq<Vec<Slot>>,
) -> bool {
    let start = task_start_spec(pred_finish(edges, fin_t, gene.node), project_start);
    if start is None {
        o == Outcome::Issue(IssueCode::PredIssue) && fin_n == fin_t && res_n == res_t
    } else if gene.duration <= 0 {
        o == Outcome::Issue(IssueCode::NoEffort) && fin_n == fin_t && res_n == res_t
    } else {
        &&& o == Outcome::Placed || (o == Outcome::Issue(IssueCode::NoSlotFound) && fin_n == fin_t && res_n == res_t)
        &&& gene.required@.len() == 0 && gene.selectable@.len() == 0 ==> o != Outcome::Placed
        &&& gene.required@.len() >= 1 && gene.selectable@.len() == 0 ==> (o == Outcome::Placed <==> exists|t: Seq<usize>|
            valid_tuple(res_t, gene.required@, t) && #[trigger] tuple_fits(
                res_t,
                gene.required@,
                t,
                (2 * start.unwrap(), 2 * calculation_end - 1),
                gene.duration as int,
            ))
        &&& gene.required@.len() == 1 && gene.selectable@.len() == 0 ==> (o == Outcome::Placed <==> exists|j: int|
            0 <= j < res_t[gene.required@[0] as int]@.len() && fits(
                (#[trigger] res_t[gene.required@[0] as int]@[j]).intervals@,
                (2 * start.unwrap(), 2 * calculation_end - 1),
                gene.duration as int,
            ))
    }
}

/// The turns of the genes at positions `order`, with the states between them.
pub open spec fn trace_ok(
    edges: Seq<Edge>,
    genes: Seq<Gene>,
    order: Seq<usize>,
    project_start: i64,
    calculation_end: i64,
    fins: Seq<Seq<Option<i64>>>,
    ress: Seq<Seq<Vec<Slot>>>,
    outs: Seq<Outcome>,
) -> bool {
    &&& fins.len() == outs.len() + 1
    &&& ress.len() == outs.len() + 1
    &&& outs.len() <= order.len()
    &&& forall|t: int|
        0 <= t < outs.len() ==> #[trigger] step_ok(
            edges,
            genes[order[t] as int],
            project_start,
            calculation_end,
            fins[t],
            ress[t],
            outs[t],
            fins[t + 1],
            ress[t + 1],
        )
}

/// Some placed task is on node `node`.
pub open spec fn placed_node(placed: Seq<PlannedTask>, node: usize) -> bool {
    exists|k: int| 0 <= k < placed.len() && (#[trigger] placed[k]).node == node
}

/// Some issue has code `code` for task `id`.
pub open spec fn issued(issues: Seq<PlanningIssue>, code: IssueCode, id: i32) -> bool {
    exists|k: int| 0 <= k < issues.len() && (#[trigger] issues[k]).code == code && issues[k].task_id == Some(id)
}

/// The outcomes agree with the lists: a placed gene has its task among
/// `placed`, a gene with an issue has that issue, and every placed task is a
/// gene whose outcome is `Placed`.
pub open spec fn outcomes_match(
    genes: Seq<Gene>,
    order: Seq<usize>,
    outs: Seq<Outcome>,
    placed: Seq<PlannedTask>,
    issues: Seq<PlanningIssue>,
) -> bool {
    &&& forall|t: int|
        0 <= t < outs.len() ==> (#[trigger] outs[t] == Outcome::Placed ==> placed_node(placed, genes[order[t] as int].node))
    &&& forall|t: int|
        0 <= t < outs.len() ==> (#[trigger] outs[t] matches Outcome::Issue(c) ==> issued(issues, c, genes[order[t] as int].task_id))
    &&& forall|k: int| 0 <= k < placed.len() ==> #[trigger] placed_from(genes, order, outs, placed[k].node)
}

/// Some gene on node `node` has outcome `Placed`.
pub open spec fn placed_from(genes: Seq<Gene>, order: Seq<usize>, outs: Seq<Outcome>, node: usize) -> bool {
    exists|t: int| 0 <= t < outs.len() && #[trigger] outs[t] == Outcome::Placed && genes[order[t] as int].node == node
}

proof fn lemma_match_push(
    genes: Seq<Gene>,
    order: Seq<usize>,
    outs: Seq<Outcome>,
    placed: Seq<PlannedTask>,
    issues: Seq<PlanningIssue>,
    o: Outcome,
    placed2: Seq<PlannedTask>,
    issues2: Seq<PlanningIssue>,
)
    requires
        outcomes_match(genes, order, outs, placed, issues),
        outs.len() < order.len(),
        o == Outcome::Placed ==> placed2.len() == placed.len() + 1 && placed2.drop_last() == placed
            && placed2.last().node == genes[order[outs.len() as int] as int].node && issues2 == issues,
        o != Outcome::Placed ==> placed2 == placed,
        o matches Outcome::Issue(c) ==> issues2.len() == issues.len() + 1 && issues2.drop_last() == issues
            && issues2.last().code == c && issues2.last().task_id == Some(genes[order[outs.len() as int] as int].task_id),
    ensures
        outcomes_match(genes, order, outs.push(o), placed2, issues2),
{
    let o2 = outs.push(o);
    let t0 = outs.len() as int;
    assert forall|k: int| 0 <= k < placed.len() implies placed2[k] == placed[k] by {
        if o == Outcome::Placed {
            assert(placed2.drop_last()[k] == placed2[k]);
        }
    }
    assert forall|k: int| 0 <= k < issues.len() implies issues2[k] == issues[k] by {
        if o is Issue {
            assert(issues2.drop_last()[k] == issues2[k]);
        }
    }
    assert forall|t: int| 0 <= t < o2.len() implies (#[trigger] o2[t] == Outcome::Placed ==> placed_node(placed2, genes[order[t] as int].node)) by {
        if t < t0 {
            assert(o2[t] == outs[t]);
            if outs[t] == Outcome::Placed {
                assert(placed_node(placed, genes[order[t] as int].node));
                let k = choose|k: int| 0 <= k < placed.len() && (#[trigger] placed[k]).node == genes[order[t] as int].node;
                assert(placed2[k] == placed[k]);
            }
        } else if o == Outcome::Placed {
            assert(placed2[placed2.len() - 1].node == genes[order[t] as int].node);
        }
    }
    assert forall|t: int| 0 <= t < o2.len() implies (#[trigger] o2[t] matches Outcome::Issue(c) ==> issued(issues2, c, genes[order[t] as int].task_id)) by {
        if t < t0 {
            assert(o2[t] == outs[t]);
            if let Outcome::Issue(c) = outs[t] {
                assert(issued(issues, c, genes[order[t] as int].task_id));
                let k = choose|k: int| 0 <= k < issues.len() && (#[trigger] issues[k]).code == c && issues[k].task_id == Some(genes[order[t] as int].task_id);
                assert(issues2[k] == issues[k]);
            }
        } else if let Outcome::Issue(c) = o {
            assert(issues2[issues2.len() - 1] == issues2.last());
        }
    }
    assert forall|k: int| 0 <= k < placed2.len() implies #[trigger] placed_from(genes, order, o2, placed2[k].node) by {
        if k < placed.len() {
            assert(placed2[k] == placed[k]);
            assert(placed_from(genes, order, outs, placed[k].node));
            let t = choose|t: int| 0 <= t < outs.len() && #[trigger] outs[t] == Outcome::Placed && genes[order[t] as int].node == placed[k].node;
            assert(o2[t] == outs[t]);
        } else {
            assert(o2[t0] == o);
            assert(placed2[k] == placed2.last());
        }
    }
}

proof fn lemma_trace_push(
    edges: Seq<Edge>,
    genes: Seq<Gene>,
    order: Seq<usize>,
    ps: i64,
    ce: i64,
    fins: Seq<Seq<Option<i64>>>,
    ress: Seq<Seq<Vec<Slot>>>,
    outs: Seq<Outcome>,
    o: Outcome,
    fin_n: Seq<Option<i64>>,
    res_n: Seq<Vec<Slot>>,
)
    requires
        trace_ok(edges, genes, order, ps, ce, fins, ress, outs),
        outs.len() < order.len(),
        step_ok(edges, genes[order[outs.len() as int] as int], ps, ce, fins.last(), ress.last(), o, fin_n, res_n),
    ensures
        trace_ok(edges, genes, order, ps, ce, fins.push(fin_n), ress.push(res_n), outs.push(o)),
{
    let f2 = fins.push(fin_n);
    let r2 = ress.push(res_n);
    let o2 = outs.push(o);
    assert forall|t: int| 0 <= t < o2.len() implies #[trigger] step_ok(
        edges, genes[order[t] as int], ps, ce, f2[t], r2[t], o2[t], f2[t + 1], r2[t + 1]) by {
        if t < outs.len() {
            assert(f2[t] == fins[t] && f2[t + 1] == fins[t + 1] && r2[t] == ress[t] && r2[t + 1] == ress[t + 1] && o2[t] == outs[t]);
        } else {
            assert(f2[t] == fins.last() && r2[t] == ress.last() && f2[t + 1] == fin_n && r2[t + 1] == res_n && o2[t] == o);
        }
    }
}


/// When the predecessors of `v` finished, in edge order.
pub open spec fn pred_finish(edges: Seq<Edge>, fin: Seq<Option<i64>>, v: usize) -> Seq<Option<i64>>
    decreases edges.len(),
{
    if edges.len() == 0 {
        seq![]
    } else {
        let e = edges.last();
        pred_finish(edges.drop_last(), fin, v) + (if e.1 == v { seq![fin[e.0 as int]] } else { seq![] })
    }
}

fn collect_pred_finish(edges: &Vec<Edge>, fin: &Vec<Option<i64>>, v: usize) -> (r: Vec<Option<i64>>)
    requires
        edges_in(fin@.len() as int, edges@),
    ensures
        r@ == pred_finish(edges@, fin@, v),
{
    let mut r: Vec<Option<i64>> = Vec::new();
    let mut i: usize = 0;
    while i < edges.len()
        invariant
            i <= edges@.len(),
            edges_in(fin@.len() as int, edges@),
            r@ == pred_finish(edges@.subrange(0, i as int), fin@, v),
        decreases edges.len() - i,
    {
        let e = edges[i];
        assert(edges@.subrange(0, i + 1).drop_last() =~= edges@.subrange(0, i as int));
        if e.1 == v {
            r.push(fin[e.0]);
        }
        proof {
            let s = edges@.subrange(0, i + 1);
            assert(s.last() == e);
            if e.1 == v {
                assert(r@ =~= pred_finish(s, fin@, v));
            } else {
                assert(r@ =~= pred_finish(s, fin@, v));
            }
        }
        i += 1;
    }
    assert(edges@.subrange(0, edges@.len() as int) =~= edges@);
    r
}

/// Every predecessor finish in `p` is known and at most `t`.
pub open spec fn all_before(p: Seq<Option<i64>>, t: int) -> bool {
    forall|i: int| 0 <= i < p.len() ==> (#[trigger] p[i]) is Some && p[i].unwrap() <= t
}

proof fn lemma_max_of_bound(p: Seq<Option<i64>>)
    requires
        p.len() > 0,
        forall|i: int| 0 <= i < p.len() ==> (#[trigger] p[i]) is Some,
    ensures
        forall|i: int| 0 <= i < p.len() ==> (#[trigger] p[i]).unwrap() <= crate::placer::max_of(p),
    decreases p.len(),
{
    let q = p.drop_last();
    if q.len() > 0 {
        assert forall|i: int| 0 <= i < q.len() implies (#[trigger] q[i]) is Some by {
            assert(q[i] == p[i]);
        }
        lemma_max_of_bound(q);
    }
    assert forall|i: int| 0 <= i < p.len() implies (#[trigger] p[i]).unwrap() <= crate::placer::max_of(p) by {
        if i < q.len() {
            assert(q[i] == p[i]);
        }
    }
}

/// A task's start is after all its predecessors finished.
proof fn lemma_start_after_preds(p: Seq<Option<i64>>, project_start: i64)
    requires
        task_start_spec(p, project_start) is Some,
    ensures
        all_before(p, task_start_spec(p, project_start).unwrap() as int),
{
    if p.len() > 0 {
        assert forall|i: int| 0 <= i < p.len() implies (#[trigger] p[i]) is Some by {
            if p[i] is None {
                assert(exists|j: int| 0 <= j < p.len() && p[j] is None);
            }
        }
        lemma_max_of_bound(p);
    }
}

/// The finish of every edge into `v` is among `pred_finish`.
proof fn lemma_pred_finish_member(edges: Seq<Edge>, fin: Seq<Option<i64>>, v: usize, e: int)
    requires
        0 <= e < edges.len(),
        edges[e].1 == v,
    ensures
        exists|i: int| 0 <= i < pred_finish(edges, fin, v).len() && pred_finish(edges, fin, v)[i] == fin[edges[e].0 as int],
    decreases edges.len(),
{
    let q = edges.drop_last();
    let tail: Seq<Option<i64>> = if edges.last().1 == v { seq![fin[edges.last().0 as int]] } else { seq![] };
    let pf = pred_finish(edges, fin, v);
    assert(pf == pred_finish(q, fin, v) + tail);
    if e == edges.len() - 1 {
        assert(pf[pred_finish(q, fin, v).len() as int] == fin[edges[e].0 as int]);
    } else {
        assert(q[e] == edges[e]);
        lemma_pred_finish_member(q, fin, v, e);
        let i = choose|i: int| 0 <= i < pred_finish(q, fin, v).len() && pred_finish(q, fin, v)[i] == fin[q[e].0 as int];
        assert(pf[i] == pred_finish(q, fin, v)[i]);
    }
}

/// Inputs of `place_genes`: genes on distinct, unfinished task nodes with valid
/// resource choices.
pub open spec fn genes_ok(genes: Seq<Gene>, fin: Seq<Option<i64>>, res: Seq<Vec<Slot>>) -> bool {
    &&& forall|g: int| 0 <= g < genes.len() ==> (#[trigger] genes[g]).node < fin.len() && fin[genes[g].node as int] is None
        && choice_ok(res, genes[g].required@, genes[g].selectable@)
    &&& forall|a: int, b: int| 0 <= a < b < genes.len() ==> (#[trigger] genes[a]).node != (#[trigger] genes[b]).node
}

/// Two placed tasks use a common resource.
pub open spec fn shares_resource(p: PlannedTask, q: PlannedTask) -> bool {
    exists|x: int, y: int|
        0 <= x < p.assignment.resources@.len() && 0 <= y < q.assignment.resources@.len()
            && p.assignment.resources@[x] == q.assignment.resources@[y]
}

/// Key `k` lies within the time of placed task `p`.
pub open spec fn in_placed(p: PlannedTask, k: int) -> bool {
    span_in(p.assignment.slot.range@, k)
}

/// Every edge into `v` comes from a finished node, finished at or before key `k`.
pub open spec fn preds_done_before(edges: Seq<Edge>, fin: Seq<Option<i64>>, v: usize, k: int) -> bool {
    forall|e: int| 0 <= e < edges.len() && (#[trigger] edges[e]).1 == v ==> fin[edges[e].0 as int] is Some && 2 * fin[edges[e].0 as int].unwrap() <= k
}

/// What holds of a placed task, with finish times `fin` and the slots `res0` from before planning.
pub open spec fn placed_ok(p: PlannedTask, genes: Seq<Gene>, edges: Seq<Edge>, fin: Seq<Option<i64>>, res0: Seq<Vec<Slot>>) -> bool {
    let a = p.assignment;
    &&& exists|g: int| 0 <= g < genes.len() && #[trigger] genes[g].node == p.node && genes[g].task_id == p.task_id
        && crate::interval::total_length(a.slot.intervals@) == genes[g].duration && genes[g].duration > 0
    &&& a.slot.intervals.wf()
    &&& a.slot.intervals@.len() > 0
    &&& a.slot.range@ == (a.slot.intervals@[0].0, a.slot.intervals@.last().1)
    &&& p.node < fin.len()
    &&& fin[p.node as int] is Some && a.slot.range@.1 <= 2 * fin[p.node as int].unwrap()
    &&& fin[p.node as int] == crate::interval::bound_value(a.slot.range.end_spec())
    &&& forall|k: int| #[trigger] covers(a.slot.intervals@, k) ==> preds_done_before(edges, fin, p.node, k)
    &&& forall|j: int| 0 <= j < a.resources@.len() ==> (#[trigger] a.resources@[j]) < res0.len()
    &&& forall|j: int, k: int|
        0 <= j < a.resources@.len() && covers(a.slot.intervals@, k) ==> #[trigger] available(
            res0[a.resources@[j] as int]@,
            k,
        )
}

/// The issues a single task can get while planning.
pub open spec fn task_issue_code(c: IssueCode) -> bool {
    c == IssueCode::PredIssue || c == IssueCode::NoEffort || c == IssueCode::NoSlotFound
}

/// An issue belongs to a gene of `genes` with its task id; a `NoEffort` comes only
/// for a duration of zero or less, a `NoSlotFound` only for a positive one.
pub open spec fn issue_of_gene(i: PlanningIssue, genes: Seq<Gene>) -> bool {
    exists|g: int|
        0 <= g < genes.len() && i.task_id == Some((#[trigger] genes[g]).task_id) && (i.code == IssueCode::NoEffort
            ==> genes[g].duration <= 0) && (i.code == IssueCode::NoSlotFound ==> genes[g].duration > 0)
}

/// `order` lists distinct positions of `n` genes.
pub open spec fn order_ok(order: Seq<usize>, n: int) -> bool {
    &&& forall|i: int| 0 <= i < order.len() ==> (#[trigger] order[i]) < n
    &&& forall|a: int, b: int| 0 <= a < b < order.len() ==> (#[trigger] order[a]) != (#[trigger] order[b])
}

/// The genes at the positions `order`.
pub open spec fn in_order(genes: Seq<Gene>, order: Seq<usize>) -> Seq<Gene> {
    Seq::new(order.len(), |i: int| genes[order[i] as int])
}

/// Places the genes at positions `order`, in that order, on the slots `res`, recording finish
/// times in `fin`. A task with an unfinished predecessor gets a `PredIssue`, one
/// without work a `NoEffort`, one that does not fit a `NoSlotFound`; the others
/// are placed on free time of their resources after all their predecessors
/// finished, and no two placed tasks share time on a resource.
#[verifier::loop_isolation(false)]
pub fn place_genes(
    edges: &Vec<Edge>,
    genes: &Vec<Gene>,
    order: &Vec<usize>,
    fin: &mut Vec<Option<i64>>,
    project_start: i64,
    calculation_end: i64,
    res: &mut Vec<Vec<Slot>>,
) -> (r: (Vec<PlannedTask>, Vec<PlanningIssue>, Vec<Outcome>))
    requires
        edges_in(old(fin)@.len() as int, edges@),
        all_slots_wf(old(res)@),
        genes_ok(genes@, old(fin)@, old(res)@),
        order_ok(order@, genes@.len() as int),
    ensures
        all_slots_wf(final(res)@),
        final(fin)@.len() == old(fin)@.len(),
        r.0@.len() + r.1@.len() == order@.len(),
        r.2@.len() == order@.len(),
        exists|fins: Seq<Seq<Option<i64>>>, ress: Seq<Seq<Vec<Slot>>>|
            #[trigger] trace_ok(edges@, genes@, order@, project_start, calculation_end, fins, ress, r.2@) && fins[0] == old(fin)@
                && ress[0] == old(res)@,
        outcomes_match(genes@, order@, r.2@, r.0@, r.1@),
        forall|x: int| 0 <= x < old(fin)@.len() && old(fin)@[x] is Some ==> #[trigger] final(fin)@[x] == old(fin)@[x],
        forall|i: int| 0 <= i < r.1@.len() ==> issue_of_gene(#[trigger] r.1@[i], genes@),
        forall|i: int| 0 <= i < r.1@.len() ==> task_issue_code((#[trigger] r.1@[i]).code) && r.1@[i].task_id is Some,
        forall|i: int| 0 <= i < r.0@.len() ==> placed_ok(#[trigger] r.0@[i], genes@, edges@, final(fin)@, old(res)@),
        forall|i: int, j: int, k: int|
            0 <= i < j < r.0@.len() && shares_resource(r.0@[i], r.0@[j]) && #[trigger] in_placed(r.0@[i], k)
                ==> !#[trigger] covers(r.0@[j].assignment.slot.intervals@, k),
{
    let ghost fin0 = fin@;
    let ghost res0 = res@;
    let ghost og = in_order(genes@, order@);
    let nres = res.len();
    proof {
        assert forall|a: int, b: int| 0 <= a < b < og.len() implies (#[trigger] og[a]).node != (#[trigger] og[b]).node by {
            if order@[a] < order@[b] {
                assert(genes@[order@[a] as int].node != genes@[order@[b] as int].node);
            } else {
                assert(genes@[order@[b] as int].node != genes@[order@[a] as int].node);
            }
        }
        assert forall|h: int| 0 <= h < og.len() implies (#[trigger] og[h]).node < fin0.len() && fin0[og[h].node as int] is None
            && choice_ok(res0, og[h].required@, og[h].selectable@) by {
            assert(og[h] == genes@[order@[h] as int]);
        }
    }
    let mut placed: Vec<PlannedTask> = Vec::new();
    let mut issues: Vec<PlanningIssue> = Vec::new();
    let mut outs: Vec<Outcome> = Vec::new();
    let ghost mut fins: Seq<Seq<Option<i64>>> = seq![fin0];
    let ghost mut ress: Seq<Seq<Vec<Slot>>> = seq![res0];
    let mut g: usize = 0;
    while g < order.len()
        invariant
            g <= og.len(),
            outs@.len() == g,
            trace_ok(edges@, genes@, order@, project_start, calculation_end, fins, ress, outs@),
            fins[0] == fin0,
            ress[0] == res0,
            fins.last() == fin@,
            ress.last() == res@,
            outcomes_match(genes@, order@, outs@, placed@, issues@),
            order_ok(order@, genes@.len() as int),
            og.len() == order@.len(),
            og == in_order(genes@, order@),
            placed@.len() + issues@.len() == g,
            forall|i: int| 0 <= i < issues@.len() ==> task_issue_code((#[trigger] issues@[i]).code) && issues@[i].task_id is Some,
            forall|i: int| 0 <= i < issues@.len() ==> issue_of_gene(#[trigger] issues@[i], og),
            fin@.len() == fin0.len(),
            res@.len() == res0.len(),
            all_slots_wf(res@),
            edges_in(fin0.len() as int, edges@),
            genes_ok(og, fin0, res0),
            forall|i: int, k: int| 0 <= i < res0.len() && #[trigger] available(res@[i]@, k) ==> available(res0[i]@, k),
            forall|h: int| g <= h < og.len() ==> fin@[(#[trigger] og[h]).node as int] is None,
            forall|x: int| 0 <= x < fin0.len() && fin0[x] is Some ==> #[trigger] fin@[x] == fin0[x],
            forall|i: int| 0 <= i < placed@.len() ==> placed_ok(#[trigger] placed@[i], og, edges@, fin@, res0),
            forall|i: int, x: int, k: int|
                0 <= i < placed@.len() && 0 <= x < placed@[i].assignment.resources@.len() && #[trigger] in_placed(placed@[i], k)
                    ==> !#[trigger] available(res@[placed@[i].assignment.resources@[x] as int]@, k),
            forall|i: int, j: int, k: int|
            0 <= i < j < placed@.len() && shares_resource(placed@[i], placed@[j]) && #[trigger] in_placed(placed@[i], k)
                ==> !#[trigger] covers(placed@[j].assignment.slot.intervals@, k),
        decreases order.len() - g,
    {
        let gene = &genes[order[g]];
        let ghost iss0 = issues@;
        let ghost pl0 = placed@;
        let ghost fin_t = fin@;
        let ghost res_t = res@;
        let mut o = Outcome::Placed;
        assert(*gene == og[g as int]);
        let v = gene.node;
        let preds = collect_pred_finish(edges, fin, v);
        match task_start(&preds, project_start) {
            None => {
                o = Outcome::Issue(IssueCode::PredIssue);
                issues.push(PlanningIssue {
                    code: IssueCode::PredIssue,
                    description: "Failed to determine start timestamp - might be an issue in a predecessor.".to_string(),
                    task_id: Some(gene.task_id),
                });
            },
            Some(start) => {
                if gene.duration <= 0 {
                    o = Outcome::Issue(IssueCode::NoEffort);
                    issues.push(PlanningIssue {
                        code: IssueCode::NoEffort,
                        description: "Task has no effort.".to_string(),
                        task_id: Some(gene.task_id),
                    });
                } else {
                    let ghost res_before = res@;
                    let ghost fin_before = fin@;
                    match plan_task(start, calculation_end, gene.duration as u64, &gene.required, &gene.selectable, res) {
                        Ok(a) => {
                            proof {
                                assert(a.slot.range@.1 <= 2 * calculation_end - 1) by {
                                    let l = a.slot.intervals@.len() - 1;
                                    assert(crate::interval::span_in(a.slot.intervals@[l], a.slot.intervals@[l].1)) by {
                                        assert(a.slot.intervals.wf());
                                    }
                                    assert(covers(a.slot.intervals@, a.slot.intervals@[l].1));
                                }
                                a.slot.range.lemma_bounds();
                            }
                            let end = match a.slot.range.end() {
                                Bound::Open(t) => t,
                                Bound::Closed(t) => t,
                                Bound::Unbounded() => calculation_end,
                            };
                            assert(Some(end) == crate::interval::bound_value(a.slot.range.end_spec()));
                            fin[v] = Some(end);
                            let p = PlannedTask { task_id: gene.task_id, node: v, assignment: a };
                            proof {
                                lemma_start_after_preds(preds@, project_start);
                                lemma_place_step(
                                    edges@, og, g as int, fin_before, fin@, res0, res_before, res@,
                                    placed@, p, start, project_start, preds@,
                                );
                            }
                            placed.push(p);
                        },
                        Err(_) => {
                            o = Outcome::Issue(IssueCode::NoSlotFound);
                            issues.push(PlanningIssue {
                                code: IssueCode::NoSlotFound,
                                description: "Failed to find overlapping slots for the given resource constraints.".to_string(),
                                task_id: Some(gene.task_id),
                            });
                        },
                    }
                }
            },
        }
        proof {
            assert forall|i: int| 0 <= i < issues@.len() implies issue_of_gene(#[trigger] issues@[i], og) by {
                if i < iss0.len() {
                    assert(issues@[i] == iss0[i]);
                } else {
                    assert(og[g as int].task_id == gene.task_id);
                    assert(og[g as int].duration == gene.duration);
                }
            }
            assert(genes@[order@[g as int] as int] == *gene);
            assert(preds@ == pred_finish(edges@, fin_t, gene.node));
            assert(step_ok(edges@, genes@[order@[g as int] as int], project_start, calculation_end, fin_t, res_t, o, fin@, res@));
            lemma_trace_push(edges@, genes@, order@, project_start, calculation_end, fins, ress, outs@, o, fin@, res@);
            if o == Outcome::Placed {
                assert(placed@.drop_last() =~= pl0);
                assert(placed@.last().node == gene.node);
                assert(issues@ == iss0);
            } else {
                assert(placed@ == pl0);
                assert(issues@.drop_last() =~= iss0);
            }
            lemma_match_push(genes@, order@, outs@, pl0, iss0, o, placed@, issues@);
        }
        outs.push(o);
        proof {
            fins = fins.push(fin@);
            ress = ress.push(res@);
        }
        g += 1;
    }
    proof {
        assert forall|i: int| 0 <= i < issues@.len() implies issue_of_gene(#[trigger] issues@[i], genes@) by {
            assert(issue_of_gene(issues@[i], og));
            let x = choose|x: int|
                0 <= x < og.len() && issues@[i].task_id == Some((#[trigger] og[x]).task_id) && (issues@[i].code == IssueCode::NoEffort
                    ==> og[x].duration <= 0) && (issues@[i].code == IssueCode::NoSlotFound ==> og[x].duration > 0);
            assert(genes@[order@[x] as int] == og[x]);
        }
        assert forall|i: int| 0 <= i < placed@.len() implies placed_ok(#[trigger] placed@[i], genes@, edges@, fin@, res0) by {
            let q = placed@[i];
            assert(placed_ok(q, og, edges@, fin@, res0));
            let gq = choose|gq: int| 0 <= gq < og.len() && #[trigger] og[gq].node == q.node && og[gq].task_id == q.task_id
                && crate::interval::total_length(q.assignment.slot.intervals@) == og[gq].duration;
            assert(genes@[order@[gq] as int] == og[gq]);
        }
    }
    (placed, issues, outs)
}

/// One more task placed keeps what `place_genes` maintains.
#[verifier::rlimit(80)]
proof fn lemma_place_step(
    edges: Seq<Edge>,
    genes: Seq<Gene>,
    g: int,
    fin_before: Seq<Option<i64>>,
    fin_after: Seq<Option<i64>>,
    res0: Seq<Vec<Slot>>,
    res_before: Seq<Vec<Slot>>,
    res_after: Seq<Vec<Slot>>,
    placed: Seq<PlannedTask>,
    p: PlannedTask,
    start: i64,
    project_start: i64,
    preds: Seq<Option<i64>>,
)
    requires
        0 <= g < genes.len(),
        edges_in(fin_before.len() as int, edges),
        forall|a: int, b: int| 0 <= a < b < genes.len() ==> (#[trigger] genes[a]).node != (#[trigger] genes[b]).node,
        p.node == genes[g].node,
        p.task_id == genes[g].task_id,
        genes[g].duration > 0,
        p.node < fin_before.len(),
        fin_before[p.node as int] is None,
        forall|h: int| g <= h < genes.len() ==> fin_before[(#[trigger] genes[h]).node as int] is None,
        fin_after.len() == fin_before.len(),
        fin_after == fin_before.update(p.node as int, fin_after[p.node as int]),
        fin_after[p.node as int] is Some && p.assignment.slot.range@.1 <= 2 * fin_after[p.node as int].unwrap(),
        fin_after[p.node as int] == crate::interval::bound_value(p.assignment.slot.range.end_spec()),
        preds == pred_finish(edges, fin_before, p.node),
        task_start_spec(preds, project_start) == Some(start),
        all_before(preds, start as int),
        res_before.len() == res0.len(),
        res_after.len() == res0.len(),
        forall|i: int, k: int| 0 <= i < res0.len() && #[trigger] available(res_before[i]@, k) ==> available(res0[i]@, k),
        forall|i: int| 0 <= i < placed.len() ==> placed_ok(#[trigger] placed[i], genes, edges, fin_before, res0),
        forall|i: int, x: int, k: int|
            0 <= i < placed.len() && 0 <= x < placed[i].assignment.resources@.len() && #[trigger] in_placed(placed[i], k)
                ==> !#[trigger] available(res_before[placed[i].assignment.resources@[x] as int]@, k),
        forall|i: int, j: int, k: int|
            0 <= i < j < placed.len() && shares_resource(placed[i], placed[j]) && #[trigger] in_placed(placed[i], k)
                ==> !#[trigger] covers(placed[j].assignment.slot.intervals@, k),
        // what placing the task established
        ({
            let a = p.assignment;
            &&& a.slot.intervals.wf()
            &&& crate::interval::total_length(a.slot.intervals@) == genes[g].duration
            &&& a.slot.range@ == (a.slot.intervals@[0].0, a.slot.intervals@.last().1)
            &&& a.slot.intervals@.len() > 0
            &&& forall|k: int| #[trigger] covers(a.slot.intervals@, k) ==> 2 * start <= k
            &&& forall|i: int| 0 <= i < a.resources@.len() ==> (#[trigger] a.resources@[i]) < res0.len()
            &&& forall|i: int, k: int|
                0 <= i < a.resources@.len() && covers(a.slot.intervals@, k) ==> #[trigger] available(
                    res_before[a.resources@[i] as int]@,
                    k,
                )
            &&& forall|i: int, k: int|
                0 <= i < res0.len() && a.resources@.contains(i as usize) ==> (#[trigger] available(
                    res_after[i]@,
                    k,
                ) <==> available(res_before[i]@, k) && !span_in(a.slot.range@, k))
            &&& forall|i: int|
                0 <= i < res0.len() && !a.resources@.contains(i as usize) ==> #[trigger] res_after[i]
                    == res_before[i]
        }),
        res0.len() <= usize::MAX,
    ensures
        forall|i: int, k: int| 0 <= i < res0.len() && #[trigger] available(res_after[i]@, k) ==> available(res0[i]@, k),
        forall|i: int| 0 <= i < placed.push(p).len() ==> placed_ok(#[trigger] placed.push(p)[i], genes, edges, fin_after, res0),
        forall|i: int, x: int, k: int|
            0 <= i < placed.push(p).len() && 0 <= x < placed.push(p)[i].assignment.resources@.len() && #[trigger] in_placed(placed.push(p)[i], k)
                ==> !#[trigger] available(res_after[placed.push(p)[i].assignment.resources@[x] as int]@, k),
        forall|i: int, j: int, k: int|
            0 <= i < j < placed.push(p).len() && shares_resource(placed.push(p)[i], placed.push(p)[j]) && #[trigger] in_placed(placed.push(p)[i], k)
                ==> !#[trigger] covers(placed.push(p)[j].assignment.slot.intervals@, k),
{
    let a = p.assignment;
    let v = p.node;
    let np = placed.push(p);
    // availability only shrinks
    assert forall|i: int, k: int| 0 <= i < res0.len() && #[trigger] available(res_after[i]@, k) implies available(res0[i]@, k) by {
        if a.resources@.contains(i as usize) {
            assert(available(res_after[i]@, k) <==> available(res_before[i]@, k) && !span_in(a.slot.range@, k));
        } else {
            assert(res_after[i] == res_before[i]);
        }
    }
    // the new task
    assert(placed_ok(p, genes, edges, fin_after, res0)) by {
        assert(genes[g].node == p.node);
        assert forall|k: int| #[trigger] covers(a.slot.intervals@, k) implies preds_done_before(edges, fin_after, v, k) by {
            assert forall|e: int| 0 <= e < edges.len() && (#[trigger] edges[e]).1 == v implies
                fin_after[edges[e].0 as int] is Some && 2 * fin_after[edges[e].0 as int].unwrap() <= k by {
                lemma_pred_finish_member(edges, fin_before, v, e);
                let i = choose|i: int| 0 <= i < preds.len() && preds[i] == fin_before[edges[e].0 as int];
                assert(preds[i] is Some && preds[i].unwrap() <= start);
                assert(edges[e].0 < fin_before.len());
                if edges[e].0 == v {
                    assert(fin_before[v as int] is None);
                } else {
                    assert(fin_after[edges[e].0 as int] == fin_before[edges[e].0 as int]);
                }
                assert(2 * start <= k);
            }
        }
        assert forall|j: int, k: int|
            0 <= j < a.resources@.len() && covers(a.slot.intervals@, k) implies #[trigger] available(
                res0[a.resources@[j] as int]@,
                k,
            ) by {
            assert(available(res_before[a.resources@[j] as int]@, k));
        }
    }
    // earlier tasks keep their properties
    assert forall|i: int| 0 <= i < placed.len() implies placed_ok(#[trigger] placed[i], genes, edges, fin_after, res0) by {
        let q = placed[i];
        assert(placed_ok(q, genes, edges, fin_before, res0));
        let gq = choose|gq: int| 0 <= gq < genes.len() && #[trigger] genes[gq].node == q.node && genes[gq].task_id == q.task_id
            && crate::interval::total_length(q.assignment.slot.intervals@) == genes[gq].duration;
        if gq >= g {
            assert(fin_before[genes[gq].node as int] is None);
        }
        assert(q.node != v);
        assert(fin_after[q.node as int] == fin_before[q.node as int]);
        assert forall|k: int| #[trigger] covers(q.assignment.slot.intervals@, k) implies preds_done_before(edges, fin_after, q.node, k) by {
            assert(preds_done_before(edges, fin_before, q.node, k));
            assert forall|e: int| 0 <= e < edges.len() && (#[trigger] edges[e]).1 == q.node implies
                fin_after[edges[e].0 as int] is Some && 2 * fin_after[edges[e].0 as int].unwrap() <= k by {
                assert(fin_before[edges[e].0 as int] is Some);
                assert(edges[e].0 < fin_before.len());
                if edges[e].0 == v {
                    assert(false);
                } else {
                    assert(fin_after[edges[e].0 as int] == fin_before[edges[e].0 as int]);
                }
            }
        }
    }
    assert forall|i: int| 0 <= i < np.len() implies placed_ok(#[trigger] np[i], genes, edges, fin_after, res0) by {
        if i < placed.len() {
            assert(np[i] == placed[i]);
        } else {
            assert(np[i] == p);
        }
    }
    // taken time is no longer free
    assert forall|i: int, x: int, k: int|
        0 <= i < np.len() && 0 <= x < np[i].assignment.resources@.len() && #[trigger] in_placed(np[i], k)
            implies !#[trigger] available(res_after[np[i].assignment.resources@[x] as int]@, k) by {
        let r = np[i].assignment.resources@[x];
        if i < placed.len() {
            assert(np[i] == placed[i]);
            assert(placed_ok(placed[i], genes, edges, fin_before, res0));
            assert(!available(res_before[r as int]@, k));
            if a.resources@.contains(r) {
                assert(available(res_after[r as int]@, k) <==> available(res_before[r as int]@, k) && !span_in(a.slot.range@, k));
            } else {
                assert(res_after[r as int] == res_before[r as int]);
            }
        } else {
            assert(np[i] == p);
            assert(a.resources@.contains(r));
            assert(available(res_after[r as int]@, k) <==> available(res_before[r as int]@, k) && !span_in(a.slot.range@, k));
        }
    }
    // no two tasks share time on a resource
    assert forall|i: int, j: int, k: int|
            0 <= i < j < np.len() && shares_resource(np[i], np[j]) && #[trigger] in_placed(np[i], k)
                implies !#[trigger] covers(np[j].assignment.slot.intervals@, k) by {
        assert(np[i] == placed[i]);
        if j < placed.len() {
            assert(np[j] == placed[j]);
        } else {
            assert(np[j] == p);
            let (x, y) = choose|x: int, y: int|
                0 <= x < np[i].assignment.resources@.len() && 0 <= y < np[j].assignment.resources@.len()
                    && np[i].assignment.resources@[x] == np[j].assignment.resources@[y];
            let r = np[i].assignment.resources@[x];
            assert(!available(res_before[r as int]@, k));
            if covers(a.slot.intervals@, k) {
                assert(available(res_before[a.resources@[y] as int]@, k));
            }
        }
    }
}

/// Orders the genes so that, where dependencies among them allow, each comes
/// after its predecessors, keeping their given order otherwise: repeatedly the
/// first gene whose predecessors among the genes are all ordered is taken; if
/// none is left (a cycle), the rest follow as they are.
pub fn dependency_order(edges: &Vec<Edge>, genes: &Vec<Gene>) -> (r: Vec<usize>)
    ensures
        order_ok(r@, genes@.len() as int),
        r@.len() == genes@.len(),
{
    let m = genes.len();
    // predecessors among the genes, per gene
    let mut indeg: Vec<usize> = Vec::new();
    let mut j: usize = 0;
    while j < m
        invariant
            j <= m,
            m == genes@.len(),
            indeg@.len() == j,
        decreases m - j,
    {
        let mut c: usize = 0;
        let mut i: usize = 0;
        while i < edges.len()
            invariant
                i <= edges@.len(),
                c <= i,
                j < m,
                m == genes@.len(),
            decreases edges.len() - i,
        {
            let e = edges[i];
            if e.1 == genes[j].node {
                let mut x: usize = 0;
                let mut selected = false;
                while x < m
                    invariant
                        x <= m,
                        m == genes@.len(),
                    decreases m - x,
                {
                    if genes[x].node == e.0 {
                        selected = true;
                    }
                    x += 1;
                }
                if selected {
                    c += 1;
                }
            }
            i += 1;
        }
        indeg.push(c);
        j += 1;
    }
    let mut remaining: Vec<usize> = Vec::new();
    let mut j: usize = 0;
    while j < m
        invariant
            j <= m,
            remaining@ == Seq::new(j as nat, |i: int| i as usize),
        decreases m - j,
    {
        remaining.push(j);
        j += 1;
        assert(remaining@ =~= Seq::new(j as nat, |i: int| i as usize));
    }
    let mut order: Vec<usize> = Vec::new();
    while remaining.len() > 0
        invariant
            m == genes@.len(),
            indeg@.len() == m,
            order@.len() + remaining@.len() == m,
            forall|i: int| 0 <= i < order@.len() ==> (#[trigger] order@[i]) < m,
            forall|i: int| 0 <= i < remaining@.len() ==> (#[trigger] remaining@[i]) < m,
            forall|a: int, b: int| 0 <= a < b < order@.len() ==> (#[trigger] order@[a]) != (#[trigger] order@[b]),
            forall|a: int, b: int| 0 <= a < b < remaining@.len() ==> (#[trigger] remaining@[a]) != (#[trigger] remaining@[b]),
            forall|a: int, b: int| 0 <= a < order@.len() && 0 <= b < remaining@.len() ==> (#[trigger] order@[a]) != (#[trigger] remaining@[b]),
        decreases remaining.len(),
    {
        let mut pos: usize = 0;
        while pos < remaining.len() && indeg[remaining[pos]] != 0
            invariant
                pos <= remaining@.len(),
                indeg@.len() == m,
                forall|i: int| 0 <= i < remaining@.len() ==> (#[trigger] remaining@[i]) < m,
            decreases remaining.len() - pos,
        {
            pos += 1;
        }
        if pos == remaining.len() {
            // no gene is ready: keep the rest as it is
            let ghost o = order@;
            let ghost rest = remaining@;
            let mut k: usize = 0;
            while k < remaining.len()
                invariant
                    k <= rest.len(),
                    rest == remaining@,
                    order@ == o + rest.subrange(0, k as int),
                decreases remaining.len() - k,
            {
                order.push(remaining[k]);
                k += 1;
                assert(order@ =~= o + rest.subrange(0, k as int));
            }
            proof {
                assert(rest.subrange(0, rest.len() as int) =~= rest);
                assert forall|a: int, b: int| 0 <= a < b < order@.len() implies (#[trigger] order@[a]) != (#[trigger] order@[b]) by {
                    if b < o.len() {
                    } else if a < o.len() {
                        assert(order@[b] == rest[b - o.len()]);
                    } else {
                        assert(order@[a] == rest[a - o.len()]);
                        assert(order@[b] == rest[b - o.len()]);
                    }
                }
                assert forall|i: int| 0 <= i < order@.len() implies (#[trigger] order@[i]) < m by {
                    if i >= o.len() {
                        assert(order@[i] == rest[i - o.len()]);
                    }
                }
            }
            return order;
        }
        let ghost o = order@;
        let ghost rest = remaining@;
        let x = remaining.remove(pos);
        order.push(x);
        proof {
            assert forall|a: int, b: int| 0 <= a < b < order@.len() implies (#[trigger] order@[a]) != (#[trigger] order@[b]) by {
                if b == o.len() {
                    assert(order@[a] == o[a]);
                    assert(o[a] != rest[pos as int]);
                }
            }
            assert forall|a: int, b: int| 0 <= a < b < remaining@.len() implies (#[trigger] remaining@[a]) != (#[trigger] remaining@[b]) by {
                let a2 = if a < pos { a } else { a + 1 };
                let b2 = if b < pos { b } else { b + 1 };
                assert(remaining@[a] == rest[a2]);
                assert(remaining@[b] == rest[b2]);
            }
            assert forall|a: int, b: int| 0 <= a < order@.len() && 0 <= b < remaining@.len() implies (#[trigger] order@[a]) != (#[trigger] remaining@[b]) by {
                let b2 = if b < pos { b } else { b + 1 };
                assert(remaining@[b] == rest[b2]);
                if a < o.len() {
                    assert(order@[a] == o[a]);
                } else {
                    assert(order@[a] == rest[pos as int]);
                }
            }
            assert forall|i: int| 0 <= i < remaining@.len() implies (#[trigger] remaining@[i]) < m by {
                let i2 = if i < pos { i } else { i + 1 };
                assert(remaining@[i] == rest[i2]);
            }
        }
        // one predecessor fewer for each successor among the genes
        let xn = genes[x].node;
        let mut i: usize = 0;
        while i < edges.len()
            invariant
                i <= edges@.len(),
                indeg@.len() == m,
                m == genes@.len(),
            decreases edges.len() - i,
        {
            let e = edges[i];
            if e.0 == xn {
                let mut y: usize = 0;
                while y < m
                    invariant
                        y <= m,
                        indeg@.len() == m,
                        m == genes@.len(),
                    decreases m - y,
                {
                    if genes[y].node == e.1 && indeg[y] > 0 {
                        indeg[y] = indeg[y] - 1;
                    }
                    y += 1;
                }
            }
            i += 1;
        }
    }
    order
}

/// When the task predecessors of `v` finished, in edge order.
pub open spec fn task_pred_finish(nodes: Seq<Node>, edges: Seq<Edge>, fin: Seq<Option<i64>>, v: usize) -> Seq<Option<i64>>
    decreases edges.len(),
{
    if edges.len() == 0 {
        seq![]
    } else {
        let e = edges.last();
        task_pred_finish(nodes, edges.drop_last(), fin, v) + (if e.1 == v && nodes[e.0 as int] is Task { seq![fin[e.0 as int]] } else { seq![] })
    }
}

/// A milestone is fulfilled when it has task predecessors and all of them
/// finished; it is fulfilled when the last one finished.
pub open spec fn milestone_date(nodes: Seq<Node>, edges: Seq<Edge>, fin: Seq<Option<i64>>, v: usize) -> Option<i64> {
    let p = task_pred_finish(nodes, edges, fin, v);
    if p.len() == 0 { None } else { task_start_spec(p, 0) }
}

/// The fulfilled milestones among the first `upto` nodes, in node order.
pub open spec fn fulfilled_spec(nodes: Seq<Node>, edges: Seq<Edge>, fin: Seq<Option<i64>>, upto: int) -> Seq<FulfilledMilestone>
    decreases upto,
{
    if upto <= 0 {
        seq![]
    } else {
        let v = upto - 1;
        fulfilled_spec(nodes, edges, fin, v) + match nodes[v] {
            Node::Milestone(id) => match milestone_date(nodes, edges, fin, v as usize) {
                Some(d) => seq![FulfilledMilestone { milestone_id: id, date: d }],
                None => seq![],
            },
            _ => seq![],
        }
    }
}

/// The milestones whose task predecessors all finished, with the latest finish.
pub fn fulfilled_milestones(nodes: &Vec<Node>, edges: &Vec<Edge>, fin: &Vec<Option<i64>>) -> (r: Vec<FulfilledMilestone>)
    requires
        edges_in(nodes@.len() as int, edges@),
        fin@.len() == nodes@.len(),
    ensures
        r@ == fulfilled_spec(nodes@, edges@, fin@, nodes@.len() as int),
{
    let mut r: Vec<FulfilledMilestone> = Vec::new();
    let mut v: usize = 0;
    while v < nodes.len()
        invariant
            v <= nodes@.len(),
            edges_in(nodes@.len() as int, edges@),
            fin@.len() == nodes@.len(),
            r@ == fulfilled_spec(nodes@, edges@, fin@, v as int),
        decreases nodes.len() - v,
    {
        match nodes[v] {
            Node::Milestone(id) => {
                let mut p: Vec<Option<i64>> = Vec::new();
                let mut i: usize = 0;
                while i < edges.len()
                    invariant
                        i <= edges@.len(),
                        v < nodes@.len(),
                        edges_in(nodes@.len() as int, edges@),
                        fin@.len() == nodes@.len(),
                        p@ == task_pred_finish(nodes@, edges@.subrange(0, i as int), fin@, v),
                    decreases edges.len() - i,
                {
                    let e = edges[i];
                    assert(edges@.subrange(0, i + 1).drop_last() =~= edges@.subrange(0, i as int));
                    assert(edges@.subrange(0, i + 1).last() == e);
                    let is_task = match nodes[e.0] {
                        Node::Task(_) => true,
                        _ => false,
                    };
                    if e.1 == v && is_task {
                        p.push(fin[e.0]);
                    }
                    assert(p@ =~= task_pred_finish(nodes@, edges@.subrange(0, i + 1), fin@, v));
                    i += 1;
                }
                assert(edges@.subrange(0, edges@.len() as int) =~= edges@);
                if p.len() > 0 {
                    match task_start(&p, 0) {
                        Some(d) => {
                            r.push(FulfilledMilestone { milestone_id: id, date: d });
                        },
                        None => {},
                    }
                }
            },
            _ => {},
        }
        assert(r@ =~= fulfilled_spec(nodes@, edges@, fin@, v + 1));
        v += 1;
    }
    r
}

/// Plans an individual: its genes in dependency order, each placed on the slots
/// `res` (a snapshot this call consumes) from the finish times `fin` on (set for
/// requirements and finished tasks), then the fulfilled milestones.
pub fn plan_individual(
    nodes: &Vec<Node>,
    edges: &Vec<Edge>,
    genes: &Vec<Gene>,
    fin: Vec<Option<i64>>,
    project_start: i64,
    calculation_end: i64,
    res: Vec<Vec<Slot>>,
) -> (r: Plan)
    requires
        fin@.len() == nodes@.len(),
        edges_in(nodes@.len() as int, edges@),
        all_slots_wf(res@),
        genes_ok(genes@, fin@, res@),
    ensures
        r.assignments@.len() + r.issues@.len() == genes@.len(),
        order_ok(r.order@, genes@.len() as int),
        r.order@.len() == genes@.len(),
        r.outcomes@.len() == genes@.len(),
        exists|fins: Seq<Seq<Option<i64>>>, ress: Seq<Seq<Vec<Slot>>>|
            #[trigger] trace_ok(edges@, genes@, r.order@, project_start, calculation_end, fins, ress, r.outcomes@) && fins[0] == fin@
                && ress[0] == res@,
        outcomes_match(genes@, r.order@, r.outcomes@, r.assignments@, r.issues@),
        forall|i: int| 0 <= i < r.issues@.len() ==> task_issue_code((#[trigger] r.issues@[i]).code) && r.issues@[i].task_id is Some,
        forall|i: int| 0 <= i < r.issues@.len() ==> issue_of_gene(#[trigger] r.issues@[i], genes@),
        exists|f: Seq<Option<i64>>| {
            &&& f.len() == fin@.len()
            &&& forall|x: int| 0 <= x < fin@.len() && fin@[x] is Some ==> #[trigger] f[x] == fin@[x]
            &&& forall|i: int| 0 <= i < r.assignments@.len() ==> placed_ok(#[trigger] r.assignments@[i], genes@, edges@, f, res@)
            &&& r.fulfilled_milestones@ == fulfilled_spec(nodes@, edges@, f, nodes@.len() as int)
        },
        forall|i: int, j: int, k: int|
            0 <= i < j < r.assignments@.len() && shares_resource(r.assignments@[i], r.assignments@[j])
                && #[trigger] in_placed(r.assignments@[i], k) ==> !#[trigger] covers(
                r.assignments@[j].assignment.slot.intervals@,
                k,
            ),
{
    let order = dependency_order(edges, genes);
    let ghost fin_in = fin@;
    let mut fin = fin;
    let mut res = res;
    let ghost res0 = res@;
    let ghost res_in = res@;
    let (assignments, issues, outcomes) = place_genes(edges, genes, &order, &mut fin, project_start, calculation_end, &mut res);
    let fulfilled = fulfilled_milestones(nodes, edges, &fin);
    proof {
        let (f0, r0) = choose|fins: Seq<Seq<Option<i64>>>, ress: Seq<Seq<Vec<Slot>>>|
            #[trigger] trace_ok(edges@, genes@, order@, project_start, calculation_end, fins, ress, outcomes@) && fins[0] == fin_in
                && ress[0] == res_in;
        let w = (f0, r0);
        assert(trace_ok(edges@, genes@, order@, project_start, calculation_end, w.0, w.1, outcomes@) && w.0[0] == fin_in && w.1[0] == res_in);
    }
    let ghost pair = choose|p: (Seq<Seq<Option<i64>>>, Seq<Seq<Vec<Slot>>>)|
        #[trigger] trace_ok(edges@, genes@, order@, project_start, calculation_end, p.0, p.1, outcomes@) && p.0[0] == fin_in
            && p.1[0] == res_in;
    let ghost fins = pair.0;
    let ghost ress = pair.1;
    let r = Plan { assignments, fulfilled_milestones: fulfilled, issues, order, outcomes };
    assert(trace_ok(edges@, genes@, r.order@, project_start, calculation_end, fins, ress, r.outcomes@) && fins[0] == fin_in
        && ress[0] == res_in);
    r
}

/// A row to store: a task's allocation from `start` to `end` on `resources`.
#[derive(Clone, Debug)]
pub struct AllocationRow {
    pub task_id: i32,
    pub start: Option<i64>,
    pub end: Option<i64>,
    pub resources: Vec<usize>,
}

fn copy_positions(v: &Vec<usize>) -> (r: Vec<usize>)
    ensures
        r@ == v@,
{
    let mut r: Vec<usize> = Vec::new();
    let mut i: usize = 0;
    while i < v.len()
        invariant
            i <= v@.len(),
            r@ == v@.subrange(0, i as int),
        decreases v.len() - i,
    {
        r.push(v[i]);
        i += 1;
        assert(r@ =~= v@.subrange(0, i as int));
    }
    assert(v@.subrange(0, v@.len() as int) =~= v@);
    r
}

/// The rows that store a plan: one per placed task over the span of its time,
/// with its resources, then one of no length per fulfilled milestone, with none.
pub fn allocation_rows(plan: &Plan) -> (r: Vec<AllocationRow>)
    ensures
        r@.len() == plan.assignments@.len() + plan.fulfilled_milestones@.len(),
        forall|i: int| 0 <= i < plan.assignments@.len() ==> {
            let a = #[trigger] plan.assignments@[i];
            &&& r@[i].task_id == a.task_id
            &&& r@[i].start == crate::interval::bound_value(a.assignment.slot.range.start_spec())
            &&& r@[i].end == crate::interval::bound_value(a.assignment.slot.range.end_spec())
            &&& r@[i].resources@ == a.assignment.resources@
        },
        forall|j: int| 0 <= j < plan.fulfilled_milestones@.len() ==> {
            let m = #[trigger] plan.fulfilled_milestones@[j];
            let row = r@[plan.assignments@.len() + j];
            &&& row.task_id == m.milestone_id
            &&& row.start == Some(m.date)
            &&& row.end == Some(m.date)
            &&& row.resources@.len() == 0
        },
{
    let mut rows: Vec<AllocationRow> = Vec::new();
    let mut i: usize = 0;
    while i < plan.assignments.len()
        invariant
            i <= plan.assignments@.len(),
            rows@.len() == i,
            forall|k: int| 0 <= k < i ==> {
                let a = #[trigger] plan.assignments@[k];
                &&& rows@[k].task_id == a.task_id
                &&& rows@[k].start == crate::interval::bound_value(a.assignment.slot.range.start_spec())
                &&& rows@[k].end == crate::interval::bound_value(a.assignment.slot.range.end_spec())
                &&& rows@[k].resources@ == a.assignment.resources@
            },
        decreases plan.assignments.len() - i,
    {
        let a = &plan.assignments[i];
        let row = AllocationRow {
            task_id: a.task_id,
            start: a.assignment.slot.range.start().value(),
            end: a.assignment.slot.range.end().value(),
            resources: copy_positions(&a.assignment.resources),
        };
        let ghost before = rows@;
        rows.push(row);
        proof {
            assert forall|k: int| 0 <= k < i + 1 implies {
                let a = #[trigger] plan.assignments@[k];
                &&& rows@[k].task_id == a.task_id
                &&& rows@[k].start == crate::interval::bound_value(a.assignment.slot.range.start_spec())
                &&& rows@[k].end == crate::interval::bound_value(a.assignment.slot.range.end_spec())
                &&& rows@[k].resources@ == a.assignment.resources@
            } by {
                if k < i {
                    assert(rows@[k] == before[k]);
                } else {
                    assert(rows@[k] == row);
                }
            }
        }
        i += 1;
    }
    let n = rows.len();
    let mut j: usize = 0;
    while j < plan.fulfilled_milestones.len()
        invariant
            j <= plan.fulfilled_milestones@.len(),
            n == plan.assignments@.len(),
            rows@.len() == n + j,
            forall|k: int| 0 <= k < n ==> {
                let a = #[trigger] plan.assignments@[k];
                &&& rows@[k].task_id == a.task_id
                &&& rows@[k].start == crate::interval::bound_value(a.assignment.slot.range.start_spec())
                &&& rows@[k].end == crate::interval::bound_value(a.assignment.slot.range.end_spec())
                &&& rows@[k].resources@ == a.assignment.resources@
            },
            forall|k: int| 0 <= k < j ==> {
                let m = #[trigger] plan.fulfilled_milestones@[k];
                let row = rows@[n + k];
                &&& row.task_id == m.milestone_id
                &&& row.start == Some(m.date)
                &&& row.end == Some(m.date)
                &&& row.resources@.len() == 0
            },
        decreases plan.fulfilled_milestones.len() - j,
    {
        let m = plan.fulfilled_milestones[j];
        let row = AllocationRow { task_id: m.milestone_id, start: Some(m.date), end: Some(m.date), resources: Vec::new() };
        let ghost before = rows@;
        rows.push(row);
        proof {
            assert forall|k: int| 0 <= k < n implies #[trigger] rows@[k] == before[k] by {}
            assert forall|k: int| 0 <= k < j + 1 implies {
                let m = #[trigger] plan.fulfilled_milestones@[k];
                let row = rows@[n + k];
                &&& row.task_id == m.milestone_id
                &&& row.start == Some(m.date)
                &&& row.end == Some(m.date)
                &&& row.resources@.len() == 0
            } by {
                if k < j {
                    assert(rows@[n + k] == before[n + k]);
                } else {
                    assert(rows@[n + k] == row);
                }
            }
        }
        j += 1;
    }
    rows
}

} // verus!
