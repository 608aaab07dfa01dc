//! Building the dependency graph from task rows: a group becomes an `in` and an
//! `out` node, parent links tie children between them, dependencies join tasks.
use vstd::prelude::*;
use crate::problem::{Edge, Node};

verus! {

#[derive(Clone, Copy, Debug, PartialEq, Eq, Structural)]
pub enum Designation {
    Task,
    Requirement,
    Milestone,
    Group,
}

/// A stored task: id, kind and parent group.
#[derive(Clone, Copy, Debug, PartialEq, Eq, Structural)]
pub struct TaskRow {
    pub id: i32,
    pub designation: Designation,
    pub parent: Option<i32>,
}

#[derive(Clone, Copy, Debug, PartialEq, Eq, Structural)]
pub enum GraphError {
    /// The parent of the task with this id is unknown or no group.
    ParentNotGroup(i32),
    /// A dependency names a task that does not exist.
    MissingTask(i32),
}

pub open spec fn width(t: TaskRow) -> int {
    if t.designation is Group { 2 } else { 1 }
}

/// Position of the first node of task `t`.
pub open spec fn start_of(tasks: Seq<TaskRow>, t: int) -> int
    decreases t,
{
    if t <= 0 { 0 } else { start_of(tasks, t - 1) + width(tasks[t - 1]) }
}

/// The node an edge into task `t` reaches (a group's `in` node).
pub open spec fn node_in(tasks: Seq<TaskRow>, t: int) -> usize {
    start_of(tasks, t) as usize
}

/// The node an edge out of task `t` leaves (a group's `out` node).
pub open spec fn node_out(tasks: Seq<TaskRow>, t: int) -> usize {
    (start_of(tasks, t) + width(tasks[t]) - 1) as usize
}

/// Position of the task with id `id`, if any (ids are unique).
pub open spec fn index_of(tasks: Seq<TaskRow>, id: i32) -> Option<int> {
    if exists|t: int| 0 <= t < tasks.len() && (#[trigger] tasks[t]).id == id {
        Some(choose|t: int| 0 <= t < tasks.len() && (#[trigger] tasks[t]).id == id)
    } else {
        None
    }
}

pub open spec fn node_of(t: TaskRow) -> Node {
    match t.designation {
        Designation::Task => Node::Task(t.id),
        Designation::Requirement => Node::Requirement(t.id),
        Designation::Milestone => Node::Milestone(t.id),
        Designation::Group => Node::Group(t.id),
    }
}

/// The nodes of the first `upto` tasks.
pub open spec fn nodes_of(tasks: Seq<TaskRow>, upto: int) -> Seq<Node>
    decreases upto,
{
    if upto <= 0 {
        seq![]
    } else {
        let t = tasks[upto - 1];
        nodes_of(tasks, upto - 1) + if t.designation is Group { seq![node_of(t), node_of(t)] } else { seq![node_of(t)] }
    }
}

/// The edges a task adds: a group's `in -> out`, then the links to its parent.
pub open spec fn task_edges(tasks: Seq<TaskRow>, t: int) -> Seq<Edge> {
    let row = tasks[t];
    let own: Seq<Edge> = if row.designation is Group { seq![(node_in(tasks, t), node_out(tasks, t))] } else { seq![] };
    let up: Seq<Edge> = match row.parent {
        None => seq![],
        Some(pid) => match index_of(tasks, pid) {
            None => seq![],
            Some(p) => if row.designation is Group {
                seq![(node_in(tasks, p), node_in(tasks, t)), (node_out(tasks, t), node_out(tasks, p))]
            } else {
                (if row.designation is Requirement { seq![] } else { seq![(node_in(tasks, p), node_in(tasks, t))] })
                    + (if row.designation is Milestone { seq![] } else { seq![(node_in(tasks, t), node_out(tasks, p))] })
            },
        },
    };
    own + up
}

pub open spec fn all_task_edges(tasks: Seq<TaskRow>, upto: int) -> Seq<Edge>
    decreases upto,
{
    if upto <= 0 { seq![] } else { all_task_edges(tasks, upto - 1) + task_edges(tasks, upto - 1) }
}

/// The edge of a dependency: from the predecessor's (out) node to the
/// successor's (in) node.
pub open spec fn dep_edges(tasks: Seq<TaskRow>, deps: Seq<(i32, i32)>, upto: int) -> Seq<Edge>
    decreases upto,
{
    if upto <= 0 {
        seq![]
    } else {
        let d = deps[upto - 1];
        dep_edges(tasks, deps, upto - 1) + match (index_of(tasks, d.0), index_of(tasks, d.1)) {
            (Some(a), Some(b)) => seq![(node_out(tasks, a), node_in(tasks, b))],
            _ => seq![],
        }
    }
}

/// Every parent is a group, and every dependency names existing tasks.
pub open spec fn parents_valid(tasks: Seq<TaskRow>) -> bool {
    forall|t: int| 0 <= t < tasks.len() && (#[trigger] tasks[t].parent) is Some ==> index_of(tasks, tasks[t].parent.unwrap()) is Some && tasks[index_of(tasks, tasks[t].parent.unwrap()).unwrap()].designation is Group
}

pub open spec fn deps_valid(tasks: Seq<TaskRow>, deps: Seq<(i32, i32)>) -> bool {
    forall|d: int| 0 <= d < deps.len() ==> index_of(tasks, (#[trigger] deps[d]).0) is Some && index_of(tasks, deps[d].1) is Some
}

fn find_task(tasks: &Vec<TaskRow>, id: i32) -> (r: Option<usize>)
    requires
        forall|a: int, b: int| 0 <= a < b < tasks@.len() ==> (#[trigger] tasks@[a]).id != (#[trigger] tasks@[b]).id,
    ensures
        r matches Some(t) ==> index_of(tasks@, id) == Some(t as int),
        r is None ==> index_of(tasks@, id) is None,
{
    let mut t: usize = 0;
    while t < tasks.len()
        invariant
            t <= tasks@.len(),
            forall|u: int| 0 <= u < t ==> (#[trigger] tasks@[u]).id != id,
            forall|a: int, b: int| 0 <= a < b < tasks@.len() ==> (#[trigger] tasks@[a]).id != (#[trigger] tasks@[b]).id,
        decreases tasks.len() - t,
    {
        if tasks[t].id == id {
            proof {
                let c = choose|u: int| 0 <= u < tasks@.len() && (#[trigger] tasks@[u]).id == id;
                if c != t {
                    if c < t {
                        assert(tasks@[c].id != id);
                    } else {
                        assert(tasks@[t as int].id != tasks@[c].id);
                    }
                }
            }
            return Some(t);
        }
        t += 1;
    }
    None
}

proof fn lemma_start_bound(tasks: Seq<TaskRow>, t: int)
    requires
        0 <= t,
    ensures
        t <= start_of(tasks, t) <= 2 * t,
    decreases t,
{
    if t > 0 {
        lemma_start_bound(tasks, t - 1);
    }
}

proof fn lemma_start_mono(tasks: Seq<TaskRow>, a: int, b: int)
    requires
        0 <= a <= b,
    ensures
        start_of(tasks, a) + (b - a) <= start_of(tasks, b),
    decreases b - a,
{
    if a < b {
        lemma_start_mono(tasks, a, b - 1);
    }
}

/// The nodes of the tasks in order (two for a group) and where each task's
/// nodes start.
#[verifier::rlimit(60)]
fn task_nodes(tasks: &Vec<TaskRow>) -> (r: (Vec<Node>, Vec<usize>))
    requires
        2 * tasks@.len() <= usize::MAX,
    ensures
        r.0@ == nodes_of(tasks@, tasks@.len() as int),
        r.1@.len() == tasks@.len(),
        forall|u: int| 0 <= u < tasks@.len() ==> #[trigger] r.1@[u] == start_of(tasks@, u),
{
    let n = tasks.len();
    let mut starts: Vec<usize> = Vec::new();
    let mut nodes: Vec<Node> = Vec::new();
    let mut counter: usize = 0;
    let mut t: usize = 0;
    while t < n
        invariant
            t <= n,
            n == tasks@.len(),
            2 * n <= usize::MAX,
            starts@.len() == t,
            counter == start_of(tasks@, t as int),
            forall|u: int| 0 <= u < t ==> #[trigger] starts@[u] == start_of(tasks@, u),
            nodes@ == nodes_of(tasks@, t as int),
        decreases n - t,
    {
        proof {
            lemma_start_bound(tasks@, t as int + 1);
        }
        let row = tasks[t];
        starts.push(counter);
        let node = match row.designation {
            Designation::Task => Node::Task(row.id),
            Designation::Requirement => Node::Requirement(row.id),
            Designation::Milestone => Node::Milestone(row.id),
            Designation::Group => Node::Group(row.id),
        };
        nodes.push(node);
        let is_group = match row.designation {
            Designation::Group => true,
            _ => false,
        };
        if is_group {
            nodes.push(node);
            counter = counter + 2;
        } else {
            counter = counter + 1;
        }
        assert(nodes@ =~= nodes_of(tasks@, t + 1));
        t += 1;
    }
    (nodes, starts)
}

/// Whether every parent is a group.
#[verifier::rlimit(60)]
fn check_parents(tasks: &Vec<TaskRow>) -> (r: Result<(), GraphError>)
    requires
        forall|a: int, b: int| 0 <= a < b < tasks@.len() ==> (#[trigger] tasks@[a]).id != (#[trigger] tasks@[b]).id,
    ensures
        r is Ok <==> parents_valid(tasks@),
{
    let n = tasks.len();
    let mut t: usize = 0;
    while t < n
        invariant
            t <= n,
            n == tasks@.len(),
            forall|a: int, b: int| 0 <= a < b < tasks@.len() ==> (#[trigger] tasks@[a]).id != (#[trigger] tasks@[b]).id,
            forall|u: int| 0 <= u < t && (#[trigger] tasks@[u].parent) is Some ==> index_of(tasks@, tasks@[u].parent.unwrap()) is Some
                && tasks@[index_of(tasks@, tasks@[u].parent.unwrap()).unwrap()].designation is Group,
        decreases n - t,
    {
        let row = tasks[t];
        match row.parent {
            Some(pid) => {
                match find_task(tasks, pid) {
                    Some(p) => {
                        let ok = match tasks[p].designation {
                            Designation::Group => true,
                            _ => false,
                        };
                        if !ok {
                            return Err(GraphError::ParentNotGroup(row.id));
                        }
                    },
                    None => {
                        return Err(GraphError::ParentNotGroup(row.id));
                    },
                }
            },
            None => {},
        }
        t += 1;
    }
    Ok(())
}

/// The edges of the tasks: each group's `in -> out`, and each task's links to
/// its parent group.
#[verifier::rlimit(80)]
fn task_edge_list(tasks: &Vec<TaskRow>, starts: &Vec<usize>) -> (r: Vec<Edge>)
    requires
        forall|a: int, b: int| 0 <= a < b < tasks@.len() ==> (#[trigger] tasks@[a]).id != (#[trigger] tasks@[b]).id,
        2 * tasks@.len() <= usize::MAX,
        starts@.len() == tasks@.len(),
        forall|u: int| 0 <= u < tasks@.len() ==> #[trigger] starts@[u] == start_of(tasks@, u),
        parents_valid(tasks@),
    ensures
        r@ == all_task_edges(tasks@, tasks@.len() as int),
{
    let n = tasks.len();
    let mut edges: Vec<Edge> = Vec::new();
    let mut t: usize = 0;
    while t < n
        invariant
            t <= n,
            n == tasks@.len(),
            2 * n <= usize::MAX,
            starts@.len() == n,
            forall|u: int| 0 <= u < n ==> #[trigger] starts@[u] == start_of(tasks@, u),
            forall|a: int, b: int| 0 <= a < b < tasks@.len() ==> (#[trigger] tasks@[a]).id != (#[trigger] tasks@[b]).id,
            parents_valid(tasks@),
            edges@ == all_task_edges(tasks@, t as int),
        decreases n - t,
    {
        let row = tasks[t];
        let is_group = match row.designation {
            Designation::Group => true,
            _ => false,
        };
        proof {
            lemma_start_bound(tasks@, n as int);
            lemma_start_mono(tasks@, t as int + 1, n as int);
        }
        let tin = starts[t];
        let tout = if is_group { starts[t] + 1 } else { starts[t] };
        let ghost before = edges@;
        if is_group {
            edges.push((tin, tout));
        }
        match row.parent {
            Some(pid) => {
                let p = find_task(tasks, pid).unwrap();
                proof {
                    lemma_start_mono(tasks@, p as int + 1, n as int);
                }
                let pin = starts[p];
                let pout = starts[p] + 1;
                if is_group {
                    edges.push((pin, tin));
                    edges.push((tout, pout));
                } else {
                    let is_req = match row.designation {
                        Designation::Requirement => true,
                        _ => false,
                    };
                    let is_ms = match row.designation {
                        Designation::Milestone => true,
                        _ => false,
                    };
                    if !is_req {
                        edges.push((pin, tin));
                    }
                    if !is_ms {
                        edges.push((tin, pout));
                    }
                }
            },
            None => {},
        }
        assert(edges@ =~= before + task_edges(tasks@, t as int));
        t += 1;
    }
    edges
}

/// Appends one edge per dependency, from the predecessor's last node to the
/// successor's first; an unknown task is an error.
#[verifier::rlimit(60)]
fn add_dep_edges(tasks: &Vec<TaskRow>, starts: &Vec<usize>, deps: &Vec<(i32, i32)>, edges: &mut Vec<Edge>) -> (r: Result<(), GraphError>)
    requires
        forall|a: int, b: int| 0 <= a < b < tasks@.len() ==> (#[trigger] tasks@[a]).id != (#[trigger] tasks@[b]).id,
        2 * tasks@.len() <= usize::MAX,
        starts@.len() == tasks@.len(),
        forall|u: int| 0 <= u < tasks@.len() ==> #[trigger] starts@[u] == start_of(tasks@, u),
    ensures
        r is Ok <==> deps_valid(tasks@, deps@),
        r is Ok ==> final(edges)@ == old(edges)@ + dep_edges(tasks@, deps@, deps@.len() as int),
{
    let n = tasks.len();
    let ghost task_part = edges@;
    let mut d: usize = 0;
    assert(edges@ =~= task_part + dep_edges(tasks@, deps@, 0));
    while d < deps.len()
        invariant
            d <= deps@.len(),
            n == tasks@.len(),
            2 * n <= usize::MAX,
            starts@.len() == n,
            forall|u: int| 0 <= u < n ==> #[trigger] starts@[u] == start_of(tasks@, u),
            forall|a: int, b: int| 0 <= a < b < tasks@.len() ==> (#[trigger] tasks@[a]).id != (#[trigger] tasks@[b]).id,
            forall|x: int| 0 <= x < d ==> index_of(tasks@, (#[trigger] deps@[x]).0) is Some && index_of(tasks@, deps@[x].1) is Some,
            edges@ == task_part + dep_edges(tasks@, deps@, d as int),
            task_part == old(edges)@,
        decreases deps.len() - d,
    {
        let (pre, suc) = deps[d];
        let a = match find_task(tasks, pre) {
            Some(a) => a,
            None => return Err(GraphError::MissingTask(pre)),
        };
        let b = match find_task(tasks, suc) {
            Some(b) => b,
            None => return Err(GraphError::MissingTask(suc)),
        };
        proof {
            lemma_start_bound(tasks@, n as int);
            lemma_start_mono(tasks@, a as int + 1, n as int);
        }
        let a_group = match tasks[a].designation {
            Designation::Group => true,
            _ => false,
        };
        let aout = if a_group { starts[a] + 1 } else { starts[a] };
        edges.push((aout, starts[b]));
        assert(edges@ =~= task_part + dep_edges(tasks@, deps@, d + 1));
        d += 1;
    }
    Ok(())
}

/// Builds the graph: the nodes of the tasks in the given order (two for a
/// group), then each task's edges, then one edge per dependency. A parent that is
/// not a group, or a dependency on an unknown task, is an error.
pub fn build_graph(tasks: &Vec<TaskRow>, deps: &Vec<(i32, i32)>) -> (r: Result<(Vec<Node>, Vec<Edge>), GraphError>)
    requires
        forall|a: int, b: int| 0 <= a < b < tasks@.len() ==> (#[trigger] tasks@[a]).id != (#[trigger] tasks@[b]).id,
        2 * tasks@.len() <= usize::MAX,
    ensures
        r is Ok <==> parents_valid(tasks@) && deps_valid(tasks@, deps@),
        r matches Ok((nodes, edges)) ==> nodes@ == nodes_of(tasks@, tasks@.len() as int) && edges@ == all_task_edges(
            tasks@,
            tasks@.len() as int,
        ) + dep_edges(tasks@, deps@, deps@.len() as int),
{
    let (nodes, starts) = task_nodes(tasks);
    match check_parents(tasks) {
        Ok(()) => {},
        Err(e) => return Err(e),
    }
    let mut edges = task_edge_list(tasks, &starts);
    match add_dep_edges(tasks, &starts, deps, &mut edges) {
        Ok(()) => Ok((nodes, edges)),
        Err(e) => Err(e),
    }
}

} // verus!
