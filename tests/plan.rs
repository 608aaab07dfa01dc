use chrono::NaiveDate;
use siapla::availability::free_time;
use siapla::gene::{can_swap, check_resources_once, choose_resources, crossover_picks, random_order, ConstraintChoice};
use siapla::graph_build::{build_graph, GraphError, Designation, TaskRow};
use siapla::issue::IssueCode;
use siapla::plan::{allocation_rows, dependency_order, fulfilled_milestones, plan_individual, Gene, Outcome};
use siapla::problem::{
    add_dependency, calculation_window, detect_project_issues, drop_groups, hierarchy_loop, eliminate_group, inherited_constraints, reduce_graph, remove_groups, Node,
    TaskCheck,
};
use siapla::slot::{add_slot_availability, Slot};

fn ts(date: &str, h: u32, m: u32) -> i64 {
    NaiveDate::parse_from_str(date, "%Y-%m-%d")
        .unwrap()
        .and_hms_opt(h, m, 0)
        .unwrap()
        .and_utc()
        .timestamp()
}

fn resource(hours: [u64; 7], start: i64, end: i64) -> Vec<Slot> {
    let week: Vec<u64> = hours.iter().map(|h| h * 3600).collect();
    let free = free_time("UTC", &week, &vec![], &vec![], start, end).unwrap();
    let mut slots = Vec::new();
    add_slot_availability(&mut slots, free, start, end);
    slots
}

#[test]
fn plan_single_task_fulfils_milestone() {
    // R -> T -> M
    let nodes = vec![Node::Requirement(1), Node::Task(2), Node::Milestone(3)];
    let edges = vec![(0, 1), (1, 2)];
    let start = ts("2025-01-06", 0, 0);
    let (s, end) = calculation_window(&vec![start], &vec![ts("2025-01-06", 23, 59)]).unwrap();
    assert_eq!(s, start);
    assert_eq!(end, ts("2025-01-07", 23, 58));
    let res = vec![resource([8, 8, 8, 8, 8, 0, 0], start, end)];
    let genes = vec![Gene { node: 1, task_id: 2, required: vec![0], selectable: vec![], duration: 8 * 3600 }];
    let fin = vec![Some(start), None, None];
    let plan = plan_individual(&nodes, &edges, &genes, fin, start, end, res);
    assert!(plan.issues.is_empty());
    assert_eq!(plan.assignments.len(), 1);
    let a = &plan.assignments[0].assignment;
    assert_eq!(a.slot.range.start().value(), Some(ts("2025-01-06", 8, 0)));
    assert_eq!(a.slot.range.end().value(), Some(ts("2025-01-06", 16, 0)));
    assert_eq!(plan.fulfilled_milestones.len(), 1);
    assert_eq!(plan.fulfilled_milestones[0].milestone_id, 3);
    assert_eq!(plan.fulfilled_milestones[0].date, ts("2025-01-06", 16, 0));
    let rows = allocation_rows(&plan);
    assert_eq!(rows.len(), 2);
    assert_eq!((rows[0].task_id, rows[0].start, rows[0].end), (2, Some(ts("2025-01-06", 8, 0)), Some(ts("2025-01-06", 16, 0))));
    assert_eq!(rows[0].resources, vec![0]);
    assert_eq!((rows[1].task_id, rows[1].start, rows[1].end), (3, Some(ts("2025-01-06", 16, 0)), Some(ts("2025-01-06", 16, 0))));
    assert!(rows[1].resources.is_empty());
}

#[test]
fn successor_starts_after_predecessor() {
    // R -> A -> B -> M, genes listed successor first
    let nodes = vec![Node::Requirement(1), Node::Task(2), Node::Task(3), Node::Milestone(4)];
    let edges = vec![(0, 1), (1, 2), (2, 3)];
    let start = ts("2025-01-06", 0, 0);
    let end = ts("2025-01-11", 0, 0);
    let res = vec![resource([8, 8, 8, 8, 8, 0, 0], start, end), resource([8, 8, 8, 8, 8, 0, 0], start, end)];
    let genes = vec![
        Gene { node: 2, task_id: 3, required: vec![1], selectable: vec![], duration: 4 * 3600 },
        Gene { node: 1, task_id: 2, required: vec![0], selectable: vec![], duration: 10 * 3600 },
    ];
    assert_eq!(dependency_order(&edges, &genes), vec![1, 0]);
    let plan = plan_individual(&nodes, &edges, &genes, vec![Some(start), None, None, None], start, end, res);
    assert_eq!(plan.assignments.len(), 2);
    assert_eq!(plan.assignments[0].task_id, 2);
    let a_end = plan.assignments[0].assignment.slot.range.end().value().unwrap();
    assert_eq!(a_end, ts("2025-01-07", 10, 0));
    let b_start = plan.assignments[1].assignment.slot.range.start().value().unwrap();
    assert!(b_start >= a_end);
    assert_eq!(b_start, ts("2025-01-07", 10, 0));
    assert_eq!(plan.fulfilled_milestones[0].date, ts("2025-01-07", 14, 0));
}

#[test]
fn unfinished_predecessor_and_missing_effort() {
    let nodes = vec![Node::Task(1), Node::Task(2), Node::Task(3)];
    let edges = vec![(0, 1)];
    let start = ts("2025-01-06", 0, 0);
    let end = ts("2025-01-11", 0, 0);
    let res = vec![resource([8, 8, 8, 8, 8, 0, 0], start, end)];
    // task 1 has no effort, so task 2 after it cannot start
    let genes = vec![
        Gene { node: 0, task_id: 1, required: vec![0], selectable: vec![], duration: 0 },
        Gene { node: 1, task_id: 2, required: vec![0], selectable: vec![], duration: 3600 },
        Gene { node: 2, task_id: 3, required: vec![], selectable: vec![], duration: 3600 },
    ];
    let plan = plan_individual(&nodes, &edges, &genes, vec![None, None, None], start, end, res);
    let codes: Vec<(IssueCode, Option<i32>)> = plan.issues.iter().map(|i| (i.code, i.task_id)).collect();
    assert_eq!(
        codes,
        vec![(IssueCode::NoEffort, Some(1)), (IssueCode::PredIssue, Some(2)), (IssueCode::NoSlotFound, Some(3))]
    );
    assert!(plan.assignments.is_empty());
}

#[test]
fn missing_constraint_is_reported() {
    let nodes = vec![Node::Requirement(1), Node::Task(2), Node::Milestone(3)];
    let edges = vec![(0, 1), (1, 2)];
    let issues = detect_project_issues(&nodes, &edges, &vec![TaskCheck { id: 2, has_constraints: false }]);
    let codes: Vec<(IssueCode, Option<i32>)> = issues.iter().map(|i| (i.code, i.task_id)).collect();
    assert_eq!(codes, vec![(IssueCode::ResourceMissing, Some(2))]);
}

#[test]
fn unreachable_tasks_are_reported() {
    let nodes = vec![Node::Task(2), Node::Task(5)];
    let edges = vec![(0, 1)];
    let issues = detect_project_issues(
        &nodes,
        &edges,
        &vec![TaskCheck { id: 2, has_constraints: true }, TaskCheck { id: 5, has_constraints: true }],
    );
    let codes: Vec<(IssueCode, Option<i32>)> = issues.iter().map(|i| (i.code, i.task_id)).collect();
    assert_eq!(
        codes,
        vec![
            (IssueCode::RequirementMissing, None),
            (IssueCode::MilestoneMissing, None),
            (IssueCode::RequirementMissing, Some(2)),
            (IssueCode::MilestoneMissing, Some(2)),
            (IssueCode::RequirementMissing, Some(5)),
            (IssueCode::MilestoneMissing, Some(5)),
        ]
    );
}

#[test]
fn groups_are_eliminated() {
    // R -> G.in -> T -> G.out -> M, with G.in -> G.out
    let nodes = vec![Node::Requirement(1), Node::Group(9), Node::Task(2), Node::Group(9), Node::Milestone(3)];
    let edges = vec![(0, 1), (1, 2), (2, 3), (3, 4), (1, 3)];
    let mut r = remove_groups(&nodes, &edges);
    r.sort();
    r.dedup();
    assert_eq!(r, vec![(0, 2), (0, 4), (2, 4)]);
    assert!(r.iter().all(|(a, b)| !matches!(nodes[*a], Node::Group(_)) && !matches!(nodes[*b], Node::Group(_))));
    let mut one = eliminate_group(&vec![(0, 1), (1, 2), (1, 3)], 1);
    one.sort();
    assert_eq!(one, vec![(0, 2), (0, 3)]);
}

#[test]
fn calculation_window_needs_requirement_and_milestone() {
    assert_eq!(calculation_window(&vec![], &vec![5]), Err(IssueCode::RequirementMissing));
    assert_eq!(calculation_window(&vec![5], &vec![]), Err(IssueCode::MilestoneMissing));
    assert_eq!(calculation_window(&vec![10, 4], &vec![7, 9]), Ok((4, 14)));
}

#[test]
fn milestone_waits_for_all_tasks() {
    let nodes = vec![Node::Task(1), Node::Task(2), Node::Milestone(3)];
    let edges = vec![(0, 2), (1, 2)];
    assert!(fulfilled_milestones(&nodes, &edges, &vec![Some(5), None, None]).is_empty());
    let f = fulfilled_milestones(&nodes, &edges, &vec![Some(5), Some(8), None]);
    assert_eq!(f.len(), 1);
    assert_eq!(f[0].date, 8);
}

#[test]
fn reduction_drops_implied_edges() {
    let mut r = reduce_graph(3, &vec![(0, 1), (1, 2), (0, 2)]).unwrap();
    r.sort();
    assert_eq!(r, vec![(0, 1), (1, 2)]);
}

#[test]
fn dependency_cycle_is_a_loop() {
    assert_eq!(reduce_graph(3, &vec![(0, 1), (1, 2), (2, 0)]), Err(IssueCode::DependencyLoop));
    assert_eq!(reduce_graph(2, &vec![(1, 1)]), Err(IssueCode::DependencyLoop));
}

#[test]
fn constraints_come_from_nearest_group() {
    // group 0 has constraints, group 1 (child of 0) has none, group 2 is a root without any
    let parents = vec![None, Some(0), None];
    let has = vec![true, false, false];
    assert_eq!(inherited_constraints(&parents, &has, Some(1)), Ok(Some(0)));
    assert_eq!(inherited_constraints(&parents, &has, Some(2)), Ok(None));
    assert_eq!(inherited_constraints(&parents, &has, None), Ok(None));
}

#[test]
fn parent_cycle_is_a_hierarchy_loop() {
    let parents = vec![Some(1), Some(0)];
    let has = vec![false, false];
    assert_eq!(inherited_constraints(&parents, &has, Some(0)), Err(IssueCode::HierarchyLoop));
}

#[test]
fn saving_a_cycle_is_rejected() {
    let mut edges = vec![(0, 1), (1, 2)];
    assert_eq!(add_dependency(3, &mut edges, (2, 0)), Err(IssueCode::DependencyLoop));
    assert_eq!(edges, vec![(0, 1), (1, 2)]);
    assert_eq!(add_dependency(3, &mut edges, (0, 2)), Ok(()));
    assert_eq!(edges, vec![(0, 1), (1, 2), (0, 2)]);
}

#[test]
fn resources_chosen_from_constraints() {
    let cs = vec![
        ConstraintChoice { optional: false, resources: vec![0, 1] },
        ConstraintChoice { optional: false, resources: vec![2, 3, 4] },
        ConstraintChoice { optional: true, resources: vec![5] },
    ];
    // no bookings, the optional one promoted, first entry picked
    let r = choose_resources(&cs, &vec![], &vec![0], &vec![0, 0]);
    assert_eq!(r.selectable, vec![2, 3, 4]);
    assert_eq!(r.required, vec![0, 5]);
    let mut used = r.used.clone();
    used.sort();
    assert_eq!(used, vec![0, 1, 2]);
    // a booked resource wins its constraint
    let r = choose_resources(&cs, &vec![1], &vec![0], &vec![7]);
    assert_eq!(r.required, vec![1]);
    assert_eq!(r.selectable, vec![2, 3, 4]);
    assert_eq!(r.used, vec![0, 1]);
}

#[test]
fn graph_from_task_rows() {
    // requirement 1, group 2 holding task 3 and milestone 4 after the group
    let tasks = vec![
        TaskRow { id: 1, designation: Designation::Requirement, parent: None },
        TaskRow { id: 2, designation: Designation::Group, parent: None },
        TaskRow { id: 3, designation: Designation::Task, parent: Some(2) },
        TaskRow { id: 4, designation: Designation::Milestone, parent: None },
    ];
    let deps = vec![(1, 2), (2, 4)];
    let (nodes, edges) = build_graph(&tasks, &deps).unwrap();
    assert_eq!(
        nodes,
        vec![Node::Requirement(1), Node::Group(2), Node::Group(2), Node::Task(3), Node::Milestone(4)]
    );
    let mut e = edges.clone();
    e.sort();
    assert_eq!(e, vec![(0, 1), (1, 2), (1, 3), (2, 4), (3, 2)]);
    // after eliminating the group the task sits between requirement and milestone
    let mut r = remove_groups(&nodes, &edges);
    r.sort();
    r.dedup();
    assert_eq!(r, vec![(0, 3), (0, 4), (3, 4)]);
    let red = reduce_graph(nodes.len(), &r).unwrap();
    let mut red = red;
    red.sort();
    assert_eq!(red, vec![(0, 3), (3, 4)]);
}

#[test]
fn graph_rejects_bad_links() {
    let tasks = vec![
        TaskRow { id: 1, designation: Designation::Task, parent: None },
        TaskRow { id: 2, designation: Designation::Task, parent: Some(1) },
    ];
    assert_eq!(build_graph(&tasks, &vec![]), Err(GraphError::ParentNotGroup(2)));
    let tasks = vec![TaskRow { id: 1, designation: Designation::Task, parent: None }];
    assert_eq!(build_graph(&tasks, &vec![(1, 9)]), Err(GraphError::MissingTask(9)));
}

#[test]
fn crossover_switches_parents_without_repeats() {
    // first parent 1 2 3 4, second 4 3 2 1, one cut at position 2
    let r = crossover_picks(&vec![1, 2, 3, 4], &vec![4, 3, 2, 1], &vec![2]);
    assert_eq!(r, vec![(true, 0), (true, 1), (false, 0), (false, 1)]);
    // no cut: the first parent as it is
    let r = crossover_picks(&vec![1, 2], &vec![2, 1], &vec![]);
    assert_eq!(r, vec![(true, 0), (true, 1)]);
}

#[test]
fn random_order_respects_dependencies() {
    // 0 -> 2, 1 -> 2, 2 -> 3, and 4 alone; 5 <-> 6 form a cycle
    let edges = vec![(0, 2), (1, 2), (2, 3), (5, 6), (6, 5)];
    for seed in 0..20usize {
        let picks: Vec<usize> = (0..7).map(|i| (seed * 7 + i * 3) % 11).collect();
        let order = random_order(7, &edges, &picks);
        let pos = |x: usize| order.iter().position(|v| *v == x).unwrap();
        assert_eq!(order.len(), 5);
        assert!(pos(0) < pos(2) && pos(1) < pos(2) && pos(2) < pos(3));
        assert!(!order.contains(&5) && !order.contains(&6));
    }
}

#[test]
fn hierarchy_loop_found_whatever_the_constraints() {
    // 0 -> 1 -> 0 loops; the walk from a task would stop at a constrained group
    let parents = vec![Some(1), Some(0), None];
    assert_eq!(inherited_constraints(&parents, &vec![false, true, false], Some(0)), Ok(Some(1)));
    assert!(hierarchy_loop(&parents));
    assert!(!hierarchy_loop(&vec![None, Some(0), Some(1)]));
}

#[test]
fn crossover_keeps_every_task() {
    let r = crossover_picks(&vec![1, 2, 3, 4, 5], &vec![5, 3, 1, 4, 2], &vec![1, 3]);
    let mut ids: Vec<i32> = r.iter().map(|(f, i)| if *f { [1, 2, 3, 4, 5][*i] } else { [5, 3, 1, 4, 2][*i] }).collect();
    ids.sort();
    assert_eq!(ids, vec![1, 2, 3, 4, 5]);
}

#[test]
fn random_order_takes_every_node_without_cycle() {
    let edges = vec![(0, 1), (1, 2), (0, 3), (3, 2), (4, 0)];
    for seed in 0..10usize {
        let picks: Vec<usize> = (0..5).map(|i| seed * 5 + i).collect();
        assert_eq!(random_order(5, &edges, &picks).len(), 5);
    }
}

#[test]
fn group_nodes_are_dropped() {
    let nodes = vec![Node::Requirement(1), Node::Group(9), Node::Task(2), Node::Group(9), Node::Milestone(3)];
    let edges = vec![(0, 1), (1, 2), (2, 3), (3, 4), (1, 3)];
    let linked = remove_groups(&nodes, &edges);
    let (kept, renumbered, _) = drop_groups(&nodes, &linked);
    assert_eq!(kept, vec![Node::Requirement(1), Node::Task(2), Node::Milestone(3)]);
    let mut r = renumbered.clone();
    r.sort();
    r.dedup();
    assert_eq!(r, vec![(0, 1), (0, 2), (1, 2)]);
}

#[test]
fn resources_used_once_per_task() {
    let ok = vec![
        ConstraintChoice { optional: false, resources: vec![0, 1] },
        ConstraintChoice { optional: true, resources: vec![2] },
    ];
    assert!(check_resources_once(&ok));
    let twice = vec![
        ConstraintChoice { optional: false, resources: vec![0, 1] },
        ConstraintChoice { optional: true, resources: vec![1] },
    ];
    assert!(!check_resources_once(&twice));
}

#[test]
fn plan_records_outcome_per_gene() {
    let nodes = vec![Node::Task(1), Node::Task(2)];
    let start = ts("2025-01-06", 0, 0);
    let end = ts("2025-01-11", 0, 0);
    let res = vec![resource([8, 8, 8, 8, 8, 0, 0], start, end)];
    let genes = vec![
        Gene { node: 0, task_id: 1, required: vec![0], selectable: vec![], duration: 3600 },
        Gene { node: 1, task_id: 2, required: vec![], selectable: vec![], duration: 3600 },
    ];
    let plan = plan_individual(&nodes, &vec![], &genes, vec![None, None], start, end, res);
    assert_eq!(plan.order, vec![0, 1]);
    assert_eq!(plan.outcomes, vec![Outcome::Placed, Outcome::Issue(IssueCode::NoSlotFound)]);
}

#[test]
fn swap_only_without_direct_dependency() {
    let edges = vec![(0, 1), (2, 3)];
    assert!(!can_swap(&edges, 0, 1));
    assert!(can_swap(&edges, 1, 0));
    assert!(can_swap(&edges, 0, 3));
}

#[test]
fn two_required_resources_place_on_common_day() {
    let start = ts("2025-01-06", 0, 0);
    let end = ts("2025-01-11", 0, 0);
    let nodes = vec![Node::Requirement(1), Node::Task(2)];
    let res = vec![resource([8, 8, 8, 0, 0, 0, 0], start, end), resource([0, 0, 8, 8, 8, 0, 0], start, end)];
    let genes = vec![Gene { node: 1, task_id: 2, required: vec![0, 1], selectable: vec![], duration: 8 * 3600 }];
    let plan = plan_individual(&nodes, &vec![(0, 1)], &genes, vec![Some(start), None], start, end, res);
    assert_eq!(plan.outcomes, vec![Outcome::Placed]);
    let a = &plan.assignments[0].assignment;
    assert_eq!(a.slot.range.start().value(), Some(ts("2025-01-08", 8, 0)));
    assert_eq!(a.slot.range.end().value(), Some(ts("2025-01-08", 16, 0)));
}
