use ranger::error::RangerError;
use ranger::models::{Backlog, State, Task};
use ranger::ops::backlog::get_by_name;
use ranger::ops::task::{
    create, get_by_key_prefix, key_pattern, list_query, move_task, placement_states_agree, rebalance, reorder, state_change, CreateTask,
    ListFilter, Placement, TASK_COLUMNS,
};
use ranger::timestamp::Timestamp;

fn stamp() -> Timestamp {
    Timestamp { seconds: 1_700_000_000, nanoseconds: 0 }
}

fn task(id: i64, state: State, position: &str) -> Task {
    Task {
        id,
        key: format!("k{id}"),
        backlog_id: 1,
        title: format!("Task {id}"),
        description: None,
        state,
        position: position.to_string(),
        archived: false,
        created_at: stamp(),
        updated_at: stamp(),
        done_at: None,
    }
}

/// The IDs of the tasks, ordered by position (as `list` orders them).
fn by_position(tasks: &[Task]) -> Vec<i64> {
    let mut sorted: Vec<&Task> = tasks.iter().collect();
    sorted.sort_by(|a, b| a.position.cmp(&b.position));
    sorted.iter().map(|t| t.id).collect()
}

/// Create tasks one after another, as `create` places them.
fn backlog_of(states: &[State]) -> Vec<Task> {
    let mut tasks: Vec<Task> = Vec::new();
    for (i, state) in states.iter().enumerate() {
        let params = CreateTask { title: "T", backlog_id: 1, state: Some(*state), description: None };
        let new = create(&params, &tasks);
        tasks.push(task(i as i64 + 1, new.state, &new.position));
    }
    tasks
}

fn set_position(tasks: &mut [Task], id: i64, pos: String) {
    for t in tasks.iter_mut() {
        if t.id == id {
            t.position = pos.clone();
        }
    }
}

#[test]
fn create_task_in_backlog() {
    let params = CreateTask { title: "First", backlog_id: 7, state: None, description: Some("notes") };
    let new = create(&params, &[]);
    assert_eq!(new.title, "First");
    assert_eq!(new.backlog_id, 7);
    assert_eq!(new.description.as_deref(), Some("notes"));
    assert_eq!(new.state, State::Icebox);
    assert_eq!(new.position, "m");
    assert!(!new.archived);
    assert!(!new.done);
    assert_eq!(new.key.len(), 16);
}

#[test]
fn create_places_after_every_task() {
    let existing = vec![task(1, State::Queued, "m"), task(2, State::Done, "t"), task(3, State::Icebox, "g")];
    let params = CreateTask { title: "Next", backlog_id: 1, state: Some(State::Queued), description: None };
    let new = create(&params, &existing);
    assert_eq!(new.position, "w");
    for t in &existing {
        assert!(t.position < new.position);
    }
}

#[test]
fn create_with_done_state_sets_done_at() {
    let params = CreateTask { title: "D", backlog_id: 1, state: Some(State::Done), description: None };
    assert!(create(&params, &[]).done);
    let params = CreateTask { title: "Q", backlog_id: 1, state: Some(State::Queued), description: None };
    assert!(!create(&params, &[]).done);
}

#[test]
fn list_tasks_ordered_by_position() {
    let tasks = backlog_of(&[State::Icebox, State::Icebox, State::Icebox]);
    assert_eq!(by_position(&tasks), vec![1, 2, 3]);
}

#[test]
fn move_task_to_end() {
    let mut tasks = backlog_of(&[State::Icebox, State::Icebox]);
    let t1 = tasks[0].clone();
    let t2 = tasks[1].clone();
    let pos = move_task(&tasks, &t1, &Placement::After(&t2)).ok().unwrap();
    set_position(&mut tasks, t1.id, pos);
    assert_eq!(by_position(&tasks), vec![t2.id, t1.id]);
}

#[test]
fn move_task_before() {
    let mut tasks = backlog_of(&[State::Icebox, State::Icebox, State::Icebox]);
    let t1 = tasks[0].clone();
    let t3 = tasks[2].clone();
    let pos = move_task(&tasks, &t3, &Placement::Before(&t1)).ok().unwrap();
    set_position(&mut tasks, t3.id, pos);
    assert_eq!(by_position(&tasks), vec![3, 1, 2]);
}

#[test]
fn move_task_after() {
    let mut tasks = backlog_of(&[State::Icebox, State::Icebox, State::Icebox]);
    let t1 = tasks[0].clone();
    let t3 = tasks[2].clone();
    let pos = move_task(&tasks, &t1, &Placement::After(&t3)).ok().unwrap();
    set_position(&mut tasks, t1.id, pos);
    assert_eq!(by_position(&tasks), vec![2, 3, 1]);
}

#[test]
fn move_task_between() {
    let mut tasks = backlog_of(&[State::Icebox, State::Icebox, State::Icebox]);
    let t1 = tasks[0].clone();
    let t2 = tasks[1].clone();
    let t3 = tasks[2].clone();
    let pos = move_task(&tasks, &t3, &Placement::Between { after: &t1, before: &t2 }).ok().unwrap();
    set_position(&mut tasks, t3.id, pos);
    assert_eq!(by_position(&tasks), vec![1, 3, 2]);
}

#[test]
fn move_task_after_lands_right_behind_anchor() {
    let tasks = vec![task(1, State::Queued, "g"), task(2, State::Queued, "m"), task(3, State::Queued, "s")];
    let pos = move_task(&tasks, &tasks[2], &Placement::After(&tasks[0])).ok().unwrap();
    assert_eq!(pos, "j");
    let pos = move_task(&tasks, &tasks[0], &Placement::Before(&tasks[2])).ok().unwrap();
    assert_eq!(pos, "p");
}

#[test]
fn move_task_rejects_cross_state() {
    let tasks = backlog_of(&[State::Queued, State::Done]);
    let queued = tasks[0].clone();
    let done = tasks[1].clone();
    let err = move_task(&tasks, &queued, &Placement::Before(&done)).unwrap_err();
    assert!(matches!(err, RangerError::StateMismatch { .. }));
    assert!(err.message().contains("queued"));
    assert!(err.message().contains("done"));
}

#[test]
fn move_task_rejects_cross_state_before_looking_at_positions() {
    let queued = task(1, State::Queued, "");
    let done = task(2, State::Done, "not a position!");
    let also_done = task(3, State::Done, "a");
    let tasks = vec![queued.clone(), done.clone(), also_done.clone()];
    assert!(!placement_states_agree(&queued, &Placement::Between { after: &done, before: &also_done }));
    let err = move_task(&tasks, &queued, &Placement::Between { after: &done, before: &also_done }).unwrap_err();
    assert_eq!(
        err.message(),
        "can't move queued task relative to done task"
    );
    assert!(placement_states_agree(&done, &Placement::After(&also_done)));
}

#[test]
fn placement_anchors() {
    let a = task(1, State::Queued, "g");
    let b = task(2, State::Queued, "m");
    assert_eq!(Placement::Before(&a).anchors().len(), 1);
    let both = Placement::Between { after: &a, before: &b };
    let anchors = both.anchors();
    assert_eq!(anchors.len(), 2);
    assert_eq!(anchors[0].id, 1);
    assert_eq!(anchors[1].id, 2);
}

#[test]
fn state_change_up_places_at_end_of_target_group() {
    let mut tasks = backlog_of(&[State::Done, State::Done, State::Queued]);
    let q1 = tasks[2].clone();
    let change = state_change(q1.state, State::Done);
    assert!(change.reorder);
    assert!(change.stamp_done);
    let pos = reorder(&tasks, q1.id, q1.state, State::Done);
    set_position(&mut tasks, q1.id, pos);
    assert_eq!(by_position(&tasks), vec![1, 2, 3], "newly done task should be at end of done group");
}

#[test]
fn state_change_down_places_at_beginning_of_target_group() {
    let mut tasks = backlog_of(&[State::Queued, State::Queued, State::InProgress]);
    let ip = tasks[2].clone();
    let pos = reorder(&tasks, ip.id, ip.state, State::Queued);
    set_position(&mut tasks, ip.id, pos);
    assert_eq!(by_position(&tasks), vec![3, 1, 2], "demoted task should be at beginning of queued group");
}

#[test]
fn state_change_up_lands_right_after_the_group() {
    let tasks = vec![
        task(1, State::Done, "d"),
        task(2, State::Icebox, "m"),
        task(3, State::Queued, "s"),
    ];
    let pos = reorder(&tasks, 3, State::Queued, State::Done);
    assert_eq!(pos, "h");
    assert!(pos.as_str() > "d" && pos.as_str() < "m");
}

#[test]
fn state_change_same_state_does_not_reorder() {
    let change = state_change(State::Queued, State::Queued);
    assert!(!change.reorder);
    assert!(!change.stamp_done);
}

#[test]
fn edit_from_done_clears_done_at() {
    let change = state_change(State::Done, State::Queued);
    assert!(change.reorder);
    assert!(!change.stamp_done);
}

#[test]
fn state_change_up_to_empty_group() {
    let tasks = vec![task(1, State::Queued, "m"), task(2, State::Icebox, "s")];
    let pos = reorder(&tasks, 1, State::Queued, State::Done);
    assert!(pos.as_str() > "s");
}

#[test]
fn state_change_down_to_empty_group() {
    let tasks = vec![task(1, State::InProgress, "s"), task(2, State::Done, "m")];
    let pos = reorder(&tasks, 1, State::InProgress, State::Icebox);
    assert!(pos.as_str() < "m");
    let alone = vec![task(1, State::InProgress, "s")];
    assert_eq!(reorder(&alone, 1, State::InProgress, State::Icebox), "m");
}

#[test]
fn rebalance_reassigns_positions() {
    let tasks = vec![task(4, State::Queued, "zzzzm"), task(9, State::Queued, "zzzzs"), task(2, State::Done, "zzzzy")];
    let assigned = rebalance(&tasks);
    assert_eq!(assigned, vec![(4, "g".to_string()), (9, "m".to_string()), (2, "s".to_string())]);
}

#[test]
fn rebalance_empty_backlog() {
    assert!(rebalance(&[]).is_empty());
}

#[test]
fn get_task_by_key_prefix() {
    let t = task(1, State::Queued, "m");
    assert_eq!(get_by_key_prefix(vec![t], "k").unwrap().id, 1);
}

#[test]
fn get_by_key_prefix_ambiguous() {
    let matches = vec![task(1, State::Queued, "m"), task(2, State::Queued, "s")];
    assert!(matches!(get_by_key_prefix(matches, "k"), Err(RangerError::AmbiguousPrefix(p)) if p == "k"));
}

#[test]
fn get_by_key_prefix_not_found() {
    assert!(matches!(get_by_key_prefix(Vec::new(), "zz"), Err(RangerError::KeyNotFound(p)) if p == "zz"));
}

#[test]
fn key_pattern_matches_prefix() {
    assert_eq!(key_pattern("rom"), "rom%");
}

#[test]
fn list_query_default() {
    let q = list_query(&ListFilter::default());
    assert_eq!(
        q,
        format!("SELECT {TASK_COLUMNS} FROM tasks WHERE backlog_id = ? AND archived = 0 ORDER BY position")
    );
}

#[test]
fn list_query_done_with_tag_and_archived() {
    let filter = ListFilter { state: Some(State::Done), include_archived: true, tag: Some("bug".to_string()) };
    assert_eq!(
        list_query(&filter),
        format!(
            "SELECT {TASK_COLUMNS} FROM tasks JOIN task_tags tt ON tasks.id = tt.task_id JOIN tags tg ON tt.tag_id = tg.id AND tg.name = ? WHERE backlog_id = ? AND state = ? ORDER BY done_at"
        )
    );
}

#[test]
fn get_by_name_found_and_missing() {
    let b = Backlog { id: 3, name: "Work".to_string(), created_at: stamp(), updated_at: stamp() };
    assert_eq!(get_by_name(Some(b), "Work").unwrap().id, 3);
    assert!(matches!(get_by_name(None, "nope"), Err(RangerError::BacklogNotFound(n)) if n == "nope"));
}

#[test]
fn shown_states_of_a_backlog() {
    assert_eq!(ranger::ops::backlog::shown_states(true), vec![State::Done]);
    assert_eq!(ranger::ops::backlog::shown_states(false), vec![State::InProgress, State::Queued, State::Icebox]);
}

#[test]
fn append_unseen_merges_by_id() {
    let mut all = vec![task(1, State::Queued, "m")];
    ranger::ops::task::append_unseen(
        &mut all,
        vec![task(2, State::Queued, "g"), task(1, State::Done, "s"), task(3, State::Icebox, "t"), task(2, State::Done, "z")],
    );
    let ids: Vec<i64> = all.iter().map(|t| t.id).collect();
    assert_eq!(ids, vec![1, 2, 3]);
    assert_eq!(all[0].state, State::Queued);
}

#[test]
fn positions_checked_before_placing() {
    assert!(ranger::ops::task::positions_well_formed(&[task(1, State::Queued, "m"), task(2, State::Queued, "zb")]));
    assert!(!ranger::ops::task::positions_well_formed(&[task(1, State::Queued, "ma")]));
    assert!(!ranger::ops::task::positions_well_formed(&[task(1, State::Queued, "")]));
    assert!(!ranger::ops::task::positions_well_formed(&[task(1, State::Queued, "mB")]));
}
