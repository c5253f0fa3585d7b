//! Tests for the position hierarchy: path resolution, visual stepping,
//! row numbers, and the structural mutations that re-clamp the path.

use todo_outline::model::{Group, Todo, TodoConfig};
use todo_outline::navigation::{
    vert_offset_at, vert_pos_offset_at, HierarchyItemEnum, HierarchyItemEnumMut, MoveError,
    PositionHierarchy,
};

fn todo(name: &str) -> Todo {
    Todo { name: name.to_string(), done_time: None, due: None, created: 0 }
}

fn done_todo(name: &str, at: i64) -> Todo {
    Todo { name: name.to_string(), done_time: Some(at), due: None, created: 0 }
}

fn group(name: &str, open: bool, subgroups: Vec<Group>, todos: Vec<Todo>, completed: Vec<Todo>) -> Group {
    Group {
        hidden: false,
        name: name.to_string(),
        open,
        todos,
        completed,
        todo_archive: vec![],
        subgroups,
        subgroup_archive: vec![],
    }
}

fn config(groups: Vec<Group>) -> TodoConfig {
    TodoConfig { groups, archive_groups: vec![], archive_time: 86400 }
}

fn cursor(path: &[usize]) -> PositionHierarchy {
    PositionHierarchy { indexes: path.to_vec() }
}

/// One root group "A", open, with two todos.
fn simple_forest() -> TodoConfig {
    config(vec![group("A", true, vec![], vec![todo("T1"), todo("T2")], vec![])])
}

/// A deeper forest: A(open){ S(open){ N }, T }, B(closed){ X, Y }, C.
fn deep_forest() -> TodoConfig {
    let s = group("S", true, vec![], vec![todo("N")], vec![]);
    let a = group("A", true, vec![s], vec![todo("T")], vec![]);
    let b = group("B", false, vec![], vec![todo("X"), todo("Y")], vec![]);
    let c = group("C", true, vec![], vec![], vec![]);
    config(vec![a, b, c])
}

fn item_name(config: &TodoConfig, path: &[usize]) -> String {
    match cursor(path).find_item(config).unwrap().item {
        HierarchyItemEnum::Group(g) => g.name.clone(),
        HierarchyItemEnum::Todo(t) => t.name.clone(),
    }
}

#[test]
fn new_cursor_points_at_the_first_root_group() {
    let h = PositionHierarchy::new();
    assert_eq!(h.indexes, vec![0]);
    let d = PositionHierarchy::default();
    assert_eq!(d.indexes, vec![0]);
}

#[test]
fn last_and_last_mut() {
    let mut h = cursor(&[2, 5]);
    assert_eq!(h.last().unwrap(), 5);
    *h.last_mut().unwrap() = 7;
    assert_eq!(h.indexes, vec![2, 7]);
    let mut empty = cursor(&[]);
    assert!(matches!(empty.last(), Err(MoveError::NoIndex)));
    assert!(matches!(empty.last_mut(), Err(MoveError::NoIndex)));
}

#[test]
fn find_item_resolves_groups_and_todos() {
    let c = deep_forest();
    assert_eq!(item_name(&c, &[0]), "A");
    assert_eq!(item_name(&c, &[0, 0]), "S");
    assert_eq!(item_name(&c, &[0, 0, 0]), "N");
    assert_eq!(item_name(&c, &[0, 1]), "T");
    assert_eq!(item_name(&c, &[1, 1]), "Y");
    assert_eq!(item_name(&c, &[2]), "C");
}

#[test]
fn find_item_resolves_completed_after_todos() {
    let g = group(
        "G",
        true,
        vec![group("s", true, vec![], vec![], vec![])],
        vec![todo("t")],
        vec![done_todo("d", 1)],
    );
    let c = config(vec![g]);
    assert_eq!(item_name(&c, &[0, 0]), "s");
    assert_eq!(item_name(&c, &[0, 1]), "t");
    assert_eq!(item_name(&c, &[0, 2]), "d");
}

#[test]
fn find_item_reports_depth() {
    let c = deep_forest();
    assert_eq!(cursor(&[0]).find_item(&c).unwrap().depth, 0);
    assert_eq!(cursor(&[0, 0, 0]).find_item(&c).unwrap().depth, 2);
}

#[test]
fn find_item_error_kinds() {
    let c = deep_forest();
    assert!(matches!(cursor(&[]).find_item(&c), Err(MoveError::NoIndex)));
    assert!(matches!(cursor(&[9]).find_item(&c), Err(MoveError::GroupNotFound)));
    // an intermediate index that names no sub-group
    assert!(matches!(cursor(&[0, 5, 0]).find_item(&c), Err(MoveError::GroupNotFound)));
    // a final index past the group's child count
    assert!(matches!(cursor(&[0, 2]).find_item(&c), Err(MoveError::OutOfBounds)));
}

#[test]
fn find_group_returns_the_parent_of_the_final_index() {
    let c = deep_forest();
    assert_eq!(cursor(&[0, 0, 0]).find_group(&c).unwrap().name, "S");
    assert_eq!(cursor(&[0, 1]).find_group(&c).unwrap().name, "A");
    // a length-one path yields the root group itself
    assert_eq!(cursor(&[1]).find_group(&c).unwrap().name, "B");
}

#[test]
fn find_item_mut_agrees_with_find_item() {
    // read/write consistency: both views resolve to the same logical item
    let mut c = deep_forest();
    for path in [&[0usize][..], &[0, 0], &[0, 0, 0], &[0, 1], &[1, 0]] {
        let name = item_name(&c, path);
        let mut_name = match cursor(path).find_item_mut(&mut c).unwrap().item {
            HierarchyItemEnumMut::Group(g) => g.name.clone(),
            HierarchyItemEnumMut::Todo(t) => t.name.clone(),
        };
        assert_eq!(name, mut_name);
    }
}

#[test]
fn find_item_mut_writes_through() {
    let mut c = deep_forest();
    if let HierarchyItemEnumMut::Todo(t) = cursor(&[0, 0, 0]).find_item_mut(&mut c).unwrap().item {
        t.name = "renamed".to_string();
    } else {
        panic!("expected a todo");
    }
    assert_eq!(item_name(&c, &[0, 0, 0]), "renamed");
}

#[test]
fn cursor_down_walks_the_simple_forest() {
    // the literal scenario: [0] -> [0,0] -> [0,1] -> clamped at [0,1]
    let c = simple_forest();
    let mut h = cursor(&[0]);
    h.cursor_down(&c).unwrap();
    assert_eq!(h.indexes, vec![0, 0]);
    h.cursor_down(&c).unwrap();
    assert_eq!(h.indexes, vec![0, 1]);
    h.cursor_down(&c).unwrap();
    assert_eq!(h.indexes, vec![0, 1]);
    assert_eq!(h.vert_pos(&c).unwrap(), 2);
}

#[test]
fn cursor_down_skips_closed_groups() {
    let c = deep_forest();
    let mut h = cursor(&[1]);
    // B is closed: its todos are invisible, the next row is C
    h.cursor_down(&c).unwrap();
    assert_eq!(h.indexes, vec![2]);
}

#[test]
fn cursor_down_ascends_exhausted_levels() {
    let c = deep_forest();
    // N is the last row of S, and T follows inside A
    let mut h = cursor(&[0, 0, 0]);
    h.cursor_down(&c).unwrap();
    assert_eq!(h.indexes, vec![0, 1]);
    // T is the last row of A; the next row is B, two levels up
    h.cursor_down(&c).unwrap();
    assert_eq!(h.indexes, vec![1]);
}

#[test]
fn cursor_up_descends_to_the_last_visible_child() {
    let c = deep_forest();
    // the row above B is N, the deepest last child of A
    let mut h = cursor(&[1]);
    h.cursor_up(&c).unwrap();
    assert_eq!(h.indexes, vec![0, 1]);
    h.cursor_up(&c).unwrap();
    assert_eq!(h.indexes, vec![0, 0, 0]);
    h.cursor_up(&c).unwrap();
    assert_eq!(h.indexes, vec![0, 0]);
    h.cursor_up(&c).unwrap();
    assert_eq!(h.indexes, vec![0]);
    // the very first row: a no-op
    h.cursor_up(&c).unwrap();
    assert_eq!(h.indexes, vec![0]);
}

#[test]
fn cursor_down_then_up_returns_everywhere() {
    let c = deep_forest();
    let mut h = cursor(&[0]);
    loop {
        let before = h.indexes.clone();
        h.cursor_down(&c).unwrap();
        if h.indexes == before {
            break;
        }
        let after = h.indexes.clone();
        h.cursor_up(&c).unwrap();
        assert_eq!(h.indexes, before);
        h.indexes = after;
    }
}

#[test]
fn vert_pos_changes_by_one_per_visual_step() {
    let c = deep_forest();
    let mut h = cursor(&[0]);
    let mut row = h.vert_pos(&c).unwrap();
    assert_eq!(row, 0);
    loop {
        let before = h.indexes.clone();
        h.cursor_down(&c).unwrap();
        if h.indexes == before {
            break;
        }
        let next = h.vert_pos(&c).unwrap();
        assert_eq!(next, row + 1);
        row = next;
    }
    loop {
        let before = h.indexes.clone();
        h.cursor_up(&c).unwrap();
        if h.indexes == before {
            break;
        }
        let next = h.vert_pos(&c).unwrap();
        assert_eq!(next, row - 1);
        row = next;
    }
    assert_eq!(row, 0);
}

#[test]
fn vert_pos_counts_a_closed_group_as_one_row() {
    let c = deep_forest();
    // rows: 0 A, 1 S, 2 N, 3 T, 4 B (closed, exactly one row), 5 C
    assert_eq!(cursor(&[1]).vert_pos(&c).unwrap(), 4);
    assert_eq!(cursor(&[2]).vert_pos(&c).unwrap(), 5);
}

#[test]
fn vert_pos_of_nested_rows() {
    let c = deep_forest();
    assert_eq!(cursor(&[0]).vert_pos(&c).unwrap(), 0);
    assert_eq!(cursor(&[0, 0]).vert_pos(&c).unwrap(), 1);
    assert_eq!(cursor(&[0, 0, 0]).vert_pos(&c).unwrap(), 2);
    assert_eq!(cursor(&[0, 1]).vert_pos(&c).unwrap(), 3);
}

#[test]
fn vert_offset_formula() {
    assert_eq!(vert_offset_at(8, 3), 6);
    assert_eq!(vert_offset_at(3, 50), 0);
    assert_eq!(vert_pos_offset_at(8, 3), 2);
    assert_eq!(vert_pos_offset_at(3, 50), 3);
    // the offset passes the row: clamped at zero
    assert_eq!(vert_pos_offset_at(4, 10), 0);
}

#[test]
fn group_up_and_group_down_step_siblings_only() {
    let c = deep_forest();
    let mut h = cursor(&[0]);
    h.group_down(&c).unwrap();
    assert_eq!(h.indexes, vec![1]);
    h.group_down(&c).unwrap();
    assert_eq!(h.indexes, vec![2]);
    // clamped at the forest's end
    h.group_down(&c).unwrap();
    assert_eq!(h.indexes, vec![2]);
    h.group_up(&c).unwrap();
    assert_eq!(h.indexes, vec![1]);
    let mut inner = cursor(&[0, 0]);
    inner.group_down(&c).unwrap();
    assert_eq!(inner.indexes, vec![0, 1]);
    inner.group_down(&c).unwrap();
    assert_eq!(inner.indexes, vec![0, 1]);
    inner.group_up(&c).unwrap();
    inner.group_up(&c).unwrap();
    assert_eq!(inner.indexes, vec![0, 0]);
}

#[test]
fn hierarchy_up_pops_one_level() {
    let c = deep_forest();
    let mut h = cursor(&[0, 0, 0]);
    h.hierarchy_up(&c).unwrap();
    assert_eq!(h.indexes, vec![0, 0]);
    h.hierarchy_up(&c).unwrap();
    h.hierarchy_up(&c).unwrap();
    assert_eq!(h.indexes, vec![0]);
}

#[test]
fn hierarchy_down_opens_and_enters() {
    let mut c = deep_forest();
    let mut h = cursor(&[1]);
    // B is closed and non-empty: force it open and descend
    h.hierarchy_down(&mut c).unwrap();
    assert_eq!(h.indexes, vec![1, 0]);
    assert!(c.groups[1].open);
    // on a todo: a no-op
    let mut t = cursor(&[0, 1]);
    t.hierarchy_down(&mut c).unwrap();
    assert_eq!(t.indexes, vec![0, 1]);
    // on an empty group: a no-op
    let mut e = cursor(&[2]);
    e.hierarchy_down(&mut c).unwrap();
    assert_eq!(e.indexes, vec![2]);
}

#[test]
fn activate_item_toggles_a_group_open_flag() {
    let mut c = deep_forest();
    cursor(&[1]).activate_item(&mut c, Some(50)).unwrap();
    assert!(c.groups[1].open);
    cursor(&[1]).activate_item(&mut c, Some(50)).unwrap();
    assert!(!c.groups[1].open);
}

#[test]
fn activate_item_completes_and_reactivates_a_todo() {
    // toggling twice is its own inverse: container and done state return
    let g = group("G", true, vec![], vec![todo("a"), todo("b")], vec![]);
    let mut c = config(vec![g]);
    cursor(&[0, 0]).activate_item(&mut c, Some(42)).unwrap();
    assert_eq!(c.groups[0].todos.len(), 1);
    assert_eq!(c.groups[0].completed.len(), 1);
    assert_eq!(c.groups[0].completed[0].name, "a");
    assert_eq!(c.groups[0].completed[0].done_time, Some(42));
    // the completed todo now sits at the last child position
    cursor(&[0, 1]).activate_item(&mut c, Some(43)).unwrap();
    assert_eq!(c.groups[0].completed.len(), 0);
    assert_eq!(c.groups[0].todos.len(), 2);
    assert_eq!(c.groups[0].todos[1].name, "a");
    assert!(c.groups[0].todos[1].done_time.is_none());
}

#[test]
fn archive_todo_moves_and_clamps() {
    let g = group("G", true, vec![], vec![todo("a"), todo("b")], vec![]);
    let mut c = config(vec![g]);
    let mut h = cursor(&[0, 1]);
    h.archive_todo(&mut c).unwrap();
    assert_eq!(c.groups[0].todos.len(), 1);
    assert_eq!(c.groups[0].todo_archive.len(), 1);
    assert_eq!(c.groups[0].todo_archive[0].name, "b");
    // the removed row was last: the path clamps to the previous sibling
    assert_eq!(h.indexes, vec![0, 0]);
    h.archive_todo(&mut c).unwrap();
    // no sibling remains: the path pops to the parent
    assert_eq!(h.indexes, vec![0]);
    assert_eq!(c.groups[0].todo_archive.len(), 2);
}

#[test]
fn archive_todo_from_completed() {
    let g = group("G", true, vec![], vec![todo("a")], vec![done_todo("d", 9)]);
    let mut c = config(vec![g]);
    let mut h = cursor(&[0, 1]);
    h.archive_todo(&mut c).unwrap();
    assert_eq!(c.groups[0].completed.len(), 0);
    assert_eq!(c.groups[0].todo_archive[0].name, "d");
    assert_eq!(c.groups[0].todo_archive[0].done_time, Some(9));
    assert_eq!(h.indexes, vec![0, 0]);
}

#[test]
fn archive_todo_ignores_groups() {
    let mut c = deep_forest();
    let mut h = cursor(&[0, 0]);
    h.archive_todo(&mut c).unwrap();
    assert_eq!(h.indexes, vec![0, 0]);
    assert_eq!(c.groups[0].todo_archive.len(), 0);
    assert_eq!(c.groups[0].subgroups.len(), 1);
}

#[test]
fn hide_group_archives_a_root_group() {
    let mut c = deep_forest();
    let mut h = cursor(&[2]);
    h.hide_group(&mut c).unwrap();
    assert_eq!(c.groups.len(), 2);
    assert_eq!(c.archive_groups.len(), 1);
    assert_eq!(c.archive_groups[0].name, "C");
    // the removed index was past the new end: clamped down
    assert_eq!(h.indexes, vec![1]);
}

#[test]
fn hide_group_archives_a_nested_group() {
    let mut c = deep_forest();
    let mut h = cursor(&[0, 0]);
    h.hide_group(&mut c).unwrap();
    assert_eq!(c.groups[0].subgroups.len(), 0);
    assert_eq!(c.groups[0].subgroup_archive.len(), 1);
    assert_eq!(c.groups[0].subgroup_archive[0].name, "S");
    // the todo "T" slid into the removed position, so the path stands
    assert_eq!(h.indexes, vec![0, 0]);
}

#[test]
fn move_todo_down_and_up_swap_neighbours() {
    let g = group("G", true, vec![], vec![todo("a"), todo("b"), todo("c")], vec![]);
    let mut c = config(vec![g]);
    let mut h = cursor(&[0, 0]);
    h.move_todo_down(&mut c).unwrap();
    let names: Vec<&str> = c.groups[0].todos.iter().map(|t| t.name.as_str()).collect();
    assert_eq!(names, ["b", "a", "c"]);
    assert_eq!(h.indexes, vec![0, 1]);
    h.move_todo_up(&mut c).unwrap();
    let names: Vec<&str> = c.groups[0].todos.iter().map(|t| t.name.as_str()).collect();
    assert_eq!(names, ["a", "b", "c"]);
    assert_eq!(h.indexes, vec![0, 0]);
    // at the first todo, moving up is a no-op
    h.move_todo_up(&mut c).unwrap();
    assert_eq!(h.indexes, vec![0, 0]);
    // at the last todo, moving down is a no-op
    let mut last = cursor(&[0, 2]);
    last.move_todo_down(&mut c).unwrap();
    assert_eq!(last.indexes, vec![0, 2]);
}

#[test]
fn move_group_down_and_up_swap_neighbour_subgroups() {
    let s1 = group("one", true, vec![], vec![], vec![]);
    let s2 = group("two", true, vec![], vec![], vec![]);
    let g = group("G", true, vec![s1, s2], vec![], vec![]);
    let mut c = config(vec![g]);
    let mut h = cursor(&[0, 0]);
    h.move_group_down(&mut c).unwrap();
    assert_eq!(c.groups[0].subgroups[0].name, "two");
    assert_eq!(c.groups[0].subgroups[1].name, "one");
    assert_eq!(h.indexes, vec![0, 1]);
    h.move_group_up(&mut c).unwrap();
    assert_eq!(c.groups[0].subgroups[0].name, "one");
    assert_eq!(h.indexes, vec![0, 0]);
}

#[test]
fn add_todo_appends_to_the_addressed_group() {
    let mut c = deep_forest();
    cursor(&[0, 0]).add_todo(&mut c, "fresh".to_string(), Some(99), 7).unwrap();
    let s = &c.groups[0].subgroups[0];
    assert_eq!(s.todos.len(), 2);
    assert_eq!(s.todos[1].name, "fresh");
    assert_eq!(s.todos[1].due, Some(99));
    assert_eq!(s.todos[1].created, 7);
    assert!(s.todos[1].done_time.is_none());
}

#[test]
fn add_group_appends_an_open_subgroup() {
    let mut c = deep_forest();
    cursor(&[2]).add_group(&mut c, "kid".to_string()).unwrap();
    assert_eq!(c.groups[2].subgroups.len(), 1);
    assert_eq!(c.groups[2].subgroups[0].name, "kid");
    assert!(c.groups[2].subgroups[0].open);
    assert!(c.groups[2].subgroups[0].is_empty());
}

#[test]
fn cursor_operations_report_stale_paths() {
    let c = deep_forest();
    let mut h = cursor(&[7, 0]);
    assert!(matches!(h.cursor_down(&c), Err(MoveError::GroupNotFound)));
    assert_eq!(h.indexes, vec![7, 0]);
    let mut e = cursor(&[]);
    assert!(matches!(e.cursor_down(&c), Err(MoveError::NoIndex)));
    assert!(matches!(e.group_down(&c), Err(MoveError::NoIndex)));
    assert!(matches!(e.group_up(&c), Err(MoveError::NoIndex)));
}
