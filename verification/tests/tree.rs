//! Tests for the tree model, the traversal engine, the archive sweep and
//! the text rendering.

use todo_outline::command_manager::{Command, CommandGroup};
use todo_outline::model::{Group, Todo, TodoConfig};
use todo_outline::render::{format_hierarchy, num_to_str};

fn todo(name: &str) -> Todo {
    Todo { name: name.to_string(), done_time: None, due: None, created: 0 }
}

fn done_todo(name: &str, at: i64) -> Todo {
    Todo { name: name.to_string(), done_time: Some(at), due: None, created: 0 }
}

fn group(name: &str, open: bool, subgroups: Vec<Group>, todos: Vec<Todo>, completed: Vec<Todo>) -> Group {
    Group {
        hidden: false,
        name: name.to_string(),
        open,
        todos,
        completed,
        todo_archive: vec![],
        subgroups,
        subgroup_archive: vec![],
    }
}

fn config(groups: Vec<Group>, archive_time: i64) -> TodoConfig {
    TodoConfig { groups, archive_groups: vec![], archive_time }
}

#[test]
fn todo_count_counts_active_todos_only() {
    // three active, two completed, one empty sub-group: the count is 3
    let g = group(
        "G",
        true,
        vec![group("empty", true, vec![], vec![], vec![])],
        vec![todo("a"), todo("b"), todo("c")],
        vec![done_todo("d", 5), done_todo("e", 6)],
    );
    assert_eq!(g.todo_count(), 3);
}

#[test]
fn todo_count_ignores_collapse_state() {
    // the sub-group's open flag makes no difference to the count
    let mut g = group(
        "G",
        true,
        vec![group("sub", true, vec![], vec![todo("nested")], vec![])],
        vec![todo("a"), todo("b"), todo("c")],
        vec![done_todo("d", 5), done_todo("e", 6)],
    );
    assert_eq!(g.todo_count(), 4);
    g.subgroups[0].open = false;
    assert_eq!(g.todo_count(), 4);
    g.open = false;
    assert_eq!(g.todo_count(), 4);
}

#[test]
fn is_empty_and_len() {
    let e = group("e", true, vec![], vec![], vec![]);
    assert!(e.is_empty());
    assert_eq!(e.len(), 0);
    let g = group(
        "g",
        false,
        vec![group("s", true, vec![], vec![], vec![])],
        vec![todo("t")],
        vec![done_todo("d", 1)],
    );
    assert!(!g.is_empty());
    assert_eq!(g.len(), 3);
}

#[test]
fn archive_sweep_moves_stale_completed_todo() {
    // one completed todo older than the retention time: after a sweep it
    // sits in the archive and `completed` is empty
    let g = group("G", true, vec![], vec![], vec![done_todo("old", 0)]);
    let mut c = config(vec![g], 10);
    c.archive_sweep(Some(1000));
    assert_eq!(c.groups[0].completed.len(), 0);
    assert_eq!(c.groups[0].todo_archive.len(), 1);
    assert_eq!(c.groups[0].todo_archive[0].name, "old");
}

#[test]
fn archive_sweep_is_idempotent() {
    let g = group("G", true, vec![], vec![todo("keep")], vec![done_todo("old", 0)]);
    let mut c = config(vec![g], 10);
    c.archive_sweep(Some(1000));
    let after_one: Vec<String> = c.groups[0].todo_archive.iter().map(|t| t.name.clone()).collect();
    assert_eq!(c.groups[0].completed.len(), 0);
    c.archive_sweep(Some(1000));
    let after_two: Vec<String> = c.groups[0].todo_archive.iter().map(|t| t.name.clone()).collect();
    assert_eq!(after_one, after_two);
    assert_eq!(c.groups[0].completed.len(), 0);
    assert_eq!(c.groups[0].todos.len(), 1);
}

#[test]
fn archive_sweep_keeps_fresh_todos() {
    let g = group("G", true, vec![], vec![], vec![done_todo("fresh", 995)]);
    let mut c = config(vec![g], 10);
    c.archive_sweep(Some(1000));
    assert_eq!(c.groups[0].completed.len(), 1);
    assert_eq!(c.groups[0].todo_archive.len(), 0);
}

#[test]
fn archive_sweep_without_a_clock_moves_nothing() {
    let g = group("G", true, vec![], vec![], vec![done_todo("old", 0)]);
    let mut c = config(vec![g], 10);
    c.archive_sweep(None);
    assert_eq!(c.groups[0].completed.len(), 1);
    assert_eq!(c.groups[0].todo_archive.len(), 0);
}

#[test]
fn archive_sweep_reaches_nested_groups() {
    let sub = group("S", false, vec![], vec![], vec![done_todo("deep", 0)]);
    let g = group("G", true, vec![sub], vec![], vec![]);
    let mut c = config(vec![g], 10);
    c.archive_sweep(Some(1000));
    assert_eq!(c.groups[0].subgroups[0].completed.len(), 0);
    assert_eq!(c.groups[0].subgroups[0].todo_archive.len(), 1);
}

#[test]
fn archive_sweep_keeps_archive_order_newest_position_first() {
    // removal runs from the highest index down, so the archive gains the
    // stale todos in descending position order
    let g = group(
        "G",
        true,
        vec![],
        vec![],
        vec![done_todo("first", 0), done_todo("second", 1)],
    );
    let mut c = config(vec![g], 10);
    c.archive_sweep(Some(1000));
    assert_eq!(c.groups[0].todo_archive[0].name, "second");
    assert_eq!(c.groups[0].todo_archive[1].name, "first");
}

#[test]
fn clear_archives_empties_every_archive() {
    let mut sub = group("S", true, vec![], vec![], vec![]);
    sub.todo_archive.push(done_todo("buried", 0));
    let mut g = group("G", true, vec![sub], vec![todo("keep")], vec![]);
    g.todo_archive.push(done_todo("gone", 0));
    g.subgroup_archive.push(group("old", false, vec![], vec![], vec![]));
    let mut c = config(vec![g], 10);
    c.archive_groups.push(group("root-old", false, vec![], vec![], vec![]));
    c.clear_archives();
    assert_eq!(c.archive_groups.len(), 0);
    assert_eq!(c.groups[0].todo_archive.len(), 0);
    assert_eq!(c.groups[0].subgroup_archive.len(), 0);
    assert_eq!(c.groups[0].subgroups[0].todo_archive.len(), 0);
    assert_eq!(c.groups[0].todos.len(), 1);
}

#[test]
fn num_to_str_digits_and_overflow() {
    assert_eq!(num_to_str(0), '0');
    assert_eq!(num_to_str(5), '5');
    assert_eq!(num_to_str(9), '9');
    assert_eq!(num_to_str(10), '+');
    assert_eq!(num_to_str(1000), '+');
}

#[test]
fn format_hierarchy_renders_open_group_with_todo() {
    let g = group("A", true, vec![], vec![todo("x")], vec![]);
    let c = config(vec![g], 10);
    assert_eq!(format_hierarchy(&c), "  [*] A\r\n    [ ] x\r\n");
}

#[test]
fn format_hierarchy_closed_group_shows_active_count() {
    let g = group("B", false, vec![], vec![todo("x"), todo("y")], vec![done_todo("z", 1)]);
    let c = config(vec![g], 10);
    // closed: one row, the glyph is the active count and children stay hidden
    assert_eq!(format_hierarchy(&c), "  [2] B\r\n");
}

#[test]
fn format_hierarchy_marks_completed_todos() {
    let g = group("A", true, vec![], vec![], vec![done_todo("d", 7)]);
    let c = config(vec![g], 10);
    assert_eq!(format_hierarchy(&c), "  [*] A\r\n    [*] d\r\n");
}

#[test]
fn format_hierarchy_nests_subgroups() {
    let sub = group("S", true, vec![], vec![todo("n")], vec![]);
    let g = group("A", true, vec![sub], vec![todo("t")], vec![]);
    let c = config(vec![g], 10);
    assert_eq!(
        format_hierarchy(&c),
        "  [*] A\r\n    [*] S\r\n      [ ] n\r\n    [ ] t\r\n"
    );
}

#[test]
fn add_top_group_appends_a_fresh_group() {
    let mut c = config(vec![], 10);
    c.add_top_group("first".to_string(), true);
    c.add_top_group("second".to_string(), false);
    assert_eq!(c.groups.len(), 2);
    assert_eq!(c.groups[0].name, "first");
    assert!(c.groups[0].open);
    assert_eq!(c.groups[1].name, "second");
    assert!(!c.groups[1].open);
    assert!(c.groups[1].is_empty());
}

#[test]
fn new_config_holds_the_starter_forest() {
    let c = TodoConfig::new();
    assert_eq!(c.archive_time, 86400);
    assert_eq!(c.archive_groups.len(), 0);
    assert_eq!(c.groups.len(), 1);
    let g = &c.groups[0];
    assert_eq!(g.name, "Welcome");
    assert!(g.open);
    assert_eq!(g.todos.len(), 2);
    assert_eq!(g.todos[0].name, "Welcome to todo!");
    assert_eq!(g.todos[1].name, "Press 'h' for help");
    assert!(g.todos[0].done_time.is_none());
    assert_eq!(g.subgroups.len(), 2);
    assert_eq!(g.subgroups[0].name, "Subgroup");
    assert_eq!(g.subgroups[1].name, "Another subgroup");
    assert_eq!(g.subgroups[0].todos.len(), 1);
}

struct Plain;

impl todo_outline::command_manager::CommandPart<Plain> for String {
    fn to_string(&self, _context: &Plain) -> String {
        self.clone()
    }
}

#[test]
fn command_group_renders_each_command() {
    let cmd1 = Command::<String, Plain> {
        parts: vec!["ab".to_string(), "cd".to_string()],
        ctx_phantom: core::marker::PhantomData,
    };
    let cmd2 = Command::<String, Plain> {
        parts: vec![],
        ctx_phantom: core::marker::PhantomData,
    };
    let grp = CommandGroup { commands: vec![cmd1, cmd2] };
    let rendered = grp.to_strings(&Plain);
    assert_eq!(rendered, vec!["abcd".to_string(), String::new()]);
}
