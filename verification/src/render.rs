//! The indented text rendering of the forest.
//!
//! Each group occupies one header row: an open marker (`*`) or, when the
//! group is closed, a single digit for its count of active todos, then the
//! group's name.  Each todo occupies one row with a done marker.  Rows are
//! indented two spaces per depth, and only the children of open groups are
//! rendered — the same descent decision the traversal engine makes.

use vstd::prelude::*;

use crate::model::{
    active_count, config_fits, forest_weight, groups_view, lemma_forest_weight_bounds,
    lemma_groups_view, lemma_weight_bounds, todos_view, weight, Group, GroupModel, TodoConfig,
    TodoModel,
};

verus! {

broadcast use {vstd::std_specs::vec::group_vec_axioms, vstd::seq::group_seq_axioms};

/// The digit shown for a closed group: the count itself below ten, a plus
/// sign from ten on.
pub open spec fn spec_num_char(num: int) -> char {
    if num == 0 {
        '0'
    } else if num == 1 {
        '1'
    } else if num == 2 {
        '2'
    } else if num == 3 {
        '3'
    } else if num == 4 {
        '4'
    } else if num == 5 {
        '5'
    } else if num == 6 {
        '6'
    } else if num == 7 {
        '7'
    } else if num == 8 {
        '8'
    } else if num == 9 {
        '9'
    } else {
        '+'
    }
}

/// A count rendered as one character: its digit below ten, else `+`.
pub fn num_to_str(num: usize) -> (r: char)
    ensures
        r == spec_num_char(num as int),
{
    match num {
        0 => '0',
        1 => '1',
        2 => '2',
        3 => '3',
        4 => '4',
        5 => '5',
        6 => '6',
        7 => '7',
        8 => '8',
        9 => '9',
        _ => '+',
    }
}

/// Two spaces of indent per depth level.
pub open spec fn indent(depth: int) -> Seq<char>
    decreases depth,
{
    if depth <= 0 {
        Seq::empty()
    } else {
        indent(depth - 1) + seq![' ', ' ']
    }
}

/// A group's header row.
pub open spec fn spec_header_row(g: GroupModel, depth: int) -> Seq<char> {
    indent(depth) + seq!['['] + seq![
        if g.open {
            '*'
        } else {
            spec_num_char(active_count(g) as int)
        },
    ] + seq![']', ' '] + g.name + seq!['\r', '\n']
}

/// A todo's row.
pub open spec fn spec_todo_row(t: TodoModel, depth: int) -> Seq<char> {
    indent(depth) + seq!['['] + seq![
        if t.done_time is Some {
            '*'
        } else {
            ' '
        },
    ] + seq![']', ' '] + t.name + seq!['\r', '\n']
}

/// The rendering of one group's subtree: its header, and, when it is
/// open, the renderings of its sub-groups, todos and completed todos.
pub open spec fn spec_render_group(g: GroupModel, depth: int) -> Seq<char>
    decreases g,
{
    spec_header_row(g, depth) + (if g.open {
        spec_render_forest(g.subgroups, depth + 1) + spec_render_todos(g.todos, depth + 1)
            + spec_render_todos(g.completed, depth + 1)
    } else {
        Seq::empty()
    })
}

/// The concatenated renderings of sibling groups.
pub open spec fn spec_render_forest(s: Seq<GroupModel>, depth: int) -> Seq<char>
    decreases s,
{
    if s.len() == 0 {
        Seq::empty()
    } else {
        spec_render_forest(s.drop_last(), depth) + spec_render_group(s.last(), depth)
    }
}

/// The concatenated rows of a sequence of todos.
pub open spec fn spec_render_todos(s: Seq<TodoModel>, depth: int) -> Seq<char>
    decreases s,
{
    if s.len() == 0 {
        Seq::empty()
    } else {
        spec_render_todos(s.drop_last(), depth) + spec_todo_row(s.last(), depth)
    }
}

/// Relies on String::push: appends exactly one character.
#[verifier::external_body]
fn push_char(s: &mut String, c: char)
    ensures
        final(s)@ == old(s)@.push(c),
{
    s.push(c);
}

/// Appends two spaces per depth level.
fn push_indent(out: &mut String, depth: usize)
    ensures
        final(out)@ == old(out)@ + indent(depth as int),
{
    let ghost base = out@;
    let mut i: usize = 0;
    proof {
        reveal_strlit("  ");
        assert(base + indent(0) =~= base);
    }
    while i < depth
        invariant
            i <= depth,
            out@ == base + indent(i as int),
        decreases depth - i,
    {
        out.append("  ");
        i += 1;
        proof {
            reveal_strlit("  ");
            assert("  "@ =~= seq![' ', ' ']);
            assert(base + indent(i - 1) + "  "@ =~= base + indent(i as int));
        }
    }
}

/// Renders one group's subtree onto the end of `out`.
fn render_group(group: &Group, depth: usize, out: &mut String)
    requires
        depth + weight(group@) <= usize::MAX,
    ensures
        final(out)@ == old(out)@ + spec_render_group(group@, depth as int),
    decreases group,
{
    proof {
        lemma_groups_view(group.subgroups@);
        lemma_forest_weight_bounds(group@.subgroups);
        lemma_weight_bounds(group@);
    }
    push_indent(out, depth);
    push_char(out, '[');
    if group.open {
        push_char(out, '*');
    } else {
        let count = group.todo_count();
        push_char(out, num_to_str(count));
    }
    push_char(out, ']');
    push_char(out, ' ');
    out.append(group.name.as_str());
    push_char(out, '\r');
    push_char(out, '\n');
    proof {
        assert(out@ =~= old(out)@ + spec_header_row(group@, depth as int));
    }
    if !group.open {
        proof {
            assert(old(out)@ + spec_header_row(group@, depth as int) =~= old(out)@
                + spec_render_group(group@, depth as int));
        }
        return ;
    }
    let ghost after_header = out@;
    let mut i: usize = 0;
    while i < group.subgroups.len()
        invariant
            i <= group.subgroups.len(),
            depth + weight(group@) <= usize::MAX,
            groups_view(group.subgroups@) == group@.subgroups,
            forest_weight(group@.subgroups) < weight(group@),
            after_header == old(out)@ + spec_header_row(group@, depth as int),
            group@.open,
            out@ == after_header + spec_render_forest(group@.subgroups.take(i as int), depth + 1),
        decreases group.subgroups.len() - i,
    {
        proof {
            lemma_groups_view(group.subgroups@);
            lemma_forest_weight_bounds(group@.subgroups);
            assert((group.subgroups@[i as int])@ == group@.subgroups[i as int]);
            assert(group@.subgroups.take(i + 1).drop_last() =~= group@.subgroups.take(i as int));
            assert(group@.subgroups.take(i + 1).last() == group@.subgroups[i as int]);
        }
        render_group(&group.subgroups[i], depth + 1, out);
        i += 1;
        proof {
            assert(out@ =~= after_header + spec_render_forest(
                group@.subgroups.take(i as int),
                depth + 1,
            ));
        }
    }
    proof {
        assert(group@.subgroups.take(group.subgroups@.len() as int) =~= group@.subgroups);
    }
    let ghost after_subs = out@;
    let mut j: usize = 0;
    while j < group.todos.len()
        invariant
            j <= group.todos.len(),
            todos_view(group.todos@) == group@.todos,
            out@ == after_subs + spec_render_todos(group@.todos.take(j as int), depth + 1),
            depth < usize::MAX,
        decreases group.todos.len() - j,
    {
        proof {
            assert((group.todos@[j as int])@ == group@.todos[j as int]);
            assert(group@.todos.take(j + 1).drop_last() =~= group@.todos.take(j as int));
        }
        render_todo(&group.todos[j], depth + 1, out);
        j += 1;
        proof {
            assert(out@ =~= after_subs + spec_render_todos(group@.todos.take(j as int), depth + 1));
        }
    }
    proof {
        assert(group@.todos.take(group.todos@.len() as int) =~= group@.todos);
    }
    let ghost after_todos = out@;
    let mut k: usize = 0;
    while k < group.completed.len()
        invariant
            k <= group.completed.len(),
            todos_view(group.completed@) == group@.completed,
            out@ == after_todos + spec_render_todos(group@.completed.take(k as int), depth + 1),
            depth < usize::MAX,
        decreases group.completed.len() - k,
    {
        proof {
            assert((group.completed@[k as int])@ == group@.completed[k as int]);
            assert(group@.completed.take(k + 1).drop_last() =~= group@.completed.take(k as int));
        }
        render_todo(&group.completed[k], depth + 1, out);
        k += 1;
        proof {
            assert(out@ =~= after_todos + spec_render_todos(
                group@.completed.take(k as int),
                depth + 1,
            ));
        }
    }
    proof {
        assert(group@.completed.take(group.completed@.len() as int) =~= group@.completed);
        assert(out@ =~= old(out)@ + spec_render_group(group@, depth as int));
    }
}

/// Renders one todo row onto the end of `out`.
fn render_todo(todo: &crate::model::Todo, depth: usize, out: &mut String)
    ensures
        final(out)@ == old(out)@ + spec_todo_row(todo@, depth as int),
{
    push_indent(out, depth);
    push_char(out, '[');
    if todo.done_time.is_some() {
        push_char(out, '*');
    } else {
        push_char(out, ' ');
    }
    push_char(out, ']');
    push_char(out, ' ');
    out.append(todo.name.as_str());
    push_char(out, '\r');
    push_char(out, '\n');
    proof {
        assert(out@ =~= old(out)@ + spec_todo_row(todo@, depth as int));
    }
}

/// The whole forest rendered as an indented, collapse-aware list, one row
/// per group header or todo, root groups at depth one.
pub fn format_hierarchy(context: &TodoConfig) -> (r: String)
    requires
        config_fits(context@),
        forest_weight(context@.groups) + 1 <= usize::MAX,
    ensures
        r@ == spec_render_forest(context@.groups, 1),
{
    let mut out = String::new();
    let ghost c = context@;
    proof {
        lemma_groups_view(context.groups@);
        assert(out@ + spec_render_forest(c.groups.take(0), 1) =~= out@);
        assert(Seq::<char>::empty() + spec_render_forest(c.groups.take(0), 1) =~= Seq::<
            char,
        >::empty());
    }
    let mut i: usize = 0;
    while i < context.groups.len()
        invariant
            i <= context.groups.len(),
            c == context@,
            config_fits(c),
            forest_weight(c.groups) + 1 <= usize::MAX,
            groups_view(context.groups@) == c.groups,
            out@ == spec_render_forest(c.groups.take(i as int), 1),
        decreases context.groups.len() - i,
    {
        proof {
            lemma_groups_view(context.groups@);
            lemma_forest_weight_bounds(c.groups);
            assert((context.groups@[i as int])@ == c.groups[i as int]);
            assert(c.groups.take(i + 1).drop_last() =~= c.groups.take(i as int));
            assert(c.groups.take(i + 1).last() == c.groups[i as int]);
        }
        render_group(&context.groups[i], 1, &mut out);
        i += 1;
        proof {
            assert(out@ =~= spec_render_forest(c.groups.take(i as int), 1));
        }
    }
    proof {
        assert(c.groups.take(context.groups@.len() as int) =~= c.groups);
    }
    out
}

} // verus!
