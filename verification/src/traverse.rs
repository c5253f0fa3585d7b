//! The traversal engine: a generic pre-order fold over a group's subtree.
//!
//! A visitor supplies three callbacks.  `pre_handle` runs before a group's
//! children and decides whether to descend into them; `todo_handle` runs for
//! each todo of `todos` and then of `completed` (only when the group was
//! descended into); `post_handle` runs after all children, descended or not.
//! Sub-groups are visited depth-first in sequence order, each finished
//! (including its own `post_handle`) before the next begins.  One
//! accumulator is threaded linearly through the whole walk.
//!
//! Each callback is pinned to a specification function of the visitor, so a
//! fold's result is known exactly from [`spec_traverse`].

use vstd::prelude::*;

use crate::model::{
    active_count, config_fits, count_active, forest_active_count, forest_weight, groups_view,
    lemma_count_active_le, lemma_forest_weight_bounds, lemma_groups_view, lemma_weight_bounds,
    todos_view, weight, ConfigModel, Group, GroupModel, Todo, TodoConfig, TodoModel,
};

verus! {

broadcast use {vstd::std_specs::vec::group_vec_axioms, vstd::seq::group_seq_axioms};

/// A read-only visitor: three callbacks, each fixed to its specification.
pub trait TreeVisitor<A>: Sized {
    /// What `pre_handle` returns: whether to descend, and the new
    /// accumulator.
    spec fn pre_spec(g: GroupModel, depth: int, acc: A) -> (bool, A);

    /// What `todo_handle` returns.
    spec fn todo_spec(t: TodoModel, depth: int, acc: A) -> A;

    /// What `post_handle` returns.
    spec fn post_spec(g: GroupModel, depth: int, acc: A) -> A;

    /// Visits a group before its children; decides the descent.
    fn pre_handle(g: &Group, depth: usize, acc: A) -> (r: (bool, A))
        ensures
            r == Self::pre_spec(g@, depth as int, acc),
    ;

    /// Visits one todo.
    fn todo_handle(t: &Todo, depth: usize, acc: A) -> (r: A)
        ensures
            r == Self::todo_spec(t@, depth as int, acc),
    ;

    /// Visits a group after its children.
    fn post_handle(g: &Group, depth: usize, acc: A) -> (r: A)
        ensures
            r == Self::post_spec(g@, depth as int, acc),
    ;
}

/// The value of a fold with visitor `V` over the subtree of `g`.
pub open spec fn spec_traverse<A, V: TreeVisitor<A>>(g: GroupModel, acc: A, depth: int) -> A
    decreases g,
{
    let (descend, a1) = V::pre_spec(g, depth, acc);
    let a2 = if descend {
        let a_subs = spec_traverse_forest::<A, V>(g.subgroups, a1, depth + 1);
        let a_todos = spec_traverse_todos::<A, V>(g.todos, a_subs, depth + 1);
        spec_traverse_todos::<A, V>(g.completed, a_todos, depth + 1)
    } else {
        a1
    };
    V::post_spec(g, depth, a2)
}

/// The fold threaded left to right over a sequence of sibling groups.
pub open spec fn spec_traverse_forest<A, V: TreeVisitor<A>>(
    s: Seq<GroupModel>,
    acc: A,
    depth: int,
) -> A
    decreases s,
{
    if s.len() == 0 {
        acc
    } else {
        spec_traverse::<A, V>(s.last(), spec_traverse_forest::<A, V>(s.drop_last(), acc, depth), depth)
    }
}

/// The fold threaded left to right over a sequence of todos.
pub open spec fn spec_traverse_todos<A, V: TreeVisitor<A>>(
    s: Seq<TodoModel>,
    acc: A,
    depth: int,
) -> A
    decreases s,
{
    if s.len() == 0 {
        acc
    } else {
        V::todo_spec(s.last(), depth, spec_traverse_todos::<A, V>(s.drop_last(), acc, depth))
    }
}

impl Group {
    /// Folds the visitor `V` over this group's subtree in pre-order,
    /// starting the depth count at `depth`.
    pub fn traverse<A, V: TreeVisitor<A>>(&self, acc: A, depth: usize) -> (r: A)
        requires
            depth + weight(self@) <= usize::MAX,
        ensures
            r == spec_traverse::<A, V>(self@, acc, depth as int),
        decreases self,
    {
        proof {
            lemma_groups_view(self.subgroups@);
            lemma_forest_weight_bounds(self@.subgroups);
        }
        let (descend, mut value) = V::pre_handle(self, depth, acc);
        if descend {
            let ghost after_pre = value;
            let mut i: usize = 0;
            while i < self.subgroups.len()
                invariant
                    i <= self.subgroups.len(),
                    depth + weight(self@) <= usize::MAX,
                    groups_view(self.subgroups@) == self@.subgroups,
                    forest_weight(self@.subgroups) < weight(self@),
                    forall|k: int|
                        0 <= k < self.subgroups@.len() ==> (#[trigger] weight(self@.subgroups[k]))
                            <= forest_weight(self@.subgroups),
                    value == spec_traverse_forest::<A, V>(
                        self@.subgroups.take(i as int),
                        after_pre,
                        depth + 1,
                    ),
                decreases self.subgroups.len() - i,
            {
                proof {
                    lemma_groups_view(self.subgroups@);
                    assert(self@.subgroups.take(i + 1).drop_last() =~= self@.subgroups.take(
                        i as int,
                    ));
                    assert(self@.subgroups.take(i + 1).last() == self@.subgroups[i as int]);
                }
                value = self.subgroups[i].traverse::<A, V>(value, depth + 1);
                i += 1;
            }
            proof {
                assert(self@.subgroups.take(self.subgroups@.len() as int) =~= self@.subgroups);
            }
            let ghost after_subs = value;
            let mut j: usize = 0;
            while j < self.todos.len()
                invariant
                    j <= self.todos.len(),
                    depth + weight(self@) <= usize::MAX,
                    todos_view(self.todos@) == self@.todos,
                    value == spec_traverse_todos::<A, V>(
                        self@.todos.take(j as int),
                        after_subs,
                        depth + 1,
                    ),
                decreases self.todos.len() - j,
            {
                proof {
                    assert(self@.todos.take(j + 1).drop_last() =~= self@.todos.take(j as int));
                }
                value = V::todo_handle(&self.todos[j], depth + 1, value);
                j += 1;
            }
            proof {
                assert(self@.todos.take(self.todos@.len() as int) =~= self@.todos);
            }
            let ghost after_todos = value;
            let mut k: usize = 0;
            while k < self.completed.len()
                invariant
                    k <= self.completed.len(),
                    depth + weight(self@) <= usize::MAX,
                    todos_view(self.completed@) == self@.completed,
                    value == spec_traverse_todos::<A, V>(
                        self@.completed.take(k as int),
                        after_todos,
                        depth + 1,
                    ),
                decreases self.completed.len() - k,
            {
                proof {
                    assert(self@.completed.take(k + 1).drop_last() =~= self@.completed.take(
                        k as int,
                    ));
                }
                value = V::todo_handle(&self.completed[k], depth + 1, value);
                k += 1;
            }
            proof {
                assert(self@.completed.take(self.completed@.len() as int) =~= self@.completed);
            }
        }
        V::post_handle(self, depth, value)
    }
}

/// A mutating visitor: the same three callbacks, now free to rewrite the
/// node they visit.  The one structural restriction, witnessed by
/// [`TreeVisitorMut::pre_spec_keeps_subgroups`], is that the pre-visit may
/// not change the sub-group sequence itself — the walk is about to descend
/// into it.
pub trait TreeVisitorMut<A>: Sized {
    /// What `pre_handle` leaves in the group and returns.
    spec fn pre_spec(g: GroupModel, depth: int, acc: A) -> (GroupModel, bool, A);

    /// What `todo_handle` leaves in the todo and returns.
    spec fn todo_spec(t: TodoModel, depth: int, acc: A) -> (TodoModel, A);

    /// What `post_handle` leaves in the group and returns.
    spec fn post_spec(g: GroupModel, depth: int, acc: A) -> (GroupModel, A);

    /// The pre-visit leaves `subgroups` alone.
    proof fn pre_spec_keeps_subgroups(g: GroupModel, depth: int, acc: A)
        ensures
            Self::pre_spec(g, depth, acc).0.subgroups == g.subgroups,
    ;

    /// Visits a group before its children; decides the descent.
    fn pre_handle(g: &mut Group, depth: usize, acc: A) -> (r: (bool, A))
        ensures
            ({
                let (g2, descend, a2) = Self::pre_spec(old(g)@, depth as int, acc);
                final(g)@ == g2 && r.0 == descend && r.1 == a2
            }),
    ;

    /// Visits one todo.
    fn todo_handle(t: &mut Todo, depth: usize, acc: A) -> (r: A)
        ensures
            ({
                let (t2, a2) = Self::todo_spec(old(t)@, depth as int, acc);
                final(t)@ == t2 && r == a2
            }),
    ;

    /// Visits a group after its children.
    fn post_handle(g: &mut Group, depth: usize, acc: A) -> (r: A)
        ensures
            ({
                let (g2, a2) = Self::post_spec(old(g)@, depth as int, acc);
                final(g)@ == g2 && r == a2
            }),
    ;
}

/// The group and accumulator a mutating fold with visitor `V` leaves
/// behind.
pub open spec fn spec_traverse_mut<A, V: TreeVisitorMut<A>>(
    g: GroupModel,
    acc: A,
    depth: int,
) -> (GroupModel, A)
    decreases g,
{
    let (g1, descend, a1) = V::pre_spec(g, depth, acc);
    if descend {
        let (subs2, a2) = spec_traverse_mut_forest::<A, V>(g.subgroups, a1, depth + 1);
        let (todos2, a3) = spec_traverse_mut_todos::<A, V>(g1.todos, a2, depth + 1);
        let (comp2, a4) = spec_traverse_mut_todos::<A, V>(g1.completed, a3, depth + 1);
        V::post_spec(
            GroupModel { subgroups: subs2, todos: todos2, completed: comp2, ..g1 },
            depth,
            a4,
        )
    } else {
        V::post_spec(g1, depth, a1)
    }
}

/// The mutating fold threaded left to right over sibling groups.
pub open spec fn spec_traverse_mut_forest<A, V: TreeVisitorMut<A>>(
    s: Seq<GroupModel>,
    acc: A,
    depth: int,
) -> (Seq<GroupModel>, A)
    decreases s,
{
    if s.len() == 0 {
        (s, acc)
    } else {
        let (pre, a1) = spec_traverse_mut_forest::<A, V>(s.drop_last(), acc, depth);
        let (lastg, a2) = spec_traverse_mut::<A, V>(s.last(), a1, depth);
        (pre.push(lastg), a2)
    }
}

/// The mutating fold threaded left to right over a sequence of todos.
pub open spec fn spec_traverse_mut_todos<A, V: TreeVisitorMut<A>>(
    s: Seq<TodoModel>,
    acc: A,
    depth: int,
) -> (Seq<TodoModel>, A)
    decreases s,
{
    if s.len() == 0 {
        (s, acc)
    } else {
        let (pre, a1) = spec_traverse_mut_todos::<A, V>(s.drop_last(), acc, depth);
        let (lastt, a2) = V::todo_spec(s.last(), depth, a1);
        (pre.push(lastt), a2)
    }
}

impl Group {
    /// Folds the mutating visitor `V` over this group's subtree in
    /// pre-order, rewriting it in place.
    pub fn traverse_mut<A, V: TreeVisitorMut<A>>(&mut self, acc: A, depth: usize) -> (r: A)
        requires
            depth + weight(old(self)@) <= usize::MAX,
        ensures
            ({
                let (g2, a2) = spec_traverse_mut::<A, V>(old(self)@, acc, depth as int);
                final(self)@ == g2 && r == a2
            }),
        decreases weight(old(self)@),
    {
        let ghost orig = old(self)@;
        proof {
            lemma_groups_view(self.subgroups@);
            lemma_forest_weight_bounds(orig.subgroups);
        }
        let (descend, mut value) = V::pre_handle(self, depth, acc);
        let ghost g1 = V::pre_spec(orig, depth as int, acc).0;
        proof {
            V::pre_spec_keeps_subgroups(orig, depth as int, acc);
            lemma_groups_view(self.subgroups@);
        }
        if descend {
            let ghost after_pre = value;
            let mut i: usize = 0;
            while i < self.subgroups.len()
                invariant
                    i <= self.subgroups.len(),
                    orig == old(self)@,
                    depth + weight(orig) <= usize::MAX,
                    forest_weight(orig.subgroups) < weight(orig),
                    forall|k: int|
                        0 <= k < orig.subgroups.len() ==> (#[trigger] weight(orig.subgroups[k]))
                            <= forest_weight(orig.subgroups),
                    self.subgroups@.len() == orig.subgroups.len(),
                    forall|k: int|
                        i <= k < orig.subgroups.len() ==> (#[trigger] self.subgroups@[k])@
                            == orig.subgroups[k],
                    todos_view(self.todos@) == g1.todos,
                    todos_view(self.completed@) == g1.completed,
                    todos_view(self.todo_archive@) == g1.todo_archive,
                    groups_view(self.subgroup_archive@) == g1.subgroup_archive,
                    self.name@ == g1.name,
                    self.open == g1.open,
                    self.hidden == g1.hidden,
                    (
                    groups_view(self.subgroups@).take(i as int),
                    value,
                    ) == spec_traverse_mut_forest::<A, V>(
                        orig.subgroups.take(i as int),
                        after_pre,
                        depth + 1,
                    ),
                decreases self.subgroups.len() - i,
            {
                proof {
                    lemma_groups_view(self.subgroups@);
                    assert(orig.subgroups.take(i + 1).drop_last() =~= orig.subgroups.take(i as int));
                    assert(orig.subgroups.take(i + 1).last() == orig.subgroups[i as int]);
                    assert((self.subgroups@[i as int])@ == orig.subgroups[i as int]);
                    assert(weight((self.subgroups@[i as int])@) < weight(orig));
                }
                let ghost prev_subs = self.subgroups@;
                let ghost prev_value = value;
                value = self.subgroups[i].traverse_mut::<A, V>(value, depth + 1);
                i += 1;
                proof {
                    lemma_groups_view(self.subgroups@);
                    assert(self.subgroups@ =~= prev_subs.update(
                        i - 1,
                        self.subgroups@[i - 1],
                    ));
                    assert(groups_view(self.subgroups@).take(i as int) =~= groups_view(
                        prev_subs,
                    ).take(i - 1).push((self.subgroups@[i - 1])@));
                }
            }
            proof {
                assert(orig.subgroups.take(orig.subgroups.len() as int) =~= orig.subgroups);
                lemma_groups_view(self.subgroups@);
                assert(groups_view(self.subgroups@).take(self.subgroups@.len() as int)
                    =~= groups_view(self.subgroups@));
            }
            let ghost after_subs = value;
            let ghost subs2 = groups_view(self.subgroups@);
            let mut j: usize = 0;
            while j < self.todos.len()
                invariant
                    j <= self.todos.len(),
                    depth + weight(orig) <= usize::MAX,
                    self.todos@.len() == g1.todos.len(),
                    forall|k: int|
                        j <= k < g1.todos.len() ==> (#[trigger] self.todos@[k])@ == g1.todos[k],
                    todos_view(self.completed@) == g1.completed,
                    todos_view(self.todo_archive@) == g1.todo_archive,
                    groups_view(self.subgroups@) == subs2,
                    groups_view(self.subgroup_archive@) == g1.subgroup_archive,
                    self.name@ == g1.name,
                    self.open == g1.open,
                    self.hidden == g1.hidden,
                    (
                    todos_view(self.todos@).take(j as int),
                    value,
                    ) == spec_traverse_mut_todos::<A, V>(g1.todos.take(j as int), after_subs, depth + 1),
                decreases self.todos.len() - j,
            {
                proof {
                    assert(g1.todos.take(j + 1).drop_last() =~= g1.todos.take(j as int));
                    assert((self.todos@[j as int])@ == g1.todos[j as int]);
                }
                let ghost prev_todos = self.todos@;
                value = V::todo_handle(&mut self.todos[j], depth + 1, value);
                j += 1;
                proof {
                    assert(self.todos@ =~= prev_todos.update(j - 1, self.todos@[j - 1]));
                    assert(todos_view(self.todos@).take(j as int) =~= todos_view(prev_todos).take(
                        j - 1,
                    ).push((self.todos@[j - 1])@));
                    assert(todos_view(prev_todos).take(j - 1) =~= todos_view(prev_todos.update(
                        j - 1,
                        self.todos@[j - 1],
                    )).take(j - 1));
                }
            }
            proof {
                assert(g1.todos.take(g1.todos.len() as int) =~= g1.todos);
                assert(todos_view(self.todos@).take(self.todos@.len() as int) =~= todos_view(
                    self.todos@,
                ));
            }
            let ghost after_todos = value;
            let ghost todos2 = todos_view(self.todos@);
            let mut k: usize = 0;
            while k < self.completed.len()
                invariant
                    k <= self.completed.len(),
                    depth + weight(orig) <= usize::MAX,
                    self.completed@.len() == g1.completed.len(),
                    forall|m: int|
                        k <= m < g1.completed.len() ==> (#[trigger] self.completed@[m])@
                            == g1.completed[m],
                    todos_view(self.todos@) == todos2,
                    todos_view(self.todo_archive@) == g1.todo_archive,
                    groups_view(self.subgroups@) == subs2,
                    groups_view(self.subgroup_archive@) == g1.subgroup_archive,
                    self.name@ == g1.name,
                    self.open == g1.open,
                    self.hidden == g1.hidden,
                    (
                    todos_view(self.completed@).take(k as int),
                    value,
                    ) == spec_traverse_mut_todos::<A, V>(
                        g1.completed.take(k as int),
                        after_todos,
                        depth + 1,
                    ),
                decreases self.completed.len() - k,
            {
                proof {
                    assert(g1.completed.take(k + 1).drop_last() =~= g1.completed.take(k as int));
                    assert((self.completed@[k as int])@ == g1.completed[k as int]);
                }
                let ghost prev_completed = self.completed@;
                value = V::todo_handle(&mut self.completed[k], depth + 1, value);
                k += 1;
                proof {
                    assert(self.completed@ =~= prev_completed.update(
                        k - 1,
                        self.completed@[k - 1],
                    ));
                    assert(todos_view(self.completed@).take(k as int) =~= todos_view(
                        prev_completed,
                    ).take(k - 1).push((self.completed@[k - 1])@));
                    assert(todos_view(prev_completed).take(k - 1) =~= todos_view(
                        prev_completed.update(k - 1, self.completed@[k - 1]),
                    ).take(k - 1));
                }
            }
            proof {
                assert(g1.completed.take(g1.completed.len() as int) =~= g1.completed);
                assert(todos_view(self.completed@).take(self.completed@.len() as int)
                    =~= todos_view(self.completed@));
                let (subs_s, a2) = spec_traverse_mut_forest::<A, V>(
                    orig.subgroups,
                    V::pre_spec(orig, depth as int, acc).2,
                    depth + 1,
                );
                let (todos_s, a3) = spec_traverse_mut_todos::<A, V>(g1.todos, a2, depth + 1);
                let (comp_s, a4) = spec_traverse_mut_todos::<A, V>(g1.completed, a3, depth + 1);
                assert(self@ =~~= (GroupModel {
                    subgroups: subs_s,
                    todos: todos_s,
                    completed: comp_s,
                    ..g1
                }));
            }
            V::post_handle(self, depth, value)
        } else {
            proof {
                assert(self@ =~~= g1);
            }
            V::post_handle(self, depth, value)
        }
    }
}

/// The counting visitor: descends everywhere, adds one per active todo,
/// and leaves groups alone.  Wrapping addition keeps the callback total;
/// the public [`Group::todo_count`] rules the wrap-around out by its
/// precondition.
pub struct CountVisitor;

impl TreeVisitor<usize> for CountVisitor {
    open spec fn pre_spec(g: GroupModel, depth: int, acc: usize) -> (bool, usize) {
        (true, acc)
    }

    open spec fn todo_spec(t: TodoModel, depth: int, acc: usize) -> usize {
        if t.done_time is None {
            acc.wrapping_add(1)
        } else {
            acc
        }
    }

    open spec fn post_spec(g: GroupModel, depth: int, acc: usize) -> usize {
        acc
    }

    fn pre_handle(g: &Group, depth: usize, acc: usize) -> (bool, usize) {
        (true, acc)
    }

    fn todo_handle(t: &Todo, depth: usize, acc: usize) -> usize {
        if t.done_time.is_none() {
            acc.wrapping_add(1)
        } else {
            acc
        }
    }

    fn post_handle(g: &Group, depth: usize, acc: usize) -> usize {
        acc
    }
}

/// The counting fold adds exactly the number of active todos, as long as
/// the total stays inside `usize`.
proof fn lemma_count_group(g: GroupModel, acc: usize, depth: int)
    requires
        acc + active_count(g) <= usize::MAX,
    ensures
        spec_traverse::<usize, CountVisitor>(g, acc, depth) == acc + active_count(g),
    decreases g,
{
    lemma_count_forest(g.subgroups, acc, depth + 1);
    let a1 = (acc + forest_active_count(g.subgroups)) as usize;
    lemma_count_active_le(g.todos);
    lemma_count_active_le(g.completed);
    lemma_count_todos(g.todos, a1, depth + 1);
    let a2 = (a1 + count_active(g.todos)) as usize;
    lemma_count_todos(g.completed, a2, depth + 1);
}

/// The forest-level counterpart of [`lemma_count_group`].
proof fn lemma_count_forest(s: Seq<GroupModel>, acc: usize, depth: int)
    requires
        acc + forest_active_count(s) <= usize::MAX,
    ensures
        spec_traverse_forest::<usize, CountVisitor>(s, acc, depth) == acc
            + forest_active_count(s),
    decreases s,
{
    if s.len() > 0 {
        lemma_count_forest(s.drop_last(), acc, depth);
        lemma_count_group(
            s.last(),
            (acc + forest_active_count(s.drop_last())) as usize,
            depth,
        );
    }
}

/// The todo-level counterpart of [`lemma_count_group`].
proof fn lemma_count_todos(s: Seq<TodoModel>, acc: usize, depth: int)
    requires
        acc + count_active(s) <= usize::MAX,
    ensures
        spec_traverse_todos::<usize, CountVisitor>(s, acc, depth) == acc + count_active(s),
    decreases s,
{
    if s.len() > 0 {
        lemma_count_todos(s.drop_last(), acc, depth);
    }
}

impl Group {
    /// The number of active todos anywhere in this group's subtree,
    /// collapsed or not.
    pub fn todo_count(&self) -> (r: usize)
        requires
            weight(self@) <= usize::MAX,
        ensures
            r == active_count(self@),
    {
        proof {
            lemma_weight_bounds(self@);
            lemma_count_group(self@, 0, 0);
        }
        self.traverse::<usize, CountVisitor>(0, 0)
    }
}

/// The model of an optional timestamp.
pub open spec fn time_model(t: Option<i64>) -> Option<int> {
    match t {
        Some(n) => Some(n as int),
        None => None,
    }
}

/// True iff a completed todo is old enough to be swept into the archive:
/// it was completed more than `retention` seconds before `now`.  When the
/// current time is unavailable no todo is stale — the comparison is
/// skipped, never failed.
pub open spec fn stale(t: TodoModel, retention: int, now: Option<int>) -> bool {
    &&& t.done_time is Some
    &&& now is Some
    &&& now->0 - t.done_time->0 > retention
}

/// The todos of `s` from index `i` on that are not stale, in order: what a
/// sweep leaves in `completed`.
pub open spec fn keep_from(s: Seq<TodoModel>, i: int, retention: int, now: Option<int>) -> Seq<
    TodoModel,
>
    decreases s.len() - i,
{
    if i < 0 || i >= s.len() {
        Seq::empty()
    } else if stale(s[i], retention, now) {
        keep_from(s, i + 1, retention, now)
    } else {
        seq![s[i]] + keep_from(s, i + 1, retention, now)
    }
}

/// The stale todos of `s` from index `i` on, in descending index order:
/// what a sweep appends to `todo_archive`, which walks the sequence from
/// its end so that removal indices stay valid.
pub open spec fn stale_desc_from(s: Seq<TodoModel>, i: int, retention: int, now: Option<int>) -> Seq<
    TodoModel,
>
    decreases s.len() - i,
{
    if i < 0 || i >= s.len() {
        Seq::empty()
    } else if stale(s[i], retention, now) {
        stale_desc_from(s, i + 1, retention, now).push(s[i])
    } else {
        stale_desc_from(s, i + 1, retention, now)
    }
}

/// The archive-sweep visitor.  The accumulator carries the read-only
/// context: the retention time in seconds and the current time, if one is
/// available.
pub struct SweepVisitor;

impl TreeVisitorMut<(i64, Option<i64>)> for SweepVisitor {
    open spec fn pre_spec(g: GroupModel, depth: int, acc: (i64, Option<i64>)) -> (
        GroupModel,
        bool,
        (i64, Option<i64>),
    ) {
        (
            GroupModel {
                completed: keep_from(g.completed, 0, acc.0 as int, time_model(acc.1)),
                todo_archive: g.todo_archive + stale_desc_from(
                    g.completed,
                    0,
                    acc.0 as int,
                    time_model(acc.1),
                ),
                ..g
            },
            true,
            acc,
        )
    }

    open spec fn todo_spec(t: TodoModel, depth: int, acc: (i64, Option<i64>)) -> (
        TodoModel,
        (i64, Option<i64>),
    ) {
        (t, acc)
    }

    open spec fn post_spec(g: GroupModel, depth: int, acc: (i64, Option<i64>)) -> (
        GroupModel,
        (i64, Option<i64>),
    ) {
        (g, acc)
    }

    proof fn pre_spec_keeps_subgroups(g: GroupModel, depth: int, acc: (i64, Option<i64>)) {
    }

    fn pre_handle(g: &mut Group, depth: usize, acc: (i64, Option<i64>)) -> (r: (
        bool,
        (i64, Option<i64>),
    )) {
        let (retention, now) = acc;
        let ghost ret_i = retention as int;
        let ghost now_m = time_model(now);
        let ghost s = old(g)@.completed;
        let ghost arch0 = old(g)@.todo_archive;
        let mut i: usize = g.completed.len();
        proof {
            assert(todos_view(g.completed@) =~= s.take(i as int) + keep_from(s, i as int, ret_i, now_m));
            assert(todos_view(g.todo_archive@) =~= arch0 + stale_desc_from(s, i as int, ret_i, now_m));
        }
        while i > 0
            invariant
                i <= s.len(),
                ret_i == retention as int,
                now_m == time_model(now),
                s == old(g)@.completed,
                arch0 == old(g)@.todo_archive,
                todos_view(g.completed@) == s.take(i as int) + keep_from(s, i as int, ret_i, now_m),
                todos_view(g.todo_archive@) == arch0 + stale_desc_from(s, i as int, ret_i, now_m),
                g.name@ == old(g)@.name,
                g.open == old(g)@.open,
                g.hidden == old(g)@.hidden,
                groups_view(g.subgroups@) == old(g)@.subgroups,
                groups_view(g.subgroup_archive@) == old(g)@.subgroup_archive,
                todos_view(g.todos@) == old(g)@.todos,
            decreases i,
        {
            i -= 1;
            proof {
                assert(s.take(i + 1).len() == i + 1);
                assert(todos_view(g.completed@).len() >= i + 1);
                assert(todos_view(g.completed@)[i as int] == s.take(i + 1)[i as int]);
                assert((g.completed@[i as int])@ == s[i as int]);
            }
            let is_stale = match (g.completed[i].done_time, now) {
                (Some(d), Some(n)) => (n as i128) - (d as i128) > (retention as i128),
                _ => false,
            };
            proof {
                assert((g.completed@[i as int])@ == s[i as int]);
                assert(is_stale == stale(s[i as int], ret_i, now_m));
            }
            if is_stale {
                let ghost cc_before = g.completed@;
                let ghost arch_before = g.todo_archive@;
                let t = g.completed.remove(i);
                g.todo_archive.push(t);
                proof {
                    assert(todos_view(g.completed@) =~= todos_view(cc_before).remove(i as int));
                    assert(keep_from(s, i as int, ret_i, now_m) == keep_from(
                        s,
                        i + 1,
                        ret_i,
                        now_m,
                    ));
                    assert(todos_view(g.completed@) =~= s.take(i as int) + keep_from(
                        s,
                        i as int,
                        ret_i,
                        now_m,
                    ));
                    assert(todos_view(g.todo_archive@) =~= todos_view(arch_before).push(
                        s[i as int],
                    ));
                    assert(stale_desc_from(s, i as int, ret_i, now_m) == stale_desc_from(
                        s,
                        i + 1,
                        ret_i,
                        now_m,
                    ).push(s[i as int]));
                    assert(todos_view(g.todo_archive@) =~= arch0 + stale_desc_from(
                        s,
                        i as int,
                        ret_i,
                        now_m,
                    ));
                }
            } else {
                proof {
                    assert(todos_view(g.completed@) =~= s.take(i as int) + keep_from(
                        s,
                        i as int,
                        ret_i,
                        now_m,
                    ));
                }
            }
        }
        proof {
            assert(s.take(0) + keep_from(s, 0, ret_i, now_m) =~= keep_from(s, 0, ret_i, now_m));
            assert(g@ =~~= Self::pre_spec(old(g)@, depth as int, acc).0);
        }
        (true, acc)
    }

    fn todo_handle(t: &mut Todo, depth: usize, acc: (i64, Option<i64>)) -> (i64, Option<i64>) {
        acc
    }

    fn post_handle(g: &mut Group, depth: usize, acc: (i64, Option<i64>)) -> (i64, Option<i64>) {
        acc
    }
}

/// What one archive sweep leaves of a group's subtree: in every group,
/// stale completed todos move from `completed` to the end of
/// `todo_archive`, newest position first; everything else stays.
pub open spec fn spec_sweep_group(g: GroupModel, retention: int, now: Option<int>) -> GroupModel
    decreases g,
{
    GroupModel {
        completed: keep_from(g.completed, 0, retention, now),
        todo_archive: g.todo_archive + stale_desc_from(g.completed, 0, retention, now),
        subgroups: spec_sweep_forest(g.subgroups, retention, now),
        ..g
    }
}

/// [`spec_sweep_group`] mapped over sibling groups.
pub open spec fn spec_sweep_forest(s: Seq<GroupModel>, retention: int, now: Option<int>) -> Seq<
    GroupModel,
>
    decreases s,
{
    if s.len() == 0 {
        s
    } else {
        spec_sweep_forest(s.drop_last(), retention, now).push(
            spec_sweep_group(s.last(), retention, now),
        )
    }
}

/// A fold whose todo callback is the identity leaves every todo sequence
/// unchanged.
proof fn lemma_sweep_todos(s: Seq<TodoModel>, acc: (i64, Option<i64>), depth: int)
    ensures
        spec_traverse_mut_todos::<(i64, Option<i64>), SweepVisitor>(s, acc, depth) == (s, acc),
    decreases s,
{
    if s.len() > 0 {
        lemma_sweep_todos(s.drop_last(), acc, depth);
        assert(s.drop_last().push(s.last()) =~= s);
    }
}

/// The sweep traversal computes exactly [`spec_sweep_group`].
proof fn lemma_sweep_group(g: GroupModel, acc: (i64, Option<i64>), depth: int)
    ensures
        spec_traverse_mut::<(i64, Option<i64>), SweepVisitor>(g, acc, depth) == (
            spec_sweep_group(g, acc.0 as int, time_model(acc.1)),
            acc,
        ),
    decreases g,
{
    lemma_sweep_forest(g.subgroups, acc, depth + 1);
    let g1 = SweepVisitor::pre_spec(g, depth, acc).0;
    lemma_sweep_todos(g1.todos, acc, depth + 1);
    lemma_sweep_todos(g1.completed, acc, depth + 1);
    assert(spec_traverse_mut::<(i64, Option<i64>), SweepVisitor>(g, acc, depth).0
        =~~= spec_sweep_group(g, acc.0 as int, time_model(acc.1)));
}

/// The forest-level counterpart of [`lemma_sweep_group`].
proof fn lemma_sweep_forest(s: Seq<GroupModel>, acc: (i64, Option<i64>), depth: int)
    ensures
        spec_traverse_mut_forest::<(i64, Option<i64>), SweepVisitor>(s, acc, depth) == (
            spec_sweep_forest(s, acc.0 as int, time_model(acc.1)),
            acc,
        ),
    decreases s,
{
    if s.len() > 0 {
        lemma_sweep_forest(s.drop_last(), acc, depth);
        lemma_sweep_group(s.last(), acc, depth);
    }
}

/// Nothing that survives a sweep is stale.
proof fn lemma_keep_from_not_stale(s: Seq<TodoModel>, i: int, retention: int, now: Option<int>)
    ensures
        forall|k: int|
            0 <= k < keep_from(s, i, retention, now).len() ==> !stale(
                #[trigger] keep_from(s, i, retention, now)[k],
                retention,
                now,
            ),
    decreases s.len() - i,
{
    if 0 <= i < s.len() {
        lemma_keep_from_not_stale(s, i + 1, retention, now);
        assert forall|k: int|
            0 <= k < keep_from(s, i, retention, now).len() implies !stale(
            #[trigger] keep_from(s, i, retention, now)[k],
            retention,
            now,
        ) by {
            if stale(s[i], retention, now) {
                assert(keep_from(s, i, retention, now) == keep_from(s, i + 1, retention, now));
            } else if k > 0 {
                assert(keep_from(s, i, retention, now)[k] == keep_from(s, i + 1, retention, now)[k
                    - 1]);
            } else {
                assert(keep_from(s, i, retention, now)[0] == s[i]);
            }
        }
    }
}

/// A sweep of a sequence with no stale todo changes nothing.
proof fn lemma_sweep_of_clean(s: Seq<TodoModel>, i: int, retention: int, now: Option<int>)
    requires
        0 <= i <= s.len(),
        forall|k: int| i <= k < s.len() ==> !stale(#[trigger] s[k], retention, now),
    ensures
        keep_from(s, i, retention, now) =~= s.skip(i),
        stale_desc_from(s, i, retention, now) =~= Seq::<TodoModel>::empty(),
    decreases s.len() - i,
{
    if i < s.len() {
        lemma_sweep_of_clean(s, i + 1, retention, now);
        assert(keep_from(s, i, retention, now) =~= s.skip(i));
    }
}

/// The archive sweep is idempotent: a second pass over an already swept
/// subtree moves nothing more.
pub proof fn lemma_sweep_idempotent(g: GroupModel, retention: int, now: Option<int>)
    ensures
        spec_sweep_group(spec_sweep_group(g, retention, now), retention, now) == spec_sweep_group(
            g,
            retention,
            now,
        ),
    decreases g,
{
    let g1 = spec_sweep_group(g, retention, now);
    lemma_keep_from_not_stale(g.completed, 0, retention, now);
    lemma_sweep_of_clean(g1.completed, 0, retention, now);
    assert(g1.completed.skip(0) =~= g1.completed);
    assert(g1.todo_archive + Seq::<TodoModel>::empty() =~= g1.todo_archive);
    lemma_sweep_forest_idempotent(g.subgroups, retention, now);
    assert(spec_sweep_group(g1, retention, now) =~~= g1);
}

/// The forest-level counterpart of [`lemma_sweep_idempotent`].
pub proof fn lemma_sweep_forest_idempotent(s: Seq<GroupModel>, retention: int, now: Option<int>)
    ensures
        spec_sweep_forest(spec_sweep_forest(s, retention, now), retention, now)
            == spec_sweep_forest(s, retention, now),
    decreases s,
{
    if s.len() > 0 {
        lemma_sweep_forest_idempotent(s.drop_last(), retention, now);
        lemma_sweep_idempotent(s.last(), retention, now);
        let s1 = spec_sweep_forest(s, retention, now);
        assert(s1.drop_last() =~= spec_sweep_forest(s.drop_last(), retention, now));
        assert(s1.last() == spec_sweep_group(s.last(), retention, now));
        assert(spec_sweep_forest(s1, retention, now) =~= s1);
    }
}

impl TodoConfig {
    /// One archive sweep over the whole live forest: in every group, each
    /// completed todo finished more than `archive_time` seconds before
    /// `now` moves into that group's `todo_archive`.  With no current time
    /// available every comparison is skipped and nothing moves.
    pub fn archive_sweep(&mut self, now: Option<i64>)
        requires
            config_fits(old(self)@),
        ensures
            final(self)@ == (ConfigModel {
                groups: spec_sweep_forest(
                    old(self)@.groups,
                    old(self)@.archive_time,
                    time_model(now),
                ),
                ..old(self)@
            }),
    {
        let ghost orig = self@;
        let retention = self.archive_time;
        proof {
            lemma_groups_view(self.groups@);
        }
        let mut i: usize = 0;
        while i < self.groups.len()
            invariant
                i <= self.groups.len(),
                orig == old(self)@,
                retention == old(self).archive_time,
                config_fits(orig),
                self.groups@.len() == orig.groups.len(),
                self.archive_time == old(self).archive_time,
                groups_view(self.archive_groups@) == orig.archive_groups,
                forall|k: int|
                    i <= k < orig.groups.len() ==> (#[trigger] self.groups@[k])@ == orig.groups[k],
                groups_view(self.groups@).take(i as int) == spec_sweep_forest(
                    orig.groups.take(i as int),
                    retention as int,
                    time_model(now),
                ),
            decreases self.groups.len() - i,
        {
            proof {
                lemma_groups_view(self.groups@);
                lemma_forest_weight_bounds(orig.groups);
                assert((self.groups@[i as int])@ == orig.groups[i as int]);
                assert(weight(orig.groups[i as int]) <= forest_weight(orig.groups));
                lemma_sweep_group(orig.groups[i as int], (retention, now), 0);
                assert(orig.groups.take(i + 1).drop_last() =~= orig.groups.take(i as int));
                assert(orig.groups.take(i + 1).last() == orig.groups[i as int]);
            }
            let ghost prev_groups = self.groups@;
            let _ = self.groups[i].traverse_mut::<(i64, Option<i64>), SweepVisitor>(
                (retention, now),
                0,
            );
            i += 1;
            proof {
                lemma_groups_view(self.groups@);
                assert(self.groups@ =~= prev_groups.update(i - 1, self.groups@[i - 1]));
                assert(groups_view(self.groups@).take(i as int) =~= groups_view(prev_groups).take(
                    i - 1,
                ).push((self.groups@[i - 1])@));
            }
        }
        proof {
            assert(orig.groups.take(orig.groups.len() as int) =~= orig.groups);
            lemma_groups_view(self.groups@);
            assert(groups_view(self.groups@).take(self.groups@.len() as int) =~= groups_view(
                self.groups@,
            ));
            assert(self@ =~~= (ConfigModel {
                groups: spec_sweep_forest(orig.groups, orig.archive_time, time_model(now)),
                ..orig
            }));
        }
    }
}


/// The cleanup visitor: empties every group's two archives.
pub struct CleanVisitor;

impl TreeVisitorMut<()> for CleanVisitor {
    open spec fn pre_spec(g: GroupModel, depth: int, acc: ()) -> (GroupModel, bool, ()) {
        (
            GroupModel { todo_archive: Seq::empty(), subgroup_archive: Seq::empty(), ..g },
            true,
            acc,
        )
    }

    open spec fn todo_spec(t: TodoModel, depth: int, acc: ()) -> (TodoModel, ()) {
        (t, acc)
    }

    open spec fn post_spec(g: GroupModel, depth: int, acc: ()) -> (GroupModel, ()) {
        (g, acc)
    }

    proof fn pre_spec_keeps_subgroups(g: GroupModel, depth: int, acc: ()) {
    }

    fn pre_handle(g: &mut Group, depth: usize, acc: ()) -> (r: (bool, ())) {
        g.todo_archive = Vec::new();
        g.subgroup_archive = Vec::new();
        proof {
            assert(todos_view(g.todo_archive@) =~= Seq::<TodoModel>::empty());
            assert(groups_view(g.subgroup_archive@) =~= Seq::<GroupModel>::empty());
            assert(g@ =~~= Self::pre_spec(old(g)@, depth as int, acc).0);
        }
        (true, acc)
    }

    fn todo_handle(t: &mut Todo, depth: usize, acc: ()) -> () {
        acc
    }

    fn post_handle(g: &mut Group, depth: usize, acc: ()) -> () {
        acc
    }
}

/// What clearing the archives leaves of a group's subtree: both archives
/// empty in every group, everything else unchanged.
pub open spec fn spec_clean_group(g: GroupModel) -> GroupModel
    decreases g,
{
    GroupModel {
        todo_archive: Seq::empty(),
        subgroup_archive: Seq::empty(),
        subgroups: spec_clean_forest(g.subgroups),
        ..g
    }
}

/// [`spec_clean_group`] mapped over sibling groups.
pub open spec fn spec_clean_forest(s: Seq<GroupModel>) -> Seq<GroupModel>
    decreases s,
{
    if s.len() == 0 {
        s
    } else {
        spec_clean_forest(s.drop_last()).push(spec_clean_group(s.last()))
    }
}

/// A fold whose todo callback is the identity leaves every todo sequence
/// unchanged.
proof fn lemma_clean_todos(s: Seq<TodoModel>, depth: int)
    ensures
        spec_traverse_mut_todos::<(), CleanVisitor>(s, (), depth) == (s, ()),
    decreases s,
{
    if s.len() > 0 {
        lemma_clean_todos(s.drop_last(), depth);
        assert(s.drop_last().push(s.last()) =~= s);
    }
}

/// The cleanup traversal computes exactly [`spec_clean_group`].
proof fn lemma_clean_group(g: GroupModel, depth: int)
    ensures
        spec_traverse_mut::<(), CleanVisitor>(g, (), depth) == (spec_clean_group(g), ()),
    decreases g,
{
    lemma_clean_forest(g.subgroups, depth + 1);
    let g1 = CleanVisitor::pre_spec(g, depth, ()).0;
    lemma_clean_todos(g1.todos, depth + 1);
    lemma_clean_todos(g1.completed, depth + 1);
    assert(spec_traverse_mut::<(), CleanVisitor>(g, (), depth).0 =~~= spec_clean_group(g));
}

/// The forest-level counterpart of [`lemma_clean_group`].
proof fn lemma_clean_forest(s: Seq<GroupModel>, depth: int)
    ensures
        spec_traverse_mut_forest::<(), CleanVisitor>(s, (), depth) == (spec_clean_forest(s), ()),
    decreases s,
{
    if s.len() > 0 {
        lemma_clean_forest(s.drop_last(), depth);
        lemma_clean_group(s.last(), depth);
    }
}

impl TodoConfig {
    /// Empties the root archive and, in every group of the live forest,
    /// both per-group archives.
    pub fn clear_archives(&mut self)
        requires
            config_fits(old(self)@),
        ensures
            final(self)@ == (ConfigModel {
                groups: spec_clean_forest(old(self)@.groups),
                archive_groups: Seq::empty(),
                ..old(self)@
            }),
    {
        let ghost orig = self@;
        self.archive_groups = Vec::new();
        proof {
            lemma_groups_view(self.groups@);
            assert(groups_view(self.archive_groups@) =~= Seq::<GroupModel>::empty());
        }
        let mut i: usize = 0;
        while i < self.groups.len()
            invariant
                i <= self.groups.len(),
                orig == old(self)@,
                config_fits(orig),
                self.groups@.len() == orig.groups.len(),
                self.archive_time == old(self).archive_time,
                groups_view(self.archive_groups@) == Seq::<GroupModel>::empty(),
                forall|k: int|
                    i <= k < orig.groups.len() ==> (#[trigger] self.groups@[k])@ == orig.groups[k],
                groups_view(self.groups@).take(i as int) == spec_clean_forest(
                    orig.groups.take(i as int),
                ),
            decreases self.groups.len() - i,
        {
            proof {
                lemma_groups_view(self.groups@);
                lemma_forest_weight_bounds(orig.groups);
                assert((self.groups@[i as int])@ == orig.groups[i as int]);
                assert(weight(orig.groups[i as int]) <= forest_weight(orig.groups));
                lemma_clean_group(orig.groups[i as int], 0);
                assert(orig.groups.take(i + 1).drop_last() =~= orig.groups.take(i as int));
                assert(orig.groups.take(i + 1).last() == orig.groups[i as int]);
            }
            let ghost prev_groups = self.groups@;
            let _ = self.groups[i].traverse_mut::<(), CleanVisitor>((), 0);
            i += 1;
            proof {
                lemma_groups_view(self.groups@);
                assert(self.groups@ =~= prev_groups.update(i - 1, self.groups@[i - 1]));
                assert(groups_view(self.groups@).take(i as int) =~= groups_view(prev_groups).take(
                    i - 1,
                ).push((self.groups@[i - 1])@));
            }
        }
        proof {
            assert(orig.groups.take(orig.groups.len() as int) =~= orig.groups);
            lemma_groups_view(self.groups@);
            assert(groups_view(self.groups@).take(self.groups@.len() as int) =~= groups_view(
                self.groups@,
            ));
            assert(self@ =~~= (ConfigModel {
                groups: spec_clean_forest(orig.groups),
                archive_groups: Seq::empty(),
                ..orig
            }));
        }
    }
}

} // verus!
