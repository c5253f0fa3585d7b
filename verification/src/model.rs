//! The tree data model: todos, groups, and the configuration that owns the
//! root forest.
//!
//! Timestamps are plain signed counts of seconds (a Unix timestamp); the
//! surrounding application converts to and from its calendar types at the
//! boundary.  In specifications every structure is abstracted by a model
//! whose sequences are `Seq` and whose numbers are `int`.

use vstd::prelude::*;

verus! {

broadcast use {vstd::std_specs::vec::group_vec_axioms, vstd::seq::group_seq_axioms};

/// A single todo item.  `done_time` is `None` while the item is active and
/// `Some(t)` once it was completed at time `t`.
pub struct Todo {
    pub name: String,
    pub done_time: Option<i64>,
    pub due: Option<i64>,
    pub created: i64,
}

/// The specification-level image of a [`Todo`].
#[verifier::ext_equal]
pub struct TodoModel {
    pub name: Seq<char>,
    pub done_time: Option<int>,
    pub due: Option<int>,
    pub created: int,
}

impl View for Todo {
    type V = TodoModel;

    open spec fn view(&self) -> TodoModel {
        TodoModel {
            name: self.name@,
            done_time: match self.done_time {
                Some(t) => Some(t as int),
                None => None,
            },
            due: match self.due {
                Some(t) => Some(t as int),
                None => None,
            },
            created: self.created as int,
        }
    }
}

/// A group: a named container of sub-groups, active todos and completed
/// todos, plus write-only archives for both kinds of children.
///
/// The visible children of a group, in display order, are its `subgroups`,
/// then its `todos`, then its `completed` todos; every index path into the
/// tree depends on that ordering.
pub struct Group {
    pub hidden: bool,
    pub name: String,
    pub open: bool,
    pub todos: Vec<Todo>,
    pub completed: Vec<Todo>,
    pub todo_archive: Vec<Todo>,
    pub subgroups: Vec<Group>,
    pub subgroup_archive: Vec<Group>,
}

/// The specification-level image of a [`Group`].
#[verifier::ext_equal]
pub struct GroupModel {
    pub hidden: bool,
    pub name: Seq<char>,
    pub open: bool,
    pub todos: Seq<TodoModel>,
    pub completed: Seq<TodoModel>,
    pub todo_archive: Seq<TodoModel>,
    pub subgroups: Seq<GroupModel>,
    pub subgroup_archive: Seq<GroupModel>,
}

/// The element-wise [`View`] of a sequence of todos.
pub open spec fn todos_view(s: Seq<Todo>) -> Seq<TodoModel> {
    Seq::new(s.len(), |i: int| s[i]@)
}

/// The element-wise [`View`] of a sequence of groups.
pub open spec fn groups_view(s: Seq<Group>) -> Seq<GroupModel>
    decreases s,
{
    if s.len() == 0 {
        Seq::empty()
    } else {
        groups_view(s.drop_last()).push(s.last()@)
    }
}

/// `groups_view` maps the view over the sequence element by element.
pub broadcast proof fn lemma_groups_view(s: Seq<Group>)
    ensures
        (#[trigger] groups_view(s)).len() == s.len(),
        forall|i: int| 0 <= i < s.len() ==> groups_view(s)[i] == s[i]@,
    decreases s,
{
    if s.len() > 0 {
        lemma_groups_view(s.drop_last());
        assert(groups_view(s) == groups_view(s.drop_last()).push(s.last()@));
        assert forall|i: int| 0 <= i < s.len() implies groups_view(s)[i] == s[i]@ by {
            if i < s.len() - 1 {
                assert(s.drop_last()[i] == s[i]);
            }
        }
    }
}

/// A group's model lists the models of its sub-groups element by element.
pub broadcast proof fn lemma_group_view_fields(g: Group)
    ensures
        (#[trigger] g@).subgroups.len() == g.subgroups@.len(),
        forall|i: int| 0 <= i < g.subgroups@.len() ==> g@.subgroups[i] == (g.subgroups@[i])@,
        g@.subgroup_archive.len() == g.subgroup_archive@.len(),
        forall|i: int|
            0 <= i < g.subgroup_archive@.len() ==> g@.subgroup_archive[i] == (
            g.subgroup_archive@[i])@,
{
    lemma_groups_view(g.subgroups@);
    lemma_groups_view(g.subgroup_archive@);
}

/// Mapping the view over an updated sequence updates the mapped sequence.
pub broadcast proof fn lemma_groups_view_update(s: Seq<Group>, i: int, x: Group)
    requires
        0 <= i < s.len(),
    ensures
        #[trigger] groups_view(s.update(i, x)) == groups_view(s).update(i, x@),
{
    lemma_groups_view(s);
    lemma_groups_view(s.update(i, x));
    assert(groups_view(s.update(i, x)) =~= groups_view(s).update(i, x@));
}

/// The todo counterpart of [`lemma_groups_view_update`].
pub broadcast proof fn lemma_todos_view_update(s: Seq<Todo>, i: int, x: Todo)
    requires
        0 <= i < s.len(),
    ensures
        #[trigger] todos_view(s.update(i, x)) == todos_view(s).update(i, x@),
{
    assert(todos_view(s.update(i, x)) =~= todos_view(s).update(i, x@));
}

impl View for Group {
    type V = GroupModel;

    open spec fn view(&self) -> GroupModel
        decreases self,
    {
        GroupModel {
            hidden: self.hidden,
            name: self.name@,
            open: self.open,
            todos: todos_view(self.todos@),
            completed: todos_view(self.completed@),
            todo_archive: todos_view(self.todo_archive@),
            subgroups: groups_view(self.subgroups@),
            subgroup_archive: groups_view(self.subgroup_archive@),
        }
    }
}

/// How many visible children a group has: sub-groups, active todos and
/// completed todos together.  The final index of a cursor path ranges over
/// exactly this count.
pub open spec fn kid_count(g: GroupModel) -> nat {
    g.subgroups.len() + g.todos.len() + g.completed.len()
}

/// The size of a group's full subtree: one for the group itself plus, for
/// every descendant group reached through `subgroups`, one for it and one
/// for each of its todos.  The collapse state is ignored.  Every other
/// measure of the tree (visible rows, child counts, counts of active todos)
/// is bounded by this weight, so a single bound on it keeps all of the
/// index arithmetic inside `usize`.
pub open spec fn weight(g: GroupModel) -> nat
    decreases g,
{
    1 + forest_weight(g.subgroups) + g.todos.len() + g.completed.len()
}

/// The summed [`weight`] of a sequence of groups.
pub open spec fn forest_weight(s: Seq<GroupModel>) -> nat
    decreases s,
{
    if s.len() == 0 {
        0
    } else {
        forest_weight(s.drop_last()) + weight(s.last())
    }
}

/// The number of rows a group occupies when the forest is flattened to a
/// visual list: a closed group is one row; an open group is one header row
/// plus the rows of all its visible children.
pub open spec fn rows(g: GroupModel) -> nat
    decreases g,
{
    if !g.open {
        1
    } else {
        1 + forest_rows(g.subgroups) + g.todos.len() + g.completed.len()
    }
}

/// The summed [`rows`] of a sequence of groups.
pub open spec fn forest_rows(s: Seq<GroupModel>) -> nat
    decreases s,
{
    if s.len() == 0 {
        0
    } else {
        forest_rows(s.drop_last()) + rows(s.last())
    }
}

/// The number of active (not done) todos in a group's full subtree,
/// regardless of collapse state.
pub open spec fn active_count(g: GroupModel) -> nat
    decreases g,
{
    forest_active_count(g.subgroups) + count_active(g.todos) + count_active(g.completed)
}

/// The summed [`active_count`] of a sequence of groups.
pub open spec fn forest_active_count(s: Seq<GroupModel>) -> nat
    decreases s,
{
    if s.len() == 0 {
        0
    } else {
        forest_active_count(s.drop_last()) + active_count(s.last())
    }
}

/// How many todos of a sequence are active, that is, have no `done_time`.
pub open spec fn count_active(s: Seq<TodoModel>) -> nat
    decreases s,
{
    if s.len() == 0 {
        0
    } else {
        count_active(s.drop_last()) + (if s.last().done_time is None {
            1nat
        } else {
            0nat
        })
    }
}

/// The whole document: the live forest of root groups, the archive of
/// removed root groups, and the retention time (in seconds) after which a
/// completed todo is swept into its group's archive.
pub struct TodoConfig {
    pub groups: Vec<Group>,
    pub archive_groups: Vec<Group>,
    pub archive_time: i64,
}

/// The specification-level image of a [`TodoConfig`].
#[verifier::ext_equal]
pub struct ConfigModel {
    pub groups: Seq<GroupModel>,
    pub archive_groups: Seq<GroupModel>,
    pub archive_time: int,
}

impl View for TodoConfig {
    type V = ConfigModel;

    open spec fn view(&self) -> ConfigModel {
        ConfigModel {
            groups: groups_view(self.groups@),
            archive_groups: groups_view(self.archive_groups@),
            archive_time: self.archive_time as int,
        }
    }
}

/// The machine limit under which all of the library's index arithmetic
/// stays inside `usize`: the summed weight of the live forest fits.  Any
/// tree that exists in memory satisfies it, but the provers must be told.
pub open spec fn config_fits(c: ConfigModel) -> bool {
    forest_weight(c.groups) <= usize::MAX
}

/// A group's subtree always outweighs the subtree of any of its
/// descendants, and outweighs every simpler measure of itself; these
/// bounds justify the `usize` arithmetic throughout.
pub broadcast proof fn lemma_weight_bounds(g: GroupModel)
    ensures
        #[trigger] rows(g) <= weight(g),
        kid_count(g) < weight(g),
        active_count(g) < weight(g),
    decreases g,
{
    lemma_forest_weight_bounds(g.subgroups);
    lemma_count_active_le(g.todos);
    lemma_count_active_le(g.completed);
}

/// The forest-level counterpart of [`lemma_weight_bounds`]: summed rows
/// are bounded by summed weight, every group's weight is bounded by the
/// forest's, and a group is at least as heavy as its own length count.
pub broadcast proof fn lemma_forest_weight_bounds(s: Seq<GroupModel>)
    ensures
        #[trigger] forest_rows(s) <= forest_weight(s),
        forest_active_count(s) <= forest_weight(s),
        s.len() <= forest_weight(s),
        forall|i: int| 0 <= i < s.len() ==> #[trigger] weight(s[i]) <= forest_weight(s),
    decreases s,
{
    if s.len() > 0 {
        lemma_forest_weight_bounds(s.drop_last());
        lemma_weight_bounds(s.last());
        assert forall|i: int| 0 <= i < s.len() implies #[trigger] weight(s[i]) <= forest_weight(s) by {
            if i < s.len() - 1 {
                assert(s.drop_last()[i] == s[i]);
            }
        }
    }
}

/// No more todos are active than there are todos.
pub proof fn lemma_count_active_le(s: Seq<TodoModel>)
    ensures
        count_active(s) <= s.len(),
    decreases s,
{
    if s.len() > 0 {
        lemma_count_active_le(s.drop_last());
    }
}

impl TodoConfig {
    /// Appends a fresh, childless root group with the given name to the end
    /// of the forest.
    pub fn add_top_group(&mut self, name: String, open: bool)
        ensures
            final(self)@ == (ConfigModel {
                groups: old(self)@.groups.push(
                    GroupModel {
                        hidden: false,
                        name: name@,
                        open: open,
                        todos: Seq::empty(),
                        completed: Seq::empty(),
                        todo_archive: Seq::empty(),
                        subgroups: Seq::empty(),
                        subgroup_archive: Seq::empty(),
                    },
                ),
                ..old(self)@
            }),
    {
        let g = Group {
            hidden: false,
            name,
            open,
            todos: Vec::new(),
            completed: Vec::new(),
            todo_archive: Vec::new(),
            subgroups: Vec::new(),
            subgroup_archive: Vec::new(),
        };
        proof {
            lemma_groups_view(self.groups@);
        }
        self.groups.push(g);
        proof {
            lemma_groups_view(self.groups@);
            assert(groups_view(self.groups@) =~= groups_view(old(self).groups@).push(
                self.groups@.last()@,
            ));
            assert(self.groups@.last()@ =~~= (GroupModel {
                hidden: false,
                name: self.groups@.last().name@,
                open: open,
                todos: Seq::empty(),
                completed: Seq::empty(),
                todo_archive: Seq::empty(),
                subgroups: Seq::empty(),
                subgroup_archive: Seq::empty(),
            }));
        }
    }
}

/// Relies on time's OffsetDateTime::now_local, now_utc and
/// unix_timestamp: the current time as Unix seconds, read from the local
/// clock, or from the UTC clock when the local offset cannot be
/// determined.  The value depends on the moment of the call, so nothing
/// is promised of it.
#[verifier::external_body]
fn now_seconds_or_utc() -> i64 {
    time::OffsetDateTime::now_local()
        .unwrap_or_else(|_| time::OffsetDateTime::now_utc())
        .unix_timestamp()
}

/// A fresh todo: active, with no due date, created at the given time.
pub open spec fn fresh_todo(name: Seq<char>, created: int) -> TodoModel {
    TodoModel { name: name, done_time: None, due: None, created: created }
}

/// The starter forest a new configuration holds: one open group with two
/// greeter todos and two open sub-groups of one todo each.
pub open spec fn starter_config(c: ConfigModel) -> bool {
    &&& c.archive_groups == Seq::<GroupModel>::empty()
    &&& c.archive_time == 86400
    &&& c.groups.len() == 1
    &&& ({
        let g = c.groups[0];
        &&& !g.hidden
        &&& g.name == "Welcome"@
        &&& g.open
        &&& g.completed == Seq::<TodoModel>::empty()
        &&& g.todo_archive == Seq::<TodoModel>::empty()
        &&& g.subgroup_archive == Seq::<GroupModel>::empty()
        &&& g.todos.len() == 2
        &&& g.todos[0] == fresh_todo("Welcome to todo!"@, g.todos[0].created)
        &&& g.todos[1] == fresh_todo("Press 'h' for help"@, g.todos[1].created)
        &&& g.subgroups.len() == 2
        &&& ({
            let s0 = g.subgroups[0];
            &&& !s0.hidden
            &&& s0.name == "Subgroup"@
            &&& s0.open
            &&& s0.todos.len() == 1
            &&& s0.todos[0] == fresh_todo("This is a subgroup"@, s0.todos[0].created)
            &&& s0.completed == Seq::<TodoModel>::empty()
            &&& s0.todo_archive == Seq::<TodoModel>::empty()
            &&& s0.subgroups == Seq::<GroupModel>::empty()
            &&& s0.subgroup_archive == Seq::<GroupModel>::empty()
        })
        &&& ({
            let s1 = g.subgroups[1];
            &&& !s1.hidden
            &&& s1.name == "Another subgroup"@
            &&& s1.open
            &&& s1.todos.len() == 1
            &&& s1.todos[0] == fresh_todo("This is another subgroup"@, s1.todos[0].created)
            &&& s1.completed == Seq::<TodoModel>::empty()
            &&& s1.todo_archive == Seq::<TodoModel>::empty()
            &&& s1.subgroups == Seq::<GroupModel>::empty()
            &&& s1.subgroup_archive == Seq::<GroupModel>::empty()
        })
    })
}

impl TodoConfig {
    /// A new configuration: the starter forest, an empty archive, and a
    /// retention time of one day.  The created stamps come from the
    /// current clock.
    pub fn new() -> (c: Self)
        ensures
            starter_config(c@),
    {
        let now = now_seconds_or_utc();
        let welcome_todo = Todo {
            name: String::from_str("Welcome to todo!"),
            done_time: None,
            due: None,
            created: now,
        };
        let help_todo = Todo {
            name: String::from_str("Press 'h' for help"),
            done_time: None,
            due: None,
            created: now,
        };
        let sub0_todo = Todo {
            name: String::from_str("This is a subgroup"),
            done_time: None,
            due: None,
            created: now,
        };
        let sub1_todo = Todo {
            name: String::from_str("This is another subgroup"),
            done_time: None,
            due: None,
            created: now,
        };
        let mut sub0_todos: Vec<Todo> = Vec::new();
        sub0_todos.push(sub0_todo);
        let sub0 = Group {
            hidden: false,
            name: String::from_str("Subgroup"),
            open: true,
            todos: sub0_todos,
            completed: Vec::new(),
            todo_archive: Vec::new(),
            subgroups: Vec::new(),
            subgroup_archive: Vec::new(),
        };
        let mut sub1_todos: Vec<Todo> = Vec::new();
        sub1_todos.push(sub1_todo);
        let sub1 = Group {
            hidden: false,
            name: String::from_str("Another subgroup"),
            open: true,
            todos: sub1_todos,
            completed: Vec::new(),
            todo_archive: Vec::new(),
            subgroups: Vec::new(),
            subgroup_archive: Vec::new(),
        };
        let mut todos: Vec<Todo> = Vec::new();
        todos.push(welcome_todo);
        todos.push(help_todo);
        let mut subgroups: Vec<Group> = Vec::new();
        subgroups.push(sub0);
        subgroups.push(sub1);
        let welcome = Group {
            hidden: false,
            name: String::from_str("Welcome"),
            open: true,
            todos,
            completed: Vec::new(),
            todo_archive: Vec::new(),
            subgroups,
            subgroup_archive: Vec::new(),
        };
        let mut groups: Vec<Group> = Vec::new();
        groups.push(welcome);
        let c = TodoConfig { groups, archive_groups: Vec::new(), archive_time: 86400 };
        proof {
            lemma_groups_view(c.groups@);
            lemma_group_view_fields(c.groups@[0]);
            assert(c@.groups[0].todos =~= seq![c@.groups[0].todos[0], c@.groups[0].todos[1]]);
            assert(c@.groups[0].completed =~= Seq::<TodoModel>::empty());
            assert(c@.groups[0].todo_archive =~= Seq::<TodoModel>::empty());
            assert(c@.groups[0].subgroup_archive =~= Seq::<GroupModel>::empty());
            assert(c@.groups[0].subgroups[0].todos =~= seq![c@.groups[0].subgroups[0].todos[0]]);
            assert(c@.groups[0].subgroups[0].completed =~= Seq::<TodoModel>::empty());
            assert(c@.groups[0].subgroups[0].todo_archive =~= Seq::<TodoModel>::empty());
            assert(c@.groups[0].subgroups[0].subgroups =~= Seq::<GroupModel>::empty());
            assert(c@.groups[0].subgroups[0].subgroup_archive =~= Seq::<GroupModel>::empty());
            assert(c@.groups[0].subgroups[1].todos =~= seq![c@.groups[0].subgroups[1].todos[0]]);
            assert(c@.groups[0].subgroups[1].completed =~= Seq::<TodoModel>::empty());
            assert(c@.groups[0].subgroups[1].todo_archive =~= Seq::<TodoModel>::empty());
            assert(c@.groups[0].subgroups[1].subgroups =~= Seq::<GroupModel>::empty());
            assert(c@.groups[0].subgroups[1].subgroup_archive =~= Seq::<GroupModel>::empty());
            assert(c@.archive_groups =~= Seq::<GroupModel>::empty());
            assert(c@.groups[0].todos[0] =~~= fresh_todo(
                "Welcome to todo!"@,
                c@.groups[0].todos[0].created,
            ));
            assert(c@.groups[0].todos[1] =~~= fresh_todo(
                "Press 'h' for help"@,
                c@.groups[0].todos[1].created,
            ));
            assert(c@.groups[0].subgroups[0].todos[0] =~~= fresh_todo(
                "This is a subgroup"@,
                c@.groups[0].subgroups[0].todos[0].created,
            ));
            assert(c@.groups[0].subgroups[1].todos[0] =~~= fresh_todo(
                "This is another subgroup"@,
                c@.groups[0].subgroups[1].todos[0].created,
            ));
        }
        c
    }
}

impl Group {
    /// True iff the group has no visible children at all; archives are
    /// ignored.
    pub fn is_empty(&self) -> (r: bool)
        ensures
            r == (kid_count(self@) == 0),
    {
        proof {
            lemma_groups_view(self.subgroups@);
        }
        self.subgroups.len() == 0 && self.todos.len() == 0 && self.completed.len() == 0
    }

    /// The number of visible children, the bound for a path's final index.
    pub fn len(&self) -> (r: usize)
        requires
            kid_count(self@) <= usize::MAX,
        ensures
            r == kid_count(self@),
    {
        proof {
            lemma_groups_view(self.subgroups@);
        }
        self.subgroups.len() + self.todos.len() + self.completed.len()
    }
}

} // verus!
