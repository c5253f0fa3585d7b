//! The position hierarchy: a cursor into the forest, addressed as a path
//! of child indices.
//!
//! `indexes[0]` picks a root group; every further index but the last picks
//! a sub-group of the group so far; the final index picks among the
//! current group's children in display order — sub-groups, then active
//! todos, then completed todos.  A path of length one denotes a root group
//! itself.
//!
//! The cursor holds no references, only the index path, so it survives any
//! mutation of the tree; a stale path simply resolves to a typed error.

use vstd::prelude::*;

use crate::model::{
    config_fits, forest_rows, forest_weight, groups_view, kid_count, lemma_forest_weight_bounds,
    lemma_groups_view, lemma_groups_view_update, lemma_todos_view_update, lemma_weight_bounds, rows, todos_view, weight,
    ConfigModel, Group, GroupModel, Todo, TodoConfig, TodoModel,
};

verus! {

broadcast use {vstd::std_specs::vec::group_vec_axioms, vstd::seq::group_seq_axioms, crate::model::lemma_groups_view, crate::model::lemma_group_view_fields, crate::model::lemma_groups_view_update};

/// Why a cursor operation could not resolve its path.
#[derive(Debug, Clone, Copy, PartialEq, Eq)]
pub enum MoveError {
    /// The path holds no index at all; the path invariant makes this
    /// impossible in ordinary use, so seeing it means a prior corruption.
    NoIndex,
    /// An intermediate index of the path no longer names a sub-group.
    GroupNotFound,
    /// The final index of the path exceeds its group's child count.
    OutOfBounds,
}

/// The cursor: a non-empty sequence of child indices into the forest.
pub struct PositionHierarchy {
    pub indexes: Vec<usize>,
}

/// A resolved path: the item it addresses and the item's depth, which is
/// one less than the path's length.
pub struct HierarchyItem<'a> {
    pub item: HierarchyItemEnum<'a>,
    pub depth: usize,
}

/// A reference to one node of the tree: a group or a todo.
pub enum HierarchyItemEnum<'a> {
    Todo(&'a Todo),
    Group(&'a Group),
}

/// A mutable [`HierarchyItem`].
pub struct HierarchyItemMut<'a> {
    pub item: HierarchyItemEnumMut<'a>,
    pub depth: usize,
}

/// A mutable reference to one node of the tree.
pub enum HierarchyItemEnumMut<'a> {
    Todo(&'a mut Todo),
    Group(&'a mut Group),
}

/// The cursor selection, by addressing scheme.  The index path is the only
/// scheme the library ships.
pub enum Cursor {
    Hierarchy(PositionHierarchy),
}

/// The specification-level image of a resolved item.
pub enum ItemModel {
    Group(GroupModel),
    Todo(TodoModel),
}

/// The model of the item a [`HierarchyItemEnum`] refers to.
pub open spec fn item_model(i: HierarchyItemEnum) -> ItemModel {
    match i {
        HierarchyItemEnum::Group(g) => ItemModel::Group(g@),
        HierarchyItemEnum::Todo(t) => ItemModel::Todo(t@),
    }
}

/// Follows a sequence of sub-group indices down from `g`; `None` when any
/// index is out of bounds at its level.
pub open spec fn walk_subgroups(g: GroupModel, idxs: Seq<usize>) -> Option<GroupModel>
    decreases idxs.len(),
{
    if idxs.len() == 0 {
        Some(g)
    } else if idxs[0] < g.subgroups.len() {
        walk_subgroups(g.subgroups[idxs[0] as int], idxs.drop_first())
    } else {
        None
    }
}

/// The intermediate indices of a path: everything between the root index
/// and the final index.
pub open spec fn mids(path: Seq<usize>) -> Seq<usize> {
    if path.len() <= 1 {
        Seq::empty()
    } else {
        path.subrange(1, path.len() - 1)
    }
}

/// The group the path's final index is relative to: the result of
/// resolving every index but the last.  For a path of length one this is
/// the root group the path denotes.
pub open spec fn spec_find_parent(c: ConfigModel, path: Seq<usize>) -> Result<
    GroupModel,
    MoveError,
> {
    if path.len() == 0 {
        Err(MoveError::NoIndex)
    } else if path[0] >= c.groups.len() {
        Err(MoveError::GroupNotFound)
    } else {
        match walk_subgroups(c.groups[path[0] as int], mids(path)) {
            Some(g) => Ok(g),
            None => Err(MoveError::GroupNotFound),
        }
    }
}

/// The item a path addresses: the parent group itself for a length-one
/// path, otherwise whichever child the final index picks out of the
/// parent's display order.
pub open spec fn spec_find_item(c: ConfigModel, path: Seq<usize>) -> Result<ItemModel, MoveError> {
    match spec_find_parent(c, path) {
        Err(e) => Err(e),
        Ok(g) => if path.len() == 1 {
            Ok(ItemModel::Group(g))
        } else {
            let last = path.last() as int;
            if last < g.subgroups.len() {
                Ok(ItemModel::Group(g.subgroups[last]))
            } else if last < g.subgroups.len() + g.todos.len() {
                Ok(ItemModel::Todo(g.todos[last - g.subgroups.len()]))
            } else if last < kid_count(g) {
                Ok(ItemModel::Todo(g.completed[last - g.subgroups.len() - g.todos.len()]))
            } else {
                Err(MoveError::OutOfBounds)
            }
        },
    }
}

/// A walked-to group weighs no more than the group it started from.
pub proof fn lemma_walk_weight(g: GroupModel, idxs: Seq<usize>)
    ensures
        walk_subgroups(g, idxs) matches Some(h) ==> weight(h) <= weight(g),
    decreases idxs.len(),
{
    if idxs.len() > 0 && idxs[0] < g.subgroups.len() {
        lemma_forest_weight_bounds(g.subgroups);
        lemma_walk_weight(g.subgroups[idxs[0] as int], idxs.drop_first());
    }
}

/// Whatever group a path resolves to lies inside the forest's weight
/// bound, so all of its child counts fit in `usize`.
pub proof fn lemma_parent_weight(c: ConfigModel, path: Seq<usize>)
    ensures
        spec_find_parent(c, path) matches Ok(g) ==> weight(g) <= forest_weight(c.groups),
{
    if path.len() > 0 && (path[0] as int) < c.groups.len() {
        lemma_forest_weight_bounds(c.groups);
        lemma_walk_weight(c.groups[path[0] as int], mids(path));
    }
}

impl Default for PositionHierarchy {
    /// A cursor on the first root group.
    fn default() -> (r: Self)
        ensures
            r.indexes@ == seq![0usize],
    {
        Self::new()
    }
}

impl PositionHierarchy {
    /// A cursor on the first root group.
    pub fn new() -> (r: Self)
        ensures
            r.indexes@ == seq![0usize],
    {
        let mut v: Vec<usize> = Vec::new();
        v.push(0);
        proof {
            assert(v@ =~= seq![0usize]);
        }
        Self { indexes: v }
    }

    /// The final index of the path.
    pub fn last(&self) -> (r: Result<usize, MoveError>)
        ensures
            match r {
                Ok(i) => self.indexes@.len() > 0 && i == self.indexes@.last(),
                Err(e) => self.indexes@.len() == 0 && e == MoveError::NoIndex,
            },
    {
        if self.indexes.len() == 0 {
            Err(MoveError::NoIndex)
        } else {
            Ok(self.indexes[self.indexes.len() - 1])
        }
    }

    /// Mutable access to the final index of the path.
    pub fn last_mut(&mut self) -> (r: Result<&mut usize, MoveError>)
        ensures
            match r {
                Ok(m) => old(self).indexes@.len() > 0 && *m == old(self).indexes@.last()
                    && final(self).indexes@ == old(self).indexes@.update(
                    old(self).indexes@.len() - 1,
                    *final(m),
                ),
                Err(e) => old(self).indexes@.len() == 0 && e == MoveError::NoIndex && *final(self)
                    == *old(self),
            },
    {
        let n = self.indexes.len();
        if n == 0 {
            Err(MoveError::NoIndex)
        } else {
            Ok(&mut self.indexes[n - 1])
        }
    }

    /// Steps to the previous sibling at the current level; a no-op at the
    /// first sibling.
    pub fn group_up(&mut self, _context: &TodoConfig) -> (r: Result<(), MoveError>)
        ensures
            match r {
                Ok(()) => old(self).indexes@.len() > 0 && final(self).indexes@ == (
                if old(self).indexes@.last() > 0 {
                    old(self).indexes@.update(
                        old(self).indexes@.len() - 1,
                        (old(self).indexes@.last() - 1) as usize,
                    )
                } else {
                    old(self).indexes@
                }),
                Err(e) => old(self).indexes@.len() == 0 && e == MoveError::NoIndex && *final(self)
                    == *old(self),
            },
    {
        let n = self.indexes.len();
        if n == 0 {
            return Err(MoveError::NoIndex);
        }
        if self.indexes[n - 1] > 0 {
            let v = self.indexes[n - 1];
            self.indexes[n - 1] = v - 1;
        }
        Ok(())
    }

    /// Pops one level off the path, ascending to the parent; a no-op at a
    /// root-level path.
    pub fn hierarchy_up(&mut self, _context: &TodoConfig) -> (r: Result<(), MoveError>)
        ensures
            r is Ok,
            final(self).indexes@ == (if old(self).indexes@.len() > 1 {
                old(self).indexes@.drop_last()
            } else {
                old(self).indexes@
            }),
    {
        if self.indexes.len() > 1 {
            let _ = self.indexes.pop();
        }
        Ok(())
    }
}

/// Where a sibling step downward leads: one past the final index, clamped
/// at the level's end.  At the root level the bound is the number of root
/// groups; deeper it is the parent's child count.
pub open spec fn spec_group_down(c: ConfigModel, path: Seq<usize>) -> Result<
    Seq<usize>,
    MoveError,
> {
    if path.len() == 0 {
        Err(MoveError::NoIndex)
    } else if path.len() == 1 {
        if path.last() + 1 < c.groups.len() {
            Ok(path.update(0, (path.last() + 1) as usize))
        } else {
            Ok(path)
        }
    } else {
        match spec_find_parent(c, path) {
            Err(e) => Err(e),
            Ok(g) => if path.last() + 1 < kid_count(g) {
                Ok(path.update(path.len() - 1, (path.last() + 1) as usize))
            } else {
                Ok(path)
            },
        }
    }
}

impl PositionHierarchy {
    /// Resolves every index of the path but the last, yielding the group
    /// the final index is relative to.
    pub fn find_group<'a>(&self, context: &'a TodoConfig) -> (r: Result<&'a Group, MoveError>)
        ensures
            match r {
                Ok(g) => spec_find_parent(context@, self.indexes@) == Ok::<GroupModel, MoveError>(
                    g@,
                ),
                Err(e) => spec_find_parent(context@, self.indexes@) == Err::<GroupModel, MoveError>(
                    e,
                ),
            },
    {
        let n = self.indexes.len();
        if n == 0 {
            return Err(MoveError::NoIndex);
        }
        let idx0 = self.indexes[0];
        proof {
            lemma_groups_view(context.groups@);
        }
        if idx0 >= context.groups.len() {
            return Err(MoveError::GroupNotFound);
        }
        let mut group: &Group = &context.groups[idx0];
        let ghost root = context@.groups[idx0 as int];
        let ghost path = self.indexes@;
        let mut i: usize = 1;
        proof {
            assert(mids(path).skip(0) =~= mids(path));
        }
        while i + 1 < n
            invariant
                1 <= i,
                1 <= n,
                n == path.len(),
                n > 1 ==> i <= n - 1,
                n == 1 ==> i == 1,
                path == self.indexes@,
                root == context@.groups[path[0] as int],
                mids(path).skip(i - 1).len() == (if n > 1 {
                    n - 1 - i
                } else {
                    0
                }),
                walk_subgroups(root, mids(path)) == walk_subgroups(group@, mids(path).skip(i - 1)),
            decreases n - i,
        {
            let idx = self.indexes[i];
            proof {
                lemma_groups_view(group.subgroups@);
                assert(mids(path).skip(i - 1)[0] == path[i as int]);
                assert(mids(path).skip(i - 1).drop_first() =~= mids(path).skip(i as int));
            }
            if idx >= group.subgroups.len() {
                return Err(MoveError::GroupNotFound);
            }
            group = &group.subgroups[idx];
            i += 1;
        }
        proof {
            assert(mids(path).skip(i - 1) =~= Seq::<usize>::empty());
        }
        Ok(group)
    }

    /// Resolves the whole path to the item it addresses, together with the
    /// item's depth.
    pub fn find_item<'a>(&self, context: &'a TodoConfig) -> (r: Result<
        HierarchyItem<'a>,
        MoveError,
    >)
        ensures
            match r {
                Ok(item) => item.depth == self.indexes@.len() - 1 && Ok::<ItemModel, MoveError>(
                    item_model(item.item),
                ) == spec_find_item(context@, self.indexes@),
                Err(e) => Err::<ItemModel, MoveError>(e) == spec_find_item(
                    context@,
                    self.indexes@,
                ),
            },
    {
        let group = match self.find_group(context) {
            Ok(g) => g,
            Err(e) => {
                return Err(e);
            },
        };
        let depth = self.indexes.len() - 1;
        if self.indexes.len() == 1 {
            return Ok(HierarchyItem { depth, item: HierarchyItemEnum::Group(group) });
        }
        let last = self.indexes[self.indexes.len() - 1];
        proof {
            lemma_groups_view(group.subgroups@);
        }
        if last < group.subgroups.len() {
            Ok(HierarchyItem { depth, item: HierarchyItemEnum::Group(&group.subgroups[last]) })
        } else if last - group.subgroups.len() < group.todos.len() {
            Ok(
                HierarchyItem {
                    depth,
                    item: HierarchyItemEnum::Todo(&group.todos[last - group.subgroups.len()]),
                },
            )
        } else if last - group.subgroups.len() - group.todos.len() < group.completed.len() {
            Ok(
                HierarchyItem {
                    depth,
                    item: HierarchyItemEnum::Todo(
                        &group.completed[last - group.subgroups.len() - group.todos.len()],
                    ),
                },
            )
        } else {
            Err(MoveError::OutOfBounds)
        }
    }

    /// Steps to the next sibling at the current level; a no-op at the
    /// level's last position.
    pub fn group_down(&mut self, context: &TodoConfig) -> (r: Result<(), MoveError>)
        requires
            config_fits(context@),
        ensures
            match r {
                Ok(()) => Ok::<Seq<usize>, MoveError>(final(self).indexes@) == spec_group_down(
                    context@,
                    old(self).indexes@,
                ),
                Err(e) => Err::<Seq<usize>, MoveError>(e) == spec_group_down(
                    context@,
                    old(self).indexes@,
                ) && *final(self) == *old(self),
            },
    {
        let n = self.indexes.len();
        if n == 0 {
            return Err(MoveError::NoIndex);
        }
        if n == 1 {
            proof {
                lemma_groups_view(context.groups@);
            }
            let last = self.indexes[0];
            if last < context.groups.len() && context.groups.len() - last > 1 {
                self.indexes[0] = last + 1;
            } else {
                proof {
                    assert(self.indexes@ =~= old(self).indexes@);
                }
            }
            return Ok(());
        }
        let group_count = {
            let group = match self.find_group(context) {
                Ok(g) => g,
                Err(e) => {
                    return Err(e);
                },
            };
            proof {
                lemma_parent_weight(context@, self.indexes@);
                lemma_weight_bounds(group@);
            }
            group.len()
        };
        let last = self.indexes[n - 1];
        if last < group_count && group_count - last > 1 {
            self.indexes[n - 1] = last + 1;
        } else {
            proof {
                assert(self.indexes@ =~= old(self).indexes@);
            }
        }
        Ok(())
    }
}

/// `g` with the group at the end of the sub-group index chain `idxs`
/// replaced by `repl`; meaningful when the chain resolves.
pub open spec fn replace_walked(g: GroupModel, idxs: Seq<usize>, repl: GroupModel) -> GroupModel
    decreases idxs.len(),
{
    if idxs.len() == 0 {
        repl
    } else {
        GroupModel {
            subgroups: g.subgroups.update(
                idxs[0] as int,
                replace_walked(g.subgroups[idxs[0] as int], idxs.drop_first(), repl),
            ),
            ..g
        }
    }
}

/// The configuration with the path's parent group replaced by `p`;
/// meaningful when the path's intermediate indices resolve.
pub open spec fn spec_replace_parent(c: ConfigModel, path: Seq<usize>, p: GroupModel) -> ConfigModel {
    ConfigModel {
        groups: c.groups.update(
            path[0] as int,
            replace_walked(c.groups[path[0] as int], mids(path), p),
        ),
        ..c
    }
}

/// The configuration with the item the path addresses replaced by `m`;
/// meaningful when the path resolves and `m` is the same flavour of item
/// that it addresses.
pub open spec fn spec_update_item(c: ConfigModel, path: Seq<usize>, m: ItemModel) -> ConfigModel {
    let parent = spec_find_parent(c, path)->Ok_0;
    if path.len() == 1 {
        match m {
            ItemModel::Group(g2) => ConfigModel { groups: c.groups.update(path[0] as int, g2), ..c },
            ItemModel::Todo(_) => c,
        }
    } else {
        let last = path.last() as int;
        let p2 = if last < parent.subgroups.len() {
            match m {
                ItemModel::Group(g2) => GroupModel {
                    subgroups: parent.subgroups.update(last, g2),
                    ..parent
                },
                ItemModel::Todo(_) => parent,
            }
        } else if last < parent.subgroups.len() + parent.todos.len() {
            match m {
                ItemModel::Todo(t2) => GroupModel {
                    todos: parent.todos.update(last - parent.subgroups.len(), t2),
                    ..parent
                },
                ItemModel::Group(_) => parent,
            }
        } else {
            match m {
                ItemModel::Todo(t2) => GroupModel {
                    completed: parent.completed.update(
                        last - parent.subgroups.len() - parent.todos.len(),
                        t2,
                    ),
                    ..parent
                },
                ItemModel::Group(_) => parent,
            }
        };
        spec_replace_parent(c, path, p2)
    }
}

/// Walks the sub-group indices `path[i..len-1]` down from `g`, yielding
/// mutable access to the group they reach.
fn descend_mut<'a>(g: &'a mut Group, path: &Vec<usize>, i: usize) -> (r: Result<
    &'a mut Group,
    MoveError,
>)
    requires
        1 <= i <= path@.len(),
        path@.len() >= 2,
        i <= path@.len() - 1,
    ensures
        r is Ok ==> walk_subgroups(old(g)@, path@.subrange(i as int, path@.len() - 1)) == Some(
            (*r->Ok_0)@,
        ),
        r is Ok ==> final(g)@ == replace_walked(
            old(g)@,
            path@.subrange(i as int, path@.len() - 1),
            (*final(r->Ok_0))@,
        ),
        r is Err ==> r->Err_0 == MoveError::GroupNotFound && walk_subgroups(
            old(g)@,
            path@.subrange(i as int, path@.len() - 1),
        ) is None && final(g)@ == old(g)@,
    decreases path@.len() - i,
{
    let ghost rest = path@.subrange(i as int, path@.len() - 1);
    if i == path.len() - 1 {
        proof {
            assert(rest =~= Seq::<usize>::empty());
        }
        return Ok(g);
    }
    let idx = path[i];
    proof {
        lemma_groups_view(g.subgroups@);
        assert(rest[0] == path@[i as int]);
        assert(rest.drop_first() =~= path@.subrange(i + 1, path@.len() - 1));
    }
    if idx >= g.subgroups.len() {
        return Err(MoveError::GroupNotFound);
    }
    let ghost sub_model = g@.subgroups[idx as int];
    let ghost subs_before = g.subgroups@;
    proof {
        lemma_groups_view(subs_before);
        assert forall|x: Group|
            #[trigger] groups_view(subs_before.update(idx as int, x)) == groups_view(
                subs_before,
            ).update(idx as int, x@) by {
            lemma_groups_view(subs_before.update(idx as int, x));
            assert(groups_view(subs_before.update(idx as int, x)) =~= groups_view(
                subs_before,
            ).update(idx as int, x@));
        }
        assert(groups_view(subs_before).update(idx as int, sub_model) =~= groups_view(
            subs_before,
        ));
    }
    let sub = &mut g.subgroups[idx];
    let ghost sub_final = *final(sub);
    let res = descend_mut(sub, path, i + 1);
    proof {
        lemma_groups_view_update(subs_before, idx as int, sub_final);
    }
    res
}




/// Putting the walked-to group back where it was found changes nothing.
pub proof fn lemma_replace_walked_same(g: GroupModel, idxs: Seq<usize>)
    requires
        walk_subgroups(g, idxs) is Some,
    ensures
        replace_walked(g, idxs, walk_subgroups(g, idxs)->0) == g,
    decreases idxs.len(),
{
    if idxs.len() > 0 {
        let i = idxs[0] as int;
        lemma_replace_walked_same(g.subgroups[i], idxs.drop_first());
        assert(g.subgroups.update(i, g.subgroups[i]) =~= g.subgroups);
        assert(replace_walked(g, idxs, walk_subgroups(g, idxs)->0) =~~= g);
    }
}

impl PositionHierarchy {
    /// Like [`PositionHierarchy::find_group`], but yields mutable access
    /// to the parent group.
    pub fn find_group_mut<'a>(&self, context: &'a mut TodoConfig) -> (r: Result<
        &'a mut Group,
        MoveError,
    >)
        ensures
            r is Ok ==> spec_find_parent(old(context)@, self.indexes@) == Ok::<
                GroupModel,
                MoveError,
            >((*r->Ok_0)@) && final(context)@ == spec_replace_parent(
                old(context)@,
                self.indexes@,
                (*final(r->Ok_0))@,
            ),
            r is Err ==> spec_find_parent(old(context)@, self.indexes@) == Err::<
                GroupModel,
                MoveError,
            >(r->Err_0) && final(context)@ == old(context)@,
    {
        let n = self.indexes.len();
        if n == 0 {
            return Err(MoveError::NoIndex);
        }
        let idx0 = self.indexes[0];
        proof {
            lemma_groups_view(context.groups@);
        }
        if idx0 >= context.groups.len() {
            return Err(MoveError::GroupNotFound);
        }
        let ghost groups_before = context.groups@;
        let ghost root_model = context@.groups[idx0 as int];
        proof {
            assert(groups_view(groups_before).update(idx0 as int, root_model) =~= groups_view(
                groups_before,
            ));
        }
        let root = &mut context.groups[idx0];
        let ghost root_final = *final(root);
        if n == 1 {
            proof {
                lemma_groups_view_update(groups_before, idx0 as int, root_final);
                assert(mids(self.indexes@) =~= Seq::<usize>::empty());
            }
            return Ok(root);
        }
        let res = descend_mut(root, &self.indexes, 1);
        proof {
            lemma_groups_view_update(groups_before, idx0 as int, root_final);
            assert(self.indexes@.subrange(1, n - 1) =~= mids(self.indexes@));
        }
        res
    }

    /// Like [`PositionHierarchy::find_item`], but yields mutable access to
    /// the addressed item.
    ///
    /// Reading and writing resolve alike: both this function's contract
    /// and [`PositionHierarchy::find_item`]'s pin the found item to the
    /// one value of [`spec_find_item`] on the same path, so the two can
    /// never disagree about which item a path addresses.
    pub fn find_item_mut<'a>(&self, context: &'a mut TodoConfig) -> (r: Result<
        HierarchyItemMut<'a>,
        MoveError,
    >)
        ensures
            r is Ok ==> r->Ok_0.depth == self.indexes@.len() - 1 && match r->Ok_0.item {
                HierarchyItemEnumMut::Group(gr) => spec_find_item(old(context)@, self.indexes@)
                    == Ok::<ItemModel, MoveError>(ItemModel::Group((*gr)@)) && final(context)@
                    == spec_update_item(
                    old(context)@,
                    self.indexes@,
                    ItemModel::Group((*final(gr))@),
                ),
                HierarchyItemEnumMut::Todo(t) => spec_find_item(old(context)@, self.indexes@)
                    == Ok::<ItemModel, MoveError>(ItemModel::Todo((*t)@)) && final(context)@
                    == spec_update_item(
                    old(context)@,
                    self.indexes@,
                    ItemModel::Todo((*final(t))@),
                ),
            },
            r is Err ==> spec_find_item(old(context)@, self.indexes@) == Err::<
                ItemModel,
                MoveError,
            >(r->Err_0) && final(context)@ == old(context)@,
    {
        let n = self.indexes.len();
        if n == 0 {
            return Err(MoveError::NoIndex);
        }
        let idx0 = self.indexes[0];
        proof {
            lemma_groups_view(context.groups@);
        }
        if idx0 >= context.groups.len() {
            return Err(MoveError::GroupNotFound);
        }
        let ghost cfg0 = context@;
        let ghost path = self.indexes@;
        let ghost groups_before = context.groups@;
        let ghost root_model = context@.groups[idx0 as int];
        proof {
            assert(groups_view(groups_before).update(idx0 as int, root_model) =~= groups_view(
                groups_before,
            ));
        }
        let depth = n - 1;
        let root = &mut context.groups[idx0];
        let ghost root_final = *final(root);
        if n == 1 {
            proof {
                lemma_groups_view_update(groups_before, idx0 as int, root_final);
                assert(mids(path) =~= Seq::<usize>::empty());
            }
            return Ok(HierarchyItemMut { depth, item: HierarchyItemEnumMut::Group(root) });
        }
        let parent = match descend_mut(root, &self.indexes, 1) {
            Ok(p) => p,
            Err(e) => {
                proof {
                    lemma_groups_view_update(groups_before, idx0 as int, root_final);
                    assert(self.indexes@.subrange(1, n - 1) =~= mids(path));
                }
                return Err(e);
            },
        };
        proof {
            lemma_groups_view_update(groups_before, idx0 as int, root_final);
            assert(self.indexes@.subrange(1, n - 1) =~= mids(path));
        }
        let ghost parent_model = (*parent)@;
        let last = self.indexes[n - 1];
        proof {
            lemma_groups_view(parent.subgroups@);
        }
        if last < parent.subgroups.len() {
            let ghost psubs_before = parent.subgroups@;
            let gr = &mut parent.subgroups[last];
            let ghost gr_final = *final(gr);
            proof {
                lemma_groups_view_update(psubs_before, last as int, gr_final);
            }
            Ok(HierarchyItemMut { depth, item: HierarchyItemEnumMut::Group(gr) })
        } else if last - parent.subgroups.len() < parent.todos.len() {
            let j = last - parent.subgroups.len();
            let ghost ptodos_before = parent.todos@;
            let t = &mut parent.todos[j];
            let ghost t_final = *final(t);
            proof {
                lemma_todos_view_update(ptodos_before, j as int, t_final);
            }
            Ok(HierarchyItemMut { depth, item: HierarchyItemEnumMut::Todo(t) })
        } else if last - parent.subgroups.len() - parent.todos.len() < parent.completed.len() {
            let j = last - parent.subgroups.len() - parent.todos.len();
            let ghost pcompleted_before = parent.completed@;
            let t = &mut parent.completed[j];
            let ghost t_final = *final(t);
            proof {
                lemma_todos_view_update(pcompleted_before, j as int, t_final);
            }
            Ok(HierarchyItemMut { depth, item: HierarchyItemEnumMut::Todo(t) })
        } else {
            proof {
                lemma_replace_walked_same(root_model, mids(path));
                assert(groups_view(groups_before).update(idx0 as int, root_model) =~= groups_view(
                    groups_before,
                ));
            }
            Err(MoveError::OutOfBounds)
        }
    }
}

/// Putting the very item a path resolves to back at that path changes
/// nothing.
pub proof fn lemma_update_item_same(c: ConfigModel, path: Seq<usize>)
    requires
        spec_find_item(c, path) is Ok,
    ensures
        spec_update_item(c, path, spec_find_item(c, path)->Ok_0) == c,
{
    let parent = spec_find_parent(c, path)->Ok_0;
    let idx0 = path[0] as int;
    if path.len() == 1 {
        assert(c.groups.update(idx0, parent) =~= c.groups);
        assert(spec_update_item(c, path, spec_find_item(c, path)->Ok_0) =~~= c);
    } else {
        let last = path.last() as int;
        let m = spec_find_item(c, path)->Ok_0;
        let p2 = if last < parent.subgroups.len() {
            GroupModel { subgroups: parent.subgroups.update(last, m->Group_0), ..parent }
        } else if last < parent.subgroups.len() + parent.todos.len() {
            GroupModel {
                todos: parent.todos.update(last - parent.subgroups.len(), m->Todo_0),
                ..parent
            }
        } else {
            GroupModel {
                completed: parent.completed.update(
                    last - parent.subgroups.len() - parent.todos.len(),
                    m->Todo_0,
                ),
                ..parent
            }
        };
        if last < parent.subgroups.len() {
            assert(parent.subgroups.update(last, m->Group_0) =~= parent.subgroups);
        } else if last < parent.subgroups.len() + parent.todos.len() {
            assert(parent.todos.update(last - parent.subgroups.len(), m->Todo_0)
                =~= parent.todos);
        } else {
            assert(parent.completed.update(
                last - parent.subgroups.len() - parent.todos.len(),
                m->Todo_0,
            ) =~= parent.completed);
        }
        assert(p2 =~~= parent);
        lemma_replace_walked_same(c.groups[idx0], mids(path));
        assert(c.groups.update(idx0, replace_walked(c.groups[idx0], mids(path), parent))
            =~= c.groups);
        assert(spec_update_item(c, path, m) =~~= c);
    }
}

impl PositionHierarchy {
    /// Forces the selected group open and descends to its first child:
    /// expand and enter in one step.  A no-op on todos and on empty
    /// groups.
    pub fn hierarchy_down(&mut self, context: &mut TodoConfig) -> (r: Result<(), MoveError>)
        ensures
            r is Ok ==> spec_find_item(old(context)@, old(self).indexes@) is Ok && match (
            spec_find_item(old(context)@, old(self).indexes@)->Ok_0) {
                ItemModel::Group(g) => if kid_count(g) > 0 {
                    final(self).indexes@ == old(self).indexes@.push(0) && final(context)@
                        == spec_update_item(
                        old(context)@,
                        old(self).indexes@,
                        ItemModel::Group(GroupModel { open: true, ..g }),
                    )
                } else {
                    final(self).indexes@ == old(self).indexes@ && final(context)@ == old(context)@
                },
                ItemModel::Todo(_) => final(self).indexes@ == old(self).indexes@
                    && final(context)@ == old(context)@,
            },
            r is Err ==> spec_find_item(old(context)@, old(self).indexes@) == Err::<
                ItemModel,
                MoveError,
            >(r->Err_0) && final(self).indexes@ == old(self).indexes@
                && final(context)@ == old(context)@,
    {
        let ghost cfg0 = context@;
        let ghost path0 = self.indexes@;
        let item = match self.find_item_mut(context) {
            Ok(it) => it,
            Err(e) => {
                return Err(e);
            },
        };
        match item.item {
            HierarchyItemEnumMut::Group(gr) => {
                if !(gr.subgroups.len() == 0 && gr.todos.len() == 0 && gr.completed.len() == 0) {
                    proof {
                        lemma_groups_view(gr.subgroups@);
                    }
                    gr.open = true;
                    self.indexes.push(0);
                } else {
                    proof {
                        lemma_groups_view(gr.subgroups@);
                        lemma_update_item_same(cfg0, path0);
                    }
                }
            },
            HierarchyItemEnumMut::Todo(_) => {
                proof {
                    lemma_update_item_same(cfg0, path0);
                }
            },
        }
        Ok(())
    }
}

/// True iff the path selects a group that is open and has children — the
/// case in which the visual cursor steps into the group.
pub open spec fn selects_open_group(c: ConfigModel, path: Seq<usize>) -> bool {
    match spec_find_item(c, path) {
        Ok(ItemModel::Group(g)) => g.open && kid_count(g) > 0,
        _ => false,
    }
}

/// The number of sibling positions at the path's deepest level: the size
/// of the forest for a root-level path, the parent's child count below.
pub open spec fn spec_level_count(c: ConfigModel, path: Seq<usize>) -> int {
    if path.len() <= 1 {
        c.groups.len() as int
    } else {
        kid_count(spec_find_parent(c, path)->Ok_0) as int
    }
}

/// Advances the deepest index that has a next sibling, dropping exhausted
/// levels; `None` when every level up to the root is exhausted.
pub open spec fn spec_advance(c: ConfigModel, path: Seq<usize>) -> Option<Seq<usize>>
    decreases path.len(),
{
    if path.len() == 0 {
        None
    } else if path.last() + 1 < spec_level_count(c, path) {
        Some(path.update(path.len() - 1, (path.last() + 1) as usize))
    } else if path.len() == 1 {
        None
    } else {
        spec_advance(c, path.drop_last())
    }
}

/// One visual step down: into an open non-empty group, else to the next
/// sibling of the deepest non-exhausted level; the path itself when it
/// already addresses the last visible row.
pub open spec fn spec_cursor_down(c: ConfigModel, path: Seq<usize>) -> Seq<usize> {
    if selects_open_group(c, path) {
        path.push(0)
    } else {
        match spec_advance(c, path) {
            Some(p) => p,
            None => path,
        }
    }
}

/// The chain of indices from a group down to its last visible descendant:
/// empty for a closed or childless group, else the last child's index
/// followed, when that child is a group, by its own chain.
pub open spec fn spec_chain(g: GroupModel) -> Seq<usize>
    decreases g,
{
    if g.open && kid_count(g) > 0 {
        let j = (kid_count(g) - 1) as usize;
        if kid_count(g) <= g.subgroups.len() {
            seq![j] + spec_chain(g.subgroups[j as int])
        } else {
            seq![j]
        }
    } else {
        Seq::empty()
    }
}

/// One visual step up: to the previous sibling — descending, while that
/// sibling is an open non-empty group, to its last visible descendant —
/// or to the parent when the path is at its level's first position; the
/// path itself at the very first row.
pub open spec fn spec_cursor_up(c: ConfigModel, path: Seq<usize>) -> Seq<usize> {
    if path.len() == 0 {
        path
    } else if path.last() > 0 {
        let q = path.update(path.len() - 1, (path.last() - 1) as usize);
        match spec_find_item(c, q) {
            Ok(ItemModel::Group(g)) => q + spec_chain(g),
            _ => q,
        }
    } else if path.len() > 1 {
        path.drop_last()
    } else {
        path
    }
}

/// Walking one more index steps from the walked-to group into the chosen
/// sub-group.
pub proof fn lemma_walk_snoc(g: GroupModel, idxs: Seq<usize>, j: usize)
    ensures
        walk_subgroups(g, idxs.push(j)) == (match walk_subgroups(g, idxs) {
            Some(h) => if j < h.subgroups.len() {
                Some(h.subgroups[j as int])
            } else {
                None::<GroupModel>
            },
            None => None::<GroupModel>,
        }),
    decreases idxs.len(),
{
    assert(idxs.push(j).len() == idxs.len() + 1);
    if idxs.len() == 0 {
        assert(idxs.push(j)[0] == j);
        assert(idxs.push(j).drop_first() =~= Seq::<usize>::empty());
        if j < g.subgroups.len() {
            assert(walk_subgroups(g.subgroups[j as int], Seq::<usize>::empty()) == Some(
                g.subgroups[j as int],
            ));
        }
    } else {
        assert(idxs.push(j)[0] == idxs[0]);
        if idxs[0] < g.subgroups.len() {
            lemma_walk_snoc(g.subgroups[idxs[0] as int], idxs.drop_first(), j);
            assert(idxs.push(j).drop_first() =~= idxs.drop_first().push(j));
        }
    }
}

/// Stepping facts for a resolvable walk: every prefix resolves, and each
/// index read along the way is in bounds for the group it is read
/// against.
pub proof fn lemma_walk_steps(g: GroupModel, idxs: Seq<usize>, k: int)
    requires
        walk_subgroups(g, idxs) is Some,
        0 <= k <= idxs.len(),
    ensures
        walk_subgroups(g, idxs.take(k)) is Some,
        k < idxs.len() ==> idxs[k] < walk_subgroups(g, idxs.take(k))->0.subgroups.len()
            && walk_subgroups(g, idxs.take(k + 1)) == Some(
            walk_subgroups(g, idxs.take(k))->0.subgroups[idxs[k] as int],
        ),
    decreases idxs.len(),
{
    if k == 0 {
        assert(idxs.take(0) =~= Seq::<usize>::empty());
        if 0 < idxs.len() {
            assert(idxs[0] < g.subgroups.len());
            assert(idxs.take(1).len() == 1);
            assert(idxs.take(1)[0] == idxs[0]);
            assert(idxs.take(1).drop_first() =~= Seq::<usize>::empty());
            assert(walk_subgroups(g.subgroups[idxs[0] as int], Seq::<usize>::empty()) == Some(
                g.subgroups[idxs[0] as int],
            ));
            assert(walk_subgroups(g, idxs.take(1)) == Some(g.subgroups[idxs[0] as int]));
        }
    } else {
        let sub = g.subgroups[idxs[0] as int];
        lemma_walk_steps(sub, idxs.drop_first(), k - 1);
        assert(idxs.take(k).drop_first() =~= idxs.drop_first().take(k - 1));
        assert(idxs.take(k)[0] == idxs[0]);
        if k < idxs.len() {
            assert(idxs.take(k + 1).drop_first() =~= idxs.drop_first().take(k));
            assert(idxs.take(k + 1)[0] == idxs[0]);
            assert(idxs.drop_first()[k - 1] == idxs[k]);
            assert(idxs.drop_first().take(k - 1) =~= idxs.take(k).drop_first());
            assert(walk_subgroups(g, idxs.take(k)) == walk_subgroups(
                sub,
                idxs.drop_first().take(k - 1),
            ));
        }
    }
}

/// A resolvable path's non-empty prefixes resolve, and each prefix's
/// final index stays under its level's sibling count.
pub proof fn lemma_prefix_valid(c: ConfigModel, path: Seq<usize>, k: int)
    requires
        spec_find_parent(c, path) is Ok,
        1 <= k <= path.len(),
    ensures
        spec_find_parent(c, path.take(k)) is Ok,
        k < path.len() ==> path[k - 1] < spec_level_count(c, path.take(k)),
{
    let root = c.groups[path[0] as int];
    assert(path.take(k)[0] == path[0]);
    if k == 1 {
        assert(mids(path.take(1)) =~= Seq::<usize>::empty());
    } else {
        assert(mids(path.take(k)) =~= mids(path).take(k - 2));
        lemma_walk_steps(root, mids(path), k - 2);
        if k < path.len() {
            assert(mids(path)[k - 2] == path[k - 1]);
            assert(mids(path).take(k - 2 + 1) =~= mids(path).take(k - 1));
        }
    }
}

/// The weight of the subtree an item roots: a todo has no subtree.
pub open spec fn item_weight(m: ItemModel) -> nat {
    match m {
        ItemModel::Group(g) => weight(g),
        ItemModel::Todo(_) => 0,
    }
}

/// Appending one index to a path that addresses a group descends to that
/// group's child at the index.
pub proof fn lemma_push_child(c: ConfigModel, q: Seq<usize>, j: usize)
    requires
        q.len() >= 1,
        spec_find_item(c, q) is Ok,
        spec_find_item(c, q)->Ok_0 is Group,
        (j as int) < kid_count(spec_find_item(c, q)->Ok_0->Group_0),
    ensures
        spec_find_parent(c, q.push(j)) == Ok::<GroupModel, MoveError>(
            spec_find_item(c, q)->Ok_0->Group_0,
        ),
        spec_find_item(c, q.push(j)) == ({
            let g = spec_find_item(c, q)->Ok_0->Group_0;
            if (j as int) < g.subgroups.len() {
                Ok::<ItemModel, MoveError>(ItemModel::Group(g.subgroups[j as int]))
            } else if (j as int) < g.subgroups.len() + g.todos.len() {
                Ok::<ItemModel, MoveError>(
                    ItemModel::Todo(g.todos[j - g.subgroups.len()]),
                )
            } else {
                Ok::<ItemModel, MoveError>(
                    ItemModel::Todo(g.completed[j - g.subgroups.len() - g.todos.len()]),
                )
            }
        }),
{
    assert(q.push(j)[0] == q[0]);
    assert(q.push(j).last() == j);
    if q.len() == 1 {
        assert(mids(q.push(j)) =~= Seq::<usize>::empty());
    } else {
        assert(mids(q.push(j)) =~= mids(q).push(q.last()));
        lemma_walk_snoc(c.groups[q[0] as int], mids(q), q.last());
    }
}

/// Whatever item a path addresses roots a subtree no heavier than the
/// whole forest.
pub proof fn lemma_item_weight(c: ConfigModel, path: Seq<usize>)
    ensures
        spec_find_item(c, path) matches Ok(m) ==> item_weight(m) <= forest_weight(c.groups),
{
    lemma_parent_weight(c, path);
    if spec_find_item(c, path) is Ok {
        let parent = spec_find_parent(c, path)->Ok_0;
        lemma_forest_weight_bounds(parent.subgroups);
        lemma_weight_bounds(parent);
    }
}

/// Computes the number of sibling positions at level `k` of the path,
/// that is, for the path's prefix of length `k`.
fn level_count_at(context: &TodoConfig, path: &Vec<usize>, k: usize) -> (r: usize)
    requires
        config_fits(context@),
        1 <= k <= path@.len(),
        spec_find_parent(context@, path@.take(k as int)) is Ok,
    ensures
        r == spec_level_count(context@, path@.take(k as int)),
{
    proof {
        lemma_groups_view(context.groups@);
    }
    if k == 1 {
        return context.groups.len();
    }
    let ghost c = context@;
    let ghost q = path@.take(k as int);
    let ghost mseq = mids(q);
    let idx0 = path[0];
    proof {
        assert(q[0] == path@[0]);
    }
    let mut group: &Group = &context.groups[idx0];
    let ghost root = c.groups[idx0 as int];
    let mut i: usize = 1;
    proof {
        assert(mseq.skip(0) =~= mseq);
    }
    while i + 1 < k
        invariant
            1 <= i <= k - 1,
            2 <= k <= path@.len(),
            c == context@,
            q == path@.take(k as int),
            mseq == mids(q),
            mseq.len() == k - 2,
            walk_subgroups(root, mseq) is Some,
            walk_subgroups(root, mseq) == walk_subgroups(group@, mseq.skip(i - 1)),
            spec_find_parent(c, q) == Ok::<GroupModel, MoveError>(walk_subgroups(root, mseq)->0),
        decreases k - i,
    {
        let idx = path[i];
        proof {
            assert(mseq[i - 1] == q[i as int]);
            assert(q[i as int] == path@[i as int]);
            assert(mseq.skip(i - 1)[0] == mseq[i - 1]);
            assert(mseq.skip(i - 1).drop_first() =~= mseq.skip(i as int));
            lemma_groups_view(group.subgroups@);
        }
        group = &group.subgroups[idx];
        i += 1;
    }
    proof {
        assert(mseq.skip(i - 1) =~= Seq::<usize>::empty());
        lemma_parent_weight(c, q);
        lemma_weight_bounds(spec_find_parent(c, q)->Ok_0);
        lemma_groups_view(group.subgroups@);
    }
    group.len()
}

impl PositionHierarchy {
    /// One visual step to the next visible row: into an open non-empty
    /// group, otherwise to the next sibling of the deepest level that
    /// still has one; a no-op at the last visible row.
    pub fn cursor_down(&mut self, context: &TodoConfig) -> (r: Result<(), MoveError>)
        requires
            config_fits(context@),
        ensures
            r is Ok ==> spec_find_item(context@, old(self).indexes@) is Ok
                && final(self).indexes@ == spec_cursor_down(context@, old(self).indexes@),
            r is Err ==> spec_find_item(context@, old(self).indexes@) == Err::<
                ItemModel,
                MoveError,
            >(r->Err_0) && final(self).indexes@ == old(self).indexes@,
    {
        let ghost c = context@;
        let ghost path0 = self.indexes@;
        let item = match self.find_item(context) {
            Ok(it) => it,
            Err(e) => {
                return Err(e);
            },
        };
        match item.item {
            HierarchyItemEnum::Group(g) => {
                if g.open && !g.is_empty() {
                    self.indexes.push(0);
                    return Ok(());
                }
            },
            HierarchyItemEnum::Todo(_) => {},
        }
        proof {
            assert(!selects_open_group(c, path0));
        }
        let n = self.indexes.len();
        let mut k: usize = n;
        proof {
            assert(path0.take(n as int) =~= path0);
        }
        loop
            invariant
                1 <= k <= n,
                n == path0.len(),
                path0 == old(self).indexes@,
                self.indexes@ == path0,
                c == context@,
                config_fits(c),
                !selects_open_group(c, path0),
                spec_find_parent(c, path0) is Ok,
                spec_find_item(c, path0) is Ok,
                spec_advance(c, path0) == spec_advance(c, path0.take(k as int)),
            decreases k,
        {
            proof {
                lemma_prefix_valid(c, path0, k as int);
            }
            let cnt = level_count_at(context, &self.indexes, k);
            let cur = self.indexes[k - 1];
            if cur < cnt && cnt - cur > 1 {
                self.indexes.truncate(k);
                self.indexes[k - 1] = cur + 1;
                proof {
                    assert(self.indexes@ =~= path0.take(k as int).update(
                        k - 1,
                        (cur + 1) as usize,
                    ));
                }
                return Ok(());
            }
            if k == 1 {
                return Ok(());
            }
            proof {
                assert(path0.take(k as int).drop_last() =~= path0.take(k - 1));
            }
            k = k - 1;
        }
    }

    /// One visual step to the previous visible row: to the previous
    /// sibling, descending into it to its last visible descendant while it
    /// is an open non-empty group, or to the parent from a level's first
    /// position; a no-op at the very first row.
    pub fn cursor_up(&mut self, context: &TodoConfig) -> (r: Result<(), MoveError>)
        requires
            config_fits(context@),
        ensures
            final(self).indexes@ == spec_cursor_up(context@, old(self).indexes@),
            r matches Err(e) ==> ({
                let p = old(self).indexes@;
                (p.len() == 0 && e == MoveError::NoIndex) || (p.len() > 0 && p.last() > 0
                    && spec_find_item(
                    context@,
                    p.update(p.len() - 1, (p.last() - 1) as usize),
                ) == Err::<ItemModel, MoveError>(e))
            }),
    {
        let ghost c = context@;
        let ghost path0 = self.indexes@;
        let n = self.indexes.len();
        if n == 0 {
            return Err(MoveError::NoIndex);
        }
        let last = self.indexes[n - 1];
        if last == 0 {
            if n > 1 {
                let _ = self.indexes.pop();
            }
            return Ok(());
        }
        self.indexes[n - 1] = last - 1;
        let ghost q = path0.update(n - 1, (last - 1) as usize);
        proof {
            assert(self.indexes@ =~= q);
        }
        loop
            invariant
                self.indexes@.len() > 0,
                c == context@,
                config_fits(c),
                path0 == old(self).indexes@,
                q == path0.update(path0.len() - 1, (path0.last() - 1) as usize),
                path0.len() > 0 && path0.last() > 0,
                self.indexes@ == q || spec_find_item(c, self.indexes@) is Ok,
                self.indexes@ == q || spec_cursor_up(c, path0) == (
                if selects_open_group(c, self.indexes@) {
                    self.indexes@ + spec_chain(spec_find_item(c, self.indexes@)->Ok_0->Group_0)
                } else {
                    self.indexes@
                }),
            decreases (if spec_find_item(c, self.indexes@) is Ok {
                item_weight(spec_find_item(c, self.indexes@)->Ok_0)
            } else {
                0nat
            }),
        {
            let ghost cur = self.indexes@;
            let item = match self.find_item(context) {
                Ok(it) => it,
                Err(e) => {
                    proof {
                        if cur != q {
                            assert(false);
                        }
                        assert(spec_cursor_up(c, path0) == q);
                    }
                    return Err(e);
                },
            };
            match item.item {
                HierarchyItemEnum::Group(g) => {
                    if g.open && !g.is_empty() {
                        let ghost gm = spec_find_item(c, cur)->Ok_0->Group_0;
                        proof {
                            lemma_parent_weight(c, cur);
                            lemma_item_weight(c, cur);
                            lemma_weight_bounds(gm);
                        }
                        let kc = g.len();
                        proof {
                            lemma_push_child(c, cur, (kc - 1) as usize);
                            lemma_forest_weight_bounds(gm.subgroups);
                            if kid_count(gm) <= gm.subgroups.len() {
                                assert(cur + spec_chain(gm) =~= cur.push((kc - 1) as usize)
                                    + spec_chain(gm.subgroups[kc - 1]));
                            } else {
                                assert(cur + spec_chain(gm) =~= cur.push((kc - 1) as usize));
                            }
                        }
                        self.indexes.push(kc - 1);
                    } else {
                        proof {
                            if cur == q {
                                assert(spec_cursor_up(c, path0) == q);
                            }
                        }
                        return Ok(());
                    }
                },
                HierarchyItemEnum::Todo(_) => {
                    proof {
                        if cur == q {
                            assert(spec_cursor_up(c, path0) == q);
                        }
                    }
                    return Ok(());
                },
            }
        }
    }
}

/// The visual row of the item `rest` addresses inside group `g`, counted
/// from `g`'s header row: one row for the header, the full rendered rows
/// of every preceding sibling, and, for a todo, one row per preceding
/// todo.
pub open spec fn vpos_in(g: GroupModel, rest: Seq<usize>) -> nat
    decreases rest.len(),
{
    if rest.len() == 0 {
        0
    } else {
        let i = rest[0] as int;
        if i < g.subgroups.len() {
            1 + forest_rows(g.subgroups.take(i)) + vpos_in(g.subgroups[i], rest.drop_first())
        } else {
            (1 + forest_rows(g.subgroups) + (i - g.subgroups.len()) + vpos_in(
                g,
                rest.drop_first(),
            )) as nat
        }
    }
}

/// The 0-based visual row of the item a path addresses when the whole
/// forest is flattened to a collapse-aware list.
pub open spec fn spec_vert_pos(c: ConfigModel, path: Seq<usize>) -> nat {
    forest_rows(c.groups.take(path[0] as int)) + vpos_in(
        c.groups[path[0] as int],
        path.drop_first(),
    )
}

/// Summed rows grow with the prefix taken.
pub proof fn lemma_forest_rows_take(s: Seq<GroupModel>, n: int)
    requires
        0 <= n <= s.len(),
    ensures
        forest_rows(s.take(n)) <= forest_rows(s),
        n < s.len() ==> forest_rows(s.take(n)) + rows(s[n]) == forest_rows(s.take(n + 1)),
    decreases s.len() - n,
{
    if n < s.len() {
        assert(s.take(n + 1).drop_last() =~= s.take(n));
        assert(s.take(n + 1).last() == s[n]);
        lemma_forest_rows_take(s, n + 1);
    } else {
        assert(s.take(n) =~= s);
    }
}

/// Whether `rest` addresses an existing node inside `g`: every index but
/// the last names a sub-group, and the last is under the child count of
/// the group it lands in.
pub open spec fn rest_valid(g: GroupModel, rest: Seq<usize>) -> bool
    decreases rest.len(),
{
    if rest.len() == 0 {
        true
    } else if rest.len() == 1 {
        (rest[0] as int) < kid_count(g)
    } else {
        (rest[0] as int) < g.subgroups.len() && rest_valid(
            g.subgroups[rest[0] as int],
            rest.drop_first(),
        )
    }
}

/// A path that resolves is valid level by level.
pub proof fn lemma_find_item_rest_valid(c: ConfigModel, path: Seq<usize>)
    requires
        spec_find_item(c, path) is Ok,
        path.len() >= 1,
    ensures
        (path[0] as int) < c.groups.len(),
        rest_valid(c.groups[path[0] as int], path.drop_first()),
{
    let root = c.groups[path[0] as int];
    lemma_walk_valid_rest(root, mids(path), path);
}

/// The inductive core of [`lemma_find_item_rest_valid`]: if the walk over
/// the intermediate indices succeeds and the final index is in range for
/// the walked-to group, the remaining index sequence is valid.
proof fn lemma_walk_valid_rest(g: GroupModel, ms: Seq<usize>, path: Seq<usize>)
    requires
        path.len() >= 1,
        ms == mids(path),
        walk_subgroups(g, ms) is Some,
        path.len() > 1 ==> (path.last() as int) < kid_count(walk_subgroups(g, ms)->0),
    ensures
        rest_valid(g, path.drop_first()),
    decreases path.len(),
{
    let rest = path.drop_first();
    if path.len() == 1 {
        assert(rest =~= Seq::<usize>::empty());
    } else if path.len() == 2 {
        assert(ms =~= Seq::<usize>::empty());
        assert(rest.len() == 1);
        assert(rest[0] == path[1]);
    } else {
        let sub = g.subgroups[ms[0] as int];
        let path2 = path.drop_first();
        assert(ms[0] == path[1]);
        assert(mids(path2) =~= ms.drop_first());
        lemma_walk_valid_rest(sub, ms.drop_first(), path2);
        assert(rest[0] == path[1]);
        assert(rest.drop_first() =~= path2.drop_first());
    }
}

/// A valid address inside a group lies strictly inside the group's
/// weight, so every row number fits in `usize` once the forest does.
pub proof fn lemma_vpos_in_bound(g: GroupModel, rest: Seq<usize>)
    requires
        rest_valid(g, rest),
    ensures
        vpos_in(g, rest) < weight(g),
    decreases rest.len(),
{
    lemma_forest_weight_bounds(g.subgroups);
    if rest.len() == 0 {
    } else if rest.len() == 1 {
        let i = rest[0] as int;
        assert(rest.drop_first() =~= Seq::<usize>::empty());
        if i < g.subgroups.len() {
            assert(vpos_in(g.subgroups[i], Seq::<usize>::empty()) == 0);
            lemma_forest_rows_take(g.subgroups, i);
            lemma_forest_rows_weight_take(g.subgroups, i);
            assert(weight(g.subgroups[i]) >= 1);
        } else {
            assert(vpos_in(g, Seq::<usize>::empty()) == 0);
            lemma_forest_weight_bounds(g.subgroups);
            assert(forest_rows(g.subgroups) <= forest_weight(g.subgroups));
        }
    } else {
        let i = rest[0] as int;
        lemma_vpos_in_bound(g.subgroups[i], rest.drop_first());
        lemma_forest_rows_weight_take(g.subgroups, i);
    }
}

/// The rows of the first `n` groups plus the weight of the next stay
/// within the forest's summed weight.
pub proof fn lemma_forest_rows_weight_take(s: Seq<GroupModel>, n: int)
    requires
        0 <= n < s.len(),
    ensures
        forest_rows(s.take(n)) + weight(s[n]) <= forest_weight(s),
    decreases s.len() - n,
{
    lemma_forest_rows_le_weight_take(s, n);
    lemma_forest_weight_take_step(s, n);
}

/// Taken prefixes of rows are bounded by taken prefixes of weight.
pub proof fn lemma_forest_rows_le_weight_take(s: Seq<GroupModel>, n: int)
    requires
        0 <= n <= s.len(),
    ensures
        forest_rows(s.take(n)) <= forest_weight(s.take(n)),
    decreases n,
{
    if n > 0 {
        assert(s.take(n).drop_last() =~= s.take(n - 1));
        lemma_forest_rows_le_weight_take(s, n - 1);
        lemma_weight_bounds(s[n - 1]);
    }
}

/// A prefix's weight plus the next group's weight is bounded by the
/// forest's weight.
pub proof fn lemma_forest_weight_take_step(s: Seq<GroupModel>, n: int)
    requires
        0 <= n < s.len(),
    ensures
        forest_weight(s.take(n)) + weight(s[n]) <= forest_weight(s),
    decreases s.len() - n,
{
    if n + 1 == s.len() {
        assert(s.take(n + 1) =~= s);
        assert(s.take(n + 1).drop_last() =~= s.take(n));
    } else {
        lemma_forest_weight_take_step(s, n + 1);
        assert(s.take(n + 1).drop_last() =~= s.take(n));
        lemma_weight_bounds(s[n + 1]);
    }
}

/// The rendered size of one group's subtree: its row count.
fn group_size(group: &Group) -> (r: usize)
    requires
        weight(group@) <= usize::MAX,
    ensures
        r == rows(group@),
    decreases group,
{
    proof {
        lemma_groups_view(group.subgroups@);
        lemma_forest_weight_bounds(group@.subgroups);
    }
    if !group.open {
        return 1;
    }
    let mut total: usize = 1;
    let mut i: usize = 0;
    while i < group.subgroups.len()
        invariant
            i <= group.subgroups.len(),
            weight(group@) <= usize::MAX,
            groups_view(group.subgroups@) == group@.subgroups,
            forest_weight(group@.subgroups) < weight(group@),
            total == 1 + forest_rows(group@.subgroups.take(i as int)),
        decreases group.subgroups.len() - i,
    {
        proof {
            lemma_groups_view(group.subgroups@);
            lemma_forest_weight_bounds(group@.subgroups);
            lemma_forest_rows_take(group@.subgroups, i as int);
            lemma_forest_rows_le_weight_take(
                group@.subgroups,
                group@.subgroups.len() as int,
            );
            assert(group@.subgroups.take(group@.subgroups.len() as int) =~= group@.subgroups);
            lemma_forest_rows_weight_take(group@.subgroups, i as int);
            assert((group.subgroups@[i as int])@ == group@.subgroups[i as int]);
            lemma_weight_bounds(group@.subgroups[i as int]);
        }
        let sz = group_size(&group.subgroups[i]);
        total = total + sz;
        i += 1;
        proof {
            lemma_forest_rows_take(group@.subgroups, i - 1);
        }
    }
    proof {
        assert(group@.subgroups.take(group.subgroups@.len() as int) =~= group@.subgroups);
        lemma_forest_rows_le_weight_take(group@.subgroups, group@.subgroups.len() as int);
    }
    total + group.todos.len() + group.completed.len()
}

impl PositionHierarchy {
    /// The 0-based visual row of the addressed item in the flattened,
    /// collapse-aware rendering of the forest.
    pub fn vert_pos(&self, context: &TodoConfig) -> (r: Result<usize, MoveError>)
        requires
            config_fits(context@),
            spec_find_item(context@, self.indexes@) is Ok,
        ensures
            r matches Ok(v) && v == spec_vert_pos(context@, self.indexes@),
    {
        let ghost c = context@;
        let ghost path = self.indexes@;
        proof {
            lemma_groups_view(context.groups@);
            lemma_find_item_rest_valid(c, path);
            lemma_vpos_in_bound(c.groups[path[0] as int], path.drop_first());
            lemma_forest_rows_weight_take(c.groups, path[0] as int);
            lemma_forest_weight_bounds(c.groups);
        }
        let n = self.indexes.len();
        let first = self.indexes[0];
        let ghost target = spec_vert_pos(c, path);
        let mut total: usize = 0;
        let mut i: usize = 0;
        while i < first
            invariant
                i <= first,
                c == context@,
                path == self.indexes@,
                config_fits(c),
                (first as int) < c.groups.len(),
                groups_view(context.groups@) == c.groups,
                total == forest_rows(c.groups.take(i as int)),
                forest_rows(c.groups.take(first as int)) <= forest_weight(c.groups),
            decreases first - i,
        {
            proof {
                lemma_groups_view(context.groups@);
                assert((context.groups@[i as int])@ == c.groups[i as int]);
                lemma_forest_weight_bounds(c.groups);
                lemma_forest_rows_weight_take(c.groups, i as int);
                lemma_forest_rows_take(c.groups, i as int);
                lemma_rows_take_mono(c.groups, i + 1, first as int);
                lemma_weight_bounds(c.groups[i as int]);
            }
            let sz = group_size(&context.groups[i]);
            total = total + sz;
            i += 1;
        }
        let mut group: &Group = &context.groups[first];
        let mut lvl: usize = 1;
        proof {
            assert(path.drop_first().skip(0) =~= path.drop_first());
            assert(group@ == c.groups[first as int]);
            lemma_forest_weight_bounds(c.groups);
        }
        while lvl < n
            invariant
                1 <= lvl <= n,
                n == path.len(),
                c == context@,
                path == self.indexes@,
                config_fits(c),
                target == spec_vert_pos(c, path),
                target < forest_weight(c.groups),
                rest_valid(group@, path.drop_first().skip(lvl - 1)),
                weight(group@) <= forest_weight(c.groups),
                total + vpos_in(group@, path.drop_first().skip(lvl - 1)) == target,
            decreases n - lvl,
        {
            let idx = self.indexes[lvl];
            let ghost rest = path.drop_first().skip(lvl - 1);
            let ghost gm = group@;
            proof {
                assert(rest.len() == n - 1 - (lvl - 1));
                assert(rest[0] == path[lvl as int]);
                assert(rest.drop_first() =~= path.drop_first().skip(lvl as int));
                lemma_groups_view(group.subgroups@);
                lemma_forest_weight_bounds(gm.subgroups);
                lemma_vpos_in_bound(gm, rest);
            }
            total = total + 1;
            if idx < group.subgroups.len() {
                let ghost inner_base = total as int;
                let mut j: usize = 0;
                while j < idx
                    invariant
                        j <= idx,
                        (idx as int) < gm.subgroups.len(),
                        gm == group@,
                        c == context@,
                        config_fits(c),
                        groups_view(group.subgroups@) == gm.subgroups,
                        weight(gm) <= forest_weight(c.groups),
                        total == inner_base + forest_rows(gm.subgroups.take(j as int)),
                        inner_base + forest_rows(gm.subgroups.take(idx as int)) <= usize::MAX,
                    decreases idx - j,
                {
                    proof {
                        lemma_groups_view(group.subgroups@);
                        assert((group.subgroups@[j as int])@ == gm.subgroups[j as int]);
                        lemma_forest_weight_bounds(gm.subgroups);
                        lemma_forest_rows_take(gm.subgroups, j as int);
                        lemma_rows_take_mono(gm.subgroups, j + 1, idx as int);
                        lemma_weight_bounds(gm.subgroups[j as int]);
                    }
                    let sz = group_size(&group.subgroups[j]);
                    total = total + sz;
                    j += 1;
                }
                group = &group.subgroups[idx];
                proof {
                    lemma_groups_view(context.groups@);
                    assert(group@ == gm.subgroups[idx as int]);
                    lemma_forest_weight_bounds(gm.subgroups);
                    lemma_weight_bounds(gm);
                }
                lvl += 1;
            } else {
                proof {
                    assert(rest.len() == 1) by {
                        if rest.len() >= 2 {
                            assert(!rest_valid(gm, rest));
                        }
                    }
                    assert(lvl == n - 1);
                }
                let ghost inner_base = total as int;
                let mut j: usize = 0;
                while j < group.subgroups.len()
                    invariant
                        j <= gm.subgroups.len(),
                        gm == group@,
                        c == context@,
                        config_fits(c),
                        groups_view(group.subgroups@) == gm.subgroups,
                        weight(gm) <= forest_weight(c.groups),
                        total == inner_base + forest_rows(gm.subgroups.take(j as int)),
                        inner_base + forest_rows(gm.subgroups) + (rest[0] as int)
                            - gm.subgroups.len() <= usize::MAX,
                        (rest[0] as int) >= gm.subgroups.len(),
                    decreases gm.subgroups.len() - j,
                {
                    proof {
                        lemma_groups_view(group.subgroups@);
                        assert((group.subgroups@[j as int])@ == gm.subgroups[j as int]);
                        lemma_forest_weight_bounds(gm.subgroups);
                        lemma_forest_rows_take(gm.subgroups, j as int);
                        lemma_rows_take_mono(gm.subgroups, j + 1, gm.subgroups.len() as int);
                        assert(gm.subgroups.take(gm.subgroups.len() as int) =~= gm.subgroups);
                        lemma_weight_bounds(gm.subgroups[j as int]);
                    }
                    let sz = group_size(&group.subgroups[j]);
                    total = total + sz;
                    j += 1;
                }
                proof {
                    assert(gm.subgroups.take(group.subgroups@.len() as int) =~= gm.subgroups);
                    assert(vpos_in(gm, rest.drop_first()) == 0);
                }
                total = total + (idx - group.subgroups.len());
                lvl += 1;
            }
        }
        proof {
            if n > 1 {
                assert(path.drop_first().skip(n - 1) =~= Seq::<usize>::empty());
            } else {
                assert(path.drop_first() =~= Seq::<usize>::empty());
            }
        }
        Ok(total)
    }
}

/// Prefix rows are monotone in the prefix length.
pub proof fn lemma_rows_take_mono(s: Seq<GroupModel>, a: int, b: int)
    requires
        0 <= a <= b <= s.len(),
    ensures
        forest_rows(s.take(a)) <= forest_rows(s.take(b)),
    decreases b - a,
{
    if a < b {
        lemma_rows_take_mono(s, a + 1, b);
        assert(s.take(a + 1).drop_last() =~= s.take(a));
    }
}

/// What activating the addressed item leaves in the configuration: a
/// group's collapse flag flips; an active todo moves, stamped with `now`,
/// to the end of its group's `completed`; a completed todo moves back,
/// cleared, to the end of `todos`.
pub open spec fn spec_activate(c: ConfigModel, path: Seq<usize>, now: Option<int>) -> ConfigModel {
    match spec_find_item(c, path) {
        Err(_) => c,
        Ok(m) => match m {
            ItemModel::Group(g) => spec_update_item(
                c,
                path,
                ItemModel::Group(GroupModel { open: !g.open, ..g }),
            ),
            ItemModel::Todo(t) => {
                let parent = spec_find_parent(c, path)->Ok_0;
                let last = path.last() as int;
                let p2 = if last < parent.subgroups.len() + parent.todos.len() {
                    let j = last - parent.subgroups.len();
                    GroupModel {
                        todos: parent.todos.remove(j),
                        completed: parent.completed.push(TodoModel { done_time: now, ..t }),
                        ..parent
                    }
                } else {
                    let j = last - parent.subgroups.len() - parent.todos.len();
                    GroupModel {
                        todos: parent.todos.push(TodoModel { done_time: None, ..t }),
                        completed: parent.completed.remove(j),
                        ..parent
                    }
                };
                spec_replace_parent(c, path, p2)
            },
        },
    }
}

impl PositionHierarchy {
    /// Activates the addressed item: toggles a group's collapse flag, or
    /// toggles a todo between active and completed.  A todo completed now
    /// is stamped with `now`; one reactivated loses its completion time.
    pub fn activate_item(&self, context: &mut TodoConfig, now: Option<i64>) -> (r: Result<
        (),
        MoveError,
    >)
        ensures
            r is Ok ==> spec_find_item(old(context)@, self.indexes@) is Ok && final(context)@
                == spec_activate(old(context)@, self.indexes@, crate::traverse::time_model(now)),
            r is Err ==> spec_find_item(old(context)@, self.indexes@) == Err::<
                ItemModel,
                MoveError,
            >(r->Err_0) && final(context)@ == old(context)@,
    {
        let ghost c0 = context@;
        let ghost path = self.indexes@;
        let is_group = match self.find_item(context) {
            Ok(it) => match it.item {
                HierarchyItemEnum::Group(_) => true,
                HierarchyItemEnum::Todo(_) => false,
            },
            Err(e) => {
                return Err(e);
            },
        };
        if is_group {
            match self.find_item_mut(context) {
                Ok(it) => match it.item {
                    HierarchyItemEnumMut::Group(gr) => {
                        gr.open = !gr.open;
                        Ok(())
                    },
                    HierarchyItemEnumMut::Todo(_) => {
                        proof {
                            assert(false);
                        }
                        Err(MoveError::NoIndex)
                    },
                },
                Err(_) => {
                    proof {
                        assert(false);
                    }
                    Err(MoveError::NoIndex)
                },
            }
        } else {
            let g = match self.find_group_mut(context) {
                Ok(g) => g,
                Err(_) => {
                    proof {
                        assert(false);
                    }
                    return Err(MoveError::NoIndex);
                },
            };
            let ghost parent = (*g)@;
            let n = self.indexes.len();
            let last = self.indexes[n - 1];
            proof {
                lemma_groups_view(g.subgroups@);
            }
            if last - g.subgroups.len() < g.todos.len() {
                let j = last - g.subgroups.len();
                let ghost todos0 = g.todos@;
                let ghost completed0 = g.completed@;
                let mut t = g.todos.remove(j);
                t.done_time = now;
                g.completed.push(t);
                proof {
                    assert(todos_view(g.todos@) =~= parent.todos.remove(j as int));
                    assert(todos_view(g.completed@) =~= parent.completed.push(
                        (g.completed@.last())@,
                    ));
                    assert(g@ =~~= (GroupModel {
                        todos: parent.todos.remove(j as int),
                        completed: parent.completed.push(
                            TodoModel {
                                done_time: crate::traverse::time_model(now),
                                ..spec_find_item(c0, path)->Ok_0->Todo_0
                            },
                        ),
                        ..parent
                    }));
                }
                Ok(())
            } else {
                let j = last - g.subgroups.len() - g.todos.len();
                let mut t = g.completed.remove(j);
                t.done_time = None;
                g.todos.push(t);
                proof {
                    assert(todos_view(g.completed@) =~= parent.completed.remove(j as int));
                    assert(todos_view(g.todos@) =~= parent.todos.push((g.todos@.last())@));
                    assert(g@ =~~= (GroupModel {
                        todos: parent.todos.push(
                            TodoModel {
                                done_time: None,
                                ..spec_find_item(c0, path)->Ok_0->Todo_0
                            },
                        ),
                        completed: parent.completed.remove(j as int),
                        ..parent
                    }));
                }
                Ok(())
            }
        }
    }
}

/// True iff the resolution yielded an open group.
pub open spec fn resolved_open_group(r: Result<ItemModel, MoveError>) -> bool {
    match r {
        Ok(ItemModel::Group(g)) => g.open,
        _ => false,
    }
}

/// A path addresses a visible row iff every proper prefix addresses an
/// open group: no ancestor is collapsed.
pub open spec fn visible(c: ConfigModel, path: Seq<usize>) -> bool {
    forall|k: int|
        1 <= k < path.len() ==> resolved_open_group(#[trigger] spec_find_item(c, path.take(k)))
}

/// For a visible path whose levels below `m` all sit at their last
/// sibling position, the descend-to-last-child chain from the group at
/// depth `m` rebuilds exactly the path's tail.
proof fn lemma_chain_rebuilds(c: ConfigModel, f: Seq<usize>, m: int)
    requires
        spec_find_item(c, f) is Ok,
        visible(c, f),
        !selects_open_group(c, f),
        1 <= m < f.len(),
        forall|j: int|
            m < j <= f.len() ==> (#[trigger] f[j - 1]) + 1 == spec_level_count(c, f.take(j)),
    ensures
        spec_find_item(c, f.take(m)) is Ok,
        spec_find_item(c, f.take(m))->Ok_0 is Group,
        f.take(m) + spec_chain(spec_find_item(c, f.take(m))->Ok_0->Group_0) == f,
    decreases f.len() - m,
{
    lemma_prefix_valid(c, f, m);
    let q = f.take(m);
    let gm = spec_find_item(c, q)->Ok_0->Group_0;
    // the item at a proper prefix is the group the next level indexes into
    lemma_prefix_item_is_parent(c, f, m);
    assert(resolved_open_group(spec_find_item(c, q)));
    let j = f[m] as int;
    assert(f[m] + 1 == spec_level_count(c, f.take(m + 1)));
    assert(spec_find_parent(c, f.take(m + 1)) == Ok::<GroupModel, MoveError>(gm));
    assert(j == kid_count(gm) - 1);
    assert(q.push(f[m]) =~= f.take(m + 1));
    lemma_push_child(c, q, f[m]);
    if j < gm.subgroups.len() {
        let child = gm.subgroups[j];
        assert(spec_find_item(c, f.take(m + 1)) == Ok::<ItemModel, MoveError>(
            ItemModel::Group(child),
        ));
        if m + 1 == f.len() {
            assert(f.take(m + 1) =~= f);
            assert(!(child.open && kid_count(child) > 0));
            assert(spec_chain(child) =~= Seq::<usize>::empty());
            assert(spec_chain(gm) =~= seq![(j as usize)]);
            assert(q + spec_chain(gm) =~= f);
        } else {
            lemma_chain_rebuilds(c, f, m + 1);
            assert(resolved_open_group(spec_find_item(c, f.take(m + 1))));
            assert(child.open);
            assert(kid_count(child) > 0) by {
                lemma_prefix_valid(c, f, m + 1);
                lemma_prefix_item_is_parent(c, f, m + 1);
            }
            assert(kid_count(gm) <= gm.subgroups.len());
            assert(spec_chain(gm) == seq![(j as usize)] + spec_chain(child));
            assert(q + spec_chain(gm) =~= f.take(m + 1) + spec_chain(child));
        }
    } else {
        // the last child is a todo, so the path cannot go deeper
        assert(m + 1 == f.len()) by {
            if m + 1 < f.len() {
                lemma_prefix_valid(c, f, m + 1);
                lemma_prefix_item_is_parent(c, f, m + 1);
            }
        }
        assert(f.take(m + 1) =~= f);
        assert(!(kid_count(gm) <= gm.subgroups.len()));
        assert(spec_chain(gm) =~= seq![(j as usize)]);
        assert(q + spec_chain(gm) =~= f);
    }
}

/// The item a proper prefix of a resolvable path addresses is a group —
/// the one the next path index selects into — and it has children.
proof fn lemma_prefix_item_is_parent(c: ConfigModel, f: Seq<usize>, m: int)
    requires
        spec_find_item(c, f) is Ok,
        1 <= m < f.len(),
    ensures
        spec_find_item(c, f.take(m)) is Ok,
        spec_find_item(c, f.take(m))->Ok_0 is Group,
        spec_find_parent(c, f.take(m + 1)) == Ok::<GroupModel, MoveError>(
            spec_find_item(c, f.take(m))->Ok_0->Group_0,
        ),
        kid_count(spec_find_item(c, f.take(m))->Ok_0->Group_0) > 0,
        f[m] < spec_level_count(c, f.take(m + 1)),
{
    lemma_prefix_valid(c, f, m);
    lemma_prefix_valid(c, f, m + 1);
    let root = c.groups[f[0] as int];
    assert(f.take(f.len() as int) =~= f);
    if m == 1 {
        assert(mids(f.take(1)) =~= Seq::<usize>::empty());
        assert(mids(f.take(2)) =~= Seq::<usize>::empty());
        assert(spec_find_item(c, f.take(1)) == Ok::<ItemModel, MoveError>(ItemModel::Group(root)));
        assert(spec_find_parent(c, f.take(2)) == Ok::<GroupModel, MoveError>(root));
        if f.len() == 2 {
            assert(mids(f) =~= Seq::<usize>::empty());
            assert(spec_find_parent(c, f) == Ok::<GroupModel, MoveError>(root));
            assert(f[1] == f.last());
            assert((f.last() as int) < kid_count(root));
        } else {
            lemma_walk_steps(root, mids(f), 0);
            assert(mids(f).take(0) =~= Seq::<usize>::empty());
            assert(mids(f)[0] == f[1]);
            assert((f[1] as int) < root.subgroups.len());
        }
    } else {
        assert(mids(f.take(m)) =~= mids(f).take(m - 2));
        assert(mids(f.take(m + 1)) =~= mids(f).take(m - 1));
        lemma_walk_steps(root, mids(f), m - 2);
        assert(mids(f)[m - 2] == f[m - 1]);
        let parent_m = walk_subgroups(root, mids(f).take(m - 2))->0;
        assert(spec_find_parent(c, f.take(m)) == Ok::<GroupModel, MoveError>(parent_m));
        assert(f.take(m).last() == f[m - 1]);
        assert((f[m - 1] as int) < parent_m.subgroups.len());
        assert(spec_find_item(c, f.take(m)) == Ok::<ItemModel, MoveError>(
            ItemModel::Group(parent_m.subgroups[f[m - 1] as int]),
        ));
        assert(walk_subgroups(root, mids(f).take(m - 1)) == Some(
            parent_m.subgroups[f[m - 1] as int],
        ));
        if m + 1 == f.len() {
            assert(mids(f.take(m + 1)) =~= mids(f));
            assert(mids(f).take(m - 1) =~= mids(f));
            assert(f[m as int] == f.last());
        } else {
            lemma_walk_steps(root, mids(f), m - 1);
            assert(mids(f)[m - 1] == f[m as int]);
        }
    }
}

/// If every level below `m` is exhausted and the advance continues from
/// the prefix of length `m`, stepping up from the advanced path rebuilds
/// the original path.
proof fn lemma_up_of_advance(c: ConfigModel, f: Seq<usize>, m: int)
    requires
        config_fits(c),
        spec_find_item(c, f) is Ok,
        visible(c, f),
        !selects_open_group(c, f),
        1 <= m <= f.len(),
        forall|j: int|
            m < j <= f.len() ==> (#[trigger] f[j - 1]) + 1 == spec_level_count(c, f.take(j)),
        spec_advance(c, f) == spec_advance(c, f.take(m)),
    ensures
        spec_advance(c, f) matches Some(p) ==> spec_cursor_up(c, p) == f,
    decreases m,
{
    let q = f.take(m);
    lemma_prefix_valid(c, f, m);
    assert(f.take(f.len() as int) =~= f);
    assert(q.len() == m);
    assert(q.last() == f[m - 1]);
    if q.last() + 1 < spec_level_count(c, q) {
        let p = q.update(m - 1, (q.last() + 1) as usize);
        lemma_forest_weight_bounds(c.groups);
        lemma_parent_weight(c, q);
        if q.len() > 1 {
            lemma_weight_bounds(spec_find_parent(c, q)->Ok_0);
        }
        assert(spec_level_count(c, q) <= usize::MAX);
        assert(spec_advance(c, q) == Some(p));
        assert(p.last() == q.last() + 1);
        assert(p.update(p.len() - 1, (p.last() - 1) as usize) =~= q);
        if m == f.len() {
            assert(q =~= f);
            match spec_find_item(c, f)->Ok_0 {
                ItemModel::Group(g) => {
                    assert(!(g.open && kid_count(g) > 0));
                    assert(spec_chain(g) =~= Seq::<usize>::empty());
                    assert(q + spec_chain(g) =~= q);
                },
                ItemModel::Todo(_) => {},
            }
        } else {
            lemma_chain_rebuilds(c, f, m);
        }
    } else if m > 1 {
        if m < f.len() {
            assert(f[m - 1] < spec_level_count(c, f.take(m)));
        } else {
            assert(q =~= f);
            assert((f.last() as int) < kid_count(spec_find_parent(c, f)->Ok_0));
        }
        assert(f[m - 1] + 1 == spec_level_count(c, f.take(m)));
        assert(q.drop_last() =~= f.take(m - 1));
        lemma_up_of_advance(c, f, m - 1);
    }
}

/// Stepping down to the next visible row and then up returns the cursor
/// to where it was, for every visible position that is not already the
/// last row.
pub proof fn lemma_down_then_up(c: ConfigModel, path: Seq<usize>)
    requires
        config_fits(c),
        spec_find_item(c, path) is Ok,
        visible(c, path),
        spec_cursor_down(c, path) != path,
    ensures
        spec_cursor_up(c, spec_cursor_down(c, path)) == path,
{
    if selects_open_group(c, path) {
        let p = path.push(0);
        assert(p.last() == 0);
        assert(p.len() > 1);
        assert(p.drop_last() =~= path);
    } else {
        assert(path.take(path.len() as int) =~= path);
        lemma_up_of_advance(c, path, path.len() as int);
    }
}

/// After replacing the walked-to group, the same walk reaches the
/// replacement.
pub proof fn lemma_walk_replace(g: GroupModel, idxs: Seq<usize>, p: GroupModel)
    requires
        walk_subgroups(g, idxs) is Some,
    ensures
        walk_subgroups(replace_walked(g, idxs, p), idxs) == Some(p),
    decreases idxs.len(),
{
    if idxs.len() > 0 {
        let i = idxs[0] as int;
        lemma_walk_replace(g.subgroups[i], idxs.drop_first(), p);
    }
}

/// Replacing along the same chain twice keeps only the second
/// replacement.
pub proof fn lemma_replace_replace(g: GroupModel, idxs: Seq<usize>, p1: GroupModel, p2: GroupModel)
    requires
        walk_subgroups(g, idxs) is Some,
    ensures
        replace_walked(replace_walked(g, idxs, p1), idxs, p2) == replace_walked(g, idxs, p2),
    decreases idxs.len(),
{
    if idxs.len() > 0 {
        let i = idxs[0] as int;
        lemma_replace_replace(g.subgroups[i], idxs.drop_first(), p1, p2);
        assert(g.subgroups.update(i, replace_walked(g.subgroups[i], idxs.drop_first(), p1)).update(
            i,
            replace_walked(g.subgroups[i], idxs.drop_first(), p2),
        ) =~= g.subgroups.update(i, replace_walked(g.subgroups[i], idxs.drop_first(), p2)));
        assert(replace_walked(replace_walked(g, idxs, p1), idxs, p2) =~~= replace_walked(
            g,
            idxs,
            p2,
        ));
    }
}

/// Toggling a todo's done state twice moves it back to its original
/// container: starting from an active todo, one activation completes it
/// (it moves to the end of `completed`) and a second activation of that
/// row restores `completed` and leaves the todo, again active, at the end
/// of `todos`; its done state is its original one.
pub proof fn lemma_toggle_twice(c: ConfigModel, path: Seq<usize>, now1: Option<int>, now2: Option<
    int,
>)
    requires
        path.len() >= 2,
        spec_find_item(c, path) is Ok,
        spec_find_item(c, path)->Ok_0 is Todo,
        kid_count(spec_find_parent(c, path)->Ok_0) <= usize::MAX,
        (path.last() as int) < spec_find_parent(c, path)->Ok_0.subgroups.len() + spec_find_parent(
            c,
            path,
        )->Ok_0.todos.len(),
    ensures
        ({
            let parent = spec_find_parent(c, path)->Ok_0;
            let j = path.last() - parent.subgroups.len();
            let t = spec_find_item(c, path)->Ok_0->Todo_0;
            let c1 = spec_activate(c, path, now1);
            let p2 = path.update(path.len() - 1, (kid_count(parent) - 1) as usize);
            let c2 = spec_activate(c1, p2, now2);
            c2 == spec_replace_parent(
                c,
                path,
                GroupModel {
                    todos: parent.todos.remove(j).push(TodoModel { done_time: None, ..t }),
                    ..parent
                },
            ) && (t.done_time is None ==> c2 == spec_replace_parent(
                c,
                path,
                GroupModel { todos: parent.todos.remove(j).push(t), ..parent },
            ))
        }),
{
    let parent = spec_find_parent(c, path)->Ok_0;
    let j = path.last() - parent.subgroups.len();
    let t = spec_find_item(c, path)->Ok_0->Todo_0;
    let t1 = TodoModel { done_time: now1, ..t };
    let p1 = GroupModel {
        todos: parent.todos.remove(j),
        completed: parent.completed.push(t1),
        ..parent
    };
    let c1 = spec_activate(c, path, now1);
    assert(c1 == spec_replace_parent(c, path, p1));
    let p2 = path.update(path.len() - 1, (kid_count(parent) - 1) as usize);
    // the replaced parent is what the shortened path resolves to in c1
    let root = c.groups[path[0] as int];
    lemma_walk_replace(root, mids(path), p1);
    assert(mids(p2) =~= mids(path));
    assert(p2[0] == path[0]);
    assert(spec_find_parent(c1, p2) == Ok::<GroupModel, MoveError>(p1));
    // in c1 the toggled todo sits at the end of `completed`
    assert(kid_count(p1) == kid_count(parent));
    assert(p2.last() == kid_count(parent) - 1);
    assert(p1.completed.last() == t1);
    assert(spec_find_item(c1, p2) == Ok::<ItemModel, MoveError>(ItemModel::Todo(t1)));
    let t2 = TodoModel { done_time: None, ..t1 };
    let j2 = p2.last() - p1.subgroups.len() - p1.todos.len();
    assert(j2 == p1.completed.len() - 1);
    let p1b = GroupModel {
        todos: p1.todos.push(t2),
        completed: p1.completed.remove(j2 as int),
        ..p1
    };
    let c2 = spec_activate(c1, p2, now2);
    assert(c2 == spec_replace_parent(c1, p2, p1b));
    assert(p1.completed.remove(j2 as int) =~= parent.completed);
    assert(t2 == (TodoModel { done_time: None, ..t }));
    assert(p1b =~~= (GroupModel {
        todos: parent.todos.remove(j).push(TodoModel { done_time: None, ..t }),
        ..parent
    }));
    lemma_replace_replace(root, mids(path), p1, p1b);
    assert(c.groups.update(path[0] as int, replace_walked(root, mids(path), p1)).update(
        path[0] as int,
        replace_walked(replace_walked(root, mids(path), p1), mids(path), p1b),
    ) =~= c.groups.update(path[0] as int, replace_walked(root, mids(path), p1b)));
    assert(c2 =~~= spec_replace_parent(c, path, p1b));
    if t.done_time is None {
        assert((TodoModel { done_time: None, ..t }) =~~= t);
    }
}

/// Relies on crossterm's terminal size query: the terminal's height in
/// rows, with a fallback of ten when the terminal cannot be asked.  The
/// value depends on the terminal at the moment of the call, so nothing is
/// promised of it beyond its type.
#[verifier::external_body]
fn terminal_height() -> u16 {
    crossterm::terminal::size().unwrap_or((20, 10)).1
}

/// The offset formula: the row's quarter-band times the terminal
/// height.
pub open spec fn spec_vert_offset(pos: int, h: int) -> int {
    (pos / 4) * h
}

/// The in-viewport row formula: the row minus the offset, clamped at
/// zero.
pub open spec fn spec_vert_pos_offset(pos: int, h: int) -> int {
    if spec_vert_offset(pos, h) <= pos {
        pos - spec_vert_offset(pos, h)
    } else {
        0
    }
}

/// The scroll offset for a cursor row and a terminal height: the row's
/// quarter-band times the height.
pub fn vert_offset_at(pos: usize, height: u16) -> (r: usize)
    requires
        (pos as int / 4) * (height as int) <= usize::MAX,
    ensures
        r == (pos as int / 4) * (height as int),
{
    (pos / 4) * (height as usize)
}

/// The cursor's row inside the scrolled viewport: the row minus the
/// scroll offset, clamped at zero where the offset passes the row.
pub fn vert_pos_offset_at(pos: usize, height: u16) -> (r: usize)
    requires
        (pos as int / 4) * (height as int) <= usize::MAX,
    ensures
        r == (if (pos as int / 4) * (height as int) <= pos as int {
            pos as int - (pos as int / 4) * (height as int)
        } else {
            0
        }),
{
    let off = vert_offset_at(pos, height);
    if off <= pos {
        pos - off
    } else {
        0
    }
}

impl PositionHierarchy {
    /// The scroll offset that keeps the cursor inside the viewport,
    /// computed from the cursor's row and the terminal's height.
    pub fn vert_offset(&self, context: &TodoConfig) -> (r: Result<usize, MoveError>)
        requires
            config_fits(context@),
            spec_find_item(context@, self.indexes@) is Ok,
            (spec_vert_pos(context@, self.indexes@) / 4) * (u16::MAX as int) <= usize::MAX,
        ensures
            r matches Ok(v) && exists|h: int|
                0 <= h <= u16::MAX && v == #[trigger] spec_vert_offset(
                    spec_vert_pos(context@, self.indexes@) as int,
                    h,
                ),
    {
        let pos = match self.vert_pos(context) {
            Ok(p) => p,
            Err(e) => {
                return Err(e);
            },
        };
        let height = terminal_height();
        proof {
            assert((pos as int / 4) * (height as int) <= (pos as int / 4) * (u16::MAX as int))
                by (nonlinear_arith)
                requires
                    0 <= pos as int,
                    0 <= height as int <= u16::MAX as int,
            ;
        }
        let off = vert_offset_at(pos, height);
        proof {
            assert(off == spec_vert_offset(
                spec_vert_pos(context@, self.indexes@) as int,
                height as int,
            ));
        }
        Ok(off)
    }

    /// The cursor's row inside the scrolled viewport.
    pub fn vert_pos_offset(&self, context: &TodoConfig) -> (r: Result<usize, MoveError>)
        requires
            config_fits(context@),
            spec_find_item(context@, self.indexes@) is Ok,
            (spec_vert_pos(context@, self.indexes@) / 4) * (u16::MAX as int) <= usize::MAX,
        ensures
            r matches Ok(v) && exists|h: int|
                0 <= h <= u16::MAX && v == #[trigger] spec_vert_pos_offset(
                    spec_vert_pos(context@, self.indexes@) as int,
                    h,
                ),
    {
        let pos = match self.vert_pos(context) {
            Ok(p) => p,
            Err(e) => {
                return Err(e);
            },
        };
        let height = terminal_height();
        proof {
            assert((pos as int / 4) * (height as int) <= (pos as int / 4) * (u16::MAX as int))
                by (nonlinear_arith)
                requires
                    0 <= pos as int,
                    0 <= height as int <= u16::MAX as int,
            ;
        }
        let v = vert_pos_offset_at(pos, height);
        proof {
            assert(v == spec_vert_pos_offset(
                spec_vert_pos(context@, self.indexes@) as int,
                height as int,
            ));
        }
        Ok(v)
    }
}

/// What archiving the addressed todo leaves in the configuration: the
/// todo moves from its list to the end of its group's `todo_archive`.
pub open spec fn spec_archive_todo(c: ConfigModel, path: Seq<usize>) -> ConfigModel {
    match spec_find_item(c, path) {
        Ok(ItemModel::Todo(t)) => {
            let parent = spec_find_parent(c, path)->Ok_0;
            let last = path.last() as int;
            let p2 = if last < parent.subgroups.len() + parent.todos.len() {
                GroupModel {
                    todos: parent.todos.remove(last - parent.subgroups.len()),
                    todo_archive: parent.todo_archive.push(t),
                    ..parent
                }
            } else {
                GroupModel {
                    completed: parent.completed.remove(
                        last - parent.subgroups.len() - parent.todos.len(),
                    ),
                    todo_archive: parent.todo_archive.push(t),
                    ..parent
                }
            };
            spec_replace_parent(c, path, p2)
        },
        _ => c,
    }
}

/// The re-clamped path after the addressed child was removed from a
/// group that now holds `new_count` children: the same path while it
/// stays in bounds, the previous sibling when one exists, else the
/// parent.
pub open spec fn spec_clamp(path: Seq<usize>, new_count: int) -> Seq<usize> {
    if (path.last() as int) < new_count {
        path
    } else if path.last() > 0 {
        path.update(path.len() - 1, (path.last() - 1) as usize)
    } else if path.len() > 1 {
        path.drop_last()
    } else {
        path
    }
}

impl PositionHierarchy {
    /// Archives the addressed todo: moves it into its group's
    /// `todo_archive` and clamps the path back into bounds.  A no-op on
    /// groups.
    pub fn archive_todo(&mut self, context: &mut TodoConfig) -> (r: Result<(), MoveError>)
        requires
            config_fits(old(context)@),
        ensures
            r is Ok ==> spec_find_item(old(context)@, old(self).indexes@) is Ok
                && final(context)@ == spec_archive_todo(old(context)@, old(self).indexes@)
                && final(self).indexes@ == (
            match spec_find_item(old(context)@, old(self).indexes@)->Ok_0 {
                ItemModel::Todo(_) => spec_clamp(
                    old(self).indexes@,
                    kid_count(spec_find_parent(old(context)@, old(self).indexes@)->Ok_0) - 1,
                ),
                ItemModel::Group(_) => old(self).indexes@,
            }),
            r is Err ==> spec_find_item(old(context)@, old(self).indexes@) == Err::<
                ItemModel,
                MoveError,
            >(r->Err_0) && final(context)@ == old(context)@
                && final(self).indexes@ == old(self).indexes@,
    {
        let ghost c0 = context@;
        let ghost path = self.indexes@;
        let is_todo = match self.find_item(context) {
            Ok(it) => match it.item {
                HierarchyItemEnum::Todo(_) => true,
                HierarchyItemEnum::Group(_) => false,
            },
            Err(e) => {
                return Err(e);
            },
        };
        if !is_todo {
            return Ok(());
        }
        let g = match self.find_group_mut(context) {
            Ok(g) => g,
            Err(_) => {
                proof {
                    assert(false);
                }
                return Err(MoveError::NoIndex);
            },
        };
        let ghost parent = (*g)@;
        proof {
            lemma_parent_weight(c0, path);
            lemma_weight_bounds(parent);
            lemma_groups_view(g.subgroups@);
        }
        let n = self.indexes.len();
        let last = self.indexes[n - 1];
        if last - g.subgroups.len() < g.todos.len() {
            let t = g.todos.remove(last - g.subgroups.len());
            g.todo_archive.push(t);
            proof {
                assert(todos_view(g.todos@) =~= parent.todos.remove(
                    last - parent.subgroups.len(),
                ));
                assert(todos_view(g.todo_archive@) =~= parent.todo_archive.push(
                    spec_find_item(c0, path)->Ok_0->Todo_0,
                ));
                assert(g@ =~~= (GroupModel {
                    todos: parent.todos.remove(last - parent.subgroups.len()),
                    todo_archive: parent.todo_archive.push(
                        spec_find_item(c0, path)->Ok_0->Todo_0,
                    ),
                    ..parent
                }));
            }
        } else {
            let t = g.completed.remove(last - g.subgroups.len() - g.todos.len());
            g.todo_archive.push(t);
            proof {
                assert(todos_view(g.completed@) =~= parent.completed.remove(
                    last - parent.subgroups.len() - parent.todos.len(),
                ));
                assert(todos_view(g.todo_archive@) =~= parent.todo_archive.push(
                    spec_find_item(c0, path)->Ok_0->Todo_0,
                ));
                assert(g@ =~~= (GroupModel {
                    completed: parent.completed.remove(
                        last - parent.subgroups.len() - parent.todos.len(),
                    ),
                    todo_archive: parent.todo_archive.push(
                        spec_find_item(c0, path)->Ok_0->Todo_0,
                    ),
                    ..parent
                }));
            }
        }
        let new_len = g.subgroups.len() + g.todos.len() + g.completed.len();
        if last >= new_len {
            if last > 0 {
                self.indexes[n - 1] = last - 1;
            } else {
                let _ = self.indexes.pop();
            }
        }
        Ok(())
    }
}

/// What hiding the addressed group leaves in the configuration: a root
/// group moves from the forest to the end of `archive_groups`; a nested
/// group moves from its parent's `subgroups` to the end of the parent's
/// `subgroup_archive`.
pub open spec fn spec_hide_group(c: ConfigModel, path: Seq<usize>) -> ConfigModel {
    match spec_find_item(c, path) {
        Ok(ItemModel::Group(g)) => {
            if path.len() == 1 {
                ConfigModel {
                    groups: c.groups.remove(path[0] as int),
                    archive_groups: c.archive_groups.push(g),
                    ..c
                }
            } else {
                let parent = spec_find_parent(c, path)->Ok_0;
                spec_replace_parent(
                    c,
                    path,
                    GroupModel {
                        subgroups: parent.subgroups.remove(path.last() as int),
                        subgroup_archive: parent.subgroup_archive.push(g),
                        ..parent
                    },
                )
            }
        },
        _ => c,
    }
}

impl PositionHierarchy {
    /// Hides the addressed group: moves it into the archive one level up
    /// and clamps the path back into bounds.  A no-op on todos.
    pub fn hide_group(&mut self, context: &mut TodoConfig) -> (r: Result<(), MoveError>)
        requires
            config_fits(old(context)@),
        ensures
            r is Ok ==> spec_find_item(old(context)@, old(self).indexes@) is Ok
                && final(context)@ == spec_hide_group(old(context)@, old(self).indexes@)
                && final(self).indexes@ == (
            match spec_find_item(old(context)@, old(self).indexes@)->Ok_0 {
                ItemModel::Group(_) => if old(self).indexes@.len() == 1 {
                    if (old(self).indexes@.last() as int) < old(context)@.groups.len() - 1
                        || old(self).indexes@.last() == 0 {
                        old(self).indexes@
                    } else {
                        old(self).indexes@.update(0, (old(self).indexes@.last() - 1) as usize)
                    }
                } else {
                    spec_clamp(
                        old(self).indexes@,
                        kid_count(spec_find_parent(old(context)@, old(self).indexes@)->Ok_0) - 1,
                    )
                },
                ItemModel::Todo(_) => old(self).indexes@,
            }),
            r is Err ==> spec_find_item(old(context)@, old(self).indexes@) == Err::<
                ItemModel,
                MoveError,
            >(r->Err_0) && final(context)@ == old(context)@
                && final(self).indexes@ == old(self).indexes@,
    {
        let ghost c0 = context@;
        let ghost path = self.indexes@;
        let is_group = match self.find_item(context) {
            Ok(it) => match it.item {
                HierarchyItemEnum::Group(_) => true,
                HierarchyItemEnum::Todo(_) => false,
            },
            Err(e) => {
                return Err(e);
            },
        };
        if !is_group {
            return Ok(());
        }
        let n = self.indexes.len();
        let last = self.indexes[n - 1];
        if n == 1 {
            proof {
                lemma_groups_view(context.groups@);
                assert(mids(path) =~= Seq::<usize>::empty());
            }
            let t = context.groups.remove(last);
            context.archive_groups.push(t);
            proof {
                lemma_groups_view(context.groups@);
                lemma_groups_view(context.archive_groups@);
                assert(groups_view(context.groups@) =~= c0.groups.remove(last as int));
                assert(groups_view(context.archive_groups@) =~= c0.archive_groups.push(
                    spec_find_item(c0, path)->Ok_0->Group_0,
                ));
            }
            if last < context.groups.len() || last == 0 {
            } else {
                self.indexes[0] = last - 1;
            }
            Ok(())
        } else {
            let g = match self.find_group_mut(context) {
                Ok(g) => g,
                Err(_) => {
                    proof {
                        assert(false);
                    }
                    return Err(MoveError::NoIndex);
                },
            };
            let ghost parent = (*g)@;
            proof {
                lemma_parent_weight(c0, path);
                lemma_weight_bounds(parent);
                lemma_groups_view(g.subgroups@);
            }
            let t = g.subgroups.remove(last);
            g.subgroup_archive.push(t);
            proof {
                lemma_groups_view(g.subgroups@);
                lemma_groups_view(g.subgroup_archive@);
                assert(groups_view(g.subgroups@) =~= parent.subgroups.remove(last as int));
                assert(groups_view(g.subgroup_archive@) =~= parent.subgroup_archive.push(
                    spec_find_item(c0, path)->Ok_0->Group_0,
                ));
                assert(g@ =~~= (GroupModel {
                    subgroups: parent.subgroups.remove(last as int),
                    subgroup_archive: parent.subgroup_archive.push(
                        spec_find_item(c0, path)->Ok_0->Group_0,
                    ),
                    ..parent
                }));
            }
            let new_len = g.subgroups.len() + g.todos.len() + g.completed.len();
            if last >= new_len {
                if last > 0 {
                    self.indexes[n - 1] = last - 1;
                } else {
                    let _ = self.indexes.pop();
                }
            }
            Ok(())
        }
    }
}

/// Descending one level to a first child moves the row number down by
/// exactly one, wherever the descent starts.
proof fn lemma_vpos_push0_in(g: GroupModel, rest: Seq<usize>)
    ensures
        vpos_in(g, rest.push(0)) == vpos_in(g, rest) + 1,
    decreases rest.len(),
{
    if rest.len() == 0 {
        assert(rest.push(0)[0] == 0usize);
        assert(rest.push(0).drop_first() =~= Seq::<usize>::empty());
        if 0 < g.subgroups.len() {
            assert(g.subgroups.take(0) =~= Seq::<GroupModel>::empty());
            assert(vpos_in(g.subgroups[0], Seq::<usize>::empty()) == 0);
        } else {
            assert(vpos_in(g, Seq::<usize>::empty()) == 0);
        }
    } else {
        assert(rest.push(0)[0] == rest[0]);
        assert(rest.push(0).drop_first() =~= rest.drop_first().push(0));
        if (rest[0] as int) < g.subgroups.len() {
            lemma_vpos_push0_in(g.subgroups[rest[0] as int], rest.drop_first());
        } else {
            lemma_vpos_push0_in(g, rest.drop_first());
        }
    }
}

/// The rendered rows of the item `rest` addresses inside `g`: the rows of
/// a group, one for a todo.
pub open spec fn rest_item_rows(g: GroupModel, rest: Seq<usize>) -> nat
    decreases rest.len(),
{
    if rest.len() == 0 {
        rows(g)
    } else if rest.len() == 1 {
        if (rest[0] as int) < g.subgroups.len() {
            rows(g.subgroups[rest[0] as int])
        } else {
            1
        }
    } else {
        rest_item_rows(g.subgroups[rest[0] as int], rest.drop_first())
    }
}

/// Stepping to the next sibling moves the row number down by the rendered
/// rows of the item stepped over.
proof fn lemma_vpos_in_advance(g: GroupModel, rest: Seq<usize>)
    requires
        rest.len() >= 1,
        rest_valid(g, rest),
        (rest.last() as int) + 1 < kid_count(target_of(g, rest)),
        kid_count(target_of(g, rest)) <= usize::MAX,
    ensures
        vpos_in(g, rest.update(rest.len() - 1, (rest.last() + 1) as usize)) == vpos_in(g, rest)
            + rest_item_rows(g, rest),
    decreases rest.len(),
{
    let up = rest.update(rest.len() - 1, (rest.last() + 1) as usize);
    if rest.len() == 1 {
        let i = rest[0] as int;
        assert(up[0] == rest[0] + 1);
        assert(up.drop_first() =~= Seq::<usize>::empty());
        assert(rest.drop_first() =~= Seq::<usize>::empty());
        assert(target_of(g, rest) == g);
        if i + 1 < g.subgroups.len() {
            lemma_forest_rows_take(g.subgroups, i);
            assert(vpos_in(g.subgroups[i], Seq::<usize>::empty()) == 0);
            assert(vpos_in(g.subgroups[i + 1], Seq::<usize>::empty()) == 0);
        } else if i < g.subgroups.len() {
            // from the last sub-group to the first todo
            lemma_forest_rows_take(g.subgroups, i);
            assert(g.subgroups.take(g.subgroups.len() as int) =~= g.subgroups);
            assert(vpos_in(g.subgroups[i], Seq::<usize>::empty()) == 0);
            assert(vpos_in(g, Seq::<usize>::empty()) == 0);
        } else {
            // todo to todo
            assert(vpos_in(g, Seq::<usize>::empty()) == 0);
        }
    } else {
        let i = rest[0] as int;
        assert(up[0] == rest[0]);
        assert(up.drop_first() =~= rest.drop_first().update(
            rest.drop_first().len() - 1,
            (rest.last() + 1) as usize,
        ));
        assert(rest.drop_first().last() == rest.last());
        assert(target_of(g, rest) == target_of(g.subgroups[i], rest.drop_first()));
        lemma_vpos_in_advance(g.subgroups[i], rest.drop_first());
    }
}

/// The group whose child list the final index of `rest` picks from.
pub open spec fn target_of(g: GroupModel, rest: Seq<usize>) -> GroupModel
    decreases rest.len(),
{
    if rest.len() <= 1 {
        g
    } else {
        target_of(g.subgroups[rest[0] as int], rest.drop_first())
    }
}

/// Row positions add up along a resolvable walk: the position of a node
/// reached through a walked-to group is the group's position plus the
/// node's position inside it.
proof fn lemma_vpos_append(g: GroupModel, rest: Seq<usize>, e: Seq<usize>)
    requires
        walk_subgroups(g, rest) is Some,
    ensures
        vpos_in(g, rest + e) == vpos_in(g, rest) + vpos_in(walk_subgroups(g, rest)->0, e),
    decreases rest.len(),
{
    if rest.len() == 0 {
        assert(rest + e =~= e);
        assert(vpos_in(g, Seq::<usize>::empty()) == 0);
    } else {
        let i = rest[0] as int;
        assert((rest + e)[0] == rest[0]);
        assert((rest + e).drop_first() =~= rest.drop_first() + e);
        lemma_vpos_append(g.subgroups[i], rest.drop_first(), e);
    }
}

/// Inside an open non-empty group, the descend-to-last chain lands on the
/// group's very last rendered row.
proof fn lemma_chain_rows(g: GroupModel)
    requires
        g.open,
        kid_count(g) > 0,
        weight(g) <= usize::MAX,
    ensures
        vpos_in(g, spec_chain(g)) == rows(g) - 1,
    decreases g,
{
    let j = (kid_count(g) - 1) as usize;
    lemma_weight_bounds(g);
    assert(j as int == kid_count(g) - 1);
    if kid_count(g) <= g.subgroups.len() {
        let sub = g.subgroups[j as int];
        assert(g.todos.len() == 0 && g.completed.len() == 0);
        assert(spec_chain(g) == seq![j] + spec_chain(sub));
        assert((seq![j] + spec_chain(sub))[0] == j);
        assert((seq![j] + spec_chain(sub)).drop_first() =~= spec_chain(sub));
        lemma_forest_rows_take(g.subgroups, j as int);
        assert(g.subgroups.take(g.subgroups.len() as int) =~= g.subgroups);
        if sub.open && kid_count(sub) > 0 {
            lemma_forest_weight_bounds(g.subgroups);
            lemma_weight_bounds(g);
            lemma_chain_rows(sub);
        } else {
            assert(spec_chain(sub) =~= Seq::<usize>::empty());
            assert(vpos_in(sub, Seq::<usize>::empty()) == 0);
            assert(rows(sub) == 1);
        }
    } else {
        assert(spec_chain(g) == seq![j]);
        assert(seq![j][0] == j);
        assert(seq![j].drop_first() =~= Seq::<usize>::empty());
        assert((j as int) >= g.subgroups.len());
        assert(vpos_in(g, Seq::<usize>::empty()) == 0);
        assert(g.subgroups.take(g.subgroups.len() as int) =~= g.subgroups);
    }
}

/// The rendered rows of a resolved item: a group's subtree rows, one row
/// for a todo.
pub open spec fn spec_item_rows(m: ItemModel) -> nat {
    match m {
        ItemModel::Group(g) => rows(g),
        ItemModel::Todo(_) => 1,
    }
}

/// Aligns the per-level reading of a path's tail with the walked-to
/// parent: the tail's target is the walk's result, and the tail's item
/// rows are the resolved item's rows.
proof fn lemma_rest_facts(g: GroupModel, ms: Seq<usize>, path: Seq<usize>)
    requires
        path.len() >= 1,
        ms == mids(path),
        walk_subgroups(g, ms) is Some,
    ensures
        target_of(g, path.drop_first()) == walk_subgroups(g, ms)->0,
        rest_item_rows(g, path.drop_first()) == ({
            let w = walk_subgroups(g, ms)->0;
            if path.len() == 1 {
                rows(g)
            } else if (path.last() as int) < w.subgroups.len() {
                rows(w.subgroups[path.last() as int])
            } else {
                1nat
            }
        }),
    decreases path.len(),
{
    let rest = path.drop_first();
    if path.len() == 1 {
        assert(rest =~= Seq::<usize>::empty());
    } else if path.len() == 2 {
        assert(ms =~= Seq::<usize>::empty());
        assert(rest.len() == 1);
        assert(rest[0] == path[1]);
        assert(path.last() == path[1]);
    } else {
        let sub = g.subgroups[ms[0] as int];
        let path2 = path.drop_first();
        assert(ms[0] == path[1]);
        assert(mids(path2) =~= ms.drop_first());
        lemma_rest_facts(sub, ms.drop_first(), path2);
        assert(rest[0] == path[1]);
        assert(rest.drop_first() =~= path2.drop_first());
        assert(path2.last() == path.last());
    }
}

/// Advancing a path's final index moves the row number down by exactly
/// the rendered rows of the item stepped over.
proof fn lemma_vpos_advance_full(c: ConfigModel, f: Seq<usize>)
    requires
        config_fits(c),
        spec_find_item(c, f) is Ok,
        (f.last() as int) + 1 < spec_level_count(c, f),
    ensures
        spec_vert_pos(c, f.update(f.len() - 1, (f.last() + 1) as usize)) == spec_vert_pos(c, f)
            + spec_item_rows(spec_find_item(c, f)->Ok_0),
{
    let up = f.update(f.len() - 1, (f.last() + 1) as usize);
    let root = c.groups[f[0] as int];
    lemma_forest_weight_bounds(c.groups);
    lemma_parent_weight(c, f);
    if f.len() == 1 {
        assert(f.last() == f[0]);
        assert(up[0] == f[0] + 1);
        assert(f.drop_first() =~= Seq::<usize>::empty());
        assert(up.drop_first() =~= Seq::<usize>::empty());
        assert(vpos_in(root, Seq::<usize>::empty()) == 0);
        assert(vpos_in(c.groups[up[0] as int], Seq::<usize>::empty()) == 0);
        lemma_forest_rows_take(c.groups, f[0] as int);
        assert(mids(f) =~= Seq::<usize>::empty());
        assert(spec_find_item(c, f)->Ok_0->Group_0 == root);
    } else {
        assert(up[0] == f[0]);
        assert(up.drop_first() =~= f.drop_first().update(
            f.drop_first().len() - 1,
            (f.last() + 1) as usize,
        ));
        assert(f.drop_first().last() == f.last());
        lemma_find_item_rest_valid(c, f);
        lemma_rest_facts(root, mids(f), f);
        lemma_weight_bounds(spec_find_parent(c, f)->Ok_0);
        lemma_vpos_in_advance(root, f.drop_first());
    }
}

/// For a visible row whose levels below `m` are all exhausted, the row
/// number splits as the prefix's row number plus the rows of the group at
/// depth `m`, less one.
proof fn lemma_vpos_of_exhausted(c: ConfigModel, f: Seq<usize>, m: int)
    requires
        config_fits(c),
        spec_find_item(c, f) is Ok,
        visible(c, f),
        !selects_open_group(c, f),
        1 <= m < f.len(),
        forall|j: int|
            m < j <= f.len() ==> (#[trigger] f[j - 1]) + 1 == spec_level_count(c, f.take(j)),
    ensures
        spec_find_item(c, f.take(m)) is Ok,
        spec_find_item(c, f.take(m))->Ok_0 is Group,
        spec_vert_pos(c, f) + 1 == spec_vert_pos(c, f.take(m)) + rows(
            spec_find_item(c, f.take(m))->Ok_0->Group_0,
        ),
{
    lemma_chain_rebuilds(c, f, m);
    let q = f.take(m);
    let gm = spec_find_item(c, q)->Ok_0->Group_0;
    let root = c.groups[f[0] as int];
    assert(q[0] == f[0]);
    // the walk over the prefix's tail reaches the group at depth m
    lemma_prefix_valid(c, f, m);
    if m == 1 {
        assert(q.drop_first() =~= Seq::<usize>::empty());
        assert(mids(q) =~= Seq::<usize>::empty());
        assert(gm == root);
        assert(walk_subgroups(root, q.drop_first()) == Some(gm));
    } else {
        assert(mids(q) =~= mids(f).take(m - 2));
        lemma_prefix_item_is_parent(c, f, m);
        let parent_m = spec_find_parent(c, q)->Ok_0;
        assert(gm == parent_m.subgroups[f[m - 1] as int]);
        lemma_walk_snoc(root, mids(q), f[m - 1]);
        assert(mids(q).push(f[m - 1]) =~= q.drop_first());
        assert(walk_subgroups(root, q.drop_first()) == Some(gm));
    }
    // the group at depth m is open and within the weight bound
    assert(resolved_open_group(spec_find_item(c, q)));
    assert(gm.open);
    assert(kid_count(gm) > 0) by {
        lemma_prefix_item_is_parent(c, f, m);
    }
    lemma_walk_weight(root, q.drop_first());
    lemma_forest_weight_bounds(c.groups);
    lemma_chain_rows(gm);
    lemma_vpos_append(root, q.drop_first(), spec_chain(gm));
    assert(f.drop_first() =~= q.drop_first() + spec_chain(gm)) by {
        assert(q + spec_chain(gm) == f);
    }
    assert(vpos_in(root, f.drop_first()) == vpos_in(root, q.drop_first()) + rows(gm) - 1);
}

/// If every level below `m` is exhausted and the advance continues from
/// the prefix of length `m`, the advanced path sits exactly one row
/// further down.
proof fn lemma_down_adv_vpos(c: ConfigModel, f: Seq<usize>, m: int)
    requires
        config_fits(c),
        spec_find_item(c, f) is Ok,
        visible(c, f),
        !selects_open_group(c, f),
        1 <= m <= f.len(),
        forall|j: int|
            m < j <= f.len() ==> (#[trigger] f[j - 1]) + 1 == spec_level_count(c, f.take(j)),
        spec_advance(c, f) == spec_advance(c, f.take(m)),
    ensures
        spec_advance(c, f) matches Some(p) ==> spec_vert_pos(c, p) == spec_vert_pos(c, f) + 1,
    decreases m,
{
    let q = f.take(m);
    lemma_prefix_valid(c, f, m);
    assert(f.take(f.len() as int) =~= f);
    assert(q.len() == m);
    assert(q.last() == f[m - 1]);
    if q.last() + 1 < spec_level_count(c, q) {
        lemma_forest_weight_bounds(c.groups);
        lemma_parent_weight(c, q);
        if q.len() > 1 {
            lemma_weight_bounds(spec_find_parent(c, q)->Ok_0);
        }
        let p = q.update(m - 1, (q.last() + 1) as usize);
        assert(spec_advance(c, q) == Some(p));
        lemma_vpos_advance_full(c, q);
        if m == f.len() {
            assert(q =~= f);
            match spec_find_item(c, f)->Ok_0 {
                ItemModel::Group(g) => {
                    assert(!(g.open && kid_count(g) > 0));
                    if !g.open {
                        assert(rows(g) == 1);
                    } else {
                        assert(g.subgroups =~= Seq::<GroupModel>::empty());
                        assert(forest_rows(g.subgroups) == 0);
                        assert(rows(g) == 1);
                    }
                    assert(spec_item_rows(spec_find_item(c, f)->Ok_0) == 1);
                },
                ItemModel::Todo(_) => {},
            }
        } else {
            lemma_vpos_of_exhausted(c, f, m);
            assert(spec_item_rows(spec_find_item(c, q)->Ok_0) == rows(
                spec_find_item(c, q)->Ok_0->Group_0,
            ));
        }
    } else if m > 1 {
        if m < f.len() {
            assert(f[m - 1] < spec_level_count(c, f.take(m)));
        } else {
            assert(q =~= f);
            assert((f.last() as int) < kid_count(spec_find_parent(c, f)->Ok_0));
        }
        assert(f[m - 1] + 1 == spec_level_count(c, f.take(m)));
        assert(q.drop_last() =~= f.take(m - 1));
        lemma_down_adv_vpos(c, f, m - 1);
    }
}

/// Stepping the cursor down one visible row increases the row number by
/// exactly one, on every tree shape, whenever the step moves at all.
pub proof fn lemma_down_moves_one_row(c: ConfigModel, path: Seq<usize>)
    requires
        config_fits(c),
        spec_find_item(c, path) is Ok,
        visible(c, path),
        spec_cursor_down(c, path) != path,
    ensures
        spec_vert_pos(c, spec_cursor_down(c, path)) == spec_vert_pos(c, path) + 1,
{
    if selects_open_group(c, path) {
        let p = path.push(0);
        assert(p[0] == path[0]);
        assert(p.drop_first() =~= path.drop_first().push(0));
        lemma_vpos_push0_in(c.groups[path[0] as int], path.drop_first());
    } else {
        assert(path.take(path.len() as int) =~= path);
        lemma_down_adv_vpos(c, path, path.len() as int);
    }
}

/// The tail of a path that addresses a group walks to that group.
proof fn lemma_item_walk(c: ConfigModel, q: Seq<usize>)
    requires
        q.len() >= 1,
        spec_find_item(c, q) is Ok,
        spec_find_item(c, q)->Ok_0 is Group,
    ensures
        walk_subgroups(c.groups[q[0] as int], q.drop_first()) == Some(
            spec_find_item(c, q)->Ok_0->Group_0,
        ),
{
    let root = c.groups[q[0] as int];
    if q.len() == 1 {
        assert(q.drop_first() =~= Seq::<usize>::empty());
    } else {
        lemma_walk_snoc(root, mids(q), q.last());
        assert(mids(q).push(q.last()) =~= q.drop_first());
    }
}

/// Stepping the cursor up one visible row decreases the row number by
/// exactly one, on every tree shape, whenever the step moves at all.
pub proof fn lemma_up_moves_one_row(c: ConfigModel, path: Seq<usize>)
    requires
        config_fits(c),
        spec_find_item(c, path) is Ok,
        visible(c, path),
        spec_cursor_up(c, path) != path,
    ensures
        spec_vert_pos(c, spec_cursor_up(c, path)) + 1 == spec_vert_pos(c, path),
{
    let n = path.len() as int;
    let root = c.groups[path[0] as int];
    lemma_forest_weight_bounds(c.groups);
    lemma_parent_weight(c, path);
    if path.last() > 0 {
        let q = path.update(n - 1, (path.last() - 1) as usize);
        let root_q = c.groups[q[0] as int];
        assert(mids(q) =~= mids(path));
        assert(q.last() == path.last() - 1);
        if n == 1 {
            // a sibling step between root groups
            assert(q.last() == q[0]);
            assert(path.last() == path[0]);
            assert((q[0] as int) < c.groups.len());
            assert(walk_subgroups(root_q, mids(q)) == Some(root_q));
            assert(spec_find_item(c, q) is Ok);
        } else {
            assert(q[0] == path[0]);
            assert(spec_find_parent(c, q) == spec_find_parent(c, path));
            let parent = spec_find_parent(c, path)->Ok_0;
            assert(spec_find_item(c, q) is Ok);
            lemma_weight_bounds(parent);
        }
        assert(path == q.update(n - 1, (q.last() + 1) as usize)) by {
            assert(q.update(n - 1, path.last()) =~= path);
        }
        assert((q.last() as int) + 1 < spec_level_count(c, q));
        lemma_vpos_advance_full(c, q);
        match spec_find_item(c, q)->Ok_0 {
            ItemModel::Group(g) => {
                if g.open && kid_count(g) > 0 {
                    assert(spec_cursor_up(c, path) == q + spec_chain(g));
                    lemma_item_walk(c, q);
                    lemma_walk_weight(root_q, q.drop_first());
                    lemma_forest_weight_bounds(c.groups);
                    lemma_chain_rows(g);
                    lemma_vpos_append(root_q, q.drop_first(), spec_chain(g));
                    assert((q + spec_chain(g))[0] == q[0]);
                    assert((q + spec_chain(g)).drop_first() =~= q.drop_first() + spec_chain(g));
                } else {
                    assert(spec_cursor_up(c, path) == q);
                    if !g.open {
                        assert(rows(g) == 1);
                    } else {
                        assert(g.subgroups =~= Seq::<GroupModel>::empty());
                        assert(rows(g) == 1);
                    }
                }
            },
            ItemModel::Todo(_) => {
                assert(spec_cursor_up(c, path) == q);
            },
        }
    } else if path.len() > 1 {
        let q = path.drop_last();
        assert(spec_cursor_up(c, path) == q);
        assert(path =~= q.push(0));
        assert(path[0] == q[0]);
        assert(path.drop_first() =~= q.drop_first().push(0));
        lemma_vpos_push0_in(root, q.drop_first());
    }
}

impl PositionHierarchy {
    /// Swaps the addressed todo with its next sibling todo and follows it
    /// down.  A no-op on groups, on completed todos, and at the last
    /// active todo.
    pub fn move_todo_down(&mut self, context: &mut TodoConfig) -> (r: Result<(), MoveError>)
        requires
            config_fits(old(context)@),
        ensures
            r is Err ==> spec_find_item(old(context)@, old(self).indexes@) == Err::<
                ItemModel,
                MoveError,
            >(r->Err_0) && final(context)@ == old(context)@
                && final(self).indexes@ == old(self).indexes@,
            r is Ok ==> spec_find_item(old(context)@, old(self).indexes@) is Ok && ({
                let path = old(self).indexes@;
                let parent = spec_find_parent(old(context)@, path)->Ok_0;
                let last = path.last() as int;
                let j = last - parent.subgroups.len();
                if spec_find_item(old(context)@, path)->Ok_0 is Todo && last >= parent.subgroups.len()
                    && last + 1 < parent.subgroups.len() + parent.todos.len() {
                    final(context)@ == spec_replace_parent(
                        old(context)@,
                        path,
                        GroupModel {
                            todos: parent.todos.update(j, parent.todos[j + 1]).update(
                                j + 1,
                                parent.todos[j],
                            ),
                            ..parent
                        },
                    ) && final(self).indexes@ == path.update(
                        path.len() - 1,
                        (last + 1) as usize,
                    )
                } else {
                    final(context)@ == old(context)@ && final(self).indexes@ == path
                }
            }),
    {
        let ghost c0 = context@;
        let ghost path = self.indexes@;
        let is_todo = match self.find_item(context) {
            Ok(it) => match it.item {
                HierarchyItemEnum::Todo(_) => true,
                HierarchyItemEnum::Group(_) => false,
            },
            Err(e) => {
                return Err(e);
            },
        };
        if !is_todo {
            proof {
                lemma_update_item_same(c0, path);
            }
            return Ok(());
        }
        let g = match self.find_group_mut(context) {
            Ok(g) => g,
            Err(_) => {
                proof {
                    assert(false);
                }
                return Err(MoveError::NoIndex);
            },
        };
        let ghost parent = (*g)@;
        proof {
            lemma_groups_view(g.subgroups@);
            lemma_parent_weight(c0, path);
            lemma_weight_bounds(parent);
        }
        let n = self.indexes.len();
        let last = self.indexes[n - 1];
        if last >= g.subgroups.len() && last - g.subgroups.len() + 1 < g.todos.len() {
            let j = last - g.subgroups.len();
            let t = g.todos.remove(j);
            g.todos.insert(j + 1, t);
            proof {
                assert(todos_view(g.todos@) =~= parent.todos.update(
                    j as int,
                    parent.todos[j + 1],
                ).update(j + 1, parent.todos[j as int]));
                assert(g@ =~~= (GroupModel {
                    todos: parent.todos.update(j as int, parent.todos[j + 1]).update(
                        j + 1,
                        parent.todos[j as int],
                    ),
                    ..parent
                }));
            }
            self.indexes[n - 1] = last + 1;
        } else {
            proof {
                assert(g@ =~~= parent);
                lemma_replace_walked_same(c0.groups[path[0] as int], mids(path));
                assert(c0.groups.update(
                    path[0] as int,
                    replace_walked(c0.groups[path[0] as int], mids(path), parent),
                ) =~= c0.groups);
            }
        }
        Ok(())
    }

    /// Swaps the addressed todo with its previous sibling todo and
    /// follows it up.  A no-op on groups, on completed todos, and at the
    /// first active todo.
    pub fn move_todo_up(&mut self, context: &mut TodoConfig) -> (r: Result<(), MoveError>)
        requires
            config_fits(old(context)@),
        ensures
            r is Err ==> spec_find_item(old(context)@, old(self).indexes@) == Err::<
                ItemModel,
                MoveError,
            >(r->Err_0) && final(context)@ == old(context)@
                && final(self).indexes@ == old(self).indexes@,
            r is Ok ==> spec_find_item(old(context)@, old(self).indexes@) is Ok && ({
                let path = old(self).indexes@;
                let parent = spec_find_parent(old(context)@, path)->Ok_0;
                let last = path.last() as int;
                let j = last - parent.subgroups.len();
                if spec_find_item(old(context)@, path)->Ok_0 is Todo && last
                    > parent.subgroups.len() && last < parent.subgroups.len()
                    + parent.todos.len() {
                    final(context)@ == spec_replace_parent(
                        old(context)@,
                        path,
                        GroupModel {
                            todos: parent.todos.update(j, parent.todos[j - 1]).update(
                                j - 1,
                                parent.todos[j],
                            ),
                            ..parent
                        },
                    ) && final(self).indexes@ == path.update(
                        path.len() - 1,
                        (last - 1) as usize,
                    )
                } else {
                    final(context)@ == old(context)@ && final(self).indexes@ == path
                }
            }),
    {
        let ghost c0 = context@;
        let ghost path = self.indexes@;
        let is_todo = match self.find_item(context) {
            Ok(it) => match it.item {
                HierarchyItemEnum::Todo(_) => true,
                HierarchyItemEnum::Group(_) => false,
            },
            Err(e) => {
                return Err(e);
            },
        };
        if !is_todo {
            proof {
                lemma_update_item_same(c0, path);
            }
            return Ok(());
        }
        let g = match self.find_group_mut(context) {
            Ok(g) => g,
            Err(_) => {
                proof {
                    assert(false);
                }
                return Err(MoveError::NoIndex);
            },
        };
        let ghost parent = (*g)@;
        proof {
            lemma_groups_view(g.subgroups@);
            lemma_parent_weight(c0, path);
            lemma_weight_bounds(parent);
        }
        let n = self.indexes.len();
        let last = self.indexes[n - 1];
        if last > g.subgroups.len() && last - g.subgroups.len() < g.todos.len() {
            let j = last - g.subgroups.len();
            let t = g.todos.remove(j);
            g.todos.insert(j - 1, t);
            proof {
                assert(todos_view(g.todos@) =~= parent.todos.update(
                    j as int,
                    parent.todos[j - 1],
                ).update(j - 1, parent.todos[j as int]));
                assert(g@ =~~= (GroupModel {
                    todos: parent.todos.update(j as int, parent.todos[j - 1]).update(
                        j - 1,
                        parent.todos[j as int],
                    ),
                    ..parent
                }));
            }
            self.indexes[n - 1] = last - 1;
        } else {
            proof {
                assert(g@ =~~= parent);
                lemma_replace_walked_same(c0.groups[path[0] as int], mids(path));
                assert(c0.groups.update(
                    path[0] as int,
                    replace_walked(c0.groups[path[0] as int], mids(path), parent),
                ) =~= c0.groups);
            }
        }
        Ok(())
    }
}

impl PositionHierarchy {
    /// Swaps the addressed group with its next sibling group and follows
    /// it down.  A no-op on todos and at the last sibling group.
    pub fn move_group_down(&mut self, context: &mut TodoConfig) -> (r: Result<(), MoveError>)
        requires
            config_fits(old(context)@),
        ensures
            r is Err ==> spec_find_item(old(context)@, old(self).indexes@) == Err::<
                ItemModel,
                MoveError,
            >(r->Err_0) && final(context)@ == old(context)@
                && final(self).indexes@ == old(self).indexes@,
            r is Ok ==> spec_find_item(old(context)@, old(self).indexes@) is Ok && ({
                let path = old(self).indexes@;
                let parent = spec_find_parent(old(context)@, path)->Ok_0;
                let last = path.last() as int;
                if spec_find_item(old(context)@, path)->Ok_0 is Group && path.len() > 1 && last + 1
                    < parent.subgroups.len() {
                    final(context)@ == spec_replace_parent(
                        old(context)@,
                        path,
                        GroupModel {
                            subgroups: parent.subgroups.update(
                                last,
                                parent.subgroups[last + 1],
                            ).update(last + 1, parent.subgroups[last]),
                            ..parent
                        },
                    ) && final(self).indexes@ == path.update(
                        path.len() - 1,
                        (last + 1) as usize,
                    )
                } else {
                    final(context)@ == old(context)@ && final(self).indexes@ == path
                }
            }),
    {
        let ghost c0 = context@;
        let ghost path = self.indexes@;
        let is_group = match self.find_item(context) {
            Ok(it) => match it.item {
                HierarchyItemEnum::Group(_) => true,
                HierarchyItemEnum::Todo(_) => false,
            },
            Err(e) => {
                return Err(e);
            },
        };
        if !is_group || self.indexes.len() == 1 {
            proof {
                lemma_update_item_same(c0, path);
            }
            return Ok(());
        }
        let g = match self.find_group_mut(context) {
            Ok(g) => g,
            Err(_) => {
                proof {
                    assert(false);
                }
                return Err(MoveError::NoIndex);
            },
        };
        let ghost parent = (*g)@;
        proof {
            lemma_groups_view(g.subgroups@);
            lemma_parent_weight(c0, path);
            lemma_weight_bounds(parent);
        }
        let n = self.indexes.len();
        let last = self.indexes[n - 1];
        if last < g.subgroups.len() && g.subgroups.len() - last > 1 {
            let t = g.subgroups.remove(last);
            g.subgroups.insert(last + 1, t);
            proof {
                lemma_groups_view(g.subgroups@);
                assert(groups_view(g.subgroups@) =~= parent.subgroups.update(
                    last as int,
                    parent.subgroups[last + 1],
                ).update(last + 1, parent.subgroups[last as int]));
                assert(g@ =~~= (GroupModel {
                    subgroups: parent.subgroups.update(
                        last as int,
                        parent.subgroups[last + 1],
                    ).update(last + 1, parent.subgroups[last as int]),
                    ..parent
                }));
            }
            self.indexes[n - 1] = last + 1;
        } else {
            proof {
                assert(g@ =~~= parent);
                lemma_replace_walked_same(c0.groups[path[0] as int], mids(path));
                assert(c0.groups.update(
                    path[0] as int,
                    replace_walked(c0.groups[path[0] as int], mids(path), parent),
                ) =~= c0.groups);
            }
        }
        Ok(())
    }

    /// Swaps the addressed group with its previous sibling group and
    /// follows it up.  A no-op on todos and at the first sibling group.
    pub fn move_group_up(&mut self, context: &mut TodoConfig) -> (r: Result<(), MoveError>)
        requires
            config_fits(old(context)@),
        ensures
            r is Err ==> spec_find_item(old(context)@, old(self).indexes@) == Err::<
                ItemModel,
                MoveError,
            >(r->Err_0) && final(context)@ == old(context)@
                && final(self).indexes@ == old(self).indexes@,
            r is Ok ==> spec_find_item(old(context)@, old(self).indexes@) is Ok && ({
                let path = old(self).indexes@;
                let parent = spec_find_parent(old(context)@, path)->Ok_0;
                let last = path.last() as int;
                if spec_find_item(old(context)@, path)->Ok_0 is Group && path.len() > 1 && last > 0
                    && last < parent.subgroups.len() {
                    final(context)@ == spec_replace_parent(
                        old(context)@,
                        path,
                        GroupModel {
                            subgroups: parent.subgroups.update(
                                last,
                                parent.subgroups[last - 1],
                            ).update(last - 1, parent.subgroups[last]),
                            ..parent
                        },
                    ) && final(self).indexes@ == path.update(
                        path.len() - 1,
                        (last - 1) as usize,
                    )
                } else {
                    final(context)@ == old(context)@ && final(self).indexes@ == path
                }
            }),
    {
        let ghost c0 = context@;
        let ghost path = self.indexes@;
        let is_group = match self.find_item(context) {
            Ok(it) => match it.item {
                HierarchyItemEnum::Group(_) => true,
                HierarchyItemEnum::Todo(_) => false,
            },
            Err(e) => {
                return Err(e);
            },
        };
        if !is_group || self.indexes.len() == 1 {
            proof {
                lemma_update_item_same(c0, path);
            }
            return Ok(());
        }
        let g = match self.find_group_mut(context) {
            Ok(g) => g,
            Err(_) => {
                proof {
                    assert(false);
                }
                return Err(MoveError::NoIndex);
            },
        };
        let ghost parent = (*g)@;
        proof {
            lemma_groups_view(g.subgroups@);
            lemma_parent_weight(c0, path);
            lemma_weight_bounds(parent);
        }
        let n = self.indexes.len();
        let last = self.indexes[n - 1];
        if last > 0 && last < g.subgroups.len() {
            let t = g.subgroups.remove(last);
            g.subgroups.insert(last - 1, t);
            proof {
                lemma_groups_view(g.subgroups@);
                assert(groups_view(g.subgroups@) =~= parent.subgroups.update(
                    last as int,
                    parent.subgroups[last - 1],
                ).update(last - 1, parent.subgroups[last as int]));
                assert(g@ =~~= (GroupModel {
                    subgroups: parent.subgroups.update(
                        last as int,
                        parent.subgroups[last - 1],
                    ).update(last - 1, parent.subgroups[last as int]),
                    ..parent
                }));
            }
            self.indexes[n - 1] = last - 1;
        } else {
            proof {
                assert(g@ =~~= parent);
                lemma_replace_walked_same(c0.groups[path[0] as int], mids(path));
                assert(c0.groups.update(
                    path[0] as int,
                    replace_walked(c0.groups[path[0] as int], mids(path), parent),
                ) =~= c0.groups);
            }
        }
        Ok(())
    }

    /// Appends a new active todo to the addressed group.  A no-op on
    /// todos.
    pub fn add_todo(
        &self,
        context: &mut TodoConfig,
        name: String,
        due: Option<i64>,
        created: i64,
    ) -> (r: Result<(), MoveError>)
        ensures
            r is Err ==> spec_find_item(old(context)@, self.indexes@) == Err::<
                ItemModel,
                MoveError,
            >(r->Err_0) && final(context)@ == old(context)@,
            r is Ok ==> spec_find_item(old(context)@, self.indexes@) is Ok && final(context)@ == (
            match spec_find_item(old(context)@, self.indexes@)->Ok_0 {
                ItemModel::Group(g) => spec_update_item(
                    old(context)@,
                    self.indexes@,
                    ItemModel::Group(
                        GroupModel {
                            todos: g.todos.push(
                                TodoModel {
                                    name: name@,
                                    done_time: None,
                                    due: crate::traverse::time_model(due),
                                    created: created as int,
                                },
                            ),
                            ..g
                        },
                    ),
                ),
                ItemModel::Todo(_) => old(context)@,
            }),
    {
        let ghost c0 = context@;
        let ghost path = self.indexes@;
        match self.find_item_mut(context) {
            Ok(it) => match it.item {
                HierarchyItemEnumMut::Group(gr) => {
                    let t = Todo { name, done_time: None, due, created };
                    let ghost gm = (*gr)@;
                    gr.todos.push(t);
                    proof {
                        assert(todos_view(gr.todos@) =~= gm.todos.push((gr.todos@.last())@));
                        assert(gr@ =~~= (GroupModel {
                            todos: gm.todos.push((gr.todos@.last())@),
                            ..gm
                        }));
                    }
                    Ok(())
                },
                HierarchyItemEnumMut::Todo(_) => {
                    proof {
                        lemma_update_item_same(c0, path);
                    }
                    Ok(())
                },
            },
            Err(e) => Err(e),
        }
    }

    /// Appends a new open, childless sub-group to the addressed group.  A
    /// no-op on todos.
    pub fn add_group(&self, context: &mut TodoConfig, name: String) -> (r: Result<(), MoveError>)
        ensures
            r is Err ==> spec_find_item(old(context)@, self.indexes@) == Err::<
                ItemModel,
                MoveError,
            >(r->Err_0) && final(context)@ == old(context)@,
            r is Ok ==> spec_find_item(old(context)@, self.indexes@) is Ok && final(context)@ == (
            match spec_find_item(old(context)@, self.indexes@)->Ok_0 {
                ItemModel::Group(g) => spec_update_item(
                    old(context)@,
                    self.indexes@,
                    ItemModel::Group(
                        GroupModel {
                            subgroups: g.subgroups.push(
                                GroupModel {
                                    hidden: false,
                                    name: name@,
                                    open: true,
                                    todos: Seq::empty(),
                                    completed: Seq::empty(),
                                    todo_archive: Seq::empty(),
                                    subgroups: Seq::empty(),
                                    subgroup_archive: Seq::empty(),
                                },
                            ),
                            ..g
                        },
                    ),
                ),
                ItemModel::Todo(_) => old(context)@,
            }),
    {
        let ghost c0 = context@;
        let ghost path = self.indexes@;
        match self.find_item_mut(context) {
            Ok(it) => match it.item {
                HierarchyItemEnumMut::Group(gr) => {
                    let sub = Group {
                        hidden: false,
                        name,
                        open: true,
                        todos: Vec::new(),
                        completed: Vec::new(),
                        todo_archive: Vec::new(),
                        subgroups: Vec::new(),
                        subgroup_archive: Vec::new(),
                    };
                    let ghost gm = (*gr)@;
                    gr.subgroups.push(sub);
                    proof {
                        lemma_groups_view(gr.subgroups@);
                        assert(groups_view(gr.subgroups@) =~= gm.subgroups.push(
                            (gr.subgroups@.last())@,
                        ));
                        assert((gr.subgroups@.last())@ =~~= (GroupModel {
                            hidden: false,
                            name: (gr.subgroups@.last()).name@,
                            open: true,
                            todos: Seq::empty(),
                            completed: Seq::empty(),
                            todo_archive: Seq::empty(),
                            subgroups: Seq::empty(),
                            subgroup_archive: Seq::empty(),
                        }));
                        assert(gr@ =~~= (GroupModel {
                            subgroups: gm.subgroups.push((gr.subgroups@.last())@),
                            ..gm
                        }));
                    }
                    Ok(())
                },
                HierarchyItemEnumMut::Todo(_) => {
                    proof {
                        lemma_update_item_same(c0, path);
                    }
                    Ok(())
                },
            },
            Err(e) => Err(e),
        }
    }
}

/// What the descend-to-last chain guarantees of the path it builds: it
/// resolves, it ends on a row that cannot be descended into, every level
/// it adds sits at its last sibling position, and every group it passes
/// through is open.
proof fn lemma_chain_props(c: ConfigModel, q: Seq<usize>, g: GroupModel)
    requires
        config_fits(c),
        q.len() >= 1,
        spec_find_item(c, q) == Ok::<ItemModel, MoveError>(ItemModel::Group(g)),
        g.open,
        kid_count(g) > 0,
    ensures
        spec_find_item(c, q + spec_chain(g)) is Ok,
        !selects_open_group(c, q + spec_chain(g)),
        forall|j: int|
            q.len() < j <= q.len() + spec_chain(g).len() ==> ((q + spec_chain(g))[j - 1] as int)
                + 1 == spec_level_count(c, (q + spec_chain(g)).take(j)),
        forall|k: int|
            q.len() <= k < q.len() + spec_chain(g).len() ==> resolved_open_group(
                spec_find_item(c, (q + spec_chain(g)).take(k)),
            ),
    decreases g,
{
    lemma_parent_weight(c, q);
    lemma_item_weight(c, q);
    lemma_weight_bounds(g);
    lemma_forest_weight_bounds(c.groups);
    let j = (kid_count(g) - 1) as usize;
    let q2 = q.push(j);
    lemma_push_child(c, q, j);
    assert(q2 =~= (q + spec_chain(g)).take(q.len() as int + 1));
    assert(spec_level_count(c, q2) == kid_count(g) as int);
    if kid_count(g) <= g.subgroups.len() {
        let sub = g.subgroups[j as int];
        assert(spec_chain(g) == seq![j] + spec_chain(sub));
        assert(spec_find_item(c, q2) == Ok::<ItemModel, MoveError>(ItemModel::Group(sub)));
        if sub.open && kid_count(sub) > 0 {
            lemma_chain_props(c, q2, sub);
            assert(q + spec_chain(g) =~= q2 + spec_chain(sub));
            assert forall|k: int|
                q.len() <= k < q.len() + spec_chain(g).len() implies resolved_open_group(
                spec_find_item(c, (q + spec_chain(g)).take(k)),
            ) by {
                if k == q.len() {
                    assert((q + spec_chain(g)).take(k) =~= q);
                } else {
                    assert((q + spec_chain(g)).take(k) =~= (q2 + spec_chain(sub)).take(k));
                }
            }
            assert forall|jj: int|
                q.len() < jj <= q.len() + spec_chain(g).len() implies ((q + spec_chain(
                g,
            ))[jj - 1] as int) + 1 == spec_level_count(c, (q + spec_chain(g)).take(jj)) by {
                if jj == q.len() + 1 {
                    assert((q + spec_chain(g)).take(jj) =~= q2);
                    assert((q + spec_chain(g))[jj - 1] == j);
                } else {
                    assert((q + spec_chain(g)).take(jj) =~= (q2 + spec_chain(sub)).take(jj));
                    assert((q + spec_chain(g))[jj - 1] == (q2 + spec_chain(sub))[jj - 1]);
                }
            }
            assert(q + spec_chain(g) =~= q2 + spec_chain(sub));
        } else {
            assert(spec_chain(sub) =~= Seq::<usize>::empty());
            assert(q + spec_chain(g) =~= q2);
            assert(!selects_open_group(c, q2));
            assert forall|jj: int|
                q.len() < jj <= q.len() + spec_chain(g).len() implies ((q + spec_chain(
                g,
            ))[jj - 1] as int) + 1 == spec_level_count(c, (q + spec_chain(g)).take(jj)) by {
                assert(jj == q.len() + 1);
                assert((q + spec_chain(g)).take(jj) =~= q2);
                assert((q + spec_chain(g))[jj - 1] == j);
            }
            assert forall|k: int|
                q.len() <= k < q.len() + spec_chain(g).len() implies resolved_open_group(
                spec_find_item(c, (q + spec_chain(g)).take(k)),
            ) by {
                assert(k == q.len() as int);
                assert((q + spec_chain(g)).take(k) =~= q);
            }
        }
    } else {
        // the last child is a todo
        assert(spec_chain(g) == seq![j]);
        assert(q + spec_chain(g) =~= q2);
        assert(spec_find_item(c, q2)->Ok_0 is Todo);
        assert(!selects_open_group(c, q2));
        assert forall|jj: int|
            q.len() < jj <= q.len() + spec_chain(g).len() implies ((q + spec_chain(g))[jj
            - 1] as int) + 1 == spec_level_count(c, (q + spec_chain(g)).take(jj)) by {
            assert(jj == q.len() + 1);
            assert((q + spec_chain(g)).take(jj) =~= q2);
            assert((q + spec_chain(g))[jj - 1] == j);
        }
        assert forall|k: int|
            q.len() <= k < q.len() + spec_chain(g).len() implies resolved_open_group(
            spec_find_item(c, (q + spec_chain(g)).take(k)),
        ) by {
            assert(k == q.len() as int);
            assert((q + spec_chain(g)).take(k) =~= q);
        }
    }
}

/// The advance scan passes over levels that sit at their last sibling
/// position.
proof fn lemma_advance_skips_exhausted(c: ConfigModel, f: Seq<usize>, m: int)
    requires
        1 <= m <= f.len(),
        forall|j: int|
            m < j <= f.len() ==> (#[trigger] (f[j - 1] as int)) + 1 == spec_level_count(
                c,
                f.take(j),
            ),
    ensures
        spec_advance(c, f) == spec_advance(c, f.take(m)),
    decreases f.len() - m,
{
    if m == f.len() {
        assert(f.take(m) =~= f);
    } else {
        lemma_advance_skips_exhausted(c, f, m + 1);
        let q = f.take(m + 1);
        assert((f[m as int] as int) + 1 == spec_level_count(c, q));
        assert(q.last() == f[m as int]);
        assert(q.drop_last() =~= f.take(m));
        assert(spec_advance(c, q) == spec_advance(c, f.take(m)));
    }
}

/// Stepping up to the previous visible row and then down returns the
/// cursor to where it was, for every visible position that is not
/// already the first row.
pub proof fn lemma_up_then_down(c: ConfigModel, path: Seq<usize>)
    requires
        config_fits(c),
        spec_find_item(c, path) is Ok,
        visible(c, path),
        spec_cursor_up(c, path) != path,
    ensures
        spec_cursor_down(c, spec_cursor_up(c, path)) == path,
{
    let n = path.len() as int;
    lemma_forest_weight_bounds(c.groups);
    lemma_parent_weight(c, path);
    if path.last() > 0 {
        let q = path.update(n - 1, (path.last() - 1) as usize);
        assert(mids(q) =~= mids(path));
        assert(q.last() == path.last() - 1);
        if n > 1 {
            lemma_weight_bounds(spec_find_parent(c, path)->Ok_0);
        }
        assert(spec_find_item(c, q) is Ok);
        assert((q.last() as int) + 1 < spec_level_count(c, q));
        assert(q.update(q.len() - 1, (q.last() + 1) as usize) =~= path);
        assert(spec_advance(c, q) == Some(path));
        match spec_find_item(c, q)->Ok_0 {
            ItemModel::Group(g) => {
                if g.open && kid_count(g) > 0 {
                    let p2 = q + spec_chain(g);
                    assert(spec_cursor_up(c, path) == p2);
                    lemma_chain_props(c, q, g);
                    lemma_advance_skips_exhausted(c, p2, q.len() as int);
                    assert(p2.take(q.len() as int) =~= q);
                    assert(spec_cursor_down(c, p2) == path);
                } else {
                    assert(spec_cursor_up(c, path) == q);
                    assert(!selects_open_group(c, q));
                    assert(spec_cursor_down(c, q) == path);
                }
            },
            ItemModel::Todo(_) => {
                assert(spec_cursor_up(c, path) == q);
                assert(!selects_open_group(c, q));
                assert(spec_cursor_down(c, q) == path);
            },
        }
    } else if path.len() > 1 {
        let q = path.drop_last();
        assert(spec_cursor_up(c, path) == q);
        lemma_prefix_item_is_parent(c, path, n - 1);
        assert(path.take(n - 1) =~= q);
        assert(resolved_open_group(spec_find_item(c, q)));
        assert(selects_open_group(c, q));
        assert(q.push(0) =~= path);
        assert(spec_cursor_down(c, q) == path);
    }
}

} // verus!
