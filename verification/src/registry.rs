//! The registry of stack roots: how each registered stack is classified, and which
//! identities wait for their stack to be classified anew.

use vstd::prelude::*;

verus! {

/// How a stack of cards is classified.
#[derive(Clone, Copy, Debug, PartialEq, Eq, Structural)]
pub enum StackType {
    /// Registered, not yet classified.
    Pending,
    /// The stack produces nothing.
    Nothing,
    /// The stack is breeding; `progress_bar` names the timer of the recipe.
    Breed { progress_bar: usize },
}

/// A `bevy::utils::HashMap` from the identity of a stack root to the stack's
/// classification.
#[verifier::external_body]
pub struct RootMap {
    inner: bevy::utils::HashMap<usize, StackType>,
}

/// The entries that a [`RootMap`] holds.
pub uninterp spec fn root_map_entries(m: RootMap) -> Map<usize, StackType>;

/// A `bevy::utils::HashSet` of identities.
#[verifier::external_body]
pub struct DirtySet {
    inner: bevy::utils::HashSet<usize>,
}

/// The identities that a [`DirtySet`] holds.
pub uninterp spec fn dirty_set_members(s: DirtySet) -> Set<usize>;

/// `HashMap::default` of `bevy::utils`: a map without entries.
#[verifier::external_body]
fn root_map_new() -> (fresh: RootMap)
    ensures
        forall|key: usize| !root_map_entries(fresh).contains_key(key),
{
    RootMap { inner: bevy::utils::HashMap::default() }
}

/// `HashMap::get`: the value that `key` is bound to, if it is bound.
#[verifier::external_body]
fn root_map_get(m: &RootMap, key: usize) -> (found: Option<StackType>)
    ensures
        found == (if root_map_entries(*m).contains_key(key) {
            Some(root_map_entries(*m)[key])
        } else {
            None
        }),
{
    m.inner.get(&key).copied()
}

/// `HashMap::insert`: binds `key` to `value`, leaves every other entry as it was, and
/// hands back what `key` was bound to before.
#[verifier::external_body]
fn root_map_insert(m: &mut RootMap, key: usize, value: StackType) -> (previous: Option<StackType>)
    ensures
        root_map_entries(*final(m)) == root_map_entries(*old(m)).insert(key, value),
        previous == (if root_map_entries(*old(m)).contains_key(key) {
            Some(root_map_entries(*old(m))[key])
        } else {
            None
        }),
{
    m.inner.insert(key, value)
}

/// `HashMap::remove`: unbinds `key`, leaves every other entry as it was, and hands back
/// what `key` was bound to.
#[verifier::external_body]
fn root_map_remove(m: &mut RootMap, key: usize) -> (previous: Option<StackType>)
    ensures
        root_map_entries(*final(m)) == root_map_entries(*old(m)).remove(key),
        previous == (if root_map_entries(*old(m)).contains_key(key) {
            Some(root_map_entries(*old(m))[key])
        } else {
            None
        }),
{
    m.inner.remove(&key)
}

/// `HashMap::keys`, gathered: every bound key once, in the order the map walks them,
/// which is left open.
#[verifier::external_body]
fn root_map_keys(m: &RootMap) -> (keys: Vec<usize>)
    ensures
        keys@.no_duplicates(),
        forall|key: usize| keys@.contains(key) <==> root_map_entries(*m).contains_key(key),
{
    m.inner.keys().copied().collect()
}

/// `HashSet::default` of `bevy::utils`: a set without members.
#[verifier::external_body]
fn dirty_set_new() -> (fresh: DirtySet)
    ensures
        forall|entity: usize| !dirty_set_members(fresh).contains(entity),
{
    DirtySet { inner: bevy::utils::HashSet::default() }
}

/// `HashSet::insert`: adds `entity` and tells whether it was new.
#[verifier::external_body]
fn dirty_set_insert(s: &mut DirtySet, entity: usize) -> (added: bool)
    ensures
        dirty_set_members(*final(s)) == dirty_set_members(*old(s)).insert(entity),
        added == !dirty_set_members(*old(s)).contains(entity),
{
    s.inner.insert(entity)
}

/// `HashSet::contains`: whether `entity` is a member.
#[verifier::external_body]
fn dirty_set_contains(s: &DirtySet, entity: usize) -> (found: bool)
    ensures
        found == dirty_set_members(*s).contains(entity),
{
    s.inner.contains(&entity)
}

/// `HashSet::drain`, gathered: empties the set and hands out every member once, in the
/// order the set walks them, which is left open.
#[verifier::external_body]
fn dirty_set_drain(s: &mut DirtySet) -> (drained: Vec<usize>)
    ensures
        drained@.no_duplicates(),
        forall|entity: usize| drained@.contains(entity) <==> dirty_set_members(*old(s)).contains(entity),
        forall|entity: usize| !dirty_set_members(*final(s)).contains(entity),
{
    s.inner.drain().collect()
}

/// The registry of stacks: the classification of each registered root, and the
/// identities whose stack is to be classified anew at the next evaluation.
pub struct StackRoots {
    roots: RootMap,
    queued_stack_recomputations: DirtySet,
}

impl StackRoots {
    /// The classification of each registered root.
    pub closed spec fn roots(self) -> Map<usize, StackType> {
        root_map_entries(self.roots)
    }

    /// The identities that wait for their stack to be classified anew.
    pub closed spec fn queued(self) -> Set<usize> {
        dirty_set_members(self.queued_stack_recomputations)
    }

    /// A registry without stacks.
    pub fn new() -> (registry: StackRoots)
        ensures
            registry.roots() == Map::<usize, StackType>::empty(),
            registry.queued() == Set::<usize>::empty(),
    {
        let registry = StackRoots {
            roots: root_map_new(),
            queued_stack_recomputations: dirty_set_new(),
        };
        assert(registry.roots() =~= Map::<usize, StackType>::empty());
        assert(registry.queued() =~= Set::<usize>::empty());
        registry
    }

    /// How the stack rooted at `root` is classified, if `root` is registered.
    pub fn stack_type(&self, root: usize) -> (found: Option<StackType>)
        ensures
            found == (if self.roots().contains_key(root) {
                Some(self.roots()[root])
            } else {
                None
            }),
    {
        root_map_get(&self.roots, root)
    }

    /// Whether `entity` waits for its stack to be classified anew.
    pub fn is_queued(&self, entity: usize) -> (queued: bool)
        ensures
            queued == self.queued().contains(entity),
    {
        dirty_set_contains(&self.queued_stack_recomputations, entity)
    }

    /// Every registered root, once each, in no particular order.
    pub fn registered(&self) -> (keys: Vec<usize>)
        ensures
            keys@.no_duplicates(),
            forall|key: usize| keys@.contains(key) <==> self.roots().contains_key(key),
    {
        root_map_keys(&self.roots)
    }

    /// Classifies the stack rooted at `root` and hands back its former classification.
    pub fn classify(&mut self, root: usize, stack_type: StackType) -> (previous: Option<StackType>)
        ensures
            final(self).roots() == old(self).roots().insert(root, stack_type),
            final(self).queued() == old(self).queued(),
            previous == (if old(self).roots().contains_key(root) {
                Some(old(self).roots()[root])
            } else {
                None
            }),
    {
        root_map_insert(&mut self.roots, root, stack_type)
    }

    /// Strikes `root` from the registry and hands back its classification.
    pub fn unregister(&mut self, root: usize) -> (previous: Option<StackType>)
        ensures
            final(self).roots() == old(self).roots().remove(root),
            final(self).queued() == old(self).queued(),
            previous == (if old(self).roots().contains_key(root) {
                Some(old(self).roots()[root])
            } else {
                None
            }),
    {
        root_map_remove(&mut self.roots, root)
    }

    /// Marks the stack of `entity` to be classified anew.
    pub fn queue(&mut self, entity: usize)
        ensures
            final(self).roots() == old(self).roots(),
            final(self).queued() == old(self).queued().insert(entity),
    {
        dirty_set_insert(&mut self.queued_stack_recomputations, entity);
    }

    /// Takes every waiting identity out of the queue, once each, in no particular order.
    pub fn take_queued(&mut self) -> (drained: Vec<usize>)
        ensures
            drained@.no_duplicates(),
            forall|entity: usize| drained@.contains(entity) <==> old(self).queued().contains(entity),
            final(self).queued() == Set::<usize>::empty(),
            final(self).roots() == old(self).roots(),
    {
        let drained = dirty_set_drain(&mut self.queued_stack_recomputations);
        assert(self.queued() =~= Set::<usize>::empty());
        drained
    }
}

impl Default for StackRoots {
    fn default() -> (registry: StackRoots)
        ensures
            registry.roots() == Map::<usize, StackType>::empty(),
            registry.queued() == Set::<usize>::empty(),
    {
        StackRoots::new()
    }
}

} // verus!
