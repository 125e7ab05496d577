//! Declarative entity trees, diffed and reconciled into a persistent entity world.
use vstd::prelude::*;

pub mod byte_holder;
pub mod component_holder;
pub mod raw_component_holder;
pub mod tree;
pub mod typed_component_holder;
pub mod world;

use crate::tree::{queued_types, NodeTree};
use crate::world::{applied_components, template_types, World};

verus! {

/// A request to make `entity` look as `nodum` describes.
pub struct InsertNodumEntity {
    pub entity: usize,
    pub nodum: NodeTree,
}

impl InsertNodumEntity {
    /// Applies the tree to the entity; its children wait for the next scheduler pass.
    pub fn apply(self, world: &mut World)
        requires
            old(world).wf(),
            self.entity < old(world).len(),
            old(world).alive(self.entity as int),
            self.nodum.wf(),
        ensures
            final(world).wf(),
            final(world).len() == old(world).len(),
            forall|e: int|
                0 <= e < old(world).len() && e != self.entity ==> final(world).entities@[e] == old(
                    world,
                ).entities@[e],
            final(world).components_of(self.entity as int) == applied_components(
                old(world).components_of(self.entity as int),
                template_types(old(world).entities@[self.entity as int].template),
                self.nodum.component_map(),
            ),
            final(world).alive(self.entity as int),
            final(world).entities@[self.entity as int].parent == old(world).entities@[self.entity as int].parent,
            final(world).children_of(self.entity as int) == old(world).children_of(self.entity as int),
            final(world).entities@[self.entity as int].template matches Some(t) && t.component_types@
                == self.nodum.component_types() && t.component_types@.no_duplicates(),
            template_types(final(world).entities@[self.entity as int].template)
                == self.nodum.component_map().dom(),
            final(world).entities@[self.entity as int].pending == Some(self.nodum.children),
            final(world).registered@ == old(world).registered@.union(queued_types(self.nodum.register_queue@)),
            final(world).spawned_count == old(world).spawned_count.saturating_add(1),
            forall|d: int|
                #[trigger] self.nodum.depth_within(d) && old(world).pending_within(d - 1)
                    ==> final(world).pending_within(d - 1),
    {
        world.apply_node(self.entity, self.nodum);
    }
}

} // verus!
