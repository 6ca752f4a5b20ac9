//! The table of entities and of what is attached to each.

use vstd::prelude::*;
use crate::position::Position;
use crate::player_camera::Player;
use crate::player_camera::PlayerPath;
use crate::player_camera::PlayerCamera;

verus! {

/// The name of an entity. The scene gives it no meaning but identity.
#[derive(Clone, Copy, PartialEq, Eq, Structural, Debug)]
pub struct Entity {
    pub id: u64,
}

/// Where an entity stands.
#[derive(Clone, Copy, PartialEq, Eq, Debug)]
pub struct Transform {
    pub translation: Position,
}

/// What is attached to one entity.
#[derive(Clone, Copy, PartialEq, Eq, Debug)]
pub struct Components {
    pub player: Option<Player>,
    pub path: Option<PlayerPath>,
    pub camera: Option<PlayerCamera>,
    pub transform: Option<Transform>,
}

/// The sets of entities that the per-frame updates ask for.
#[derive(Clone, Copy, PartialEq, Eq, Structural, Debug)]
pub enum Query {
    /// Entities that carry a path: those a click can send somewhere.
    Pathed,
    /// Players that carry a path and stand somewhere.
    Traveller,
    /// Players that stand somewhere.
    Followed,
    /// Cameras that stand somewhere and are no player.
    Follower,
}

impl Components {
    /// Whether an entity with these components belongs to `query`.
    pub open spec fn fits(self, query: Query) -> bool {
        match query {
            Query::Pathed => self.path is Some,
            Query::Traveller => self.player is Some && self.path is Some && self.transform is Some,
            Query::Followed => self.player is Some && self.transform is Some,
            Query::Follower => self.player is None && self.camera is Some && self.transform is Some,
        }
    }

    /// These components, travelling to `destination` or nowhere.
    pub open spec fn bound_for(self, destination: Option<Position>) -> Components {
        Components { path: Some(PlayerPath { destination }), ..self }
    }

    /// These components, standing at `translation`.
    pub open spec fn standing_at(self, translation: Position) -> Components {
        Components { transform: Some(Transform { translation }), ..self }
    }

    /// Nothing attached.
    pub fn bare() -> (r: Components)
        ensures
            r == (Components { player: None, path: None, camera: None, transform: None }),
    {
        Components { player: None, path: None, camera: None, transform: None }
    }

    pub fn matches(&self, query: Query) -> (r: bool)
        ensures
            r == self.fits(query),
    {
        match query {
            Query::Pathed => self.path.is_some(),
            Query::Traveller => self.player.is_some() && self.path.is_some()
                && self.transform.is_some(),
            Query::Followed => self.player.is_some() && self.transform.is_some(),
            Query::Follower => self.player.is_none() && self.camera.is_some()
                && self.transform.is_some(),
        }
    }
}

/// `entity` is in `table`, belongs to `query`, and is the only one that does.
pub open spec fn only(table: Map<Entity, Components>, query: Query, entity: Entity) -> bool {
    &&& table.contains_key(entity)
    &&& table[entity].fits(query)
    &&& forall|other: Entity| #[trigger]
        table.contains_key(other) && table[other].fits(query) ==> other == entity
}

/// The one entity of `table` that belongs to `query`, if there is exactly one.
pub open spec fn single(table: Map<Entity, Components>, query: Query) -> Option<Entity> {
    if exists|entity: Entity| only(table, query, entity) {
        Some(choose|entity: Entity| only(table, query, entity))
    } else {
        None
    }
}

/// At most one entity is the only one of its kind.
pub proof fn lemma_single_is_only(table: Map<Entity, Components>, query: Query, entity: Entity)
    ensures
        single(table, query) == Some(entity) <==> only(table, query, entity),
{
    if only(table, query, entity) {
        let chosen = choose|e: Entity| only(table, query, e);
        assert(only(table, query, chosen));
        assert(table.contains_key(chosen));
    }
}

#[derive(Clone, Copy, Debug)]
struct Record {
    entity: Entity,
    components: Components,
}

/// The entities of a scene, each with its components. No entity is in it
/// twice.
pub struct Scene {
    records: Vec<Record>,
}

impl View for Scene {
    type V = Map<Entity, Components>;

    closed spec fn view(&self) -> Map<Entity, Components> {
        Map::new(
            |entity: Entity| self.holds(entity),
            |entity: Entity| self.records[self.slot_of(entity)].components,
        )
    }
}

impl Scene {
    #[verifier::type_invariant]
    spec fn distinct(self) -> bool {
        forall|i: int, j: int|
            0 <= i < j < self.records.len() ==> self.records[i].entity != self.records[j].entity
    }

    spec fn holds(self, entity: Entity) -> bool {
        exists|i: int| 0 <= i < self.records.len() && self.records[i].entity == entity
    }

    spec fn slot_of(self, entity: Entity) -> int {
        choose|i: int| 0 <= i < self.records.len() && self.records[i].entity == entity
    }

    /// The record at `i` is the one that the view shows for its entity.
    proof fn lemma_slot(self, i: int)
        requires
            self.distinct(),
            0 <= i < self.records.len(),
        ensures
            self.holds(self.records[i].entity),
            self.slot_of(self.records[i].entity) == i,
            self@.contains_key(self.records[i].entity),
            self@[self.records[i].entity] == self.records[i].components,
    {
    }

    /// A scene without entities.
    pub fn new() -> (r: Scene)
        ensures
            r@ == Map::<Entity, Components>::empty(),
    {
        let r = Scene { records: Vec::new() };
        assert(r@ =~= Map::<Entity, Components>::empty());
        r
    }

    fn find(&self, entity: Entity) -> (r: Option<usize>)
        ensures
            match r {
                Some(i) => i < self.records.len() && self.records[i as int].entity == entity,
                None => !self.holds(entity),
            },
    {
        let mut i: usize = 0;
        while i < self.records.len()
            invariant
                i <= self.records.len(),
                forall|k: int| 0 <= k < i ==> self.records[k].entity != entity,
            decreases self.records.len() - i,
        {
            if self.records[i].entity == entity {
                return Some(i);
            }
            i += 1;
        }
        None
    }

    /// Puts `entity` into the scene with `components`, unless it is there
    /// already.
    pub fn spawn(&mut self, entity: Entity, components: Components) -> (added: bool)
        ensures
            added == !old(self)@.contains_key(entity),
            final(self)@ == (if added {
                old(self)@.insert(entity, components)
            } else {
                old(self)@
            }),
    {
        proof {
            use_type_invariant(&*self);
        }
        if self.find(entity).is_some() {
            return false;
        }
        let ghost before = *self;
        let mut records: Vec<Record> = Vec::new();
        std::mem::swap(&mut records, &mut self.records);
        records.push(Record { entity, components });
        std::mem::swap(&mut records, &mut self.records);
        proof {
            let after = *self;
            let last = before.records.len() as int;
            assert(after.records[last].entity == entity);
            assert forall|e: Entity| after.holds(e) == (e == entity || before.holds(e)) by {
                if before.holds(e) {
                    let i = before.slot_of(e);
                    assert(after.records[i].entity == e);
                }
            }
            assert forall|e: Entity| #[trigger] after.holds(e) implies after@[e] == before@.insert(
                entity,
                components,
            )[e] by {
                let i = after.slot_of(e);
                if i < last {
                    before.lemma_slot(i);
                }
            }
            assert(after@ =~= before@.insert(entity, components));
        }
        true
    }

    /// Replaces what is attached to `entity`, if it is in the scene.
    pub fn attach(&mut self, entity: Entity, components: Components) -> (found: bool)
        ensures
            found == old(self)@.contains_key(entity),
            final(self)@ == (if found {
                old(self)@.insert(entity, components)
            } else {
                old(self)@
            }),
    {
        proof {
            use_type_invariant(&*self);
        }
        match self.find(entity) {
            None => false,
            Some(i) => {
                let ghost before = *self;
                let mut records: Vec<Record> = Vec::new();
                std::mem::swap(&mut records, &mut self.records);
                records.set(i, Record { entity, components });
                std::mem::swap(&mut records, &mut self.records);
                proof {
                    let after = *self;
                    assert forall|e: Entity| after.holds(e) == before.holds(e) by {
                        if before.holds(e) {
                            let k = before.slot_of(e);
                            assert(after.records[k].entity == e);
                        }
                        if after.holds(e) {
                            let k = after.slot_of(e);
                            assert(before.records[k].entity == e);
                        }
                    }
                    assert forall|e: Entity| #[trigger] after.holds(e) implies after@[e]
                        == before@.insert(entity, components)[e] by {
                        let k = after.slot_of(e);
                        before.lemma_slot(k);
                    }
                    assert(after@ =~= before@.insert(entity, components));
                }
                true
            },
        }
    }

    /// The one entity that belongs to `query`, if there is exactly one.
    pub fn single(&self, query: Query) -> (r: Option<Entity>)
        ensures
            r == single(self@, query),
            match r {
                Some(entity) => only(self@, query, entity),
                None => forall|entity: Entity| !only(self@, query, entity),
            },
    {
        proof {
            use_type_invariant(self);
        }
        let mut found: Option<usize> = None;
        let mut i: usize = 0;
        while i < self.records.len()
            invariant
                i <= self.records.len(),
                self.distinct(),
                match found {
                    Some(j) => j < i && self.records[j as int].components.fits(query),
                    None => true,
                },
                forall|k: int|
                    0 <= k < i && self.records[k].components.fits(query) ==> found == Some(
                        k as usize,
                    ),
            decreases self.records.len() - i,
        {
            if self.records[i].components.matches(query) {
                if let Some(j) = found {
                    proof {
                        self.lemma_slot(i as int);
                        self.lemma_slot(j as int);
                        let a = self.records[i as int].entity;
                        let b = self.records[j as int].entity;
                        assert(self@.contains_key(a) && self@[a].fits(query));
                        assert(self@.contains_key(b) && self@[b].fits(query));
                        assert(a != b);
                        assert forall|entity: Entity| !only(self@, query, entity) by {
                            if only(self@, query, entity) {
                                assert(a == entity);
                                assert(b == entity);
                            }
                        }
                    }
                    return None;
                }
                found = Some(i);
            }
            i += 1;
        }
        match found {
            Some(j) => {
                let entity = self.records[j].entity;
                proof {
                    self.lemma_slot(j as int);
                    assert forall|other: Entity| #[trigger]
                        self@.contains_key(other) && self@[other].fits(query) implies other
                        == entity by {
                        let k = self.slot_of(other);
                        self.lemma_slot(k);
                    }
                    lemma_single_is_only(self@, query, entity);
                }
                Some(entity)
            },
            None => {
                proof {
                    assert forall|entity: Entity| !only(self@, query, entity) by {
                        if only(self@, query, entity) {
                            let k = self.slot_of(entity);
                            self.lemma_slot(k);
                        }
                    }
                }
                None
            },
        }
    }

    /// What is attached to `entity`, if it is in the scene.
    pub fn get(&self, entity: Entity) -> (r: Option<Components>)
        ensures
            r == (if self@.contains_key(entity) {
                Some(self@[entity])
            } else {
                None
            }),
    {
        proof {
            use_type_invariant(self);
        }
        match self.find(entity) {
            Some(i) => {
                proof {
                    self.lemma_slot(i as int);
                }
                Some(self.records[i].components)
            },
            None => None,
        }
    }
}

} // verus!
