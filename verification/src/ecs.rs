//! The entity store of the game world, kept by `hecs`.
//!
//! An entity is named by the 64 bits of its `hecs::Entity` handle
//! (`Entity::to_bits`); each call below turns the bits back into a handle with
//! `Entity::from_bits`, and bits that make no handle name no live entity. The
//! trusted items state, over the names `world_entities` and the component
//! sets, what each `hecs` call does to the world and what it returns.
use vstd::prelude::*;

use crate::game_state::{GridPos, Movable, OnGrid, PlayerTag, Solid};

verus! {

#[verifier::external_type_specification]
#[verifier::external_body]
pub struct ExWorld(hecs::World);

/// The handles (as bits) of the entities alive in `w`.
pub uninterp spec fn world_entities(w: hecs::World) -> Set<u64>;

/// The `GridPos` component of each live entity that has one.
pub uninterp spec fn world_positions(w: hecs::World) -> Map<u64, GridPos>;

/// The live entities that have a `Movable` component.
pub uninterp spec fn world_movable(w: hecs::World) -> Set<u64>;

/// The live entities that have an `OnGrid` component.
pub uninterp spec fn world_on_grid(w: hecs::World) -> Set<u64>;

/// The live entities that have a `Solid` component.
pub uninterp spec fn world_solid(w: hecs::World) -> Set<u64>;

/// The live entities that have a `PlayerTag` component.
pub uninterp spec fn world_player_tagged(w: hecs::World) -> Set<u64>;

/// What the game reads of a world: its live entities and their components.
pub struct WorldModel {
    pub entities: Set<u64>,
    pub positions: Map<u64, GridPos>,
    pub movable: Set<u64>,
    pub on_grid: Set<u64>,
    pub solid: Set<u64>,
    pub player_tagged: Set<u64>,
}

/// The contents of `w`.
pub open spec fn world_model(w: hecs::World) -> WorldModel {
    WorldModel {
        entities: world_entities(w),
        positions: world_positions(w),
        movable: world_movable(w),
        on_grid: world_on_grid(w),
        solid: world_solid(w),
        player_tagged: world_player_tagged(w),
    }
}

impl WorldModel {
    /// Finitely many entities, and components only on live ones.
    pub open spec fn wf(self) -> bool {
        &&& self.entities.finite()
        &&& self.positions.dom().subset_of(self.entities)
        &&& self.movable.subset_of(self.entities)
        &&& self.on_grid.subset_of(self.entities)
        &&& self.solid.subset_of(self.entities)
        &&& self.player_tagged.subset_of(self.entities)
    }

    /// A world without entities.
    pub open spec fn empty() -> WorldModel {
        WorldModel {
            entities: Set::empty(),
            positions: Map::empty(),
            movable: Set::empty(),
            on_grid: Set::empty(),
            solid: Set::empty(),
            player_tagged: Set::empty(),
        }
    }
}

/// `hecs::World::new`: a world without entities. (`hecs` also counts the
/// worlds it made in a `u64` and panics on overflow, which no input here can
/// decide and which is not stated.)
#[verifier::external_body]
pub(crate) fn new_world() -> (w: hecs::World)
    ensures
        world_model(w) == WorldModel::empty(),
{
    hecs::World::new()
}

/// `hecs::World::flush` followed by `hecs::World::len`: the number of live
/// entities. `len` counts an entity handed out by `reserve_entity` only once
/// `flush` has turned it into an empty entity, which changes nothing that the
/// names here describe: the handle was already alive and still has no
/// components.
#[verifier::external_body]
pub(crate) fn entity_count(world: &mut hecs::World) -> (n: u32)
    ensures
        world_model(*final(world)) == world_model(*old(world)),
        n as int == world_entities(*final(world)).len(),
{
    world.flush();
    world.len()
}

/// `hecs::World::spawn` with no components: a new live entity, whose handle
/// differs from that of every entity alive before. `hecs` panics when
/// `u32` runs out of entity slots, which `requires` excludes.
#[verifier::external_body]
pub(crate) fn spawn_empty(world: &mut hecs::World) -> (id: u64)
    requires
        world_entities(*old(world)).len() < u32::MAX,
    ensures
        !world_entities(*old(world)).contains(id),
        world_model(*final(world)) == (WorldModel {
            entities: world_entities(*old(world)).insert(id),
            ..world_model(*old(world))
        }),
{
    world.spawn(()).to_bits().get()
}

/// `hecs::World::insert_one` of a `GridPos`: succeeds exactly when the entity
/// is alive, and then gives it that position, replacing any earlier one.
#[verifier::external_body]
pub(crate) fn insert_position(world: &mut hecs::World, id: u64, pos: GridPos) -> (ok: bool)
    ensures
        ok == world_entities(*old(world)).contains(id),
        world_model(*final(world)) == if ok {
            WorldModel {
                positions: world_positions(*old(world)).insert(id, pos),
                ..world_model(*old(world))
            }
        } else {
            world_model(*old(world))
        },
{
    match hecs::Entity::from_bits(id) {
        Some(entity) => world.insert_one(entity, pos).is_ok(),
        None => false,
    }
}

/// `hecs::World::insert_one` of `Movable`: succeeds exactly when the entity is
/// alive, and then marks it movable.
#[verifier::external_body]
pub(crate) fn insert_movable(world: &mut hecs::World, id: u64) -> (ok: bool)
    ensures
        ok == world_entities(*old(world)).contains(id),
        world_model(*final(world)) == if ok {
            WorldModel { movable: world_movable(*old(world)).insert(id), ..world_model(*old(world)) }
        } else {
            world_model(*old(world))
        },
{
    match hecs::Entity::from_bits(id) {
        Some(entity) => world.insert_one(entity, Movable).is_ok(),
        None => false,
    }
}

/// `hecs::World::insert_one` of `OnGrid`: succeeds exactly when the entity is
/// alive, and then marks it as standing on the grid.
#[verifier::external_body]
pub(crate) fn insert_on_grid(world: &mut hecs::World, id: u64) -> (ok: bool)
    ensures
        ok == world_entities(*old(world)).contains(id),
        world_model(*final(world)) == if ok {
            WorldModel { on_grid: world_on_grid(*old(world)).insert(id), ..world_model(*old(world)) }
        } else {
            world_model(*old(world))
        },
{
    match hecs::Entity::from_bits(id) {
        Some(entity) => world.insert_one(entity, OnGrid).is_ok(),
        None => false,
    }
}

/// `hecs::World::insert_one` of `Solid`: succeeds exactly when the entity is
/// alive, and then marks it solid.
#[verifier::external_body]
pub(crate) fn insert_solid(world: &mut hecs::World, id: u64) -> (ok: bool)
    ensures
        ok == world_entities(*old(world)).contains(id),
        world_model(*final(world)) == if ok {
            WorldModel { solid: world_solid(*old(world)).insert(id), ..world_model(*old(world)) }
        } else {
            world_model(*old(world))
        },
{
    match hecs::Entity::from_bits(id) {
        Some(entity) => world.insert_one(entity, Solid).is_ok(),
        None => false,
    }
}

/// `hecs::World::insert_one` of `PlayerTag`: succeeds exactly when the entity
/// is alive, and then tags it as the player.
#[verifier::external_body]
pub(crate) fn insert_player_tag(world: &mut hecs::World, id: u64) -> (ok: bool)
    ensures
        ok == world_entities(*old(world)).contains(id),
        world_model(*final(world)) == if ok {
            WorldModel {
                player_tagged: world_player_tagged(*old(world)).insert(id),
                ..world_model(*old(world))
            }
        } else {
            world_model(*old(world))
        },
{
    match hecs::Entity::from_bits(id) {
        Some(entity) => world.insert_one(entity, PlayerTag).is_ok(),
        None => false,
    }
}

/// `hecs::World::get::<&GridPos>`: the position of the entity, when it is
/// alive and has one.
#[verifier::external_body]
pub(crate) fn position_of(world: &hecs::World, id: u64) -> (res: Option<GridPos>)
    ensures
        res == if world_positions(*world).dom().contains(id) {
            Some(world_positions(*world)[id])
        } else {
            None::<GridPos>
        },
{
    match hecs::Entity::from_bits(id) {
        Some(entity) => world.get::<&GridPos>(entity).ok().map(|pos| *pos),
        None => None,
    }
}

/// `hecs::World::satisfies::<&Solid>`: whether the entity is alive and solid.
#[verifier::external_body]
pub(crate) fn is_solid(world: &hecs::World, id: u64) -> (res: bool)
    ensures
        res == world_solid(*world).contains(id),
{
    match hecs::Entity::from_bits(id) {
        Some(entity) => world.satisfies::<&Solid>(entity),
        None => false,
    }
}

/// `hecs::World::query_one_mut::<(&GridPos, &Movable, &OnGrid)>`: the position
/// of the entity when it is alive, movable, on the grid and has a position;
/// the world is left as it was.
#[verifier::external_body]
pub(crate) fn movable_position(world: &mut hecs::World, id: u64) -> (res: Option<GridPos>)
    ensures
        world_model(*final(world)) == world_model(*old(world)),
        res == if world_positions(*old(world)).dom().contains(id) && world_movable(
            *old(world),
        ).contains(id) && world_on_grid(*old(world)).contains(id) {
            Some(world_positions(*old(world))[id])
        } else {
            None::<GridPos>
        },
{
    match hecs::Entity::from_bits(id) {
        Some(entity) => world.query_one_mut::<(&GridPos, &Movable, &OnGrid)>(entity).ok().map(
            |(pos, _, _)| *pos,
        ),
        None => None,
    }
}

} // verus!
