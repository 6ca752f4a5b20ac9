//! The player, its path, and the camera that follows it.
//!
//! Three updates run once per frame, in this order: clicks give their
//! targets a destination, the camera is placed beside the player, and the
//! player moves towards its destination. The sums and lengths of vectors are worked out by
//! the caller; what is decided here is who is addressed, whether the player
//! has arrived, and how fast it goes.

use vstd::prelude::*;
use crate::position::Position;
use crate::scalar::Scalar;
use crate::scene::Components;
use crate::scene::Entity;
use crate::scene::Query;
use crate::scene::Scene;
use crate::scene::Transform;
use crate::scene::single;
use crate::scene::only;
use crate::scene::lemma_single_is_only;
use crate::motion::MotionStep;
use crate::motion::step_at;
use crate::motion::arrival_distance;
use crate::motion::step_in_bits;
use crate::motion::lemma_step_in_bits;
use crate::motion::plan_step;

verus! {

/// The bits of 2.0.
pub const TWO_BITS: u32 = 0x4000_0000;

/// The bits of -1.0.
pub const MINUS_ONE_BITS: u32 = 0xBF80_0000;

/// Marks the entity that travels and that the camera follows.
#[derive(Clone, Copy, PartialEq, Eq, Debug)]
pub struct Player;

/// Where the player is travelling to, if anywhere.
#[derive(Clone, Copy, PartialEq, Eq, Debug)]
pub struct PlayerPath {
    pub destination: Option<Position>,
}

/// The step from the player to the camera that follows it.
#[derive(Clone, Copy, PartialEq, Eq, Debug)]
pub struct PlayerCamera {
    pub offset: Position,
}

impl Default for PlayerPath {
    /// A player that is going nowhere.
    fn default() -> (r: Self)
        ensures
            r.destination is None,
    {
        PlayerPath { destination: None }
    }
}

impl PlayerCamera {
    /// Twice the step (-1, 2, -1): behind the player and above it.
    pub open spec fn default_offset() -> Position {
        Position {
            x: (Scalar { bits: MINUS_ONE_BITS }).doubled(),
            y: (Scalar { bits: TWO_BITS }).doubled(),
            z: (Scalar { bits: MINUS_ONE_BITS }).doubled(),
        }
    }
}

impl Default for PlayerCamera {
    fn default() -> (r: Self)
        ensures
            r.offset == PlayerCamera::default_offset(),
    {
        let back = Scalar::from_bits(MINUS_ONE_BITS).twice();
        let up = Scalar::from_bits(TWO_BITS).twice();
        PlayerCamera { offset: Position::new(back, up, back) }
    }
}

/// A click on the ground: `target` is to go to (`x`, `z`).
#[derive(Clone, Copy, PartialEq, Eq, Debug)]
pub struct SetDestination {
    pub target: Entity,
    pub x: Scalar,
    pub z: Scalar,
}

impl SetDestination {
    /// The event for a click on `target` that hit the scene at `hit`. A click
    /// without a hit position counts as one at the origin.
    pub fn from_hit(target: Entity, hit: Option<Position>) -> (r: SetDestination)
        ensures
            r.target == target,
            hit is Some ==> r.x == hit->0.x && r.z == hit->0.z,
            hit is None ==> r.x == Position::origin().x && r.z == Position::origin().z,
    {
        let at = match hit {
            Some(position) => position,
            None => Position::zero(),
        };
        SetDestination { target, x: at.x, z: at.z }
    }

    /// The point that the event sends its target to.
    pub open spec fn destination(self) -> Position {
        Position::grounded(self.x, self.z)
    }
}

/// What a new player carries: its mark, an empty path, and a place at the
/// origin.
pub open spec fn new_player() -> Components {
    Components {
        player: Some(Player),
        path: Some(PlayerPath { destination: None }),
        camera: None,
        transform: Some(Transform { translation: Position::origin() }),
    }
}

/// What a new camera carries: its offset, and a place at that offset from
/// the origin, where the new player stands.
pub open spec fn new_camera() -> Components {
    Components {
        player: None,
        path: None,
        camera: Some(PlayerCamera { offset: PlayerCamera::default_offset() }),
        transform: Some(Transform { translation: PlayerCamera::default_offset() }),
    }
}

/// Puts the player and its camera into the scene, under the names `player`
/// and `camera`. Nothing is done if the names are the same or one of them is
/// taken.
pub fn setup_player_camera(scene: &mut Scene, player: Entity, camera: Entity) -> (done: bool)
    ensures
        done == (player != camera && !old(scene)@.contains_key(player) && !old(
            scene,
        )@.contains_key(camera)),
        final(scene)@ == (if done {
            old(scene)@.insert(player, new_player()).insert(camera, new_camera())
        } else {
            old(scene)@
        }),
{
    if player == camera || scene.get(player).is_some() || scene.get(camera).is_some() {
        return false;
    }
    let lens = PlayerCamera::default();
    scene.spawn(
        player,
        Components {
            player: Some(Player),
            path: Some(PlayerPath::default()),
            camera: None,
            transform: Some(Transform { translation: Position::zero() }),
        },
    );
    scene.spawn(
        camera,
        Components {
            player: None,
            path: None,
            camera: Some(lens),
            transform: Some(Transform { translation: lens.offset }),
        },
    );
    true
}

/// The scene after one click: the target travels to where the click fell,
/// if it carries a path, and nothing changes if it does not.
pub open spec fn assigned(table: Map<Entity, Components>, event: SetDestination) -> Map<
    Entity,
    Components,
> {
    if table.contains_key(event.target) && table[event.target].fits(Query::Pathed) {
        table.insert(event.target, table[event.target].bound_for(Some(event.destination())))
    } else {
        table
    }
}

/// The scene after the clicks of one frame, taken in the order they came.
pub open spec fn assigned_all(table: Map<Entity, Components>, events: Seq<SetDestination>) -> Map<
    Entity,
    Components,
>
    decreases events.len(),
{
    if events.len() == 0 {
        table
    } else {
        assigned(assigned_all(table, events.drop_last()), events.last())
    }
}

/// Gives each clicked entity that carries a path its new destination. A
/// later click replaces an earlier one; a click on an entity that carries no
/// path, or that is not in the scene, is dropped.
pub fn handle_set_player_destination(scene: &mut Scene, events: &Vec<SetDestination>)
    ensures
        final(scene)@ == assigned_all(old(scene)@, events@),
{
    let ghost start = scene@;
    let mut i: usize = 0;
    while i < events.len()
        invariant
            i <= events.len(),
            scene@ == assigned_all(start, events@.take(i as int)),
        decreases events.len() - i,
    {
        let event = events[i];
        proof {
            let seen = events@.take(i + 1);
            assert(seen.drop_last() =~= events@.take(i as int));
            assert(seen.last() == event);
        }
        if let Some(components) = scene.get(event.target) {
            if components.matches(Query::Pathed) {
                let destination = Position::on_ground(event.x, event.z);
                let bound = Components {
                    player: components.player,
                    path: Some(PlayerPath { destination: Some(destination) }),
                    camera: components.camera,
                    transform: components.transform,
                };
                scene.attach(event.target, bound);
            }
        }
        i += 1;
    }
    proof {
        assert(events@.take(events.len() as int) =~= events@);
    }
}

/// A click changes no more than its target's destination: the same entities
/// are there, each belongs to the same queries, and all but the target are as
/// they were.
pub proof fn lemma_click_touches_path_only(
    table: Map<Entity, Components>,
    events: Seq<SetDestination>,
    entity: Entity,
)
    ensures
        assigned_all(table, events).contains_key(entity) == table.contains_key(entity),
        table.contains_key(entity) ==> {
            let before = table[entity];
            let after = assigned_all(table, events)[entity];
            &&& after.player == before.player
            &&& after.camera == before.camera
            &&& after.transform == before.transform
            &&& after.path is Some == before.path is Some
            &&& forall|query: Query| after.fits(query) == before.fits(query)
            &&& (forall|i: int| 0 <= i < events.len() ==> events[i].target != entity) ==> after
                == before
        },
    decreases events.len(),
{
    if events.len() > 0 {
        lemma_click_touches_path_only(table, events.drop_last(), entity);
        if table.contains_key(entity) {
            let earlier = events.drop_last();
            if forall|i: int| 0 <= i < events.len() ==> events[i].target != entity {
                assert forall|i: int| 0 <= i < earlier.len() implies earlier[i].target
                    != entity by {
                    assert(earlier[i] == events[i]);
                }
                assert(events[events.len() - 1].target != entity);
            }
        }
    }
}

/// Of the clicks of one frame, the last one on an entity that carries a path
/// decides where that entity goes.
pub proof fn lemma_last_click_decides(
    table: Map<Entity, Components>,
    events: Seq<SetDestination>,
    i: int,
)
    requires
        0 <= i < events.len(),
        table.contains_key(events[i].target),
        table[events[i].target].fits(Query::Pathed),
        forall|j: int| i < j < events.len() ==> events[j].target != events[i].target,
    ensures
        assigned_all(table, events)[events[i].target] == table[events[i].target].bound_for(
            Some(events[i].destination()),
        ),
    decreases events.len(),
{
    let target = events[i].target;
    let earlier = events.drop_last();
    lemma_click_touches_path_only(table, earlier, target);
    if i < events.len() - 1 {
        assert(earlier[i] == events[i]);
        assert forall|j: int| i < j < earlier.len() implies earlier[j].target != target by {
            assert(earlier[j] == events[j]);
        }
        lemma_last_click_decides(table, earlier, i);
        assert(events.last().target != target);
    }
}

/// Two clicks on one entity in one frame leave what the second alone would
/// have left.
pub proof fn lemma_later_click_wins(
    table: Map<Entity, Components>,
    first: SetDestination,
    second: SetDestination,
)
    requires
        first.target == second.target,
    ensures
        assigned_all(table, seq![first, second]) == assigned_all(table, seq![second]),
{
    let both = seq![first, second];
    let one = seq![second];
    assert(both.drop_last() =~= seq![first]);
    assert(seq![first].drop_last() =~= Seq::<SetDestination>::empty());
    assert(one.drop_last() =~= Seq::<SetDestination>::empty());
    assert(assigned_all(table, Seq::<SetDestination>::empty()) == table);
    assert(assigned_all(table, seq![first]) == assigned(table, first));
    assert(assigned_all(table, both) == assigned(assigned(table, first), second));
    assert(assigned_all(table, one) == assigned(table, second));
    assert(assigned(assigned(table, first), second) =~= assigned(table, second));
}

/// Clicks on entities that carry no path, or that are not in the scene,
/// change nothing.
pub proof fn lemma_stale_clicks_dropped(
    table: Map<Entity, Components>,
    events: Seq<SetDestination>,
)
    requires
        forall|i: int|
            0 <= i < events.len() ==> !(table.contains_key(#[trigger] events[i].target)
                && table[events[i].target].fits(Query::Pathed)),
    ensures
        assigned_all(table, events) == table,
    decreases events.len(),
{
    if events.len() > 0 {
        let earlier = events.drop_last();
        assert forall|i: int| 0 <= i < earlier.len() implies !(table.contains_key(
            #[trigger] earlier[i].target,
        ) && table[earlier[i].target].fits(Query::Pathed)) by {
            assert(earlier[i] == events[i]);
        }
        lemma_stale_clicks_dropped(table, earlier);
        assert(events.last() == events[events.len() - 1]);
    }
}

/// A player on its way: which entity, where it stands, where it is going.
#[derive(Clone, Copy, PartialEq, Eq, Debug)]
pub struct Travel {
    pub entity: Entity,
    pub from: Position,
    pub to: Position,
}

/// The journey of the one player of `table`. There is none where no player
/// or more than one player stands in the scene with a path, and none where
/// the player has no destination.
pub open spec fn travel_in(table: Map<Entity, Components>) -> Option<Travel> {
    match single(table, Query::Traveller) {
        Some(entity) => match table[entity].path->0.destination {
            Some(to) => Some(
                Travel { entity, from: table[entity].transform->0.translation, to },
            ),
            None => None,
        },
        None => None,
    }
}

/// The journey that the player is on, if it is on one.
pub fn player_travel(scene: &Scene) -> (r: Option<Travel>)
    ensures
        r == travel_in(scene@),
{
    let entity = match scene.single(Query::Traveller) {
        Some(entity) => entity,
        None => { return None; },
    };
    let components = match scene.get(entity) {
        Some(components) => components,
        None => { return None; },
    };
    match (components.path, components.transform) {
        (Some(path), Some(transform)) => match path.destination {
            Some(to) => Some(Travel { entity, from: transform.translation, to }),
            None => None,
        },
        _ => None,
    }
}

/// The scene after the player's move of one frame. On arrival the player
/// gives up its destination and stays where it is; otherwise it stands at
/// `displaced`. Without a journey nothing changes.
pub open spec fn moved(table: Map<Entity, Components>, step: MotionStep, displaced: Position)
    -> Map<Entity, Components> {
    match travel_in(table) {
        None => table,
        Some(travel) => match step {
            MotionStep::Arrive => table.insert(
                travel.entity,
                table[travel.entity].bound_for(None),
            ),
            MotionStep::Advance { .. } => table.insert(
                travel.entity,
                table[travel.entity].standing_at(displaced),
            ),
        },
    }
}

/// Moves the player for one frame. `distance` is the length of the way that
/// is left, and `displaced` the point that the player reaches in this frame
/// at the speed that `plan_step` gives for that distance. The step taken is
/// the one that `plan_step` decides at `distance`.
pub fn update_player_position(scene: &mut Scene, distance: Scalar, displaced: Position)
    ensures
        final(scene)@ == moved(old(scene)@, step_at(distance), displaced),
        step_at(distance) == step_in_bits(distance),
{
    proof {
        lemma_step_in_bits(distance);
    }
    let travel = match player_travel(scene) {
        Some(travel) => travel,
        None => { return ; },
    };
    let components = match scene.get(travel.entity) {
        Some(components) => components,
        None => { return ; },
    };
    proof {
        lemma_single_is_only(scene@, Query::Traveller, travel.entity);
    }
    match plan_step(distance) {
        MotionStep::Arrive => {
            let stopped = Components {
                player: components.player,
                path: Some(PlayerPath { destination: None }),
                camera: components.camera,
                transform: components.transform,
            };
            scene.attach(travel.entity, stopped);
        },
        MotionStep::Advance { .. } => {
            let shifted = Components {
                player: components.player,
                path: components.path,
                camera: components.camera,
                transform: Some(Transform { translation: displaced }),
            };
            scene.attach(travel.entity, shifted);
        },
    }
}

/// What the camera follows: which camera, where the player stands, and the
/// step from the player to the camera.
#[derive(Clone, Copy, PartialEq, Eq, Debug)]
pub struct Follow {
    pub camera: Entity,
    pub target: Position,
    pub offset: Position,
}

/// What the one camera of `table` follows. There is nothing to follow unless
/// exactly one player and exactly one camera stand in the scene.
pub open spec fn follow_in(table: Map<Entity, Components>) -> Option<Follow> {
    match (single(table, Query::Followed), single(table, Query::Follower)) {
        (Some(player), Some(camera)) => Some(
            Follow {
                camera,
                target: table[player].transform->0.translation,
                offset: table[camera].camera->0.offset,
            },
        ),
        _ => None,
    }
}

/// What the camera follows, if this frame's update has anything to do.
pub fn camera_follow(scene: &Scene) -> (r: Option<Follow>)
    ensures
        r == follow_in(scene@),
{
    let player = scene.single(Query::Followed);
    let camera = scene.single(Query::Follower);
    match (player, camera) {
        (Some(player), Some(camera)) => {
            proof {
                lemma_single_is_only(scene@, Query::Followed, player);
                lemma_single_is_only(scene@, Query::Follower, camera);
            }
            match (scene.get(player), scene.get(camera)) {
                (Some(followed), Some(follower)) => match (followed.transform, follower.camera) {
                    (Some(transform), Some(lens)) => Some(
                        Follow { camera, target: transform.translation, offset: lens.offset },
                    ),
                    _ => None,
                },
                _ => None,
            }
        },
        _ => None,
    }
}

/// The scene after the camera's update of one frame: the camera stands at
/// `placed`. Nothing changes unless exactly one player and one camera exist.
pub open spec fn followed(table: Map<Entity, Components>, placed: Position) -> Map<
    Entity,
    Components,
> {
    match follow_in(table) {
        None => table,
        Some(follow) => table.insert(follow.camera, table[follow.camera].standing_at(placed)),
    }
}

/// Places the camera for one frame. `placed` is the player's position plus
/// the camera's offset, as `camera_follow` gave them. Returns the point that
/// the camera has to look at, the player's position, or nothing where the
/// update was skipped.
pub fn update_player_camera(scene: &mut Scene, placed: Position) -> (looking_at: Option<Position>)
    ensures
        final(scene)@ == followed(old(scene)@, placed),
        looking_at == (match follow_in(old(scene)@) {
            Some(follow) => Some(follow.target),
            None => None,
        }),
{
    let follow = match camera_follow(scene) {
        Some(follow) => follow,
        None => { return None; },
    };
    let components = match scene.get(follow.camera) {
        Some(components) => components,
        None => { return None; },
    };
    proof {
        lemma_single_is_only(scene@, Query::Follower, follow.camera);
    }
    let shifted = Components {
        player: components.player,
        path: components.path,
        camera: components.camera,
        transform: Some(Transform { translation: placed }),
    };
    scene.attach(follow.camera, shifted);
    Some(follow.target)
}

/// What the caller has worked out for one frame: where the camera comes to
/// stand, how far the player is from its destination, and where the player
/// comes to stand if it goes on.
#[derive(Clone, Copy, PartialEq, Eq, Debug)]
pub struct Measures {
    pub placed: Position,
    pub distance: Scalar,
    pub displaced: Position,
}

/// The scene after one frame: the clicks are taken, then the camera is
/// placed, then the player moves.
pub open spec fn frame(
    table: Map<Entity, Components>,
    events: Seq<SetDestination>,
    measures: Measures,
) -> Map<Entity, Components> {
    moved(
        followed(assigned_all(table, events), measures.placed),
        step_at(measures.distance),
        measures.displaced,
    )
}

/// The scene after a run of frames in which nobody clicks.
pub open spec fn quiet_frames(table: Map<Entity, Components>, run: Seq<Measures>) -> Map<
    Entity,
    Components,
>
    decreases run.len(),
{
    if run.len() == 0 {
        table
    } else {
        frame(quiet_frames(table, run.drop_last()), Seq::empty(), run.last())
    }
}

/// Below the arrival distance the player gives up its destination and stays
/// where it stands: it is on no journey any more.
pub proof fn lemma_arrival_stops(
    table: Map<Entity, Components>,
    distance: Scalar,
    displaced: Position,
)
    requires
        travel_in(table) is Some,
        distance.precedes(arrival_distance()),
    ensures
        ({
            let player = travel_in(table)->0.entity;
            let after = moved(table, step_at(distance), displaced);
            &&& after.dom() == table.dom()
            &&& after[player].path == Some(PlayerPath { destination: None })
            &&& after[player].transform == table[player].transform
            &&& only(after, Query::Traveller, player)
            &&& travel_in(after) is None
            &&& forall|other: Entity| other != player ==> after[other] == table[other]
        }),
{
    let player = travel_in(table)->0.entity;
    let after = moved(table, step_at(distance), displaced);
    lemma_single_is_only(table, Query::Traveller, player);
    assert(after.dom() =~= table.dom());
    assert(only(after, Query::Traveller, player)) by {
        assert forall|other: Entity| #[trigger]
            after.contains_key(other) && after[other].fits(Query::Traveller) implies other
            == player by {
            if other != player {
                assert(table.contains_key(other) && table[other].fits(Query::Traveller));
            }
        }
    }
    lemma_single_is_only(after, Query::Traveller, player);
}

/// A frame without clicks leaves a player without destination as it is: it
/// stays the one player, where it stands, going nowhere.
pub proof fn lemma_quiet_frame_keeps_rest(
    table: Map<Entity, Components>,
    player: Entity,
    measures: Measures,
)
    requires
        only(table, Query::Traveller, player),
        table[player].path->0.destination is None,
    ensures
        only(frame(table, Seq::empty(), measures), Query::Traveller, player),
        frame(table, Seq::empty(), measures)[player] == table[player],
{
    let placed = followed(table, measures.placed);
    assert(assigned_all(table, Seq::<SetDestination>::empty()) == table);
    match follow_in(table) {
        Some(follow) => {
            lemma_single_is_only(table, Query::Follower, follow.camera);
            assert(follow.camera != player);
        },
        None => {},
    }
    assert(only(placed, Query::Traveller, player)) by {
        assert forall|other: Entity| #[trigger]
            placed.contains_key(other) && placed[other].fits(Query::Traveller) implies other
            == player by {
            assert(table.contains_key(other) && table[other].fits(Query::Traveller));
        }
    }
    lemma_single_is_only(placed, Query::Traveller, player);
}

/// Once the player has no destination, it stays where it is for as long as
/// nobody clicks, whatever the caller measures in those frames.
pub proof fn lemma_rest_lasts(table: Map<Entity, Components>, player: Entity, run: Seq<Measures>)
    requires
        only(table, Query::Traveller, player),
        table[player].path->0.destination is None,
    ensures
        only(quiet_frames(table, run), Query::Traveller, player),
        quiet_frames(table, run)[player] == table[player],
    decreases run.len(),
{
    if run.len() > 0 {
        lemma_rest_lasts(table, player, run.drop_last());
        lemma_quiet_frame_keeps_rest(quiet_frames(table, run.drop_last()), player, run.last());
    }
}

/// Arrival is final: from the frame in which the player is found below the
/// arrival distance, it has no destination and does not move until somebody
/// clicks again.
pub proof fn lemma_arrival_is_final(
    table: Map<Entity, Components>,
    distance: Scalar,
    displaced: Position,
    run: Seq<Measures>,
)
    requires
        travel_in(table) is Some,
        distance.precedes(arrival_distance()),
    ensures
        ({
            let player = travel_in(table)->0.entity;
            let later = quiet_frames(moved(table, step_at(distance), displaced), run);
            &&& later[player].path == Some(PlayerPath { destination: None })
            &&& later[player].transform == table[player].transform
            &&& travel_in(later) is None
        }),
{
    let player = travel_in(table)->0.entity;
    let arrived = moved(table, step_at(distance), displaced);
    lemma_arrival_stops(table, distance, displaced);
    lemma_rest_lasts(arrived, player, run);
    lemma_single_is_only(quiet_frames(arrived, run), Query::Traveller, player);
}

/// The camera comes to stand where the caller places it, wherever it stood
/// before, and keeps its offset and its player.
pub proof fn lemma_camera_stands_where_placed(table: Map<Entity, Components>, placed: Position)
    requires
        follow_in(table) is Some,
    ensures
        ({
            let follow = follow_in(table)->0;
            let after = followed(table, placed);
            &&& after[follow.camera].transform == Some(Transform { translation: placed })
            &&& follow_in(after) == Some(follow)
            &&& forall|other: Entity| other != follow.camera ==> after[other] == table[other]
        }),
{
    let follow = follow_in(table)->0;
    let after = followed(table, placed);
    let player = single(table, Query::Followed)->0;
    lemma_single_is_only(table, Query::Followed, player);
    lemma_single_is_only(table, Query::Follower, follow.camera);
    assert(player != follow.camera);
    assert(only(after, Query::Followed, player)) by {
        assert forall|other: Entity| #[trigger]
            after.contains_key(other) && after[other].fits(Query::Followed) implies other
            == player by {
            assert(table.contains_key(other) && table[other].fits(Query::Followed));
        }
    }
    assert(only(after, Query::Follower, follow.camera)) by {
        assert forall|other: Entity| #[trigger]
            after.contains_key(other) && after[other].fits(Query::Follower) implies other
            == follow.camera by {
            assert(table.contains_key(other) && table[other].fits(Query::Follower));
        }
    }
    lemma_single_is_only(after, Query::Followed, player);
    lemma_single_is_only(after, Query::Follower, follow.camera);
}

/// No frame changes the offset of a camera, nor which entities there are.
pub proof fn lemma_frame_keeps_offsets(
    table: Map<Entity, Components>,
    events: Seq<SetDestination>,
    measures: Measures,
    entity: Entity,
)
    ensures
        frame(table, events, measures).contains_key(entity) == table.contains_key(entity),
        table.contains_key(entity) ==> frame(table, events, measures)[entity].camera
            == table[entity].camera,
{
    let clicked = assigned_all(table, events);
    let placed = followed(clicked, measures.placed);
    lemma_click_touches_path_only(table, events, entity);
    match follow_in(clicked) {
        Some(follow) => {
            lemma_single_is_only(clicked, Query::Follower, follow.camera);
        },
        None => {},
    }
    match travel_in(placed) {
        Some(travel) => {
            lemma_single_is_only(placed, Query::Traveller, travel.entity);
        },
        None => {},
    }
}

/// One of the updates that run in every frame.
#[derive(Clone, Copy, PartialEq, Eq, Structural, Debug)]
pub enum Update {
    /// The clicks give their targets a destination.
    Destinations,
    /// The camera is placed beside the player.
    Camera,
    /// The player moves towards its destination.
    Position,
}

/// The scene after `updates`, one after the other.
pub open spec fn updated(
    table: Map<Entity, Components>,
    updates: Seq<Update>,
    events: Seq<SetDestination>,
    measures: Measures,
) -> Map<Entity, Components>
    decreases updates.len(),
{
    if updates.len() == 0 {
        table
    } else {
        let earlier = updated(table, updates.drop_last(), events, measures);
        match updates.last() {
            Update::Destinations => assigned_all(earlier, events),
            Update::Camera => followed(earlier, measures.placed),
            Update::Position => moved(earlier, step_at(measures.distance), measures.displaced),
        }
    }
}

/// Says which updates a frame runs, and in which order.
#[derive(Clone, Copy, PartialEq, Eq, Debug)]
pub struct PlayerCameraPlugin;

impl PlayerCameraPlugin {
    /// The updates of a frame in which `pending` clicks wait: the camera,
    /// then the player, and before both the clicks, if there are any.
    pub open spec fn schedule(pending: nat) -> Seq<Update> {
        if pending == 0 {
            seq![Update::Camera, Update::Position]
        } else {
            seq![Update::Destinations, Update::Camera, Update::Position]
        }
    }

    /// The updates to run in a frame in which `pending` clicks wait.
    pub fn updates(&self, pending: usize) -> (r: Vec<Update>)
        ensures
            r@ == Self::schedule(pending as nat),
    {
        let mut r: Vec<Update> = Vec::new();
        if pending > 0 {
            r.push(Update::Destinations);
        }
        r.push(Update::Camera);
        r.push(Update::Position);
        proof {
            assert(r@ =~= Self::schedule(pending as nat));
        }
        r
    }
}

/// To leave the clicks out of a frame without clicks changes nothing: the
/// scheduled updates make the frame.
pub proof fn lemma_schedule_makes_frame(
    table: Map<Entity, Components>,
    events: Seq<SetDestination>,
    measures: Measures,
)
    ensures
        updated(table, PlayerCameraPlugin::schedule(events.len()), events, measures) == frame(
            table,
            events,
            measures,
        ),
{
    let updates = PlayerCameraPlugin::schedule(events.len());
    reveal_with_fuel(updated, 4);
    if events.len() == 0 {
        assert(updates.drop_last() =~= seq![Update::Camera]);
        assert(updates.drop_last().drop_last() =~= Seq::<Update>::empty());
    } else {
        assert(updates.drop_last() =~= seq![Update::Destinations, Update::Camera]);
        assert(updates.drop_last().drop_last() =~= seq![Update::Destinations]);
        assert(updates.drop_last().drop_last().drop_last() =~= Seq::<Update>::empty());
    }
}

} // verus!
