use arpg::player_camera::{Player, PlayerCamera, PlayerPath};
use arpg::position::Position;
use arpg::scene::{Components, Entity, Query, Scene, Transform};

fn player_at_origin() -> Components {
    Components {
        player: Some(Player),
        path: Some(PlayerPath { destination: None }),
        camera: None,
        transform: Some(Transform { translation: Position::zero() }),
    }
}

fn camera_at_origin() -> Components {
    Components {
        player: None,
        path: None,
        camera: Some(PlayerCamera { offset: Position::zero() }),
        transform: Some(Transform { translation: Position::zero() }),
    }
}

#[test]
fn new_scene_holds_nothing() {
    let scene = Scene::new();
    assert_eq!(scene.get(Entity { id: 0 }), None);
    assert_eq!(scene.single(Query::Pathed), None);
    assert_eq!(scene.single(Query::Traveller), None);
    assert_eq!(scene.single(Query::Followed), None);
    assert_eq!(scene.single(Query::Follower), None);
}

#[test]
fn spawn_adds_an_entity_once() {
    let mut scene = Scene::new();
    assert!(scene.spawn(Entity { id: 7 }, player_at_origin()));
    assert_eq!(scene.get(Entity { id: 7 }), Some(player_at_origin()));
    assert!(!scene.spawn(Entity { id: 7 }, camera_at_origin()));
    assert_eq!(scene.get(Entity { id: 7 }), Some(player_at_origin()));
    assert_eq!(scene.get(Entity { id: 8 }), None);
}

#[test]
fn attach_replaces_what_is_there_and_adds_nothing() {
    let mut scene = Scene::new();
    assert!(!scene.attach(Entity { id: 1 }, player_at_origin()));
    assert_eq!(scene.get(Entity { id: 1 }), None);
    assert!(scene.spawn(Entity { id: 1 }, Components::bare()));
    assert!(scene.spawn(Entity { id: 2 }, Components::bare()));
    assert!(scene.attach(Entity { id: 1 }, player_at_origin()));
    assert_eq!(scene.get(Entity { id: 1 }), Some(player_at_origin()));
    assert_eq!(scene.get(Entity { id: 2 }), Some(Components::bare()));
}

#[test]
fn bare_components_fit_no_query() {
    let bare = Components::bare();
    assert_eq!(bare.player, None);
    assert_eq!(bare.path, None);
    assert_eq!(bare.camera, None);
    assert_eq!(bare.transform, None);
    assert!(!bare.matches(Query::Pathed));
    assert!(!bare.matches(Query::Traveller));
    assert!(!bare.matches(Query::Followed));
    assert!(!bare.matches(Query::Follower));
}

#[test]
fn queries_ask_for_the_right_components() {
    let player = player_at_origin();
    assert!(player.matches(Query::Pathed));
    assert!(player.matches(Query::Traveller));
    assert!(player.matches(Query::Followed));
    assert!(!player.matches(Query::Follower));

    let camera = camera_at_origin();
    assert!(!camera.matches(Query::Pathed));
    assert!(!camera.matches(Query::Traveller));
    assert!(!camera.matches(Query::Followed));
    assert!(camera.matches(Query::Follower));

    let unplaced = Components { transform: None, ..player_at_origin() };
    assert!(unplaced.matches(Query::Pathed));
    assert!(!unplaced.matches(Query::Traveller));
    assert!(!unplaced.matches(Query::Followed));

    let pathless = Components { path: None, ..player_at_origin() };
    assert!(!pathless.matches(Query::Pathed));
    assert!(!pathless.matches(Query::Traveller));
    assert!(pathless.matches(Query::Followed));

    let player_with_lens = Components { player: Some(Player), ..camera_at_origin() };
    assert!(!player_with_lens.matches(Query::Follower));
}

#[test]
fn a_path_alone_makes_an_entity_pathed() {
    let unmarked = Components { player: None, ..player_at_origin() };
    assert!(unmarked.matches(Query::Pathed));
    assert!(!unmarked.matches(Query::Traveller));
    assert!(!unmarked.matches(Query::Followed));

    let only_path = Components {
        path: Some(PlayerPath { destination: None }),
        ..Components::bare()
    };
    assert!(only_path.matches(Query::Pathed));

    let mut scene = Scene::new();
    scene.spawn(Entity { id: 1 }, camera_at_origin());
    scene.spawn(Entity { id: 2 }, unmarked);
    assert_eq!(scene.single(Query::Pathed), Some(Entity { id: 2 }));
    scene.spawn(Entity { id: 3 }, player_at_origin());
    assert_eq!(scene.single(Query::Pathed), None);
    assert_eq!(scene.single(Query::Traveller), Some(Entity { id: 3 }));
}

#[test]
fn single_finds_the_only_match() {
    let mut scene = Scene::new();
    scene.spawn(Entity { id: 10 }, Components::bare());
    scene.spawn(Entity { id: 11 }, camera_at_origin());
    scene.spawn(Entity { id: 12 }, player_at_origin());
    scene.spawn(Entity { id: 13 }, Components::bare());
    assert_eq!(scene.single(Query::Traveller), Some(Entity { id: 12 }));
    assert_eq!(scene.single(Query::Pathed), Some(Entity { id: 12 }));
    assert_eq!(scene.single(Query::Followed), Some(Entity { id: 12 }));
    assert_eq!(scene.single(Query::Follower), Some(Entity { id: 11 }));
}

#[test]
fn single_finds_nothing_among_two_matches() {
    let mut scene = Scene::new();
    scene.spawn(Entity { id: 1 }, player_at_origin());
    scene.spawn(Entity { id: 2 }, camera_at_origin());
    scene.spawn(Entity { id: 3 }, player_at_origin());
    assert_eq!(scene.single(Query::Traveller), None);
    assert_eq!(scene.single(Query::Followed), None);
    assert_eq!(scene.single(Query::Follower), Some(Entity { id: 2 }));
    scene.spawn(Entity { id: 4 }, camera_at_origin());
    assert_eq!(scene.single(Query::Follower), None);
}
