//! The movement and camera core of a click-to-move scene: which entity a
//! click sends where, how fast the player travels and when it has arrived,
//! and where the camera stands.

pub mod scalar;
pub mod position;
pub mod scene;
pub mod motion;
pub mod player_camera;
pub mod floor;
