pub mod coords;
pub mod map;
pub mod navigation;
pub mod visibility;
pub mod pathfinding;
pub mod channel;
pub mod world;
