//! A verified transaction pool core: coin entities, collision detection over
//! exclusive resources, dependency-closed removal and bounded selection.

pub mod coins;
pub mod collision_manager;
pub mod dependency;
pub mod error;
pub mod pool;
pub mod ports;
pub mod selector;
