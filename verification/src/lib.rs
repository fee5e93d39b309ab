//! Mass-spring model topology: the masses and springs of a soft-body model,
//! the index bookkeeping that keeps every spring attached to two distinct
//! masses, collision layers, and the pairing of masses that collide.
//!
//! The physical quantities of masses and springs are carried as opaque
//! payloads (`M`, `S`); the library manages where they live and how they are
//! connected.

pub mod spring;
pub mod layer;
pub mod model;
pub mod laws;
pub mod collide;
pub mod actuator;
pub mod loader;
pub mod step;

pub use actuator::{MassActuatorType, SpringActuatorType};
pub use layer::CollisionLayer;
pub use loader::{CollisionLayerData, MassActuatorDataType, MetaData, SpringActuatorDataType};
pub use model::{Model, PhyzzyModelError};
pub use spring::Spring;
pub use step::{mass_step, MassStep};
