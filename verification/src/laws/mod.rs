//! What holds of the controllers as a whole.

pub mod avoidance;
pub mod cube_root;
pub mod cubic;
pub mod curve;
pub mod events;
pub mod formulas;
pub mod friendly;
pub mod loss;
pub mod newton;
pub mod offset;
pub mod reno;
