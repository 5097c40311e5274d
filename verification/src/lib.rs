//! TCP congestion control: the Reno and CUBIC controllers.

pub mod binary64;
pub mod cube_root;
pub mod cubic;
pub mod dyadic;
pub mod laws;
pub mod reno;
pub mod rtt;
pub mod time;
pub mod window;

pub use binary64::Binary64;
pub use cube_root::cube_root;
pub use cubic::Cubic;
pub use reno::Reno;
pub use rtt::RttEstimator;
pub use time::Instant;
