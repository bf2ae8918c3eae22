//! What the indices share.

pub mod clock;
pub mod dist;
pub mod float;
pub mod math;
pub mod matrix;
pub mod memory;
pub mod ordered;
pub mod random;
pub mod search_state;
