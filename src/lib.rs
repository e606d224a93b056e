//! Decimal numbers packed in 32-bit words, and arithmetic that works on the
//! packed digits without floating point.
pub mod accurate_float;
pub mod af32_struct;
pub mod digits;
pub mod math;
pub mod util;

pub use accurate_float::AccurateFloat;
pub use af32_struct::af32;
pub use math::AccurateOps;
pub use util::AfError;
