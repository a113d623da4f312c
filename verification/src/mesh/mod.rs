pub mod padded;
pub mod quad;
pub mod sweep;
pub mod greedy;
pub mod neighborhood;
