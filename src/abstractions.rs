pub mod interval_abstraction;
pub mod sign_abstraction;
