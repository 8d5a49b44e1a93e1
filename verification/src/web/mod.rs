pub mod control;
pub mod frame;
