pub mod ram;
pub mod display;
pub mod cpu;
