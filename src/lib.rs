pub mod types;
pub mod cycles;
pub mod pseudo_cycle;
pub mod read;
pub mod write;
pub mod history;
pub mod command;
