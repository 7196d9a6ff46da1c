pub mod control_analyzer;
pub mod loop_analyzer;
