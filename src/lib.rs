pub mod calibration;
pub mod garden;
pub mod keypad;
pub mod market;
pub mod robots;
pub mod stones;
pub mod text;
pub mod towels;
pub mod utils;
