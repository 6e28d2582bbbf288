//! A single-process monitor: the state, decisions and text formatting behind
//! a live dashboard of one process and an interactive process picker.
pub mod cli;
pub mod config;
pub mod text;
pub mod ui;
pub mod names;
pub mod process;
pub mod monitor;
pub mod app;
pub mod input;
pub mod picker;
