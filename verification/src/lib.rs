pub mod text;
pub mod pathing;
pub mod assoc;
pub mod memory;
pub mod types;
pub mod config;
pub mod file_ops;
pub mod sort;
pub mod daemon;
pub mod queues;
pub mod metadata;
pub mod ui;
pub mod launch_agent;
pub mod manager;
pub mod panel_state;
pub mod panel_app;
