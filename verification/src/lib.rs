//! ORCA: agent orchestration with verified planning, validation and state logic.
pub mod agent;
pub mod agent_backend;
pub mod artifacts;
pub mod cli;
pub mod completion;
pub mod config;
pub mod defaults;
pub mod desktop;
pub mod errors;
pub mod executor;
pub mod goal;
pub mod graph;
pub mod gui;
pub mod keyed;
pub mod loading;
pub mod model;
pub mod orchestrator;
pub mod output;
pub mod paths;
pub mod planner;
pub mod scheduler;
pub mod settings;
pub mod split;
pub mod text;
pub mod tui;
