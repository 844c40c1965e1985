//! Verified core of CodexTool: input validation, text normalisation, token
//! accounting and the other decisions the desktop app and CLI make.

mod order;
mod text;
pub mod text_map;

pub mod account_store;
pub mod analytics_log;
pub mod command_line;
pub mod cost_report;
pub mod desktop;
pub mod ldxp_store;
pub mod models;
pub mod provider_sync;
pub mod record_hash;
pub mod session_log;
pub mod settings_service;
pub mod skill_market;
pub mod skin_market;
pub mod token_usage;
pub mod tray;
pub mod tray_visual;

pub use command_line::run_cli_from_env;
pub use command_line::try_run_cli_from_env;
