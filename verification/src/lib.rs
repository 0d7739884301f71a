//! The workings of launchr, a Wayland application launcher: what it can launch,
//! how a query is matched and ranked, the launch counts it keeps, its settings,
//! and the blurred picture behind its window.

pub mod apps;
pub mod blur;
pub mod capture;
pub mod cli;
pub mod config;
pub mod matcher;
pub mod number;
pub mod order;
pub mod path;
pub mod rank;
pub mod startup;
pub mod text;
pub mod ui;
pub mod usage;
pub mod weight;
