//! Ticket workflow library: ranking, dependency trees, catalog text and helpers.
pub mod text;
pub mod workflow;
pub mod effort;
pub mod catalog;
pub mod vscode;
pub mod auth;
pub mod cli;
pub mod serve;
pub mod watch;
pub mod graph;
pub mod human;
pub mod board_render;
pub mod batch;
pub mod edges;
pub mod depths;
pub mod status;
pub mod health;
pub mod history;
pub mod next;
pub mod scope;
pub mod resolve;
