//! Terminal project time tracking: the store, the shell hook, the command line, the HTTP interface
//! and the dashboard, as functions on plain values.
pub mod accounts;
pub mod api;
pub mod chronology;
pub mod cli;
pub mod clock;
pub mod config;
pub mod dashboard;
pub mod dates;
pub mod db;
pub mod duration;
pub mod error;
pub mod hook;
pub mod loading;
pub mod models;
pub mod overviews;
pub mod panels;
pub mod paths;
pub mod project_commands;
pub mod prompts;
pub mod readback;
pub mod registry;
pub mod report;
pub mod rows;
pub mod schema;
pub mod service;
pub mod shell;
pub mod storage;
pub mod storing;
pub mod tags;
pub mod text;
pub mod timers;
pub mod tracking;
pub mod upkeep;
