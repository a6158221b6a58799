//! Microbubble sizing from microscopy images: what is done with the detections of a model,
//! from picking them out of its output to the tables and pictures that are exported, and the
//! state of the program around it.
//!
//! Measurements are single-precision numbers, which [`scalar`] carries by their bits and
//! compares. Arithmetic on them is left to the caller: a function that needs some takes a
//! closure, and its contract speaks of what that closure gives (see [`calc`]).
pub mod app;
pub mod calc;
pub mod decoding;
pub mod export_panel;
pub mod exporter;
pub mod histogram;
pub mod inference;
pub mod letterbox;
pub mod model;
pub mod picture;
pub mod results;
pub mod run;
pub mod scalar;
pub mod settings;
pub mod sorting;
pub mod static_filter;
pub mod statistics;
pub mod text;
pub mod types;
pub mod updater;
pub mod updater_ui;
pub mod viewer;
pub mod workspace;
