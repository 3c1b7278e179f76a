//! The core of a performance monitor for Apple Silicon.
//!
//! A sample ([`metrics`]) goes into the dashboard ([`app`]), which keeps short histories of it
//! ([`stores`]), the peaks and averages of the session ([`peaks`]) and a log ([`session_log`]), and
//! which says what is to be drawn where ([`panels`], [`screen`]). A second log ([`sample_log`]) is
//! kept without a dashboard. Readings are binary floating-point numbers; [`ieee`] computes with
//! them exactly as a machine does, on their bits.
//!
//! What holds of the library as a whole is stated as laws. Those on texts are stated from the side
//! of the reader ([`reading`]): what can be read from the logs ([`log_laws`], [`sample_laws`]) and
//! from the panels ([`panel_laws`]). Those on numbers are stated by exact values ([`float_laws`],
//! [`heat_laws`]).

pub mod app;
pub mod clock;
pub mod control;
pub mod decimal;
pub mod float_laws;
pub mod format;
pub mod heat_laws;
pub mod ieee;
pub mod log_laws;
pub mod metrics;
pub mod panel_laws;
pub mod panels;
pub mod peaks;
pub mod reading;
pub mod report;
pub mod rounding;
pub mod sample_laws;
pub mod sample_log;
pub mod screen;
pub mod session_log;
pub mod stores;
pub mod text;
