//! ameSCII: weather-map logic for a character terminal.
//!
//! The library holds the rules: how rain and map lines become braille cells,
//! which names fit on the map, which radar images make the timeline, what tiles
//! are kept, how the measurements of several sources become one, and what keys
//! and time do to the state of the program. Each is a function with a contract.
//!
//! Measured values and coordinates are held as IEEE 754 bit patterns (see
//! [`ieee`]): the library compares and selects them. Arithmetic on them is the
//! caller's, who hands in its results, or the functions that compute them.

pub mod agg;
pub mod app;
pub mod basemap;
pub mod cache;
pub mod calendar;
pub mod clock;
pub mod config;
pub mod error;
pub mod geo;
pub mod grid;
pub mod ieee;
pub mod input;
pub mod model;
pub mod places;
pub mod providers;
pub mod radar;
pub mod render;
pub mod schedule;
pub mod storage;
pub mod text;
pub mod ui;
pub mod width;
