//! Decision logic of an FT8 station.

pub mod collections;
pub mod dsp;
pub mod ft8_codec;
pub mod ft8_qso;
pub mod numbers;
pub mod outside;
pub mod patterns;
pub mod radio_ctrl;
pub mod tasks;
pub mod text;
pub mod types;
pub mod utils;
pub mod wire;
pub mod ws_server;
