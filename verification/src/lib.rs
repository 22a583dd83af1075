//! The Brutal congestion controller.
#![allow(unused_imports)]

pub mod accuracy;
pub mod arithmetic;
pub mod binary64;
pub mod config;
pub mod controller;
pub mod datum;
pub mod history;
pub mod laws;
pub mod meaning;
pub mod model;
pub mod order;
pub mod packing;
pub mod rounding;
pub mod sampling;
pub mod time;
