use vstd::prelude::*;

pub mod app;
pub mod db;
pub mod keyed_map;
pub mod laws;
pub mod listener;
pub mod text;
