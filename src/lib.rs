use vstd::prelude::*;

pub mod grid;
pub mod rng;
pub mod config;
pub mod maze;
pub mod nav;
pub mod mesh;
pub mod prune;
pub mod doors;
pub mod rooms;
pub mod generate;
pub mod los;
pub mod path;
pub mod systems;
pub mod animation;
pub mod components;
pub mod spawn;
pub mod sprites;
