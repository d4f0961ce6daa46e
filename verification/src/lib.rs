//! Decision logic of a tray supervisor for a small stack of backend services.
use vstd::prelude::*;

pub mod policy;
pub mod env_map;
pub mod service;
pub mod supervisor;
pub mod text;
pub mod stack;
pub mod ui;
pub mod laws;
pub mod lifecycle;
