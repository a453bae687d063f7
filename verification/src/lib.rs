//! The window-management logic of dwm: tag sets, client lists, focus,
//! size hints, rules and layouts, kept apart from the X server.
use vstd::prelude::*;

pub mod arrange;
pub mod bar;
pub mod config;
pub mod events;
pub mod geom;
pub mod layouts;
pub mod lookup;
pub mod manage;
pub mod mouse;
pub mod rules;
pub mod seqs;
pub mod tags;
pub mod wm;

verus! {
}
