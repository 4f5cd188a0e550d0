//! A turn-based battle between two teams of small animals.
//!
//! Each round the two animals at the front of their teams strike each other at
//! once; whoever is left without health is then taken off the field. The battle
//! is over as soon as a team is empty.

pub mod animal;
pub mod roster;
pub mod scene;
pub mod guarantees;
pub mod identity;
pub mod canvas;
