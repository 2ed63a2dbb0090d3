//! Organizing a folder of captures — screenshots, screen recordings, voice
//! recordings and stray media — into folders by category and month, under
//! canonical names, without overwriting anything.
//!
//! The library decides and never touches the file system. It is handed a
//! scan of the folder as a list of entries and hands back a plan; for a
//! plan it hands back the file system operations that carry it out. What
//! it decides is stated in contracts and proved:
//!
//! - `record_manager`, `scanner`, `timestamp`, `paths`, `text`: the
//!   vocabulary;
//! - `classify`, `naming`, `target`: category, canonical names, target
//!   folder and collision-free target path of a file;
//! - `planner`, `sorting`: the plan; `applier`: applying it and tidying up;
//! - `plan_laws`, `source_laws`, `folder_laws`, `apply_laws`,
//!   `cleanup_laws`, `settled`, `stability`, `idempotence`, with
//!   `fs_model`: what holds of every plan;
//! - `structure`, `structure_manager`, `recommender`, `executor`,
//!   `gallery_manager`, `menu`: the standard layout of a drive and what
//!   goes with it.

pub mod text;
pub mod paths;
pub mod timestamp;
pub mod scanner;
pub mod record_manager;
pub mod naming;
pub mod classify;
pub mod target;
pub mod sorting;
pub mod planner;
pub mod applier;
pub mod plan_laws;
pub mod source_laws;
pub mod folder_laws;
pub mod fs_model;
pub mod settled;
pub mod stability;
pub mod idempotence;
pub mod apply_laws;
pub mod cleanup_laws;
pub mod structure;
pub mod structure_manager;
pub mod recommender;
pub mod executor;
pub mod gallery_manager;
pub mod menu;
