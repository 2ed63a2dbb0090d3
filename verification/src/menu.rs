//! What the menu offers, and the options that a run from the menu uses.

use vstd::prelude::*;
use crate::record_manager::RecordOptions;

verus! {

/// What can be chosen in the main menu.
#[derive(Clone, Copy, Debug, PartialEq, Eq, Structural)]
pub enum MenuAction {
    OrganizeNow,
    CreateGalleryShortcuts,
    EnsureStructure,
    Exit,
}

/// The menu.
pub struct Menu;

impl Menu {
    /// The options for a run from the menu: every category, misplaced files
    /// included. Nothing is asked.
    pub fn ask_record_options() -> (options: RecordOptions)
        ensures
            options@.target_types.len() == 0,
            options@.check_misplaced,
    {
        RecordOptions::default()
    }

    /// The question that is put before a plan is applied.
    pub fn confirmation_message(action_count: usize) -> (message: &'static str)
        ensures
            message@ == if action_count == 0 {
                "変更を適用しますか？"@
            } else {
                "上記の変更を適用しますか？"@
            },
    {
        if action_count == 0 {
            "変更を適用しますか？"
        } else {
            "上記の変更を適用しますか？"
        }
    }
}

} // verus!
