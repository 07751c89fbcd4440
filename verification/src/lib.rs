//! Affix alarm logic for Path of Exile items: reading clipboard item dumps,
//! matching modifier lines against user rule sets, and the decisions of the
//! monitor and the clipboard field harness, each stated and proved.
use vstd::prelude::*;

pub mod text;
pub mod classify;
pub mod sections;
pub mod rules;
pub mod item;
pub mod decimal;
pub mod matching;
pub mod item_text;
pub mod lab;
pub mod clipboard;
pub mod editor;
pub mod view_state;
pub mod ocr_language;
pub mod monitor;
pub mod stats;
pub mod polling;
pub mod library;
pub mod hud_placement;
pub mod gray_image;
pub mod tick;

verus! {
} // verus!
