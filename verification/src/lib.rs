//! Selection-range mutation engine for a modal editor's visual and
//! visual-line modes: extending a selection as motions arrive, and computing
//! the exact text range to remove when a change or delete is committed,
//! including the whole-line merge policy and per-cursor column restoration.

pub mod display_map;
pub mod position;
pub mod selection;
pub mod visual;
