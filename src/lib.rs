//! A width-aware layout engine for source formatting: split groups stored in an
//! arena, a renderer that decides per group whether to break lines, comment
//! reattachment, and list combinators built from those primitives.
pub mod sg;
pub mod render;
pub mod state;
pub mod lists;
pub mod driver;
