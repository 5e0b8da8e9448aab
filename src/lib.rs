//! The core of a retained-mode widget tree: exact box-constraint layout
//! algebra, an arena of widgets with aggregated validity flags, and the
//! mutation entry points that keep those flags consistent.

pub mod size;
pub mod box_constraints;
pub mod properties;
pub mod widget_arena;
pub mod mutate;
pub mod image;
