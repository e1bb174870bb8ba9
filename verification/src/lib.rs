//! Integer-valued core of a bike-fit solver: wheel sizes, spacer catalogs
//! and the spacer-stack arithmetic the fit solver relies on.
//!
//! Lengths are in whole millimeters.

pub mod coin_change;
pub mod fewest;
pub mod frame;
pub mod mode;
pub mod presets;
pub mod spacer;
pub mod style;
pub mod share;
pub mod solver;
pub mod text;

pub use frame::WheelSize;
pub use mode::AppMode;
pub use spacer::{Spacer, SpacerCatalog};
pub use style::{background_for_key, Rgb};
pub use solver::{BuildError, SpacerStack};
pub use text::{spacer_breakdown_text, spacer_sku_summary, stem_summary_text};
