//! The logic of a keyboard-driven image culling tool: bucket configuration,
//! per-image metadata, the session with its reversible moves, checking a
//! metadata file against a folder, luminance histograms, and what the image
//! viewer shows and does with a key, apart from the toolkit that draws it.

pub mod text;
pub mod numeric;
pub mod paths;
pub mod assoc;
pub mod sortkey;
pub mod metadata;
pub mod buckets;
pub mod model;
pub mod editing;
pub mod check;
pub mod scan;
pub mod tone;
pub mod guide;
pub mod ui;
pub mod keys;
pub mod window;
pub mod launcher;
