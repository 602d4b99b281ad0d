//! Batch image overlay: the verified core of PicPatcher.
pub mod batch;
pub mod compose;
pub mod config;
pub mod editor;
pub mod fonts;
pub mod format;
pub mod path;
pub mod text;

pub use batch::{
    collect_files, output_path_for, parse_extensions, plan_batch, BatchOptions, BatchSummary,
    OutputMode, PlannedFile,
};
pub use compose::{apply_to_image, PixelBuffer, Rgba};
pub use config::{Config, CONFIG_VERSION};
