//! Keeps a set of image tiles in step with the image files found under a set
//! of watched directories: a rate-limited recursive scan, a diff against the
//! tiles that already exist, and a deterministic square-grid layout for the
//! new ones.
pub mod extension;
pub mod scan;
pub mod grid;
pub mod reconcile;

pub use extension::is_supported_image;
pub use grid::{calculate_grid_position, grid_size_for, GridPosition};
pub use reconcile::{slap_img_on_quad, QuadPlan, QuadSpawn};
pub use scan::{collect_images_recursive, Node, ScanWarning, WatchedDirs, DEFAULT_SCAN_INTERVAL};
