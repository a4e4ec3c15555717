//! Runs loose Rust source files as a program: reads dependency headers from the
//! sources, synthesises a manifest, lays the files out as a project, and keys a
//! reusable build directory by the set of input paths.

pub mod cargo;
pub mod digest;
pub mod errors;
pub mod opt;
pub mod paths;
pub mod steps;
pub mod table;
pub mod text;

pub use cargo::{CargoManifest, CargoPackage};
pub use errors::CargoPlayError;
pub use opt::{CargoAction, CargoProfile, Dependency, Opt, PlayArgs, RustEdition};
pub use steps::{
    cached_binary, cargo_args, check_export_destination, exit_code, extract_headers,
    run_action, source_layout, temp_dir,
};
