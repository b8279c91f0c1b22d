//! Tooling, rack scheduling, edge stitching and update-channel logic of k2g,
//! the KiCad-to-G-code CAM application, with machine-checked contracts.

pub mod text;
pub mod model;
pub mod rack;
pub mod holes;
pub mod routing;
pub mod steps;
pub mod rack_spec;
pub mod update;
pub mod stitching;
pub mod plan;
pub mod ui_text;
pub mod step_doc;
pub mod step_setup;
pub mod cnc_schema;
pub mod binding;
pub mod profile_files;
