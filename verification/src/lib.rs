//! Gas flares and methane plumes in Sentinel-2 imagery: the rules of the detector.
pub mod aoi;
pub mod archive;
pub mod calendar;
pub mod catalogue;
pub mod clouds;
pub mod detect;
pub mod discover;
pub mod envelope;
pub mod json;
pub mod lines;
pub mod manifest;
pub mod number;
pub mod paths;
pub mod review;
pub mod stac;
pub mod table;
pub mod text;
pub mod triage;
pub mod verify;
pub mod view;
