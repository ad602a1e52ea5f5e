//! Raster images to compact vector artwork.

pub mod area;
pub mod artifacts;
pub mod auto;
pub mod bends;
pub mod bounds;
pub mod centres;
pub mod cluster;
pub mod color;
pub mod compare;
pub mod components;
pub mod config;
pub mod corners;
pub mod cracks;
pub mod despeckle;
pub mod export;
pub mod filter;
pub mod fitting;
pub mod groupings;
pub mod lattice;
pub mod model;
pub mod order;
pub mod palette;
pub mod path;
pub mod picker;
pub mod profile;
pub mod pure;
pub mod quantize;
pub mod ranking;
pub mod raster;
pub mod regions;
pub mod report;
pub mod rings;
pub mod score;
pub mod search;
pub mod segment;
pub mod session;
pub mod smoothing;
pub mod subpixel;
pub mod suite;
pub mod synth;
pub mod text;
pub mod topology;
pub mod trace;
pub mod tuning;
pub mod twotone;
pub mod vectorize;
pub mod worker;
