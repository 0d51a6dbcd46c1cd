//! Screen-space silhouette outlines computed with the jump flooding
//! algorithm.
//!
//! A frame is a one-directional chain of passes over buffers of one size:
//!
//! 1. the mask pass marks the pixels that outlined meshes cover
//!    ([`mask`], [`coverage`]);
//! 2. seed initialisation stores in every covered pixel its own coordinate
//!    and in every other pixel a sentinel ([`seed`]);
//! 3. the jump flood spreads the coordinates with a halving sequence of
//!    jump distances, alternating between two buffers
//!    ([`steps`], [`jfa`], [`pingpong`]);
//! 4. the composite turns the distance to the stored coordinate into an
//!    opacity and blends the style's colour over the colour target
//!    ([`outline`], [`target`]).
//!
//! [`graph`] describes the chain and what each pass reads and writes,
//! [`resources`] owns the buffers and rebuilds them together when the
//! resolution changes, and [`pipeline_key`] decides which colour target
//! formats the composite can blend into. What holds of the passes for every
//! input is proved in [`flood_laws`] and [`outline_laws`]; [`bound_laws`]
//! bounds the error of the flood for every mask, [`edge_laws`] and
//! [`stripe_laws`] show it exact for straight edges and for shapes made of
//! whole columns.
//!
//! Distances and widths are fixed-point numbers with
//! [`outline::SUBPIXEL`] units per pixel, colours have eight bits per
//! channel.

pub mod bound_laws;
pub mod coverage;
pub mod dimensions;
pub mod edge_laws;
pub mod error;
pub mod flood_laws;
pub mod graph;
pub mod jfa;
pub mod mask;
pub mod outline;
pub mod outline_laws;
pub mod pingpong;
pub mod pipeline_key;
pub mod resources;
pub mod seed;
pub mod settings;
pub mod steps;
pub mod stripe_laws;
pub mod target;
