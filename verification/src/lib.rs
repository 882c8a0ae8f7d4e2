//! Schedule-generation engine: given a catalog of course offerings (each with
//! weekly meeting slots) and a request (desired subjects, an optional
//! professor filter, a minimum subject count), enumerate the maximal sets of
//! offerings that can be taken together without any weekly time conflict.

pub mod assembler;
pub mod auth;
pub mod cliques;
pub mod controller;
pub mod graph;
pub mod grouper;
pub mod laws;
pub mod model;
pub mod numfmt;
pub mod projector;
pub mod text;
pub mod time_overlap;
