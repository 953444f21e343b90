//! Invariant checks over a recorded log of pixel-paint events.
//!
//! Many artists paint pixels onto one canvas, and every paint event is
//! written to a log. This library reads such a log ([`parse`]), folds it
//! into a model ([`canvas`], [`model`]) and checks what must hold of it:
//! the number of artists and of their pixels ([`cardinality`]), one artist
//! for each colour ([`uniqueness`]), no coordinate with two artists
//! ([`overlap`]), one island for each artist ([`connectivity`]) and no shape
//! drawn twice ([`pattern`]). [`report`] runs them all.

pub mod geometry;
pub mod order;
pub mod point_set;
pub mod views;
pub mod listing;
pub mod model;
pub mod canvas;
pub mod parse;
pub mod serialize;
pub mod cardinality;
pub mod uniqueness;
pub mod overlap;
pub mod connectivity;
pub mod pattern;
pub mod report;
