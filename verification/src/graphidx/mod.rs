//! Indexes over rooted trees and weights attached to their nodes or edges.
pub mod tree;
pub mod weights;
