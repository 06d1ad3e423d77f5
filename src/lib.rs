//! An arena-backed directed acyclic graph with stable integer handles,
//! edge counting, cycle detection and transitive reduction.

use vstd::prelude::*;

pub mod count;
pub mod cycle;
pub mod dag;
pub mod laws;
pub mod reduce;
pub mod walks;

pub use dag::{Dag, DagError, Node, NodeId};
