//! A parent-linked forest of election-graph vertices.
//!
//! Every vertex is identified by a principal and a role, and stores at most one
//! parent. The forest owns the vertices; callers hold small copyable handles.
//! The central operation walks the parent chain of a vertex up to the vertex at
//! which the chain ends, and reports the vertices passed on the way.

pub mod ascent;
pub mod identity;
pub mod node;
