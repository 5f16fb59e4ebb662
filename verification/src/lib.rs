//! A library that turns the textual database printed by a build tool's
//! database-dump mode into a graph description for a visualization tool.
//!
//! The work happens in two stages. The parser scans the input lines for the
//! database header and the files section, then collects one record per
//! dependency line: a target name and its prerequisite names. The emitter
//! walks those records in order, assigns each distinct (escaped) name a
//! short node identifier, classifies every name as internal (it appears as
//! a target somewhere) or leaf (it only ever appears as a prerequisite),
//! and renders one node declaration per distinct name plus one edge per
//! dependency.

pub mod emitter;
pub mod laws;
pub mod parser;
pub mod text;
