//! Earliest-arrival routing over a calendar-qualified timetable.
//!
//! The crate models a feed of scheduled trips, decides on which dates a
//! trip runs, expands the trips valid on one date into a time-expanded
//! connection graph, and answers shortest-path queries over that graph.

pub mod calendar;
pub mod connection_graph;
pub mod digraph;
pub mod feed;
pub mod xml_path;
