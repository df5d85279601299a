//! Minimum-time route planning on a directed track graph under two
//! consumable resources: fuel and tyre wear.
//!
//! A label-setting, Dijkstra-style search explores states of the form
//! (lap, node, remaining fuel, accumulated tyre distance). Travelling an
//! edge costs its distance plus a linear tyre-wear penalty beyond a wear
//! threshold; at designated pit nodes both resources may be reset at a
//! fixed time penalty. The search returns the optimal node sequence, its
//! total time, and the pit stops taken, or reports that no feasible route
//! exists.

pub mod graph;
pub mod model;
pub mod race;
pub mod search;
pub mod table;
