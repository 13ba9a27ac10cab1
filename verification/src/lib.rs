//! Maximum flow in a directed capacitated graph by the augmenting-path
//! (Ford-Fulkerson) method, with machine-checked contracts: the network
//! keeps every pair of mirrored arcs in lockstep, flow never exceeds
//! capacity, flow is conserved at interior nodes, and when the search
//! finds no augmenting path the computed total is final.

pub mod compute;
pub mod laws;
pub mod lemmas;
pub mod network;
pub mod search;
