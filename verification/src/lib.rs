//! Verified decision logic of the cell-game AI seats.

pub mod position;
pub mod greedy;
pub mod vocab;
pub mod strategy;
pub mod faction;
pub mod observe;
pub mod profile;
pub mod synthesize;
pub mod order;
pub mod simple;
pub mod simple_step;
pub mod cycler;
pub mod last_stand;
pub mod funnel;
pub mod routes;
pub mod simple_turn;
pub mod automata;
pub mod controller;
pub mod adapters;
pub mod bestresponse;
