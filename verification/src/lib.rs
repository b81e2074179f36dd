//! Pick association, event windows and clock bookkeeping for a small seismic network.
use vstd::prelude::*;

pub mod accounts;
pub mod agreement;
pub mod args;
pub mod arrivals;
pub mod association;
pub mod candidate;
pub mod cluster;
pub mod decimal;
pub mod descent;
pub mod digest;
pub mod epoch;
pub mod fits;
pub mod geometry;
pub mod http;
pub mod json;
pub mod laws_asked;
pub mod laws_association;
pub mod laws_clocks;
pub mod laws_events;
pub mod laws_fits;
pub mod laws_links;
pub mod laws_logs;
pub mod laws_places;
pub mod laws_ranking;
pub mod laws_records;
pub mod laws_residuals;
pub mod laws_requests;
pub mod laws_searches;
pub mod laws_shapes;
pub mod laws_store;
pub mod laws_text;
pub mod laws_times;
pub mod laws_windows;
pub mod locator;
pub mod locks;
pub mod mean;
pub mod model;
pub mod network;
pub mod network_fit;
pub mod network_records;
pub mod order;
pub mod outcomes;
pub mod planner;
pub mod precheck;
pub mod ranking;
pub mod records;
pub mod repeatable;
pub mod reports;
pub mod seeds;
pub mod service;
pub mod shared_clocks;
pub mod solve;
pub mod solver_types;
pub mod store;
pub mod text;
pub mod web;
pub mod windows;

verus! {

} // verus!
