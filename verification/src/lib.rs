//! Playlist sequencing over acoustic distances: ordering a fixed set of tracks,
//! bridging the gaps of a preserved playlist, growing one from seeds, and routing
//! towards a destination.
//!
//! Acoustic distances and percentiles are fixed-point integers in units of
//! `units::UNIT` to one. The engine that measures them enters as a pair of
//! functions over track numbers, see `contextual`.

// Foundations.
pub mod digest;
pub mod random;
pub mod sequences;
pub mod sorting;
pub mod text;
pub mod units;

// Distances, evidence and guidance.
pub mod bridge;
pub mod contextual;
pub mod guidance;
pub mod lookup;
pub mod semantic;
pub mod variation;

// Routes and selections.
pub mod anchored_path;
pub mod coarse_pool;
pub mod destination;
pub mod exact;
pub mod exact_endpoints;
pub mod exact_multi;
pub mod preview;
pub mod route;
pub mod seed_growth;
pub mod states;

// Requests and reports.
pub mod analysis;
pub mod artifacts;
pub mod command;
pub mod destination_goal;
pub mod destination_report;
pub mod gap_analysis;
pub mod gates;
pub mod library;
pub mod progress;
pub mod reports;
pub mod requests;
pub mod schema;
pub mod scoring;
pub mod selection_report;
pub mod sources;

// Laws.
pub mod anchored_path_laws;
pub mod bound_laws;
pub mod bridge_laws;
pub mod choice_laws;
pub mod decision_laws;
pub mod destination_laws;
pub mod exact_laws;
pub mod growth_laws;
pub mod listing_laws;
pub mod lookup_laws;
pub mod measure_laws;
pub mod outcome_laws;
pub mod report_laws;
pub mod route_laws;
pub mod search_laws;
pub mod selection_laws;
pub mod shuffle_laws;
pub mod signal_laws;
pub mod support_laws;
pub mod text_laws;
pub mod variation_laws;
pub mod walk_laws;
