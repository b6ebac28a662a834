//! The decisions of a fleet-wide dependency vulnerability scanner.

pub mod assemble;
pub mod cli;
pub mod config;
pub mod correlate;
pub mod cut;
pub mod db;
pub mod depgraph;
pub mod diff;
pub mod enrich;
pub mod finding;
pub mod ghactions;
pub mod go;
pub mod go_offline;
pub mod go_run;
pub mod hex;
pub mod json;
pub mod mirror;
pub mod npm_reach;
pub mod number;
pub mod orchestrate;
pub mod order;
pub mod osv;
pub mod outcome;
pub mod pipeline;
pub mod reach;
pub mod remediation;
pub mod repo_scan;
pub mod report;
pub mod resolve;
pub mod scan;
pub mod score;
pub mod severity;
pub mod static_reach;
pub mod text;
pub mod textmap;
pub mod tier_c;
pub mod value;
pub mod version;
pub mod vex;
pub mod vex_run;
