//! Disk usage trees.
pub mod accounting;
pub mod actions;
pub mod app;
pub mod area;
pub mod assembly;
pub mod bounds;
pub mod checks;
pub mod cli;
pub mod colors;
pub mod config;
pub mod conservation;
pub mod detail;
pub mod diagnostics;
pub mod entry;
pub mod error;
pub mod explorer;
pub mod forest;
pub mod frame;
pub mod globs;
pub mod graft;
pub mod growth;
pub mod hazards;
pub mod hollow;
pub mod ids;
pub mod journey;
pub mod keymap;
pub mod leaves;
pub mod lineage;
pub mod matching;
pub mod merge;
pub mod order;
pub mod parallel;
pub mod partition;
pub mod path;
pub mod rebuilding;
pub mod regroup;
pub mod render;
pub mod restoring;
pub mod room;
pub mod roundtrip;
pub mod rules;
pub mod ruleset;
pub mod scan;
pub mod shape;
pub mod sharing;
pub mod show;
pub mod siblings;
pub mod soundness;
pub mod state;
pub mod steadiness;
pub mod surgery;
pub mod switching;
pub mod text;
pub mod walk;
pub mod whole;
