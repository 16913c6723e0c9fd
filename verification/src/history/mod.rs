//! What the version history says about the files of a project.
pub mod anchor;
pub mod answer;
pub mod authors;
pub mod commands;
pub mod commits;
pub mod conventions;
pub mod coupling;
pub mod crates;
pub mod inline_tests;
pub mod js_runner;
pub mod patch;
pub mod reach;
pub mod recommend;
pub mod recommending;
pub mod risk;
pub mod risk_diff;
pub mod shell;
pub mod siblings;
pub mod tally;
pub mod test_commands;
pub mod top_symbols;
