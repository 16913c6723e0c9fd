//! What the operations are for, said of their inputs and results alone.
pub mod bundles;
pub mod calls;
pub mod commands;
pub mod contexts;
pub mod cycles;
pub mod drift;
pub mod edits;
pub mod hooks;
pub mod impact;
pub mod imports;
pub mod index;
pub mod inline;
pub mod modules;
pub mod notes;
pub mod numbering;
pub mod overlap;
pub mod past;
pub mod patches;
pub mod places;
pub mod rankings;
pub mod reach;
pub mod records;
pub mod reports;
pub mod risk;
pub mod scripts;
pub mod siblings;
pub mod signatures;
pub mod sorting;
pub mod tests_to_run;
pub mod texts;
pub mod told;
pub mod trees;
pub mod walks;
pub mod words;
