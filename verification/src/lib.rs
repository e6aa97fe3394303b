//! Paragraph-by-paragraph audiobook pipeline: the verified core.

pub mod batch;
pub mod chars;
pub mod chunks;
pub mod cleanup;
pub mod columns;
pub mod commands;
pub mod config;
pub mod cutting;
pub mod edits;
pub mod glyphs;
pub mod hearing;
pub mod jobs;
pub mod numbers;
pub mod order;
pub mod phonemes;
pub mod records;
pub mod rip;
pub mod runs;
pub mod scrubbing;
pub mod search;
pub mod speech;
pub mod text;
pub mod validation;
pub mod wav;
pub mod words;
