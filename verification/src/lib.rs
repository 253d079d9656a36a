//! A verified collection-and-analysis pipeline for physical-memory
//! accounting: parsers for the kernel-exposed per-process, system-wide and
//! per-locality memory counters, and a stateful analyzer that reconciles
//! them into a de-duplicated, delta-tracked statistical model.

pub mod analyzer;
pub mod collector;
pub mod text;
pub mod ui;
