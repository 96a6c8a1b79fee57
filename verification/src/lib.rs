//! Rudra: a typed, tree-structured data editor — the verified document core.

pub mod document;
pub mod document3;
pub mod custom;
pub mod serialization;
pub mod document2;
pub mod editor;
