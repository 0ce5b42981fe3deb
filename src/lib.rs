//! A menu engine that keeps one logical menu tree in step with any number of
//! native projections of it.
pub mod accelerator;
pub mod error;
pub mod guard;
pub mod ids;
pub mod mnemonic;
pub mod predefined;
pub mod text;
pub mod engine;
pub mod items;
