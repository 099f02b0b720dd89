//! A verified codec and symbolic value engine for the chunk-based binary
//! patch-file format used by a family of guitar-amp modelling devices.
//!
//! The crate is organised bottom-up:
//! - [`types`] holds the four-byte chunk type identifiers;
//! - [`chunk`] parses and serializes the recursive chunk container;
//! - [`model`] holds the decoded patch data model;
//! - [`text`] converts between strings, UTF-16 code units and decimal digits;
//! - [`decoder`] and [`encoder`] walk chunk trees into patches and back;
//! - [`schema`] describes per-device logical parameter layouts;
//! - [`value`] matches physical parameter blocks against a schema;
//! - [`rich`] pairs raw values with display conversion rules;
//! - [`shorthand`] abbreviates writing schemas down;
//! - [`group`] arranges named values by the schema's display groups.

pub mod types;

pub mod error;

pub mod chunk;

pub mod model;

pub mod text;

pub mod decoder;

pub mod encoder;

pub mod rich;

pub mod schema;

pub mod value;

pub mod shorthand;

pub mod group;
