//! Refunding allocated skill and stat points in a FATE character save.
//!
//! The library locates the character record inside a save buffer, validates
//! every field it relies on, and rewrites the skill values, the main stats and
//! the two unused-point pools in place. Argument handling for the command line
//! front end lives here too, as functions from plain values to plain values.
pub mod bytes;
pub mod layout;
pub mod save;
pub mod text;
pub mod cli;
pub mod respec;
