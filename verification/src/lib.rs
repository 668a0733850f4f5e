//! Text normalisation in two independent parts: conversion of identifiers
//! between naming conventions, and clean-up of path strings.
//!
//! Nothing here touches a file system, and nothing keeps state between two
//! calls.
//!
//! - [`fmt_case_style`] splits a text into words and renders them as
//!   `camelCase`, `PascalCase`, `snake_case` and five more styles;
//!   [`case_model`] says what the words and the renderings are, and
//!   [`case_laws`] what holds of them on every input.
//! - [`fmt_path`] cleans a path string up step by step; [`path_model`] says what
//!   each step gives, and [`path_laws`] what holds of the whole.
//! - [`text`] holds what both parts share: character classes, ASCII case
//!   mapping and splitting at a delimiter.
pub mod text;
pub mod case_model;
pub mod case_laws;
pub mod fmt_case_style;
pub mod path_model;
pub mod path_laws;
pub mod fmt_path;
