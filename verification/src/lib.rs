//! Verified core of the PDF reader service: path containment rules, directory
//! listings, natural ordering, the reading-progress store and its on-disk text
//! format, request parsing helpers and cache layout.

pub mod text;
pub mod pathsafe;
pub mod jsontext;
pub mod digits;
pub mod natural;
pub mod library;
pub mod stamp;
pub mod config;
pub mod progress;
pub mod trimapi;
pub mod web;
pub mod pdfdoc;
