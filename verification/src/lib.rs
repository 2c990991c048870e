//! Artifact: linkable and trackable design documentation.
//!
//! The verified core of the artifact tool: artifact names and their
//! grammar, collapsed name lists, families, lints, the markdown file
//! format and the scanning of source code for implementation links.
#![allow(unused_imports)]

use vstd::prelude::*;

pub mod text;
pub mod name;
pub mod family;
pub mod expand;
pub mod collapse;
pub mod sort;
pub mod lint;
pub mod ser;
pub mod artifact;
pub mod implemented;
pub mod raw;
pub mod markdown;
pub mod loaded;
pub mod graph;
pub mod project;
pub mod path;
pub mod modify;
pub mod expected;
pub mod md_roundtrip;
pub mod reformat;

verus! {

} // verus!
