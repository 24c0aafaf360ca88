//! Rendering of cross-program-invocation call trees and of Markdown
//! execution reports, with their text helpers.

pub mod text;
pub mod report;
pub mod cpi_tree;
