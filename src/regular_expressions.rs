//! Regular-expression syntax trees and their compilation into automata.

pub mod regex;
pub mod tonfa;
pub mod laws;
pub mod nullable;
pub mod algebra;
pub mod plus;
