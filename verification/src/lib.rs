//! Verified cores of a handful of classic text utilities.

pub mod cat;
pub mod cut;
pub mod cut_laws;
pub mod decimal;
pub mod encoding;
pub mod extract;
pub mod find;
pub mod grep;
pub mod head;
pub mod lines;
pub mod pattern;
pub mod seqs;
pub mod text;
pub mod uniq;
pub mod wc;
