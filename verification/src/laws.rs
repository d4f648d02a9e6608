//! What holds of the library as a whole.

pub mod batches;
pub mod batching;
pub mod budget;
pub mod cutting;
pub mod ending;
pub mod files;
pub mod grouping;
pub mod hiding;
pub mod honest;
pub mod joining;
pub mod letters;
pub mod parting;
pub mod release;
pub mod solid;
pub mod speech;
pub mod splicing;
pub mod spelling;
pub mod steps;
pub mod stream;
pub mod wording;
pub mod words;
