//! A personal note indexer and ranked-search engine: files are segmented
//! into notes, notes into stemmed term statistics, and a persisted corpus
//! is ranked against free-text queries with an exact-arithmetic Bayesian
//! score.

pub mod bytes;
pub mod corpus;
pub mod digest;
pub mod document;
pub mod laws;
pub mod marks;
pub mod ranker;
pub mod stemmer;
pub mod store;
pub mod table;
