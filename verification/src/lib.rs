//! A statistical text model for a note-taking backend.
//!
//! The model is an order-k chain over words: an index from each window of
//! `k` consecutive words to the words that were seen to follow it, filled by
//! training on free text and walked at random to generate sentences. Around
//! it stand heuristic analyzers (sentiment, categories, keywords, tags,
//! importance), a search that scores notes by the chain, and a classifier
//! for queries. A small manager of groups and rotating shifts is part of the
//! crate as well.
//!
//! Every function is verified against a contract over plain mathematical
//! values: a text is a `Seq<char>`, a list of words a `Seq<Seq<char>>`, the
//! index a `Map` from windows to follower lists, a score a ratio of two
//! natural numbers.
//!
//! A few calls are taken on trust, each behind a contract of its own:
//! `String::push` and `str::to_lowercase` ([`text`]), the random source,
//! the pick of an element and fresh identifiers ([`random`]), and the
//! reading of a date ([`dates`]). Lowercasing and date reading are named,
//! not described: the contracts say what is done with their results.
//!
//! - [`text`]: whitespace, words, joining, substring search, string order
//! - [`index`]: the map from windows to follower lists
//! - [`lexicon`]: the fixed vocabularies
//! - [`markov`]: the chain, its trainer and its generator
//! - [`analysis`]: the analyzers
//! - [`search`]: relevance, ranking, filters and query classification
//! - [`score`]: scores as exact ratios
//! - [`models`]: the records that callers hand in and get back
//! - [`shift_manager`]: groups, employees and the rotation of shifts

pub mod analysis;
pub mod dates;
pub mod index;
pub mod lexicon;
pub mod markov;
pub mod models;
pub mod random;
pub mod score;
pub mod search;
pub mod shift_manager;
pub mod text;

pub use markov::MarkovChain;
pub use models::SQLiteNote;
pub use shift_manager::ShiftManager;
