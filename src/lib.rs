//! Reads line-oriented `key = value` configuration text into a map from key to
//! a value that holds either a list of number texts or a single string.
//!
//! The whole parsing logic is verified: comment stripping, splitting on `=`
//! and `,`, trimming, recognising number syntax, and the fallback to a string
//! when any token of a field is not a number. Numbers are kept as their exact
//! text; a caller converts each of them with the standard float parser, which
//! accepts every text that [`number::is_number_text`] accepts.
pub mod config;
pub mod laws;
pub mod number;
pub mod text;
