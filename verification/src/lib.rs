//! Small verified tools: a four-function calculator, a to-do list, a word
//! counter, a word-guessing game, a key-value store, a Bitcoin address
//! generator and the message layer of a Bitcoin peer handshake.
//!
//! `text`, `buffer` and `crypto` hold what the tools share: whitespace and
//! words, decimal numbers, byte encodings with the `bytes` buffer, and the
//! hash functions.
pub mod text;
pub mod buffer;
pub mod crypto;
pub mod calculator;
pub mod todo;
pub mod word_count;
pub mod wordle;
pub mod kv;
pub mod address;
pub mod handshake;
