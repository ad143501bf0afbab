//! Rough machine-assisted translation of Korean text: a character-keyed
//! prefix trie, a conjugation generator over Hangul syllable blocks, a
//! dictionary layer that expands word-list definitions into trie keys, and
//! a tokenizer that substitutes the longest known prefix at each position.

pub mod conjugate;
pub mod dict;
pub mod modes;
pub mod hangul;
pub mod wordlist;
mod strutil;
pub mod translate;
pub mod trie;

pub use dict::Dict;
pub use hangul::Block;
pub use modes::TranslationMode;
pub use translate::TranslationPart;
pub use translate::translate;
pub use translate::translate_iter;
pub use trie::Trie;
pub use wordlist::Def;
pub use wordlist::read_definitions;
pub use wordlist::read_definitions_iter;
