//! Fast pinyin search over Chinese text: a query typed in Latin letters is
//! matched against Chinese strings as a prefix, a substring, or an exact
//! equal, under configurable fuzzy rules and keyboard layouts (full
//! pinyin, the Xiaohe and Ziranma double-pinyin schemes, and Zhuyin typed
//! on the Daqian layout).
//!
//! A syllable is cut into phonemes and each phoneme expands into its
//! alternative keystroke spellings; matching counts grapheme clusters and
//! composes per-character index sets of how many query characters each
//! source character can consume. For large corpora the accelerator
//! memoises per-offset phoneme results, and the trie searcher indexes
//! entries in nodes that change shape as subtrees grow.

pub mod accelerator;
pub mod compressed;
pub mod dict_loader;
pub mod elements;
pub mod format;
pub mod keyboard;
pub mod pinin;
pub mod searcher;
pub mod unicode_utils;
