//! Humane ("natural") string ordering: a grapheme-aware tokenizer splits a
//! string into numeric and non-numeric runs, and a comparator orders two
//! strings by walking their token streams in lock-step, comparing numeric
//! runs by value and non-numeric runs lexicographically.

mod laws;
mod order;
mod segment;
mod tokenizer;

pub use laws::{
    flip, lemma_empty_string_least, lemma_humane_antisymmetric, lemma_humane_cmp_defined,
    lemma_humane_equal_subst, lemma_humane_reflexive, lemma_humane_transitive,
    lemma_overflow_fails, lemma_tokenizer_coverage, lemma_tokens_cover, token_texts,
};
pub use order::{
    all_numeric_fit, humane_order, humane_order_checked, numeric_fits, numeric_value,
    spec_humane_cmp, spec_humane_tokens, spec_lex_cmp, spec_seq_cmp, spec_token_cmp, HumaneString,
};
pub use segment::{grapheme_seq, grapheme_views, well_segmented};
pub use tokenizer::{
    classify_text, is_ascii_digit, is_numeric_text, run_len, sorting_type, spec_tokens, Classify,
    NumericClassifier, SortingType, TokenIterator,
};
