//! Decoding of the configuration that git hands to its subcommands through the
//! environment.
//!
//! Three sources are understood: the single-quoted parameter list that carries
//! the `-c` options ([`ConfigParametersIter`]), one `-c` argument by itself
//! ([`parse_parameter`]), and the counted `KEY`/`VALUE` pairs ([`ConfigEnv`]).

mod env;
mod param;
pub mod quote;
pub mod text;

pub use env::{
    count_of, counted_pairs, cow_text, entries_between, entry_view, key_name, lemma_malformed_count,
    lemma_next_entry, lemma_without_count, malformed_count, next_entry, pair_at, value_name,
    variable_texts, variables_of, ConfigEnv, ConfigEnvIter, Env, MapEnv, NoEnv,
};
pub use param::{
    is_quoting_of, lemma_new_style, lemma_new_style_bool, lemma_next_pair_shorter, lemma_old_style,
    lemma_pairs_after_space, lemma_pairs_after_word, lemma_pairs_of_empty, next_pair, pair_view,
    pairs, parse_parameter, parse_parameter_cow, split_parameter, text_of, ConfigParameters,
    ConfigParametersIter, Pair,
};
