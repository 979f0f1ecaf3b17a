//! First phase of an external sort: a source file of whitespace-separated
//! integers is cut into fixed-size chunk files, and each chunk's integers are
//! then sorted in place.

mod chunk_text;
mod generate;
mod numbers;
mod pipeline;
mod sorting;
mod split;

pub use chunk_text::{
    all_fields_parse, chunk_fields, chunk_values, is_space, join_spaces, parse_chunk,
    render_chunk, render_values, split_spaces, trim, ParseError,
};
pub use generate::random_block;
pub use numbers::{
    decimal_value, digits_of, field_value, lemma_render_parses, parse_field, parses_as_i64,
    push_int, render_int,
};
pub use pipeline::{
    chunk_path, first_bad_field, lemma_sort_idempotent, lemma_sorted_chunk, sorts_to,
    ProcessHugeFile, DEFAULT_CAPACITY, DEFAULT_CEILING,
};
pub use sorting::{lemma_sort_values, lemma_sorted_unique, sort_values, sorted};
pub use split::{final_read, lemma_chunk_count, lemma_split_complete, split_source};
