//! The PND2 column codec and the row logic built on it.

pub mod numeral;
pub mod bytes;
pub mod bitpack;
pub mod float;
pub mod seqs;
pub mod constants;
pub mod types;
pub mod parser;
pub mod decode;
pub mod blob;
pub mod encode;
pub mod assemble;
pub mod typed;
pub mod handle;
pub mod round_trip;
pub mod text;
pub mod intern;
pub mod json;
pub mod predicate;
pub mod crdt;
pub mod merge;
pub mod plan;
pub mod where_clause;
pub mod merge_text;
pub mod repl;
pub mod media;
pub mod udf;
pub mod search;
pub mod rows;
pub mod infer;
pub mod policy;
pub mod query;
pub mod change;
pub mod index;
pub mod sql_text;
pub mod names;
pub mod layer;
pub mod table;
pub mod shown;
pub mod values;
pub mod file_rows;
pub mod collection;
pub mod sql;
pub mod report;
pub mod upload;
pub mod ranking;
pub mod write;
pub mod written;
pub mod text_map;
pub mod tiers;
pub mod cache;
pub mod tally;
pub mod merge_laws;
pub mod row_laws;
pub mod order_laws;
pub mod filter_laws;
pub mod search_laws;
pub mod change_laws;
pub mod text_laws;
pub mod where_laws;
pub mod sql_laws;
pub mod read_laws;
pub mod store_laws;
pub mod plan_laws;
pub mod shell_laws;
pub mod format_laws;
pub mod decode_laws;
pub mod name_laws;
pub mod column_laws;
pub mod sequence_laws;
