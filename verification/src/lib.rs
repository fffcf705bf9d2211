//! Streaming statement-boundary scanning for SQL dump text.
//!
//! The scanner splits a chunk of dump text into blank-line markers,
//! single-line comments and semicolon-terminated statements, tracking open
//! quotes and parentheses with a small delimiter stack.  The driver feeds a
//! line-buffered byte source through the scanner incrementally, carrying
//! unfinished statements over from one read to the next.  A standalone hex
//! decoder handles binary-literal payloads.

mod composition;
mod driver;
mod hex;
mod laws;
mod scanner;

pub use composition::law_carryover_rescan_matches_whole_scan;
pub use composition::law_concatenated_statements_keep_their_spans;
pub use composition::reset_model;
pub use composition::shift_model;
pub use composition::shift_unit;

pub use driver::DumpFileError;
pub use driver::delivered_of;
pub use driver::delivered_texts;
pub use driver::dispatch_units;
pub use driver::retained_bytes;
pub use driver::retained_of;
pub use driver::EMPTY_SEGMENT_LIMIT;
pub use driver::ListQueryResult;
pub use driver::QueryHandler;
pub use driver::list_sql_queries_from_dump_reader;
pub use driver::segment_ends_statement;
pub use driver::utf8_valid;

pub use laws::law_balanced_terminated_statement_is_valid;
pub use laws::law_plain_terminated_chunk_is_one_valid_statement;
pub use laws::plain_content_byte;
pub use laws::law_dash_inside_open_delimiter_is_content;
pub use laws::law_doubled_quote_keeps_quote_open;
pub use laws::law_unbalanced_terminated_statement_is_invalid;
pub use laws::law_unit_spans_lie_in_chunk;
pub use laws::unit_wf;

pub use scanner::CLOSE_PAREN_BYTE;
pub use scanner::CommentStatement;
pub use scanner::DASH_BYTE;
pub use scanner::Delim;
pub use scanner::NEWLINE_BYTE;
pub use scanner::OPEN_PAREN_BYTE;
pub use scanner::QUOTE_BYTE;
pub use scanner::QueryStatement;
pub use scanner::SEMICOLON_BYTE;
pub use scanner::Statement;
pub use scanner::close_paren_step;
pub use scanner::flush_units;
pub use scanner::list_statements;
pub use scanner::opt_unit_seq;
pub use scanner::quote_step;
pub use scanner::top_is;
pub use scanner::ScanModel;
pub use scanner::SpecUnit;
pub use scanner::init_model;
pub use scanner::lemma_model_inv;
pub use scanner::model_inv;
pub use scanner::model_step;
pub use scanner::scan_model_at;
pub use scanner::spec_scan;
pub use scanner::step_unit;
pub use scanner::units_upto;

pub use hex::decode_hex;
pub use hex::HexDecodeError;
pub use hex::hex_digit_value;
pub use hex::hex_pair_value;
pub use hex::is_hex_digit;
