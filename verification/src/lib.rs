//! Verified core of a local QR decoder command line tool: argument
//! parsing, run decisions and the txt / json / tsv output formats.

pub mod chars;
pub mod cli;
pub mod decode;
pub mod format;
pub mod json;
pub mod run;

pub use cli::{complete_files_from, parse_args, parse_dec, CliError, DecArgs, FormatKind, Subcmd};
pub use decode::{decoded_from_texts, DecodeOptions, Decoded};
pub use format::{
    emit, emit_json, emit_json_with, emit_tsv, emit_txt, json_escape, tsv_escape, txt_escape,
    write_str_obj,
};
pub use run::{
    DecRun, ImageOutcome, Step, EXIT_FAILURE, EXIT_FOUND, EXIT_NOT_FOUND, EXIT_USAGE,
};
