//! Decoder for the chunk-compressed archive container of a game's data
//! files, and a walker for the table of contents inside the decoded archive
//! region.
//!
//! An archive file holds two regions, each a run of chunks; a chunk is
//! stored as it is or coded with literals and back-references under 16-bit
//! control words (`lz`, `region`). The decoded archive region starts with
//! the offset of its table of contents, which lists groups of files by
//! their start offsets; the sizes follow from the offsets (`toc`).

pub mod bytes;
pub mod error;
pub mod lz;
pub mod region;
pub mod script;
pub mod tag;
pub mod toc;

pub use error::Error;
pub use lz::{decompress_block, decompress_data, read_u16};
pub use region::{decompress, decompress_part, DecompressedFile};
pub use script::Token;
pub use tag::kind_to_string;
pub use toc::{extract_file, get_file_offset, parse_table_of_contents_entry, unpack, FileEntry, TableEntry};
