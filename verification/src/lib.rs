pub mod bytes;
pub mod doc_meta;
pub mod filenames;
pub mod header;
pub mod index;
pub mod laws;
pub mod search;
pub mod sgml;
pub mod tag_buffer;
pub mod tags;
pub mod types;
pub mod uu_laws;
pub mod uu_decoder;

pub use index::{build_document_index, DocumentIndex, Span};
pub use sgml::{clean_lines, detect_submission_type, detect_uu, parse_sgml_bytes, process_text_content};
pub use types::{MetadataDict, MetadataValue, ParseError, SubmissionType};
