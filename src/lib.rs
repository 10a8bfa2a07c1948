//! Turns the DWARF line information of a WebAssembly module into a Source
//! Map v3 document, and patches a `sourceMappingURL` custom section onto the
//! module so that browsers and debuggers can find that document.
//!
//! The library holds the core: base64 VLQ and LEB128 encoding, JSON string
//! escaping, relocation resolution, source path resolution, the
//! address-ordered position table, the source map encoder and the section
//! patcher. Parsing the container and the DWARF data is left to the caller,
//! which hands the relocations and the rows of each line-number program to
//! the library as plain values.
pub mod error;
pub mod json;
pub mod module;
pub mod patch;
pub mod paths;
pub mod relocate;
pub mod section;
pub mod sourcemap;
pub mod table;
pub mod vlq;

pub use error::{Error, InternalError};
pub use module::{check_wasm, layout, ModuleLayout};
pub use patch::{build_section, existing_section_len, PatchState};
pub use paths::{source_path, FileEntry};
pub use relocate::{RelocationEntry, RelocationKind, RelocationMap};
pub use section::SectionReader;
pub use sourcemap::SourceMap;
pub use table::{code_point, CodePoint, LineRow, PositionTable};
pub use vlq::{decode, encode, encode_uint_var};
