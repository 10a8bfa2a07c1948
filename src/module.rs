//! What the library needs to know of the module container: that it is a
//! WebAssembly module, where its code section starts, and how long the
//! `sourceMappingURL` section is that a patch will replace.
use vstd::prelude::*;
use crate::error::Error;
use crate::patch::{existing_section_len, section_len, MAX_URL_LEN};

verus! {

/// The magic number that opens a WebAssembly module: `\0asm`.
pub open spec fn wasm_magic() -> Seq<u8> {
    seq![0x00u8, 0x61, 0x73, 0x6d]
}

/// Relies on `object::FileKind::parse`, which reads the first 16 bytes and
/// reports `FileKind::Wasm` exactly when they start with `\0asm`; shorter
/// data is an error.
#[verifier::external_body]
fn is_wasm_kind(data: &[u8]) -> (r: bool)
    ensures
        r == (data@.len() >= 16 && data@.take(4) == wasm_magic()),
{
    matches!(object::FileKind::parse(data), Ok(object::FileKind::Wasm))
}

/// Checks that data holds a WebAssembly module; fails with
/// `MalformedContainer` otherwise.
pub fn check_wasm(data: &[u8]) -> (r: Result<(), Error>)
    ensures
        r is Ok <==> (data@.len() >= 16 && data@.take(4) == wasm_magic()),
        r matches Err(e) ==> e == Error::MalformedContainer,
{
    if is_wasm_kind(data) {
        Ok(())
    } else {
        Err(Error::MalformedContainer)
    }
}

/// Where the parts of a module that the library uses lie in its file.
#[derive(Debug, Clone, Copy, PartialEq, Eq)]
pub struct ModuleLayout {
    /// File offset of the code section's contents, which row addresses are
    /// relative to.
    pub code_offset: u32,
    /// Total length of the `sourceMappingURL` section found in the module.
    pub sourcemap_section: Option<u64>,
}

/// The layout of a module, from its data and the file ranges (start, end)
/// that the container reader gives for the code section and for the data
/// of a `sourceMappingURL` section. Fails with `MalformedContainer` when the
/// data is not a WebAssembly module or a range ends before it starts, with
/// `MissingRequiredSection` when there is no code range, and with
/// `IntegerOverflow` when an offset or length does not fit in 32 bits.
pub fn layout(data: &[u8], code_range: Option<(u64, u64)>, sourcemap_range: Option<(u64, u64)>) -> (r:
    Result<ModuleLayout, Error>)
    ensures
        !(data@.len() >= 16 && data@.take(4) == wasm_magic()) ==> r == Err::<ModuleLayout, Error>(
            Error::MalformedContainer,
        ),
        (data@.len() >= 16 && data@.take(4) == wasm_magic()) ==> match code_range {
            None => r == Err::<ModuleLayout, Error>(Error::MissingRequiredSection),
            Some((start, _)) => if start > u32::MAX {
                r == Err::<ModuleLayout, Error>(Error::IntegerOverflow)
            } else {
                match sourcemap_range {
                    None => r == Ok::<ModuleLayout, Error>(
                        ModuleLayout { code_offset: start as u32, sourcemap_section: None },
                    ),
                    Some((s, e)) => if e < s {
                        r == Err::<ModuleLayout, Error>(Error::MalformedContainer)
                    } else if e - s > MAX_URL_LEN {
                        r == Err::<ModuleLayout, Error>(Error::IntegerOverflow)
                    } else {
                        r == Ok::<ModuleLayout, Error>(
                            ModuleLayout {
                                code_offset: start as u32,
                                sourcemap_section: Some(section_len((e - s) as nat) as u64),
                            },
                        )
                    },
                }
            },
        },
{
    match check_wasm(data) {
        Ok(()) => {},
        Err(e) => return Err(e),
    }
    let start = match code_range {
        Some((start, _)) => start,
        None => return Err(Error::MissingRequiredSection),
    };
    if start > u32::MAX as u64 {
        return Err(Error::IntegerOverflow);
    }
    let sourcemap_section = match sourcemap_range {
        Some((s, e)) => {
            if e < s {
                return Err(Error::MalformedContainer);
            }
            if e - s > MAX_URL_LEN {
                return Err(Error::IntegerOverflow);
            }
            match existing_section_len((e - s) as u32) {
                Ok(n) => Some(n),
                Err(err) => return Err(err),
            }
        },
        None => None,
    };
    Ok(ModuleLayout { code_offset: start as u32, sourcemap_section })
}

} // verus!
