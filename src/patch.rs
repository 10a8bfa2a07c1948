//! The `sourceMappingURL` custom section, and a patching session that keeps
//! exactly one such section at the tail of a module.
//!
//! A patch removes the section that the session appended before (or found
//! at load) by truncating the file, then appends the new section. This is
//! only correct while that section is the last one of the file: sections
//! that another tool appended after it would be cut off.
use vstd::prelude::*;
use crate::error::Error;
use vstd::string::StringSliceAdditionalSpecFns;
use vstd::string::StrSliceExecFns;
use crate::vlq::{encode_uint_var, leb128};

verus! {

/// Longest URL, in bytes, whose section length still fits in 32 bits.
pub const MAX_URL_LEN: u64 = 0xffff_ffe0;

/// The bytes of the section name `sourceMappingURL`.
pub open spec fn section_name() -> Seq<u8> {
    seq![115u8, 111, 117, 114, 99, 101, 77, 97, 112, 112, 105, 110, 103, 85, 82, 76]
}

/// The payload of a section holding `data` after the section name.
pub open spec fn payload(data: Seq<u8>) -> Seq<u8> {
    leb128(section_name().len()) + section_name() + data
}

/// The section that points to the source map at `url`: id 0, payload
/// length, name length, name, URL length, URL.
pub open spec fn section_bytes(url: Seq<u8>) -> Seq<u8> {
    let p = payload(leb128(url.len()) + url);
    seq![0u8] + leb128(p.len()) + p
}

/// Total length on disk of a section whose data after the name is
/// `data_len` bytes long.
pub open spec fn section_len(data_len: nat) -> nat {
    let p = leb128(section_name().len()).len() + section_name().len() + data_len;
    1 + leb128(p).len() + p
}

/// The file after a patch with `url`, given the length of the section that
/// the session appended before, if any.
pub open spec fn patched(file: Seq<u8>, appended: Option<u64>, url: Seq<u8>) -> Seq<u8> {
    let cut: int = match appended {
        Some(n) => n as int,
        None => 0,
    };
    file.take(file.len() - cut) + section_bytes(url)
}

proof fn lemma_leb128_short(n: nat)
    requires
        n < 0x1_0000_0000,
    ensures
        1 <= leb128(n).len() <= 5,
    decreases n,
{
    reveal_with_fuel(leb128, 6);
    if n >= 128 {
        lemma_leb128_short(n / 128);
    }
}

/// Builds the `sourceMappingURL` section for a URL. Fails with
/// `IntegerOverflow` when the URL is longer than `MAX_URL_LEN` bytes.
pub fn build_section(url: &str) -> (r: Result<Vec<u8>, Error>)
    ensures
        match r {
            Ok(b) => url.spec_bytes().len() <= MAX_URL_LEN && b@ == section_bytes(url.spec_bytes()),
            Err(e) => url.spec_bytes().len() > MAX_URL_LEN && e == Error::IntegerOverflow,
        },
{
    let mut url_bytes = url.as_bytes_vec();
    if url_bytes.len() as u64 > MAX_URL_LEN {
        return Err(Error::IntegerOverflow);
    }
    let url_len = url_bytes.len() as u32;
    let mut data = encode_uint_var(url_len);
    proof { lemma_leb128_short(url_len as nat); }
    data.append(&mut url_bytes);
    let mut p = encode_uint_var(16);
    let mut name: Vec<u8> = vec![115u8, 111, 117, 114, 99, 101, 77, 97, 112, 112, 105, 110, 103, 85, 82, 76];
    assert(name@ =~= section_name());
    p.append(&mut name);
    p.append(&mut data);
    assert(p@ =~= payload(leb128(url.spec_bytes().len()) + url.spec_bytes()));
    let mut out: Vec<u8> = vec![0u8];
    let mut len = encode_uint_var(p.len() as u32);
    out.append(&mut len);
    out.append(&mut p);
    assert(out@ =~= section_bytes(url.spec_bytes()));
    Ok(out)
}

/// Total length on disk of a `sourceMappingURL` section found in a module,
/// from the length of its data after the name; see [`section_len`].
pub fn existing_section_len(data_len: u32) -> (r: Result<u64, Error>)
    ensures
        match r {
            Ok(n) => data_len <= MAX_URL_LEN && n == section_len(data_len as nat),
            Err(e) => data_len > MAX_URL_LEN && e == Error::IntegerOverflow,
        },
{
    if data_len as u64 > MAX_URL_LEN {
        return Err(Error::IntegerOverflow);
    }
    let p: u32 = 17 + data_len;
    let lp = encode_uint_var(p);
    proof {
        lemma_leb128_short(p as nat);
        assert(leb128(section_name().len()).len() == 1);
    }
    Ok(1 + lp.len() as u64 + p as u64)
}

/// One patching session against one module file.
pub struct PatchState {
    /// Path of the module file.
    pub path: String,
    /// Total length of the section at the tail that the next patch
    /// replaces: the one the session appended last, or found at load.
    pub appended: Option<u64>,
}

impl PatchState {
    /// A session on a module; `existing` is the total length of the
    /// `sourceMappingURL` section found in it at load, if any.
    pub fn new(path: String, existing: Option<u64>) -> (s: PatchState)
        ensures
            s.path == path,
            s.appended == existing,
    {
        PatchState { path, appended: existing }
    }

    /// Length of the section at the tail that the next patch replaces.
    pub fn appended_len(&self) -> (r: Option<u64>)
        ensures
            r == self.appended,
    {
        self.appended
    }

    /// The length to truncate a file of `file_len` bytes to before the
    /// new section is appended. Fails with `MalformedContainer` when the
    /// file is shorter than the section to remove.
    pub fn truncate_len(&self, file_len: u64) -> (r: Result<u64, Error>)
        ensures
            match r {
                Ok(n) => match self.appended {
                    Some(a) => a <= file_len && n == file_len - a,
                    None => n == file_len,
                },
                Err(e) => e == Error::MalformedContainer && self.appended is Some
                    && self.appended->0 > file_len,
            },
    {
        match self.appended {
            Some(a) => if a > file_len {
                Err(Error::MalformedContainer)
            } else {
                Ok(file_len - a)
            },
            None => Ok(file_len),
        }
    }

    /// Records the length of the section that a patch appended.
    pub fn record(&mut self, section_len: u64)
        ensures
            final(self).path == old(self).path,
            final(self).appended == Some(section_len),
    {
        self.appended = Some(section_len);
    }

    /// Patches a module held in memory: removes the section appended
    /// before and appends the section for `url`. On failure the file and
    /// the session are left as they were.
    pub fn patch_bytes(&mut self, file: &mut Vec<u8>, url: &str) -> (r: Result<(), Error>)
        ensures
            match r {
                Ok(()) => {
                    &&& final(file)@ == patched(old(file)@, old(self).appended, url.spec_bytes())
                    &&& final(self).appended == Some(section_bytes(url.spec_bytes()).len() as u64)
                    &&& final(self).path == old(self).path
                },
                Err(e) => {
                    &&& final(file)@ == old(file)@
                    &&& *final(self) == *old(self)
                    &&& (e == Error::IntegerOverflow || e == Error::MalformedContainer)
                    &&& (e == Error::IntegerOverflow <==> url.spec_bytes().len() > MAX_URL_LEN)
                    &&& (e == Error::MalformedContainer <==> (url.spec_bytes().len()
                        <= MAX_URL_LEN && old(self).appended is Some && old(self).appended->0
                        > old(file)@.len()))
                },
            },
    {
        let mut section = match build_section(url) {
            Ok(b) => b,
            Err(e) => return Err(e),
        };
        let keep = match self.truncate_len(file.len() as u64) {
            Ok(n) => n,
            Err(e) => return Err(e),
        };
        let section_len = section.len() as u64;
        file.truncate(keep as usize);
        file.append(&mut section);
        self.record(section_len);
        Ok(())
    }
}

/// Patching twice in one session leaves one section at the tail, that of the
/// second URL: the file is as if only the second patch had been made.
pub proof fn lemma_patch_twice(file: Seq<u8>, appended: Option<u64>, first: Seq<u8>, second: Seq<u8>)
    requires
        match appended {
            Some(a) => a <= file.len(),
            None => true,
        },
        first.len() <= MAX_URL_LEN,
    ensures
        patched(
            patched(file, appended, first),
            Some(section_bytes(first).len() as u64),
            second,
        ) == patched(file, appended, second),
{
    let once = patched(file, appended, first);
    let cut: int = match appended {
        Some(n) => n as int,
        None => 0,
    };
    let n = section_bytes(first).len();
    lemma_leb128_short(first.len());
    let p = payload(leb128(first.len()) + first);
    lemma_leb128_short(p.len());
    assert(n < 0x1_0000_0000_0000_0000);
    assert(once.take(once.len() - n) =~= file.take(file.len() - cut));
}

} // verus!
