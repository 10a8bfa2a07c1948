//! Resolution of the load-time relocations of a debug-info section into a
//! map from section offset to the value that replaces the one read there.
use vstd::prelude::*;
use std::collections::HashMap;
use crate::error::Error;

verus! {

broadcast use vstd::std_specs::hash::group_hash_axioms;

/// The kind of a relocation entry: only absolute relocations are supported.
#[derive(Debug, Clone, Copy, PartialEq, Eq)]
pub enum RelocationKind {
    /// The target's address plus the addend is written at the offset.
    Absolute,
    /// Any other kind.
    Other,
}

/// One relocation of a section, as the object-file reader reports it.
#[derive(Debug, Clone, Copy, PartialEq, Eq)]
pub struct RelocationEntry {
    /// Byte offset in the section.
    pub offset: u64,
    /// Kind of the relocation.
    pub kind: RelocationKind,
    /// Index of the target symbol, if the relocation has one.
    pub symbol: Option<usize>,
    /// Signed addend.
    pub addend: i64,
}

/// A relocation failure, with the section offset where it occurred.
pub enum RelocationFault {
    /// An entry that is not absolute.
    Unsupported(u64),
    /// A second entry at an offset.
    Duplicate(u64),
    /// An entry whose symbol index names no symbol.
    Unresolved(u64),
}

/// `base + addend` modulo 2^64.
pub open spec fn wrapped_sum(base: u64, addend: i64) -> u64 {
    ((base as int + addend as int) % 0x1_0000_0000_0000_0000) as u64
}

/// The correction that an absolute relocation records, given the symbol
/// addresses indexed by symbol number; `None` when the symbol index is out
/// of range.
pub open spec fn correction(e: RelocationEntry, symbols: Seq<u64>) -> Option<u64> {
    match e.symbol {
        Some(i) => if i < symbols.len() {
            Some(wrapped_sum(symbols[i as int], e.addend))
        } else {
            None
        },
        None => Some(e.addend as u64),
    }
}

/// The relocation map of a section's entries, taken in order, or the first
/// failure among them.
pub open spec fn resolved(entries: Seq<RelocationEntry>, symbols: Seq<u64>) -> Result<
    Map<u64, u64>,
    RelocationFault,
>
    decreases entries.len(),
{
    if entries.len() == 0 {
        Ok(Map::empty())
    } else {
        match resolved(entries.drop_last(), symbols) {
            Err(f) => Err(f),
            Ok(m) => {
                let e = entries.last();
                if let RelocationKind::Other = e.kind {
                    Err(RelocationFault::Unsupported(e.offset))
                } else {
                    match correction(e, symbols) {
                        None => Err(RelocationFault::Unresolved(e.offset)),
                        Some(v) => if m.contains_key(e.offset) {
                            Err(RelocationFault::Duplicate(e.offset))
                        } else {
                            Ok(m.insert(e.offset, v))
                        },
                    }
                }
            },
        }
    }
}

/// Whether a library error is the given relocation failure in the named
/// section.
pub open spec fn is_fault(e: Error, f: RelocationFault, name: Seq<char>) -> bool {
    match (e, f) {
        (Error::UnsupportedRelocation { section, offset }, RelocationFault::Unsupported(o)) => {
            section@ == name && offset == o
        },
        (Error::DuplicateRelocation { section, offset }, RelocationFault::Duplicate(o)) => {
            section@ == name && offset == o
        },
        (Error::UnresolvedSymbol { section, offset }, RelocationFault::Unresolved(o)) => {
            section@ == name && offset == o
        },
        _ => false,
    }
}

/// Section offset to the value that replaces the one stored there.
#[derive(Debug)]
pub struct RelocationMap {
    corrections: HashMap<u64, u64>,
}

impl View for RelocationMap {
    type V = Map<u64, u64>;

    closed spec fn view(&self) -> Map<u64, u64> {
        self.corrections@
    }
}

impl RelocationMap {
    /// A map without relocations, for sections that are never relocated.
    pub fn new() -> (r: RelocationMap)
        ensures
            r@ == Map::<u64, u64>::empty(),
    {
        RelocationMap { corrections: HashMap::new() }
    }

    /// The value to use for `value`, read at section offset `offset`: the
    /// recorded correction replaces it where there is one.
    pub fn relocate(&self, offset: u64, value: u64) -> (r: u64)
        ensures
            r == if self@.contains_key(offset) {
                self@[offset]
            } else {
                value
            },
    {
        match self.corrections.get(&offset) {
            Some(v) => *v,
            None => value,
        }
    }

    /// Builds the relocation map of the section named `section` from its
    /// relocation entries and the addresses of the object's symbols, indexed
    /// by symbol number. Fails on the first entry that is not absolute,
    /// names no symbol, or falls on an offset that already has a
    /// relocation; the error names the section and the offset.
    pub fn resolve(section: &str, entries: &Vec<RelocationEntry>, symbols: &Vec<u64>) -> (r: Result<
        RelocationMap,
        Error,
    >)
        ensures
            match (r, resolved(entries@, symbols@)) {
                (Ok(m), Ok(spec_map)) => m@ == spec_map,
                (Err(e), Err(f)) => is_fault(e, f, section@),
                _ => false,
            },
    {
        let mut corrections: HashMap<u64, u64> = HashMap::new();
        let mut i: usize = 0;
        while i < entries.len()
            invariant
                i <= entries.len(),
                resolved(entries@.take(i as int), symbols@) == Ok::<
                    Map<u64, u64>,
                    RelocationFault,
                >(corrections@),
            decreases entries.len() - i,
        {
            let e = entries[i];
            assert(entries@.take(i + 1).drop_last() =~= entries@.take(i as int));
            assert(entries@.take(i + 1).last() == e);
            if let RelocationKind::Other = e.kind {
                proof { lemma_fault_stays(entries@, symbols@, i + 1); }
                return Err(Error::UnsupportedRelocation { section: String::from_str(section), offset: e.offset });
            }
            let value: u64 = match e.symbol {
                Some(idx) => {
                    if idx >= symbols.len() {
                        proof { lemma_fault_stays(entries@, symbols@, i + 1); }
                        return Err(Error::UnresolvedSymbol { section: String::from_str(section), offset: e.offset });
                    }
                    let v = symbols[idx].wrapping_add_signed(e.addend);
                    assert(v == wrapped_sum(symbols@[idx as int], e.addend));
                    v
                },
                None => #[verifier::truncate] (e.addend as u64),
            };
            if corrections.insert(e.offset, value).is_some() {
                proof { lemma_fault_stays(entries@, symbols@, i + 1); }
                return Err(Error::DuplicateRelocation { section: String::from_str(section), offset: e.offset });
            }
            i = i + 1;
        }
        assert(entries@.take(i as int) =~= entries@);
        Ok(RelocationMap { corrections })
    }
}

/// A failure on a prefix of the entries is the failure of them all.
proof fn lemma_fault_stays(entries: Seq<RelocationEntry>, symbols: Seq<u64>, n: int)
    requires
        0 <= n <= entries.len(),
        resolved(entries.take(n), symbols) is Err,
    ensures
        resolved(entries, symbols) == resolved(entries.take(n), symbols),
    decreases entries.len() - n,
{
    if n < entries.len() {
        assert(entries.take(n + 1).drop_last() =~= entries.take(n));
        lemma_fault_stays(entries, symbols, n + 1);
    } else {
        assert(entries.take(n) =~= entries);
    }
}

} // verus!
