//! The bytes of one debug-info section together with its relocations.
use vstd::prelude::*;
use crate::relocate::RelocationMap;

verus! {

/// The little-endian value of a run of bytes.
pub open spec fn le_value(b: Seq<u8>) -> nat
    decreases b.len(),
{
    if b.len() == 0 {
        0
    } else {
        (b[0] + 256 * le_value(b.drop_first())) as nat
    }
}

/// `256` to the power `n`.
pub open spec fn pow256(n: nat) -> nat
    decreases n,
{
    if n == 0 {
        1
    } else {
        256 * pow256((n - 1) as nat)
    }
}

proof fn lemma_le_value_bound(b: Seq<u8>)
    ensures
        le_value(b) < pow256(b.len()),
    decreases b.len(),
{
    if b.len() > 0 {
        lemma_le_value_bound(b.drop_first());
        let r = le_value(b.drop_first());
        let q = pow256((b.len() - 1) as nat);
        assert(b[0] + 256 * r < 256 * q) by (nonlinear_arith)
            requires
                b[0] < 256,
                r < q,
        ;
    }
}

/// A section's bytes and the relocation map that corrects the addresses and
/// offsets stored in them.
#[derive(Debug)]
pub struct SectionReader {
    data: Vec<u8>,
    relocations: RelocationMap,
}

impl SectionReader {
    /// The section's bytes.
    pub closed spec fn bytes(&self) -> Seq<u8> {
        self.data@
    }

    /// The section's relocations.
    pub closed spec fn corrections(&self) -> Map<u64, u64> {
        self.relocations@
    }

    /// A section from its bytes and its relocations.
    pub fn new(data: Vec<u8>, relocations: RelocationMap) -> (r: SectionReader)
        ensures
            r.bytes() == data@,
            r.corrections() == relocations@,
    {
        SectionReader { data, relocations }
    }

    /// The section's bytes.
    pub fn data(&self) -> (r: &Vec<u8>)
        ensures
            r@ == self.bytes(),
    {
        &self.data
    }

    /// The value to use for `value`, read at section offset `offset`: the
    /// section's correction for that offset, where it has one, replaces it.
    pub fn relocate(&self, offset: u64, value: u64) -> (r: u64)
        ensures
            r == if self.corrections().contains_key(offset) {
                self.corrections()[offset]
            } else {
                value
            },
    {
        self.relocations.relocate(offset, value)
    }

    /// Reads the `size`-byte little-endian address at `offset`, corrected
    /// by the section's relocations; `None` when the bytes run past the end
    /// of the section.
    pub fn read_address(&self, offset: usize, size: usize) -> (r: Option<u64>)
        requires
            1 <= size <= 8,
        ensures
            match r {
                Some(v) => {
                    &&& offset + size <= self.bytes().len()
                    &&& v == if self.corrections().contains_key(offset as u64) {
                        self.corrections()[offset as u64] as int
                    } else {
                        le_value(self.bytes().subrange(offset as int, offset + size)) as int
                    }
                },
                None => offset + size > self.bytes().len(),
            },
    {
        if offset > self.data.len() || size > self.data.len() - offset {
            return None;
        }
        let ghost b = self.data@;
        let mut value: u64 = 0;
        let mut i: usize = offset + size;
        proof {
            lemma_le_value_bound(b.subrange(offset as int, offset + size));
            reveal_with_fuel(pow256, 9);
            assert(pow256(8) == 0x1_0000_0000_0000_0000nat);
        }
        while i > offset
            invariant
                offset <= i <= offset + size,
                offset + size <= b.len(),
                b == self.data@,
                size <= 8,
                value as nat == le_value(b.subrange(i as int, offset + size)),
                value < pow256((offset + size - i) as nat),
                pow256(8) == 0x1_0000_0000_0000_0000nat,
            decreases i - offset,
        {
            i = i - 1;
            let ghost tail = b.subrange(i + 1, offset + size);
            assert(b.subrange(i as int, offset + size).drop_first() =~= tail);
            proof {
                lemma_pow256_mono((offset + size - i - 1) as nat, 7);
                lemma_le_value_bound(b.subrange(i as int, offset + size));
                lemma_pow256_mono((offset + size - i) as nat, 8);
            }
            value = (self.data[i] as u64) + 256 * value;
        }
        Some(self.relocate(offset as u64, value))
    }
}

proof fn lemma_pow256_mono(a: nat, b: nat)
    requires
        a <= b,
    ensures
        pow256(a) <= pow256(b),
    decreases b,
{
    if a < b {
        lemma_pow256_mono(a, (b - 1) as nat);
    }
}

} // verus!
