//! The position table: code positions keyed by address, in ascending
//! address order, built from the rows of the line-number programs.
use vstd::prelude::*;
use crate::error::Error;

verus! {

/// One row of a line-number program, as the debug-info reader reports it,
/// with its file entry already resolved to a source path.
#[derive(Debug, Clone, PartialEq, Eq)]
pub struct LineRow {
    /// Address of the instruction, relative to the code section.
    pub address: u64,
    /// The 1-based line, or `None` for code with no source line.
    pub line: Option<u64>,
    /// The 1-based column, or `None` for the left edge.
    pub column: Option<u64>,
    /// The source path of the row's file entry, if it has one.
    pub path: Option<String>,
    /// Whether the row closes a contiguous run of instructions.
    pub end_sequence: bool,
}

/// A code position: where an address of the module comes from.
#[derive(Debug, Clone, PartialEq, Eq)]
pub struct CodePoint {
    /// Normalized forward-slash source path, if the row had a file.
    pub source: Option<String>,
    /// File-relative address of the code.
    pub address: u32,
    /// 1-based line, or 0 for code with no source line.
    pub line: u32,
    /// 1-based column, or 0 for the left edge.
    pub column: u32,
}

/// The code position of a row, given the file offset of the code section;
/// `None` when the address, line or column does not fit in 32 bits.
/// An end-of-sequence row addresses the last byte of the run it closes.
pub open spec fn row_point(row: LineRow, code_offset: u32) -> Option<CodePoint> {
    let line: int = match row.line {
        Some(l) => l as int,
        None => 0,
    };
    let column: int = match row.column {
        Some(c) => c as int,
        None => 0,
    };
    let address: int = row.address + code_offset - (if row.end_sequence { 1int } else { 0 });
    if line <= u32::MAX && column <= u32::MAX && 0 <= address <= u32::MAX && row.address
        + code_offset <= u32::MAX {
        Some(
            CodePoint {
                source: row.path,
                address: address as u32,
                line: line as u32,
                column: column as u32,
            },
        )
    } else {
        None
    }
}

/// `points` with `p` put in its address order, replacing the point that
/// had the same address, if any.
pub open spec fn upsert(points: Seq<CodePoint>, p: CodePoint) -> Seq<CodePoint>
    decreases points.len(),
{
    if points.len() == 0 {
        seq![p]
    } else if p.address < points[0].address {
        seq![p] + points
    } else if p.address == points[0].address {
        seq![p] + points.drop_first()
    } else {
        seq![points[0]] + upsert(points.drop_first(), p)
    }
}

/// The points of the rows, inserted in row order, or `None` when a row does
/// not fit.
pub open spec fn table_of(rows: Seq<LineRow>, code_offset: u32) -> Option<Seq<CodePoint>>
    decreases rows.len(),
{
    if rows.len() == 0 {
        Some(Seq::empty())
    } else {
        match (table_of(rows.drop_last(), code_offset), row_point(rows.last(), code_offset)) {
            (Some(t), Some(p)) => Some(upsert(t, p)),
            _ => None,
        }
    }
}

/// Addresses strictly ascend: no two points share an address.
pub open spec fn ascending(points: Seq<CodePoint>) -> bool {
    forall|i: int, j: int|
        0 <= i < j < points.len() ==> (#[trigger] points[i]).address < (#[trigger] points[j]).address
}

/// An ascending sequence has at most one point per 32-bit address.
pub proof fn lemma_ascending_len(points: Seq<CodePoint>)
    requires
        ascending(points),
    ensures
        points.len() <= u32::MAX + 1,
{
    assert forall|i: int| 0 <= i < points.len() implies #[trigger] points[i].address >= i by {
        lemma_ascending_floor(points, i);
    }
    if points.len() > 0 {
        assert(points[points.len() - 1].address >= points.len() - 1);
    }
}

proof fn lemma_ascending_floor(points: Seq<CodePoint>, i: int)
    requires
        ascending(points),
        0 <= i < points.len(),
    ensures
        points[i].address >= i,
    decreases i,
{
    if i > 0 {
        lemma_ascending_floor(points, i - 1);
        assert(points[i - 1].address < points[i].address);
    }
}

/// Code positions in ascending address order, one per address.
pub struct PositionTable {
    points: Vec<CodePoint>,
}

impl PositionTable {
    /// The points, in ascending address order.
    pub closed spec fn points(&self) -> Seq<CodePoint> {
        self.points@
    }

    /// The table's invariant: one point per address, in ascending order.
    pub closed spec fn wf(&self) -> bool {
        ascending(self.points@)
    }

    /// A well-formed table has at most one point per 32-bit address.
    pub proof fn lemma_wf_len(&self)
        requires
            self.wf(),
        ensures
            self.points().len() <= u32::MAX + 1,
    {
        lemma_ascending_len(self.points@);
    }

    /// An empty table.
    pub fn new() -> (t: PositionTable)
        ensures
            t.wf(),
            t.points() == Seq::<CodePoint>::empty(),
    {
        PositionTable { points: Vec::new() }
    }

    /// Number of points.
    pub fn len(&self) -> (n: usize)
        ensures
            n == self.points().len(),
    {
        self.points.len()
    }

    /// The point at a position of the address order.
    pub fn get(&self, i: usize) -> (p: &CodePoint)
        requires
            i < self.points().len(),
        ensures
            *p == self.points()[i as int],
    {
        &self.points[i]
    }

    /// Inserts a point at its address, replacing the point that was there.
    pub fn insert(&mut self, p: CodePoint)
        requires
            old(self).wf(),
        ensures
            final(self).wf(),
            final(self).points() == upsert(old(self).points(), p),
    {
        let ghost s = self.points@;
        let n = self.points.len();
        // First position whose address is not below p's.
        let mut lo: usize = 0;
        let mut hi: usize = n;
        if n > 0 && self.points[n - 1].address < p.address {
            lo = n;
        }
        while lo < hi
            invariant
                s == self.points@,
                n == s.len(),
                ascending(s),
                0 <= lo <= hi <= n,
                forall|j: int| 0 <= j < lo ==> (#[trigger] s[j]).address < p.address,
                forall|j: int| hi <= j < n ==> (#[trigger] s[j]).address >= p.address,
            decreases hi - lo,
        {
            let mid = lo + (hi - lo) / 2;
            if self.points[mid].address < p.address {
                lo = mid + 1;
            } else {
                hi = mid;
            }
        }
        let replace = lo < n && self.points[lo].address == p.address;
        proof {
            lemma_upsert_at(s, p, lo as int);
            lemma_upsert_ascending(s, p);
        }
        if replace {
            self.points.set(lo, p);
            assert(self.points@ =~= s.take(lo as int) + seq![p] + s.skip(lo + 1));
        } else {
            self.points.insert(lo, p);
            assert(self.points@ =~= s.take(lo as int) + seq![p] + s.skip(lo as int));
        }
    }

    /// Builds the table of the rows of all line-number programs, in the
    /// order the reader reports them: each row's address is moved by the
    /// file offset of the code section, an end-of-sequence row is placed on
    /// the last byte of the run it closes, and a later row at an address
    /// replaces the earlier one. Fails with `IntegerOverflow` when an
    /// address, line or column does not fit in 32 bits.
    pub fn build(rows: &Vec<LineRow>, code_offset: u32) -> (r: Result<PositionTable, Error>)
        ensures
            match r {
                Ok(t) => t.wf() && table_of(rows@, code_offset) == Some(t.points()),
                Err(e) => e == Error::IntegerOverflow && table_of(rows@, code_offset) is None,
            },
    {
        let mut table = PositionTable::new();
        let mut i: usize = 0;
        while i < rows.len()
            invariant
                i <= rows.len(),
                table.wf(),
                table_of(rows@.take(i as int), code_offset) == Some(table.points()),
            decreases rows.len() - i,
        {
            assert(rows@.take(i + 1).drop_last() =~= rows@.take(i as int));
            match code_point(&rows[i], code_offset) {
                Some(p) => table.insert(p),
                None => {
                    proof { lemma_table_fails(rows@, code_offset, i + 1); }
                    return Err(Error::IntegerOverflow);
                },
            }
            i = i + 1;
        }
        assert(rows@.take(i as int) =~= rows@);
        Ok(table)
    }
}

fn clone_path(p: &Option<String>) -> (r: Option<String>)
    ensures
        r == *p,
{
    match p {
        Some(s) => Some(s.clone()),
        None => None,
    }
}

/// The code position of a row; see [`row_point`].
pub fn code_point(row: &LineRow, code_offset: u32) -> (r: Option<CodePoint>)
    ensures
        r == row_point(*row, code_offset),
{
    let line: u64 = match row.line {
        Some(l) => l,
        None => 0,
    };
    let column: u64 = match row.column {
        Some(c) => c,
        None => 0,
    };
    if line > u32::MAX as u64 || column > u32::MAX as u64 || row.address > (u32::MAX
        - code_offset) as u64 {
        return None;
    }
    let mut address: u32 = row.address as u32 + code_offset;
    if row.end_sequence {
        if address == 0 {
            return None;
        }
        address = address - 1;
    }
    Some(CodePoint { source: clone_path(&row.path), address, line: line as u32, column: column as u32 })
}

proof fn lemma_table_fails(rows: Seq<LineRow>, code_offset: u32, n: int)
    requires
        0 <= n <= rows.len(),
        table_of(rows.take(n), code_offset) is None,
    ensures
        table_of(rows, code_offset) is None,
    decreases rows.len() - n,
{
    if n < rows.len() {
        assert(rows.take(n + 1).drop_last() =~= rows.take(n));
        lemma_table_fails(rows, code_offset, n + 1);
    } else {
        assert(rows.take(n) =~= rows);
    }
}

/// Where `upsert` places a point, given the first position whose address is
/// not below it.
proof fn lemma_upsert_at(s: Seq<CodePoint>, p: CodePoint, i: int)
    requires
        0 <= i <= s.len(),
        forall|j: int| 0 <= j < i ==> (#[trigger] s[j]).address < p.address,
        i == s.len() || s[i].address >= p.address,
    ensures
        upsert(s, p) == if i < s.len() && s[i].address == p.address {
            s.take(i) + seq![p] + s.skip(i + 1)
        } else {
            s.take(i) + seq![p] + s.skip(i)
        },
    decreases i,
{
    if i == 0 {
        if s.len() > 0 && s[0].address == p.address {
            assert(s.skip(1) =~= s.drop_first());
        }
        assert(s.take(0) =~= Seq::<CodePoint>::empty());
        assert(s.skip(0) =~= s);
    } else {
        let t = s.drop_first();
        assert forall|j: int| 0 <= j < i - 1 implies (#[trigger] t[j]).address < p.address by {
            assert(t[j] == s[j + 1]);
        }
        lemma_upsert_at(t, p, i - 1);
        assert(s.take(i) =~= seq![s[0]] + t.take(i - 1));
        assert(s.skip(i) =~= t.skip(i - 1));
        if i < s.len() {
            assert(s.skip(i + 1) =~= t.skip(i));
        }
    }
}

/// Inserting into an ascending sequence keeps it ascending.
pub proof fn lemma_upsert_ascending(s: Seq<CodePoint>, p: CodePoint)
    requires
        ascending(s),
    ensures
        ascending(upsert(s, p)),
        forall|i: int|
            0 <= i < upsert(s, p).len() ==> (#[trigger] upsert(s, p)[i]).address == p.address
                || s.contains(upsert(s, p)[i]),
    decreases s.len(),
{
    if s.len() > 0 && p.address > s[0].address {
        let t = s.drop_first();
        assert(ascending(t)) by {
            assert forall|i: int, j: int| 0 <= i < j < t.len() implies (#[trigger] t[i]).address
                < (#[trigger] t[j]).address by {
                assert(t[i] == s[i + 1] && t[j] == s[j + 1]);
            }
        }
        lemma_upsert_ascending(t, p);
        let u = upsert(t, p);
        let r = upsert(s, p);
        assert(r == seq![s[0]] + u);
        assert forall|i: int| 0 <= i < r.len() implies (#[trigger] r[i]).address == p.address
            || s.contains(r[i]) by {
            if i > 0 {
                assert(r[i] == u[i - 1]);
                if u[i - 1].address != p.address {
                    let k = choose|k: int| 0 <= k < t.len() && t[k] == u[i - 1];
                    assert(s[k + 1] == r[i]);
                }
            } else {
                assert(s[0] == r[0]);
            }
        }
        assert forall|i: int, j: int| 0 <= i < j < r.len() implies (#[trigger] r[i]).address
            < (#[trigger] r[j]).address by {
            if i == 0 {
                assert(r[j] == u[j - 1]);
                if u[j - 1].address != p.address {
                    let k = choose|k: int| 0 <= k < t.len() && t[k] == u[j - 1];
                    assert(s[k + 1] == t[k]);
                }
            } else {
                assert(r[i] == u[i - 1] && r[j] == u[j - 1]);
            }
        }
    } else if s.len() > 0 && p.address == s[0].address {
        let r = upsert(s, p);
        assert forall|i: int| 0 <= i < r.len() implies (#[trigger] r[i]).address == p.address
            || s.contains(r[i]) by {
            if i > 0 {
                assert(r[i] == s[i]);
            }
        }
        assert forall|i: int, j: int| 0 <= i < j < r.len() implies (#[trigger] r[i]).address
            < (#[trigger] r[j]).address by {
            assert(r[j] == s[j]);
            if i > 0 {
                assert(r[i] == s[i]);
            }
        }
    } else {
        let r = upsert(s, p);
        assert forall|i: int| 0 <= i < r.len() implies (#[trigger] r[i]).address == p.address
            || s.contains(r[i]) by {
            if i > 0 {
                assert(r[i] == s[i - 1]);
            }
        }
        assert forall|i: int, j: int| 0 <= i < j < r.len() implies (#[trigger] r[i]).address
            < (#[trigger] r[j]).address by {
            assert(r[j] == s[j - 1]);
            if i > 0 {
                assert(r[i] == s[i - 1]);
            }
        }
    }
}

/// However the rows fall, the table holds one point per address, in
/// ascending order: an end-of-sequence row that lands on the address of an
/// earlier point replaces it rather than adding a second point there.
pub proof fn lemma_table_ascending(rows: Seq<LineRow>, code_offset: u32)
    ensures
        table_of(rows, code_offset) matches Some(t) ==> ascending(t),
    decreases rows.len(),
{
    if rows.len() > 0 {
        lemma_table_ascending(rows.drop_last(), code_offset);
        if let Some(t) = table_of(rows.drop_last(), code_offset) {
            if let Some(p) = row_point(rows.last(), code_offset) {
                lemma_upsert_ascending(t, p);
            }
        }
    }
}

/// After an insertion the point is in the table, and every earlier point
/// at another address is still there.
pub proof fn lemma_upsert_keeps(s: Seq<CodePoint>, p: CodePoint)
    ensures
        upsert(s, p).contains(p),
        forall|q: CodePoint| s.contains(q) && q.address != p.address ==> upsert(s, p).contains(q),
    decreases s.len(),
{
    let r = upsert(s, p);
    if s.len() == 0 {
        assert(r[0] == p);
    } else if p.address < s[0].address {
        assert(r[0] == p);
        assert forall|q: CodePoint| s.contains(q) && q.address != p.address implies r.contains(q) by {
            let k = choose|k: int| 0 <= k < s.len() && s[k] == q;
            assert(r[k + 1] == q);
        }
    } else if p.address == s[0].address {
        assert(r[0] == p);
        assert forall|q: CodePoint| s.contains(q) && q.address != p.address implies r.contains(q) by {
            let k = choose|k: int| 0 <= k < s.len() && s[k] == q;
            assert(k != 0);
            assert(r[k] == q);
        }
    } else {
        let t = s.drop_first();
        lemma_upsert_keeps(t, p);
        let u = upsert(t, p);
        assert(r == seq![s[0]] + u);
        let k0 = choose|k: int| 0 <= k < u.len() && u[k] == p;
        assert(r[k0 + 1] == p);
        assert forall|q: CodePoint| s.contains(q) && q.address != p.address implies r.contains(q) by {
            let k = choose|k: int| 0 <= k < s.len() && s[k] == q;
            if k == 0 {
                assert(r[0] == q);
            } else {
                assert(t[k - 1] == q);
                assert(t.contains(q));
                let j = choose|j: int| 0 <= j < u.len() && u[j] == q;
                assert(r[j + 1] == q);
            }
        }
    }
}

} // verus!
