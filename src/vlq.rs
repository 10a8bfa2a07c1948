//! The two variable-length integer encodings of this crate: the signed
//! base64 VLQ of source map `mappings`, and the unsigned LEB128 that the
//! WebAssembly container uses for section lengths.
use vstd::prelude::*;

verus! {

/// Largest magnitude that `encode` accepts.
pub const VLQ_MAX: i64 = 0x3fff_ffff_ffff_ffff;

/// The character of the base64 alphabet `A-Za-z0-9+/` for a 6-bit digit.
pub open spec fn base64_char(d: nat) -> char {
    if d < 26 {
        (65 + d) as char
    } else if d < 52 {
        (97 + (d - 26)) as char
    } else if d < 62 {
        (48 + (d - 52)) as char
    } else if d == 62 {
        '+'
    } else {
        '/'
    }
}

/// The 6-bit digit that a base64 character stands for, if any.
pub open spec fn base64_value(c: char) -> Option<nat> {
    let n = c as nat;
    if 65 <= n <= 90 {
        Some((n - 65) as nat)
    } else if 97 <= n <= 122 {
        Some((n - 97 + 26) as nat)
    } else if 48 <= n <= 57 {
        Some((n - 48 + 52) as nat)
    } else if c == '+' {
        Some(62)
    } else if c == '/' {
        Some(63)
    } else {
        None
    }
}

/// The sign-folded form of a value: the magnitude shifted left by one, with
/// the low bit set for negative values.
pub open spec fn fold_sign(v: int) -> nat {
    if v >= 0 {
        (2 * v) as nat
    } else {
        (2 * (-v) + 1) as nat
    }
}

/// The inverse of `fold_sign`.
pub open spec fn unfold_sign(n: nat) -> int {
    if n % 2 == 0 {
        (n / 2) as int
    } else {
        -((n / 2) as int)
    }
}

/// The base64 digits of a folded value: five payload bits per digit, least
/// significant group first, bit 5 set on every digit but the last.
pub open spec fn vlq_digits(n: nat) -> Seq<nat>
    decreases n,
{
    if n < 32 {
        seq![n]
    } else {
        seq![32 + n % 32] + vlq_digits(n / 32)
    }
}

/// The base64 VLQ text of a signed value.
pub open spec fn vlq_text(v: int) -> Seq<char> {
    vlq_digits(fold_sign(v)).map_values(|d: nat| base64_char(d))
}

/// Reads the digits of one VLQ value back into its folded form; `None` when
/// the digits do not end with a final digit.
pub open spec fn vlq_undigits(ds: Seq<nat>) -> Option<nat>
    decreases ds.len(),
{
    if ds.len() == 0 {
        None
    } else if ds[0] < 32 {
        if ds.len() == 1 {
            Some(ds[0])
        } else {
            None
        }
    } else {
        match vlq_undigits(ds.drop_first()) {
            Some(rest) => Some((ds[0] - 32 + 32 * rest) as nat),
            None => None,
        }
    }
}

/// The digits that a run of base64 characters stands for.
pub open spec fn digit_values(s: Seq<char>) -> Seq<nat> {
    s.map_values(|c: char| base64_value(c).unwrap())
}

/// Reads the text of one base64 VLQ value back into the signed value.
pub open spec fn vlq_value(s: Seq<char>) -> Option<int> {
    if forall|i: int| 0 <= i < s.len() ==> (#[trigger] base64_value(s[i])) is Some {
        match vlq_undigits(digit_values(s)) {
            Some(n) => Some(unfold_sign(n)),
            None => None,
        }
    } else {
        None
    }
}

/// The unsigned LEB128 bytes of a value: seven bits per byte, least
/// significant group first, bit 7 set on every byte but the last.
pub open spec fn leb128(n: nat) -> Seq<u8>
    decreases n,
{
    if n < 128 {
        seq![n as u8]
    } else {
        seq![(128 + n % 128) as u8] + leb128(n / 128)
    }
}

proof fn lemma_base64_round_trip(d: nat)
    requires
        d < 64,
    ensures
        base64_value(base64_char(d)) == Some(d),
{
}

proof fn lemma_digits_bounded(n: nat)
    ensures
        forall|i: int| 0 <= i < vlq_digits(n).len() ==> #[trigger] vlq_digits(n)[i] < 64,
    decreases n,
{
    if n >= 32 {
        lemma_digits_bounded(n / 32);
        assert forall|i: int| 0 <= i < vlq_digits(n).len() implies #[trigger] vlq_digits(n)[i]
            < 64 by {
            if i > 0 {
                assert(vlq_digits(n)[i] == vlq_digits(n / 32)[i - 1]);
            }
        }
    }
}

proof fn lemma_undigits_digits(n: nat)
    ensures
        vlq_undigits(vlq_digits(n)) == Some(n),
    decreases n,
{
    if n >= 32 {
        lemma_undigits_digits(n / 32);
        assert(vlq_digits(n).drop_first() =~= vlq_digits(n / 32));
    }
}

/// Decoding the base64 VLQ text of a value gives the value back.
pub proof fn lemma_vlq_round_trip(v: int)
    ensures
        vlq_value(vlq_text(v)) == Some(v),
{
    let ds = vlq_digits(fold_sign(v));
    let s = vlq_text(v);
    lemma_digits_bounded(fold_sign(v));
    assert forall|i: int| 0 <= i < s.len() implies (#[trigger] base64_value(s[i])) is Some by {
        lemma_base64_round_trip(ds[i]);
    }
    assert(digit_values(s) =~= ds) by {
        assert forall|i: int| 0 <= i < ds.len() implies #[trigger] digit_values(s)[i] == ds[i] by {
            lemma_base64_round_trip(ds[i]);
        }
    }
    lemma_undigits_digits(fold_sign(v));
}

fn base64_digit(d: u64) -> (c: char)
    requires
        d < 64,
    ensures
        c == base64_char(d as nat),
{
    if d < 26 {
        (65 + d) as u8 as char
    } else if d < 52 {
        (97 + (d - 26)) as u8 as char
    } else if d < 62 {
        (48 + (d - 52)) as u8 as char
    } else if d == 62 {
        '+'
    } else {
        '/'
    }
}

/// Relies on `String::push`, which appends one character to the string.
#[verifier::external_body]
pub(crate) fn push_char(s: &mut String, c: char)
    ensures
        final(s)@ == old(s)@.push(c),
{
    s.push(c)
}

/// Encodes a signed value as base64 VLQ text, as used in the `mappings`
/// field of a source map.
pub fn encode(value: i64) -> (r: String)
    requires
        -VLQ_MAX <= value <= VLQ_MAX,
    ensures
        r@ == vlq_text(value as int),
{
    let mut x: u64 = if value >= 0 {
        (value as u64) * 2
    } else {
        ((-value) as u64) * 2 + 1
    };
    assert(x == fold_sign(value as int));
    let mut result = String::new();
    while x > 31
        invariant
            result@ + vlq_digits(x as nat).map_values(|d: nat| base64_char(d)) == vlq_text(
                value as int,
            ),
        decreases x,
    {
        let low: u64 = x & 31;
        assert(x & 31 == x % 32) by (bit_vector);
        let ghost before = result@;
        push_char(&mut result, base64_digit(32 + low));
        assert(vlq_digits(x as nat) == seq![32 + (x % 32) as nat] + vlq_digits(x as nat / 32));
        assert(vlq_digits(x as nat).map_values(|d: nat| base64_char(d)) =~= seq![
            base64_char(32 + (x % 32) as nat),
        ] + vlq_digits(x as nat / 32).map_values(|d: nat| base64_char(d)));
        assert(x >> 5 == x / 32) by (bit_vector);
        x = x >> 5;
        assert(result@ + vlq_digits(x as nat).map_values(|d: nat| base64_char(d)) =~= before
            + vlq_digits((x * 32 + low) as nat).map_values(|d: nat| base64_char(d)));
    }
    assert(vlq_digits(x as nat).map_values(|d: nat| base64_char(d)) =~= seq![
        base64_char(x as nat),
    ]);
    push_char(&mut result, base64_digit(x));
    result
}

/// Encodes an unsigned value as LEB128, the variable-length integer of the
/// WebAssembly container format.
pub fn encode_uint_var(n: u32) -> (r: Vec<u8>)
    ensures
        r@ == leb128(n as nat),
{
    let mut n = n;
    let ghost orig = n;
    let mut result: Vec<u8> = Vec::new();
    while n > 127
        invariant
            result@ + leb128(n as nat) == leb128(orig as nat),
        decreases n,
    {
        let ghost before = result@;
        let ghost m = n;
        let low: u32 = n & 127;
        assert(n & 127 == n % 128) by (bit_vector);
        result.push((128 + low) as u8);
        assert(n >> 7 == n / 128) by (bit_vector);
        n = n >> 7;
        assert(leb128(m as nat) == seq![(128 + m % 128) as u8] + leb128(n as nat));
        assert(result@ + leb128(n as nat) =~= before + leb128(m as nat));
    }
    result.push(n as u8);
    assert(leb128(n as nat) == seq![n as u8]);
    result
}

/// `32` to the power `n`.
pub open spec fn pow32(n: nat) -> nat
    decreases n,
{
    if n == 0 {
        1
    } else {
        32 * pow32((n - 1) as nat)
    }
}

/// Longest VLQ text, in characters, that `decode` reads: enough for every
/// value that `encode` writes.
pub const MAX_VLQ_TEXT: usize = 13;

proof fn lemma_digits_len(n: nat, k: nat)
    requires
        n < pow32(k),
        k >= 1,
    ensures
        vlq_digits(n).len() <= k,
    decreases n,
{
    if n >= 32 {
        assert(k >= 2) by {
            if k == 1 {
                reveal_with_fuel(pow32, 2);
            }
        };
        assert(n / 32 < pow32((k - 1) as nat)) by (nonlinear_arith)
            requires
                n < pow32(k),
                pow32(k) == 32 * pow32((k - 1) as nat),
        ;
        lemma_digits_len(n / 32, (k - 1) as nat);
    }
}

/// The text of every value that `encode` accepts is at most
/// `MAX_VLQ_TEXT` characters long, so `decode` reads it back.
pub proof fn lemma_vlq_text_short(v: int)
    requires
        -VLQ_MAX <= v <= VLQ_MAX,
    ensures
        vlq_text(v).len() <= MAX_VLQ_TEXT,
{
    reveal_with_fuel(pow32, 14);
    assert(pow32(13) == 0x2_0000_0000_0000_0000nat);
    lemma_digits_len(fold_sign(v), 13);
}

/// What `vlq_undigits` accepts: a last digit below 32, after digits that
/// all carry the continuation bit.
proof fn lemma_undigits_shape(ds: Seq<nat>)
    ensures
        vlq_undigits(ds) is Some <==> (ds.len() > 0 && ds.last() < 32 && forall|k: int|
            0 <= k < ds.len() - 1 ==> #[trigger] ds[k] >= 32),
    decreases ds.len(),
{
    if ds.len() > 1 {
        let t = ds.drop_first();
        lemma_undigits_shape(t);
        assert(t.last() == ds.last());
        if ds[0] < 32 {
            assert(vlq_undigits(ds) is None);
            assert(!(forall|k: int| 0 <= k < ds.len() - 1 ==> #[trigger] ds[k] >= 32));
        } else {
            assert(vlq_undigits(ds) is Some <==> vlq_undigits(t) is Some);
            if t.last() < 32 && forall|k: int| 0 <= k < t.len() - 1 ==> #[trigger] t[k] >= 32 {
                assert forall|k: int| 0 <= k < ds.len() - 1 implies #[trigger] ds[k] >= 32 by {
                    if k > 0 {
                        assert(ds[k] == t[k - 1]);
                    }
                }
            }
            if ds.last() < 32 && forall|k: int| 0 <= k < ds.len() - 1 ==> #[trigger] ds[k] >= 32 {
                assert forall|k: int| 0 <= k < t.len() - 1 implies #[trigger] t[k] >= 32 by {
                    assert(t[k] == ds[k + 1]);
                }
            }
        }
    } else if ds.len() == 1 {
        assert(vlq_undigits(ds.drop_first()) is None);
    }
}

fn base64_decode_char(c: char) -> (r: Option<u64>)
    ensures
        match base64_value(c) {
            Some(d) => r == Some(d as u64),
            None => r is None,
        },
{
    let n = c as u32;
    if 65 <= n && n <= 90 {
        Some((n - 65) as u64)
    } else if 97 <= n && n <= 122 {
        Some((n - 97 + 26) as u64)
    } else if 48 <= n && n <= 57 {
        Some((n - 48 + 52) as u64)
    } else if c == '+' {
        Some(62)
    } else if c == '/' {
        Some(63)
    } else {
        None
    }
}

/// Reads one base64 VLQ value: the inverse of `encode`. Gives `None` for
/// text that is not exactly one VLQ value, that is longer than
/// `MAX_VLQ_TEXT` characters, or whose value does not fit in an `i64`.
pub fn decode(s: &str) -> (r: Option<i64>)
    ensures
        r matches Some(v) ==> vlq_value(s@) == Some(v as int),
        vlq_value(s@) matches Some(v) ==> (-VLQ_MAX <= v <= VLQ_MAX && s@.len() <= MAX_VLQ_TEXT
            ==> r == Some(v as i64)),
{
    let n = s.unicode_len();
    if n == 0 || n > MAX_VLQ_TEXT {
        proof { lemma_undigits_shape(digit_values(s@)); }
        return None;
    }
    let ghost ds = digit_values(s@);
    let mut acc: u128 = 0;
    let mut i: usize = n;
    proof { reveal_with_fuel(pow32, 14); }
    while i > 0
        invariant
            n == s@.len(),
            1 <= n <= 13,
            i <= n,
            ds == digit_values(s@),
            forall|k: int| i <= k < n ==> (#[trigger] base64_value(s@[k])) is Some,
            i < n ==> vlq_undigits(ds.skip(i as int)) == Some(acc as nat),
            acc < pow32((n - i) as nat),
            pow32(13) == 0x2_0000_0000_0000_0000nat,
        decreases i,
    {
        i = i - 1;
        let c = s.get_char(i);
        let d = match base64_decode_char(c) {
            Some(d) => d,
            None => {
                proof {
                    assert(!(forall|k: int| 0 <= k < s@.len() ==> (#[trigger] base64_value(s@[k])) is Some));
                }
                return None;
            },
        };
        assert(ds[i as int] == d);
        if i + 1 == n {
            if d >= 32 {
                proof { lemma_undigits_shape(ds); }
                return None;
            }
            acc = d as u128;
            assert(ds.skip(i as int) =~= seq![d as nat]);
        } else {
            if d < 32 {
                proof { lemma_undigits_shape(ds); }
                return None;
            }
            proof { lemma_pow32_mono((n - i - 1) as nat, 12); }
            assert(ds.skip(i as int).drop_first() =~= ds.skip(i + 1));
            acc = (d - 32) as u128 + 32 * acc;
        }
    }
    assert(ds.skip(0) =~= ds);
    assert(forall|k: int| 0 <= k < s@.len() ==> (#[trigger] base64_value(s@[k])) is Some);
    let half = acc / 2;
    if half > VLQ_MAX as u128 {
        return None;
    }
    if acc % 2 == 0 {
        Some(half as i64)
    } else {
        Some(-(half as i64))
    }
}

proof fn lemma_pow32_mono(a: nat, b: nat)
    requires
        a <= b,
    ensures
        pow32(a) <= pow32(b),
    decreases b,
{
    if a < b {
        lemma_pow32_mono(a, (b - 1) as nat);
    }
}

/// For every value in the supported range, `decode` reads back exactly the
/// value that `encode` wrote.
pub proof fn lemma_decode_encode(x: int)
    requires
        -VLQ_MAX <= x <= VLQ_MAX,
    ensures
        vlq_value(vlq_text(x)) == Some(x),
        vlq_text(x).len() <= MAX_VLQ_TEXT,
{
    lemma_vlq_round_trip(x);
    lemma_vlq_text_short(x);
}

} // verus!
