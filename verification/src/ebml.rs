//! EBML primitives: variable-length integers (vints), element ids and
//! big-endian unsigned payloads, with encoders that invert the parsers.
//!
//! A vint stores its own width in the leading byte: a first byte in
//! `[2^(8-w), 2^(9-w))` announces a total width of `w` bytes, the marker bit
//! is stripped, and the remaining `7*w` bits form the value, most significant
//! first.  Element ids keep their marker bit and are at most four bytes wide.

use vstd::prelude::*;

verus! {

/// Error raised while decoding EBML primitives out of a byte buffer.
#[derive(Clone, Copy, Debug, PartialEq, Eq, Structural)]
pub enum ParseError {
    /// The buffer ended in the middle of the encoded item; more bytes may
    /// arrive later, so a tail-following caller may retry after the file grows.
    UnexpectedEof,
    /// The bytes cannot begin a well-formed item.
    Corrupt,
}

/// 256^n.
pub open spec fn pow256(n: int) -> int
    decreases n,
{
    if n <= 0 {
        1
    } else {
        256 * pow256(n - 1)
    }
}

/// 128^n.
pub open spec fn pow128(n: int) -> int
    decreases n,
{
    if n <= 0 {
        1
    } else {
        128 * pow128(n - 1)
    }
}

/// Big-endian accumulation of `i` bytes of `s` starting at `pos`, on top of
/// an initial accumulator `first`.
pub open spec fn acc_bytes(first: int, s: Seq<u8>, pos: int, i: int) -> int
    decreases i,
{
    if i <= 0 {
        first
    } else {
        acc_bytes(first, s, pos, i - 1) * 256 + s[pos + i - 1]
    }
}

/// Width in bytes announced by the first byte of a vint; 0 means corrupt.
pub open spec fn vint_width(b: u8) -> int {
    if b >= 128 {
        1
    } else if b >= 64 {
        2
    } else if b >= 32 {
        3
    } else if b >= 16 {
        4
    } else if b >= 8 {
        5
    } else if b >= 4 {
        6
    } else if b >= 2 {
        7
    } else if b >= 1 {
        8
    } else {
        0
    }
}

/// The marker bit of a `w`-byte vint: 2^(8-w).
pub open spec fn vint_marker(w: int) -> int {
    if w == 1 {
        128
    } else if w == 2 {
        64
    } else if w == 3 {
        32
    } else if w == 4 {
        16
    } else if w == 5 {
        8
    } else if w == 6 {
        4
    } else if w == 7 {
        2
    } else if w == 8 {
        1
    } else {
        0
    }
}

/// The all-ones value of a `w`-byte vint, reserved as the "unknown size"
/// sentinel: 2^(7w) - 1.
pub open spec fn vint_all_ones(w: int) -> int {
    pow128(w) - 1
}

/// Value carried by the `w`-byte vint starting at `pos` in `s`: the first
/// byte with its marker stripped, then the remaining bytes, big-endian.
pub open spec fn vint_data(s: Seq<u8>, pos: int, w: int) -> int {
    acc_bytes(s[pos] - vint_marker(w), s, pos + 1, w - 1)
}

/// Result of parsing the size vint at `pos` in `s`: value and width.
pub open spec fn spec_parse_size(s: Seq<u8>, pos: int) -> Result<(int, int), ParseError> {
    if pos >= s.len() {
        Err(ParseError::UnexpectedEof)
    } else if vint_width(s[pos]) == 0 {
        Err(ParseError::Corrupt)
    } else if pos + vint_width(s[pos]) > s.len() {
        Err(ParseError::UnexpectedEof)
    } else {
        Ok((vint_data(s, pos, vint_width(s[pos])), vint_width(s[pos])))
    }
}

/// Width in bytes of the element id whose first byte is `b`; 0 means corrupt.
/// Matroska ids are at most four bytes wide.
pub open spec fn id_width(b: u8) -> int {
    if b >= 128 {
        1
    } else if b >= 64 {
        2
    } else if b >= 32 {
        3
    } else if b >= 16 {
        4
    } else {
        0
    }
}

/// Result of parsing the element id at `pos` in `s`: the id with its marker
/// bits kept (so EBML is 0x1A45DFA3), and its width.
pub open spec fn spec_parse_id(s: Seq<u8>, pos: int) -> Result<(int, int), ParseError> {
    if pos >= s.len() {
        Err(ParseError::UnexpectedEof)
    } else if id_width(s[pos]) == 0 {
        Err(ParseError::Corrupt)
    } else if pos + id_width(s[pos]) > s.len() {
        Err(ParseError::UnexpectedEof)
    } else {
        Ok((acc_bytes(0, s, pos, id_width(s[pos])), id_width(s[pos])))
    }
}

pub proof fn lemma_acc_bytes_bound(first: int, s: Seq<u8>, pos: int, i: int)
    requires
        0 <= first < 256,
    ensures
        0 <= acc_bytes(first, s, pos, i) < pow256(i) * 256,
    decreases i,
{
    if i <= 0 {
    } else {
        lemma_acc_bytes_bound(first, s, pos, i - 1);
    }
}

pub proof fn lemma_pow256_mono(a: int, b: int)
    requires
        a <= b,
    ensures
        0 < pow256(a) <= pow256(b),
    decreases b,
{
    if a < b && b > 0 {
        lemma_pow256_mono(a, b - 1);
    } else if a == b && b > 0 {
        lemma_pow256_mono(a - 1, b - 1);
    }
}

/// Folding zero over `i + 1` bytes is folding the first byte over the rest.
pub proof fn lemma_acc_bytes_shift(s: Seq<u8>, pos: int, i: int)
    requires
        0 <= i,
    ensures
        acc_bytes(0, s, pos, i + 1) == acc_bytes(s[pos] as int, s, pos + 1, i),
    decreases i,
{
    reveal_with_fuel(acc_bytes, 3);
    if i > 0 {
        lemma_acc_bytes_shift(s, pos, i - 1);
    }
}

/// The fold only reads the bytes in `[pos, pos + i)`.
pub proof fn lemma_acc_bytes_congruence(first: int, s1: Seq<u8>, s2: Seq<u8>, pos: int, i: int)
    requires
        forall|j: int| pos <= j < pos + i ==> s1[j] == s2[j],
    ensures
        acc_bytes(first, s1, pos, i) == acc_bytes(first, s2, pos, i),
    decreases i,
{
    if i > 0 {
        lemma_acc_bytes_congruence(first, s1, s2, pos, i - 1);
    }
}

/// 256^n as a machine word.
pub fn pow256_u64(n: usize) -> (r: u64)
    requires
        n <= 7,
    ensures
        r == pow256(n as int),
{
    proof {
        reveal_with_fuel(pow256, 9);
    }
    if n == 0 {
        1
    } else if n == 1 {
        0x100
    } else if n == 2 {
        0x1_0000
    } else if n == 3 {
        0x100_0000
    } else if n == 4 {
        0x1_0000_0000
    } else if n == 5 {
        0x100_0000_0000
    } else if n == 6 {
        0x1_0000_0000_0000
    } else {
        0x100_0000_0000_0000
    }
}

/// Write `value` as exactly `n` big-endian bytes.
pub fn encode_be(value: u64, n: usize) -> (r: Vec<u8>)
    requires
        1 <= n <= 8,
        value < pow256(n as int),
    ensures
        r@.len() == n,
        acc_bytes(0, r@, 0, n as int) == value,
        r@[0] == value as int / pow256(n as int - 1),
        r@ == be_bytes(value as int, n as int),
{
    let mut r: Vec<u8> = Vec::new();
    let mut j: usize = 0;
    proof {
        lemma_pow256_mono(0, n as int);
        vstd::arithmetic::div_mod::lemma_basic_div(value as int, pow256(n as int));
    }
    while j < n
        invariant
            0 <= j <= n <= 8,
            value < pow256(n as int),
            r@.len() == j,
            acc_bytes(0, r@, 0, j as int) == value as int / pow256(n as int - j),
            j >= 1 ==> r@[0] == value as int / pow256(n as int - 1),
        decreases n - j,
    {
        let shift: usize = n - 1 - j;
        let p: u64 = pow256_u64(shift);
        proof {
            lemma_pow256_mono(0, shift as int);
        }
        let b: u8 = ((value / p) % 256) as u8;
        let ghost old_r = r@;
        r.push(b);
        proof {
            lemma_pow256_mono(0, n - j - 1);
            assert(pow256(n - j) == 256 * pow256(n - j - 1));
            vstd::arithmetic::div_mod::lemma_div_denominator(
                value as int,
                pow256(n - j - 1),
                256,
            );
            assert(value as int / pow256(n - j - 1) / 256 == value as int / pow256(n - j));
            vstd::arithmetic::div_mod::lemma_fundamental_div_mod(
                value as int / pow256(n - j - 1),
                256,
            );
            assert(acc_bytes(0, r@, 0, j as int) == acc_bytes(0, old_r, 0, j as int)) by {
                lemma_acc_bytes_congruence(0, r@, old_r, 0, j as int);
            }
            assert(acc_bytes(0, r@, 0, j + 1) == acc_bytes(0, r@, 0, j as int) * 256 + b);
            if j == 0 {
                assert(value as int / pow256(n as int - 1) < 256) by {
                    lemma_pow256_mono(0, n as int - 1);
                    assert(pow256(n as int) == 256 * pow256(n as int - 1));
                    vstd::arithmetic::div_mod::lemma_multiply_divide_lt(
                        value as int,
                        pow256(n as int - 1),
                        256,
                    );
                }
            }
        }
        j = j + 1;
    }
    proof {
        assert(pow256(0) == 1);
        vstd::arithmetic::div_mod::lemma_div_basics(value as int);
        lemma_be_bytes_fold(value as int, n as int);
        lemma_acc_bytes_inj(r@, be_bytes(value as int, n as int), n as int);
        assert(r@ =~= be_bytes(value as int, n as int));
    }
    r
}

/// The width a minimally encoded size vint uses for `v`.
pub open spec fn size_vint_len(v: int) -> int {
    if v < 0x7f {
        1
    } else if v < 0x3fff {
        2
    } else if v < 0x1f_ffff {
        3
    } else if v < 0xfff_ffff {
        4
    } else if v < 0x7_ffff_ffff {
        5
    } else if v < 0x3ff_ffff_ffff {
        6
    } else if v < 0x1_ffff_ffff_ffff {
        7
    } else {
        8
    }
}

/// Arithmetic facts tying the marker bit of a `w`-byte vint to the powers
/// used by the byte folds.
pub proof fn lemma_vint_pows(w: int)
    requires
        1 <= w <= 8,
    ensures
        vint_marker(w) * pow256(w - 1) == pow128(w),
        pow128(w) <= pow256(w),
        vint_all_ones(w) == pow128(w) - 1,
{
    reveal_with_fuel(pow256, 9);
    reveal_with_fuel(pow128, 9);
    if w == 1 {
    } else if w == 2 {
    } else if w == 3 {
    } else if w == 4 {
    } else if w == 5 {
    } else if w == 6 {
    } else if w == 7 {
    } else {
    }
}

/// A first byte in `[marker, 2 * marker)` announces width `w`.
pub proof fn lemma_width_of_marked(w: int, b: u8)
    requires
        1 <= w <= 8,
        vint_marker(w) <= b < 2 * vint_marker(w),
    ensures
        vint_width(b) == w,
{
}

/// The bytes of the minimal-width size vint for `v`: the plain big-endian
/// bytes with the marker bit added onto the leading byte.
pub open spec fn size_bytes(v: int) -> Seq<u8> {
    let w = size_vint_len(v);
    be_bytes(v, w).update(0, (be_bytes(v, w)[0] + vint_marker(w)) as u8)
}

/// The bytes of an element id; its marker bits are already part of the id.
pub open spec fn id_bytes(id: int) -> Seq<u8> {
    be_bytes(id, id_nbytes(id))
}

/// The bytes of a minimal big-endian unsigned payload.
pub open spec fn uint_bytes(v: int) -> Seq<u8> {
    be_bytes(v, uint_nbytes(v))
}

/// Encode `value` as a minimal-width size vint.
pub fn encode_size(value: u64) -> (r: Vec<u8>)
    requires
        value < vint_all_ones(8),
    ensures
        r@.len() == size_vint_len(value as int),
        spec_parse_size(r@, 0) == Ok::<(int, int), ParseError>(
            (value as int, r@.len() as int),
        ),
        vint_data(r@, 0, r@.len() as int) != vint_all_ones(r@.len() as int),
        r@ == size_bytes(value as int),
{
    proof {
        reveal_with_fuel(pow128, 9);
    }
    let w: usize = if value < 0x7f {
        1
    } else if value < 0x3fff {
        2
    } else if value < 0x1f_ffff {
        3
    } else if value < 0xfff_ffff {
        4
    } else if value < 0x7_ffff_ffff {
        5
    } else if value < 0x3ff_ffff_ffff {
        6
    } else if value < 0x1_ffff_ffff_ffff {
        7
    } else {
        8
    };
    proof {
        lemma_vint_pows(w as int);
        lemma_pow256_mono(0, w - 1);
    }
    let mut r: Vec<u8> = encode_be(value, w);
    let marker: u8 = if w == 1 {
        128
    } else if w == 2 {
        64
    } else if w == 3 {
        32
    } else if w == 4 {
        16
    } else if w == 5 {
        8
    } else if w == 6 {
        4
    } else if w == 7 {
        2
    } else {
        1
    };
    proof {
        assert(value < vint_marker(w as int) * pow256(w - 1));
        vstd::arithmetic::div_mod::lemma_multiply_divide_lt(
            value as int,
            pow256(w - 1),
            vint_marker(w as int),
        );
    }
    let ghost plain = r@;
    let b0: u8 = r[0];
    r.set(0, b0 + marker);
    proof {
        lemma_width_of_marked(w as int, r@[0] as u8);
        lemma_acc_bytes_shift(plain, 0, w - 1);
        lemma_acc_bytes_congruence(b0 as int, plain, r@, 1, w - 1);
        assert(vint_data(r@, 0, w as int) == value);
        assert(r@ =~= size_bytes(value as int));
    }
    r
}

/// Encode the one-byte all-ones "unknown size" sentinel.
pub fn encode_unknown_size() -> (r: Vec<u8>)
    ensures
        r@ =~= seq![0xffu8],
        spec_parse_size(r@, 0) == Ok::<(int, int), ParseError>((vint_all_ones(1), 1)),
{
    let mut r: Vec<u8> = Vec::new();
    r.push(0xff);
    proof {
        reveal_with_fuel(pow128, 2);
        assert(vint_data(r@, 0, 1) == 127);
    }
    r
}

/// An id is well formed when its magnitude agrees with the width its
/// leading byte announces.
pub open spec fn valid_id(id: int) -> bool {
    ||| 0x80 <= id < 0x100
    ||| 0x4000 <= id < 0x8000
    ||| 0x20_0000 <= id < 0x40_0000
    ||| 0x1000_0000 <= id < 0x2000_0000
}

/// Byte width of a well-formed id.
pub open spec fn id_nbytes(id: int) -> int {
    if id < 0x100 {
        1
    } else if id < 0x8000 {
        2
    } else if id < 0x40_0000 {
        3
    } else {
        4
    }
}

/// Encode an element id; its marker bits are part of the id itself.
pub fn encode_id(id: u64) -> (r: Vec<u8>)
    requires
        valid_id(id as int),
    ensures
        r@.len() == id_nbytes(id as int),
        spec_parse_id(r@, 0) == Ok::<(int, int), ParseError>((id as int, r@.len() as int)),
        r@ == id_bytes(id as int),
{
    proof {
        reveal_with_fuel(pow256, 9);
    }
    let w: usize = if id < 0x100 {
        1
    } else if id < 0x8000 {
        2
    } else if id < 0x40_0000 {
        3
    } else {
        4
    };
    let r: Vec<u8> = encode_be(id, w);
    proof {
        if w == 2 {
            vstd::arithmetic::div_mod::lemma_div_is_ordered(0x4000, id as int, 0x100);
        } else if w == 3 {
            vstd::arithmetic::div_mod::lemma_div_is_ordered(0x20_0000, id as int, 0x1_0000);
        } else if w == 4 {
            vstd::arithmetic::div_mod::lemma_div_is_ordered(
                0x1000_0000,
                id as int,
                0x100_0000,
            );
        }
        vstd::arithmetic::div_mod::lemma_multiply_divide_lt(
            id as int,
            pow256(w - 1),
            if w == 1 {
                0x100
            } else if w == 2 {
                0x80
            } else if w == 3 {
                0x40
            } else {
                0x20
            },
        );
    }
    r
}

/// The width a minimal big-endian unsigned payload uses for `v`; at least
/// one byte, so zero is stored as one zero byte.
pub open spec fn uint_nbytes(v: int) -> int {
    if v < 0x100 {
        1
    } else if v < 0x1_0000 {
        2
    } else if v < 0x100_0000 {
        3
    } else if v < 0x1_0000_0000 {
        4
    } else if v < 0x100_0000_0000 {
        5
    } else if v < 0x1_0000_0000_0000 {
        6
    } else if v < 0x100_0000_0000_0000 {
        7
    } else {
        8
    }
}

/// Encode `value` as a minimal big-endian unsigned payload, as a Timestamp
/// element stores its time.
pub fn encode_uint(value: u64) -> (r: Vec<u8>)
    ensures
        r@.len() == uint_nbytes(value as int),
        acc_bytes(0, r@, 0, r@.len() as int) == value,
        r@ == uint_bytes(value as int),
{
    proof {
        reveal_with_fuel(pow256, 9);
    }
    let w: usize = if value < 0x100 {
        1
    } else if value < 0x1_0000 {
        2
    } else if value < 0x100_0000 {
        3
    } else if value < 0x1_0000_0000 {
        4
    } else if value < 0x100_0000_0000 {
        5
    } else if value < 0x1_0000_0000_0000 {
        6
    } else if value < 0x100_0000_0000_0000 {
        7
    } else {
        8
    };
    encode_be(value, w)
}

/// The big-endian bytes of `v`, `n` bytes wide.
pub open spec fn be_bytes(v: int, n: int) -> Seq<u8>
    decreases n,
{
    if n <= 0 {
        Seq::empty()
    } else {
        be_bytes(v / 256, n - 1).push((v % 256) as u8)
    }
}

/// `be_bytes` folds back to the value it encodes.
pub proof fn lemma_be_bytes_fold(v: int, n: int)
    requires
        0 <= n,
        0 <= v < pow256(n),
    ensures
        be_bytes(v, n).len() == n,
        acc_bytes(0, be_bytes(v, n), 0, n) == v,
    decreases n,
{
    if n > 0 {
        lemma_pow256_mono(0, n - 1);
        vstd::arithmetic::div_mod::lemma_div_is_ordered(v, pow256(n) - 1, 256);
        assert(pow256(n) == 256 * pow256(n - 1));
        assert((pow256(n) - 1) / 256 < pow256(n - 1)) by {
            vstd::arithmetic::div_mod::lemma_multiply_divide_lt(
                pow256(n) - 1,
                256,
                pow256(n - 1),
            );
        }
        lemma_be_bytes_fold(v / 256, n - 1);
        let s = be_bytes(v, n);
        let pre = be_bytes(v / 256, n - 1);
        lemma_acc_bytes_congruence(0, s, pre, 0, n - 1);
        vstd::arithmetic::div_mod::lemma_fundamental_div_mod(v, 256);
    }
}

/// Two byte runs with the same length and the same fold hold the same bytes.
pub proof fn lemma_acc_bytes_inj(s1: Seq<u8>, s2: Seq<u8>, n: int)
    requires
        0 <= n,
        acc_bytes(0, s1, 0, n) == acc_bytes(0, s2, 0, n),
    ensures
        forall|j: int| 0 <= j < n ==> s1[j] == s2[j],
    decreases n,
{
    if n > 0 {
        let a1 = acc_bytes(0, s1, 0, n - 1);
        let a2 = acc_bytes(0, s2, 0, n - 1);
        lemma_acc_bytes_bound(0, s1, 0, n - 1);
        lemma_acc_bytes_bound(0, s2, 0, n - 1);
        let x = acc_bytes(0, s1, 0, n);
        vstd::arithmetic::div_mod::lemma_fundamental_div_mod_converse(
            x,
            256,
            a1,
            s1[n - 1] as int,
        );
        vstd::arithmetic::div_mod::lemma_fundamental_div_mod_converse(
            x,
            256,
            a2,
            s2[n - 1] as int,
        );
        lemma_acc_bytes_inj(s1, s2, n - 1);
    }
}

/// The fold only depends on the bytes read, wherever they sit.
pub proof fn lemma_acc_bytes_offset(first: int, s1: Seq<u8>, p1: int, s2: Seq<u8>, p2: int, i: int)
    requires
        forall|j: int| 0 <= j < i ==> #[trigger] s1[p1 + j] == s2[p2 + j],
    ensures
        acc_bytes(first, s1, p1, i) == acc_bytes(first, s2, p2, i),
    decreases i,
{
    if i > 0 {
        lemma_acc_bytes_offset(first, s1, p1, s2, p2, i - 1);
        assert(s1[p1 + (i - 1)] == s2[p2 + (i - 1)]);
    }
}

/// The leading byte of a big-endian encoding carries the top digits.
pub proof fn lemma_be_bytes_first(v: int, n: int)
    requires
        1 <= n,
        0 <= v < pow256(n),
    ensures
        be_bytes(v, n)[0] == v / pow256(n - 1),
    decreases n,
{
    reveal_with_fuel(be_bytes, 3);
    if n == 1 {
        assert(pow256(0) == 1);
        vstd::arithmetic::div_mod::lemma_basic_div(v, 256);
        vstd::arithmetic::div_mod::lemma_div_basics(v);
        vstd::arithmetic::div_mod::lemma_small_mod(v as nat, 256);
    } else {
        lemma_pow256_mono(0, n - 2);
        lemma_pow256_mono(0, n - 1);
        assert(pow256(n) == 256 * pow256(n - 1));
        assert(v / 256 < pow256(n - 1)) by {
            vstd::arithmetic::div_mod::lemma_multiply_divide_lt(v, 256, pow256(n - 1));
        }
        lemma_be_bytes_fold(v / 256, n - 1);
        lemma_be_bytes_first(v / 256, n - 1);
        assert(pow256(n - 1) == 256 * pow256(n - 2));
        vstd::arithmetic::div_mod::lemma_div_denominator(v, 256, pow256(n - 2));
    }
}

/// The bytes of a well-formed id parse back to that id.
pub proof fn lemma_id_bytes_parse(id: int)
    requires
        valid_id(id),
    ensures
        id_bytes(id).len() == id_nbytes(id),
        spec_parse_id(id_bytes(id), 0) == Ok::<(int, int), ParseError>((id, id_nbytes(id))),
{
    reveal_with_fuel(pow256, 9);
    let n = id_nbytes(id);
    lemma_be_bytes_fold(id, n);
    lemma_be_bytes_first(id, n);
    let r = id_bytes(id);
    if n == 2 {
        vstd::arithmetic::div_mod::lemma_div_is_ordered(0x4000, id, 0x100);
        vstd::arithmetic::div_mod::lemma_multiply_divide_lt(id, 0x100, 0x80);
    } else if n == 3 {
        vstd::arithmetic::div_mod::lemma_div_is_ordered(0x20_0000, id, 0x1_0000);
        vstd::arithmetic::div_mod::lemma_multiply_divide_lt(id, 0x1_0000, 0x40);
    } else if n == 4 {
        vstd::arithmetic::div_mod::lemma_div_is_ordered(0x1000_0000, id, 0x100_0000);
        vstd::arithmetic::div_mod::lemma_multiply_divide_lt(id, 0x100_0000, 0x20);
    }
    assert(id_width(r[0]) == n);
}

/// The bytes of a minimal size vint parse back to the size, and are never
/// the unknown-size sentinel.
pub proof fn lemma_size_bytes_parse(v: int)
    requires
        0 <= v < vint_all_ones(8),
    ensures
        size_bytes(v).len() == size_vint_len(v),
        spec_parse_size(size_bytes(v), 0) == Ok::<(int, int), ParseError>((v, size_vint_len(v))),
        v != vint_all_ones(size_vint_len(v)),
{
    reveal_with_fuel(pow128, 9);
    reveal_with_fuel(pow256, 9);
    let w = size_vint_len(v);
    lemma_vint_pows(w);
    lemma_be_bytes_fold(v, w);
    lemma_be_bytes_first(v, w);
    let plain = be_bytes(v, w);
    let r = size_bytes(v);
    assert(v < vint_marker(w) * pow256(w - 1));
    vstd::arithmetic::div_mod::lemma_multiply_divide_lt(v, pow256(w - 1), vint_marker(w));
    assert(r[0] == plain[0] + vint_marker(w));
    lemma_width_of_marked(w, r[0]);
    lemma_acc_bytes_shift(plain, 0, w - 1);
    lemma_acc_bytes_congruence(plain[0] as int, plain, r, 1, w - 1);
    assert(vint_data(r, 0, w) == v);
}

/// The fold stays below `(first + 1) * 256^i`.
pub proof fn lemma_acc_bytes_bound_first(first: int, s: Seq<u8>, pos: int, i: int)
    requires
        0 <= first,
        0 <= i,
    ensures
        acc_bytes(first, s, pos, i) < (first + 1) * pow256(i),
    decreases i,
{
    lemma_pow256_mono(0, i);
    if i == 0 {
        assert((first + 1) * pow256(0) == first + 1);
    } else {
        lemma_acc_bytes_bound_first(first, s, pos, i - 1);
        lemma_pow256_mono(0, i - 1);
        assert(pow256(i) == 256 * pow256(i - 1));
        assert(acc_bytes(first, s, pos, i - 1) * 256 + 255 < (first + 1) * pow256(i)) by {
            assert(acc_bytes(first, s, pos, i - 1) <= (first + 1) * pow256(i - 1) - 1);
            assert(((first + 1) * pow256(i - 1) - 1) * 256 + 255 < (first + 1) * (256 * pow256(
                i - 1,
            ))) by (nonlinear_arith)
                requires
                    acc_bytes(first, s, pos, i - 1) <= (first + 1) * pow256(i - 1) - 1,
                    pow256(i - 1) > 0,
                    first >= 0,
            ;
            assert(acc_bytes(first, s, pos, i - 1) * 256 <= ((first + 1) * pow256(i - 1) - 1)
                * 256) by (nonlinear_arith)
                requires
                    acc_bytes(first, s, pos, i - 1) <= (first + 1) * pow256(i - 1) - 1,
            ;
        }
    }
}

/// A successfully parsed size vint is non-negative and below 2^(7w): it
/// fits the value bits of its width.
pub proof fn lemma_parse_size_bounds(s: Seq<u8>, pos: int)
    requires
        spec_parse_size(s, pos) is Ok,
    ensures
        ({
            let (v, w) = spec_parse_size(s, pos)->Ok_0;
            0 <= v < pow128(w)
        }),
{
    let w = vint_width(s[pos]);
    assert(s[pos] >= vint_marker(w));
    lemma_acc_bytes_bound(s[pos] - vint_marker(w), s, pos + 1, w - 1);
    lemma_acc_bytes_bound_first(s[pos] - vint_marker(w), s, pos + 1, w - 1);
    lemma_vint_pows(w);
    assert(s[pos] - vint_marker(w) + 1 <= vint_marker(w));
    assert((s[pos] - vint_marker(w) + 1) * pow256(w - 1) <= vint_marker(w) * pow256(w - 1)) by {
        lemma_pow256_mono(0, w - 1);
        vstd::arithmetic::mul::lemma_mul_inequality(
            s[pos] - vint_marker(w) + 1,
            vint_marker(w),
            pow256(w - 1),
        );
    }
}

/// A parsed element id is well formed: its magnitude agrees with the width
/// its leading byte announced.
pub proof fn lemma_parsed_id_valid(s: Seq<u8>, pos: int)
    requires
        spec_parse_id(s, pos) is Ok,
    ensures
        valid_id(spec_parse_id(s, pos)->Ok_0.0),
{
    reveal_with_fuel(acc_bytes, 6);
    let w = id_width(s[pos]);
    let b0 = s[pos] as int;
    if w == 1 {
    } else if w == 2 {
        assert(acc_bytes(0, s, pos, 2) == b0 * 256 + s[pos + 1]);
    } else if w == 3 {
        assert(acc_bytes(0, s, pos, 3) == (b0 * 256 + s[pos + 1]) * 256 + s[pos + 2]);
    } else {
        let b3 = s[pos + 3] as int;
        assert(acc_bytes(0, s, pos, 4) == ((b0 * 256 + s[pos + 1]) * 256 + s[pos + 2]) * 256 + b3);
    }
}

/// A parsed size vint.
#[derive(Clone, Copy, Debug, PartialEq, Eq, Structural)]
pub struct SizeVint {
    /// The decoded size.
    pub value: u64,
    /// How many bytes of input the vint occupied.
    pub width: usize,
    /// Whether the vint is the all-ones "unknown size" sentinel.
    pub unknown: bool,
}

/// The all-ones value of a `w`-byte vint, as a machine word.
pub fn vint_all_ones_u64(w: usize) -> (r: u64)
    requires
        1 <= w <= 8,
    ensures
        r == vint_all_ones(w as int),
{
    proof {
        reveal_with_fuel(pow128, 9);
    }
    if w == 1 {
        0x7f
    } else if w == 2 {
        0x3fff
    } else if w == 3 {
        0x1f_ffff
    } else if w == 4 {
        0xfff_ffff
    } else if w == 5 {
        0x7_ffff_ffff
    } else if w == 6 {
        0x3ff_ffff_ffff
    } else if w == 7 {
        0x1_ffff_ffff_ffff
    } else {
        0xff_ffff_ffff_ffff
    }
}

/// Parse the size vint at `pos` in `buf`.
pub fn parse_size(buf: &Vec<u8>, pos: usize) -> (r: Result<SizeVint, ParseError>)
    ensures
        match r {
            Ok(v) => {
                &&& spec_parse_size(buf@, pos as int) == Ok::<(int, int), ParseError>(
                    (v.value as int, v.width as int),
                )
                &&& 1 <= v.width <= 8
                &&& pos + v.width <= buf@.len()
                &&& (v.unknown <==> v.value == vint_all_ones(v.width as int))
            },
            Err(e) => spec_parse_size(buf@, pos as int) == Err::<(int, int), ParseError>(e),
        },
{
    if pos >= buf.len() {
        return Err(ParseError::UnexpectedEof);
    }
    let b0: u8 = buf[pos];
    let w: usize = if b0 >= 128 {
        1
    } else if b0 >= 64 {
        2
    } else if b0 >= 32 {
        3
    } else if b0 >= 16 {
        4
    } else if b0 >= 8 {
        5
    } else if b0 >= 4 {
        6
    } else if b0 >= 2 {
        7
    } else if b0 >= 1 {
        8
    } else {
        return Err(ParseError::Corrupt);
    };
    if buf.len() - pos < w {
        return Err(ParseError::UnexpectedEof);
    }
    let marker: u8 = if w == 1 {
        128
    } else if w == 2 {
        64
    } else if w == 3 {
        32
    } else if w == 4 {
        16
    } else if w == 5 {
        8
    } else if w == 6 {
        4
    } else if w == 7 {
        2
    } else {
        1
    };
    let mut value: u64 = (b0 - marker) as u64;
    let mut i: usize = 1;
    proof {
        reveal_with_fuel(pow256, 9);
    }
    while i < w
        invariant
            1 <= i <= w <= 8,
            pos + w <= buf.len(),
            marker == vint_marker(w as int),
            b0 == buf@[pos as int],
            b0 >= marker,
            value == acc_bytes(b0 - marker, buf@, pos + 1, i - 1),
            value < pow256(i as int),
            pow256(8) == 0x1_0000_0000_0000_0000,
        decreases w - i,
    {
        proof {
            lemma_pow256_mono(i + 1, 8);
            assert(pow256(i + 1) == 256 * pow256(i as int));
        }
        value = value * 256 + buf[pos + i] as u64;
        i = i + 1;
    }
    let sentinel: u64 = vint_all_ones_u64(w);
    Ok(SizeVint { value, width: w, unknown: value == sentinel })
}

/// Parse the element id at `pos` in `buf`; the id keeps its marker bits.
pub fn parse_id(buf: &Vec<u8>, pos: usize) -> (r: Result<(u64, usize), ParseError>)
    ensures
        match r {
            Ok(v) => {
                &&& spec_parse_id(buf@, pos as int) == Ok::<(int, int), ParseError>(
                    (v.0 as int, v.1 as int),
                )
                &&& 1 <= v.1 <= 4
                &&& pos + v.1 <= buf@.len()
            },
            Err(e) => spec_parse_id(buf@, pos as int) == Err::<(int, int), ParseError>(e),
        },
{
    if pos >= buf.len() {
        return Err(ParseError::UnexpectedEof);
    }
    let b0: u8 = buf[pos];
    let w: usize = if b0 >= 128 {
        1
    } else if b0 >= 64 {
        2
    } else if b0 >= 32 {
        3
    } else if b0 >= 16 {
        4
    } else {
        return Err(ParseError::Corrupt);
    };
    if buf.len() - pos < w {
        return Err(ParseError::UnexpectedEof);
    }
    let mut value: u64 = 0;
    let mut i: usize = 0;
    proof {
        reveal_with_fuel(pow256, 9);
    }
    while i < w
        invariant
            0 <= i <= w <= 4,
            pos + w <= buf.len(),
            value == acc_bytes(0, buf@, pos as int, i as int),
            value < pow256(i as int),
            pow256(8) == 0x1_0000_0000_0000_0000,
        decreases w - i,
    {
        proof {
            lemma_pow256_mono(i + 1, 8);
            assert(pow256(i + 1) == 256 * pow256(i as int));
        }
        value = value * 256 + buf[pos + i] as u64;
        i = i + 1;
    }
    Ok((value, w))
}

/// Parse the `n`-byte big-endian unsigned integer at `pos` in `buf`, as a
/// Timestamp payload is stored.
pub fn parse_uint(buf: &Vec<u8>, pos: usize, n: usize) -> (r: Result<u64, ParseError>)
    requires
        pos + n <= buf@.len(),
    ensures
        match r {
            Ok(v) => n <= 8 && v == acc_bytes(0, buf@, pos as int, n as int),
            Err(e) => n > 8 && e == (ParseError::Corrupt),
        },
{
    if n > 8 {
        return Err(ParseError::Corrupt);
    }
    let mut value: u64 = 0;
    let mut i: usize = 0;
    proof {
        reveal_with_fuel(pow256, 9);
    }
    while i < n
        invariant
            0 <= i <= n <= 8,
            pos + n <= buf.len(),
            value == acc_bytes(0, buf@, pos as int, i as int),
            value < pow256(i as int),
            pow256(8) == 0x1_0000_0000_0000_0000,
        decreases n - i,
    {
        proof {
            lemma_pow256_mono(i + 1, 8);
            assert(pow256(i + 1) == 256 * pow256(i as int));
        }
        value = value * 256 + buf[pos + i] as u64;
        i = i + 1;
    }
    Ok(value)
}

} // verus!
