//! The ordering codec: converts a zero-based child position into a canonical,
//! order-preserving entry key and back. Keys are fixed-width, zero-padded
//! decimal strings, so that byte-lexicographic key order agrees with numeric
//! position order (an unpadded scheme would place "10" before "2").

use vstd::prelude::*;

verus! {

/// Width of every position key, in decimal digits.
pub const KEY_WIDTH: usize = 10;

/// Positions must lie below 10^KEY_WIDTH, the codec's maximum fan-out.
pub const POSITION_LIMIT: u64 = 10000000000;

/// 10^e.
pub open spec fn pow10(e: nat) -> nat
    decreases e,
{
    if e == 0 {
        1
    } else {
        10 * pow10((e - 1) as nat)
    }
}

/// The low `w` decimal digits of `n`, most significant first, as ASCII bytes.
pub open spec fn position_key_width(n: nat, w: nat) -> Seq<u8>
    decreases w,
{
    if w == 0 {
        Seq::empty()
    } else {
        position_key_width(n / 10, (w - 1) as nat).push((48 + n % 10) as u8)
    }
}

/// The canonical entry key for child position `n`.
pub open spec fn position_key(n: nat) -> Seq<u8> {
    position_key_width(n, KEY_WIDTH as nat)
}

/// A well-formed position key: exactly KEY_WIDTH ASCII decimal digits.
pub open spec fn valid_position_key(s: Seq<u8>) -> bool {
    s.len() == KEY_WIDTH && forall|j: int| 0 <= j < s.len() ==> 48 <= #[trigger] s[j] <= 57
}

/// The numeric value of a sequence of ASCII decimal digits.
pub open spec fn key_value(s: Seq<u8>) -> nat
    decreases s.len(),
{
    if s.len() == 0 {
        0
    } else {
        key_value(s.drop_last()) * 10 + ((s.last() - 48) as nat)
    }
}

/// Strict byte-lexicographic order on byte strings; the order git uses for
/// the entry names this library writes.
pub open spec fn lex_lt(a: Seq<u8>, b: Seq<u8>) -> bool
    decreases a.len(),
{
    if b.len() == 0 {
        false
    } else if a.len() == 0 {
        true
    } else if a[0] < b[0] {
        true
    } else if a[0] > b[0] {
        false
    } else {
        lex_lt(a.drop_first(), b.drop_first())
    }
}

/// Two byte strings whose first bytes differ are ordered by them.
pub proof fn lemma_lex_first_byte(a: Seq<u8>, b: Seq<u8>)
    requires
        a.len() > 0,
        b.len() > 0,
        a[0] < b[0],
    ensures
        lex_lt(a, b),
{
}

/// Appending a smaller byte to equal strings keeps the strict order.
proof fn lemma_lex_push_last(s: Seq<u8>, a: u8, b: u8)
    requires
        a < b,
    ensures
        lex_lt(s.push(a), s.push(b)),
    decreases s.len(),
{
    if s.len() == 0 {
        assert(s.push(a)[0] == a);
        assert(s.push(b)[0] == b);
    } else {
        lemma_lex_push_last(s.drop_first(), a, b);
        assert(s.push(a).drop_first() =~= s.drop_first().push(a));
        assert(s.push(b).drop_first() =~= s.drop_first().push(b));
    }
}

/// Appending anything to strictly ordered strings of one length keeps the order.
proof fn lemma_lex_push_keep(a: Seq<u8>, b: Seq<u8>, x: u8, y: u8)
    requires
        a.len() == b.len(),
        lex_lt(a, b),
    ensures
        lex_lt(a.push(x), b.push(y)),
    decreases a.len(),
{
    if a.len() == 0 {
    } else {
        if a[0] == b[0] {
            lemma_lex_push_keep(a.drop_first(), b.drop_first(), x, y);
            assert(a.push(x).drop_first() =~= a.drop_first().push(x));
            assert(b.push(y).drop_first() =~= b.drop_first().push(y));
        }
    }
}

/// A position key is KEY_WIDTH decimal digits.
pub proof fn lemma_position_key_valid(n: nat, w: nat)
    ensures
        position_key_width(n, w).len() == w,
        forall|j: int|
            0 <= j < w ==> 48 <= #[trigger] position_key_width(n, w)[j] <= 57,
    decreases w,
{
    if w > 0 {
        lemma_position_key_valid(n / 10, (w - 1) as nat);
    }
}

/// Position keys order exactly as the positions they encode: the codec is
/// order-preserving under byte-lexicographic comparison, hence injective.
pub proof fn lemma_position_key_order(i: nat, j: nat, w: nat)
    requires
        i < j,
        j < pow10(w),
    ensures
        lex_lt(position_key_width(i, w), position_key_width(j, w)),
    decreases w,
{
    if w == 0 {
        assert(false);
    } else {
        let a = position_key_width(i / 10, (w - 1) as nat);
        let b = position_key_width(j / 10, (w - 1) as nat);
        lemma_position_key_valid(i / 10, (w - 1) as nat);
        lemma_position_key_valid(j / 10, (w - 1) as nat);
        assert(i / 10 <= j / 10) by (nonlinear_arith)
            requires
                i < j,
        ;
        assert(j / 10 < pow10((w - 1) as nat)) by (nonlinear_arith)
            requires
                j < 10 * pow10((w - 1) as nat),
        ;
        if i / 10 == j / 10 {
            assert(i % 10 < j % 10) by (nonlinear_arith)
                requires
                    i < j,
                    i / 10 == j / 10,
            ;
            assert(a =~= b);
            lemma_lex_push_last(a, (48 + i % 10) as u8, (48 + j % 10) as u8);
        } else {
            lemma_position_key_order(i / 10, j / 10, (w - 1) as nat);
            lemma_lex_push_keep(a, b, (48 + i % 10) as u8, (48 + j % 10) as u8);
        }
    }
}

/// The value of a digit string is below 10^width.
pub proof fn lemma_key_value_bound(s: Seq<u8>)
    requires
        forall|j: int| 0 <= j < s.len() ==> 48 <= #[trigger] s[j] <= 57,
    ensures
        key_value(s) < pow10(s.len()),
    decreases s.len(),
{
    if s.len() > 0 {
        assert(forall|j: int|
            0 <= j < s.drop_last().len() ==> 48 <= #[trigger] s.drop_last()[j] <= 57);
        lemma_key_value_bound(s.drop_last());
        let p = pow10((s.len() - 1) as nat);
        assert(key_value(s.drop_last()) * 10 + 9 < 10 * p) by (nonlinear_arith)
            requires
                key_value(s.drop_last()) < p,
        ;
    }
}

/// Decoding inverts encoding: the key of position `n` has value `n`.
pub proof fn lemma_position_key_roundtrip(n: nat, w: nat)
    requires
        n < pow10(w),
    ensures
        key_value(position_key_width(n, w)) == n,
    decreases w,
{
    if w == 0 {
    } else {
        let a = position_key_width(n / 10, (w - 1) as nat);
        lemma_position_key_valid(n / 10, (w - 1) as nat);
        assert(n / 10 < pow10((w - 1) as nat)) by (nonlinear_arith)
            requires
                n < 10 * pow10((w - 1) as nat),
        ;
        lemma_position_key_roundtrip(n / 10, (w - 1) as nat);
        let s = position_key_width(n, w);
        assert(s.drop_last() =~= a);
        assert(s.last() == (48 + n % 10) as u8);
        assert(key_value(s) == (n / 10) * 10 + n % 10);
        assert((n / 10) * 10 + n % 10 == n) by (nonlinear_arith);
    }
}

/// pow10 is monotone.
pub proof fn lemma_pow10_mono(a: nat, b: nat)
    requires
        a <= b,
    ensures
        pow10(a) <= pow10(b),
    decreases b,
{
    if a < b {
        lemma_pow10_mono(a, (b - 1) as nat);
        assert(pow10((b - 1) as nat) <= 10 * pow10((b - 1) as nat)) by (nonlinear_arith)
            requires
                pow10((b - 1) as nat) >= 0,
        ;
    }
}

/// pow10 of the key width is the position limit.
pub proof fn lemma_pow10_key_width()
    ensures
        pow10(KEY_WIDTH as nat) == POSITION_LIMIT,
{
    reveal_with_fuel(pow10, 11);
}

/// Builds the low `w` digits of `n`, most significant first.
fn position_key_digits(n: u64, w: usize) -> (v: Vec<u8>)
    ensures
        v@ == position_key_width(n as nat, w as nat),
    decreases w,
{
    if w == 0 {
        Vec::new()
    } else {
        let mut v = position_key_digits(n / 10, w - 1);
        v.push((48 + (n % 10)) as u8);
        v
    }
}

/// Encodes a zero-based child position as its canonical entry key.
pub fn encode_position(i: u64) -> (k: Vec<u8>)
    requires
        i < POSITION_LIMIT,
    ensures
        k@ == position_key(i as nat),
{
    position_key_digits(i, KEY_WIDTH)
}

/// Decodes an entry key back into the child position it encodes. Returns
/// `None` exactly when the key is not KEY_WIDTH ASCII decimal digits.
pub fn decode_position(key: &Vec<u8>) -> (r: Option<u64>)
    ensures
        match r {
            Some(v) => valid_position_key(key@) && (v as nat) == key_value(key@) && v < POSITION_LIMIT,
            None => !valid_position_key(key@),
        },
{
    if key.len() != KEY_WIDTH {
        return None;
    }
    let mut acc: u64 = 0;
    let mut k: usize = 0;
    while k < KEY_WIDTH
        invariant
            0 <= k <= KEY_WIDTH,
            key@.len() == KEY_WIDTH,
            forall|j: int| 0 <= j < k ==> 48 <= #[trigger] key@[j] <= 57,
            acc as nat == key_value(key@.take(k as int)),
            (acc as nat) < pow10(k as nat),
        decreases KEY_WIDTH - k,
    {
        let b = key[k];
        if b < 48 || b > 57 {
            return None;
        }
        proof {
            assert(key@.take(k as int + 1).drop_last() =~= key@.take(k as int));
            assert(key@.take(k as int + 1).last() == key@[k as int]);
            lemma_pow10_mono(k as nat + 1, KEY_WIDTH as nat);
            lemma_pow10_key_width();
            assert((acc as nat) * 10 + 9 < 10 * pow10(k as nat)) by (nonlinear_arith)
                requires
                    (acc as nat) < pow10(k as nat),
            ;
        }
        acc = acc * 10 + (b - 48) as u64;
        k = k + 1;
    }
    proof {
        assert(key@.take(KEY_WIDTH as int) =~= key@);
        lemma_key_value_bound(key@);
        lemma_pow10_key_width();
    }
    Some(acc)
}

} // verus!
