//! Byte-level helpers shared by the wire codec and the snapshot decoder:
//! decimal digits, ASCII case folding, and UTF-8 validation.

use vstd::prelude::*;

verus! {

/// Carriage return.
pub const CR: u8 = 13;

/// Line feed.
pub const LF: u8 = 10;

/// The byte `' '`.
pub const SP: u8 = 32;

/// The byte `'+'`.
pub const PLUS: u8 = 43;

/// The byte `'-'`.
pub const MINUS: u8 = 45;

/// The byte `'$'`.
pub const DOLLAR: u8 = 36;

/// The byte `'*'`.
pub const STAR: u8 = 42;

/// The byte `'1'`.
pub const ONE: u8 = 49;

pub open spec fn is_digit(b: u8) -> bool {
    48 <= b && b <= 57
}

pub open spec fn digit_val(b: u8) -> nat {
    (b - 48) as nat
}

pub open spec fn all_digits(s: Seq<u8>) -> bool {
    forall|i: int| 0 <= i < s.len() ==> is_digit(#[trigger] s[i])
}

/// The number denoted by a sequence of decimal digit bytes (most significant
/// first); leading zeros are allowed.
pub open spec fn digits_to_nat(s: Seq<u8>) -> nat
    decreases s.len(),
{
    if s.len() == 0 {
        0
    } else {
        digits_to_nat(s.drop_last()) * 10 + digit_val(s.last())
    }
}

/// The canonical decimal digit bytes of `n`: no sign, no leading zero.
pub open spec fn dec_digits(n: nat) -> Seq<u8>
    decreases n,
{
    if n < 10 {
        seq![(48 + n) as u8]
    } else {
        dec_digits(n / 10).push((48 + n % 10) as u8)
    }
}

pub proof fn lemma_dec_digits(n: nat)
    ensures
        dec_digits(n).len() >= 1,
        all_digits(dec_digits(n)),
        digits_to_nat(dec_digits(n)) == n,
    decreases n,
{
    if n < 10 {
        assert(dec_digits(n) =~= seq![(48 + n) as u8]);
        assert(dec_digits(n).drop_last() =~= Seq::<u8>::empty());
        assert(digits_to_nat(Seq::<u8>::empty()) == 0);
        assert(digit_val((48 + n) as u8) == n);
        assert(digits_to_nat(dec_digits(n)) == n);
    } else {
        lemma_dec_digits(n / 10);
        assert(dec_digits(n).drop_last() =~= dec_digits(n / 10));
        assert(dec_digits(n).last() == (48 + n % 10) as u8);
        assert(digit_val((48 + n % 10) as u8) == n % 10);
        assert(digits_to_nat(dec_digits(n)) == (n / 10) * 10 + n % 10);
    }
}

/// A digit sequence never grows smaller when extended on the right.
pub proof fn lemma_digits_prefix_le(s: Seq<u8>, i: int)
    requires
        0 <= i <= s.len(),
    ensures
        digits_to_nat(s.take(i)) <= digits_to_nat(s),
    decreases s.len(),
{
    if i < s.len() {
        assert(s.take(i) =~= s.drop_last().take(i));
        lemma_digits_prefix_le(s.drop_last(), i);
    } else {
        assert(s.take(i) =~= s);
    }
}

/// Writes the decimal digits of `n` onto the end of `out`.
pub fn push_decimal(out: &mut Vec<u8>, n: u64)
    ensures
        final(out)@ == old(out)@ + dec_digits(n as nat),
    decreases n,
{
    if n < 10 {
        out.push((48 + n) as u8);
        assert(out@ =~= old(out)@ + dec_digits(n as nat));
    } else {
        push_decimal(out, n / 10);
        out.push(48 + (n % 10) as u8);
        assert(out@ =~= old(out)@ + dec_digits(n as nat));
    }
}

/// Parses an unsigned decimal integer: all bytes must be digits, the sequence
/// must be non-empty, and the value must fit in a `u64`.
pub fn parse_u64(s: &[u8]) -> (r: Option<u64>)
    ensures
        match r {
            Some(v) => s@.len() > 0 && all_digits(s@) && digits_to_nat(s@) == v as nat,
            None => s@.len() == 0 || !all_digits(s@) || digits_to_nat(s@) > u64::MAX,
        },
{
    if s.len() == 0 {
        return None;
    }
    let mut acc: u64 = 0;
    let mut i: usize = 0;
    while i < s.len()
        invariant
            0 <= i <= s@.len(),
            all_digits(s@.take(i as int)),
            acc as nat == digits_to_nat(s@.take(i as int)),
        decreases s@.len() - i,
    {
        let b = s[i];
        if b < 48 || b > 57 {
            assert(!is_digit(s@[i as int]));
            return None;
        }
        let d: u64 = (b - 48) as u64;
        proof {
            assert(s@.take(i + 1).drop_last() =~= s@.take(i as int));
            assert(s@.take(i + 1).last() == s@[i as int]);
        }
        if acc > (u64::MAX - d) / 10 {
            proof {
                assert(acc * 10 + d > u64::MAX) by (nonlinear_arith)
                    requires
                        acc > (u64::MAX - d) / 10,
                        d <= 9,
                        acc <= u64::MAX,
                {}
                assert(digits_to_nat(s@.take(i + 1)) > u64::MAX);
                lemma_digits_prefix_le(s@, i + 1);
            }
            return None;
        }
        proof {
            assert(acc * 10 + d <= u64::MAX) by (nonlinear_arith)
                requires
                    acc <= (u64::MAX - d) / 10,
                    d <= 9,
                {}
        }
        acc = acc * 10 + d;
        i = i + 1;
    }
    proof {
        assert(s@.take(i as int) =~= s@);
    }
    Some(acc)
}

pub open spec fn upper_byte(b: u8) -> u8 {
    if 97 <= b && b <= 122 {
        (b - 32) as u8
    } else {
        b
    }
}

/// ASCII uppercasing of a byte sequence; bytes outside `a..=z` are unchanged.
pub open spec fn upper(s: Seq<u8>) -> Seq<u8> {
    Seq::new(s.len(), |i: int| upper_byte(s[i]))
}

/// True exactly when the ASCII uppercasing of `name` equals `pat`.
pub fn matches_upper(name: &[u8], pat: &[u8]) -> (r: bool)
    ensures
        r == (upper(name@) == pat@),
{
    if name.len() != pat.len() {
        assert(upper(name@).len() != pat@.len());
        return false;
    }
    let mut i: usize = 0;
    while i < name.len()
        invariant
            0 <= i <= name@.len(),
            name@.len() == pat@.len(),
            forall|j: int| 0 <= j < i ==> upper_byte(name@[j]) == #[trigger] pat@[j],
        decreases name@.len() - i,
    {
        let b = name[i];
        let u = if 97 <= b && b <= 122 {
            b - 32
        } else {
            b
        };
        if u != pat[i] {
            assert(upper(name@)[i as int] != pat@[i as int]);
            return false;
        }
        i = i + 1;
    }
    assert(upper(name@) =~= pat@);
    true
}

/// Byte-for-byte equality of two slices.
pub fn bytes_eq(a: &[u8], b: &[u8]) -> (r: bool)
    ensures
        r == (a@ == b@),
{
    if a.len() != b.len() {
        return false;
    }
    let mut i: usize = 0;
    while i < a.len()
        invariant
            0 <= i <= a@.len(),
            a@.len() == b@.len(),
            forall|j: int| 0 <= j < i ==> a@[j] == #[trigger] b@[j],
        decreases a@.len() - i,
    {
        if a[i] != b[i] {
            assert(a@[i as int] != b@[i as int]);
            return false;
        }
        i = i + 1;
    }
    assert(a@ =~= b@);
    true
}

/// An owned copy of a byte slice.
pub fn copy_bytes(s: &[u8]) -> (r: Vec<u8>)
    ensures
        r@ == s@,
{
    let mut out: Vec<u8> = Vec::new();
    let mut i: usize = 0;
    while i < s.len()
        invariant
            0 <= i <= s@.len(),
            out@ =~= s@.take(i as int),
        decreases s@.len() - i,
    {
        out.push(s[i]);
        assert(out@ =~= s@.take(i + 1));
        i = i + 1;
    }
    assert(out@ =~= s@);
    out
}

pub open spec fn utf8_cont(b: u8) -> bool {
    128 <= b && b <= 191
}

/// The length (1 to 4) of a well-formed UTF-8 scalar encoding at the front of
/// `s`, or 0 when the front is malformed or truncated.
pub open spec fn utf8_scalar_len(s: Seq<u8>) -> int {
    if s.len() >= 1 && s[0] <= 127 {
        1
    } else if s.len() >= 2 && 194 <= s[0] && s[0] <= 223 && utf8_cont(s[1]) {
        2
    } else if s.len() >= 3 && s[0] == 224 && 160 <= s[1] && s[1] <= 191 && utf8_cont(s[2]) {
        3
    } else if s.len() >= 3 && 225 <= s[0] && s[0] <= 236 && utf8_cont(s[1]) && utf8_cont(s[2]) {
        3
    } else if s.len() >= 3 && s[0] == 237 && 128 <= s[1] && s[1] <= 159 && utf8_cont(s[2]) {
        3
    } else if s.len() >= 3 && 238 <= s[0] && s[0] <= 239 && utf8_cont(s[1]) && utf8_cont(s[2]) {
        3
    } else if s.len() >= 4 && s[0] == 240 && 144 <= s[1] && s[1] <= 191 && utf8_cont(s[2])
        && utf8_cont(s[3]) {
        4
    } else if s.len() >= 4 && 241 <= s[0] && s[0] <= 243 && utf8_cont(s[1]) && utf8_cont(s[2])
        && utf8_cont(s[3]) {
        4
    } else if s.len() >= 4 && s[0] == 244 && 128 <= s[1] && s[1] <= 143 && utf8_cont(s[2])
        && utf8_cont(s[3]) {
        4
    } else {
        0
    }
}

/// Well-formedness of a byte sequence as UTF-8.
pub open spec fn is_utf8(s: Seq<u8>) -> bool
    decreases s.len(),
{
    if s.len() == 0 {
        true
    } else {
        let n = utf8_scalar_len(s);
        n > 0 && is_utf8(s.skip(n))
    }
}

/// Checks whether a byte slice is well-formed UTF-8.
pub fn is_utf8_exec(s: &[u8]) -> (r: bool)
    ensures
        r == is_utf8(s@),
{
    let mut i: usize = 0;
    proof {
        assert(s@.skip(0) =~= s@);
    }
    while i < s.len()
        invariant
            0 <= i <= s@.len(),
            is_utf8(s@) == is_utf8(s@.skip(i as int)),
        decreases s@.len() - i,
    {
        let rest = s.len() - i;
        let b0 = s[i];
        let n: usize = if b0 <= 127 {
            1
        } else if rest >= 2 && 194 <= b0 && b0 <= 223 && is_cont(s[i + 1]) {
            2
        } else if rest >= 3 && b0 == 224 && 160 <= s[i + 1] && s[i + 1] <= 191 && is_cont(
            s[i + 2],
        ) {
            3
        } else if rest >= 3 && 225 <= b0 && b0 <= 236 && is_cont(s[i + 1]) && is_cont(s[i + 2]) {
            3
        } else if rest >= 3 && b0 == 237 && 128 <= s[i + 1] && s[i + 1] <= 159 && is_cont(
            s[i + 2],
        ) {
            3
        } else if rest >= 3 && 238 <= b0 && b0 <= 239 && is_cont(s[i + 1]) && is_cont(s[i + 2]) {
            3
        } else if rest >= 4 && b0 == 240 && 144 <= s[i + 1] && s[i + 1] <= 191 && is_cont(s[i + 2])
            && is_cont(s[i + 3]) {
            4
        } else if rest >= 4 && 241 <= b0 && b0 <= 243 && is_cont(s[i + 1]) && is_cont(s[i + 2])
            && is_cont(s[i + 3]) {
            4
        } else if rest >= 4 && b0 == 244 && 128 <= s[i + 1] && s[i + 1] <= 143
            && is_cont(s[i + 2]) && is_cont(s[i + 3]) {
            4
        } else {
            0
        };
        proof {
            let tail = s@.skip(i as int);
            assert(tail.len() == s@.len() - i);
            assert forall|j: int| 0 <= j < tail.len() implies tail[j] == s@[i + j] by {}
            assert(n as int == utf8_scalar_len(tail));
        }
        if n == 0 {
            return false;
        }
        proof {
            assert(s@.skip(i as int).skip(n as int) =~= s@.skip(i + n));
        }
        i = i + n;
    }
    proof {
        assert(s@.skip(i as int) =~= Seq::<u8>::empty());
    }
    true
}

/// True for UTF-8 continuation bytes.
fn is_cont(b: u8) -> (r: bool)
    ensures
        r == utf8_cont(b),
{
    128 <= b && b <= 191
}

} // verus!
