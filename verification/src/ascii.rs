//! Byte-level scanning helpers shared by the multipart codec and the
//! DICOM-JSON codec: whitespace trimming, token extraction, and decimal
//! and hexadecimal numerals.

use vstd::prelude::*;
use vstd::string::StrSliceExecFns;
use vstd::string::StringSliceAdditionalSpecFns;

verus! {

/// The bytes Rust's `trim` treats as whitespace within ASCII.
pub open spec fn is_space_byte(b: u8) -> bool {
    b == 9 || b == 10 || b == 11 || b == 12 || b == 13 || b == 32
}

pub fn byte_is_space(b: u8) -> (r: bool)
    ensures
        r == is_space_byte(b),
{
    b == 9 || b == 10 || b == 11 || b == 12 || b == 13 || b == 32
}

pub open spec fn is_digit_byte(b: u8) -> bool {
    0x30 <= b && b <= 0x39
}

/// An ASCII character sequence read as the byte sequence that carries it.
pub open spec fn ascii_seq(s: Seq<char>) -> Seq<u8> {
    Seq::new(s.len(), |i: int| s[i] as u8)
}

/// The bytes of an ASCII string slice.
pub fn ascii_bytes(s: &str) -> (r: Vec<u8>)
    requires
        s.is_ascii(),
    ensures
        r@ == ascii_seq(s@),
{
    proof {
        broadcast use vstd::string::is_ascii_spec_bytes;

    }
    let r = s.as_bytes_vec();
    proof {
        assert(r@ =~= ascii_seq(s@));
    }
    r
}

/// Length of `s` once trailing whitespace is removed.
pub open spec fn trimmed_len(s: Seq<u8>) -> nat
    decreases s.len(),
{
    if s.len() == 0 {
        0
    } else if is_space_byte(s.last()) {
        trimmed_len(s.drop_last())
    } else {
        s.len()
    }
}

pub open spec fn trim_end(s: Seq<u8>) -> Seq<u8> {
    s.take(trimmed_len(s) as int)
}

pub fn trim_end_len(s: &[u8]) -> (r: usize)
    ensures
        r == trimmed_len(s@),
        r <= s@.len(),
{
    let mut e: usize = s.len();
    proof {
        assert(s@.take(e as int) =~= s@);
    }
    while e > 0 && byte_is_space(s[e - 1])
        invariant
            e <= s@.len(),
            trimmed_len(s@) == trimmed_len(s@.take(e as int)),
        decreases e,
    {
        proof {
            assert(s@.take(e as int).drop_last() =~= s@.take(e - 1));
        }
        e = e - 1;
    }
    proof {
        assert(s@.take(s@.len() as int) =~= s@);
        if e > 0 {
            assert(trimmed_len(s@.take(e as int)) == e);
        }
    }
    e
}

pub open spec fn starts_with(s: Seq<u8>, prefix: Seq<u8>) -> bool {
    prefix.len() <= s.len() && s.take(prefix.len() as int) == prefix
}

pub fn bytes_start_with(s: &[u8], prefix: &[u8]) -> (r: bool)
    ensures
        r == starts_with(s@, prefix@),
{
    if prefix.len() > s.len() {
        proof {
            assert(!starts_with(s@, prefix@));
        }
        return false;
    }
    let mut i: usize = 0;
    while i < prefix.len()
        invariant
            i <= prefix@.len() <= s@.len(),
            forall|j: int| 0 <= j < i ==> s@[j] == prefix@[j],
        decreases prefix@.len() - i,
    {
        if s[i] != prefix[i] {
            proof {
                assert(s@.take(prefix@.len() as int)[i as int] != prefix@[i as int]);
            }
            return false;
        }
        i = i + 1;
    }
    proof {
        assert(s@.take(prefix@.len() as int) =~= prefix@);
    }
    true
}

pub open spec fn ends_with(s: Seq<u8>, suffix: Seq<u8>) -> bool {
    suffix.len() <= s.len() && s.skip(s.len() - suffix.len()) == suffix
}

pub fn bytes_end_with(s: &[u8], suffix: &[u8]) -> (r: bool)
    ensures
        r == ends_with(s@, suffix@),
{
    if suffix.len() > s.len() {
        proof {
            assert(!ends_with(s@, suffix@));
        }
        return false;
    }
    let n: usize = s.len();
    let off: usize = n - suffix.len();
    let mut i: usize = 0;
    while i < suffix.len()
        invariant
            n == s@.len(),
            off == s@.len() - suffix@.len(),
            i <= suffix@.len() <= s@.len(),
            forall|j: int| 0 <= j < i ==> s@[off + j] == suffix@[j],
        decreases suffix@.len() - i,
    {
        if s[off + i] != suffix[i] {
            proof {
                assert(s@.skip(off as int)[i as int] != suffix@[i as int]);
            }
            return false;
        }
        i = i + 1;
    }
    proof {
        assert(s@.skip(off as int) =~= suffix@);
    }
    true
}

pub fn bytes_equal(a: &[u8], b: &[u8]) -> (r: bool)
    ensures
        r == (a@ == b@),
{
    if a.len() != b.len() {
        proof {
            assert(a@ != b@);
        }
        return false;
    }
    let mut i: usize = 0;
    while i < a.len()
        invariant
            a@.len() == b@.len(),
            i <= a@.len(),
            forall|j: int| 0 <= j < i ==> a@[j] == b@[j],
        decreases a@.len() - i,
    {
        if a[i] != b[i] {
            return false;
        }
        i = i + 1;
    }
    proof {
        assert(a@ =~= b@);
    }
    true
}

/// Index where the final whitespace-free token of `s` starts.
pub open spec fn token_start(s: Seq<u8>) -> nat
    decreases s.len(),
{
    if s.len() == 0 {
        0
    } else if is_space_byte(s.last()) {
        s.len()
    } else {
        token_start(s.drop_last())
    }
}

/// The final whitespace-free run of `s`: what `split_whitespace` would
/// hand back last, once `s` itself carries no trailing whitespace.
pub open spec fn last_token(s: Seq<u8>) -> Seq<u8> {
    s.skip(token_start(s) as int)
}

pub fn token_start_index(s: &[u8]) -> (r: usize)
    ensures
        r == token_start(s@),
        r <= s@.len(),
{
    let mut t: usize = s.len();
    proof {
        assert(s@.take(t as int) =~= s@);
    }
    while t > 0 && !byte_is_space(s[t - 1])
        invariant
            t <= s@.len(),
            token_start(s@) == token_start(s@.take(t as int)),
        decreases t,
    {
        proof {
            assert(s@.take(t as int).drop_last() =~= s@.take(t - 1));
        }
        t = t - 1;
    }
    proof {
        assert(s@.take(s@.len() as int) =~= s@);
        if t > 0 {
            assert(token_start(s@.take(t as int)) == t);
        }
    }
    t
}

/// Characters carried by a sequence of ASCII bytes.
pub open spec fn ascii_chars(b: Seq<u8>) -> Seq<char> {
    Seq::new(b.len(), |i: int| b[i] as char)
}

/// Relies on `String::from_utf8`: bytes below 0x80 are valid UTF-8 and
/// decode to exactly those characters.
#[verifier::external_body]
pub(crate) fn ascii_to_string(b: Vec<u8>) -> (r: String)
    requires
        forall|i: int| 0 <= i < b@.len() ==> #[trigger] b@[i] < 0x80,
    ensures
        r@ == ascii_chars(b@),
{
    String::from_utf8(b).unwrap()
}

/// Character-for-character string equality, settled by comparing the
/// UTF-8 bytes.
pub fn str_eq(a: &str, b: &str) -> (r: bool)
    ensures
        r == (a@ == b@),
{
    let r = bytes_equal(a.as_bytes(), b.as_bytes());
    proof {
        if a.spec_bytes() == b.spec_bytes() {
            vstd::utf8::encode_utf8_decode_utf8(a@);
            vstd::utf8::encode_utf8_decode_utf8(b@);
        }
    }
    r
}

pub open spec fn dec_digit_byte(d: nat) -> u8
    recommends
        d < 10,
{
    (0x30 + d) as u8
}

/// Decimal numeral of `n`, most significant digit first, as ASCII bytes.
pub open spec fn dec_bytes(n: nat) -> Seq<u8>
    decreases n,
{
    if n < 10 {
        seq![dec_digit_byte(n)]
    } else {
        dec_bytes(n / 10).push(dec_digit_byte(n % 10))
    }
}

/// Value of a decimal numeral; meaningful when every byte is a digit.
pub open spec fn dec_val(s: Seq<u8>) -> nat
    decreases s.len(),
{
    if s.len() == 0 {
        0
    } else {
        10 * dec_val(s.drop_last()) + ((s.last() - 0x30) as nat)
    }
}

pub open spec fn all_digits(s: Seq<u8>) -> bool {
    forall|i: int| 0 <= i < s.len() ==> is_digit_byte(#[trigger] s[i])
}

pub proof fn lemma_dec_bytes_digits(n: nat)
    ensures
        dec_bytes(n).len() >= 1,
        all_digits(dec_bytes(n)),
    decreases n,
{
    if n >= 10 {
        lemma_dec_bytes_digits(n / 10);
        assert forall|i: int| 0 <= i < dec_bytes(n).len() implies is_digit_byte(
            #[trigger] dec_bytes(n)[i],
        ) by {
            if i < dec_bytes(n / 10).len() {
                assert(dec_bytes(n)[i] == dec_bytes(n / 10)[i]);
            }
        }
    }
}

pub proof fn lemma_dec_val_of_dec_bytes(n: nat)
    ensures
        dec_val(dec_bytes(n)) == n,
    decreases n,
{
    if n < 10 {
        assert(dec_bytes(n).drop_last() =~= Seq::<u8>::empty());
        assert(dec_digit_byte(n) == 0x30 + n);
        assert(dec_val(dec_bytes(n)) == 10 * dec_val(Seq::<u8>::empty()) + ((dec_digit_byte(n)
            - 0x30) as nat));
    } else {
        lemma_dec_val_of_dec_bytes(n / 10);
        lemma_dec_bytes_digits(n / 10);
        assert(dec_bytes(n).drop_last() =~= dec_bytes(n / 10));
        assert(dec_bytes(n).last() == dec_digit_byte(n % 10));
        assert(dec_digit_byte(n % 10) == 0x30 + n % 10);
        assert(dec_val(dec_bytes(n)) == 10 * (n / 10) + n % 10);
        assert(10 * (n / 10) + n % 10 == n);
    }
}

/// Appends the decimal numeral of `n` to `out`.
pub fn push_dec_bytes(out: &mut Vec<u8>, n: usize)
    ensures
        final(out)@ == old(out)@ + dec_bytes(n as nat),
    decreases n,
{
    if n >= 10 {
        push_dec_bytes(out, n / 10);
    }
    let d: u8 = (n % 10) as u8;
    out.push(0x30 + d);
    proof {
        if n < 10 {
            assert(final(out)@ =~= old(out)@ + dec_bytes(n as nat));
        } else {
            assert(final(out)@ =~= old(out)@ + dec_bytes(n as nat));
        }
    }
}

/// What reading `s` as one decimal number yields: the value, when `s` is a
/// non-empty run of digits whose value fits in `usize`; nothing otherwise.
pub open spec fn parse_dec(s: Seq<u8>) -> Option<nat> {
    if s.len() > 0 && all_digits(s) && dec_val(s) <= usize::MAX as nat {
        Some(dec_val(s))
    } else {
        None
    }
}

proof fn lemma_dec_val_take_le(s: Seq<u8>, i: int, j: int)
    requires
        0 <= i <= j <= s.len(),
    ensures
        dec_val(s.take(i)) <= dec_val(s.take(j)),
    decreases j - i,
{
    if i < j {
        lemma_dec_val_take_le(s, i, j - 1);
        assert(s.take(j).drop_last() =~= s.take(j - 1));
        assert(dec_val(s.take(j)) >= dec_val(s.take(j - 1)));
    }
}

pub fn dec_parse(s: &[u8]) -> (r: Option<usize>)
    ensures
        match r {
            Some(v) => parse_dec(s@) == Some(v as nat),
            None => parse_dec(s@) is None,
        },
{
    let n: usize = s.len();
    if n == 0 {
        return None;
    }
    let mut acc: usize = 0;
    let mut i: usize = 0;
    proof {
        assert(s@.take(0) =~= Seq::<u8>::empty());
    }
    while i < n
        invariant
            n == s@.len(),
            0 < n,
            i <= n,
            acc == dec_val(s@.take(i as int)),
            all_digits(s@.take(i as int)),
        decreases n - i,
    {
        let b: u8 = s[i];
        if b < 0x30 || b > 0x39 {
            proof {
                assert(!is_digit_byte(s@[i as int]));
            }
            return None;
        }
        let d: usize = (b - 0x30) as usize;
        proof {
            assert(s@.take(i + 1).drop_last() =~= s@.take(i as int));
            assert(s@.take(i + 1).last() == s@[i as int]);
        }
        if acc > (usize::MAX - d) / 10 {
            proof {
                assert(10 * acc + d > usize::MAX) by {
                    let m: int = usize::MAX - d;
                    assert(m == 10 * (m / 10) + m % 10);
                    assert(acc >= m / 10 + 1);
                };
                assert(dec_val(s@.take(i + 1)) == 10 * acc + d);
                lemma_dec_val_take_le(s@, i + 1, n as int);
                assert(s@.take(n as int) =~= s@);
            }
            return None;
        }
        acc = acc * 10 + d;
        proof {
            assert(dec_val(s@.take(i + 1)) == acc);
            assert forall|k: int| 0 <= k < i + 1 implies is_digit_byte(
                #[trigger] s@.take(i + 1)[k],
            ) by {
                if k < i {
                    assert(is_digit_byte(s@.take(i as int)[k]));
                }
            }
        }
        i = i + 1;
    }
    proof {
        assert(s@.take(n as int) =~= s@);
    }
    Some(acc)
}

pub open spec fn dec_digit_char(d: nat) -> char
    recommends
        d < 10,
{
    ((0x30 + d) as u8) as char
}

/// Decimal numeral of `n` as characters, most significant digit first.
pub open spec fn dec_chars(n: nat) -> Seq<char>
    decreases n,
{
    if n < 10 {
        seq![dec_digit_char(n)]
    } else {
        dec_chars(n / 10).push(dec_digit_char(n % 10))
    }
}

pub open spec fn hex_digit_char(d: nat) -> char
    recommends
        d < 16,
{
    if d < 10 {
        ((0x30 + d) as u8) as char
    } else {
        ((0x37 + d) as u8) as char
    }
}

/// Four-digit uppercase hexadecimal numeral of `v`, zero padded.
pub open spec fn hex4_chars(v: nat) -> Seq<char>
    recommends
        v < 0x10000,
{
    seq![
        hex_digit_char(v / 0x1000 % 16),
        hex_digit_char(v / 0x100 % 16),
        hex_digit_char(v / 16 % 16),
        hex_digit_char(v % 16),
    ]
}

/// One hexadecimal digit as a string slice, uppercase.
pub fn hex_digit_str(d: u8) -> (r: &'static str)
    requires
        d < 16,
    ensures
        r@ =~= seq![hex_digit_char(d as nat)],
{
    proof {
        reveal_strlit("0");
        reveal_strlit("1");
        reveal_strlit("2");
        reveal_strlit("3");
        reveal_strlit("4");
        reveal_strlit("5");
        reveal_strlit("6");
        reveal_strlit("7");
        reveal_strlit("8");
        reveal_strlit("9");
        reveal_strlit("A");
        reveal_strlit("B");
        reveal_strlit("C");
        reveal_strlit("D");
        reveal_strlit("E");
        reveal_strlit("F");
    }
    match d {
        0 => "0",
        1 => "1",
        2 => "2",
        3 => "3",
        4 => "4",
        5 => "5",
        6 => "6",
        7 => "7",
        8 => "8",
        9 => "9",
        10 => "A",
        11 => "B",
        12 => "C",
        13 => "D",
        14 => "E",
        _ => "F",
    }
}

/// Appends the decimal numeral of `n` to `out`.
pub fn push_dec_chars(out: &mut String, n: u32)
    ensures
        final(out)@ == old(out)@ + dec_chars(n as nat),
    decreases n,
{
    if n >= 10 {
        push_dec_chars(out, n / 10);
    }
    let d: u8 = (n % 10) as u8;
    out.append(hex_digit_str(d));
    proof {
        assert(hex_digit_char(d as nat) == dec_digit_char((n as nat) % 10));
        assert(final(out)@ =~= old(out)@ + dec_chars(n as nat));
    }
}

/// Value of a hexadecimal digit character, either case; 16 marks a non-digit.
pub open spec fn hex_char_val(c: char) -> nat {
    if '0' <= c <= '9' {
        ((c as nat) - 0x30) as nat
    } else if 'A' <= c <= 'F' {
        ((c as nat) - 0x37) as nat
    } else if 'a' <= c <= 'f' {
        ((c as nat) - 0x57) as nat
    } else {
        16
    }
}

pub fn hex_char_value(c: char) -> (r: u8)
    ensures
        r as nat == hex_char_val(c),
        r <= 16,
{
    if '0' <= c && c <= '9' {
        (c as u8) - 0x30
    } else if 'A' <= c && c <= 'F' {
        (c as u8) - 0x37
    } else if 'a' <= c && c <= 'f' {
        (c as u8) - 0x57
    } else {
        16
    }
}

} // verus!
