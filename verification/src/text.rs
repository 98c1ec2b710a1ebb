//! Text rendering helpers: decimal and hexadecimal digits, built
//! character by character with their exact output stated.

use vstd::prelude::*;

verus! {

/// `String::push` appends one character.
pub assume_specification[ String::push ](s: &mut String, ch: char)
    ensures
        final(s)@ == old(s)@.push(ch),
;

/// The decimal digit character for `d` (`d < 10`).
pub open spec fn dec_char(d: nat) -> char {
    (48 + d) as char
}

/// The lowercase hexadecimal digit character for `d` (`d < 16`).
pub open spec fn hex_char(d: nat) -> char {
    if d < 10 {
        (48 + d) as char
    } else {
        (87 + d) as char
    }
}

/// Decimal rendering of `n`, without leading zeros.
pub open spec fn dec(n: nat) -> Seq<char>
    decreases n,
{
    if n < 10 {
        seq![dec_char(n)]
    } else {
        dec(n / 10).push(dec_char(n % 10))
    }
}

/// Two-digit lowercase hexadecimal rendering of a byte.
pub open spec fn hex2(b: u8) -> Seq<char> {
    seq![hex_char((b / 16) as nat), hex_char((b % 16) as nat)]
}

/// Decimal rendering of `n`, zero-padded on the left to at least `width` digits.
pub open spec fn dec_padded(n: nat, width: nat) -> Seq<char> {
    Seq::new(if dec(n).len() < width { (width - dec(n).len()) as nat } else { 0 }, |i: int| '0')
        + dec(n)
}

/// Append the decimal digits of `n` to `s`.
pub fn push_dec(s: &mut String, n: u64)
    ensures
        final(s)@ == old(s)@ + dec(n as nat),
    decreases n,
{
    if n >= 10 {
        push_dec(s, n / 10);
    }
    let d: u8 = (n % 10) as u8;
    let c: char = (48u8 + d) as char;
    s.push(c);
    assert(s@ =~= old(s)@ + dec(n as nat));
}

/// Decimal rendering of `n`.
pub fn fmt_dec(n: u64) -> (s: String)
    ensures
        s@ == dec(n as nat),
{
    let mut s = String::new();
    push_dec(&mut s, n);
    assert(s@ =~= dec(n as nat));
    s
}

/// Append the decimal digits of `n` to `s`, zero-padded to `width` digits.
pub fn push_dec_padded(s: &mut String, n: u64, width: u64)
    ensures
        final(s)@ == old(s)@ + dec_padded(n as nat, width as nat),
{
    let digits = fmt_dec(n);
    let len: usize = digits.as_str().unicode_len();
    let mut k: u64 = 0;
    let pad: u64 = if (len as u64) < width { width - len as u64 } else { 0 };
    proof {
        assert(digits@.len() == dec(n as nat).len());
    }
    while k < pad
        invariant
            k <= pad,
            s@ == old(s)@ + Seq::new(k as nat, |i: int| '0'),
        decreases pad - k,
    {
        s.push('0');
        k = k + 1;
        assert(s@ =~= old(s)@ + Seq::new(k as nat, |i: int| '0'));
    }
    s.append(digits.as_str());
    assert(s@ =~= old(s)@ + dec_padded(n as nat, width as nat));
}

/// Append the two lowercase hexadecimal digits of `b` to `s`.
pub fn push_hex2(s: &mut String, b: u8)
    ensures
        final(s)@ == old(s)@ + hex2(b),
{
    let hi: u8 = b / 16;
    let lo: u8 = b % 16;
    let c1: char = if hi < 10 { (48u8 + hi) as char } else { (87u8 + hi) as char };
    let c2: char = if lo < 10 { (48u8 + lo) as char } else { (87u8 + lo) as char };
    s.push(c1);
    s.push(c2);
    assert(s@ =~= old(s)@ + hex2(b));
}

/// Whether two strings hold the same characters.
pub fn str_eq(a: &str, b: &str) -> (r: bool)
    ensures
        r == (a@ == b@),
{
    let n: usize = a.unicode_len();
    if n != b.unicode_len() {
        return false;
    }
    let mut i: usize = 0;
    while i < n
        invariant
            n == a@.len(),
            n == b@.len(),
            i <= n,
            forall|j: int| 0 <= j < i ==> a@[j] == b@[j],
        decreases n - i,
    {
        if a.get_char(i) != b.get_char(i) {
            return false;
        }
        i = i + 1;
    }
    assert(a@ =~= b@);
    true
}

/// Render a 32-byte identifier abbreviated: the first four bytes and the
/// last four bytes in hex, joined by an ellipsis.
pub open spec fn spec_short_hex(id: Seq<u8>) -> Seq<char> {
    hex2(id[0]) + hex2(id[1]) + hex2(id[2]) + hex2(id[3]) + seq!['\u{2026}'] + hex2(id[28])
        + hex2(id[29]) + hex2(id[30]) + hex2(id[31])
}

/// Abbreviated hex rendering of a 32-byte identifier.
pub fn short_hex(id: &[u8; 32]) -> (s: String)
    ensures
        s@ == spec_short_hex(id@),
{
    let mut s = String::new();
    push_hex2(&mut s, id[0]);
    push_hex2(&mut s, id[1]);
    push_hex2(&mut s, id[2]);
    push_hex2(&mut s, id[3]);
    s.push('\u{2026}');
    push_hex2(&mut s, id[28]);
    push_hex2(&mut s, id[29]);
    push_hex2(&mut s, id[30]);
    push_hex2(&mut s, id[31]);
    assert(s@ =~= spec_short_hex(id@));
    s
}

} // verus!
