//! Building text: decimal and hex numerals, padding, and the plumbing
//! between `String` and the character sequences the specs speak of.
use vstd::prelude::*;

verus! {

broadcast use vstd::string::group_string_axioms;

/// `String` made of exactly these characters. (std's `FromIterator<&char>`.)
#[verifier::external_body]
pub(crate) fn string_of(v: &[char]) -> (s: String)
    ensures
        s@ == v@,
{
    v.iter().collect()
}

/// Append the characters of `s`.
pub fn push_str(out: &mut Vec<char>, s: &str)
    ensures
        final(out)@ == old(out)@ + s@,
{
    let ghost start = out@;
    for c in it: s.chars()
        invariant
            out@ == start + it.seq().take(it.index() as int),
            it.seq() == s@,
    {
        out.push(c);
        assert(it.seq().take(it.index() + 1) =~= it.seq().take(it.index() as int).push(c));
    }
    assert(s@.take(s@.len() as int) =~= s@);
}


pub open spec fn digit_char(d: nat) -> char {
    (48 + d) as u8 as char
}

/// The decimal numeral of `n`, without leading zeros.
pub open spec fn dec_nat(n: nat) -> Seq<char>
    decreases n,
{
    if n < 10 {
        seq![digit_char(n)]
    } else {
        dec_nat(n / 10).push(digit_char(n % 10))
    }
}

/// The decimal numeral of `n`, with a minus sign when negative.
pub open spec fn dec_int(n: int) -> Seq<char> {
    if n < 0 {
        seq!['-'] + dec_nat((-n) as nat)
    } else {
        dec_nat(n as nat)
    }
}

pub open spec fn hex_char(d: nat) -> char {
    if d < 10 {
        (48 + d) as u8 as char
    } else {
        (87 + d) as u8 as char
    }
}

/// The low `width` hex digits of `n`, most significant first, lower case.
pub open spec fn hex_fixed(n: nat, width: nat) -> Seq<char>
    decreases width,
{
    if width == 0 {
        Seq::empty()
    } else {
        hex_fixed(n / 16, (width - 1) as nat).push(hex_char(n % 16))
    }
}

/// `{:#010x}` of a u32: `0x` and eight hex digits.
pub open spec fn hex_site(n: u32) -> Seq<char> {
    seq!['0', 'x'] + hex_fixed(n as nat, 8)
}

pub open spec fn spaces(n: nat) -> Seq<char> {
    Seq::new(n, |i: int| ' ')
}

/// `{:>w}`: right-aligned in a field of `w` characters.
pub open spec fn pad_left(s: Seq<char>, w: nat) -> Seq<char> {
    if s.len() >= w {
        s
    } else {
        spaces((w - s.len()) as nat) + s
    }
}

/// `{:<w}`: left-aligned in a field of `w` characters.
pub open spec fn pad_right(s: Seq<char>, w: nat) -> Seq<char> {
    if s.len() >= w {
        s
    } else {
        s + spaces((w - s.len()) as nat)
    }
}

pub fn push_dec(out: &mut Vec<char>, n: u64)
    ensures
        final(out)@ == old(out)@ + dec_nat(n as nat),
    decreases n,
{
    if n < 10 {
        out.push(((48 + n) as u8) as char);
    } else {
        push_dec(out, n / 10);
        out.push(((48 + n % 10) as u8) as char);
    }
}

pub fn push_int(out: &mut Vec<char>, n: i64)
    ensures
        final(out)@ == old(out)@ + dec_int(n as int),
{
    if n < 0 {
        out.push('-');
        let m: i128 = -(n as i128);
        push_dec(out, m as u64);
    } else {
        push_dec(out, n as u64);
    }
}

pub fn dec_chars(n: u64) -> (v: Vec<char>)
    ensures
        v@ == dec_nat(n as nat),
{
    let mut v: Vec<char> = Vec::new();
    push_dec(&mut v, n);
    v
}

pub fn int_chars(n: i64) -> (v: Vec<char>)
    ensures
        v@ == dec_int(n as int),
{
    let mut v: Vec<char> = Vec::new();
    push_int(&mut v, n);
    v
}

pub fn push_hex(out: &mut Vec<char>, n: u64, width: u64)
    ensures
        final(out)@ == old(out)@ + hex_fixed(n as nat, width as nat),
    decreases width,
{
    if width > 0 {
        push_hex(out, n / 16, width - 1);
        let d = n % 16;
        if d < 10 {
            out.push(((48 + d) as u8) as char);
        } else {
            out.push(((87 + d) as u8) as char);
        }
    }
}

/// `{:#010x}` of a site id.
pub fn push_site(out: &mut Vec<char>, n: u32)
    ensures
        final(out)@ == old(out)@ + hex_site(n),
{
    out.push('0');
    out.push('x');
    push_hex(out, n as u64, 8);
}

pub fn site_chars(n: u32) -> (v: Vec<char>)
    ensures
        v@ == hex_site(n),
{
    let mut v: Vec<char> = Vec::new();
    push_site(&mut v, n);
    assert(v@ =~= hex_site(n));
    v
}

pub fn push_chars(out: &mut Vec<char>, s: &[char])
    ensures
        final(out)@ == old(out)@ + s@,
{
    let ghost start = out@;
    let mut i: usize = 0;
    while i < s.len()
        invariant
            0 <= i <= s@.len(),
            out@ =~= start + s@.take(i as int),
        decreases s@.len() - i,
    {
        out.push(s[i]);
        i += 1;
    }
    assert(s@.take(s@.len() as int) =~= s@);
}

pub fn push_spaces(out: &mut Vec<char>, n: usize)
    ensures
        final(out)@ == old(out)@ + spaces(n as nat),
{
    let ghost start = out@;
    let mut i: usize = 0;
    while i < n
        invariant
            0 <= i <= n,
            out@ =~= start + spaces(i as nat),
        decreases n - i,
    {
        out.push(' ');
        i += 1;
    }
}

/// `{:>w}`
pub fn push_pad_left(out: &mut Vec<char>, s: &[char], w: usize)
    ensures
        final(out)@ == old(out)@ + pad_left(s@, w as nat),
{
    if s.len() < w {
        push_spaces(out, w - s.len());
    }
    push_chars(out, s);
    assert(final(out)@ =~= old(out)@ + pad_left(s@, w as nat));
}

/// `{:<w}`
pub fn push_pad_right(out: &mut Vec<char>, s: &[char], w: usize)
    ensures
        final(out)@ == old(out)@ + pad_right(s@, w as nat),
{
    push_chars(out, s);
    if s.len() < w {
        push_spaces(out, w - s.len());
    }
    assert(final(out)@ =~= old(out)@ + pad_right(s@, w as nat));
}

pub fn str_chars(s: &str) -> (v: Vec<char>)
    ensures
        v@ == s@,
{
    let mut v: Vec<char> = Vec::new();
    push_str(&mut v, s);
    assert(v@ =~= s@);
    v
}

/// The characters `String::from_utf8_lossy` makes of the bytes.
pub uninterp spec fn utf8_lossy(b: Seq<u8>) -> Seq<char>;

/// `String::from_utf8_lossy`: valid UTF-8 decodes as it stands; each
/// invalid sequence becomes U+FFFD. Beyond the valid case, what comes out
/// is named, not spelled out.
#[verifier::external_body]
pub(crate) fn lossy_string(b: &[u8]) -> (s: String)
    ensures
        s@ == utf8_lossy(b@),
        vstd::utf8::valid_utf8(b@) ==> s@ == vstd::utf8::decode_utf8(b@),
{
    String::from_utf8_lossy(b).to_string()
}

/// Unicode White_Space, the set `char::is_whitespace` tests.
pub open spec fn is_ws(c: char) -> bool {
    let u = c as u32;
    (9 <= u <= 13) || u == 32 || u == 0x85 || u == 0xA0 || u == 0x1680 || (0x2000 <= u <= 0x200A)
        || u == 0x2028 || u == 0x2029 || u == 0x202F || u == 0x205F || u == 0x3000
}

pub fn is_whitespace(c: char) -> (b: bool)
    ensures
        b == is_ws(c),
{
    let u = c as u32;
    (9 <= u && u <= 13) || u == 32 || u == 0x85 || u == 0xA0 || u == 0x1680 || (0x2000 <= u && u
        <= 0x200A) || u == 0x2028 || u == 0x2029 || u == 0x202F || u == 0x205F || u == 0x3000
}

/// `str::trim_end`: without its trailing white space.
pub open spec fn trim_end(s: Seq<char>) -> Seq<char>
    decreases s.len(),
{
    if s.len() > 0 && is_ws(s.last()) {
        trim_end(s.drop_last())
    } else {
        s
    }
}

/// `str::trim_start`: without its leading white space.
pub open spec fn trim_start(s: Seq<char>) -> Seq<char>
    decreases s.len(),
{
    if s.len() > 0 && is_ws(s[0]) {
        trim_start(s.drop_first())
    } else {
        s
    }
}

pub fn trimmed_end(v: &[char]) -> (r: Vec<char>)
    ensures
        r@ == trim_end(v@),
{
    let mut n = v.len();
    assert(v@.take(n as int) =~= v@);
    while n > 0 && is_whitespace(v[n - 1])
        invariant
            0 <= n <= v@.len(),
            trim_end(v@) == trim_end(v@.take(n as int)),
        decreases n,
    {
        assert(v@.take(n as int).drop_last() =~= v@.take(n - 1));
        n -= 1;
    }
    let mut r: Vec<char> = Vec::new();
    push_chars(&mut r, &v[0..n]);
    assert(v@.take(n as int) =~= v@.subrange(0, n as int));
    r
}

pub fn trimmed_start(v: &[char]) -> (r: Vec<char>)
    ensures
        r@ == trim_start(v@),
{
    let mut n: usize = 0;
    assert(v@.skip(0) =~= v@);
    while n < v.len() && is_whitespace(v[n])
        invariant
            0 <= n <= v@.len(),
            trim_start(v@) == trim_start(v@.skip(n as int)),
        decreases v@.len() - n,
    {
        assert(v@.skip(n as int).drop_first() =~= v@.skip(n + 1));
        n += 1;
    }
    let mut r: Vec<char> = Vec::new();
    push_chars(&mut r, &v[n..v.len()]);
    assert(v@.skip(n as int) =~= v@.subrange(n as int, v@.len() as int));
    r
}

/// What `{:?}` prints for a char.
pub uninterp spec fn char_debug(c: char) -> Seq<char>;

/// `format!("{:?}", c)`: the char quoted, with quote, backslash and
/// non-printable characters escaped. A printable ASCII character other than
/// the quote and the backslash is printed as itself between single quotes.
#[verifier::external_body]
pub(crate) fn debug_char(c: char) -> (s: String)
    ensures
        s@ == char_debug(c),
        (32 <= c as u32 <= 126 && c != '\'' && c != '\\') ==> s@ == seq!['\'', c, '\''],
{
    format!("{:?}", c)
}

/// What `{:?}` prints for a string.
pub uninterp spec fn str_debug(s: Seq<char>) -> Seq<char>;

/// `format!("{:?}", s)`: the string in double quotes, with quotes,
/// backslashes and non-printable characters escaped.
#[verifier::external_body]
pub(crate) fn debug_str(s: &str) -> (r: String)
    ensures
        r@ == str_debug(s@),
{
    format!("{:?}", s)
}

} // verus!
