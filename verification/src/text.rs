use vstd::prelude::*;

verus! {

/// The decimal digit character for `d < 10`.
pub open spec fn digit_char(d: nat) -> char {
    ((48 + d) as u8) as char
}

/// The decimal representation of `n`, without sign or leading zeros.
pub open spec fn decimal(n: nat) -> Seq<char>
    decreases n,
{
    if n < 10 {
        seq![digit_char(n)]
    } else {
        decimal(n / 10).push(digit_char(n % 10))
    }
}

/// Appends one character: `String::push`.
#[verifier::external_body]
pub fn push_char(s: &mut String, c: char)
    ensures
        final(s)@ == old(s)@.push(c),
{
    s.push(c);
}

/// The text of an I/O error as its `Display` implementation writes it.
/// Nothing is promised of the text: it depends on the operating system.
#[verifier::external_body]
pub fn io_error_text(e: &std::io::Error) -> String {
    format!("{}", e)
}

/// Writes `n` in decimal.
pub fn decimal_text(n: usize) -> (s: String)
    ensures
        s@ == decimal(n as nat),
{
    let mut digits: Vec<char> = Vec::new();
    let mut m = n;
    while m >= 10
        invariant
            decimal(n as nat) == decimal(m as nat) + digits@.reverse(),
        decreases m,
    {
        assert(decimal(m as nat) == decimal((m / 10) as nat).push(digit_char((m % 10) as nat)));
        let d = (m % 10) as u8;
        digits.push((48u8 + d) as char);
        proof {
            assert(digits@.reverse() =~= seq![digit_char((m % 10) as nat)] + digits@.drop_last().reverse());
        }
        m = m / 10;
        assert(decimal(n as nat) =~= decimal(m as nat) + digits@.reverse());
    }
    let mut s = String::new();
    push_char(&mut s, (48u8 + m as u8) as char);
    let mut i = digits.len();
    while i > 0
        invariant
            i <= digits.len(),
            decimal(n as nat) == s@ + digits@.subrange(0, i as int).reverse(),
        decreases i,
    {
        i = i - 1;
        push_char(&mut s, digits[i]);
        assert(digits@.subrange(0, i + 1 as int).reverse() =~= seq![digits@[i as int]]
            + digits@.subrange(0, i as int).reverse());
    }
    assert(digits@.subrange(0, 0).reverse() =~= Seq::<char>::empty());
    assert(s@ =~= s@ + Seq::<char>::empty());
    s
}

} // verus!

verus! {

/// What `{:?}` writes for a character: the character between single
/// quotes, escaped where it is not printable, a quote or a backslash.
pub uninterp spec fn char_debug(c: char) -> Seq<char>;

/// The lowercase hexadecimal digit of `d < 16`.
pub open spec fn hex_digit(d: nat) -> char {
    if d < 10 {
        ((48 + d) as u8) as char
    } else {
        ((87 + d) as u8) as char
    }
}

/// The lowercase hexadecimal digits of `n < 256`, without leading zeros.
pub open spec fn hex_byte(n: nat) -> Seq<char> {
    if n < 16 {
        seq![hex_digit(n)]
    } else {
        seq![hex_digit(n / 16), hex_digit(n % 16)]
    }
}

/// What `{:?}` writes for an ASCII character: between single quotes, `\0`,
/// `\t`, `\n`, `\r`, `\'` and `\\` for those characters, other printable
/// characters as themselves, and the other control characters as
/// `\u{..}` with their code in lowercase hexadecimal.
pub open spec fn ascii_char_debug(c: char) -> Seq<char> {
    let inner = if c == '\0' {
        seq!['\\', '0']
    } else if c == '\t' {
        seq!['\\', 't']
    } else if c == '\n' {
        seq!['\\', 'n']
    } else if c == '\r' {
        seq!['\\', 'r']
    } else if c == '\'' {
        seq!['\\', '\'']
    } else if c == '\\' {
        seq!['\\', '\\']
    } else if ' ' <= c <= '~' {
        seq![c]
    } else {
        seq!['\\', 'u', '{'] + hex_byte(c as nat) + seq!['}']
    };
    seq!['\''] + inner + seq!['\'']
}

/// The `Debug` text of a character (`format!("{:?}", c)`), which the
/// standard library documents as the quoted character escaped as
/// `char::escape_debug` does. For ASCII that is `ascii_char_debug`; beyond
/// ASCII which characters count as printable takes Unicode tables, so the
/// text is only named there.
#[verifier::external_body]
pub fn char_debug_text(c: char) -> (s: String)
    ensures
        s@ == char_debug(c),
        c <= '\u{7f}' ==> s@ == ascii_char_debug(c),
{
    format!("{:?}", c)
}

} // verus!

verus! {

/// What `String::from_utf8_lossy` makes of a byte string: its UTF-8
/// decoding, each maximal invalid sequence replaced by U+FFFD.
pub uninterp spec fn utf8_lossy(b: Seq<u8>) -> Seq<char>;

/// The text of a byte string, invalid UTF-8 replaced
/// (`String::from_utf8_lossy`). Valid UTF-8 decodes exactly; otherwise
/// the result is named only.
#[verifier::external_body]
pub fn lossy_text(b: &[u8]) -> (s: String)
    ensures
        s@ == utf8_lossy(b@),
        vstd::utf8::valid_utf8(b@) ==> s@ == vstd::utf8::decode_utf8(b@),
{
    String::from_utf8_lossy(b).into_owned()
}

/// The text of a byte string when it is valid UTF-8 (`std::str::from_utf8`).
#[verifier::external_body]
pub fn utf8_text(b: &[u8]) -> (r: Option<String>)
    ensures
        r is Some <==> vstd::utf8::valid_utf8(b@),
        r matches Some(s) ==> s@ == vstd::utf8::decode_utf8(b@),
{
    std::str::from_utf8(b).ok().map(|s| s.to_string())
}

/// A character with the Unicode `White_Space` property, as
/// `char::is_whitespace` tests it.
pub open spec fn is_white_space(c: char) -> bool {
    ||| '\u{9}' <= c <= '\u{d}'
    ||| c == ' '
    ||| c == '\u{85}'
    ||| c == '\u{a0}'
    ||| c == '\u{1680}'
    ||| '\u{2000}' <= c <= '\u{200a}'
    ||| c == '\u{2028}'
    ||| c == '\u{2029}'
    ||| c == '\u{202f}'
    ||| c == '\u{205f}'
    ||| c == '\u{3000}'
}

/// `s` without leading white space.
pub open spec fn trim_start_white(s: Seq<char>) -> Seq<char>
    decreases s.len(),
{
    if s.len() > 0 && is_white_space(s[0]) {
        trim_start_white(s.drop_first())
    } else {
        s
    }
}

/// `s` without trailing white space.
pub open spec fn trim_end_white(s: Seq<char>) -> Seq<char>
    decreases s.len(),
{
    if s.len() > 0 && is_white_space(s.last()) {
        trim_end_white(s.drop_last())
    } else {
        s
    }
}

/// `s` without leading and trailing white space.
pub open spec fn trim_white(s: Seq<char>) -> Seq<char> {
    trim_end_white(trim_start_white(s))
}

/// Whether `c` has the Unicode `White_Space` property.
fn is_white(c: char) -> (r: bool)
    ensures
        r == is_white_space(c),
{
    ('\u{9}' <= c && c <= '\u{d}') || c == ' ' || c == '\u{85}' || c == '\u{a0}' || c
        == '\u{1680}' || ('\u{2000}' <= c && c <= '\u{200a}') || c == '\u{2028}' || c
        == '\u{2029}' || c == '\u{202f}' || c == '\u{205f}' || c == '\u{3000}'
}

/// `s` with leading and trailing white space removed, as `str::trim` does
/// (the characters with the Unicode `White_Space` property).
pub fn trimmed(s: &str) -> (r: String)
    ensures
        r@ == trim_white(s@),
{
    let n = s.unicode_len();
    let mut a: usize = 0;
    assert(s@.subrange(0, n as int) =~= s@);
    while a < n && is_white(s.get_char(a))
        invariant
            n == s@.len(),
            a <= n,
            trim_start_white(s@) == trim_start_white(s@.subrange(a as int, n as int)),
        decreases n - a,
    {
        assert(s@.subrange(a as int, n as int).drop_first() =~= s@.subrange(a + 1, n as int));
        a = a + 1;
    }
    let ghost t = s@.subrange(a as int, n as int);
    assert(trim_start_white(s@) == t) by {
        if a < n {
            assert(t[0] == s@[a as int]);
        }
    }
    let mut b: usize = n;
    while b > a && is_white(s.get_char(b - 1))
        invariant
            n == s@.len(),
            a <= b <= n,
            t == s@.subrange(a as int, n as int),
            trim_end_white(t) == trim_end_white(s@.subrange(a as int, b as int)),
        decreases b - a,
    {
        assert(s@.subrange(a as int, b as int).drop_last() =~= s@.subrange(a as int, b - 1));
        b = b - 1;
    }
    assert(trim_end_white(t) == s@.subrange(a as int, b as int)) by {
        if b > a {
            assert(s@.subrange(a as int, b as int).last() == s@[b - 1]);
        }
    }
    String::from_str(s.substring_char(a, b))
}

/// The UTF-8 bytes of a string (`str::as_bytes`).
pub fn text_bytes(s: &String) -> (r: Vec<u8>)
    ensures
        r@ == vstd::utf8::encode_utf8(s@),
{
    let b = s.as_str().as_bytes();
    let mut r: Vec<u8> = Vec::new();
    let mut i: usize = 0;
    while i < b.len()
        invariant
            i <= b@.len(),
            r@ == b@.subrange(0, i as int),
        decreases b@.len() - i,
    {
        r.push(b[i]);
        i = i + 1;
        assert(r@ =~= b@.subrange(0, i as int));
    }
    assert(b@.subrange(0, b@.len() as int) =~= b@);
    r
}

} // verus!
