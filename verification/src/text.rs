//! Text: decimal numbers, padding, and the reading of bytes as UTF-8.

use crate::order;
use crate::order::Standing;
use vstd::prelude::*;
use vstd::string::*;
use vstd::utf8::*;

verus! {

/// `String::push` appends the character.
pub assume_specification[ String::push ](s: &mut String, ch: char)
    ensures
        final(s)@ == old(s)@.push(ch),
;

/// The text that `String::from_utf8_lossy` makes of bytes that are not UTF-8,
/// with replacement characters.
pub uninterp spec fn lossy_text(bytes: Seq<u8>) -> Seq<char>;

/// The text that bytes are shown as: decoded where they are UTF-8, else with
/// replacement characters.
pub open spec fn display_text(bytes: Seq<u8>) -> Seq<char> {
    if valid_utf8(bytes) {
        decode_utf8(bytes)
    } else {
        lossy_text(bytes)
    }
}

/// `String::from_utf8_lossy`. Bytes that are UTF-8 are decoded as they stand; of
/// others the text depends on the bytes alone. Left unsaid is where in it the
/// replacement characters fall.
#[verifier::external_body]
fn from_utf8_lossy(bytes: &[u8]) -> (r: String)
    ensures
        r@ == if valid_utf8(bytes@) {
            decode_utf8(bytes@)
        } else {
            lossy_text(bytes@)
        },
{
    String::from_utf8_lossy(bytes).into_owned()
}

/// The text that bytes are shown as.
pub fn lossy(bytes: &[u8]) -> (r: String)
    ensures
        r@ == display_text(bytes@),
{
    from_utf8_lossy(bytes)
}

/// `str::from_utf8`: the text that the bytes encode, where they are UTF-8.
#[verifier::external_body]
pub(crate) fn utf8_text(bytes: &[u8]) -> (r: Option<String>)
    ensures
        match r {
            Some(text) => valid_utf8(bytes@) && text@ == decode_utf8(bytes@),
            None => !valid_utf8(bytes@),
        },
{
    match std::str::from_utf8(bytes) {
        Ok(text) => Some(text.to_string()),
        Err(_) => None,
    }
}

/// The characters of `s`.
pub fn chars_of(s: &str) -> (r: Vec<char>)
    ensures
        r@ == s@,
{
    let mut r: Vec<char> = Vec::new();
    for c in iter: s.chars()
        invariant
            iter.seq() == s@,
            r@ == s@.take(iter.index()),
    {
        r.push(c);
        assert(s@.take(iter.index() + 1) =~= s@.take(iter.index()).push(c));
    }
    assert(s@.take(s@.len() as int) =~= s@);
    r
}

/// The text made of `chars`.
pub fn text_of(chars: &Vec<char>) -> (r: String)
    ensures
        r@ == chars@,
{
    let mut r = String::new();
    let mut i: usize = 0;
    while i < chars.len()
        invariant
            i <= chars.len(),
            r@ == chars@.take(i as int),
        decreases chars.len() - i,
    {
        r.push(chars[i]);
        i = i + 1;
        assert(chars@.take(i as int) =~= chars@.take(i - 1).push(chars@[i - 1]));
    }
    assert(chars@.take(i as int) =~= chars@);
    r
}

pub open spec fn char_lt() -> spec_fn(char, char) -> bool {
    |x: char, y: char| x < y
}

/// `a` stands before `b` in the alphabetical order of code points.
pub open spec fn text_lt(a: Seq<char>, b: Seq<char>) -> bool {
    order::lex_lt(a, b, char_lt())
}

pub proof fn lemma_char_lt_is_strict()
    ensures
        order::strict_order(char_lt()),
{
}

/// Where `a` stands to `b` in alphabetical order.
pub fn compare_text(a: &str, b: &str) -> (r: Standing)
    ensures
        r is Same <==> a@ == b@,
        r is Before <==> text_lt(a@, b@),
        r is Behind <==> text_lt(b@, a@),
{
    proof {
        lemma_char_lt_is_strict();
        order::lemma_lex_standing(a@, b@, char_lt());
    }
    let ghost whole = order::lex_standing(a@, b@, char_lt());
    let mut x = a.chars();
    let mut y = b.chars();
    loop
        invariant
            whole == order::lex_standing(
                vstd::std_specs::iter::IteratorSpec::remaining(&x),
                vstd::std_specs::iter::IteratorSpec::remaining(&y),
                char_lt(),
            ),
            vstd::std_specs::iter::IteratorSpec::decrease(&x) is Some,
            whole is Same <==> a@ == b@,
            whole is Before <==> text_lt(a@, b@),
            whole is Behind <==> text_lt(b@, a@),
        decreases vstd::std_specs::iter::IteratorSpec::decrease(&x)->0,
    {
        match (x.next(), y.next()) {
            (None, None) => {
                return Standing::Same;
            },
            (None, Some(_)) => {
                return Standing::Before;
            },
            (Some(_), None) => {
                return Standing::Behind;
            },
            (Some(c), Some(d)) => {
                if c < d {
                    return Standing::Before;
                }
                if d < c {
                    return Standing::Behind;
                }
            },
        }
    }
}

/// The character that writes a digit.
pub open spec fn digit_char(d: nat) -> char {
    (0x30 + d) as char
}

/// `n` in decimal, without leading zeros.
pub open spec fn decimal(n: nat) -> Seq<char>
    decreases n,
{
    if n < 10 {
        seq![digit_char(n)]
    } else {
        decimal(n / 10).push(digit_char(n % 10))
    }
}

pub fn push_decimal(out: &mut String, n: u64)
    ensures
        final(out)@ == old(out)@ + decimal(n as nat),
    decreases n,
{
    if n >= 10 {
        push_decimal(out, n / 10);
    }
    out.push((0x30u8 + (n % 10) as u8) as char);
    assert(out@ =~= old(out)@ + decimal(n as nat));
}

/// `n` in decimal.
pub fn decimal_text(n: u64) -> (r: String)
    ensures
        r@ == decimal(n as nat),
{
    let mut r = String::new();
    push_decimal(&mut r, n);
    assert(r@ =~= decimal(n as nat));
    r
}

/// `n` blanks.
pub open spec fn blanks(n: nat) -> Seq<char> {
    Seq::new(n, |i: int| ' ')
}

/// `s` set right in a column of `width` characters; longer text is not cut.
pub open spec fn right_aligned(s: Seq<char>, width: nat) -> Seq<char> {
    if s.len() < width {
        blanks((width - s.len()) as nat) + s
    } else {
        s
    }
}

pub fn push_right_aligned(out: &mut String, s: &str, width: usize)
    ensures
        final(out)@ == old(out)@ + right_aligned(s@, width as nat),
{
    let len = s.unicode_len();
    let mut i: usize = len;
    assert(out@ =~= old(out)@ + blanks(0));
    while i < width
        invariant
            len == s@.len(),
            len <= i,
            i <= width || i == len,
            out@ == old(out)@ + blanks((i - len) as nat),
        decreases width - i,
    {
        out.push(' ');
        i = i + 1;
        assert(out@ =~= old(out)@ + blanks((i - len) as nat));
    }
    out.append(s);
    assert(out@ =~= old(out)@ + right_aligned(s@, width as nat));
}

/// The ASCII lower-case form of a character; other characters stay.
pub open spec fn ascii_lower_char(c: char) -> char {
    if 'A' <= c && c <= 'Z' {
        (c as u32 + 0x20) as char
    } else {
        c
    }
}

/// `s` with its ASCII letters in lower case.
pub open spec fn ascii_lower(s: Seq<char>) -> Seq<char> {
    s.map_values(|c: char| ascii_lower_char(c))
}

pub fn to_ascii_lower(s: &str) -> (r: String)
    ensures
        r@ == ascii_lower(s@),
{
    let mut r = String::new();
    for c in iter: s.chars()
        invariant
            iter.seq() == s@,
            r@ == ascii_lower(s@.take(iter.index())),
    {
        let low: char = if 'A' <= c && c <= 'Z' {
            (c as u8 + 0x20) as char
        } else {
            c
        };
        r.push(low);
        assert(ascii_lower(s@.take(iter.index() + 1)) =~= ascii_lower(s@.take(iter.index())).push(
            ascii_lower_char(c),
        ));
    }
    assert(s@.take(s@.len() as int) =~= s@);
    r
}

/// The number that a row of decimal digits stands for.
pub open spec fn decimal_value(s: Seq<char>) -> nat
    decreases s.len(),
{
    if s.len() == 0 {
        0
    } else {
        10 * decimal_value(s.drop_last()) + (s.last() as u32 - 0x30) as nat
    }
}

/// A number in decimal is made of digits, reads back as the number, and has no
/// leading zero.
pub proof fn law_decimal_reads_back(n: nat)
    ensures
        decimal_value(decimal(n)) == n,
        forall|i: int| 0 <= i < decimal(n).len() ==> '0' <= #[trigger] decimal(n)[i] <= '9',
        decimal(n).len() > 0,
        decimal(n).len() > 1 ==> decimal(n)[0] != '0',
    decreases n,
{
    let s = decimal(n);
    if n < 10 {
        assert(s.drop_last() =~= seq![]);
        assert(decimal_value(s.drop_last()) == 0);
    } else {
        let front = decimal(n / 10);
        law_decimal_reads_back(n / 10);
        assert(s.drop_last() =~= front);
        assert forall|i: int| 0 <= i < s.len() implies '0' <= #[trigger] s[i] <= '9' by {
            if i < front.len() {
                assert(s[i] == front[i]);
            }
        }
        assert(s[0] == front[0]);
        if front.len() == 1 && front[0] == '0' {
            assert(front.drop_last() =~= seq![]);
            assert(decimal_value(front.drop_last()) == 0);
        }
    }
}

/// Text that is set right ends in itself, has only blanks before it, and fills
/// the column unless it is longer.
pub proof fn law_right_aligned_ends_in_the_text(s: Seq<char>, width: nat)
    ensures
        right_aligned(s, width).len() == if s.len() < width {
            width
        } else {
            s.len()
        },
        right_aligned(s, width).skip(right_aligned(s, width).len() - s.len()) == s,
        forall|i: int|
            0 <= i < right_aligned(s, width).len() - s.len() ==> #[trigger] right_aligned(s, width)[i]
                == ' ',
{
    let r = right_aligned(s, width);
    assert(r.skip(r.len() - s.len()) =~= s);
}

/// In lower case, the letters from `A` to `Z` become those from `a` to `z`, and all
/// other characters stay where they are.
pub proof fn law_lower_case_changes_capitals_only(s: Seq<char>)
    ensures
        ascii_lower(s).len() == s.len(),
        forall|i: int|
            0 <= i < s.len() ==> {
                let c = #[trigger] ascii_lower(s)[i];
                if 'A' <= s[i] && s[i] <= 'Z' {
                    c as u32 == s[i] as u32 + 32
                } else {
                    c == s[i]
                }
            },
{
}

/// The texts are the same up to `k`, where `a` ends or has the lower code point.
pub open spec fn lower_at(a: Seq<char>, b: Seq<char>, k: int) -> bool {
    &&& 0 <= k <= a.len()
    &&& k <= b.len()
    &&& a.take(k) == b.take(k)
    &&& k == a.len() || (k < b.len() && a[k] < b[k])
}

/// Text stands before other text where it ends, or has the lower code point, at
/// the first place in which they differ.
pub proof fn law_text_order_is_alphabetical(a: Seq<char>, b: Seq<char>)
    ensures
        text_lt(a, b) <==> a != b && exists|k: int| #[trigger] lower_at(a, b, k),
{
    order::law_first_difference_decides(a, b, char_lt());
    if order::lex_le(a, b, char_lt()) {
        let k = choose|k: int| #[trigger] order::first_differ_at(a, b, k, char_lt());
        assert(a.take(k) =~= b.take(k));
        assert(lower_at(a, b, k));
    }
    if exists|k: int| #[trigger] lower_at(a, b, k) {
        let k = choose|k: int| #[trigger] lower_at(a, b, k);
        assert forall|i: int| 0 <= i < k implies #[trigger] a[i] == b[i] by {
            assert(a.take(k)[i] == b.take(k)[i]);
        }
        assert(order::first_differ_at(a, b, k, char_lt()));
    }
}

/// Bytes that encode a text are shown as the text.
pub proof fn law_encoded_text_is_shown(s: Seq<char>)
    ensures
        display_text(encode_utf8(s)) == s,
{
    encode_utf8_valid_utf8(s);
    encode_utf8_decode_utf8(s);
}

} // verus!
