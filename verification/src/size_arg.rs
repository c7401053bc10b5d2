//! Sizes as a user types them: `500`, `10MB`, `1.5 GiB`, `2T`.

use crate::numeral::Numeral;
use crate::order::Standing;
use crate::text::{chars_of, compare_text, push_decimal, text_of};
use crate::{numeral, rounding, text};
use vstd::arithmetic::power2::*;
use vstd::prelude::*;
use vstd::string::*;
use vstd::utf8::*;

verus! {

/// What `char::is_alphabetic` answers for a character that is not ASCII.
pub uninterp spec fn alphabetic(c: char) -> bool;

/// A letter: of the ASCII characters `a` to `z` and `A` to `Z`.
pub open spec fn letter(c: char) -> bool {
    if (c as u32) < 128 {
        ('a' <= c && c <= 'z') || ('A' <= c && c <= 'Z')
    } else {
        alphabetic(c)
    }
}

/// `char::is_alphabetic`. Among the ASCII characters it holds of the letters
/// only. Left unsaid is of which other characters it holds.
#[verifier::external_body]
fn is_alphabetic(c: char) -> (r: bool)
    ensures
        r == if (c as u32) < 128 {
            ('a' <= c && c <= 'z') || ('A' <= c && c <= 'Z')
        } else {
            alphabetic(c)
        },
{
    c.is_alphabetic()
}

/// What `str::to_lowercase` makes of a text that is not ASCII, and whose ASCII
/// letters are in lower case.
pub uninterp spec fn lower_text(s: Seq<char>) -> Seq<char>;

/// `s` in lower case.
pub open spec fn lowered(s: Seq<char>) -> Seq<char> {
    if is_ascii_chars(s) {
        text::ascii_lower(s)
    } else {
        lower_text(text::ascii_lower(s))
    }
}

/// `str::to_lowercase`. In ASCII text the letters become lower case and all else
/// stays. Of other text, the lower-case form is the same in whichever case its
/// ASCII letters are. Left unsaid is what becomes of its other characters.
#[verifier::external_body]
fn to_lowercase(s: &str) -> (r: String)
    ensures
        r@ == if is_ascii_chars(s@) {
            text::ascii_lower(s@)
        } else {
            lower_text(text::ascii_lower(s@))
        },
{
    s.to_lowercase()
}

/// What `str::to_uppercase` makes of a text that is not ASCII, and whose ASCII
/// letters are in upper case.
pub uninterp spec fn upper_text(s: Seq<char>) -> Seq<char>;

/// The ASCII upper-case form of a character; other characters stay.
pub open spec fn ascii_upper_char(c: char) -> char {
    if 'a' <= c && c <= 'z' {
        (c as u32 - 0x20) as char
    } else {
        c
    }
}

/// `s` with its ASCII letters in upper case.
pub open spec fn ascii_upper(s: Seq<char>) -> Seq<char> {
    s.map_values(|c: char| ascii_upper_char(c))
}

/// `s` in upper case.
pub open spec fn uppered(s: Seq<char>) -> Seq<char> {
    if is_ascii_chars(s) {
        ascii_upper(s)
    } else {
        upper_text(ascii_upper(s))
    }
}

/// `str::to_uppercase`. In ASCII text the letters become upper case and all else
/// stays. Of other text, the upper-case form is the same in whichever case its
/// ASCII letters are. Left unsaid is what becomes of its other characters.
#[verifier::external_body]
fn to_uppercase(s: &str) -> (r: String)
    ensures
        r@ == if is_ascii_chars(s@) {
            ascii_upper(s@)
        } else {
            upper_text(ascii_upper(s@))
        },
{
    s.to_uppercase()
}

/// White space, as the Unicode property has it.
pub open spec fn white(c: char) -> bool {
    let n = c as u32;
    (0x9 <= n <= 0xd) || n == 0x20 || n == 0x85 || n == 0xa0 || n == 0x1680 || (0x2000 <= n
        <= 0x200a) || n == 0x2028 || n == 0x2029 || n == 0x202f || n == 0x205f || n == 0x3000
}

fn is_white(c: char) -> (r: bool)
    ensures
        r == white(c),
{
    let n = c as u32;
    (0x9 <= n && n <= 0xd) || n == 0x20 || n == 0x85 || n == 0xa0 || n == 0x1680 || (0x2000 <= n
        && n <= 0x200a) || n == 0x2028 || n == 0x2029 || n == 0x202f || n == 0x205f || n == 0x3000
}

pub open spec fn trimmed_start(s: Seq<char>) -> Seq<char>
    decreases s.len(),
{
    if s.len() > 0 && white(s[0]) {
        trimmed_start(s.drop_first())
    } else {
        s
    }
}

pub open spec fn trimmed_end(s: Seq<char>) -> Seq<char>
    decreases s.len(),
{
    if s.len() > 0 && white(s.last()) {
        trimmed_end(s.drop_last())
    } else {
        s
    }
}

/// `s` without the white space at its ends.
pub open spec fn trimmed(s: Seq<char>) -> Seq<char> {
    trimmed_end(trimmed_start(s))
}

/// The characters from `from` up to `to` without the white space at their ends.
fn trim(chars: &Vec<char>, from: usize, to: usize) -> (r: Vec<char>)
    requires
        from <= to <= chars.len(),
    ensures
        r@ == trimmed(chars@.subrange(from as int, to as int)),
{
    let ghost whole = chars@.subrange(from as int, to as int);
    let mut a: usize = from;
    while a < to && is_white(chars[a])
        invariant
            from <= a <= to <= chars.len(),
            trimmed_start(whole) == trimmed_start(chars@.subrange(a as int, to as int)),
        decreases to - a,
    {
        assert(chars@.subrange(a as int, to as int).drop_first() =~= chars@.subrange(
            a + 1,
            to as int,
        ));
        a = a + 1;
    }
    let ghost left = chars@.subrange(a as int, to as int);
    assert(trimmed_start(whole) == left);
    let mut b: usize = to;
    while b > a && is_white(chars[b - 1])
        invariant
            a <= b <= to <= chars.len(),
            trimmed_end(left) == trimmed_end(chars@.subrange(a as int, b as int)),
        decreases b - a,
    {
        assert(chars@.subrange(a as int, b as int).drop_last() =~= chars@.subrange(
            a as int,
            b - 1,
        ));
        b = b - 1;
    }
    vstd::slice::slice_to_vec(&chars.as_slice()[a..b])
}

/// Where the numeric part ends: the first letter or blank, or the end.
pub open spec fn number_end(s: Seq<char>) -> int
    decreases s.len(),
{
    if s.len() == 0 || letter(s[0]) || s[0] == ' ' {
        0
    } else {
        1 + number_end(s.drop_first())
    }
}

fn find_number_end(chars: &Vec<char>) -> (r: usize)
    ensures
        r == number_end(chars@),
        r <= chars.len(),
{
    let mut i: usize = 0;
    assert(chars@.skip(0) =~= chars@);
    while i < chars.len()
        invariant
            i <= chars.len(),
            number_end(chars@) == i + number_end(chars@.skip(i as int)),
        decreases chars.len() - i,
    {
        let c = chars[i];
        assert(chars@.skip(i as int)[0] == c);
        if is_alphabetic(c) || c == ' ' {
            return i;
        }
        assert(chars@.skip(i as int).drop_first() =~= chars@.skip(i + 1));
        i = i + 1;
    }
    i
}

pub open spec fn digit(c: char) -> bool {
    '0' <= c && c <= '9'
}

pub open spec fn all_digits(s: Seq<char>) -> bool {
    forall|i: int| 0 <= i < s.len() ==> digit(#[trigger] s[i])
}

/// The number without its sign.
pub open spec fn unsigned(num: Seq<char>) -> Seq<char> {
    if num.len() > 0 && (num[0] == '+' || num[0] == '-') {
        num.drop_first()
    } else {
        num
    }
}

pub open spec fn negative(num: Seq<char>) -> bool {
    num.len() > 0 && num[0] == '-'
}

/// Where the first point is, or the end.
pub open spec fn point_at(s: Seq<char>) -> int
    decreases s.len(),
{
    if s.len() == 0 || s[0] == '.' {
        0
    } else {
        1 + point_at(s.drop_first())
    }
}

/// What stands before the point.
pub open spec fn whole_part(num: Seq<char>) -> Seq<char> {
    unsigned(num).take(point_at(unsigned(num)))
}

/// What stands behind the point.
pub open spec fn fraction_part(num: Seq<char>) -> Seq<char> {
    let s = unsigned(num);
    if point_at(s) < s.len() {
        s.skip(point_at(s) + 1)
    } else {
        seq![]
    }
}

/// Digits with at most one point among them, at least one digit, and perhaps a sign.
pub open spec fn valid_number(num: Seq<char>) -> bool {
    &&& all_digits(whole_part(num))
    &&& all_digits(fraction_part(num))
    &&& whole_part(num).len() + fraction_part(num).len() > 0
}

pub open spec fn digit_values(s: Seq<char>) -> Seq<u8> {
    s.map_values(|c: char| (c as u32 - 0x30) as u8)
}

/// The digits of the number, without point and sign.
pub open spec fn numerator(num: Seq<char>) -> nat {
    numeral::digits_value(digit_values(whole_part(num)) + digit_values(fraction_part(num)))
}

/// What the digits are divided by for the point.
pub open spec fn denominator(num: Seq<char>) -> nat {
    numeral::ten_to(fraction_part(num).len())
}

/// The values of the digits from `from` up to `to`, where all are digits.
fn read_digits(chars: &Vec<char>, from: usize, to: usize) -> (r: Option<Vec<u8>>)
    requires
        from <= to <= chars.len(),
    ensures
        ({
            let s = chars@.subrange(from as int, to as int);
            match r {
                Some(values) => all_digits(s) && values@ == digit_values(s)
                    && numeral::are_digits(values@),
                None => !all_digits(s),
            }
        }),
{
    let ghost s = chars@.subrange(from as int, to as int);
    let mut values: Vec<u8> = Vec::new();
    let mut i: usize = from;
    while i < to
        invariant
            from <= i <= to <= chars.len(),
            s == chars@.subrange(from as int, to as int),
            all_digits(s.take(i - from)),
            values@ =~= digit_values(s.take(i - from)),
            numeral::are_digits(values@),
        decreases to - i,
    {
        let c = chars[i];
        assert(s[i - from] == c);
        if !('0' <= c && c <= '9') {
            return None;
        }
        let ghost before = values@;
        values.push(c as u8 - 0x30);
        proof {
            assert(s.take(i - from + 1) =~= s.take(i - from).push(c));
            assert(digit_values(s.take(i - from + 1)) =~= digit_values(s.take(i - from)).push(
                (c as u32 - 0x30) as u8,
            ));
        }
        i = i + 1;
    }
    assert(s.take(i - from) =~= s);
    Some(values)
}

/// Reads a number: whether it has a minus sign, and its digits.
fn read_number(num: &str) -> (r: Option<(bool, Numeral)>)
    ensures
        match r {
            Some((minus, digits)) => {
                &&& valid_number(num@)
                &&& minus == negative(num@)
                &&& digits.wf()
                &&& digits.numerator() == numerator(num@)
                &&& digits.denominator() == denominator(num@)
            },
            None => !valid_number(num@),
        },
{
    let chars = chars_of(num);
    let minus = chars.len() > 0 && chars[0] == '-';
    let from: usize = if minus || (chars.len() > 0 && chars[0] == '+') {
        1
    } else {
        0
    };
    let ghost s = unsigned(num@);
    assert(s =~= chars@.skip(from as int));
    let mut point: usize = from;
    while point < chars.len() && chars[point] != '.'
        invariant
            from <= point <= chars.len(),
            s == chars@.skip(from as int),
            point_at(s) == point - from + point_at(chars@.skip(point as int)),
        decreases chars.len() - point,
    {
        assert(chars@.skip(point as int).drop_first() =~= chars@.skip(point + 1));
        point = point + 1;
    }
    assert(point_at(s) == point - from) by {
        if point < chars.len() {
            assert(chars@.skip(point as int)[0] == '.');
        }
    }
    let end = chars.len();
    let behind: usize = if point < end {
        point + 1
    } else {
        end
    };
    proof {
        assert(chars@.subrange(from as int, point as int) =~= whole_part(num@));
        assert(chars@.subrange(behind as int, end as int) =~= fraction_part(num@));
    }
    match (read_digits(&chars, from, point), read_digits(&chars, behind, end)) {
        (Some(whole), Some(fraction)) => {
            if whole.len() == 0 && fraction.len() == 0 {
                None
            } else {
                Some((minus, Numeral { whole, fraction }))
            }
        },
        _ => None,
    }
}

fn same_text(a: &str, b: &str) -> (r: bool)
    ensures
        r == (a@ == b@),
{
    match compare_text(a, b) {
        Standing::Same => true,
        _ => false,
    }
}

/// The words for numbers that are no numbers.
pub open spec fn special_word(lower: Seq<char>) -> bool {
    lower == "nan"@ || lower == "inf"@ || lower == "infinity"@ || lower == "-inf"@ || lower
        == "-infinity"@ || lower == "+inf"@ || lower == "+infinity"@
}

fn is_special_word(lower: &str) -> (r: bool)
    ensures
        r == special_word(lower@),
{
    same_text(lower, "nan") || same_text(lower, "inf") || same_text(lower, "infinity")
        || same_text(lower, "-inf") || same_text(lower, "-infinity") || same_text(lower, "+inf")
        || same_text(lower, "+infinity")
}

/// The power of two that a unit stands for.
pub open spec fn unit_shift(unit: Seq<char>) -> Option<nat> {
    if unit == ""@ || unit == "B"@ {
        Some(0)
    } else if unit == "K"@ || unit == "KB"@ || unit == "KIB"@ {
        Some(10)
    } else if unit == "M"@ || unit == "MB"@ || unit == "MIB"@ {
        Some(20)
    } else if unit == "G"@ || unit == "GB"@ || unit == "GIB"@ {
        Some(30)
    } else if unit == "T"@ || unit == "TB"@ || unit == "TIB"@ {
        Some(40)
    } else {
        None
    }
}

fn find_unit_shift(unit: &str) -> (r: Option<u32>)
    ensures
        match r {
            Some(k) => k <= 40 && unit_shift(unit@) == Some(k as nat),
            None => unit_shift(unit@) is None,
        },
{
    if same_text(unit, "") || same_text(unit, "B") {
        Some(0)
    } else if same_text(unit, "K") || same_text(unit, "KB") || same_text(unit, "KIB") {
        Some(10)
    } else if same_text(unit, "M") || same_text(unit, "MB") || same_text(unit, "MIB") {
        Some(20)
    } else if same_text(unit, "G") || same_text(unit, "GB") || same_text(unit, "GIB") {
        Some(30)
    } else if same_text(unit, "T") || same_text(unit, "TB") || same_text(unit, "TIB") {
        Some(40)
    } else {
        None
    }
}

pub open spec fn not_a_number(what: Seq<char>) -> Seq<char> {
    "'"@ + what + "' is not a valid number"@
}

pub open spec fn too_large(what: Seq<char>) -> Seq<char> {
    "'"@ + what + "' is too large (maximum is "@ + text::decimal(u64::MAX as nat) + " bytes)"@
}

pub open spec fn unknown_unit(unit: Seq<char>) -> Seq<char> {
    "unknown unit '"@ + unit + "'"@
}

/// The number of bytes that a number in a unit stands for, as double precision
/// has it, or what is wrong with it. A size of more than `u64::MAX` bytes is
/// refused. `whole` is the text that holds both, and `lower` its lower-case form.
pub open spec fn size_of_parts(
    whole: Seq<char>,
    lower: Seq<char>,
    num: Seq<char>,
    unit: Seq<char>,
) -> Result<u64, Seq<char>> {
    if special_word(lower) {
        Err(not_a_number(whole))
    } else if !valid_number(num) || numeral::overflows_double(numerator(num), denominator(num)) {
        Err(not_a_number(num))
    } else if negative(num) && !numeral::vanishes_in_double(numerator(num), denominator(num)) {
        Err("size must be non-negative"@)
    } else {
        match unit_shift(unit) {
            None => Err(unknown_unit(unit)),
            Some(k) => {
                let bytes = numeral::double_whole(numerator(num) * pow2(k), denominator(num));
                if numerator(num) * pow2(k) > u64::MAX * denominator(num) {
                    Err(too_large(whole))
                } else if bytes > u64::MAX {
                    Ok(u64::MAX)
                } else {
                    Ok(bytes as u64)
                }
            },
        }
    }
}

/// The number of bytes that a typed size stands for, or what is wrong with it.
pub open spec fn typed_size(s: Seq<char>) -> Result<u64, Seq<char>> {
    let whole = trimmed(s);
    let end = number_end(whole);
    size_of_parts(
        whole,
        lowered(whole),
        trimmed(whole.take(end)),
        uppered(trimmed(whole.skip(end))),
    )
}

/// A result with its message as plain characters.
pub open spec fn as_chars(r: Result<u64, String>) -> Result<u64, Seq<char>> {
    match r {
        Ok(n) => Ok(n),
        Err(message) => Err(message@),
    }
}

/// The number of bytes that `num` in `unit` stands for.
pub fn parse_size_parts(whole: &str, lower: &str, num: &str, unit: &str) -> (r: Result<u64, String>)
    ensures
        as_chars(r) == size_of_parts(whole@, lower@, num@, unit@),
{
    if is_special_word(lower) {
        return Err(message("'", whole, "' is not a valid number"));
    }
    let (minus, digits) = match read_number(num) {
        Some(read) => read,
        None => {
            return Err(message("'", num, "' is not a valid number"));
        },
    };
    if digits.overflows() {
        return Err(message("'", num, "' is not a valid number"));
    }
    if minus && !digits.vanishes() {
        let mut below = String::new();
        below.append("size must be non-negative");
        assert(below@ =~= "size must be non-negative"@);
        return Err(below);
    }
    let shift = match find_unit_shift(unit) {
        Some(shift) => shift,
        None => {
            return Err(message("unknown unit '", unit, "'"));
        },
    };
    match digits.scaled_whole(shift) {
        None => {
            let mut tail = String::new();
            tail.append("' is too large (maximum is ");
            push_decimal(&mut tail, u64::MAX);
            tail.append(" bytes)");
            let r = message("'", whole, tail.as_str());
            assert(r@ =~= too_large(whole@));
            Err(r)
        },
        Some(bytes) => {
            // The nearest double of a size that fits may be one that does not.
            if bytes > u64::MAX as u128 {
                Ok(u64::MAX)
            } else {
                Ok(bytes as u64)
            }
        },
    }
}

fn message(before: &str, what: &str, behind: &str) -> (r: String)
    ensures
        r@ == before@ + what@ + behind@,
{
    let mut r = String::new();
    r.append(before);
    r.append(what);
    r.append(behind);
    assert(r@ =~= before@ + what@ + behind@);
    r
}

/// Reads a size with an optional unit: `B`, `K`/`KB`/`KiB`, `M`/`MB`/`MiB`,
/// `G`/`GB`/`GiB`, `T`/`TB`/`TiB`. Blanks between number and unit are allowed.
pub fn parse_min_size(s: &str) -> (r: Result<u64, String>)
    ensures
        as_chars(r) == typed_size(s@),
{
    let typed = chars_of(s);
    assert(typed@.subrange(0, typed@.len() as int) =~= s@);
    let chars = trim(&typed, 0, typed.len());
    let end = find_number_end(&chars);
    let num = text_of(&trim(&chars, 0, end));
    let unit = text_of(&trim(&chars, end, chars.len()));
    proof {
        assert(chars@.subrange(0, end as int) =~= chars@.take(end as int));
        assert(chars@.subrange(end as int, chars@.len() as int) =~= chars@.skip(end as int));
    }
    let whole = text_of(&chars);
    let lower = to_lowercase(whole.as_str());
    let upper = to_uppercase(unit.as_str());
    parse_size_parts(whole.as_str(), lower.as_str(), num.as_str(), upper.as_str())
}

proof fn lemma_decimal_digits(n: nat)
    ensures
        all_digits(text::decimal(n)),
        text::decimal(n).len() > 0,
        numeral::digits_value(digit_values(text::decimal(n))) == n,
    decreases n,
{
    let s = text::decimal(n);
    let v = digit_values(s);
    if n < 10 {
        assert(v.drop_last() =~= seq![]);
        assert(numeral::digits_value(v.drop_last()) == 0);
        assert(v.last() == n);
    } else {
        lemma_decimal_digits(n / 10);
        assert(v.drop_last() =~= digit_values(text::decimal(n / 10)));
        assert(v.last() == n % 10);
    }
}

proof fn lemma_no_point(s: Seq<char>)
    requires
        all_digits(s),
    ensures
        point_at(s) == s.len(),
    decreases s.len(),
{
    if s.len() > 0 {
        assert(digit(s[0]));
        assert forall|i: int| 0 <= i < s.drop_first().len() implies digit(
            #[trigger] s.drop_first()[i],
        ) by {
            assert(s.drop_first()[i] == s[i + 1]);
        }
        lemma_no_point(s.drop_first());
    }
}

proof fn lemma_small_number_is_exact(p: nat)
    requires
        p < rounding::double_limit(),
    ensures
        numeral::double_whole(p, 1) == p,
{
    let t = numeral::bits_short(p, 1);
    lemma_pow2_pos(t);
    let scaled = p * pow2(t);
    assert(scaled % 1 == 0 && scaled / 1 == scaled);
    vstd::arithmetic::div_mod::lemma_div_multiples_vanish(p as int, pow2(t) as int);
    assert(pow2(t) * p == p * pow2(t)) by (nonlinear_arith);
}

/// A number of at most 53 bits times a power of two is a double.
proof fn lemma_nearest_double_is_exact(n: nat, k: nat, q: nat)
    requires
        n <= rounding::double_limit(),
        q > 0,
    ensures
        rounding::nearest_double(n * pow2(k) * q, q) == n * pow2(k),
    decreases k, n,
{
    let m = n * pow2(k);
    let p = m * q;
    let limit = rounding::double_limit();
    if m < limit {
        assert(p < limit * q) by (nonlinear_arith)
            requires
                p == m * q,
                m < limit,
                q > 0,
        ;
        vstd::arithmetic::div_mod::lemma_div_multiples_vanish(m as int, q as int);
        vstd::arithmetic::div_mod::lemma_mod_multiples_basic(m as int, q as int);
        assert(q * m == m * q) by (nonlinear_arith);
    } else {
        assert(p >= limit * q) by (nonlinear_arith)
            requires
                p == m * q,
                m >= limit,
                q > 0,
        ;
        if k == 0 {
            lemma2_to64();
            let half: nat = 0x10_0000_0000_0000;
            assert(m == n);
            assert(half * 1 * (2 * q) == m * q) by (nonlinear_arith)
                requires
                    m == 2 * half,
            ;
            lemma_nearest_double_is_exact(half, 0, 2 * q);
        } else {
            let less = (k - 1) as nat;
            lemma_pow2_unfold(k);
            assert(n * pow2(less) * (2 * q) == n * (2 * pow2(less)) * q) by (nonlinear_arith);
            assert(2 * (n * pow2(less)) == n * (2 * pow2(less))) by (nonlinear_arith);
            lemma_nearest_double_is_exact(n, less, 2 * q);
        }
    }
}

/// A size typed as a whole number in a known unit is that many bytes, as long as
/// the number has at most 53 bits and the bytes fit in 64.
pub proof fn law_whole_sizes_are_exact(
    whole: Seq<char>,
    lower: Seq<char>,
    n: nat,
    unit: Seq<char>,
)
    requires
        !special_word(lower),
        unit_shift(unit) is Some,
        n <= rounding::double_limit(),
        n * pow2(unit_shift(unit)->0) <= u64::MAX,
    ensures
        size_of_parts(whole, lower, text::decimal(n), unit) == Ok::<u64, Seq<char>>(
            (n * pow2(unit_shift(unit)->0)) as u64,
        ),
{
    let num = text::decimal(n);
    let k = unit_shift(unit)->0;
    lemma_decimal_digits(n);
    assert(digit(num[0]));
    assert(unsigned(num) == num);
    lemma_no_point(num);
    assert(whole_part(num) =~= num);
    assert(digit_values(whole_part(num)) + digit_values(fraction_part(num)) =~= digit_values(num));
    assert(numerator(num) == n);
    assert(denominator(num) == 1);
    let bytes = n * pow2(k);
    if bytes < rounding::double_limit() {
        lemma_small_number_is_exact(bytes);
    } else {
        lemma_nearest_double_is_exact(n, k, 1);
        assert(bytes * 1 == bytes);
    }
    lemma_pow2_pos(970);
    assert(numeral::double_overflow() >= 0x3f_ffff_ffff_ffff) by (nonlinear_arith)
        requires
            numeral::double_overflow() == 0x3f_ffff_ffff_ffff * pow2(970),
            pow2(970) >= 1,
    ;
}

pub open spec fn all_letters(s: Seq<char>) -> bool {
    forall|i: int|
        0 <= i < s.len() ==> ('a' <= #[trigger] s[i] && s[i] <= 'z') || ('A' <= s[i] && s[i] <= 'Z')
}

proof fn lemma_trimmed_start_behind_blanks(gap: nat, s: Seq<char>)
    requires
        s.len() == 0 || !white(s[0]),
    ensures
        trimmed_start(text::blanks(gap) + s) == s,
    decreases gap,
{
    let all = text::blanks(gap) + s;
    if gap == 0 {
        assert(all =~= s);
    } else {
        let less = (gap - 1) as nat;
        assert(all.drop_first() =~= text::blanks(less) + s);
        lemma_trimmed_start_behind_blanks(less, s);
    }
}

proof fn lemma_number_ends_at(digits: Seq<char>, rest: Seq<char>)
    requires
        all_digits(digits),
        rest.len() == 0 || rest[0] == ' ' || letter(rest[0]),
    ensures
        number_end(digits + rest) == digits.len(),
    decreases digits.len(),
{
    let all = digits + rest;
    if digits.len() == 0 {
        assert(all =~= rest);
    } else {
        assert(digit(digits[0]));
        assert(all[0] == digits[0]);
        assert forall|i: int| 0 <= i < digits.drop_first().len() implies digit(
            #[trigger] digits.drop_first()[i],
        ) by {
            assert(digits.drop_first()[i] == digits[i + 1]);
        }
        lemma_number_ends_at(digits.drop_first(), rest);
        assert(all.drop_first() =~= digits.drop_first() + rest);
    }
}

pub open spec fn all_white(s: Seq<char>) -> bool {
    forall|i: int| 0 <= i < s.len() ==> white(#[trigger] s[i])
}

proof fn lemma_trimmed_start_of_white(before: Seq<char>, s: Seq<char>)
    requires
        all_white(before),
    ensures
        trimmed_start(before + s) == trimmed_start(s),
    decreases before.len(),
{
    let all = before + s;
    if before.len() == 0 {
        assert(all =~= s);
    } else {
        let less = before.drop_first();
        assert(all[0] == before[0]);
        assert forall|i: int| 0 <= i < less.len() implies white(#[trigger] less[i]) by {
            assert(less[i] == before[i + 1]);
        }
        assert(all.drop_first() =~= less + s);
        lemma_trimmed_start_of_white(less, s);
    }
}

proof fn lemma_trimmed_end_of_white(s: Seq<char>, behind: Seq<char>)
    requires
        all_white(behind),
    ensures
        trimmed_end(s + behind) == trimmed_end(s),
    decreases behind.len(),
{
    let all = s + behind;
    if behind.len() == 0 {
        assert(all =~= s);
    } else {
        assert(all.last() == behind[behind.len() - 1]);
        assert(all.drop_last() =~= s + behind.drop_last());
        lemma_trimmed_end_of_white(s, behind.drop_last());
    }
}

proof fn lemma_trimmed_of_white(s: Seq<char>, behind: Seq<char>)
    requires
        all_white(behind),
    ensures
        trimmed(s + behind) == trimmed(s),
    decreases s.len(),
{
    let all = s + behind;
    if s.len() == 0 {
        assert(all =~= behind + seq![]);
        lemma_trimmed_start_of_white(behind, seq![]);
        assert(s =~= seq![]);
    } else {
        assert(all[0] == s[0]);
        if white(s[0]) {
            assert(all.drop_first() =~= s.drop_first() + behind);
            lemma_trimmed_of_white(s.drop_first(), behind);
        } else {
            lemma_trimmed_end_of_white(s, behind);
        }
    }
}

/// White space around a typed size does not matter.
pub proof fn law_outer_blanks_do_not_matter(before: Seq<char>, s: Seq<char>, behind: Seq<char>)
    requires
        all_white(before),
        all_white(behind),
    ensures
        typed_size(before + s + behind) == typed_size(s),
{
    lemma_trimmed_of_white(before + s, behind);
    lemma_trimmed_start_of_white(before, s);
}

/// The bytes of a typed size, where it is one.
pub open spec fn bytes_typed(s: Seq<char>) -> Option<u64> {
    match typed_size(s) {
        Ok(n) => Some(n),
        Err(_) => None,
    }
}

/// The texts differ at most in the case of ASCII letters.
pub open spec fn same_but_for_case(s: Seq<char>, t: Seq<char>) -> bool {
    text::ascii_lower(s) == text::ascii_lower(t)
}

proof fn lemma_same_char(s: Seq<char>, t: Seq<char>, i: int)
    requires
        same_but_for_case(s, t),
        0 <= i < s.len(),
    ensures
        s.len() == t.len(),
        white(s[i]) == white(t[i]),
        letter(s[i]) == letter(t[i]),
        !letter(s[i]) ==> s[i] == t[i],
        ascii_upper_char(s[i]) == ascii_upper_char(t[i]),
        (s[i] as u32) < 128 <==> (t[i] as u32) < 128,
{
    assert(text::ascii_lower(s).len() == s.len());
    assert(text::ascii_lower(t).len() == t.len());
    assert(text::ascii_lower(s)[i] == text::ascii_lower_char(s[i]));
    assert(text::ascii_lower(t)[i] == text::ascii_lower_char(t[i]));
}

proof fn lemma_same_part(s: Seq<char>, t: Seq<char>, from: int, to: int)
    requires
        same_but_for_case(s, t),
        0 <= from <= to <= s.len(),
    ensures
        s.len() == t.len(),
        same_but_for_case(s.subrange(from, to), t.subrange(from, to)),
{
    assert(text::ascii_lower(s).len() == s.len());
    assert(text::ascii_lower(t).len() == t.len());
    assert(text::ascii_lower(s.subrange(from, to)) =~= text::ascii_lower(s).subrange(from, to));
    assert(text::ascii_lower(t.subrange(from, to)) =~= text::ascii_lower(t).subrange(from, to));
}

proof fn lemma_same_trimmed_start(s: Seq<char>, t: Seq<char>)
    requires
        same_but_for_case(s, t),
    ensures
        same_but_for_case(trimmed_start(s), trimmed_start(t)),
    decreases s.len(),
{
    lemma_same_part(s, t, 0, 0);
    if s.len() > 0 {
        lemma_same_char(s, t, 0);
        lemma_same_part(s, t, 1, s.len() as int);
        assert(s.drop_first() =~= s.subrange(1, s.len() as int));
        assert(t.drop_first() =~= t.subrange(1, t.len() as int));
        if white(s[0]) {
            lemma_same_trimmed_start(s.drop_first(), t.drop_first());
        }
    }
}

proof fn lemma_same_trimmed_end(s: Seq<char>, t: Seq<char>)
    requires
        same_but_for_case(s, t),
    ensures
        same_but_for_case(trimmed_end(s), trimmed_end(t)),
    decreases s.len(),
{
    lemma_same_part(s, t, 0, 0);
    if s.len() > 0 {
        lemma_same_char(s, t, s.len() - 1);
        lemma_same_part(s, t, 0, s.len() - 1);
        assert(s.drop_last() =~= s.subrange(0, s.len() - 1));
        assert(t.drop_last() =~= t.subrange(0, t.len() - 1));
        if white(s.last()) {
            lemma_same_trimmed_end(s.drop_last(), t.drop_last());
        }
    }
}

proof fn lemma_same_number(s: Seq<char>, t: Seq<char>)
    requires
        same_but_for_case(s, t),
    ensures
        0 <= number_end(s) <= s.len(),
        number_end(s) == number_end(t),
        s.take(number_end(s)) == t.take(number_end(s)),
    decreases s.len(),
{
    lemma_same_part(s, t, 0, 0);
    if s.len() > 0 {
        lemma_same_char(s, t, 0);
        lemma_same_part(s, t, 1, s.len() as int);
        assert(s.drop_first() =~= s.subrange(1, s.len() as int));
        assert(t.drop_first() =~= t.subrange(1, t.len() as int));
        lemma_same_number(s.drop_first(), t.drop_first());
        if !letter(s[0]) && s[0] != ' ' {
            let end = number_end(s);
            assert(s.take(end) =~= seq![s[0]] + s.drop_first().take(end - 1));
            assert(t.take(end) =~= seq![t[0]] + t.drop_first().take(end - 1));
        }
    }
    assert(s.take(0) =~= t.take(0));
}

proof fn lemma_same_ascii(s: Seq<char>, t: Seq<char>)
    requires
        same_but_for_case(s, t),
    ensures
        is_ascii_chars(s) ==> is_ascii_chars(t),
{
    lemma_same_part(s, t, 0, 0);
    if is_ascii_chars(s) {
        assert forall|i: int| 0 <= i < t.len() implies '\0' <= #[trigger] t[i] <= '\u{7f}' by {
            lemma_same_char(s, t, i);
            assert('\0' <= s[i] <= '\u{7f}');
        }
    }
}

proof fn lemma_same_case_forms(s: Seq<char>, t: Seq<char>)
    requires
        same_but_for_case(s, t),
    ensures
        uppered(s) == uppered(t),
        lowered(s) == lowered(t),
{
    lemma_same_part(s, t, 0, 0);
    lemma_same_ascii(s, t);
    lemma_same_ascii(t, s);
    assert(ascii_upper(s) =~= ascii_upper(t)) by {
        assert forall|i: int| 0 <= i < s.len() implies ascii_upper(s)[i] == ascii_upper(t)[i] by {
            lemma_same_char(s, t, i);
        }
    }
}

/// The case of letters does not matter: typed sizes that differ in the case of
/// ASCII letters are the same number of bytes, or are both refused.
pub proof fn law_case_does_not_matter(s: Seq<char>, t: Seq<char>)
    requires
        same_but_for_case(s, t),
    ensures
        bytes_typed(s) == bytes_typed(t),
{
    let a = trimmed(s);
    let b = trimmed(t);
    lemma_same_trimmed_start(s, t);
    lemma_same_trimmed_end(trimmed_start(s), trimmed_start(t));
    lemma_same_number(a, b);
    let end = number_end(a);
    lemma_same_part(a, b, end, a.len() as int);
    assert(a.skip(end) =~= a.subrange(end, a.len() as int));
    assert(b.skip(end) =~= b.subrange(end, b.len() as int));
    lemma_same_trimmed_start(a.skip(end), b.skip(end));
    lemma_same_trimmed_end(trimmed_start(a.skip(end)), trimmed_start(b.skip(end)));
    lemma_same_case_forms(a, b);
    lemma_same_case_forms(trimmed(a.skip(end)), trimmed(b.skip(end)));
}

/// A typed size is the same in upper case, in lower case, between blanks, and as
/// it is.
pub proof fn law_case_and_blanks_do_not_matter(s: Seq<char>, before: nat, behind: nat)
    ensures
        bytes_typed(ascii_upper(s)) == bytes_typed(s),
        bytes_typed(text::ascii_lower(s)) == bytes_typed(s),
        bytes_typed(text::blanks(before) + s + text::blanks(behind)) == bytes_typed(s),
{
    assert(text::ascii_lower(text::ascii_lower(s)) =~= text::ascii_lower(s));
    assert(text::ascii_lower(ascii_upper(s)) =~= text::ascii_lower(s));
    law_case_does_not_matter(s, text::ascii_lower(s));
    law_case_does_not_matter(s, ascii_upper(s));
    law_outer_blanks_do_not_matter(text::blanks(before), s, text::blanks(behind));
}

/// A whole number, perhaps some blanks, and a unit in whatever case, as a user
/// types them, are that many of the unit; without a unit they are bytes.
pub proof fn law_typed_whole_sizes_are_exact(n: nat, gap: nat, unit: Seq<char>)
    requires
        all_letters(unit),
        unit_shift(ascii_upper(unit)) is Some,
        n <= rounding::double_limit(),
        n * pow2(unit_shift(ascii_upper(unit))->0) <= u64::MAX,
    ensures
        typed_size(text::decimal(n) + text::blanks(gap) + unit) == Ok::<u64, Seq<char>>(
            (n * pow2(unit_shift(ascii_upper(unit))->0)) as u64,
        ),
{
    let num = text::decimal(n);
    let blanks = text::blanks(gap);
    if unit.len() == 0 {
        assert(num + blanks + unit =~= num + text::blanks(0) + unit + blanks);
        assert(num + text::blanks(0) + unit =~= Seq::<char>::empty() + (num + text::blanks(0)
            + unit));
        law_outer_blanks_do_not_matter(seq![], num + text::blanks(0) + unit, blanks);
        lemma_typed_whole_size(n, 0, unit);
    } else {
        lemma_typed_whole_size(n, gap, unit);
    }
}

proof fn lemma_typed_whole_size(n: nat, gap: nat, unit: Seq<char>)
    requires
        all_letters(unit),
        unit.len() == 0 ==> gap == 0,
        unit_shift(ascii_upper(unit)) is Some,
        n <= rounding::double_limit(),
        n * pow2(unit_shift(ascii_upper(unit))->0) <= u64::MAX,
    ensures
        typed_size(text::decimal(n) + text::blanks(gap) + unit) == Ok::<u64, Seq<char>>(
            (n * pow2(unit_shift(ascii_upper(unit))->0)) as u64,
        ),
{
    let num = text::decimal(n);
    let rest = text::blanks(gap) + unit;
    let whole = num + text::blanks(gap) + unit;
    lemma_decimal_digits(n);
    assert(whole =~= num + rest);
    assert(digit(num[0]));
    assert(whole[0] == num[0]);
    if unit.len() > 0 {
        assert(whole.last() == unit[unit.len() - 1]);
        assert(!white(unit[unit.len() - 1]));
        assert(!white(unit[0]));
    } else {
        assert(whole =~= num);
        assert(digit(num[num.len() - 1]));
    }
    assert(trimmed(whole) == whole);
    lemma_number_ends_at(num, rest);
    let end = number_end(whole);
    assert(whole.take(end) =~= num);
    assert(whole.skip(end) =~= rest);
    assert(digit(num[num.len() - 1]));
    assert(trimmed(num) == num);
    lemma_trimmed_start_behind_blanks(gap, unit);
    assert(trimmed(rest) == unit);
    assert forall|i: int| 0 <= i < whole.len() implies (#[trigger] whole[i] as nat) < 128 by {
        if i < num.len() {
            assert(digit(num[i]));
        } else if i < num.len() + gap {
            assert(whole[i] == ' ');
        } else {
            assert(whole[i] == unit[i - num.len() - gap]);
        }
    }
    assert(is_ascii_chars(whole));
    assert(is_ascii_chars(unit));
    let lower = text::ascii_lower(whole);
    assert(lower[0] == num[0]);
    assert(!special_word(lower)) by {
        reveal_strlit("nan");
        reveal_strlit("inf");
        reveal_strlit("infinity");
        reveal_strlit("-inf");
        reveal_strlit("-infinity");
        reveal_strlit("+inf");
        reveal_strlit("+infinity");
    }
    law_whole_sizes_are_exact(whole, lower, n, ascii_upper(unit));
}

/// Digits with at most one point among them, at least one digit, and perhaps a plus
/// or minus before them.
pub open spec fn reads_as_number(num: Seq<char>) -> bool {
    &&& forall|i: int|
        0 <= i < num.len() ==> ('0' <= #[trigger] num[i] && num[i] <= '9') || num[i] == '.' || (i
            == 0 && (num[i] == '+' || num[i] == '-'))
    &&& forall|i: int, j: int|
        0 <= i < j < num.len() ==> !(#[trigger] num[i] == '.' && #[trigger] num[j] == '.')
    &&& exists|i: int| 0 <= i < num.len() && '0' <= #[trigger] num[i] && num[i] <= '9'
}

proof fn lemma_point_at(s: Seq<char>)
    ensures
        0 <= point_at(s) <= s.len(),
        forall|i: int| 0 <= i < point_at(s) ==> #[trigger] s[i] != '.',
        point_at(s) < s.len() ==> s[point_at(s)] == '.',
    decreases s.len(),
{
    if s.len() > 0 && s[0] != '.' {
        let t = s.drop_first();
        lemma_point_at(t);
        assert forall|i: int| 0 <= i < point_at(s) implies #[trigger] s[i] != '.' by {
            if i > 0 {
                assert(t[i - 1] != '.');
            }
        }
        if point_at(s) < s.len() {
            assert(t[point_at(t)] == '.');
        }
    }
}

/// How many characters the sign takes.
spec fn sign_len(num: Seq<char>) -> int {
    if num.len() > 0 && (num[0] == '+' || num[0] == '-') {
        1
    } else {
        0
    }
}

proof fn lemma_parts_of_number(num: Seq<char>)
    ensures
        ({
            let from = sign_len(num);
            let k = from + point_at(unsigned(num));
            &&& from <= k <= num.len()
            &&& forall|i: int| from <= i < k ==> #[trigger] num[i] != '.'
            &&& k < num.len() ==> num[k] == '.'
            &&& whole_part(num) == num.subrange(from, k)
            &&& fraction_part(num) == if k < num.len() {
                num.skip(k + 1)
            } else {
                seq![]
            }
        }),
{
    let from = sign_len(num);
    let s = unsigned(num);
    assert(s =~= num.skip(from));
    lemma_point_at(s);
    let k = from + point_at(s);
    assert forall|i: int| from <= i < k implies #[trigger] num[i] != '.' by {
        assert(s[i - from] != '.');
    }
    assert(whole_part(num) =~= num.subrange(from, k));
    if k < num.len() {
        assert(fraction_part(num) =~= num.skip(k + 1));
    }
}

/// What is taken for a number is what reads as one.
pub proof fn law_number_is_digits_and_a_point(num: Seq<char>)
    ensures
        valid_number(num) <==> reads_as_number(num),
{
    let from = sign_len(num);
    let k = from + point_at(unsigned(num));
    let whole = whole_part(num);
    let fraction = fraction_part(num);
    lemma_parts_of_number(num);
    if valid_number(num) {
        assert forall|i: int| 0 <= i < num.len() implies ('0' <= #[trigger] num[i] && num[i]
            <= '9') || num[i] == '.' || (i == 0 && (num[i] == '+' || num[i] == '-')) by {
            if from <= i < k {
                assert(digit(whole[i - from]));
            } else if i > k {
                assert(digit(fraction[i - k - 1]));
            }
        }
        assert forall|i: int, j: int| 0 <= i < j < num.len() implies !(#[trigger] num[i] == '.'
            && #[trigger] num[j] == '.') by {
            if j > k {
                assert(digit(fraction[j - k - 1]));
            } else if i >= from {
                assert(i < k);
            }
        }
        if whole.len() > 0 {
            assert(digit(whole[0]));
            assert('0' <= num[from] && num[from] <= '9');
        } else {
            assert(digit(fraction[0]));
            assert('0' <= num[k + 1] && num[k + 1] <= '9');
        }
    }
    if reads_as_number(num) {
        assert forall|i: int| 0 <= i < whole.len() implies digit(#[trigger] whole[i]) by {
            assert(num[i + from] != '.');
        }
        assert forall|i: int| 0 <= i < fraction.len() implies digit(#[trigger] fraction[i]) by {
            assert(fraction[i] == num[k + 1 + i]);
            assert(num[k] == '.');
        }
        let i = choose|i: int| 0 <= i < num.len() && '0' <= #[trigger] num[i] && num[i] <= '9';
        if i < k {
            assert(whole[i - from] == num[i]);
        } else {
            assert(fraction[i - k - 1] == num[i]);
        }
    }
}

/// A digit at the end of a number makes it ten times as large and adds the digit;
/// behind a point it counts for a tenth of the digit before it. A sign before a
/// number and a point behind it change nothing of its digits.
pub proof fn law_digits_count_by_their_place(num: Seq<char>, d: char)
    requires
        reads_as_number(num),
        '0' <= d && d <= '9',
    ensures
        reads_as_number(num.push(d)),
        numerator(num.push(d)) == 10 * numerator(num) + (d as int - '0' as int),
        denominator(num.push(d)) == if num.contains('.') {
            10 * denominator(num)
        } else {
            denominator(num)
        },
        !num.contains('.') ==> denominator(num) == 1,
        !num.contains('.') ==> numerator(num.push('.')) == numerator(num),
        !num.contains('.') ==> denominator(num.push('.')) == 1,
        numerator(seq![d]) == d as int - '0' as int,
        num[0] != '+' && num[0] != '-' ==> {
            &&& numerator(seq!['+'] + num) == numerator(num)
            &&& denominator(seq!['+'] + num) == denominator(num)
            &&& numerator(seq!['-'] + num) == numerator(num)
            &&& denominator(seq!['-'] + num) == denominator(num)
        },
{
    law_number_is_digits_and_a_point(num);
    let from = sign_len(num);
    let k = from + point_at(unsigned(num));
    let whole = whole_part(num);
    let fraction = fraction_part(num);
    let longer = num.push(d);
    let v = (d as u32 - 0x30) as u8;
    lemma_parts_of_number(num);
    lemma_parts_of_number(longer);
    let k1 = sign_len(longer) + point_at(unsigned(longer));
    assert(num.len() > 0 && sign_len(longer) == from);
    assert(k1 == if k < num.len() { k } else { k + 1 }) by {
        if k < num.len() {
            assert(longer[k] == '.');
            if k1 < k {
                assert(longer[k1] == num[k1]);
            }
        } else if k1 < longer.len() {
            assert(longer[k1] == '.');
            assert(longer[k1] == num[k1]);
        }
    }
    if k < num.len() {
        assert(num[k] == '.');
        assert(num.contains('.'));
        assert(whole_part(longer) =~= whole);
        assert(fraction_part(longer) =~= fraction.push(d));
        assert(digit_values(whole) + digit_values(fraction.push(d)) =~= (digit_values(whole)
            + digit_values(fraction)).push(v));
    } else {
        assert(!num.contains('.')) by {
            if num.contains('.') {
                let i = choose|i: int| 0 <= i < num.len() && num[i] == '.';
                assert(num[i] == '.');
            }
        }
        assert(whole_part(longer) =~= whole.push(d));
        assert(fraction_part(longer) =~= fraction);
        assert(digit_values(whole.push(d)) + digit_values(fraction) =~= (digit_values(whole)
            + digit_values(fraction)).push(v));
        let pointed = num.push('.');
        lemma_parts_of_number(pointed);
        let k2 = sign_len(pointed) + point_at(unsigned(pointed));
        assert(sign_len(pointed) == from);
        assert(k2 == num.len()) by {
            assert(pointed[num.len() as int] == '.');
            if k2 < num.len() {
                assert(pointed[k2] == num[k2]);
            }
        }
        assert(whole_part(pointed) =~= whole);
        assert(fraction_part(pointed) =~= fraction);
    }
    let values = digit_values(whole) + digit_values(fraction);
    assert(values.push(v).drop_last() =~= values);
    assert(reads_as_number(longer)) by {
        assert forall|i: int| 0 <= i < longer.len() implies ('0' <= #[trigger] longer[i]
            && longer[i] <= '9') || longer[i] == '.' || (i == 0 && (longer[i] == '+' || longer[i]
            == '-')) by {
            if i < num.len() {
                assert(longer[i] == num[i]);
            }
        }
        assert forall|i: int, j: int| 0 <= i < j < longer.len() implies !(#[trigger] longer[i]
            == '.' && #[trigger] longer[j] == '.') by {
            if j < num.len() {
                assert(longer[i] == num[i] && longer[j] == num[j]);
            }
        }
        assert(longer[num.len() as int] == d);
    }
    let one = seq![d];
    lemma_parts_of_number(one);
    assert(whole_part(one) =~= one);
    assert(digit_values(whole_part(one)) + digit_values(fraction_part(one)) =~= seq![v]);
    assert(seq![v].drop_last() =~= seq![]);
    assert(numeral::digits_value(seq![v].drop_last()) == 0);
    if num[0] != '+' && num[0] != '-' {
        assert((seq!['+'] + num).drop_first() =~= num);
        assert((seq!['-'] + num).drop_first() =~= num);
    }
}

proof fn lemma_unit_words()
    ensures
        unit_shift(""@) == Some(0nat),
        unit_shift("B"@) == Some(0nat),
        unit_shift("K"@) == Some(10nat),
        unit_shift("KB"@) == Some(10nat),
        unit_shift("KIB"@) == Some(10nat),
        unit_shift("M"@) == Some(20nat),
        unit_shift("MB"@) == Some(20nat),
        unit_shift("MIB"@) == Some(20nat),
        unit_shift("G"@) == Some(30nat),
        unit_shift("GB"@) == Some(30nat),
        unit_shift("GIB"@) == Some(30nat),
        unit_shift("T"@) == Some(40nat),
        unit_shift("TB"@) == Some(40nat),
        unit_shift("TIB"@) == Some(40nat),
{
    reveal_strlit("");
    reveal_strlit("B");
    reveal_strlit("K");
    reveal_strlit("KB");
    reveal_strlit("KIB");
    reveal_strlit("M");
    reveal_strlit("MB");
    reveal_strlit("MIB");
    reveal_strlit("G");
    reveal_strlit("GB");
    reveal_strlit("GIB");
    reveal_strlit("T");
    reveal_strlit("TB");
    reveal_strlit("TIB");
    assert(""@.len() == 0 && "B"@.len() == 1 && "B"@[0] == 'B');
    assert("K"@.len() == 1 && "KB"@.len() == 2 && "KIB"@.len() == 3);
    assert("K"@[0] == 'K' && "KB"@[0] == 'K' && "KIB"@[0] == 'K');
    assert("M"@.len() == 1 && "MB"@.len() == 2 && "MIB"@.len() == 3);
    assert("M"@[0] == 'M' && "MB"@[0] == 'M' && "MIB"@[0] == 'M');
    assert("G"@.len() == 1 && "GB"@.len() == 2 && "GIB"@.len() == 3);
    assert("G"@[0] == 'G' && "GB"@[0] == 'G' && "GIB"@[0] == 'G');
    assert("T"@.len() == 1 && "TB"@.len() == 2 && "TIB"@.len() == 3);
    assert("T"@[0] == 'T' && "TB"@[0] == 'T' && "TIB"@[0] == 'T');
}

/// A typed number without a unit, or with `B`, is a number of bytes; each of `K`,
/// `M`, `G` and `T`, with or without `B` or `iB` behind it, is 1024 of the one
/// before it.
pub proof fn law_units_are_powers_of_1024(n: nat, gap: nat, unit: Seq<char>)
    requires
        all_letters(unit),
        n <= 0x20_0000_0000_0000,
    ensures
        ({
            let typed = typed_size(text::decimal(n) + text::blanks(gap) + unit);
            let u = ascii_upper(unit);
            &&& u == ""@ || u == "B"@ ==> typed == Ok::<u64, Seq<char>>(n as u64)
            &&& (u == "K"@ || u == "KB"@ || u == "KIB"@) && n * 1024 <= u64::MAX ==> typed == Ok::<
                u64,
                Seq<char>,
            >((n * 1024) as u64)
            &&& (u == "M"@ || u == "MB"@ || u == "MIB"@) && n * 1024 * 1024 <= u64::MAX ==> typed
                == Ok::<u64, Seq<char>>((n * 1024 * 1024) as u64)
            &&& (u == "G"@ || u == "GB"@ || u == "GIB"@) && n * 1024 * 1024 * 1024 <= u64::MAX
                ==> typed == Ok::<u64, Seq<char>>((n * 1024 * 1024 * 1024) as u64)
            &&& (u == "T"@ || u == "TB"@ || u == "TIB"@) && n * 1024 * 1024 * 1024 * 1024
                <= u64::MAX ==> typed == Ok::<u64, Seq<char>>(
                (n * 1024 * 1024 * 1024 * 1024) as u64,
            )
        }),
{
    lemma_unit_words();
    lemma2_to64();
    lemma2_to64_rest();
    let u = ascii_upper(unit);
    assert(n * pow2(0) == n && n * pow2(10) == n * 1024 && n * pow2(20) == n * 1024 * 1024 && n
        * pow2(30) == n * 1024 * 1024 * 1024 && n * pow2(40) == n * 1024 * 1024 * 1024 * 1024)
        by (nonlinear_arith)
        requires
            pow2(0) == 1,
            pow2(10) == 1024,
            pow2(20) == 0x10_0000,
            pow2(30) == 0x4000_0000,
            pow2(40) == 0x100_0000_0000,
    ;
    if unit_shift(u) is Some && n * pow2(unit_shift(u)->0) <= u64::MAX {
        law_typed_whole_sizes_are_exact(n, gap, unit);
    }
}

/// A size that is accepted is the whole part of the number times the unit, but for
/// what double precision rounds off: one part in two to the 53rd power.
pub proof fn law_accepted_size_is_near(
    whole: Seq<char>,
    lower: Seq<char>,
    num: Seq<char>,
    unit: Seq<char>,
)
    requires
        size_of_parts(whole, lower, num, unit) is Ok,
    ensures
        reads_as_number(num),
        unit_shift(unit) is Some,
        ({
            let bytes = size_of_parts(whole, lower, num, unit)->Ok_0;
            let p = numerator(num) * pow2(unit_shift(unit)->0);
            let q = denominator(num);
            &&& p <= u64::MAX * q
            &&& 0x20_0000_0000_0000 * (bytes * q) <= 0x20_0000_0000_0001 * p
            &&& 0x20_0000_0000_0000 * ((bytes + 1) * q) > 0x1f_ffff_ffff_ffff * p
        }),
{
    law_number_is_digits_and_a_point(num);
    let bytes = size_of_parts(whole, lower, num, unit)->Ok_0;
    let p = numerator(num) * pow2(unit_shift(unit)->0);
    let q = denominator(num);
    numeral::lemma_ten_to_positive(fraction_part(num).len());
    numeral::law_double_whole_is_near(p, q);
    let d = numeral::double_whole(p, q);
    if d > u64::MAX {
        assert(bytes == u64::MAX);
        assert(bytes * q <= d * q) by (nonlinear_arith)
            requires
                bytes <= d,
        ;
        assert((bytes + 1) * q == bytes * q + q) by (nonlinear_arith);
    }
}

/// What reads as a number without a minus, in a known unit, and fits in 64 bits is
/// accepted.
pub proof fn law_sound_size_is_accepted(
    whole: Seq<char>,
    lower: Seq<char>,
    num: Seq<char>,
    unit: Seq<char>,
)
    requires
        !special_word(lower),
        reads_as_number(num),
        num[0] != '-',
        unit_shift(unit) is Some,
        numerator(num) * pow2(unit_shift(unit)->0) <= u64::MAX * denominator(num),
    ensures
        size_of_parts(whole, lower, num, unit) is Ok,
{
    law_number_is_digits_and_a_point(num);
    let p = numerator(num);
    let q = denominator(num);
    let w = pow2(unit_shift(unit)->0);
    numeral::lemma_ten_to_positive(fraction_part(num).len());
    lemma_pow2_pos(unit_shift(unit)->0);
    lemma_pow2_pos(970);
    lemma2_to64();
    lemma_pow2_strictly_increases(64, 970);
    lemma2_to64_rest();
    assert(p <= p * w) by (nonlinear_arith)
        requires
            w >= 1,
    ;
    let most = numeral::double_overflow();
    assert(most > u64::MAX) by (nonlinear_arith)
        requires
            most == 0x3f_ffff_ffff_ffff * pow2(970),
            pow2(970) > 0xffff_ffff_ffff_ffff,
    ;
    assert(u64::MAX * q < most * q) by (nonlinear_arith)
        requires
            most > u64::MAX,
            q > 0,
    ;
}

/// What is refused is refused with what is wrong: no number, a negative one, an
/// unknown unit, or too many bytes.
pub proof fn law_refusal_says_what_is_wrong(
    whole: Seq<char>,
    lower: Seq<char>,
    num: Seq<char>,
    unit: Seq<char>,
)
    ensures
        ({
            let r = size_of_parts(whole, lower, num, unit);
            let p = numerator(num);
            let q = denominator(num);
            let finite = p < 0x3f_ffff_ffff_ffff * pow2(970) * q;
            let below = num.len() > 0 && num[0] == '-' && p * pow2(1075) > q;
            &&& special_word(lower) ==> r == Err::<u64, Seq<char>>(
                "'"@ + whole + "' is not a valid number"@,
            )
            &&& !special_word(lower) && !(reads_as_number(num) && finite) ==> r == Err::<
                u64,
                Seq<char>,
            >("'"@ + num + "' is not a valid number"@)
            &&& !special_word(lower) && reads_as_number(num) && finite && below ==> r == Err::<
                u64,
                Seq<char>,
            >("size must be non-negative"@)
            &&& !special_word(lower) && reads_as_number(num) && finite && !below && unit_shift(
                unit,
            ) is None ==> r == Err::<u64, Seq<char>>("unknown unit '"@ + unit + "'"@)
            &&& !special_word(lower) && reads_as_number(num) && finite && !below && unit_shift(
                unit,
            ) is Some && p * pow2(unit_shift(unit)->0) > u64::MAX * q ==> r == Err::<
                u64,
                Seq<char>,
            >(
                "'"@ + whole + "' is too large (maximum is "@ + text::decimal(
                    0xffff_ffff_ffff_ffff,
                ) + " bytes)"@,
            )
        }),
{
    law_number_is_digits_and_a_point(num);
}

/// No unit is known but bytes, and `K`, `M`, `G` and `T`, with or without `B` or
/// `IB` behind them.
pub proof fn law_other_units_are_unknown(unit: Seq<char>)
    requires
        unit_shift(unit) is Some,
    ensures
        unit.len() <= 3,
        unit.len() == 1 ==> unit[0] == 'B' || unit[0] == 'K' || unit[0] == 'M' || unit[0] == 'G'
            || unit[0] == 'T',
        unit.len() > 1 ==> unit[0] == 'K' || unit[0] == 'M' || unit[0] == 'G' || unit[0] == 'T',
        unit.len() > 1 ==> unit.last() == 'B',
        unit.len() == 3 ==> unit[1] == 'I',
{
    reveal_strlit("");
    reveal_strlit("B");
    reveal_strlit("K");
    reveal_strlit("KB");
    reveal_strlit("KIB");
    reveal_strlit("M");
    reveal_strlit("MB");
    reveal_strlit("MIB");
    reveal_strlit("G");
    reveal_strlit("GB");
    reveal_strlit("GIB");
    reveal_strlit("T");
    reveal_strlit("TB");
    reveal_strlit("TIB");
}

/// A word for a number that is no number is one of `nan`, `inf` and `infinity`, the
/// last two perhaps with a sign.
pub proof fn law_special_words(lower: Seq<char>)
    ensures
        special_word(lower) <==> {
            let bare = if lower.len() > 0 && (lower[0] == '+' || lower[0] == '-') {
                lower.drop_first()
            } else {
                lower
            };
            lower == "nan"@ || bare == "inf"@ || bare == "infinity"@
        },
{
    reveal_strlit("nan");
    reveal_strlit("inf");
    reveal_strlit("infinity");
    reveal_strlit("-inf");
    reveal_strlit("-infinity");
    reveal_strlit("+inf");
    reveal_strlit("+infinity");
    assert("-inf"@.drop_first() =~= "inf"@);
    assert("+inf"@.drop_first() =~= "inf"@);
    assert("-infinity"@.drop_first() =~= "infinity"@);
    assert("+infinity"@.drop_first() =~= "infinity"@);
    if lower.len() > 0 && (lower[0] == '+' || lower[0] == '-') {
        let bare = lower.drop_first();
        assert(lower =~= seq![lower[0]] + bare);
        assert("-inf"@ =~= seq!['-'] + "inf"@);
        assert("+inf"@ =~= seq!['+'] + "inf"@);
        assert("-infinity"@ =~= seq!['-'] + "infinity"@);
        assert("+infinity"@ =~= seq!['+'] + "infinity"@);
        assert("nan"@[0] == 'n');
    }
}

proof fn lemma_text_ends_at(num: Seq<char>, rest: Seq<char>)
    requires
        forall|i: int| 0 <= i < num.len() ==> !letter(#[trigger] num[i]) && num[i] != ' ',
        rest.len() == 0 || rest[0] == ' ' || letter(rest[0]),
    ensures
        number_end(num + rest) == num.len(),
    decreases num.len(),
{
    let all = num + rest;
    if num.len() == 0 {
        assert(all =~= rest);
    } else {
        let less = num.drop_first();
        assert(all[0] == num[0]);
        assert forall|i: int| 0 <= i < less.len() implies !letter(#[trigger] less[i]) && less[i]
            != ' ' by {
            assert(less[i] == num[i + 1]);
        }
        lemma_text_ends_at(less, rest);
        assert(all.drop_first() =~= less + rest);
    }
}

/// A number with or without a point, perhaps some blanks, and a unit in whatever
/// case, as a user types them, are accepted where they fit in 64 bits, and come to
/// the whole part of the number times the unit, but for what double precision
/// rounds off.
pub proof fn law_typed_size_is_number_times_unit(num: Seq<char>, gap: nat, unit: Seq<char>)
    requires
        reads_as_number(num),
        num[0] != '-',
        all_letters(unit),
        unit.len() == 0 ==> gap == 0,
        unit_shift(ascii_upper(unit)) is Some,
        numerator(num) * pow2(unit_shift(ascii_upper(unit))->0) <= u64::MAX * denominator(num),
    ensures
        typed_size(num + text::blanks(gap) + unit) is Ok,
        ({
            let bytes = typed_size(num + text::blanks(gap) + unit)->Ok_0;
            let p = numerator(num) * pow2(unit_shift(ascii_upper(unit))->0);
            let q = denominator(num);
            &&& 0x20_0000_0000_0000 * (bytes * q) <= 0x20_0000_0000_0001 * p
            &&& 0x20_0000_0000_0000 * ((bytes + 1) * q) > 0x1f_ffff_ffff_ffff * p
        }),
{
    let rest = text::blanks(gap) + unit;
    let whole = num + text::blanks(gap) + unit;
    assert(num.len() > 0);
    assert(whole =~= num + rest);
    assert forall|i: int| 0 <= i < num.len() implies !letter(#[trigger] num[i]) && num[i] != ' '
        && !white(num[i]) && (num[i] as nat) < 128 by {}
    assert(whole[0] == num[0]);
    if unit.len() > 0 {
        assert(whole.last() == unit[unit.len() - 1]);
        assert(!white(unit[unit.len() - 1]));
        assert(!white(unit[0]));
    } else {
        assert(whole =~= num);
        assert(whole.last() == num[num.len() - 1]);
    }
    assert(trimmed(whole) == whole);
    lemma_text_ends_at(num, rest);
    let end = number_end(whole);
    assert(whole.take(end) =~= num);
    assert(whole.skip(end) =~= rest);
    assert(!white(num[num.len() - 1]));
    assert(trimmed(num) == num);
    lemma_trimmed_start_behind_blanks(gap, unit);
    assert(trimmed(rest) == unit);
    assert forall|i: int| 0 <= i < whole.len() implies (#[trigger] whole[i] as nat) < 128 by {
        if i < num.len() {
            assert(whole[i] == num[i]);
        } else if i < num.len() + gap {
            assert(whole[i] == ' ');
        } else {
            assert(whole[i] == unit[i - num.len() - gap]);
        }
    }
    assert(is_ascii_chars(whole));
    assert(is_ascii_chars(unit));
    let lower = text::ascii_lower(whole);
    assert(lower[0] == num[0]);
    assert(!special_word(lower)) by {
        reveal_strlit("nan");
        reveal_strlit("inf");
        reveal_strlit("infinity");
        reveal_strlit("-inf");
        reveal_strlit("-infinity");
        reveal_strlit("+inf");
        reveal_strlit("+infinity");
        if num[0] == '+' {
            let i = choose|i: int| 0 <= i < num.len() && '0' <= #[trigger] num[i] && num[i] <= '9';
            assert(i > 0);
            assert(num[1] != 'i');
            assert(lower[1] == num[1]);
        }
    }
    law_sound_size_is_accepted(whole, lower, num, ascii_upper(unit));
    law_accepted_size_is_near(whole, lower, num, ascii_upper(unit));
}

/// Spaces, tabs and line ends around a typed size do not matter, nor do the wider
/// blanks of Unicode; no other ASCII character is a blank.
pub proof fn law_blanks_are_spaces_tabs_and_line_ends(s: Seq<char>, c: char)
    ensures
        c == ' ' || c == '\t' || c == '\n' || c == '\r' || c == '\u{b}' || c == '\u{c}' || c
            == '\u{85}' || c == '\u{a0}' || c == '\u{1680}' || ('\u{2000}' <= c && c
            <= '\u{200a}') || c == '\u{2028}' || c == '\u{2029}' || c == '\u{202f}' || c
            == '\u{205f}' || c == '\u{3000}' ==> typed_size(seq![c] + s) == typed_size(s)
            && typed_size(s.push(c)) == typed_size(s),
        '!' <= c && c <= '~' ==> trimmed(seq![c]) == seq![c],
{
    if white(c) {
        let one = seq![c];
        let none = Seq::<char>::empty();
        law_outer_blanks_do_not_matter(one, s, none);
        law_outer_blanks_do_not_matter(none, s, one);
        assert(one + s + none =~= seq![c] + s);
        assert(none + s + one =~= s.push(c));
    }
}

} // verus!
