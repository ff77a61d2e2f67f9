//! Characters, names and the rendering of numbers.

use vstd::prelude::*;
use vstd::std_specs::iter::IteratorSpec;
use vstd::string::*;

verus! {

/// The Unicode property `White_Space`.
pub open spec fn white_space(c: char) -> bool {
    let u = c as u32;
    ||| 0x09 <= u <= 0x0d
    ||| u == 0x20
    ||| u == 0x85
    ||| u == 0xa0
    ||| u == 0x1680
    ||| 0x2000 <= u <= 0x200a
    ||| u == 0x2028
    ||| u == 0x2029
    ||| u == 0x202f
    ||| u == 0x205f
    ||| u == 0x3000
}

/// The Unicode category of control characters.
pub open spec fn control(c: char) -> bool {
    let u = c as u32;
    u <= 0x1f || 0x7f <= u <= 0x9f
}

/// An ASCII letter or digit.
pub open spec fn ascii_alphanumeric(c: char) -> bool {
    ||| 'a' <= c <= 'z'
    ||| 'A' <= c <= 'Z'
    ||| '0' <= c <= '9'
}

/// The upper-case form of an ASCII letter; any other character itself.
pub open spec fn upper(c: char) -> char {
    if 'a' <= c <= 'z' {
        ((c as u32) - 32) as char
    } else {
        c
    }
}

/// The lower-case form of an ASCII letter; any other character itself.
pub open spec fn lower(c: char) -> char {
    if 'A' <= c <= 'Z' {
        ((c as u32) + 32) as char
    } else {
        c
    }
}

/// A text with every ASCII letter in upper case.
pub open spec fn uppercase(s: Seq<char>) -> Seq<char> {
    s.map_values(|c: char| upper(c))
}

/// A text with every ASCII letter in lower case.
pub open spec fn lowercase(s: Seq<char>) -> Seq<char> {
    s.map_values(|c: char| lower(c))
}

/// A text without its leading white space.
pub open spec fn trimmed_start(s: Seq<char>) -> Seq<char>
    decreases s.len(),
{
    if s.len() > 0 && white_space(s[0]) {
        trimmed_start(s.drop_first())
    } else {
        s
    }
}

/// A text without its trailing white space.
pub open spec fn trimmed_end(s: Seq<char>) -> Seq<char>
    decreases s.len(),
{
    if s.len() > 0 && white_space(s.last()) {
        trimmed_end(s.drop_last())
    } else {
        s
    }
}

/// A text without the white space around it.
pub open spec fn trimmed(s: Seq<char>) -> Seq<char> {
    trimmed_end(trimmed_start(s))
}

/// Whether a text holds nothing but white space.
pub open spec fn blank(s: Seq<char>) -> bool {
    trimmed(s).len() == 0
}

proof fn lemma_trimmed_end_keeps(s: Seq<char>, i: int)
    requires
        0 <= i < s.len(),
        !white_space(s[i]),
    ensures
        trimmed_end(s).len() > i,
    decreases s.len(),
{
    if white_space(s.last()) {
        lemma_trimmed_end_keeps(s.drop_last(), i);
    }
}

proof fn lemma_trimmed_start_keeps(s: Seq<char>, i: int) -> (j: int)
    requires
        0 <= i < s.len(),
        !white_space(s[i]),
    ensures
        0 <= j < trimmed_start(s).len(),
        trimmed_start(s)[j] == s[i],
    decreases s.len(),
{
    if white_space(s[0]) {
        lemma_trimmed_start_keeps(s.drop_first(), i - 1)
    } else {
        i
    }
}

/// A text with a character that is not white space is not blank.
pub proof fn lemma_not_blank(s: Seq<char>, i: int)
    requires
        0 <= i < s.len(),
        !white_space(s[i]),
    ensures
        !blank(s),
{
    let j = lemma_trimmed_start_keeps(s, i);
    lemma_trimmed_end_keeps(trimmed_start(s), j);
}

/// A text without white space at its ends is as it is after trimming.
pub proof fn lemma_trimmed_same(s: Seq<char>)
    requires
        s.len() > 0 ==> !white_space(s[0]) && !white_space(s.last()),
    ensures
        trimmed(s) == s,
{
}

/// A text in upper case is as it is.
pub proof fn lemma_uppercase_same(s: Seq<char>)
    ensures
        uppercase(uppercase(s)) == uppercase(s),
{
    assert(uppercase(uppercase(s)) =~= uppercase(s));
}

/// A text in lower case is as it is.
pub proof fn lemma_lowercase_same(s: Seq<char>)
    ensures
        lowercase(lowercase(s)) == lowercase(s),
{
    assert(lowercase(lowercase(s)) =~= lowercase(s));
}

/// `str::trim` takes away the longest run of white space at either end and
/// keeps what stands between.
pub assume_specification[ str::trim ](s: &str) -> (r: &str)
    ensures
        r@ == trimmed(s@),
;

/// `str::to_ascii_uppercase` replaces each ASCII lower-case letter by its
/// upper-case form and keeps every other character.
pub assume_specification[ str::to_ascii_uppercase ](s: &str) -> (r: String)
    ensures
        r@ == uppercase(s@),
;

/// `str::to_ascii_lowercase` replaces each ASCII upper-case letter by its
/// lower-case form and keeps every other character.
pub assume_specification[ str::to_ascii_lowercase ](s: &str) -> (r: String)
    ensures
        r@ == lowercase(s@),
;

/// `String::push` appends one character.
pub assume_specification[ String::push ](s: &mut String, c: char)
    ensures
        final(s)@ == old(s)@.push(c),
;

/// Return whether a character is white space.
pub fn is_white_space(c: char) -> (r: bool)
    ensures
        r == white_space(c),
{
    let u: u32 = c as u32;
    (0x09 <= u && u <= 0x0d) || u == 0x20 || u == 0x85 || u == 0xa0 || u == 0x1680 || (0x2000 <= u
        && u <= 0x200a) || u == 0x2028 || u == 0x2029 || u == 0x202f || u == 0x205f || u == 0x3000
}

/// Return whether a character is a control character.
pub fn is_control(c: char) -> (r: bool)
    ensures
        r == control(c),
{
    let u: u32 = c as u32;
    u <= 0x1f || (0x7f <= u && u <= 0x9f)
}

/// Return whether a character is an ASCII letter or digit.
pub fn is_ascii_alphanumeric(c: char) -> (r: bool)
    ensures
        r == ascii_alphanumeric(c),
{
    ('a' <= c && c <= 'z') || ('A' <= c && c <= 'Z') || ('0' <= c && c <= '9')
}

/// Return whether a text holds nothing but white space.
pub fn is_blank(s: &str) -> (r: bool)
    ensures
        r == blank(s@),
{
    s.trim().is_empty()
}

/// The characters of a text.
pub fn letters(s: &str) -> (r: Vec<char>)
    ensures
        r@ == s@,
{
    let mut rest = s.chars();
    let mut out: Vec<char> = Vec::new();
    loop
        invariant
            rest.obeys_prophetic_iter_laws(),
            rest.decrease() is Some,
            out@ + rest.remaining() == s@,
        decreases rest.decrease()->0,
    {
        let ghost before = out@;
        let next = rest.next();
        match next {
            None => {
                assert(out@ + rest.remaining() =~= out@);
                return out;
            },
            Some(c) => {
                out.push(c);
                assert(out@ + rest.remaining() =~= before + (seq![c] + rest.remaining()));
            },
        }
    }
}

/// Return whether two texts are the same.
pub fn same_text(a: &str, b: &str) -> (r: bool)
    ensures
        r == (a@ == b@),
{
    let x: Vec<char> = letters(a);
    let y: Vec<char> = letters(b);
    if x.len() != y.len() {
        return false;
    }
    let mut i: usize = 0;
    while i < x.len()
        invariant
            0 <= i <= x@.len(),
            x@.len() == y@.len(),
            x@ == a@,
            y@ == b@,
            forall|k: int| 0 <= k < i ==> x@[k] == y@[k],
        decreases x@.len() - i,
    {
        if x[i] != y[i] {
            return false;
        }
        i = i + 1;
    }
    assert(a@ =~= b@);
    true
}

/// The dictionary order of two texts by code point, which is also the order of
/// their UTF-8 bytes.
pub open spec fn precedes(a: Seq<char>, b: Seq<char>) -> bool
    decreases a.len(),
{
    if b.len() == 0 {
        false
    } else if a.len() == 0 {
        true
    } else if a[0] != b[0] {
        a[0] < b[0]
    } else {
        precedes(a.drop_first(), b.drop_first())
    }
}

/// No text stands before itself.
pub proof fn lemma_precedes_irreflexive(a: Seq<char>)
    ensures
        !precedes(a, a),
    decreases a.len(),
{
    if a.len() > 0 {
        lemma_precedes_irreflexive(a.drop_first());
    }
}

/// Two different texts stand in one order or the other.
pub proof fn lemma_precedes_total(a: Seq<char>, b: Seq<char>)
    requires
        a != b,
    ensures
        precedes(a, b) || precedes(b, a),
    decreases a.len(),
{
    if a.len() > 0 && b.len() > 0 && a[0] == b[0] {
        if a.drop_first() == b.drop_first() {
            assert(a =~= seq![a[0]] + a.drop_first());
            assert(b =~= seq![b[0]] + b.drop_first());
        }
        lemma_precedes_total(a.drop_first(), b.drop_first());
    } else {
        assert(a.len() == 0 && b.len() == 0 ==> a =~= b);
    }
}

/// The dictionary order is transitive.
pub proof fn lemma_precedes_transitive(a: Seq<char>, b: Seq<char>, c: Seq<char>)
    requires
        precedes(a, b),
        precedes(b, c),
    ensures
        precedes(a, c),
    decreases a.len(),
{
    if a.len() > 0 && a[0] == b[0] && b[0] == c[0] {
        lemma_precedes_transitive(a.drop_first(), b.drop_first(), c.drop_first());
    }
}

/// At most one of two texts stands before the other.
pub proof fn lemma_precedes_asymmetric(a: Seq<char>, b: Seq<char>)
    requires
        precedes(a, b),
    ensures
        !precedes(b, a),
        a != b,
{
    lemma_precedes_irreflexive(a);
    if precedes(b, a) {
        lemma_precedes_transitive(a, b, a);
    }
}

/// A text that stands before a second one stands before or after any third.
pub proof fn lemma_precedes_negative(a: Seq<char>, b: Seq<char>, c: Seq<char>)
    requires
        precedes(a, c),
    ensures
        precedes(a, b) || precedes(b, c),
{
    if a != b && !precedes(a, b) {
        lemma_precedes_total(a, b);
        lemma_precedes_transitive(b, a, c);
    }
}

proof fn lemma_precedes_after_prefix(a: Seq<char>, b: Seq<char>, n: int)
    requires
        0 <= n <= a.len(),
        n <= b.len(),
        a.take(n) == b.take(n),
    ensures
        precedes(a, b) == precedes(a.skip(n), b.skip(n)),
    decreases n,
{
    if n == 0 {
        assert(a.skip(0) =~= a);
        assert(b.skip(0) =~= b);
    } else {
        assert(a[0] == a.take(n)[0]);
        assert(b[0] == b.take(n)[0]);
        assert(a.drop_first().take(n - 1) =~= a.take(n).drop_first());
        assert(b.drop_first().take(n - 1) =~= b.take(n).drop_first());
        lemma_precedes_after_prefix(a.drop_first(), b.drop_first(), n - 1);
        assert(a.drop_first().skip(n - 1) =~= a.skip(n));
        assert(b.drop_first().skip(n - 1) =~= b.skip(n));
    }
}

/// Return whether one text stands before another in dictionary order.
pub fn is_before(a: &str, b: &str) -> (r: bool)
    ensures
        r == precedes(a@, b@),
{
    let x: Vec<char> = letters(a);
    let y: Vec<char> = letters(b);
    let mut i: usize = 0;
    while i < x.len() && i < y.len() && x[i] == y[i]
        invariant
            0 <= i <= x@.len(),
            i <= y@.len(),
            x@ == a@,
            y@ == b@,
            forall|k: int| 0 <= k < i ==> x@[k] == y@[k],
        decreases x@.len() - i,
    {
        i = i + 1;
    }
    proof {
        assert(a@.take(i as int) =~= b@.take(i as int));
        lemma_precedes_after_prefix(a@, b@, i as int);
    }
    if i >= y.len() {
        false
    } else if i >= x.len() {
        true
    } else {
        x[i] < y[i]
    }
}

/// A decimal digit.
pub open spec fn digit(n: nat) -> char {
    (('0' as u32) + n) as char
}

/// A lower-case hexadecimal digit.
pub open spec fn hex_digit(n: nat) -> char {
    if n < 10 {
        (('0' as u32) + n) as char
    } else {
        (('a' as u32) + (n - 10)) as char
    }
}

/// A number in decimal, without leading zeros.
pub open spec fn decimal(n: nat) -> Seq<char>
    decreases n,
{
    if n < 10 {
        seq![digit(n)]
    } else {
        decimal(n / 10).push(digit(n % 10))
    }
}

/// A signed number in decimal.
pub open spec fn signed_decimal(n: int) -> Seq<char> {
    if n < 0 {
        seq!['-'] + decimal((-n) as nat)
    } else {
        decimal(n as nat)
    }
}

/// The lowest `width` decimal digits of a number, with leading zeros.
pub open spec fn padded(n: nat, width: nat) -> Seq<char>
    decreases width,
{
    if width == 0 {
        Seq::empty()
    } else {
        padded(n / 10, (width - 1) as nat).push(digit(n % 10))
    }
}

/// A number in decimal, filled up with leading zeros to a least width.
pub open spec fn zero_padded(n: nat, width: nat) -> Seq<char> {
    if decimal(n).len() >= width {
        decimal(n)
    } else {
        padded(n, width)
    }
}

/// The number that decimal digits say.
pub open spec fn reading(digits: Seq<char>) -> int
    decreases digits.len(),
{
    if digits.len() == 0 {
        0
    } else {
        10 * reading(digits.drop_last()) + (digits.last() as int - '0' as int)
    }
}

proof fn lemma_decimal_reads(n: nat)
    ensures
        reading(decimal(n)) == n,
        decimal(n).len() > 0,
    decreases n,
{
    if n < 10 {
        assert(decimal(n).drop_last() =~= Seq::<char>::empty());
        assert(reading(Seq::<char>::empty()) == 0);
        assert(decimal(n).last() == digit(n));
    } else {
        lemma_decimal_reads(n / 10);
        assert(decimal(n).drop_last() =~= decimal(n / 10));
        assert(decimal(n).last() == digit(n % 10));
    }
}

proof fn lemma_padded_reads(n: nat, width: nat)
    requires
        decimal(n).len() <= width || n == 0,
    ensures
        reading(padded(n, width)) == n,
    decreases width,
{
    if width > 0 {
        if n >= 10 {
            assert(decimal(n).len() == decimal(n / 10).len() + 1);
        }
        lemma_padded_reads(n / 10, (width - 1) as nat);
        assert(padded(n, width).drop_last() =~= padded(n / 10, (width - 1) as nat));
        assert(padded(n, width).last() == digit(n % 10));
    } else {
        lemma_decimal_reads(n);
    }
}

/// Numbers that are written the same way, filled up to the same width, are the
/// same.
pub proof fn lemma_zero_padded_injective(m: nat, n: nat, width: nat)
    requires
        zero_padded(m, width) == zero_padded(n, width),
    ensures
        m == n,
{
    lemma_decimal_reads(m);
    lemma_decimal_reads(n);
    if decimal(m).len() < width {
        lemma_padded_reads(m, width);
    }
    if decimal(n).len() < width {
        lemma_padded_reads(n, width);
    }
}

/// The lowest `width` hexadecimal digits of a number, with leading zeros.
pub open spec fn hex(n: nat, width: nat) -> Seq<char>
    decreases width,
{
    if width == 0 {
        Seq::empty()
    } else {
        hex(n / 16, (width - 1) as nat).push(hex_digit(n % 16))
    }
}

fn digit_char(n: u64) -> (c: char)
    requires
        n < 10,
    ensures
        c == digit(n as nat),
{
    if n == 0 {
        '0'
    } else if n == 1 {
        '1'
    } else if n == 2 {
        '2'
    } else if n == 3 {
        '3'
    } else if n == 4 {
        '4'
    } else if n == 5 {
        '5'
    } else if n == 6 {
        '6'
    } else if n == 7 {
        '7'
    } else if n == 8 {
        '8'
    } else {
        '9'
    }
}

fn hex_digit_char(n: u64) -> (c: char)
    requires
        n < 16,
    ensures
        c == hex_digit(n as nat),
{
    if n < 10 {
        digit_char(n)
    } else if n == 10 {
        'a'
    } else if n == 11 {
        'b'
    } else if n == 12 {
        'c'
    } else if n == 13 {
        'd'
    } else if n == 14 {
        'e'
    } else {
        'f'
    }
}

/// Append a number in decimal.
pub fn push_decimal(out: &mut String, n: u64)
    ensures
        final(out)@ == old(out)@ + decimal(n as nat),
    decreases n,
{
    if n >= 10 {
        push_decimal(out, n / 10);
    }
    out.push(digit_char(n % 10));
    proof {
        if n >= 10 {
            assert(out@ =~= old(out)@ + decimal(n as nat));
        } else {
            assert(out@ =~= old(out)@ + seq![digit(n as nat)]);
        }
    }
}

/// Append a signed number in decimal.
pub fn push_signed_decimal(out: &mut String, n: i64)
    ensures
        final(out)@ == old(out)@ + signed_decimal(n as int),
{
    if n < 0 {
        out.push('-');
        let ghost before = out@;
        let magnitude: u64 = (-(n as i128)) as u64;
        push_decimal(out, magnitude);
        assert(out@ =~= old(out)@ + (seq!['-'] + decimal(magnitude as nat)));
    } else {
        push_decimal(out, n as u64);
    }
}

fn push_padded(out: &mut String, n: u64, width: u64)
    ensures
        final(out)@ == old(out)@ + padded(n as nat, width as nat),
    decreases width,
{
    if width > 0 {
        push_padded(out, n / 10, width - 1);
        out.push(digit_char(n % 10));
        assert(out@ =~= old(out)@ + padded(n as nat, width as nat));
    } else {
        assert(out@ =~= old(out)@ + padded(n as nat, 0));
    }
}

/// Append a number in decimal, filled up with leading zeros to a least width.
pub fn push_zero_padded(out: &mut String, n: u64, width: u64)
    ensures
        final(out)@ == old(out)@ + zero_padded(n as nat, width as nat),
{
    let mut plain: String = String::new();
    push_decimal(&mut plain, n);
    assert(plain@ =~= decimal(n as nat));
    let shown: Vec<char> = letters(plain.as_str());
    if shown.len() as u64 >= width {
        out.append(plain.as_str());
    } else {
        push_padded(out, n, width);
    }
}

/// Append the lowest hexadecimal digits of a number.
pub fn push_hex(out: &mut String, n: u64, width: u64)
    ensures
        final(out)@ == old(out)@ + hex(n as nat, width as nat),
    decreases width,
{
    if width > 0 {
        push_hex(out, n / 16, width - 1);
        out.push(hex_digit_char(n % 16));
        assert(out@ =~= old(out)@ + hex(n as nat, width as nat));
    } else {
        assert(out@ =~= old(out)@ + hex(n as nat, 0));
    }
}

/// Some texts in a row with a separator between each two.
pub open spec fn joined(parts: Seq<Seq<char>>, separator: Seq<char>) -> Seq<char>
    decreases parts.len(),
{
    if parts.len() == 0 {
        Seq::empty()
    } else if parts.len() == 1 {
        parts[0]
    } else {
        joined(parts.drop_last(), separator) + separator + parts.last()
    }
}

/// The views of a sequence of values, one for one.
pub open spec fn views<T: View>(values: Seq<T>) -> Seq<T::V> {
    Seq::new(values.len(), |i: int| values[i]@)
}

/// A number in hexadecimal, without leading zeros.
pub open spec fn hexadecimal(n: nat) -> Seq<char>
    decreases n,
{
    if n < 16 {
        seq![hex_digit(n)]
    } else {
        hexadecimal(n / 16).push(hex_digit(n % 16))
    }
}

fn push_hexadecimal(out: &mut String, n: u64)
    ensures
        final(out)@ == old(out)@ + hexadecimal(n as nat),
    decreases n,
{
    if n >= 16 {
        push_hexadecimal(out, n / 16);
    }
    out.push(hex_digit_char(n % 16));
    proof {
        if n >= 16 {
            assert(out@ =~= old(out)@ + hexadecimal(n as nat));
        } else {
            assert(out@ =~= old(out)@ + seq![hex_digit(n as nat)]);
        }
    }
}

/// Append a number in hexadecimal after its prefix.
pub fn push_prefixed_hexadecimal(out: &mut String, n: u64)
    ensures
        final(out)@ == old(out)@ + ("0x"@ + hexadecimal(n as nat)),
{
    out.append("0x");
    push_hexadecimal(out, n);
    assert(out@ =~= old(out)@ + ("0x"@ + hexadecimal(n as nat)));
}

/// A text in quotes, with what cannot be shown escaped.
pub uninterp spec fn quoted_of(text: Seq<char>) -> Seq<char>;

/// `format!` with the debug form of a text puts it in quotes and escapes what
/// cannot be shown. The result is named, not spelled out: it depends on the
/// text alone.
#[verifier::external_body]
pub(crate) fn quoted(text: &str) -> (shown: String)
    ensures
        shown@ == quoted_of(text@),
{
    format!("{text:?}")
}

proof fn lemma_padded_width(n: nat, width: nat)
    ensures
        padded(n, width).len() == width,
    decreases width,
{
    if width > 0 {
        lemma_padded_width(n / 10, (width - 1) as nat);
    }
}

/// Decimal digits read as the number they were made from: without a width and
/// without leading zeros, with a sign, and filled up to a width.
pub proof fn lemma_decimals_read_back(n: nat, width: nat)
    ensures
        reading(decimal(n)) == n,
        decimal(n).len() > 0,
        n > 0 ==> decimal(n)[0] != '0',
        signed_decimal(n as int) == decimal(n),
        n > 0 ==> signed_decimal(-(n as int)) == seq!['-'] + decimal(n),
        reading(zero_padded(n, width)) == n,
        zero_padded(n, width).len() >= width,
        decimal(n).len() <= width ==> zero_padded(n, width).len() == width,
{
    lemma_decimal_reads(n);
    lemma_decimal_leads(n);
    if decimal(n).len() < width {
        lemma_padded_reads(n, width);
        lemma_padded_width(n, width);
    }
}

proof fn lemma_decimal_leads(n: nat)
    ensures
        n > 0 ==> decimal(n)[0] != '0',
        decimal(n).len() > 0,
    decreases n,
{
    if n >= 10 {
        lemma_decimal_leads(n / 10);
        assert(decimal(n)[0] == decimal(n / 10)[0]);
    } else {
        assert(decimal(n)[0] == digit(n));
    }
}

/// A number below a power of ten has no more digits than that power.
pub proof fn lemma_decimal_width(n: nat, width: nat)
    requires
        n < vstd::arithmetic::power::pow(10, width),
        width > 0,
    ensures
        decimal(n).len() <= width,
    decreases width,
{
    reveal(vstd::arithmetic::power::pow);
    if n >= 10 {
        if width == 1 {
            assert(vstd::arithmetic::power::pow(10, 1) == 10) by {
                assert(vstd::arithmetic::power::pow(10, 0) == 1);
            }
        } else {
            assert(vstd::arithmetic::power::pow(10, width) == 10 * vstd::arithmetic::power::pow(
                10,
                (width - 1) as nat,
            ));
            lemma_decimal_width(n / 10, (width - 1) as nat);
        }
    }
}

/// The value of a hexadecimal digit.
pub open spec fn hex_value(c: char) -> int {
    if '0' <= c <= '9' {
        c as int - '0' as int
    } else {
        c as int - 'a' as int + 10
    }
}

/// What hexadecimal digits read as.
pub open spec fn hex_reading(digits: Seq<char>) -> int
    decreases digits.len(),
{
    if digits.len() == 0 {
        0
    } else {
        16 * hex_reading(digits.drop_last()) + hex_value(digits.last())
    }
}

/// Hexadecimal digits without a width read as the number they were made from.
pub proof fn lemma_hexadecimals_read_back(n: nat)
    ensures
        hex_reading(hexadecimal(n)) == n,
    decreases n,
{
    if n < 16 {
        assert(hexadecimal(n).drop_last() =~= Seq::<char>::empty());
        assert(hex_reading(Seq::<char>::empty()) == 0);
        assert(hexadecimal(n).last() == hex_digit(n));
    } else {
        lemma_hexadecimals_read_back(n / 16);
        assert(hexadecimal(n).drop_last() =~= hexadecimal(n / 16));
    }
}

/// Hexadecimal digits of a width read as the number they were made from, as
/// far as the width holds it.
pub proof fn lemma_hex_reads_back(n: nat, width: nat)
    requires
        n < vstd::arithmetic::power::pow(16, width),
    ensures
        hex_reading(hex(n, width)) == n,
        hex(n, width).len() == width,
    decreases width,
{
    reveal(vstd::arithmetic::power::pow);
    if width > 0 {
        assert(vstd::arithmetic::power::pow(16, width) == 16 * vstd::arithmetic::power::pow(
            16,
            (width - 1) as nat,
        ));
        lemma_hex_reads_back(n / 16, (width - 1) as nat);
        assert(hex(n, width).drop_last() =~= hex(n / 16, (width - 1) as nat));
        assert(hex(n, width).last() == hex_digit(n % 16));
    }
}

/// Texts stand in dictionary order: one is before another exactly where it is
/// a proper beginning of it, or has the smaller letter at the first place where
/// the two differ.
pub proof fn lemma_dictionary_order(a: Seq<char>, b: Seq<char>)
    ensures
        precedes(a, b) <==> exists|k: int|
            {
                &&& 0 <= k <= a.len()
                &&& k < b.len()
                &&& #[trigger] a.take(k) == b.take(k)
                &&& k < a.len() ==> a[k] < b[k]
            },
    decreases a.len(),
{
    if b.len() > 0 {
        if a.len() == 0 {
            assert(a.take(0) =~= b.take(0));
        } else if a[0] != b[0] {
            if a[0] < b[0] {
                assert(a.take(0) =~= b.take(0));
            }
            assert forall|k: int|
                0 <= k <= a.len() && k < b.len() && #[trigger] a.take(k) == b.take(k) implies k
                == 0 by {
                if k > 0 {
                    assert(a.take(k)[0] == b.take(k)[0]);
                }
            }
        } else {
            let x = a.drop_first();
            let y = b.drop_first();
            lemma_dictionary_order(x, y);
            if precedes(x, y) {
                let k = choose|k: int|
                    {
                        &&& 0 <= k <= x.len()
                        &&& k < y.len()
                        &&& #[trigger] x.take(k) == y.take(k)
                        &&& k < x.len() ==> x[k] < y[k]
                    };
                assert(a.take(k + 1) =~= b.take(k + 1)) by {
                    assert forall|i: int| 0 <= i < k + 1 implies a[i] == b[i] by {
                        if i > 0 {
                            assert(x.take(k)[i - 1] == y.take(k)[i - 1]);
                        }
                    }
                }
            }
            if exists|k: int|
                {
                    &&& 0 <= k <= a.len()
                    &&& k < b.len()
                    &&& #[trigger] a.take(k) == b.take(k)
                    &&& k < a.len() ==> a[k] < b[k]
                } {
                let k = choose|k: int|
                    {
                        &&& 0 <= k <= a.len()
                        &&& k < b.len()
                        &&& #[trigger] a.take(k) == b.take(k)
                        &&& k < a.len() ==> a[k] < b[k]
                    };
                assert(k > 0);
                assert(x.take(k - 1) =~= y.take(k - 1)) by {
                    assert forall|i: int| 0 <= i < k - 1 implies x[i] == y[i] by {
                        assert(a.take(k)[i + 1] == b.take(k)[i + 1]);
                    }
                }
            }
        }
    } else {
        assert forall|k: int| !(0 <= k <= a.len() && k < b.len() && #[trigger] a.take(k) == b.take(
            k,
        )) by {
        }
    }
}

} // verus!
