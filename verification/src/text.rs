//! Text as a sequence of characters.
//!
//! The rest of the library states what it does to text over `Seq<char>`; this
//! module is where strings are taken apart and put together again.
use vstd::prelude::*;

use vstd::utf8::{decode_utf8, valid_utf8};

verus! {

/// `String::push` appends one character to the end of the string.
pub assume_specification[ String::push ](s: &mut String, c: char)
    ensures
        final(s)@ == old(s)@.push(c),
;

/// The characters of a text, one element each.
pub fn chars_of(s: &str) -> (r: Vec<char>)
    ensures
        r@ == s@,
{
    let mut out: Vec<char> = Vec::new();
    for c in it: s.chars()
        invariant
            out@ == it.seq().take(it.index()),
            it.seq() == s@,
    {
        out.push(c);
    }
    out
}

/// Whether two texts have the same characters in the same order.
pub(crate) fn same_text(a: &str, b: &str) -> (r: bool)
    ensures
        r == (a@ == b@),
{
    let others = chars_of(b);
    let mut k: usize = 0;
    for c in it: a.chars()
        invariant
            it.seq() == a@,
            others@ == b@,
            k == it.index(),
            k <= others.len(),
            a@.take(k as int) == b@.take(k as int),
    {
        assert(a@[k as int] == c);
        if k >= others.len() || others[k] != c {
            assert(a@ != b@);
            return false;
        }
        assert(a@.take(k + 1) =~= a@.take(k as int).push(c));
        assert(b@.take(k + 1) =~= b@.take(k as int).push(c));
        k = k + 1;
    }
    assert(a@.take(a@.len() as int) =~= a@);
    assert(k == others.len() ==> b@.take(k as int) =~= b@);
    k == others.len()
}

/// A text made of the characters in `chars` from `start` up to `end`.
pub fn text_of(chars: &Vec<char>, start: usize, end: usize) -> (r: String)
    requires
        start <= end <= chars.len(),
    ensures
        r@ == chars@.subrange(start as int, end as int),
{
    let mut out = String::new();
    let mut i: usize = start;
    while i < end
        invariant
            start <= i <= end <= chars.len(),
            out@ == chars@.subrange(start as int, i as int),
        decreases end - i,
    {
        out.push(chars[i]);
        i = i + 1;
    }
    out
}

/// The given optional text, copied.
pub fn copy_text(text: &Option<String>) -> (r: Option<String>)
    ensures
        r == *text,
{
    match text {
        Some(t) => Some(t.clone()),
        None => None,
    }
}

/// An optional text as optional characters.
pub open spec fn text_view(text: Option<String>) -> Option<Seq<char>> {
    match text {
        Some(t) => Some(t@),
        None => None,
    }
}

/// Whether `a` sorts before `b`: at the first character in which they differ
/// `a` has the smaller one, or `a` ends there.
pub open spec fn sorts_before(a: Seq<char>, b: Seq<char>) -> bool
    decreases a.len(),
{
    if b.len() == 0 {
        false
    } else if a.len() == 0 {
        true
    } else if a[0] != b[0] {
        (a[0] as int) < (b[0] as int)
    } else {
        sorts_before(a.drop_first(), b.drop_first())
    }
}

/// Of two texts neither sorts before the other only where they are the same,
/// and never do both.
pub proof fn lemma_sorts_before_total(a: Seq<char>, b: Seq<char>)
    ensures
        !(sorts_before(a, b) && sorts_before(b, a)),
        a != b ==> sorts_before(a, b) || sorts_before(b, a),
        a == b ==> !sorts_before(a, b),
    decreases a.len(),
{
    if a.len() > 0 && b.len() > 0 {
        lemma_sorts_before_total(a.drop_first(), b.drop_first());
        if a[0] == b[0] && a != b {
            assert(a.drop_first() != b.drop_first()) by {
                if a.drop_first() == b.drop_first() {
                    assert(a =~= seq![a[0]] + a.drop_first());
                    assert(b =~= seq![b[0]] + b.drop_first());
                }
            }
        }
    } else if a.len() == 0 && b.len() == 0 {
        assert(a =~= b);
    }
}

/// Sorting before is transitive.
pub proof fn lemma_sorts_before_transitive(a: Seq<char>, b: Seq<char>, c: Seq<char>)
    ensures
        sorts_before(a, b) && sorts_before(b, c) ==> sorts_before(a, c),
    decreases a.len(),
{
    if a.len() > 0 && b.len() > 0 && c.len() > 0 {
        lemma_sorts_before_transitive(a.drop_first(), b.drop_first(), c.drop_first());
    }
}

/// Two texts with a common beginning sort as what is behind it.
proof fn lemma_sorts_after_common(a: Seq<char>, b: Seq<char>, k: int)
    requires
        0 <= k <= a.len(),
        k <= b.len(),
        a.take(k) == b.take(k),
    ensures
        sorts_before(a, b) == sorts_before(a.skip(k), b.skip(k)),
    decreases k,
{
    if k == 0 {
        assert(a.skip(0) =~= a);
        assert(b.skip(0) =~= b);
    } else {
        assert(a.take(k)[0] == b.take(k)[0]);
        assert(a.drop_first().take(k - 1) =~= b.drop_first().take(k - 1)) by {
            let x = a.drop_first().take(k - 1);
            let y = b.drop_first().take(k - 1);
            assert forall|i: int| 0 <= i < k - 1 implies #[trigger] x[i] == y[i] by {
                assert(a[i + 1] == a.take(k)[i + 1]);
                assert(b[i + 1] == b.take(k)[i + 1]);
                assert(a.drop_first()[i] == a[i + 1]);
                assert(b.drop_first()[i] == b[i + 1]);
            }
        }
        lemma_sorts_after_common(a.drop_first(), b.drop_first(), k - 1);
        assert(a[0] == a.take(k)[0]);
        assert(b[0] == b.take(k)[0]);
        assert(sorts_before(a, b) == sorts_before(a.drop_first(), b.drop_first()));
        assert(a.drop_first().skip(k - 1) =~= a.skip(k));
        assert(b.drop_first().skip(k - 1) =~= b.skip(k));
    }
}

/// Whether one text sorts before the other.
pub fn text_sorts_before(a: &str, b: &str) -> (r: bool)
    ensures
        r == sorts_before(a@, b@),
{
    let x = chars_of(a);
    let y = chars_of(b);
    let mut k: usize = 0;
    while k < x.len() && k < y.len() && x[k] == y[k]
        invariant
            0 <= k <= x.len(),
            k <= y.len(),
            x@.take(k as int) =~= y@.take(k as int),
        decreases x.len() - k,
    {
        k = k + 1;
    }
    proof {
        lemma_sorts_after_common(x@, y@, k as int);
        let left = x@.skip(k as int);
        let right = y@.skip(k as int);
        assert(left.len() == x.len() - k && right.len() == y.len() - k);
        assert(k < x.len() ==> left[0] == x@[k as int]);
        assert(k < y.len() ==> right[0] == y@[k as int]);
    }
    if k == y.len() {
        false
    } else if k == x.len() {
        true
    } else {
        let (c, d) = (x[k], y[k]);
        c < d
    }
}

// White space.

/// Whether a character is white space: the five from the tab to the carriage return
/// and the space, and what Unicode adds to them.
pub open spec fn is_white(c: char) -> bool {
    let n = c as int;
    ||| 9 <= n <= 13 || n == 32
    ||| n == 0x85 || n == 0xa0 || n == 0x1680
    ||| 0x2000 <= n <= 0x200a
    ||| n == 0x2028 || n == 0x2029 || n == 0x202f || n == 0x205f || n == 0x3000
}

/// `char::is_whitespace` tells whether a character has the Unicode property
/// `White_Space`. The Unicode Character Database gives it to the characters that
/// [`is_white`] lists.
pub assume_specification[ char::is_whitespace ](c: char) -> (r: bool)
    ensures
        r == is_white(c),
;

/// Whether a word begins at position `k`.
pub open spec fn begins_word(s: Seq<char>, k: int) -> bool {
    !is_white(s[k]) && (k == 0 || is_white(s[k - 1]))
}

/// How many words begin among the first `n` characters.
pub open spec fn words_upto(s: Seq<char>, n: nat) -> nat
    decreases n,
{
    if n == 0 {
        0
    } else {
        words_upto(s, (n - 1) as nat) + (if begins_word(s, n - 1) {
            1nat
        } else {
            0nat
        })
    }
}

/// How many words a text has: runs of characters that are not white space.
pub fn count_words(s: &str) -> (r: usize)
    ensures
        r == words_upto(s@, s@.len()),
{
    let chars = chars_of(s);
    let mut found: usize = 0;
    let mut inside = false;
    let mut k: usize = 0;
    while k < chars.len()
        invariant
            0 <= k <= chars.len(),
            chars@ == s@,
            found == words_upto(s@, k as nat),
            found <= k,
            inside == (k > 0 && !is_white(s@[k - 1])),
        decreases chars.len() - k,
    {
        let white = chars[k].is_whitespace();
        if !white && !inside {
            found = found + 1;
        }
        inside = !white;
        k = k + 1;
    }
    found
}

/// Where the text without the white space around it begins.
pub open spec fn trim_start(s: Seq<char>) -> nat
    decreases s.len(),
{
    if s.len() == 0 || !is_white(s[0]) {
        0
    } else {
        1 + trim_start(s.drop_first())
    }
}

/// Where the text without the white space behind it ends.
pub open spec fn trim_end(s: Seq<char>) -> nat
    decreases s.len(),
{
    if s.len() == 0 || !is_white(s.last()) {
        s.len()
    } else {
        trim_end(s.drop_last())
    }
}

/// A text without the white space around it.
pub open spec fn trimmed(s: Seq<char>) -> Seq<char> {
    let end = s.take(trim_end(s) as int);
    end.skip(trim_start(end) as int)
}

proof fn lemma_trim_start(s: Seq<char>, k: int)
    requires
        0 <= k <= s.len(),
        forall|j: int| 0 <= j < k ==> is_white(#[trigger] s[j]),
        k == s.len() || !is_white(s[k]),
    ensures
        trim_start(s) == k,
    decreases k,
{
    if k > 0 {
        let rest = s.drop_first();
        assert(is_white(s[0]));
        assert forall|j: int| 0 <= j < k - 1 implies is_white(#[trigger] rest[j]) by {
            assert(is_white(s[j + 1]));
        }
        lemma_trim_start(rest, k - 1);
    }
}

proof fn lemma_trim_end(s: Seq<char>, k: int)
    requires
        0 <= k <= s.len(),
        forall|j: int| k <= j < s.len() ==> is_white(#[trigger] s[j]),
        k == 0 || !is_white(s[k - 1]),
    ensures
        trim_end(s) == k,
    decreases s.len() - k,
{
    if k < s.len() {
        assert(is_white(s[s.len() - 1]));
        let rest = s.drop_last();
        assert forall|j: int| k <= j < rest.len() implies is_white(#[trigger] rest[j]) by {
            assert(is_white(s[j]));
        }
        lemma_trim_end(rest, k);
    } else {
        if s.len() > 0 {
            assert(s.last() == s[k - 1]);
        }
    }
}

/// The bounds of a text without the white space around it.
fn trim_bounds(chars: &Vec<char>) -> (r: (usize, usize))
    ensures
        r.0 <= r.1 <= chars.len(),
        chars@.subrange(r.0 as int, r.1 as int) == trimmed(chars@),
{
    let mut end: usize = chars.len();
    while end > 0 && chars[end - 1].is_whitespace()
        invariant
            0 <= end <= chars.len(),
            forall|j: int| end <= j < chars.len() ==> is_white(#[trigger] chars@[j]),
        decreases end,
    {
        end = end - 1;
    }
    let mut start: usize = 0;
    while start < end && chars[start].is_whitespace()
        invariant
            0 <= start <= end <= chars.len(),
            forall|j: int| 0 <= j < start ==> is_white(#[trigger] chars@[j]),
        decreases end - start,
    {
        start = start + 1;
    }
    proof {
        lemma_trim_end(chars@, end as int);
        let head = chars@.take(end as int);
        assert forall|j: int| 0 <= j < start implies is_white(#[trigger] head[j]) by {
            assert(is_white(chars@[j]));
        }
        lemma_trim_start(head, start as int);
        assert(chars@.subrange(start as int, end as int) =~= head.skip(start as int));
    }
    (start, end)
}

/// A text without the white space around it.
pub fn trim_text(s: &str) -> (r: String)
    ensures
        r@ == trimmed(s@),
{
    let chars = chars_of(s);
    let (start, end) = trim_bounds(&chars);
    text_of(&chars, start, end)
}

/// How many characters a text has without the white space around it.
pub fn trimmed_len(s: &str) -> (r: usize)
    ensures
        r == trimmed(s@).len(),
{
    let chars = chars_of(s);
    let (start, end) = trim_bounds(&chars);
    end - start
}

// Beginnings and ends.

/// The first `limit` characters of a text, or all of it.
pub open spec fn first_chars(s: Seq<char>, limit: nat) -> Seq<char> {
    if s.len() <= limit {
        s
    } else {
        s.take(limit as int)
    }
}

/// The first `limit` characters of a text, or all of it.
pub fn cut_text(s: &str, limit: usize) -> (r: String)
    ensures
        r@ == first_chars(s@, limit as nat),
{
    let chars = chars_of(s);
    if chars.len() <= limit {
        s.to_owned()
    } else {
        let cut = text_of(&chars, 0, limit);
        assert(chars@.subrange(0, limit as int) =~= chars@.take(limit as int));
        cut
    }
}

/// Whether a text begins with another.
pub open spec fn begins(s: Seq<char>, prefix: Seq<char>) -> bool {
    prefix.len() <= s.len() && s.take(prefix.len() as int) == prefix
}

/// Whether a text ends with another.
pub open spec fn ends(s: Seq<char>, suffix: Seq<char>) -> bool {
    suffix.len() <= s.len() && s.skip(s.len() - suffix.len()) == suffix
}

/// Whether a text begins with another.
pub fn text_begins(s: &str, prefix: &str) -> (r: bool)
    ensures
        r == begins(s@, prefix@),
{
    let x = chars_of(s);
    let y = chars_of(prefix);
    if y.len() > x.len() {
        return false;
    }
    let mut k: usize = 0;
    while k < y.len()
        invariant
            0 <= k <= y.len() <= x.len(),
            x@ == s@,
            y@ == prefix@,
            forall|j: int| 0 <= j < k ==> x@[j] == #[trigger] y@[j],
        decreases y.len() - k,
    {
        if x[k] != y[k] {
            assert(s@.take(y.len() as int)[k as int] != prefix@[k as int]);
            return false;
        }
        k = k + 1;
    }
    assert(s@.take(y.len() as int) =~= prefix@);
    true
}

/// Whether a text ends with another.
pub fn text_ends(s: &str, suffix: &str) -> (r: bool)
    ensures
        r == ends(s@, suffix@),
{
    let x = chars_of(s);
    let y = chars_of(suffix);
    if y.len() > x.len() {
        return false;
    }
    let shift: usize = x.len() - y.len();
    let mut k: usize = 0;
    while k < y.len()
        invariant
            0 <= k <= y.len() <= x.len(),
            shift == x.len() - y.len(),
            x@ == s@,
            y@ == suffix@,
            forall|j: int| 0 <= j < k ==> x@[shift + j] == #[trigger] y@[j],
        decreases y.len() - k,
    {
        if x[shift + k] != y[k] {
            assert(s@.skip(shift as int)[k as int] != suffix@[k as int]);
            return false;
        }
        k = k + 1;
    }
    assert(s@.skip(shift as int) =~= suffix@);
    true
}

// Letter case.

/// What `str::to_lowercase` makes of a text that is not ASCII.
pub uninterp spec fn wide_lowercase(s: Seq<char>) -> Seq<char>;

/// Whether every character is ASCII.
pub open spec fn is_narrow(s: Seq<char>) -> bool {
    forall|i: int| 0 <= i < s.len() ==> (#[trigger] s[i]) as int <= 127
}

/// A text in lower case.
pub open spec fn lowercase(s: Seq<char>) -> Seq<char> {
    if is_narrow(s) {
        s.map_values(|c: char| ascii_small(c))
    } else {
        wide_lowercase(s)
    }
}

/// A character with an ASCII capital made small.
pub open spec fn ascii_small(c: char) -> char {
    if 'A' <= c <= 'Z' {
        ((c as u8) + 32u8) as u8 as char
    } else {
        c
    }
}

/// `str::to_lowercase` gives the text in lower case by the Unicode rules; of a
/// text of ASCII characters alone it makes the capitals small and keeps the
/// rest; of any other text the result is only named.
#[verifier::external_body]
pub(crate) fn lower_text(s: &str) -> (r: String)
    ensures
        is_narrow(s@) ==> r@ == s@.map_values(|c: char| ascii_small(c)),
        !is_narrow(s@) ==> r@ == wide_lowercase(s@),
{
    s.to_lowercase()
}

// Numbers.

/// The value of a sequence of decimal digits.
pub open spec fn digits_value(s: Seq<char>) -> nat
    decreases s.len(),
{
    if s.len() == 0 {
        0
    } else {
        digits_value(s.drop_last()) * 10 + (s.last() as int - '0' as int) as nat
    }
}

/// Whether every character is a decimal digit.
pub open spec fn all_digits(s: Seq<char>) -> bool {
    forall|i: int| 0 <= i < s.len() ==> '0' <= #[trigger] s[i] <= '9'
}

/// The digits of a number in text form, behind an optional plus sign.
pub open spec fn unsigned_digits(s: Seq<char>) -> Seq<char> {
    if s.len() > 0 && s[0] == '+' {
        s.drop_first()
    } else {
        s
    }
}

/// The number that a text stands for: decimal digits, at least one, behind an
/// optional plus sign, no larger than `most`.
pub open spec fn parsed_number(s: Seq<char>, most: nat) -> Option<nat> {
    let digits = unsigned_digits(s);
    if digits.len() > 0 && all_digits(digits) && digits_value(digits) <= most {
        Some(digits_value(digits))
    } else {
        None
    }
}

proof fn lemma_digits_grow(s: Seq<char>, k: int)
    requires
        0 <= k <= s.len(),
        all_digits(s),
    ensures
        digits_value(s.take(k)) <= digits_value(s),
    decreases s.len(),
{
    if k == s.len() {
        assert(s.take(k) =~= s);
    } else {
        let shorter = s.drop_last();
        assert(all_digits(shorter)) by {
            assert forall|i: int| 0 <= i < shorter.len() implies '0' <= #[trigger] shorter[i]
                <= '9' by {
                assert(shorter[i] == s[i]);
            }
        }
        lemma_digits_grow(shorter, k);
        assert(shorter.take(k) =~= s.take(k));
    }
}

/// Read a number of at most `most`.
pub fn parse_number(s: &str, most: u64) -> (r: Option<u64>)
    ensures
        match r {
            Some(n) => parsed_number(s@, most as nat) == Some(n as nat),
            None => parsed_number(s@, most as nat) is None,
        },
{
    let chars = chars_of(s);
    let start: usize = if chars.len() > 0 && chars[0] == '+' {
        1
    } else {
        0
    };
    let ghost digits = unsigned_digits(s@);
    assert(digits =~= chars@.skip(start as int));
    if start == chars.len() {
        return None;
    }
    let mut value: u64 = 0;
    let mut k: usize = start;
    assert(digits.take(0) =~= Seq::<char>::empty());
    while k < chars.len()
        invariant
            start <= k <= chars.len(),
            chars@ == s@,
            digits == unsigned_digits(s@),
            digits =~= chars@.skip(start as int),
            value == digits_value(digits.take(k - start)),
            value <= most,
            forall|j: int| 0 <= j < k - start ==> '0' <= #[trigger] digits[j] <= '9',
        decreases chars.len() - k,
    {
        let c = chars[k];
        assert(digits[k - start] == c);
        if c < '0' || c > '9' {
            return None;
        }
        let d: u64 = c as u64 - '0' as u64;
        proof {
            assert(digits.take(k - start + 1).drop_last() =~= digits.take(k - start));
            assert(digits.take(k - start + 1).last() == c);
        }
        if value as u128 * 10 + d as u128 > most as u128 {
            proof {
                if all_digits(digits) {
                    lemma_digits_grow(digits, k - start + 1);
                }
            }
            return None;
        }
        value = value * 10 + d;
        k = k + 1;
    }
    assert(digits.take(digits.len() as int) =~= digits);
    Some(value)
}

/// The decimal digits of a number.
pub open spec fn decimal(n: nat) -> Seq<char>
    decreases n,
{
    if n < 10 {
        seq![digit(n)]
    } else {
        decimal(n / 10).push(digit(n % 10))
    }
}

/// The character of a digit.
pub open spec fn digit(d: nat) -> char {
    (('0' as int) + d) as char
}

/// The decimal digits of a signed number.
pub open spec fn signed_decimal(n: int) -> Seq<char> {
    if n < 0 {
        seq!['-'] + decimal((-n) as nat)
    } else {
        decimal(n as nat)
    }
}

fn digit_char(d: u8) -> (r: char)
    requires
        d < 10,
    ensures
        r == digit(d as nat),
{
    match d {
        0 => '0',
        1 => '1',
        2 => '2',
        3 => '3',
        4 => '4',
        5 => '5',
        6 => '6',
        7 => '7',
        8 => '8',
        _ => '9',
    }
}

/// Append the decimal digits of a number.
pub fn push_number(out: &mut String, n: u64)
    ensures
        final(out)@ == old(out)@ + decimal(n as nat),
    decreases n,
{
    if n >= 10 {
        push_number(out, n / 10);
    }
    let ghost before = out@;
    out.push(digit_char((n % 10) as u8));
    assert(out@ =~= old(out)@ + decimal(n as nat));
}

/// Append the decimal digits of a signed number.
pub fn push_signed(out: &mut String, n: i64)
    ensures
        final(out)@ == old(out)@ + signed_decimal(n as int),
{
    if n < 0 {
        out.push('-');
        let magnitude: u64 = if n == i64::MIN {
            9_223_372_036_854_775_808
        } else {
            (-n) as u64
        };
        push_number(out, magnitude);
        assert(out@ =~= old(out)@ + signed_decimal(n as int));
    } else {
        push_number(out, n as u64);
    }
}

/// A number that is written in decimal is read back as that number, and one that is too
/// large is not read.
pub proof fn a_number_written_is_read_back(n: nat, most: nat)
    ensures
        parsed_number(decimal(n), most) == (if n <= most {
            Some(n)
        } else {
            None
        }),
        parsed_number(seq!['+'] + decimal(n), most) == parsed_number(decimal(n), most),
{
    lemma_decimal(n);
    let signed = seq!['+'] + decimal(n);
    assert(signed.drop_first() =~= decimal(n));
    assert(unsigned_digits(decimal(n)) == decimal(n)) by {
        assert('0' <= decimal(n)[0] <= '9');
    }
}

/// What is written for a number are digits, without a zero in front of others, and their
/// value is the number.
pub(crate) proof fn lemma_decimal(n: nat)
    ensures
        decimal(n).len() > 0,
        all_digits(decimal(n)),
        digits_value(decimal(n)) == n,
    decreases n,
{
    if n >= 10 {
        lemma_decimal(n / 10);
        let s = decimal(n);
        assert(s.drop_last() =~= decimal(n / 10));
        assert forall|i: int| 0 <= i < s.len() implies '0' <= #[trigger] s[i] <= '9' by {
            if i < s.len() - 1 {
                assert(s[i] == decimal(n / 10)[i]);
            }
        }
    } else {
        assert(decimal(n).drop_last() =~= Seq::<char>::empty());
        assert(digits_value(Seq::<char>::empty()) == 0);
    }
}

// Bytes.

/// `str::from_utf8` takes bytes for text exactly where they are valid UTF-8.
#[verifier::external_body]
pub(crate) fn text_from_utf8(bytes: &[u8]) -> (r: Option<String>)
    ensures
        match r {
            Some(text) => valid_utf8(bytes@) && text@ == decode_utf8(bytes@),
            None => !valid_utf8(bytes@),
        },
{
    std::str::from_utf8(bytes).ok().map(|text| text.to_string())
}

// Words and lines.

/// How many characters come before the first white space.
pub open spec fn word_len(s: Seq<char>) -> nat
    decreases s.len(),
{
    if s.len() == 0 || is_white(s[0]) {
        0
    } else {
        1 + word_len(s.drop_first())
    }
}

proof fn lemma_word_len(s: Seq<char>)
    ensures
        word_len(s) <= s.len(),
        s.len() > 0 && !is_white(s[0]) ==> word_len(s) > 0,
    decreases s.len(),
{
    if s.len() > 0 && !is_white(s[0]) {
        lemma_word_len(s.drop_first());
    }
}

proof fn lemma_word_ends(s: Seq<char>, k: int)
    requires
        0 <= k <= s.len(),
        forall|j: int| 0 <= j < k ==> !is_white(#[trigger] s[j]),
        k == s.len() || is_white(s[k]),
    ensures
        word_len(s) == k,
    decreases k,
{
    if k > 0 {
        assert(!is_white(s[0]));
        let rest = s.drop_first();
        assert forall|j: int| 0 <= j < k - 1 implies !is_white(#[trigger] rest[j]) by {
            assert(!is_white(s[j + 1]));
        }
        lemma_word_ends(rest, k - 1);
    }
}

/// The words of a text, in order: runs of characters that are not white space.
pub open spec fn words_of(s: Seq<char>) -> Seq<Seq<char>>
    decreases s.len(),
    via words_of_decreases
{
    if s.len() == 0 {
        Seq::empty()
    } else if is_white(s[0]) {
        words_of(s.drop_first())
    } else {
        seq![s.take(word_len(s) as int)] + words_of(s.skip(word_len(s) as int))
    }
}

#[via_fn]
proof fn words_of_decreases(s: Seq<char>) {
    lemma_word_len(s);
}

/// The word at position `n`, if there are so many.
pub open spec fn word_at(s: Seq<char>, n: nat) -> Option<Seq<char>> {
    if n < words_of(s).len() {
        Some(words_of(s)[n as int])
    } else {
        None
    }
}

/// The word at position `n`, if there are so many.
pub fn nth_word(s: &str, n: usize) -> (r: Option<String>)
    ensures
        text_view(r) == word_at(s@, n as nat),
{
    let chars = chars_of(s);
    let mut k: usize = 0;
    let mut passed: usize = 0;
    assert(s@.skip(0) =~= s@);
    while k < chars.len()
        invariant
            0 <= k <= chars.len(),
            chars@ == s@,
            passed <= n,
            passed <= k,
            word_at(s@, n as nat) == word_at(s@.skip(k as int), (n - passed) as nat),
        decreases chars.len() - k,
    {
        let ghost rest = s@.skip(k as int);
        assert(rest[0] == chars[k as int]);
        if chars[k].is_whitespace() {
            assert(rest.drop_first() =~= s@.skip(k + 1));
            k = k + 1;
        } else {
            let start: usize = k;
            k = k + 1;
            while k < chars.len() && !chars[k].is_whitespace()
                invariant
                    start < k <= chars.len(),
                    chars@ == s@,
                    forall|j: int| start <= j < k ==> !is_white(#[trigger] s@[j]),
                decreases chars.len() - k,
            {
                k = k + 1;
            }
            proof {
                assert forall|j: int| 0 <= j < k - start implies !is_white(#[trigger] rest[j]) by {
                    assert(!is_white(s@[start + j]));
                }
                lemma_word_ends(rest, k - start);
                assert(rest.take(k - start) =~= s@.subrange(start as int, k as int));
                assert(rest.skip(k - start) =~= s@.skip(k as int));
                assert(words_of(rest) =~= seq![rest.take(k - start)] + words_of(
                    s@.skip(k as int),
                ));
            }
            if passed == n {
                return Some(text_of(&chars, start, k));
            }
            passed = passed + 1;
        }
    }
    None
}

/// A text up to its first line break.
pub open spec fn first_line(s: Seq<char>) -> Seq<char>
    decreases s.len(),
{
    if s.len() == 0 || s[0] == '\n' {
        Seq::empty()
    } else {
        seq![s[0]] + first_line(s.drop_first())
    }
}

proof fn lemma_first_line(s: Seq<char>, k: int)
    requires
        0 <= k <= s.len(),
        forall|j: int| 0 <= j < k ==> #[trigger] s[j] != '\n',
        k == s.len() || s[k] == '\n',
    ensures
        first_line(s) == s.take(k),
    decreases k,
{
    if k == 0 {
        assert(s.take(0) =~= Seq::<char>::empty());
    } else {
        let rest = s.drop_first();
        assert(s[0] != '\n');
        assert forall|j: int| 0 <= j < k - 1 implies #[trigger] rest[j] != '\n' by {
            assert(s[j + 1] != '\n');
        }
        lemma_first_line(rest, k - 1);
        assert(seq![s[0]] + rest.take(k - 1) =~= s.take(k));
    }
}

/// A text up to its first line break.
pub fn first_line_of(s: &str) -> (r: String)
    ensures
        r@ == first_line(s@),
{
    let chars = chars_of(s);
    let mut k: usize = 0;
    while k < chars.len() && chars[k] != '\n'
        invariant
            0 <= k <= chars.len(),
            chars@ == s@,
            forall|j: int| 0 <= j < k ==> #[trigger] s@[j] != '\n',
        decreases chars.len() - k,
    {
        k = k + 1;
    }
    proof {
        lemma_first_line(s@, k as int);
        assert(s@.take(k as int) =~= s@.subrange(0, k as int));
    }
    text_of(&chars, 0, k)
}

// Laws.

/// Two texts are put in order by the first place at which they differ: the one that
/// ends there comes first, or the one with the smaller character.
pub proof fn texts_sort_by_their_first_difference(common: Seq<char>, a: Seq<char>, b: Seq<char>)
    requires
        a.len() > 0 && b.len() > 0 ==> a[0] != b[0],
    ensures
        sorts_before(common + a, common + b) <==> b.len() > 0 && (a.len() == 0 || (a[0] as int) < (
        b[0] as int)),
{
    let k = common.len() as int;
    assert((common + a).take(k) =~= common);
    assert((common + b).take(k) =~= common);
    assert((common + a).skip(k) =~= a);
    assert((common + b).skip(k) =~= b);
    lemma_sorts_after_common(common + a, common + b, k);
}

/// Whether there is nothing but white space in a text.
pub open spec fn is_blank(s: Seq<char>) -> bool {
    forall|i: int| 0 <= i < s.len() ==> is_white(#[trigger] s[i])
}

/// Whether there is no white space in a text.
pub open spec fn is_word(s: Seq<char>) -> bool {
    s.len() > 0 && forall|i: int| 0 <= i < s.len() ==> !is_white(#[trigger] s[i])
}

/// Trimming takes away the white space around a text and nothing else; what is inside
/// stays as it is.
pub proof fn white_space_around_is_taken_away(before: Seq<char>, inner: Seq<char>, behind: Seq<char>)
    requires
        is_blank(before),
        is_blank(behind),
        inner.len() > 0 ==> !is_white(inner[0]) && !is_white(inner.last()),
    ensures
        trimmed(before + inner + behind) == inner,
{
    let s = before + inner + behind;
    let end: int = if inner.len() == 0 {
        0
    } else {
        (before.len() + inner.len()) as int
    };
    assert forall|j: int| end <= j < s.len() implies is_white(#[trigger] s[j]) by {
        if j < before.len() {
            assert(s[j] == before[j]);
        } else {
            assert(s[j] == behind[j - before.len() - inner.len()]);
        }
    }
    if inner.len() > 0 {
        assert(s[end - 1] == inner.last());
    }
    lemma_trim_end(s, end);
    let head = s.take(end);
    let start: int = if inner.len() == 0 {
        0
    } else {
        before.len() as int
    };
    assert forall|j: int| 0 <= j < start implies is_white(#[trigger] head[j]) by {
        assert(head[j] == before[j]);
    }
    if inner.len() > 0 {
        assert(head[start] == inner[0]);
    }
    lemma_trim_start(head, start);
    assert(head.skip(start) =~= inner);
}

/// The words of two texts with white space between them are the words of the one and
/// the words of the other. A run of other characters is one word, and white space none.
pub proof fn words_are_told_apart_by_white_space(a: Seq<char>, gap: Seq<char>, b: Seq<char>)
    requires
        is_blank(gap),
        gap.len() > 0 || a.len() == 0,
    ensures
        words_upto(a + gap + b, (a + gap + b).len()) == words_upto(a, a.len()) + words_upto(
            b,
            b.len(),
        ),
        words_upto(gap, gap.len()) == 0,
        is_word(b) ==> words_upto(b, b.len()) == 1,
{
    let s = a + gap + b;
    lemma_words_before(s, a, a.len());
    lemma_words_in_gap(s, a.len(), (a.len() + gap.len()) as nat);
    lemma_words_behind(s, (a.len() + gap.len()) as nat, b, b.len());
    lemma_words_in_gap(gap, 0, gap.len());
    if is_word(b) {
        lemma_words_in_word(b, b.len());
    }
}

proof fn lemma_words_before(s: Seq<char>, a: Seq<char>, n: nat)
    requires
        n <= a.len() <= s.len(),
        forall|i: int| 0 <= i < a.len() ==> #[trigger] s[i] == a[i],
    ensures
        words_upto(s, n) == words_upto(a, n),
    decreases n,
{
    if n > 0 {
        lemma_words_before(s, a, (n - 1) as nat);
        assert(s[n - 1] == a[n - 1]);
        if n > 1 {
            let before = n - 2;
            assert(s[before] == a[before]);
        }
    }
}

proof fn lemma_words_in_gap(s: Seq<char>, from: nat, to: nat)
    requires
        from <= to <= s.len(),
        forall|i: int| from <= i < to ==> is_white(#[trigger] s[i]),
    ensures
        words_upto(s, to) == words_upto(s, from),
    decreases to,
{
    if from < to {
        lemma_words_in_gap(s, from, (to - 1) as nat);
        assert(is_white(s[to - 1]));
    }
}

proof fn lemma_words_behind(s: Seq<char>, from: nat, b: Seq<char>, n: nat)
    requires
        from + b.len() == s.len(),
        n <= b.len(),
        from > 0 ==> is_white(s[from - 1]),
        forall|i: int| 0 <= i < b.len() ==> s[from + i] == #[trigger] b[i],
    ensures
        words_upto(s, from + n) == words_upto(s, from) + words_upto(b, n),
    decreases n,
{
    if n > 0 {
        lemma_words_behind(s, from, b, (n - 1) as nat);
        assert(s[from + n - 1] == b[n - 1]);
        if n > 1 {
            let before = n - 2;
            assert(s[from + before] == b[before]);
        }
    }
}

proof fn lemma_words_in_word(s: Seq<char>, n: nat)
    requires
        is_word(s),
        n <= s.len(),
    ensures
        words_upto(s, n) == (if n == 0 {
            0nat
        } else {
            1nat
        }),
    decreases n,
{
    if n > 0 {
        lemma_words_in_word(s, (n - 1) as nat);
        assert(!is_white(s[n - 1]));
        if n > 1 {
            let before = n - 2;
            assert(!is_white(s[before]));
        }
    }
}

/// The words of a text in order: a word in front of white space is the first of them,
/// and the white space in front of the first word is none.
pub proof fn words_come_in_order(gap: Seq<char>, word: Seq<char>, rest: Seq<char>)
    requires
        is_blank(gap),
        is_word(word),
        rest.len() > 0 ==> is_white(rest[0]),
    ensures
        words_of(gap + word + rest) == seq![word] + words_of(rest),
        words_of(gap) == Seq::<Seq<char>>::empty(),
    decreases gap.len(),
{
    let s = gap + word + rest;
    if gap.len() > 0 {
        assert(is_white(gap[0]));
        let less = gap.drop_first();
        assert forall|i: int| 0 <= i < less.len() implies is_white(#[trigger] less[i]) by {
            assert(is_white(gap[i + 1]));
        }
        words_come_in_order(less, word, rest);
        assert(s.drop_first() =~= less + word + rest);
    } else {
        assert(s =~= word + rest);
        assert forall|j: int| 0 <= j < word.len() implies !is_white(#[trigger] s[j]) by {
            assert(s[j] == word[j]);
        }
        if rest.len() > 0 {
            assert(s[word.len() as int] == rest[0]);
        }
        lemma_word_ends(s, word.len() as int);
        assert(s.take(word.len() as int) =~= word);
        assert(s.skip(word.len() as int) =~= rest);
        assert(!is_white(word[0]));
        assert(s[0] == word[0]);
    }
}

/// The first line of a text ends where the first line break is, and is the whole text
/// where there is none.
pub proof fn a_line_ends_at_the_first_break(line: Seq<char>, rest: Seq<char>)
    requires
        !line.contains('\n'),
    ensures
        first_line(line + seq!['\n'] + rest) == line,
        first_line(line) == line,
{
    let s = line + seq!['\n'] + rest;
    assert forall|j: int| 0 <= j < line.len() implies #[trigger] s[j] != '\n' by {
        assert(s[j] == line[j]);
    }
    assert forall|j: int| 0 <= j < line.len() implies #[trigger] line[j] != '\n' by {
        assert(line.contains(line[j]));
    }
    assert forall|j: int| 0 <= j < line.len() implies #[trigger] s[j] != '\n' by {
        assert(s[j] == line[j]);
    }
    lemma_first_line(s, line.len() as int);
    lemma_first_line(line, line.len() as int);
    assert(s.take(line.len() as int) =~= line);
    assert(line.take(line.len() as int) =~= line);
}

/// What is kept of a text that is too long is its beginning, as long as allowed; a text
/// that is not too long is kept whole.
pub proof fn a_cut_text_is_a_beginning(head: Seq<char>, rest: Seq<char>)
    ensures
        first_chars(head + rest, head.len()) == head,
        first_chars(head, (head.len() + rest.len()) as nat) == head,
{
    assert((head + rest).take(head.len() as int) =~= head);
    if rest.len() == 0 {
        assert(head + rest =~= head);
    }
}

/// A text begins and ends with another exactly where it can be had by putting something
/// behind it or in front of it.
pub proof fn a_text_begins_with_what_stands_in_front(s: Seq<char>, part: Seq<char>, rest: Seq<char>)
    ensures
        begins(part + rest, part),
        ends(rest + part, part),
        begins(s, part) ==> s == part + s.skip(part.len() as int),
        ends(s, part) ==> s == s.take(s.len() - part.len()) + part,
{
    assert((part + rest).take(part.len() as int) =~= part);
    assert((rest + part).skip(rest.len() as int) =~= part);
    if begins(s, part) {
        assert(s =~= s.take(part.len() as int) + s.skip(part.len() as int));
    }
    if ends(s, part) {
        let at = s.len() - part.len();
        assert(s =~= s.take(at) + s.skip(at));
    }
}

/// What is read as a number holds nothing but digits behind an optional plus sign, at
/// least one. Each further digit makes the number ten times as large and adds its own
/// value.
pub proof fn only_digits_are_a_number(s: Seq<char>, most: nat)
    ensures
        parsed_number(s, most) matches Some(n) ==> {
            let digits = if s[0] == '+' {
                s.skip(1)
            } else {
                s
            };
            &&& n <= most
            &&& digits.len() > 0
            &&& forall|i: int| 0 <= i < digits.len() ==> '0' <= #[trigger] digits[i] <= '9'
            &&& digits.len() > 1 ==> exists|shorter: nat| #[trigger]
                parsed_number(s.drop_last(), most) == Some(shorter) && n == shorter * 10 + (
                s.last() as int - '0' as int)
            &&& digits.len() == 1 ==> n == digits[0] as int - '0' as int
        },
        s.len() == 0 ==> parsed_number(s, most) is None,
{
    if parsed_number(s, most) is Some {
        let digits = unsigned_digits(s);
        let shown = if s[0] == '+' {
            s.skip(1)
        } else {
            s
        };
        assert(s.len() > 0);
        assert(shown =~= digits);
        if digits.len() > 1 {
            let less = s.drop_last();
            assert(unsigned_digits(less) =~= digits.drop_last());
            let shorter = digits.drop_last();
            assert forall|i: int| 0 <= i < shorter.len() implies '0' <= #[trigger] shorter[i]
                <= '9' by {
                assert(shorter[i] == digits[i]);
            }
            lemma_digits_grow(digits, digits.len() - 1);
            assert(digits.take(digits.len() - 1) =~= shorter);
            assert(digits.last() == s.last());
            assert('0' <= digits[digits.len() - 1] <= '9');
            assert(parsed_number(less, most) == Some(digits_value(shorter)));
        }
        if digits.len() == 1 {
            assert(digits.drop_last() =~= Seq::<char>::empty());
            assert(digits_value(Seq::<char>::empty()) == 0);
            assert('0' <= digits[0] <= '9');
        }
    }
}

} // verus!
