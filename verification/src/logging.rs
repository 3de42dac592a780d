//! Changing how much is logged while the daemon runs.
use vstd::prelude::*;

use vstd::utf8::{encode_utf8, is_char_boundary};

use crate::fspath::{split_at, split_text, texts};
use crate::text::{chars_of, decimal, push_number, text_of, trim_text, trimmed};

verus! {

/// A parsed filter of the `tracing_subscriber` crate.
#[verifier::external_type_specification]
#[verifier::external_body]
pub struct ExEnvFilter(tracing_subscriber::EnvFilter);

/// The longest filter that is accepted, in bytes.
pub const MAX_FILTER_LEN: usize = 1024;

/// Why `tracing_subscriber::EnvFilter::try_new` does not take a text for a
/// filter; `None` where it does.
pub uninterp spec fn filter_failure(filter: Seq<char>) -> Option<Seq<char>>;

/// The text that a filter was parsed from.
pub uninterp spec fn filter_source(filter: tracing_subscriber::EnvFilter) -> Seq<char>;

/// The first place from `from` on where a text holds one of two characters; its
/// length where it holds neither.
pub open spec fn next_of(s: Seq<char>, from: int, a: char, b: char) -> int
    decreases s.len() - from,
{
    if from >= s.len() {
        s.len() as int
    } else if s[from] == a || s[from] == b {
        from
    } else {
        next_of(s, from + 1, a, b)
    }
}

/// Whether a directive, without the white space around it, is cut before place
/// `k`: where its target ends and its level begins, and likewise its span, the
/// span's fields and a level behind them.
pub open spec fn is_cut(s: Seq<char>, k: int) -> bool {
    let target_end = next_of(s, 0, '=', '[');
    let span_end = next_of(s, target_end + 1, ']', '{');
    let has_span = target_end < s.len() && s[target_end] == '[' && span_end < s.len();
    let has_fields = has_span && s[span_end] == '{';
    let fields_end = next_of(s, span_end + 1, '}', '}');
    let shut = if has_fields {
        fields_end + 1
    } else {
        span_end
    };
    ||| target_end < s.len() && target_end <= k <= target_end + 1
    ||| has_span && k == span_end
    ||| has_fields && fields_end < s.len() && (k == span_end + 1 || k == fields_end)
    ||| has_span && shut + 1 < s.len() && s[shut + 1] == '=' && k == shut + 2
}

/// Whether a directive holds a character across the place that is as many bytes
/// from its beginning as the cut at `k` is from behind its leading white space.
pub open spec fn is_torn(directive: Seq<char>, k: int) -> bool {
    is_cut(trimmed(directive), k) && !is_char_boundary(
        encode_utf8(directive),
        encode_utf8(trimmed(directive).take(k)).len() as int,
    )
}

/// Whether the white space before a directive shifts one of its cuts into the
/// middle of a character.
pub open spec fn is_shifted(directive: Seq<char>) -> bool {
    exists|k: int| is_torn(directive, k)
}

/// Whether the white space before some directive of a filter shifts one of its
/// cuts into the middle of a character. The directives stand between commas.
pub open spec fn has_shifted(filter: Seq<char>) -> bool {
    exists|i: int|
        0 <= i < split_at(filter, ',').len() && is_shifted(#[trigger] split_at(filter, ',')[i])
}

/// `tracing_subscriber::EnvFilter::try_new` parses the directives of a filter;
/// which texts are filters, and what a filter lets through, is not stated, but what
/// comes back is made of the text that was given. It counts bytes from behind a
/// directive's leading white space and cuts the directive that many bytes from
/// before it, and panics where that is in the middle of a character, so no such
/// directive is handed to it.
#[verifier::external_body]
fn parse_filter(filter: &str) -> (r: Result<tracing_subscriber::EnvFilter, String>)
    requires
        !has_shifted(filter@),
    ensures
        match r {
            Ok(f) => filter_failure(filter@) is None && filter_source(f) == filter@,
            Err(e) => filter_failure(filter@) == Some(e@),
        },
{
    tracing_subscriber::EnvFilter::try_new(filter).map_err(|e| e.to_string())
}

/// The first place from `from` on where a text holds one of two characters.
fn find_next(chars: &Vec<char>, from: usize, a: char, b: char) -> (r: usize)
    requires
        from <= chars.len(),
    ensures
        from <= r <= chars.len(),
        r == next_of(chars@, from as int, a, b),
{
    let mut k: usize = from;
    while k < chars.len() && chars[k] != a && chars[k] != b
        invariant
            from <= k <= chars.len(),
            next_of(chars@, from as int, a, b) == next_of(chars@, k as int, a, b),
        decreases chars.len() - k,
    {
        k = k + 1;
    }
    k
}

/// Whether the cut at `k` falls into the middle of a character.
fn tears(directive: &str, chars: &Vec<char>, k: usize) -> (r: bool)
    requires
        chars@ == trimmed(directive@),
        k <= chars.len(),
        is_cut(chars@, k as int),
    ensures
        r == is_torn(directive@, k as int),
{
    let before = text_of(chars, 0, k);
    assert(before@ =~= chars@.take(k as int));
    !directive.is_char_boundary(before.as_str().as_bytes().len())
}

/// Whether the white space before a directive shifts one of its cuts into the
/// middle of a character.
fn directive_is_shifted(directive: &str) -> (r: bool)
    ensures
        r == is_shifted(directive@),
{
    let text = trim_text(directive);
    let chars = chars_of(text.as_str());
    let n = chars.len();
    let target_end = find_next(&chars, 0, '=', '[');
    if target_end == n {
        return false;
    }
    if tears(directive, &chars, target_end) || tears(directive, &chars, target_end + 1) {
        return true;
    }
    if chars[target_end] != '[' {
        return false;
    }
    let span_end = find_next(&chars, target_end + 1, ']', '{');
    if span_end == n {
        return false;
    }
    if tears(directive, &chars, span_end) {
        return true;
    }
    let mut shut: usize = span_end;
    if chars[span_end] == '{' {
        let fields_end = find_next(&chars, span_end + 1, '}', '}');
        if fields_end == n {
            return false;
        }
        if tears(directive, &chars, span_end + 1) || tears(directive, &chars, fields_end) {
            return true;
        }
        shut = fields_end + 1;
    }
    if shut < n && shut + 1 < n && chars[shut + 1] == '=' {
        return tears(directive, &chars, shut + 2);
    }
    false
}

/// Whether the white space before some directive of a filter shifts one of its
/// cuts into the middle of a character.
fn filter_is_shifted(filter: &str) -> (r: bool)
    ensures
        r == has_shifted(filter@),
{
    let directives = split_text(filter, ',');
    let mut i: usize = 0;
    while i < directives.len()
        invariant
            texts(directives@) == split_at(filter@, ','),
            0 <= i <= directives.len(),
            forall|k: int| 0 <= k < i ==> !is_shifted(#[trigger] split_at(filter@, ',')[k]),
        decreases directives.len() - i,
    {
        assert(split_at(filter@, ',')[i as int] == directives@[i as int]@);
        if directive_is_shifted(directives[i].as_str()) {
            return true;
        }
        i = i + 1;
    }
    assert(directives.len() == split_at(filter@, ',').len());
    false
}

/// Why a filter is refused; `None` where it is not. Any word is a filter, so
/// the length has to be bounded: the text is kept.
pub open spec fn refusal(filter: Seq<char>) -> Option<Seq<char>> {
    let len = encode_utf8(filter).len() as usize;
    if len > MAX_FILTER_LEN {
        Some(
            "filter is "@ + decimal(len as nat) + " bytes, over the "@ + decimal(
                MAX_FILTER_LEN as nat,
            ) + "-byte limit"@,
        )
    } else if has_shifted(filter) {
        Some("a directive is cut inside a character by the white space before it"@)
    } else {
        filter_failure(filter)
    }
}

/// The filter that is in force, in the words in which it was asked for.
pub struct LogLevelHandle {
    current: String,
}

impl LogLevelHandle {
    /// The filter that is in force.
    pub closed spec fn filter(&self) -> Seq<char> {
        self.current@
    }

    pub fn new(initial: String) -> (r: LogLevelHandle)
        ensures
            r.filter() == initial@,
    {
        LogLevelHandle { current: initial }
    }

    /// The filter that is in force.
    pub fn current(&self) -> (r: String)
        ensures
            r@ == self.filter(),
    {
        self.current.clone()
    }

    /// Parse a filter before it is put in force: one that is refused never gets so
    /// far, and what is handed out is that very filter.
    pub fn check(&self, filter: &str) -> (r: Result<tracing_subscriber::EnvFilter, String>)
        ensures
            match r {
                Ok(f) => refusal(filter@) is None && filter_source(f) == filter@,
                Err(e) => refusal(filter@) == Some(e@),
            },
    {
        if filter.len() > MAX_FILTER_LEN {
            let mut words = "filter is ".to_owned();
            push_number(&mut words, filter.len() as u64);
            words.append(" bytes, over the ");
            push_number(&mut words, MAX_FILTER_LEN as u64);
            words.append("-byte limit");
            return Err(words);
        }
        if filter_is_shifted(filter) {
            return Err("a directive is cut inside a character by the white space before it".to_owned());
        }
        parse_filter(filter)
    }

    /// Record what came of putting a filter in force. Where that failed, the
    /// filter that was in force stays.
    pub fn installed(&mut self, filter: &str, outcome: Result<(), String>) -> (r: Result<(), String>)
        ensures
            r == outcome,
            final(self).filter() == (if outcome is Ok {
                filter@
            } else {
                old(self).filter()
            }),
    {
        if outcome.is_ok() {
            self.current = filter.to_owned();
        }
        outcome
    }
}

// Laws.

/// A filter of more than 1024 bytes is refused, whatever it says; a shorter one that no
/// white space shifts is refused only where it is no filter.
pub proof fn a_filter_is_refused_for_its_length_or_its_form(filter: Seq<char>)
    requires
        encode_utf8(filter).len() <= usize::MAX,
    ensures
        encode_utf8(filter).len() > 1024 ==> refusal(filter) is Some,
        encode_utf8(filter).len() <= 1024 && !has_shifted(filter) ==> refusal(filter)
            == filter_failure(filter),
        has_shifted(filter) ==> refusal(filter) is Some,
{
}

} // verus!
