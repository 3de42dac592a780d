//! Talking to a daemon that already runs: the request that is sent, what is
//! made of the response, and what to do about the directories it watches.
use vstd::prelude::*;

use vstd::utf8::encode_utf8;

use crate::enrich_worker::{json_list, to_json_list};
use crate::fspath::{split_at, split_text, texts};
use crate::text::{
    a_line_ends_at_the_first_break, a_number_written_is_read_back,
    a_text_begins_with_what_stands_in_front, all_digits, ascii_small, begins, chars_of, decimal,
    ends, first_line, first_line_of, is_blank, is_white, is_word, lemma_decimal, nth_word,
    parse_number, parsed_number, push_number, same_text, text_begins, text_of, trim_text, trimmed,
    word_at, words_come_in_order, words_of,
};
use crate::watch_control::WatchMode;

verus! {

// Requests and responses.

/// A request to the daemon.
pub open spec fn request_of(
    method: Seq<char>,
    path: Seq<char>,
    host: Seq<char>,
    body: Seq<char>,
) -> Seq<char> {
    method + " "@ + path + " HTTP/1.1\r\nHost: "@ + host
        + "\r\nConnection: close\r\nContent-Type: application/json\r\nContent-Length: "@ + decimal(
        encode_utf8(body).len() as usize as nat,
    ) + "\r\n\r\n"@ + body
}

/// A request to the daemon. It asks for the connection to be closed, so that
/// the response can be read to its end.
pub fn request_text(method: &str, path: &str, host: &str, body: &str) -> (r: String)
    ensures
        r@ == request_of(method@, path@, host@, body@),
{
    let mut out = method.to_owned();
    out.append(" ");
    out.append(path);
    out.append(" HTTP/1.1\r\nHost: ");
    out.append(host);
    out.append("\r\nConnection: close\r\nContent-Type: application/json\r\nContent-Length: ");
    push_number(&mut out, body.len() as u64);
    out.append("\r\n\r\n");
    out.append(body);
    assert(out@ =~= request_of(method@, path@, host@, body@));
    out
}

/// The status code of a response: the second word of its first line, whatever
/// version of the protocol it names.
pub open spec fn status_code(response: Seq<char>) -> Option<nat> {
    match word_at(first_line(response), 1) {
        Some(word) => parsed_number(word, 65_535),
        None => None,
    }
}

/// The status code of a response.
pub fn status_of(response: &str) -> (r: Option<u16>)
    ensures
        match status_code(response@) {
            Some(n) => r is Some && r.unwrap() == n,
            None => r is None,
        },
{
    let line = first_line_of(response);
    match nth_word(line.as_str(), 1) {
        Some(word) => match parse_number(word.as_str(), 65_535) {
            Some(n) => Some(n as u16),
            None => None,
        },
        None => None,
    }
}

/// Whether a response has the given status code.
pub fn status_is(response: &str, code: u16) -> (r: bool)
    ensures
        r == (status_code(response@) == Some(code as nat)),
{
    match status_of(response) {
        Some(n) => n == code,
        None => false,
    }
}

/// Whether an empty line ends the head of a response at position `k`.
pub open spec fn head_ends_at(response: Seq<char>, k: int) -> bool {
    0 <= k && k + 4 <= response.len() && response[k] == '\r' && response[k + 1] == '\n'
        && response[k + 2] == '\r' && response[k + 3] == '\n'
}

/// Where the head of a response ends, looked for from position `from` on.
pub open spec fn head_end(response: Seq<char>, from: int) -> Option<int>
    decreases response.len() - from,
{
    if from < 0 || from + 4 > response.len() {
        None
    } else if head_ends_at(response, from) {
        Some(from)
    } else {
        head_end(response, from + 1)
    }
}

/// The body of a response: what comes behind the first empty line.
pub open spec fn body_of(response: Seq<char>) -> Seq<char> {
    match head_end(response, 0) {
        Some(k) => response.skip(k + 4),
        None => Seq::empty(),
    }
}

/// The head of a response: what comes before the first empty line.
pub open spec fn head_of(response: Seq<char>) -> Seq<char> {
    match head_end(response, 0) {
        Some(k) => response.take(k),
        None => response,
    }
}

/// The head and the body of a response.
pub fn split_response(response: &str) -> (r: (String, String))
    ensures
        r.0@ == head_of(response@),
        r.1@ == body_of(response@),
{
    let chars = chars_of(response);
    let mut k: usize = 0;
    while chars.len() >= 4 && k <= chars.len() - 4
        invariant
            k <= chars.len(),
            chars@ == response@,
            head_end(response@, 0) == head_end(response@, k as int),
        decreases chars.len() - k,
    {
        if chars[k] == '\r' && chars[k + 1] == '\n' && chars[k + 2] == '\r' && chars[k + 3]
            == '\n' {
            let head = text_of(&chars, 0, k);
            let body = text_of(&chars, k + 4, chars.len());
            assert(response@.subrange(0, k as int) =~= response@.take(k as int));
            assert(response@.subrange(k + 4, response@.len() as int) =~= response@.skip(k + 4));
            return (head, body);
        }
        k = k + 1;
    }
    (response.to_owned(), String::new())
}

/// Whether `r` is what a response says: its body where it succeeded, and
/// otherwise what went wrong with the given request.
pub open spec fn is_read(
    r: Result<String, String>,
    request: Seq<char>,
    response: Seq<char>,
) -> bool {
    match status_code(head_of(response)) {
        None => r matches Err(e) && e@ == "parsing the response status line"@,
        Some(n) => if n == 200 {
            r matches Ok(body) && body@ == body_of(response)
        } else {
            r matches Err(e) && e@ == request + " returned "@ + decimal(n) + ": "@ + body_of(
                response,
            )
        },
    }
}

/// Read a response to a request that is named in words.
pub fn read_response(request: &str, response: &str) -> (r: Result<String, String>)
    ensures
        is_read(r, request@, response@),
{
    let (head, body) = split_response(response);
    match status_of(head.as_str()) {
        None => Err("parsing the response status line".to_owned()),
        Some(n) => {
            if n == 200 {
                Ok(body)
            } else {
                let mut words = request.to_owned();
                words.append(" returned ");
                push_number(&mut words, n as u64);
                words.append(": ");
                words.append(body.as_str());
                Err(words)
            }
        },
    }
}

/// How a kind of change is written in a request.
pub open spec fn mode_text(mode: WatchMode) -> Seq<char> {
    match mode {
        WatchMode::Add => "add"@,
        WatchMode::Replace => "replace"@,
    }
}

/// The body of a request to change the watched directories.
pub open spec fn change_of(mode: WatchMode, roots: Seq<Seq<char>>) -> Seq<char> {
    "{\"mode\":\""@ + mode_text(mode) + "\",\"roots\":"@ + json_list(roots) + "}"@
}

/// The body of a request to change the watched directories.
pub fn change_body(mode: WatchMode, roots: &Vec<String>) -> (r: String)
    ensures
        r@ == change_of(mode, texts(roots@)),
{
    let mut out = "{\"mode\":\"".to_owned();
    match mode {
        WatchMode::Add => out.append("add"),
        WatchMode::Replace => out.append("replace"),
    }
    out.append("\",\"roots\":");
    let list = to_json_list(roots);
    out.append(list.as_str());
    out.append("}");
    out
}

// What to do about a daemon that runs.

/// What to do where directories are given and a daemon already runs.
#[derive(Debug, Clone, Copy, PartialEq, Eq, Structural)]
pub enum OnRunning {
    Add,
    Replace,
    Cancel,
}

/// A text with its ASCII capitals made small.
pub open spec fn small(s: Seq<char>) -> Seq<char> {
    s.map_values(|c: char| ascii_small(c))
}

fn small_char(c: char) -> (r: char)
    ensures
        r == ascii_small(c),
{
    if 'A' <= c && c <= 'Z' {
        (c as u8 + 32u8) as char
    } else {
        c
    }
}

/// What an answer means. One that is not understood changes nothing.
pub open spec fn meaning(line: Seq<char>) -> OnRunning {
    let answer = small(trimmed(line));
    if answer == "a"@ || answer == "add"@ {
        OnRunning::Add
    } else if answer == "r"@ || answer == "replace"@ {
        OnRunning::Replace
    } else {
        OnRunning::Cancel
    }
}

/// What an answer to the question whether to add or to replace means.
pub fn understand(line: &str) -> (r: OnRunning)
    ensures
        r == meaning(line@),
{
    let whole = trim_text(line);
    let chars = chars_of(whole.as_str());
    let mut answer = String::new();
    let mut k: usize = 0;
    while k < chars.len()
        invariant
            0 <= k <= chars.len(),
            chars@ == trimmed(line@),
            answer@ =~= small(trimmed(line@)).take(k as int),
        decreases chars.len() - k,
    {
        answer.push(small_char(chars[k]));
        k = k + 1;
    }
    assert(answer@ =~= small(trimmed(line@)));
    let answer = answer.as_str();
    if same_text(answer, "a") || same_text(answer, "add") {
        OnRunning::Add
    } else if same_text(answer, "r") || same_text(answer, "replace") {
        OnRunning::Replace
    } else {
        OnRunning::Cancel
    }
}

/// What to do next about a daemon that already runs.
#[derive(Debug, Clone, Copy, PartialEq, Eq, Structural)]
pub enum Reconcile {
    /// Show what it watches.
    Report,
    /// Ask whether to add or to replace.
    Ask,
    /// Give up: there is no one to ask.
    Refuse,
    /// Leave it as it is.
    Leave,
    /// Make a change.
    Change(WatchMode),
}

/// What to do next about a daemon that already runs. Nothing is changed that
/// was not asked for, on the command line or in an answer.
pub open spec fn reconciliation(
    has_roots: bool,
    on_running: Option<OnRunning>,
    terminal: bool,
) -> Reconcile {
    if !has_roots {
        Reconcile::Report
    } else {
        match on_running {
            Some(OnRunning::Add) => Reconcile::Change(WatchMode::Add),
            Some(OnRunning::Replace) => Reconcile::Change(WatchMode::Replace),
            Some(OnRunning::Cancel) => Reconcile::Leave,
            None => if terminal {
                Reconcile::Ask
            } else {
                Reconcile::Refuse
            },
        }
    }
}

/// What to do next about a daemon that already runs.
pub fn reconcile(has_roots: bool, on_running: Option<OnRunning>, terminal: bool) -> (r: Reconcile)
    ensures
        r == reconciliation(has_roots, on_running, terminal),
{
    if !has_roots {
        return Reconcile::Report;
    }
    match on_running {
        Some(OnRunning::Add) => Reconcile::Change(WatchMode::Add),
        Some(OnRunning::Replace) => Reconcile::Change(WatchMode::Replace),
        Some(OnRunning::Cancel) => Reconcile::Leave,
        None => {
            if terminal {
                Reconcile::Ask
            } else {
                Reconcile::Refuse
            }
        },
    }
}

/// A running daemon is changed only where that was asked for in so many words.
pub proof fn nothing_is_changed_unasked(
    has_roots: bool,
    on_running: Option<OnRunning>,
    terminal: bool,
    line: Seq<char>,
)
    ensures
        reconciliation(has_roots, on_running, terminal) is Change ==> has_roots && (on_running
            == Some(OnRunning::Add) || on_running == Some(OnRunning::Replace)),
        has_roots && on_running is None && !terminal ==> reconciliation(
            has_roots,
            on_running,
            terminal,
        ) == Reconcile::Refuse,
        meaning(line) == OnRunning::Replace ==> small(trimmed(line)) == "r"@ || small(
            trimmed(line),
        ) == "replace"@,
{
}

/// Directories, one on a line of its own; a line that says so where there are
/// none.
pub open spec fn roots_lines(roots: Seq<Seq<char>>) -> Seq<char>
    decreases roots.len(),
{
    if roots.len() == 0 {
        "  (nothing yet)\n"@
    } else if roots.len() == 1 {
        "  "@ + roots[0] + "\n"@
    } else {
        roots_lines(roots.drop_last()) + "  "@ + roots.last() + "\n"@
    }
}

/// Directories, one on a line of its own.
pub fn print_roots(roots: &Vec<String>) -> (r: String)
    ensures
        r@ == roots_lines(texts(roots@)),
{
    let ghost all = texts(roots@);
    assert(all.len() == roots.len());
    if roots.len() == 0 {
        return "  (nothing yet)\n".to_owned();
    }
    let mut out = String::new();
    let mut k: usize = 0;
    while k < roots.len()
        invariant
            0 <= k <= roots.len(),
            all == texts(roots@),
            k == 0 ==> out@ == Seq::<char>::empty(),
            k > 0 ==> out@ == roots_lines(all.take(k as int)),
        decreases roots.len() - k,
    {
        let ghost before = out@;
        proof {
            assert(all.take(k + 1).drop_last() =~= all.take(k as int));
            assert(all.take(k + 1).last() == roots@[k as int]@);
            if k == 0 {
                assert(all.take(1)[0] == roots@[0]@);
            }
        }
        out.append("  ");
        out.append(roots[k].as_str());
        out.append("\n");
        assert(out@ =~= roots_lines(all.take(k + 1)));
        k = k + 1;
    }
    assert(all.take(roots.len() as int) =~= all);
    out
}

// The file that tells where a daemon runs.

/// The name of the file, in the data directory, that tells where a daemon runs.
pub const PIDFILE_NAME: &'static str = "dafs.pid";

/// Where a daemon runs.
#[derive(Debug, Clone, PartialEq, Eq)]
pub struct PidFile {
    pub pid: u32,
    pub listen: String,
}

/// What a file that tells where a daemon runs is worth.
#[derive(Debug)]
pub enum Finding {
    /// There is none, or it cannot be read: no daemon.
    Nothing,
    /// A daemon runs there.
    Live(PidFile),
    /// The daemon is gone: the file is to be removed.
    Stale,
}

/// Tell a daemon that runs from one that is gone and from none at all.
pub fn judge(found: Option<PidFile>, alive: bool) -> (r: Finding)
    ensures
        r == (match found {
            None => Finding::Nothing,
            Some(pidfile) => if alive {
                Finding::Live(pidfile)
            } else {
                Finding::Stale
            },
        }),
{
    match found {
        None => Finding::Nothing,
        Some(pidfile) => {
            if alive {
                Finding::Live(pidfile)
            } else {
                Finding::Stale
            }
        },
    }
}

// Updating.

/// The arguments that the installer gets: to look for an update, or to put the
/// new program where this one lies.
pub open spec fn installer_arguments(
    check_only: bool,
    current_exe: Seq<char>,
    release: Seq<char>,
) -> Seq<Seq<char>> {
    if check_only {
        seq!["--check-only"@, "--current-version"@, release]
    } else {
        seq![
            "--self-update"@,
            "--target-path"@,
            current_exe,
            "--current-version"@,
            release,
        ]
    }
}

/// The arguments that the installer gets.
pub fn self_update_script_args(check_only: bool, current_exe: &str, release: &str) -> (r: Vec<String>)
    ensures
        texts(r@) == installer_arguments(check_only, current_exe@, release@),
{
    let mut args: Vec<String> = Vec::new();
    if check_only {
        args.push("--check-only".to_owned());
    } else {
        args.push("--self-update".to_owned());
        args.push("--target-path".to_owned());
        args.push(current_exe.to_owned());
    }
    args.push("--current-version".to_owned());
    args.push(release.to_owned());
    assert(texts(args@) =~= installer_arguments(check_only, current_exe@, release@));
    args
}

/// What the installer's exit code means.
#[derive(Debug, Clone, Copy, PartialEq, Eq, Structural)]
pub enum Updated {
    /// All is well.
    Done,
    /// There is an update, and it was only looked for.
    Available,
    /// It failed.
    Failed,
}

/// What the installer's exit code means.
pub fn read_exit_code(code: Option<i32>, check_only: bool) -> (r: Updated)
    ensures
        r == (if code == Some(0i32) {
            Updated::Done
        } else if code == Some(3i32) && check_only {
            Updated::Available
        } else {
            Updated::Failed
        }),
{
    match code {
        Some(n) => {
            if n == 0 {
                Updated::Done
            } else if n == 3 && check_only {
                Updated::Available
            } else {
                Updated::Failed
            }
        },
        None => Updated::Failed,
    }
}

// Memory.

/// The size of a page of memory, in bytes.
pub const PAGE_SIZE: u64 = 4096;

/// The bytes that a process occupies, by what the system says of it: the second
/// number, in pages.
pub open spec fn resident(statm: Seq<char>) -> Option<nat> {
    match word_at(statm, 1) {
        Some(word) => match parsed_number(word, u64::MAX as nat) {
            Some(pages) => if pages * 4096 <= u64::MAX {
                Some(pages * 4096)
            } else {
                None
            },
            None => None,
        },
        None => None,
    }
}

/// The bytes that a process occupies, or `None` where that cannot be read.
pub fn resident_bytes(statm: &str) -> (r: Option<u64>)
    ensures
        match resident(statm@) {
            Some(n) => r is Some && r.unwrap() == n,
            None => r is None,
        },
{
    match nth_word(statm, 1) {
        Some(word) => match parse_number(word.as_str(), u64::MAX) {
            Some(pages) => {
                if pages <= u64::MAX / PAGE_SIZE {
                    Some(pages * PAGE_SIZE)
                } else {
                    None
                }
            },
            None => None,
        },
        None => None,
    }
}

/// What follows the name of a field on the first of the lines that begins with
/// it.
pub open spec fn field_in(lines: Seq<Seq<char>>, field: Seq<char>) -> Option<Seq<char>>
    decreases lines.len(),
{
    if lines.len() == 0 {
        None
    } else if begins(lines[0], field) {
        Some(lines[0].skip(field.len() as int))
    } else {
        field_in(lines.drop_first(), field)
    }
}

/// The bytes that a field of a process's status gives in kilobytes.
pub open spec fn field_bytes(status: Seq<char>, field: Seq<char>) -> Option<nat> {
    match field_in(split_at(status, '\n'), field) {
        Some(rest) => match word_at(rest, 0) {
            Some(word) => match parsed_number(word, u64::MAX as nat) {
                Some(kb) => if kb * 1024 <= u64::MAX {
                    Some(kb * 1024)
                } else {
                    None
                },
                None => None,
            },
            None => None,
        },
        None => None,
    }
}

/// The bytes that a field of a process's status gives, or `None` where that
/// cannot be read.
pub fn status_bytes(status: &str, field: &str) -> (r: Option<u64>)
    ensures
        match field_bytes(status@, field@) {
            Some(n) => r is Some && r.unwrap() == n,
            None => r is None,
        },
{
    let lines = split_text(status, '\n');
    let ghost all = texts(lines@);
    let mut k: usize = 0;
    assert(all.skip(0) =~= all);
    while k < lines.len()
        invariant
            0 <= k <= lines.len(),
            all == texts(lines@),
            all == split_at(status@, '\n'),
            field_in(all, field@) == field_in(all.skip(k as int), field@),
        decreases lines.len() - k,
    {
        assert(all.skip(k as int)[0] == lines@[k as int]@);
        assert(all.skip(k as int).drop_first() =~= all.skip(k + 1));
        if text_begins(lines[k].as_str(), field) {
            let chars = chars_of(lines[k].as_str());
            let start = chars_of(field).len();
            let rest = text_of(&chars, start, chars.len());
            assert(rest@ =~= lines@[k as int]@.skip(start as int));
            return match nth_word(rest.as_str(), 0) {
                Some(word) => match parse_number(word.as_str(), u64::MAX) {
                    Some(kb) => {
                        if kb <= u64::MAX / 1024 {
                            Some(kb * 1024)
                        } else {
                            None
                        }
                    },
                    None => None,
                },
                None => None,
            };
        }
        k = k + 1;
    }
    None
}

// Laws.

/// The status of a response is the number behind the first word of its first line,
/// whatever follows.
pub proof fn the_status_is_the_second_word(
    version: Seq<char>,
    gap: Seq<char>,
    code: nat,
    reason: Seq<char>,
    rest: Seq<char>,
)
    requires
        is_word(version),
        is_blank(gap),
        gap.len() > 0,
        !version.contains('\n'),
        !gap.contains('\n'),
        !reason.contains('\n'),
        reason.len() > 0 ==> is_white(reason[0]),
    ensures
        status_code(version + gap + decimal(code) + reason + seq!['\n'] + rest) == (if code
            <= 65_535 {
            Some(code)
        } else {
            None
        }),
{
    let number = decimal(code);
    let line = version + gap + number + reason;
    lemma_decimal(code);
    lemma_second_word(version, gap, number, reason);
    a_number_written_is_read_back(code, 65_535);
    assert(!line.contains('\n')) by {
        assert forall|i: int| 0 <= i < line.len() implies #[trigger] line[i] != '\n' by {
            let a = version.len();
            let b = a + gap.len();
            let c = b + number.len();
            if i < a {
                assert(version.contains(version[i]));
            } else if i < b {
                assert(gap.contains(gap[i - a]));
            } else if i < c {
                assert('0' <= number[i - b] <= '9');
            } else {
                assert(reason.contains(reason[i - c]));
            }
        }
    }
    a_line_ends_at_the_first_break(line, rest);
    assert(version + gap + number + reason + seq!['\n'] + rest =~= line + seq!['\n'] + rest);
}

/// The second word of a text.
proof fn lemma_second_word(first: Seq<char>, gap: Seq<char>, second: Seq<char>, rest: Seq<char>)
    requires
        is_word(first),
        is_blank(gap),
        gap.len() > 0,
        second.len() > 0,
        all_digits(second),
        rest.len() > 0 ==> is_white(rest[0]),
    ensures
        word_at(first + gap + second + rest, 1) == Some(second),
{
    assert(is_word(second)) by {
        assert forall|i: int| 0 <= i < second.len() implies !is_white(#[trigger] second[i]) by {
            assert('0' <= second[i] <= '9');
        }
    }
    let nothing = Seq::<char>::empty();
    let behind = gap + second + rest;
    assert(is_white(gap[0]));
    assert(behind[0] == gap[0]);
    words_come_in_order(nothing, first, behind);
    words_come_in_order(gap, second, rest);
    let s = first + gap + second + rest;
    assert(nothing + first + behind =~= s);
    assert(words_of(s) == seq![first] + (seq![second] + words_of(rest)));
    assert(words_of(s)[1] == second);
}

/// The body of a response is what follows its first empty line, and its head what comes
/// before. A response without one is all head.
pub proof fn the_body_follows_the_first_empty_line(head: Seq<char>, body: Seq<char>)
    requires
        forall|k: int| 0 <= k < head.len() ==> !head_ends_at(head + seq!['\r', '\n', '\r'], k),
    ensures
        head_of(head + seq!['\r', '\n', '\r', '\n'] + body) == head,
        body_of(head + seq!['\r', '\n', '\r', '\n'] + body) == body,
        head_of(head) == head,
        body_of(head) == Seq::<char>::empty(),
{
    let response = head + seq!['\r', '\n', '\r', '\n'] + body;
    let begun = head + seq!['\r', '\n', '\r'];
    assert forall|k: int| 0 <= k < head.len() implies !head_ends_at(response, k) by {
        if head_ends_at(response, k) {
            assert(begun[k] == response[k]);
            assert(begun[k + 1] == response[k + 1]);
            assert(begun[k + 2] == response[k + 2]);
            if k + 3 < begun.len() {
                assert(begun[k + 3] == response[k + 3]);
            }
            assert(head_ends_at(begun, k));
        }
    }
    assert(head_ends_at(response, head.len() as int));
    lemma_head_end(response, 0, head.len() as int);
    assert(response.skip((head.len() + 4) as int) =~= body);
    assert(response.take(head.len() as int) =~= head);
    assert forall|k: int| 0 <= k < head.len() implies !head_ends_at(head, k) by {
        if head_ends_at(head, k) {
            assert(begun[k] == head[k] && begun[k + 1] == head[k + 1]);
            assert(begun[k + 2] == head[k + 2] && begun[k + 3] == head[k + 3]);
            assert(head_ends_at(begun, k));
        }
    }
    lemma_no_head_end(head, 0);
}

proof fn lemma_head_end(response: Seq<char>, from: int, k: int)
    requires
        0 <= from <= k,
        head_ends_at(response, k),
        forall|j: int| from <= j < k ==> !head_ends_at(response, j),
    ensures
        head_end(response, from) == Some(k),
    decreases k - from,
{
    if from < k {
        assert(!head_ends_at(response, from));
        lemma_head_end(response, from + 1, k);
    }
}

proof fn lemma_no_head_end(response: Seq<char>, from: int)
    requires
        0 <= from,
        forall|j: int| 0 <= j < response.len() ==> !head_ends_at(response, j),
    ensures
        head_end(response, from) is None,
    decreases response.len() - from,
{
    if from + 4 <= response.len() {
        assert(!head_ends_at(response, from));
        lemma_no_head_end(response, from + 1);
    }
}

/// A response is taken for a success exactly where its status is 200; what is given back
/// is then its body, and otherwise words that end in it.
pub proof fn only_a_success_is_taken(r: Result<String, String>, request: Seq<char>, response: Seq<char>)
    requires
        is_read(r, request, response),
    ensures
        r is Ok <==> status_code(head_of(response)) == Some(200nat),
        r is Ok ==> r->Ok_0@ == body_of(response),
        r is Err && status_code(head_of(response)) is Some ==> begins(r->Err_0@, request) && ends(
            r->Err_0@,
            body_of(response),
        ),
{
    if r is Err && status_code(head_of(response)) is Some {
        let n = status_code(head_of(response))->0;
        let middle = " returned "@ + decimal(n) + ": "@;
        assert(r->Err_0@ =~= request + (middle + body_of(response)));
        assert(r->Err_0@ =~= (request + middle) + body_of(response));
        a_text_begins_with_what_stands_in_front(r->Err_0@, request, middle + body_of(response));
        a_text_begins_with_what_stands_in_front(r->Err_0@, body_of(response), request + middle);
    }
}

/// An answer means what it says: one letter or the whole word, in any letter case, with
/// white space around it; anything else means that nothing is to be done. What was asked
/// for is then done, and nothing else.
pub proof fn what_is_asked_for_is_done(line: Seq<char>, terminal: bool)
    ensures
        meaning(line) == OnRunning::Add <==> small(trimmed(line)) == "a"@ || small(trimmed(line))
            == "add"@,
        meaning(line) == OnRunning::Replace <==> small(trimmed(line)) == "r"@ || small(
            trimmed(line),
        ) == "replace"@,
        reconciliation(true, Some(OnRunning::Add), terminal) == Reconcile::Change(WatchMode::Add),
        reconciliation(true, Some(OnRunning::Replace), terminal) == Reconcile::Change(
            WatchMode::Replace,
        ),
        reconciliation(true, Some(OnRunning::Cancel), terminal) == Reconcile::Leave,
        reconciliation(true, None, true) == Reconcile::Ask,
        reconciliation(true, None, false) == Reconcile::Refuse,
        forall|asked: Option<OnRunning>| #[trigger]
            reconciliation(false, asked, terminal) == Reconcile::Report,
{
    reveal_strlit("a");
    reveal_strlit("add");
    reveal_strlit("r");
    reveal_strlit("replace");
    assert("a"@[0] == 'a' && "add"@[0] == 'a' && "r"@[0] == 'r' && "replace"@[0] == 'r');
}

/// Every directory has a line of its own, in their order.
pub proof fn every_root_has_a_line(roots: Seq<Seq<char>>, root: Seq<char>)
    ensures
        roots_lines(seq![root]) == "  "@ + root + "\n"@,
        roots.len() > 0 ==> roots_lines(roots.push(root)) == roots_lines(roots) + "  "@ + root
            + "\n"@,
{
    assert(roots.push(root).drop_last() =~= roots);
}

/// What a process occupies is the second number that the system gives, in pages of 4096
/// bytes.
pub proof fn memory_is_counted_in_pages(
    size: Seq<char>,
    gap: Seq<char>,
    pages: nat,
    rest: Seq<char>,
)
    requires
        is_word(size),
        is_blank(gap),
        gap.len() > 0,
        rest.len() > 0 ==> is_white(rest[0]),
        pages * 4096 <= u64::MAX,
    ensures
        resident(size + gap + decimal(pages) + rest) == Some(pages * 4096),
{
    lemma_decimal(pages);
    lemma_second_word(size, gap, decimal(pages), rest);
    a_number_written_is_read_back(pages, u64::MAX as nat);
}

/// A field of a process's status is told by the first line that begins with its name, in
/// kilobytes of 1024 bytes.
pub proof fn a_field_is_given_in_kilobytes(
    status: Seq<char>,
    field: Seq<char>,
    k: int,
    gap: Seq<char>,
    kilobytes: nat,
    rest: Seq<char>,
)
    requires
        0 <= k < split_at(status, '\n').len(),
        split_at(status, '\n')[k] == field + (gap + decimal(kilobytes) + rest),
        forall|j: int| 0 <= j < k ==> !begins(#[trigger] split_at(status, '\n')[j], field),
        is_blank(gap),
        rest.len() > 0 ==> is_white(rest[0]),
        kilobytes * 1024 <= u64::MAX,
    ensures
        field_bytes(status, field) == Some(kilobytes * 1024),
{
    let lines = split_at(status, '\n');
    let said = gap + decimal(kilobytes) + rest;
    let number = decimal(kilobytes);
    a_text_begins_with_what_stands_in_front(lines[k], field, said);
    lemma_field_in(lines, field, k);
    assert((field + said).skip(field.len() as int) =~= said);
    lemma_decimal(kilobytes);
    assert(is_word(number)) by {
        assert forall|i: int| 0 <= i < number.len() implies !is_white(#[trigger] number[i]) by {
            assert('0' <= number[i] <= '9');
        }
    }
    words_come_in_order(gap, number, rest);
    assert(words_of(said)[0] == number);
    a_number_written_is_read_back(kilobytes, u64::MAX as nat);
}

proof fn lemma_field_in(lines: Seq<Seq<char>>, field: Seq<char>, k: int)
    requires
        0 <= k < lines.len(),
        begins(lines[k], field),
        forall|j: int| 0 <= j < k ==> !begins(#[trigger] lines[j], field),
    ensures
        field_in(lines, field) == Some(lines[k].skip(field.len() as int)),
    decreases k,
{
    if k > 0 {
        assert(!begins(lines[0], field));
        let rest = lines.drop_first();
        assert forall|j: int| 0 <= j < k - 1 implies !begins(#[trigger] rest[j], field) by {
            assert(rest[j] == lines[j + 1]);
        }
        assert(rest[k - 1] == lines[k]);
        lemma_field_in(rest, field, k - 1);
    }
}

} // verus!
