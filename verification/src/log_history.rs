//! The last lines of the log, kept in memory so that they can be asked for.
use std::collections::VecDeque;
use vstd::prelude::*;

use vstd::utf8::{decode_utf8, pop_first_scalar, valid_first_scalar, valid_utf8, valid_utf8_concat};

use crate::fspath::{lemma_split_nonempty, split_at, split_text, texts};
use crate::text::text_from_utf8;

verus! {

/// How many lines are kept: the older ones are gone.
pub const CAPACITY: usize = 2000;

/// The lines once another one has come: an empty line does not count, and a
/// full ring loses its oldest line.
pub open spec fn pushed(lines: Seq<Seq<char>>, line: Seq<char>) -> Seq<Seq<char>> {
    if line.len() == 0 {
        lines
    } else if lines.len() >= CAPACITY {
        lines.drop_first().push(line)
    } else {
        lines.push(line)
    }
}

/// The lines once several more have come.
pub open spec fn pushed_all(lines: Seq<Seq<char>>, more: Seq<Seq<char>>) -> Seq<Seq<char>>
    decreases more.len(),
{
    if more.len() == 0 {
        lines
    } else {
        pushed(pushed_all(lines, more.drop_last()), more.last())
    }
}

/// Whether these can be the lines of a history: no more than fit, and none of
/// them empty.
pub open spec fn are_lines(lines: Seq<Seq<char>>) -> bool {
    &&& lines.len() <= CAPACITY
    &&& forall|i: int| 0 <= i < lines.len() ==> (#[trigger] lines[i]).len() > 0
}

/// The last `n` of a sequence.
pub open spec fn last_of(lines: Seq<Seq<char>>, n: nat) -> Seq<Seq<char>> {
    if lines.len() <= n {
        lines
    } else {
        lines.skip(lines.len() - n)
    }
}

/// The last lines of the log.
pub struct LogHistory {
    lines: VecDeque<String>,
}

impl View for LogHistory {
    type V = Seq<Seq<char>>;

    closed spec fn view(&self) -> Seq<Seq<char>> {
        texts(self.lines@)
    }
}

impl LogHistory {
    /// There are never more lines than fit, and none of them is empty.
    pub open spec fn wf(&self) -> bool {
        are_lines(self@)
    }

    pub fn new() -> (r: LogHistory)
        ensures
            r.wf(),
            r@ == Seq::<Seq<char>>::empty(),
    {
        let r = LogHistory { lines: VecDeque::new() };
        assert(r@ =~= Seq::<Seq<char>>::empty());
        r
    }

    /// A writer whose lines go into the history.
    pub fn writer(&self) -> (r: LogHistoryWriter)
        ensures
            r.pending() == Seq::<char>::empty(),
    {
        LogHistoryWriter { buffer: String::new() }
    }

    fn push_line(&mut self, line: &String)
        requires
            old(self).wf(),
        ensures
            final(self).wf(),
            final(self)@ == pushed(old(self)@, line@),
    {
        if line.as_str().is_empty() {
            return;
        }
        let ghost before = texts(self.lines@);
        if self.lines.len() >= CAPACITY {
            let _ = self.lines.pop_front();
            assert(texts(self.lines@) =~= before.drop_first());
        }
        let ghost kept = texts(self.lines@);
        self.lines.push_back(line.clone());
        assert(texts(self.lines@) =~= kept.push(line@));
    }

    /// The most recent `limit` lines, oldest first.
    pub fn recent(&self, limit: usize) -> (r: Vec<String>)
        ensures
            texts(r@) == last_of(self@, limit as nat),
    {
        let total: usize = self.lines.len();
        let skip: usize = if total > limit {
            total - limit
        } else {
            0
        };
        let mut out: Vec<String> = Vec::new();
        let mut k: usize = skip;
        let ghost all = texts(self.lines@);
        while k < total
            invariant
                skip <= k <= total,
                total == self.lines@.len(),
                all == texts(self.lines@),
                texts(out@) =~= all.subrange(skip as int, k as int),
            decreases total - k,
        {
            let ghost before = texts(out@);
            let line = self.lines[k].clone();
            assert(all[k as int] == line@);
            out.push(line);
            assert(texts(out@) =~= before.push(all[k as int]));
            k = k + 1;
        }
        assert(texts(out@) =~= last_of(self@, limit as nat));
        out
    }
}

impl Default for LogHistory {
    fn default() -> (r: LogHistory)
        ensures
            r.wf(),
            r@ == Seq::<Seq<char>>::empty(),
    {
        LogHistory::new()
    }
}

/// Collects text until a line break ends a line: one event can arrive in more
/// than one piece.
pub struct LogHistoryWriter {
    buffer: String,
}

impl LogHistoryWriter {
    /// The text of the line that has not ended yet.
    pub closed spec fn pending(&self) -> Seq<char> {
        self.buffer@
    }

    /// Take more text. Every line that it ends goes into the history; bytes that
    /// are not text are dropped. Gives the number of bytes taken: all of them.
    pub fn write(&mut self, history: &mut LogHistory, bytes: &[u8]) -> (r: usize)
        requires
            old(history).wf(),
        ensures
            final(history).wf(),
            r == bytes@.len(),
            final(history)@ == history_after(
                old(history)@,
                old(self).pending(),
                text_in(bytes@),
            ),
            final(self).pending() == pending_after(old(self).pending(), text_in(bytes@)),
    {
        match text_from_utf8(bytes) {
            Some(text) => self.write_text(history, text.as_str()),
            None => self.write_text(history, ""),
        }
        proof {
            reveal_strlit("");
            assert(""@ =~= Seq::<char>::empty());
        }
        bytes.len()
    }

    /// Take more text.
    pub fn write_text(&mut self, history: &mut LogHistory, text: &str)
        requires
            old(history).wf(),
        ensures
            final(history).wf(),
            final(history)@ == history_after(old(history)@, old(self).pending(), text@),
            final(self).pending() == pending_after(old(self).pending(), text@),
    {
        let mut whole = self.buffer.clone();
        whole.append(text);
        let mut pieces = split_text(whole.as_str(), '\n');
        let ghost all = split_at(whole@, '\n');
        proof {
            lemma_split_nonempty(whole@, '\n');
            assert(all.len() == pieces.len());
        }
        let last: usize = pieces.len() - 1;
        let mut k: usize = 0;
        let ghost ended = all.drop_last();
        assert(ended.take(0) =~= Seq::<Seq<char>>::empty());
        while k < last
            invariant
                0 <= k <= last,
                last == pieces.len() - 1,
                all == texts(pieces@),
                ended == all.drop_last(),
                history.wf(),
                history@ == pushed_all(old(history)@, ended.take(k as int)),
            decreases last - k,
        {
            proof {
                assert(ended.take(k + 1).drop_last() =~= ended.take(k as int));
                assert(ended.take(k + 1).last() == pieces@[k as int]@);
            }
            history.push_line(&pieces[k]);
            k = k + 1;
        }
        assert(ended.take(last as int) =~= ended);
        assert(all.last() == pieces@[last as int]@);
        self.buffer = pieces[last].clone();
    }

    /// End writing: a line without a line break counts too.
    pub fn close(self, history: &mut LogHistory)
        requires
            old(history).wf(),
        ensures
            final(history).wf(),
            final(history)@ == pushed(old(history)@, self.pending()),
    {
        history.push_line(&self.buffer);
    }
}

/// The text that bytes stand for: none where they are not text.
pub open spec fn text_in(bytes: Seq<u8>) -> Seq<char> {
    if valid_utf8(bytes) {
        decode_utf8(bytes)
    } else {
        Seq::empty()
    }
}

/// The history once more text has come behind a pending line.
pub open spec fn history_after(
    lines: Seq<Seq<char>>,
    pending: Seq<char>,
    text: Seq<char>,
) -> Seq<Seq<char>> {
    pushed_all(lines, split_at(pending + text, '\n').drop_last())
}

/// The pending line once more text has come behind it.
pub open spec fn pending_after(pending: Seq<char>, text: Seq<char>) -> Seq<char> {
    split_at(pending + text, '\n').last()
}

/// Those lines that count.
pub open spec fn counting(lines: Seq<Seq<char>>) -> Seq<Seq<char>>
    decreases lines.len(),
{
    if lines.len() == 0 {
        Seq::empty()
    } else if lines.last().len() == 0 {
        counting(lines.drop_last())
    } else {
        counting(lines.drop_last()).push(lines.last())
    }
}

/// However many lines come, the history holds the last of all that count, as
/// many as fit.
pub proof fn the_ring_holds_the_last_lines(lines: Seq<Seq<char>>, more: Seq<Seq<char>>)
    requires
        lines.len() <= CAPACITY,
    ensures
        pushed_all(lines, more) == last_of(lines + counting(more), CAPACITY as nat),
        pushed_all(lines, more).len() <= CAPACITY,
    decreases more.len(),
{
    if more.len() == 0 {
        assert(lines + counting(more) =~= lines);
    } else {
        the_ring_holds_the_last_lines(lines, more.drop_last());
        let before = lines + counting(more.drop_last());
        if more.last().len() > 0 {
            assert(lines + counting(more) =~= before.push(more.last()));
            assert(pushed_all(lines, more) =~= last_of(
                before.push(more.last()),
                CAPACITY as nat,
            ));
        }
    }
}

/// Text that comes in two pieces is taken like text that comes at once.
pub proof fn a_write_can_be_split(
    lines: Seq<Seq<char>>,
    pending: Seq<char>,
    a: Seq<char>,
    b: Seq<char>,
)
    ensures
        history_after(lines, pending, a + b) == history_after(
            history_after(lines, pending, a),
            pending_after(pending, a),
            b,
        ),
        pending_after(pending, a + b) == pending_after(pending_after(pending, a), b),
{
    let x = pending + a;
    lemma_split_joined(x, b);
    assert(pending + (a + b) =~= x + b);
    lemma_split_nonempty(x, '\n');
    let first = split_at(x, '\n').drop_last();
    let rest = split_at(split_at(x, '\n').last() + b, '\n');
    lemma_split_nonempty(split_at(x, '\n').last() + b, '\n');
    assert((first + rest).drop_last() =~= first + rest.drop_last());
    assert((first + rest).last() == rest.last());
    lemma_pushed_joined(lines, first, rest.drop_last());
}

/// What is asked for are the last lines, oldest first: as many as were asked for,
/// or all there are; none of them is empty.
pub proof fn recent_lines_are_the_last(lines: Seq<Seq<char>>, n: nat)
    requires
        are_lines(lines),
    ensures
        ({
            let recent = last_of(lines, n);
            &&& recent.len() == if n < lines.len() {
                n
            } else {
                lines.len()
            }
            &&& recent.len() <= CAPACITY
            &&& forall|i: int|
                0 <= i < recent.len() ==> #[trigger] recent[i] == lines[lines.len()
                    - recent.len() + i] && recent[i].len() > 0
        }),
{
}

/// The history and the pending line once so many pieces have come, one after
/// another.
pub open spec fn written(lines: Seq<Seq<char>>, pieces: Seq<Seq<u8>>) -> (
    Seq<Seq<char>>,
    Seq<char>,
)
    decreases pieces.len(),
{
    if pieces.len() == 0 {
        (lines, Seq::empty())
    } else {
        let (before, pending) = written(lines, pieces.drop_last());
        let more = text_in(pieces.last());
        (history_after(before, pending, more), pending_after(pending, more))
    }
}

/// The history once a writer has taken these pieces and was closed.
pub open spec fn written_and_closed(
    lines: Seq<Seq<char>>,
    pieces: Seq<Seq<u8>>,
) -> Seq<Seq<char>> {
    let (after, pending) = written(lines, pieces);
    pushed(after, pending)
}

/// The texts of several pieces, joined.
pub open spec fn joined_text(pieces: Seq<Seq<u8>>) -> Seq<char>
    decreases pieces.len(),
{
    if pieces.len() == 0 {
        Seq::empty()
    } else {
        joined_text(pieces.drop_last()) + text_in(pieces.last())
    }
}

/// However text is cut into pieces, a writer that takes them and is closed leaves
/// the lines of the whole: those that were ended, and the rest as a last one.
/// Pieces that are not text count for nothing.
pub proof fn pieces_are_taken_as_one(lines: Seq<Seq<char>>, pieces: Seq<Seq<u8>>)
    ensures
        written(lines, pieces) == (
            history_after(lines, Seq::empty(), joined_text(pieces)),
            pending_after(Seq::empty(), joined_text(pieces)),
        ),
        written_and_closed(lines, pieces) == pushed_all(lines, split_at(joined_text(pieces), '\n')),
    decreases pieces.len(),
{
    let none = Seq::<char>::empty();
    let whole = joined_text(pieces);
    assert(none + whole =~= whole);
    if pieces.len() == 0 {
        assert(split_at(none, '\n') =~= seq![none]);
        assert(split_at(none, '\n').drop_last() =~= Seq::<Seq<char>>::empty());
    } else {
        pieces_are_taken_as_one(lines, pieces.drop_last());
        a_write_can_be_split(
            lines,
            none,
            joined_text(pieces.drop_last()),
            text_in(pieces.last()),
        );
    }
    lemma_split_nonempty(whole, '\n');
}

/// Where every piece is text of its own, the pieces are taken as their bytes in
/// one write would be.
pub proof fn bytes_can_come_in_pieces(lines: Seq<Seq<char>>, pieces: Seq<Seq<u8>>)
    requires
        forall|i: int| 0 <= i < pieces.len() ==> valid_utf8(#[trigger] pieces[i]),
    ensures
        written(lines, pieces) == written(lines, seq![pieces.flatten_alt()]),
        written_and_closed(lines, pieces) == written_and_closed(
            lines,
            seq![pieces.flatten_alt()],
        ),
{
    let whole = pieces.flatten_alt();
    lemma_joined_text(pieces);
    pieces_are_taken_as_one(lines, pieces);
    pieces_are_taken_as_one(lines, seq![whole]);
    assert(seq![whole].drop_last() =~= Seq::<Seq<u8>>::empty());
    assert(joined_text(seq![whole].drop_last()) == Seq::<char>::empty());
    assert(joined_text(seq![whole]) =~= text_in(whole));
}

proof fn lemma_joined_text(pieces: Seq<Seq<u8>>)
    requires
        forall|i: int| 0 <= i < pieces.len() ==> valid_utf8(#[trigger] pieces[i]),
    ensures
        valid_utf8(pieces.flatten_alt()),
        joined_text(pieces) == decode_utf8(pieces.flatten_alt()),
    decreases pieces.len(),
{
    if pieces.len() > 0 {
        let shorter = pieces.drop_last();
        assert forall|i: int| 0 <= i < shorter.len() implies valid_utf8(#[trigger] shorter[i]) by {
            assert(shorter[i] == pieces[i]);
        }
        lemma_joined_text(shorter);
        valid_utf8_concat(shorter.flatten_alt(), pieces.last());
        lemma_decoded_joined(shorter.flatten_alt(), pieces.last());
    }
}

/// Text behind text is read as the one and then the other.
proof fn lemma_decoded_joined(a: Seq<u8>, b: Seq<u8>)
    requires
        valid_utf8(a),
        valid_utf8(b),
    ensures
        valid_utf8(a + b),
        decode_utf8(a + b) == decode_utf8(a) + decode_utf8(b),
    decreases a.len(),
{
    valid_utf8_concat(a, b);
    if a.len() == 0 {
        assert(a + b =~= b);
        assert(decode_utf8(a) + decode_utf8(b) =~= decode_utf8(b));
    } else {
        assert(valid_first_scalar(a));
        let rest = pop_first_scalar(a);
        lemma_decoded_joined(rest, b);
        assert(pop_first_scalar(a + b) =~= rest + b);
        assert(decode_utf8(a + b) =~= decode_utf8(a) + decode_utf8(b));
    }
}

proof fn lemma_split_joined(x: Seq<char>, y: Seq<char>)
    ensures
        split_at(x + y, '\n') == split_at(x, '\n').drop_last() + split_at(
            split_at(x, '\n').last() + y,
            '\n',
        ),
    decreases y.len(),
{
    lemma_split_nonempty(x, '\n');
    let head = split_at(x, '\n').drop_last();
    let tail = split_at(x, '\n').last();
    if y.len() == 0 {
        assert(x + y =~= x);
        assert(tail + y =~= tail);
        lemma_tail_is_whole(x);
        assert(split_at(x, '\n') =~= head + seq![tail]);
    } else {
        let shorter = y.drop_last();
        lemma_split_joined(x, shorter);
        assert((x + y).drop_last() =~= x + shorter);
        assert((tail + y).drop_last() =~= tail + shorter);
        lemma_split_nonempty(tail + shorter, '\n');
        let before = split_at(x + shorter, '\n');
        let inner = split_at(tail + shorter, '\n');
        assert(before =~= head + inner);
        assert(split_at(x + y, '\n') =~= head + split_at(tail + y, '\n'));
    }
}

/// The last piece of a text is one piece.
proof fn lemma_tail_is_whole(x: Seq<char>)
    ensures
        split_at(split_at(x, '\n').last(), '\n') == seq![split_at(x, '\n').last()],
    decreases x.len(),
{
    if x.len() == 0 {
        assert(split_at(x, '\n').last() =~= Seq::<char>::empty());
    } else {
        lemma_split_nonempty(x.drop_last(), '\n');
        let before = split_at(x.drop_last(), '\n');
        lemma_tail_is_whole(x.drop_last());
        if x.last() == '\n' {
            assert(split_at(x, '\n').last() =~= Seq::<char>::empty());
        } else {
            let tail = before.last().push(x.last());
            assert(split_at(x, '\n').last() == tail);
            assert(tail.drop_last() =~= before.last());
            assert(split_at(tail, '\n') =~= seq![tail]);
        }
    }
}

proof fn lemma_pushed_joined(lines: Seq<Seq<char>>, a: Seq<Seq<char>>, b: Seq<Seq<char>>)
    ensures
        pushed_all(lines, a + b) == pushed_all(pushed_all(lines, a), b),
    decreases b.len(),
{
    if b.len() == 0 {
        assert(a + b =~= a);
    } else {
        lemma_pushed_joined(lines, a, b.drop_last());
        assert((a + b).drop_last() =~= a + b.drop_last());
        assert((a + b).last() == b.last());
    }
}

/// The history has room for two thousand lines. Of those that come, it leaves out the empty
/// ones and no others.
pub proof fn only_empty_lines_are_left_out(lines: Seq<Seq<char>>, line: Seq<char>)
    ensures
        counting(lines.push(line)) == (if line.len() == 0 {
            counting(lines)
        } else {
            counting(lines).push(line)
        }),
        counting(Seq::empty()) == Seq::<Seq<char>>::empty(),
        are_lines(lines) ==> lines.len() <= 2000,
        lines.len() < 2000 && line.len() > 0 ==> pushed(lines, line) == lines.push(line),
        lines.len() == 2000 && line.len() > 0 ==> pushed(lines, line) == lines.skip(1).push(line),
{
    assert(lines.push(line).drop_last() =~= lines);
    if lines.len() > 0 {
        assert(lines.drop_first() =~= lines.skip(1));
    }
}

} // verus!
