//! The incremental-edit engine: turns editor range/text change events into
//! absolute byte-offset operations and applies batches of them to a shadow
//! file's contents in one consistent rewrite.

use vstd::prelude::*;
use vstd::string::StrSliceExecFns;
use vstd::utf8::encode_utf8;

verus! {

/// Failures of the batch edit engine.
#[derive(Clone, Copy, PartialEq, Eq, Structural, Debug)]
pub enum ErrorKind {
    /// The operations handed to a batch apply were not sorted by offset:
    /// an operation started before the bytes its predecessor consumed ended.
    NotSorted,
    /// An operation reached past the end of the file, where the read of the
    /// gap below it would fail.
    IO,
}

/// One contiguous change to a shadow file, anchored at an absolute byte
/// offset into its current contents.
#[derive(Debug)]
pub enum State {
    /// Remove this many bytes at the offset.
    Delete(usize, usize),
    /// Insert the text at the offset, removing nothing.
    Insert(usize, String),
    /// Remove this many bytes at the offset — the length the originating
    /// range implied — and insert the text in their place.
    Replace(usize, usize, String),
}

/// The classification rule for a resolved `(start, end, text)` triple:
/// empty text deletes the span, an empty span inserts the text, and a
/// non-empty span with non-empty text is a replacement.
pub open spec fn classified(start: usize, end: usize, text: String) -> State
    recommends
        start <= end,
{
    if text@.len() == 0 {
        State::Delete(start, (end - start) as usize)
    } else if end == start {
        State::Insert(start, text)
    } else {
        State::Replace(start, (end - start) as usize, text)
    }
}

impl State {
    /// The byte offset the operation is anchored at.
    pub open spec fn spec_offset(&self) -> usize {
        match *self {
            State::Delete(offset, _) => offset,
            State::Insert(offset, _) => offset,
            State::Replace(offset, _, _) => offset,
        }
    }

    /// Get the edit `State` given the byte-offset `range` of an edit and the
    /// edited `text`. The range must already be absolute byte offsets
    /// `(start, end)` with `start <= end`, not line/column positions.
    pub fn of(range: (usize, usize), text: String) -> (s: State)
        requires
            range.0 <= range.1,
        ensures
            s == classified(range.0, range.1, text),
    {
        let (start, end) = range;
        let length = end - start;
        if text.as_str().is_empty() {
            State::Delete(start, length)
        } else if length == 0 {
            State::Insert(start, text)
        } else {
            State::Replace(start, length, text)
        }
    }

    pub fn offset(&self) -> (o: usize)
        ensures
            o == self.spec_offset(),
    {
        match *self {
            Self::Delete(offset, _) => offset,
            Self::Insert(offset, _) => offset,
            Self::Replace(offset, _, _) => offset,
        }
    }

    /// How many bytes of the current file contents the operation consumes
    /// (removes or overwrites), starting at its offset.
    pub open spec fn consumed(&self) -> nat {
        match *self {
            State::Delete(_, length) => length as nat,
            State::Insert(_, _) => 0,
            State::Replace(_, length, _) => length as nat,
        }
    }

    /// The bytes the operation contributes to the rewritten file in place of
    /// the consumed span.
    pub open spec fn emitted(&self) -> Seq<u8> {
        match *self {
            State::Delete(_, _) => Seq::<u8>::empty(),
            State::Insert(_, text) => encode_utf8(text@),
            State::Replace(_, _, text) => encode_utf8(text@),
        }
    }
}

/// A zero-based line/column position in a document. The column counts raw
/// bytes within the line, as the engine requires, not display columns.
#[derive(Clone, Copy, PartialEq, Eq, Structural, Debug)]
pub struct Position {
    pub line: u32,
    pub character: u32,
}

/// An editor-style range: a start and end `Position`.
#[derive(Clone, Copy, PartialEq, Eq, Structural, Debug)]
pub struct Range {
    pub start: Position,
    pub end: Position,
}

/// The newline byte that terminates a line.
pub const LINE_FEED: u8 = 10;

/// `a + b`, clamped to the largest byte offset the machine can address.
pub open spec fn sat_add(a: int, b: int) -> usize
    recommends
        a >= 0,
        b >= 0,
{
    if a + b > usize::MAX {
        usize::MAX
    } else {
        (a + b) as usize
    }
}

/// The length of the line starting at byte `pos` of `c`: the bytes up to but
/// not including the next line feed, or the end of the contents.
pub open spec fn line_len_at(c: Seq<u8>, pos: int) -> int
    decreases c.len() - pos,
{
    if pos < 0 || pos >= c.len() {
        0
    } else if c[pos] == LINE_FEED {
        0
    } else {
        1 + line_len_at(c, pos + 1)
    }
}

/// The suffix of `c` from position `i` on; empty when `i` runs past the end
/// (a read cursor may legally sit beyond the end of the file, where nothing
/// remains to read).
pub open spec fn tail_from(c: Seq<u8>, i: int) -> Seq<u8> {
    if i >= c.len() {
        Seq::<u8>::empty()
    } else {
        c.subrange(i, c.len() as int)
    }
}

/// One pass over the lines of `c` that resolves a single range to a pair of
/// absolute byte offsets. Lines are visited while their index is below the
/// range's end line and bytes remain; every visited line contributes its
/// length plus one (for the terminator) to the end offset, and those whose
/// index does not exceed the range's start line contribute to the start
/// offset too. The accumulators are seeded with the range's column values.
pub open spec fn fold_offsets(
    c: Seq<u8>,
    pos: int,
    loc: int,
    start_line: int,
    end_line: int,
    s: usize,
    e: usize,
) -> (usize, usize)
    decreases end_line - loc,
{
    if loc >= end_line || pos < 0 || pos >= c.len() {
        (s, e)
    } else {
        let ll = line_len_at(c, pos);
        let s2 = if loc <= start_line {
            sat_add(s as int, ll + 1)
        } else {
            s
        };
        fold_offsets(c, pos + ll + 1, loc + 1, start_line, end_line, s2, sat_add(e as int, ll + 1))
    }
}

/// The `(start, end)` byte offsets that a range resolves to against `c`.
pub open spec fn resolved_offsets(c: Seq<u8>, range: Range) -> (usize, usize) {
    fold_offsets(
        c,
        0,
        0,
        range.start.line as int,
        range.end.line as int,
        range.start.character as usize,
        range.end.character as usize,
    )
}

/// The operation that a range/text change event resolves to against `c`.
/// A resolved end offset below its start stands for an empty span.
pub open spec fn resolved_state(c: Seq<u8>, range: Range, text: String) -> State {
    let (s, e) = resolved_offsets(c, range);
    classified(s, if e < s { s } else { e }, text)
}

/// The contents produced by applying one operation to `c` on its own:
/// the prefix below the offset, then the operation's bytes, then whatever
/// the operation did not consume. An offset beyond the end of the file
/// fails, as the read of the prefix would.
pub open spec fn apply_one(c: Seq<u8>, s: State) -> Result<Seq<u8>, ErrorKind> {
    if s.spec_offset() > c.len() {
        Err(ErrorKind::IO)
    } else {
        Ok(
            c.subrange(0, s.spec_offset() as int) + s.emitted() + tail_from(
                c,
                s.spec_offset() + s.consumed(),
            ),
        )
    }
}

/// The contents produced from read position `cursor` on by the remaining
/// operations of a batch. Each operation must start at or after the cursor;
/// the gap between them is copied verbatim, the operation's bytes follow,
/// and the cursor advances past what the operation consumed. After the last
/// operation the rest of the file follows unchanged.
pub open spec fn apply_from(c: Seq<u8>, cursor: nat, states: Seq<State>) -> Result<
    Seq<u8>,
    ErrorKind,
>
    decreases states.len(),
{
    if states.len() == 0 {
        Ok(tail_from(c, cursor as int))
    } else {
        let s = states[0];
        let o = s.spec_offset() as nat;
        if o < cursor {
            Err(ErrorKind::NotSorted)
        } else if o > c.len() && o > cursor {
            Err(ErrorKind::IO)
        } else {
            let gap = if o == cursor {
                Seq::<u8>::empty()
            } else {
                c.subrange(cursor as int, o as int)
            };
            match apply_from(c, (o + s.consumed()) as nat, states.drop_first()) {
                Ok(rest) => Ok(gap + s.emitted() + rest),
                Err(e) => Err(e),
            }
        }
    }
}

/// The contents produced by a whole batch, or the error that aborts it.
pub open spec fn apply_all_spec(c: Seq<u8>, states: Seq<State>) -> Result<Seq<u8>, ErrorKind> {
    apply_from(c, 0, states)
}

/// One editor change event: replacement text, and the range it replaces.
/// An event with no range replaces the whole document.
pub struct ChangeEvent {
    pub range: Option<Range>,
    pub text: String,
}

/// The incremental (ranged) changes of a batch, in order.
pub open spec fn ranged(changes: Seq<ChangeEvent>) -> Seq<(Range, String)>
    decreases changes.len(),
{
    if changes.len() == 0 {
        Seq::<(Range, String)>::empty()
    } else {
        let rest = ranged(changes.drop_first());
        match changes[0].range {
            Some(r) => seq![(r, changes[0].text)] + rest,
            None => rest,
        }
    }
}

/// The largest end line over a set of ranged changes; zero when there are
/// none.
pub open spec fn max_end_line(rs: Seq<(Range, String)>) -> u32
    decreases rs.len(),
{
    if rs.len() == 0 {
        0u32
    } else {
        let m = max_end_line(rs.drop_first());
        if rs[0].0.end.line > m {
            rs[0].0.end.line
        } else {
            m
        }
    }
}

/// One visited line of the batch resolution scan, at line index `loc`
/// starting at byte offset `cur`: every still-unresolved change whose start
/// line matches records a pending `(start_offset, unmatched)` entry, and
/// every change whose end line matches completes the most recent unmatched
/// pending entry with its end offset and text and drops out of further
/// consideration. Returns the pending entries and the changes still
/// unresolved.
pub open spec fn line_step(
    pending: Seq<(usize, Option<(usize, String)>)>,
    chs: Seq<(Range, String)>,
    loc: int,
    cur: int,
) -> (Seq<(usize, Option<(usize, String)>)>, Seq<(Range, String)>)
    decreases chs.len(),
{
    if chs.len() == 0 {
        (pending, chs)
    } else {
        let r = chs[0].0;
        let t = chs[0].1;
        let p1 = if r.start.line == loc {
            pending.push((sat_add(cur, r.start.character as int), None))
        } else {
            pending
        };
        if r.end.line == loc && p1.len() > 0 && p1.last().1 is None {
            let p2 = p1.update(
                p1.len() - 1,
                (p1.last().0, Some((sat_add(cur, r.end.character as int), t))),
            );
            line_step(p2, chs.drop_first(), loc, cur)
        } else {
            let rec = line_step(p1, chs.drop_first(), loc, cur);
            (rec.0, seq![chs[0]] + rec.1)
        }
    }
}

/// The batch resolution scan over the lines of `c`, bounded by the largest
/// end line across the pending changes: one linear pass that resolves every
/// change it can.
pub open spec fn scan_lines(
    c: Seq<u8>,
    pending: Seq<(usize, Option<(usize, String)>)>,
    chs: Seq<(Range, String)>,
    loc: int,
    pos: int,
    max_line: int,
) -> Seq<(usize, Option<(usize, String)>)>
    decreases max_line + 1 - loc,
{
    if loc > max_line || pos < 0 || pos >= c.len() {
        pending
    } else {
        let ll = line_len_at(c, pos);
        let st = line_step(pending, chs, loc, pos);
        scan_lines(c, st.0, st.1, loc + 1, pos + ll + 1, max_line)
    }
}

/// The classification rule applied to a pending entry's resolved offsets;
/// an end offset below its start stands for an empty span.
pub open spec fn classified_clamped(start: usize, end: usize, text: String) -> State {
    classified(start, if end < start { start } else { end }, text)
}

/// The operations the completed pending entries stand for, in order; entries
/// whose end never matched a visited line resolve to nothing.
pub open spec fn states_of_pending(pending: Seq<(usize, Option<(usize, String)>)>) -> Seq<State>
    decreases pending.len(),
{
    if pending.len() == 0 {
        Seq::<State>::empty()
    } else {
        let rest = states_of_pending(pending.drop_first());
        match pending[0].1 {
            Some(et) => seq![classified_clamped(pending[0].0, et.0, et.1)] + rest,
            None => rest,
        }
    }
}

/// The operations that a batch of change events resolves to against `c`:
/// the single scan of `scan_lines` followed by classification, over the
/// ranged changes of the batch.
pub open spec fn resolve_states_spec(c: Seq<u8>, changes: Seq<ChangeEvent>) -> Seq<State> {
    let rs = ranged(changes);
    states_of_pending(
        scan_lines(
            c,
            Seq::<(usize, Option<(usize, String)>)>::empty(),
            rs,
            0,
            0,
            max_end_line(rs) as int,
        ),
    )
}

/// Classification law: a resolved `(start, end, text)` triple maps to
/// `Delete` exactly when the text is empty, to `Insert` exactly when the
/// text is non-empty and the span is empty, and to `Replace` exactly when
/// both are non-empty.
pub proof fn lemma_classification(start: usize, end: usize, text: String)
    requires
        start <= end,
    ensures
        text@.len() == 0 ==> classified(start, end, text) == State::Delete(
            start,
            (end - start) as usize,
        ),
        text@.len() > 0 && start == end ==> classified(start, end, text) == State::Insert(
            start,
            text,
        ),
        text@.len() > 0 && start < end ==> classified(start, end, text) == State::Replace(
            start,
            (end - start) as usize,
            text,
        ),
{
}

/// Ordering-invariant law: a two-operation batch whose second operation
/// starts below the first operation's end-of-consumption cursor fails with
/// the ordering violation. By `apply_all`'s contract the file is then left
/// unchanged: nothing is written back when a batch aborts.
pub proof fn lemma_ordering_violation(c: Seq<u8>, s1: State, s2: State)
    requires
        s1.spec_offset() <= c.len(),
        s2.spec_offset() < s1.spec_offset() + s1.consumed(),
    ensures
        apply_all_spec(c, seq![s1, s2]) == Err::<Seq<u8>, ErrorKind>(ErrorKind::NotSorted),
{
    let states = seq![s1, s2];
    assert(states[0] == s1);
    assert(states.drop_first() =~= seq![s2]);
    assert(seq![s2][0] == s2);
    assert(apply_from(c, (s1.spec_offset() + s1.consumed()) as nat, seq![s2]) == Err::<
        Seq<u8>,
        ErrorKind,
    >(ErrorKind::NotSorted));
}

/// Identity-batch law: a batch with no change events resolves to no
/// operations and leaves any contents exactly as they are.
pub proof fn lemma_identity_batch(c: Seq<u8>)
    ensures
        change_base(c, Seq::<ChangeEvent>::empty()) == c,
        resolve_states_spec(c, change_rest(Seq::<ChangeEvent>::empty())) == Seq::<State>::empty(),
        apply_all_spec(c, sorted_by_offset(Seq::<State>::empty())) == Ok::<Seq<u8>, ErrorKind>(c),
{
    let e = Seq::<ChangeEvent>::empty();
    assert(split_at_last_full(e).0 is None);
    assert(change_rest(e) =~= e);
    assert(ranged(e) =~= Seq::<(Range, String)>::empty());
    let rs = ranged(e);
    let pend = scan_lines(c, Seq::<(usize, Option<(usize, String)>)>::empty(), rs, 0, 0, 0);
    if c.len() > 0 {
        // the scan still visits line zero, where no change can match
        assert(line_step(Seq::<(usize, Option<(usize, String)>)>::empty(), rs, 0, 0) == (
            Seq::<(usize, Option<(usize, String)>)>::empty(),
            rs,
        ));
        assert(scan_lines(
            c,
            Seq::<(usize, Option<(usize, String)>)>::empty(),
            rs,
            1,
            line_len_at(c, 0) + 1,
            0,
        ) == Seq::<(usize, Option<(usize, String)>)>::empty());
        assert(pend =~= Seq::<(usize, Option<(usize, String)>)>::empty());
    }
    assert(states_of_pending(pend) =~= Seq::<State>::empty());
    assert(sorted_by_offset(Seq::<State>::empty()) =~= Seq::<State>::empty());
    assert(tail_from(c, 0) =~= c);
}

/// The contents produced by applying operations one at a time, each against
/// the whole contents the previous one left, from first to last.
pub open spec fn apply_each(c: Seq<u8>, states: Seq<State>) -> Result<Seq<u8>, ErrorKind>
    decreases states.len(),
{
    if states.len() == 0 {
        Ok(c)
    } else {
        match apply_one(c, states[0]) {
            Ok(c2) => apply_each(c2, states.drop_first()),
            Err(e) => Err(e),
        }
    }
}

/// A batch run from the same cursor produces the same contents on any two
/// files that agree from that cursor to their (equal) end: nothing below the
/// cursor is ever read again.
proof fn lemma_apply_from_suffix(c1: Seq<u8>, c2: Seq<u8>, cursor: nat, states: Seq<State>)
    requires
        c1.len() == c2.len(),
        forall|x: int| cursor <= x < c1.len() ==> c1[x] == c2[x],
    ensures
        apply_from(c1, cursor, states) == apply_from(c2, cursor, states),
    decreases states.len(),
{
    if states.len() == 0 {
        assert(tail_from(c1, cursor as int) =~= tail_from(c2, cursor as int));
    } else {
        let s = states[0];
        let o = s.spec_offset() as nat;
        if o < cursor {
        } else if o > c1.len() && o > cursor {
        } else {
            if o != cursor {
                assert(c1.subrange(cursor as int, o as int) =~= c2.subrange(
                    cursor as int,
                    o as int,
                ));
            }
            lemma_apply_from_suffix(c1, c2, (o + s.consumed()) as nat, states.drop_first());
        }
    }
}

/// A batch whose first pending operation starts at or above `m` reads the
/// bytes between its cursor and `m` verbatim: the cursor can be advanced to
/// `m` once that gap is peeled off the front of the result.
proof fn lemma_advance_cursor(c: Seq<u8>, cursor: nat, m: nat, states: Seq<State>)
    requires
        cursor <= m <= c.len(),
        states.len() > 0 ==> m <= states[0].spec_offset(),
    ensures
        apply_from(c, cursor, states) == (match apply_from(c, m, states) {
            Ok(r) => Ok::<Seq<u8>, ErrorKind>(c.subrange(cursor as int, m as int) + r),
            Err(e) => Err::<Seq<u8>, ErrorKind>(e),
        }),
{
    let gap = c.subrange(cursor as int, m as int);
    if states.len() == 0 {
        assert(tail_from(c, cursor as int) =~= gap + tail_from(c, m as int));
    } else {
        let s = states[0];
        let o = s.spec_offset() as nat;
        if o > c.len() {
            // both runs fail on the gap read past the end of the file
            assert(o > cursor && o > m);
        } else {
            let em = s.emitted();
            let rec = apply_from(c, (o + s.consumed()) as nat, states.drop_first());
            if rec is Ok {
                let g1 = if o == cursor {
                    Seq::<u8>::empty()
                } else {
                    c.subrange(cursor as int, o as int)
                };
                let g2 = if o == m {
                    Seq::<u8>::empty()
                } else {
                    c.subrange(m as int, o as int)
                };
                assert(g1 + em + rec->Ok_0 =~= gap + (g2 + em + rec->Ok_0));
            }
        }
    }
}

/// Batch/sequential agreement law: a batch of operations that lie within the
/// contents, are sorted ascending by offset with no overlap, and each put
/// exactly as many bytes in place of the span they consume, yields
/// byte-for-byte the same final contents as applying the operations one at a
/// time from lowest to highest offset — and such a batch always succeeds.
/// (An operation that changes the length shifts every later byte, so applied
/// alone it lands later operations' offsets on the wrong bytes: the law asks
/// each operation to preserve length.)
pub proof fn lemma_batch_equals_sequential(c: Seq<u8>, states: Seq<State>)
    requires
        forall|i: int|
            0 <= i < states.len() ==> #[trigger] states[i].spec_offset() + states[i].consumed()
                <= c.len(),
        forall|i: int|
            0 <= i < states.len() - 1 ==> #[trigger] states[i].spec_offset() + states[i].consumed()
                <= states[i + 1].spec_offset(),
        forall|i: int|
            0 <= i < states.len() ==> #[trigger] states[i].emitted().len() == states[i].consumed(),
    ensures
        apply_all_spec(c, states) is Ok,
        apply_all_spec(c, states) == apply_each(c, states),
    decreases states.len(),
{
    if states.len() == 0 {
        assert(tail_from(c, 0) =~= c);
    } else {
        let s0 = states[0];
        let rest = states.drop_first();
        let o0 = s0.spec_offset() as int;
        let k0 = s0.consumed() as int;
        let em = s0.emitted();
        let c2 = c.subrange(0, o0) + em + tail_from(c, o0 + k0);
        assert(states[0].spec_offset() + states[0].consumed() <= c.len());
        assert(apply_one(c, s0) == Ok::<Seq<u8>, ErrorKind>(c2));
        assert(c2.len() == c.len());
        assert(forall|x: int| o0 + k0 <= x < c.len() ==> c[x] == c2[x]);
        lemma_apply_from_suffix(c, c2, (o0 + k0) as nat, rest);
        assert forall|i: int| 0 <= i < rest.len() implies {
            &&& #[trigger] rest[i].spec_offset() + rest[i].consumed() <= c2.len()
            &&& rest[i].emitted().len() == rest[i].consumed()
            &&& i < rest.len() - 1 ==> rest[i].spec_offset() + rest[i].consumed() <= rest[i
                + 1].spec_offset()
        } by {
            assert(rest[i] == states[i + 1]);
            assert(states[i + 1].spec_offset() + states[i + 1].consumed() <= c.len());
            assert(states[i + 1].emitted().len() == states[i + 1].consumed());
            if i < rest.len() - 1 {
                assert(rest[i + 1] == states[i + 2]);
                assert(states[i + 1].spec_offset() + states[i + 1].consumed() <= states[i
                    + 2].spec_offset());
            }
        }
        lemma_batch_equals_sequential(c2, rest);
        if rest.len() > 0 {
            assert(rest[0] == states[1]);
            assert(states[0].spec_offset() + states[0].consumed() <= states[1].spec_offset());
        }
        lemma_advance_cursor(c2, 0, (o0 + k0) as nat, rest);
        let r = apply_from(c2, (o0 + k0) as nat, rest);
        assert(r == apply_from(c, (o0 + k0) as nat, rest));
        assert(r is Ok ==> {
            let g0 = if o0 == 0 {
                Seq::<u8>::empty()
            } else {
                c.subrange(0, o0)
            };
            g0 + em + r->Ok_0 =~= c2.subrange(0, o0 + k0) + r->Ok_0
        });
        assert(apply_each(c, states) == apply_each(c2, rest));
    }
}

/// The effect of `s` applied at `offset` rather than at its own anchor:
/// once earlier operations have grown or shrunk the file, a later
/// operation's span sits this far from where the batch resolved it.
pub open spec fn apply_one_at(c: Seq<u8>, offset: int, s: State) -> Result<Seq<u8>, ErrorKind> {
    if offset < 0 || offset > c.len() {
        Err(ErrorKind::IO)
    } else {
        Ok(c.subrange(0, offset) + s.emitted() + tail_from(c, offset + s.consumed()))
    }
}

/// Operations applied one at a time, each at its own offset shifted by the
/// net length change of the operations before it.
pub open spec fn apply_each_shifted(c: Seq<u8>, states: Seq<State>, d: int) -> Result<
    Seq<u8>,
    ErrorKind,
>
    decreases states.len(),
{
    if states.len() == 0 {
        Ok(c)
    } else {
        let s = states[0];
        match apply_one_at(c, s.spec_offset() + d, s) {
            Ok(c2) => apply_each_shifted(
                c2,
                states.drop_first(),
                d + s.emitted().len() - s.consumed(),
            ),
            Err(e) => Err(e),
        }
    }
}

/// The induction behind the general batch/sequential law: `f` is the file
/// some prefix of the batch has already produced — it agrees with the
/// original `c` from the read cursor on, displaced by the net length change
/// `d` so far — and the remaining operations, applied one at a time at their
/// displaced offsets, produce exactly what the batch produces from the
/// cursor on.
proof fn lemma_batch_shift_step(c: Seq<u8>, cursor: nat, states: Seq<State>, f: Seq<u8>, d: int)
    requires
        cursor <= c.len(),
        cursor + d >= 0,
        f.len() == c.len() + d,
        forall|x: int| cursor <= x < c.len() ==> f[x + d] == c[x],
        states.len() > 0 ==> cursor <= states[0].spec_offset(),
        forall|i: int|
            0 <= i < states.len() ==> #[trigger] states[i].spec_offset() + states[i].consumed()
                <= c.len(),
        forall|i: int|
            0 <= i < states.len() - 1 ==> #[trigger] states[i].spec_offset() + states[i].consumed()
                <= states[i + 1].spec_offset(),
    ensures
        apply_from(c, cursor, states) is Ok,
        apply_each_shifted(f, states, d) == Ok::<Seq<u8>, ErrorKind>(
            f.subrange(0, cursor + d) + apply_from(c, cursor, states)->Ok_0,
        ),
    decreases states.len(),
{
    if states.len() == 0 {
        assert(f =~= f.subrange(0, cursor + d) + tail_from(c, cursor as int));
    } else {
        let s = states[0];
        let o = s.spec_offset() as int;
        let k = s.consumed() as int;
        let em = s.emitted();
        assert(states[0].spec_offset() + states[0].consumed() <= c.len());
        let rest = states.drop_first();
        // the shifted single application of the first operation
        let f2 = f.subrange(0, o + d) + em + tail_from(f, o + d + k);
        assert(apply_one_at(f, o + d, s) == Ok::<Seq<u8>, ErrorKind>(f2));
        let d2 = d + em.len() - k;
        let cursor2 = (o + k) as nat;
        assert(f2.len() == c.len() + d2) by {
            assert(tail_from(f, o + d + k).len() == f.len() - (o + d + k));
        }
        assert forall|x: int| cursor2 <= x < c.len() implies f2[x + d2] == c[x] by {
            assert(x + d2 >= o + d + em.len());
            assert(f2[x + d2] == tail_from(f, o + d + k)[x + d2 - (o + d) - em.len()]);
            assert(tail_from(f, o + d + k)[x - o - k] == f[x + d]);
            assert(f[x + d] == c[x]);
        }
        assert forall|i: int| 0 <= i < rest.len() implies {
            &&& #[trigger] rest[i].spec_offset() + rest[i].consumed() <= c.len()
            &&& i < rest.len() - 1 ==> rest[i].spec_offset() + rest[i].consumed() <= rest[i
                + 1].spec_offset()
        } by {
            assert(rest[i] == states[i + 1]);
            assert(states[i + 1].spec_offset() + states[i + 1].consumed() <= c.len());
            if i < rest.len() - 1 {
                assert(rest[i + 1] == states[i + 2]);
                assert(states[i + 1].spec_offset() + states[i + 1].consumed() <= states[i
                    + 2].spec_offset());
            }
        }
        if rest.len() > 0 {
            assert(rest[0] == states[1]);
            assert(states[0].spec_offset() + states[0].consumed() <= states[1].spec_offset());
        }
        lemma_batch_shift_step(c, cursor2, rest, f2, d2);
        let b2 = apply_from(c, cursor2, rest)->Ok_0;
        let gap = if o as nat == cursor {
            Seq::<u8>::empty()
        } else {
            c.subrange(cursor as int, o)
        };
        assert(apply_from(c, cursor, states) == Ok::<Seq<u8>, ErrorKind>(gap + em + b2));
        assert(f2.subrange(0, cursor2 + d2) =~= f.subrange(0, cursor + d) + (gap + em)) by {
            assert(forall|j: int|
                0 <= j < o - cursor ==> #[trigger] f[cursor + d + j] == c[cursor + j]);
        }
        assert(f.subrange(0, cursor + d) + (gap + em) + b2 =~= f.subrange(0, cursor + d) + (gap + em
            + b2));
    }
}

/// Batch/sequential agreement law, general form: a batch of operations that
/// lie within the contents and are sorted ascending by offset with no
/// overlap always succeeds, and yields byte-for-byte the contents of
/// applying the operations one at a time from lowest to highest offset,
/// each applied where the batch's span sits after the operations before it
/// grew or shrank the file — at its resolved offset displaced by their net
/// length change.
pub proof fn lemma_batch_equals_shifted_sequential(c: Seq<u8>, states: Seq<State>)
    requires
        forall|i: int|
            0 <= i < states.len() ==> #[trigger] states[i].spec_offset() + states[i].consumed()
                <= c.len(),
        forall|i: int|
            0 <= i < states.len() - 1 ==> #[trigger] states[i].spec_offset() + states[i].consumed()
                <= states[i + 1].spec_offset(),
    ensures
        apply_all_spec(c, states) is Ok,
        apply_each_shifted(c, states, 0) == apply_all_spec(c, states),
{
    lemma_batch_shift_step(c, 0, states, c, 0);
    assert(c.subrange(0, 0) + apply_from(c, 0, states)->Ok_0 =~= apply_from(c, 0, states)->Ok_0);
}

/// Copies `c[a..b]` onto the end of `out`.
fn copy_range(out: &mut Vec<u8>, c: &Vec<u8>, a: usize, b: usize)
    requires
        a <= b <= c@.len(),
    ensures
        final(out)@ == old(out)@ + c@.subrange(a as int, b as int),
{
    let sl: &[u8] = &c.as_slice()[a..b];
    out.extend_from_slice(sl);
}

/// Copies the UTF-8 bytes of `text` onto the end of `out` and returns how
/// many bytes that was.
fn copy_text(out: &mut Vec<u8>, text: &String) -> (n: usize)
    ensures
        final(out)@ == old(out)@ + encode_utf8(text@),
        n == encode_utf8(text@).len(),
{
    let sl: &[u8] = text.as_str().as_bytes();
    let n = sl.len();
    out.extend_from_slice(sl);
    n
}

/// Splits a batch at its last event with no range, if any: that event's text
/// replaces the whole document, so only the ranged events after it still
/// matter. Returns the replacement text and the events that follow it.
pub open spec fn split_at_last_full(changes: Seq<ChangeEvent>) -> (
    Option<String>,
    Seq<ChangeEvent>,
)
    decreases changes.len(),
{
    if changes.len() == 0 {
        (None::<String>, changes)
    } else {
        let last = changes.last();
        if last.range is None {
            (Some(last.text), Seq::<ChangeEvent>::empty())
        } else {
            let rec = split_at_last_full(changes.drop_last());
            (rec.0, rec.1.push(last))
        }
    }
}

/// The document contents after the full-replacement event of a batch, if it
/// has one; the current contents otherwise.
pub open spec fn change_base(c: Seq<u8>, changes: Seq<ChangeEvent>) -> Seq<u8> {
    match split_at_last_full(changes).0 {
        Some(t) => encode_utf8(t@),
        None => c,
    }
}

/// The change events of a batch still standing after its full-replacement
/// event, if it has one; the whole batch otherwise.
pub open spec fn change_rest(changes: Seq<ChangeEvent>) -> Seq<ChangeEvent> {
    split_at_last_full(changes).1
}

/// `s` inserted into `sorted` after every operation whose offset does not
/// exceed its own, so that operations with equal offsets keep their arrival
/// order.
pub open spec fn insert_sorted(s: State, sorted: Seq<State>) -> Seq<State>
    decreases sorted.len(),
{
    if sorted.len() == 0 {
        seq![s]
    } else if s.spec_offset() < sorted[0].spec_offset() {
        seq![s] + sorted
    } else {
        seq![sorted[0]] + insert_sorted(s, sorted.drop_first())
    }
}

/// Insertion sort of `rest` into the already-sorted `acc`.
pub open spec fn sort_rec(acc: Seq<State>, rest: Seq<State>) -> Seq<State>
    decreases rest.len(),
{
    if rest.len() == 0 {
        acc
    } else {
        sort_rec(insert_sorted(rest[0], acc), rest.drop_first())
    }
}

/// The operations of a batch sorted ascending by start offset, stably.
pub open spec fn sorted_by_offset(states: Seq<State>) -> Seq<State> {
    sort_rec(Seq::<State>::empty(), states)
}

/// Inserts one operation into an offset-sorted vector, after any operation
/// with the same offset.
fn insert_sorted_exec(s: State, sorted: Vec<State>) -> (r: Vec<State>)
    ensures
        r@ == insert_sorted(s, sorted@),
    decreases sorted@.len(),
{
    let mut sorted = sorted;
    let ghost orig = sorted@;
    if sorted.len() == 0 {
        sorted.push(s);
        proof {
            assert(sorted@ =~= seq![s]);
        }
        sorted
    } else if s.offset() < sorted[0].offset() {
        sorted.insert(0, s);
        proof {
            assert(sorted@ =~= seq![s] + orig);
        }
        sorted
    } else {
        let head = sorted.remove(0);
        proof {
            assert(orig.drop_first() =~= sorted@);
        }
        let mut r = insert_sorted_exec(s, sorted);
        r.insert(0, head);
        proof {
            assert(r@ =~= seq![orig[0]] + insert_sorted(s, orig.drop_first()));
        }
        r
    }
}

/// Sorts a batch of operations ascending by start offset; operations with
/// equal offsets keep their arrival order.
pub fn sort_by_offset(states: Vec<State>) -> (r: Vec<State>)
    ensures
        r@ == sorted_by_offset(states@),
{
    let ghost orig = states@;
    let mut states = states;
    let mut acc: Vec<State> = Vec::new();
    proof {
        assert(acc@ =~= Seq::<State>::empty());
    }
    while states.len() > 0
        invariant
            sorted_by_offset(orig) == sort_rec(acc@, states@),
        decreases states@.len(),
    {
        let ghost pre = states@;
        let s = states.remove(0);
        proof {
            assert(pre[0] == s);
            assert(pre.drop_first() =~= states@);
        }
        acc = insert_sorted_exec(s, acc);
    }
    acc
}

/// Finds the end of the line starting at `pos`: the index of the next line
/// feed, or the end of the contents.
fn line_end(c: &Vec<u8>, pos: usize) -> (e: usize)
    requires
        pos <= c@.len(),
    ensures
        pos <= e <= c@.len(),
        e - pos == line_len_at(c@, pos as int),
        e == c@.len() || c@[e as int] == LINE_FEED,
{
    let mut e = pos;
    loop
        invariant_except_break
            pos <= e <= c@.len(),
            line_len_at(c@, pos as int) == e - pos + line_len_at(c@, e as int),
        ensures
            pos <= e <= c@.len(),
            e - pos == line_len_at(c@, pos as int),
            e == c@.len() || c@[e as int] == LINE_FEED,
        decreases c@.len() - e,
    {
        if e == c.len() {
            break ;
        }
        if c[e] == LINE_FEED {
            break ;
        }
        e = e + 1;
    }
    e
}

/// A shadow file's contents: the private on-disk mirror of an editor-resident
/// document, modelled by the bytes it holds. The surrounding process reads
/// the real file into it and writes it back out after the engine has run.
pub struct ShadowFile {
    pub bytes: Vec<u8>,
}

impl View for ShadowFile {
    type V = Seq<u8>;

    open spec fn view(&self) -> Seq<u8> {
        self.bytes@
    }
}

impl ShadowFile {
    /// A shadow file freshly written with the given contents.
    pub fn new(bytes: Vec<u8>) -> (f: ShadowFile)
        ensures
            f@ == bytes@,
    {
        ShadowFile { bytes }
    }

    /// Get the edit `State` for an incremental change given the line/column
    /// `range` of the edit and the edited `text`: one scan over the file's
    /// lines resolves the range to absolute byte offsets, which the
    /// classification rule turns into an operation.
    pub fn get_state(&self, range: Range, text: String) -> (s: State)
        ensures
            s == resolved_state(self@, range, text),
    {
        let ghost c = self.bytes@;
        let start_line = range.start.line as usize;
        let end_line = range.end.line as usize;
        let ghost so0: usize = range.start.character as usize;
        let ghost eo0: usize = range.end.character as usize;
        let mut so: usize = range.start.character as usize;
        let mut eo: usize = range.end.character as usize;
        let mut loc: usize = 0;
        let mut pos: usize = 0;
        while loc < end_line && pos < self.bytes.len()
            invariant
                c == self@,
                pos <= c.len(),
                fold_offsets(c, 0, 0, start_line as int, end_line as int, so0, eo0)
                    == fold_offsets(c, pos as int, loc as int, start_line as int, end_line as int, so, eo),
            decreases end_line - loc,
        {
            let e = line_end(&self.bytes, pos);
            let ll = e - pos;
            let ghost so_pre = so;
            let ghost eo_pre = eo;
            if loc <= start_line {
                so = so.saturating_add(ll).saturating_add(1);
            }
            eo = eo.saturating_add(ll).saturating_add(1);
            proof {
                assert(so == (if loc <= start_line {
                    sat_add(so_pre as int, ll + 1)
                } else {
                    so_pre
                }));
                assert(eo == sat_add(eo_pre as int, ll + 1));
            }
            let ghost pos_old: int = pos as int;
            let ghost loc_old: int = loc as int;
            loc = loc + 1;
            pos = if e < self.bytes.len() {
                e + 1
            } else {
                self.bytes.len()
            };
            proof {
                let sl = start_line as int;
                let el = end_line as int;
                let lls = line_len_at(c, pos_old);
                assert(e - pos_old == lls);
                assert(fold_offsets(c, pos_old, loc_old, sl, el, so_pre, eo_pre) == fold_offsets(
                    c,
                    pos_old + lls + 1,
                    loc_old + 1,
                    sl,
                    el,
                    so,
                    eo,
                ));
                assert(fold_offsets(c, pos_old + lls + 1, loc_old + 1, sl, el, so, eo)
                    == fold_offsets(c, pos as int, loc as int, sl, el, so, eo));
            }
        }
        let end_clamped = if eo < so {
            so
        } else {
            eo
        };
        State::of((so, end_clamped), text)
    }

    /// Get the edit `State`s of a whole batch of change events in one linear
    /// scan over the file's lines, rather than one scan per change. Events
    /// without a range take no part; a change resolves once its start and end
    /// lines have both been visited, and the scan stops after the largest end
    /// line any change names.
    pub fn iter_states(&self, changes: Vec<ChangeEvent>) -> (states: Vec<State>)
        ensures
            states@ == resolve_states_spec(self@, changes@),
    {
        let ghost c = self@;
        let ghost orig = changes@;
        let mut changes = changes;
        // keep the ranged changes, and the largest end line among them
        let mut rs: Vec<(Range, String)> = Vec::new();
        let mut max_line: u32 = 0;
        while changes.len() > 0
            invariant
                ranged(orig) =~= rs@ + ranged(changes@),
                max_end_line(ranged(orig)) == (if max_line > max_end_line(ranged(changes@)) {
                    max_line
                } else {
                    max_end_line(ranged(changes@))
                }),
            decreases changes@.len(),
        {
            let ghost pre = changes@;
            let ghost rs_pre = rs@;
            let ch = changes.remove(0);
            proof {
                assert(pre[0] == ch);
                assert(pre.drop_first() =~= changes@);
            }
            match ch.range {
                Some(r) => {
                    if r.end.line > max_line {
                        max_line = r.end.line;
                    }
                    rs.push((r, ch.text));
                    proof {
                        let rr = ranged(changes@);
                        assert(ranged(pre) =~= seq![(r, ch.text)] + rr);
                        assert((seq![(r, ch.text)] + rr)[0] == (r, ch.text));
                        assert((seq![(r, ch.text)] + rr).drop_first() =~= rr);
                        assert(max_end_line(seq![(r, ch.text)] + rr) == (if r.end.line
                            > max_end_line(rr) {
                            r.end.line
                        } else {
                            max_end_line(rr)
                        }));
                        assert(rs@ =~= rs_pre + seq![(r, ch.text)]);
                        assert(rs@ + ranged(changes@) =~= rs_pre + (seq![(r, ch.text)] + ranged(
                            changes@,
                        )));
                    }
                },
                None => {},
            }
        }
        proof {
            assert(ranged(changes@) =~= Seq::<(Range, String)>::empty());
            assert(ranged(orig) =~= rs@);
            assert(max_end_line(ranged(orig)) == max_line);
        }
        // the single scan over the lines
        let ghost rs_all = rs@;
        let ghost ml: int = max_line as int;
        let mut pending: Vec<(usize, Option<(usize, String)>)> = Vec::new();
        let mut loc: u64 = 0;
        let mut pos: usize = 0;
        while loc <= max_line as u64 && pos < self.bytes.len()
            invariant
                c == self@,
                pos <= c.len(),
                ml == max_line as int,
                scan_lines(c, Seq::<(usize, Option<(usize, String)>)>::empty(), rs_all, 0, 0, ml)
                    == scan_lines(c, pending@, rs@, loc as int, pos as int, ml),
            decreases ml + 1 - loc,
        {
            let e = line_end(&self.bytes, pos);
            let ghost p_line = pending@;
            let ghost r_line = rs@;
            let cur = pos;
            let mut kept: Vec<(Range, String)> = Vec::new();
            while rs.len() > 0
                invariant
                    line_step(p_line, r_line, loc as int, cur as int).0 == line_step(
                        pending@,
                        rs@,
                        loc as int,
                        cur as int,
                    ).0,
                    line_step(p_line, r_line, loc as int, cur as int).1 =~= kept@ + line_step(
                        pending@,
                        rs@,
                        loc as int,
                        cur as int,
                    ).1,
                decreases rs@.len(),
            {
                let ghost rs_pre = rs@;
                let ghost pend_pre = pending@;
                let ghost kept_pre = kept@;
                let (r, t) = rs.remove(0);
                proof {
                    assert(rs_pre[0] == (r, t));
                    assert(rs_pre.drop_first() =~= rs@);
                }
                if r.start.line as u64 == loc {
                    let off = cur.saturating_add(r.start.character as usize);
                    pending.push((off, None));
                }
                let ghost p1 = if r.start.line as int == loc as int {
                    pend_pre.push((sat_add(cur as int, r.start.character as int), None))
                } else {
                    pend_pre
                };
                proof {
                    assert(pending@ == p1);
                }
                let mut complete = r.end.line as u64 == loc;
                if complete && pending.len() == 0 {
                    complete = false;
                }
                if complete {
                    let lastref = &pending[pending.len() - 1];
                    if lastref.1.is_some() {
                        complete = false;
                    }
                }
                proof {
                    assert(complete == (r.end.line as int == loc as int && p1.len() > 0
                        && p1.last().1 is None));
                }
                if complete {
                    let last = pending.pop().unwrap();
                    let eoff = cur.saturating_add(r.end.character as usize);
                    pending.push((last.0, Some((eoff, t))));
                    proof {
                        assert(pending@ =~= p1.update(
                            p1.len() - 1,
                            (
                                p1.last().0,
                                Some((sat_add(cur as int, r.end.character as int), rs_pre[0].1)),
                            ),
                        ));
                    }
                } else {
                    kept.push((r, t));
                    proof {
                        let rec = line_step(p1, rs@, loc as int, cur as int);
                        assert(kept_pre + (seq![rs_pre[0]] + rec.1) =~= kept@ + rec.1);
                    }
                }
            }
            proof {
                assert(rs@.len() == 0);
                assert(line_step(pending@, rs@, loc as int, cur as int).0 == pending@);
                assert(kept@ + line_step(pending@, rs@, loc as int, cur as int).1 =~= kept@);
                assert(line_step(p_line, r_line, loc as int, cur as int).0 == pending@);
                assert(line_step(p_line, r_line, loc as int, cur as int).1 =~= kept@);
            }
            rs = kept;
            let ghost pos_old: int = pos as int;
            let ghost loc_old: int = loc as int;
            loc = loc + 1;
            pos = if e < self.bytes.len() {
                e + 1
            } else {
                self.bytes.len()
            };
            proof {
                let lls = line_len_at(c, pos_old);
                assert(e - pos_old == lls);
                assert(scan_lines(c, p_line, r_line, loc_old, pos_old, ml) == scan_lines(
                    c,
                    pending@,
                    rs@,
                    loc_old + 1,
                    pos_old + lls + 1,
                    ml,
                ));
                assert(scan_lines(c, pending@, rs@, loc_old + 1, pos_old + lls + 1, ml)
                    == scan_lines(c, pending@, rs@, loc as int, pos as int, ml));
            }
        }
        proof {
            assert(scan_lines(c, pending@, rs@, loc as int, pos as int, ml) == pending@);
        }
        // classify what the scan completed
        let ghost pend_all = pending@;
        let mut states: Vec<State> = Vec::new();
        while pending.len() > 0
            invariant
                states_of_pending(pend_all) =~= states@ + states_of_pending(pending@),
            decreases pending@.len(),
        {
            let ghost pre = pending@;
            let ghost states_pre = states@;
            let (s0, opt) = pending.remove(0);
            proof {
                assert(pre[0] == (s0, opt));
                assert(pre.drop_first() =~= pending@);
            }
            match opt {
                Some(et) => {
                    let (e0, t) = et;
                    let ec = if e0 < s0 {
                        s0
                    } else {
                        e0
                    };
                    let st = State::of((s0, ec), t);
                    states.push(st);
                    proof {
                        assert(states@ =~= states_pre + seq![classified_clamped(
                            pre[0].0,
                            pre[0].1->Some_0.0,
                            pre[0].1->Some_0.1,
                        )]);
                        assert(states_pre + (seq![classified_clamped(
                            pre[0].0,
                            pre[0].1->Some_0.0,
                            pre[0].1->Some_0.1,
                        )] + states_of_pending(pending@)) =~= states@ + states_of_pending(
                            pending@,
                        ));
                    }
                },
                None => {},
            }
        }
        proof {
            assert(states_of_pending(pending@) =~= Seq::<State>::empty());
            assert(states@ =~= states_of_pending(pend_all));
            assert(states@ == resolve_states_spec(c, orig));
        }
        states
    }

    /// Apply the change of the given line/column `range` of an edit and the
    /// edited `text` to this file: resolve the range against the current
    /// contents, then apply the resulting operation.
    pub fn apply_change(&mut self, range: Range, text: String) -> (r: Result<(), ErrorKind>)
        ensures
            match r {
                Ok(()) => apply_one(old(self)@, resolved_state(old(self)@, range, text)) == Ok::<
                    Seq<u8>,
                    ErrorKind,
                >(final(self)@),
                Err(e) => apply_one(old(self)@, resolved_state(old(self)@, range, text)) == Err::<
                    Seq<u8>,
                    ErrorKind,
                >(e) && final(self)@ == old(self)@,
            },
    {
        let state = self.get_state(range, text);
        self.apply(state)
    }

    /// Apply the change of one edit `State` to this file. On failure the
    /// contents are untouched: the rewritten buffer is written back only
    /// once, at the end.
    pub fn apply(&mut self, state: State) -> (r: Result<(), ErrorKind>)
        ensures
            match r {
                Ok(()) => apply_one(old(self)@, state) == Ok::<Seq<u8>, ErrorKind>(final(self)@),
                Err(e) => apply_one(old(self)@, state) == Err::<Seq<u8>, ErrorKind>(e)
                    && final(self)@ == old(self)@,
            },
    {
        let ghost c = self.bytes@;
        let len = self.bytes.len();
        let offset = state.offset();
        if offset > len {
            return Err(ErrorKind::IO);
        }
        let mut out: Vec<u8> = Vec::new();
        copy_range(&mut out, &self.bytes, 0, offset);
        let after: Option<usize> = match &state {
            State::Delete(_, length) => offset.checked_add(*length),
            State::Insert(_, text) => {
                copy_text(&mut out, text);
                Some(offset)
            },
            State::Replace(_, length, text) => {
                copy_text(&mut out, text);
                offset.checked_add(*length)
            },
        };
        proof {
            assert(out@ =~= c.subrange(0, state.spec_offset() as int) + state.emitted());
        }
        if let Some(end) = after {
            if end < len {
                copy_range(&mut out, &self.bytes, end, len);
            }
        }
        proof {
            // `after` is None exactly when the consumed span ends beyond the
            // largest byte offset the machine can address, past any file
            assert(out@ =~= c.subrange(0, state.spec_offset() as int) + state.emitted()
                + tail_from(c, state.spec_offset() + state.consumed()));
        }
        self.bytes = out;
        Ok(())
    }

    /// Apply a whole batch of editor change events to this file: an event
    /// with no range replaces the document with its text outright, and the
    /// ranged events after it are resolved in one scan, sorted ascending by
    /// resolved start offset, and applied in one rewrite pass. On an ordering
    /// or bounds failure the rewrite is abandoned and the contents stay at
    /// the batch's base: no partially-applied operation is ever visible.
    pub fn apply_all_changes(&mut self, changes: Vec<ChangeEvent>) -> (r: Result<(), ErrorKind>)
        ensures
            ({
                let base = change_base(old(self)@, changes@);
                let ops = sorted_by_offset(resolve_states_spec(base, change_rest(changes@)));
                match r {
                    Ok(()) => apply_all_spec(base, ops) == Ok::<Seq<u8>, ErrorKind>(final(self)@),
                    Err(e) => apply_all_spec(base, ops) == Err::<Seq<u8>, ErrorKind>(e)
                        && final(self)@ == base,
                }
            }),
    {
        let ghost orig = changes@;
        let mut changes = changes;
        let mut rest: Vec<ChangeEvent> = Vec::new();
        let mut full: Option<String> = None;
        while changes.len() > 0 && full.is_none()
            invariant
                split_at_last_full(orig).0 == (match full {
                    Some(t) => Some(t),
                    None => split_at_last_full(changes@).0,
                }),
                split_at_last_full(orig).1 =~= (match full {
                    Some(t) => rest@,
                    None => split_at_last_full(changes@).1 + rest@,
                }),
            decreases changes@.len(),
        {
            let ghost pre = changes@;
            let ghost rest_pre = rest@;
            let ch = changes.pop().unwrap();
            proof {
                assert(pre.last() == ch);
                assert(pre.drop_last() =~= changes@);
            }
            match ch.range {
                Some(_) => {
                    rest.insert(0, ch);
                    proof {
                        assert(rest@ =~= seq![ch] + rest_pre);
                        assert(split_at_last_full(pre).1 + rest_pre =~= split_at_last_full(
                            changes@,
                        ).1 + rest@);
                    }
                },
                None => {
                    full = Some(ch.text);
                },
            }
        }
        if let Some(t) = full {
            self.bytes = t.as_str().as_bytes_vec();
        }
        proof {
            assert(self@ == change_base(old(self)@, orig));
            assert(rest@ =~= change_rest(orig));
        }
        let states = self.iter_states(rest);
        let states = sort_by_offset(states);
        self.apply_all(states)
    }

    /// Apply a whole batch of edit `State`s, sorted ascending by offset, in
    /// one pass. Either the batch produces one consistent new contents, or it
    /// fails before any byte is written back and the file is unchanged.
    pub fn apply_all(&mut self, states: Vec<State>) -> (r: Result<(), ErrorKind>)
        ensures
            match r {
                Ok(()) => apply_all_spec(old(self)@, states@) == Ok::<Seq<u8>, ErrorKind>(final(self)@),
                Err(e) => apply_all_spec(old(self)@, states@) == Err::<Seq<u8>, ErrorKind>(e)
                    && final(self)@ == old(self)@,
            },
    {
        let ghost c = self.bytes@;
        let len = self.bytes.len();
        let mut out: Vec<u8> = Vec::new();
        let mut cursor: usize = 0;
        let mut i: usize = 0;
        proof {
            assert(states@.skip(0) =~= states@);
            if apply_from(c, 0, states@) is Ok {
                assert(Seq::<u8>::empty() + apply_from(c, 0, states@)->Ok_0 =~= apply_from(
                    c,
                    0,
                    states@,
                )->Ok_0);
            }
        }
        while i < states.len()
            invariant
                i <= states@.len(),
                c == old(self)@,
                self.bytes@ == c,
                len == c.len(),
                apply_from(c, 0, states@) == (match apply_from(
                    c,
                    cursor as nat,
                    states@.skip(i as int),
                ) {
                    Ok(rest) => Ok::<Seq<u8>, ErrorKind>(out@ + rest),
                    Err(e) => Err::<Seq<u8>, ErrorKind>(e),
                }),
            decreases states@.len() - i,
        {
            let ghost sp = states@[i as int];
            proof {
                assert(states@.skip(i as int)[0] == sp);
                assert(states@.skip(i as int).drop_first() =~= states@.skip(i as int + 1));
            }
            let ghost pre_out = out@;
            let st = &states[i];
            let o = st.offset();
            if o < cursor {
                return Err(ErrorKind::NotSorted);
            }
            if o > cursor && o > len {
                return Err(ErrorKind::IO);
            }
            if o > cursor {
                copy_range(&mut out, &self.bytes, cursor, o);
            }
            let next: Option<usize> = match st {
                State::Delete(_, length) => o.checked_add(*length),
                State::Insert(_, text) => {
                    copy_text(&mut out, text);
                    Some(o)
                },
                State::Replace(_, length, text) => {
                    copy_text(&mut out, text);
                    o.checked_add(*length)
                },
            };
            let ghost gap = if sp.spec_offset() == cursor as nat {
                Seq::<u8>::empty()
            } else {
                c.subrange(cursor as int, sp.spec_offset() as int)
            };
            let ghost spec_next: int = sp.spec_offset() + sp.consumed();
            proof {
                assert(out@ =~= pre_out + gap + sp.emitted());
                assert(apply_from(c, cursor as nat, states@.skip(i as int)) == (match apply_from(
                    c,
                    spec_next as nat,
                    states@.skip(i as int + 1),
                ) {
                    Ok(rest) => Ok::<Seq<u8>, ErrorKind>(gap + sp.emitted() + rest),
                    Err(e) => Err::<Seq<u8>, ErrorKind>(e),
                }));
            }
            match next {
                Some(nc) => {
                    proof {
                        assert(spec_next == nc as int);
                        if apply_from(c, spec_next as nat, states@.skip(i as int + 1)) is Ok {
                            let rest = apply_from(c, spec_next as nat, states@.skip(i as int + 1))->Ok_0;
                            assert(out@ + rest =~= pre_out + (gap + sp.emitted() + rest));
                        }
                    }
                    cursor = nc;
                    i = i + 1;
                },
                None => {
                    // the consumed span ends beyond the largest byte offset
                    // the machine can address: past the end of any file, and
                    // before no operation that could still be addressed
                    if i + 1 < states.len() {
                        proof {
                            let nx = states@.skip(i as int + 1)[0];
                            assert(nx == states@[i as int + 1]);
                            assert(nx.spec_offset() < spec_next);
                        }
                        return Err(ErrorKind::NotSorted);
                    }
                    proof {
                        assert(states@.skip(i as int + 1).len() == 0);
                        assert(tail_from(c, spec_next) == Seq::<u8>::empty());
                        assert(out@ + Seq::<u8>::empty() =~= pre_out + (gap + sp.emitted()
                            + Seq::<u8>::empty()));
                    }
                    self.bytes = out;
                    return Ok(());
                },
            }
        }
        proof {
            assert(states@.skip(i as int).len() == 0);
            assert(apply_from(c, cursor as nat, states@.skip(i as int)) == Ok::<
                Seq<u8>,
                ErrorKind,
            >(tail_from(c, cursor as int)));
        }
        let ghost pre_out = out@;
        if cursor < len {
            copy_range(&mut out, &self.bytes, cursor, len);
        }
        proof {
            assert(out@ =~= pre_out + tail_from(c, cursor as int));
        }
        self.bytes = out;
        Ok(())
    }
}

} // verus!
