//! The edit engine: one line buffer, a single-slot kill buffer, and a
//! bounded, most-recent-first history of committed lines, driven by a
//! command interpreter.

use std::collections::VecDeque;

use vstd::prelude::*;
use vstd::slice::slice_to_vec;
use vstd::utf8::{
    decode_last_scalar, encode_scalar, encode_utf8, is_char_boundary,
    is_char_boundary_start_end_of_seq, length_of_first_scalar, length_of_last_scalar,
    pop_first_scalar, valid_utf8, valid_utf8_split,
};

use crate::line_buffer::{
    step_left_spec, step_right_spec, word_left_spec, word_right_spec, LineBuffer,
};
use crate::text::{lemma_boundary_from_byte, lemma_byte_at_boundary, lemma_prefix_boundary};

verus! {

/// The greatest number of committed lines the history retains.
pub const HISTORY_SIZE: usize = 100;

/// One editing command.  A batch of these drives the engine through
/// [`Engine::run_edit_commands`].
pub enum EditCommand {
    MoveToStart,
    MoveToEnd,
    MoveLeft,
    MoveRight,
    MoveWordLeft,
    MoveWordRight,
    InsertChar(char),
    Backspace,
    Delete,
    AppendToHistory,
    PreviousHistory,
    NextHistory,
    Clear,
    CutToEnd,
    InsertCutBuffer,
}

/// The engine state as the contracts see it.
pub ghost struct EngineView {
    /// The UTF-8 bytes of the live line.
    pub content: Seq<u8>,
    /// The byte offset of the insertion point into `content`.
    pub cursor: int,
    /// The UTF-8 bytes held by the kill buffer.
    pub kill: Seq<u8>,
    /// The committed lines, most recent first.
    pub history: Seq<Seq<u8>>,
    /// The index of the history entry being browsed, or -1 for the live
    /// line.
    pub history_cursor: int,
    /// Whether any line has ever been committed.
    pub has_history: bool,
}

impl EngineView {
    /// Validity of an engine state: the line is well-formed UTF-8 with the
    /// cursor on a character boundary, the kill buffer and every history
    /// entry are well-formed and entries are non-empty, the history stays
    /// within its capacity, and the browsing cursor points at an entry or
    /// at the live line.
    pub open spec fn wf(self) -> bool {
        &&& valid_utf8(self.content)
        &&& 0 <= self.cursor <= self.content.len()
        &&& is_char_boundary(self.content, self.cursor)
        &&& valid_utf8(self.kill)
        &&& forall|i: int|
            0 <= i < self.history.len() ==> valid_utf8(#[trigger] self.history[i])
                && self.history[i].len() > 0
        &&& self.history.len() <= HISTORY_SIZE as int
        &&& -1 <= self.history_cursor < self.history.len()
        &&& self.has_history == (self.history.len() > 0)
    }
}

/// The state after a Backspace: at the end of a non-empty line the final
/// character is popped and the cursor snaps to the new end; strictly
/// inside the line the cursor steps one grapheme cluster left and the
/// single character now at the cursor is removed; at offset 0 nothing
/// happens.
pub open spec fn apply_backspace(s: EngineView) -> EngineView {
    if s.cursor == s.content.len() && s.content.len() > 0 {
        let rest = s.content.subrange(0, s.content.len() - length_of_last_scalar(s.content));
        EngineView { content: rest, cursor: rest.len() as int, ..s }
    } else if 0 < s.cursor < s.content.len() {
        let p = step_left_spec(s.content, s.cursor);
        let k = length_of_first_scalar(s.content.subrange(p, s.content.len() as int));
        EngineView {
            content: s.content.subrange(0, p) + s.content.subrange(p + k, s.content.len() as int),
            cursor: p,
            ..s
        }
    } else {
        s
    }
}

/// The state after a Delete: the single character at the cursor is
/// removed and the cursor stays; at the end of the line nothing happens.
pub open spec fn apply_delete(s: EngineView) -> EngineView {
    if s.cursor < s.content.len() {
        let k = length_of_first_scalar(s.content.subrange(s.cursor, s.content.len() as int));
        EngineView {
            content: s.content.subrange(0, s.cursor) + s.content.subrange(
                s.cursor + k,
                s.content.len() as int,
            ),
            ..s
        }
    } else {
        s
    }
}

/// The state after committing the line to the history: a non-empty line
/// is pushed to the front, evicting the oldest entry when the history is
/// full, and browsing returns to the live line; an empty line changes
/// nothing.
pub open spec fn apply_append_to_history(s: EngineView) -> EngineView {
    if s.content.len() > 0 {
        let kept = if s.history.len() >= HISTORY_SIZE as int {
            s.history.drop_last()
        } else {
            s.history
        };
        EngineView { history: seq![s.content] + kept, history_cursor: -1, has_history: true, ..s }
    } else {
        s
    }
}

/// The state after browsing one entry further back: only when something
/// was ever committed and an older entry exists; the entry replaces the
/// line and the cursor moves to its end.  At the oldest entry nothing
/// happens.
pub open spec fn apply_previous_history(s: EngineView) -> EngineView {
    if s.has_history && s.history_cursor < s.history.len() - 1 {
        let line = s.history[s.history_cursor + 1];
        EngineView {
            content: line,
            cursor: line.len() as int,
            history_cursor: s.history_cursor + 1,
            ..s
        }
    } else {
        s
    }
}

/// The state after browsing one entry toward the live line: while
/// browsing, the next-newer entry replaces the line with the cursor at
/// its end; stepping past the newest entry restores an empty live line.
/// When not browsing nothing happens.
pub open spec fn apply_next_history(s: EngineView) -> EngineView {
    if s.history_cursor >= 0 {
        if s.history_cursor - 1 >= 0 {
            let line = s.history[s.history_cursor - 1];
            EngineView {
                content: line,
                cursor: line.len() as int,
                history_cursor: s.history_cursor - 1,
                ..s
            }
        } else {
            EngineView { content: Seq::empty(), cursor: 0, history_cursor: -1, ..s }
        }
    } else {
        s
    }
}

/// The state after cutting to the end of the line: a non-empty tail after
/// the cursor replaces the kill buffer and is removed from the line; an
/// empty tail changes nothing.
pub open spec fn apply_cut_to_end(s: EngineView) -> EngineView {
    let tail = s.content.subrange(s.cursor, s.content.len() as int);
    if tail.len() > 0 {
        EngineView { content: s.content.subrange(0, s.cursor), kill: tail, ..s }
    } else {
        s
    }
}

/// The state after one command.
pub open spec fn apply_command(s: EngineView, c: EditCommand) -> EngineView {
    match c {
        EditCommand::MoveToStart => EngineView { cursor: 0, ..s },
        EditCommand::MoveToEnd => EngineView { cursor: s.content.len() as int, ..s },
        EditCommand::MoveLeft => EngineView { cursor: step_left_spec(s.content, s.cursor), ..s },
        EditCommand::MoveRight => EngineView { cursor: step_right_spec(s.content, s.cursor), ..s },
        EditCommand::MoveWordLeft => EngineView {
            cursor: word_left_spec(s.content, s.cursor),
            ..s
        },
        EditCommand::MoveWordRight => EngineView {
            cursor: word_right_spec(s.content, s.cursor),
            ..s
        },
        EditCommand::InsertChar(ch) => EngineView {
            content: s.content.subrange(0, s.cursor) + encode_scalar(ch as u32)
                + s.content.subrange(s.cursor, s.content.len() as int),
            ..s
        },
        EditCommand::Backspace => apply_backspace(s),
        EditCommand::Delete => apply_delete(s),
        EditCommand::AppendToHistory => apply_append_to_history(s),
        EditCommand::PreviousHistory => apply_previous_history(s),
        EditCommand::NextHistory => apply_next_history(s),
        EditCommand::Clear => EngineView { content: Seq::empty(), cursor: 0, ..s },
        EditCommand::CutToEnd => apply_cut_to_end(s),
        EditCommand::InsertCutBuffer => EngineView {
            content: s.content.subrange(0, s.cursor) + s.kill + s.content.subrange(
                s.cursor,
                s.content.len() as int,
            ),
            cursor: s.cursor + s.kill.len(),
            ..s
        },
    }
}

/// The state after a batch of commands, applied strictly in order.
pub open spec fn apply_commands(s: EngineView, cs: Seq<EditCommand>) -> EngineView
    decreases cs.len(),
{
    if cs.len() == 0 {
        s
    } else {
        apply_commands(apply_command(s, cs[0]), cs.drop_first())
    }
}

/// Appending one command to a batch applies it after the batch.
pub proof fn lemma_apply_commands_push(s: EngineView, cs: Seq<EditCommand>, c: EditCommand)
    ensures
        apply_commands(s, cs.push(c)) == apply_command(apply_commands(s, cs), c),
    decreases cs.len(),
{
    if cs.len() == 0 {
        assert(cs.push(c)[0] == c);
        assert(cs.push(c).drop_first() =~= Seq::<EditCommand>::empty());
        assert(apply_commands(apply_command(s, c), Seq::<EditCommand>::empty()) == apply_command(
            s,
            c,
        ));
        assert(apply_commands(s, Seq::<EditCommand>::empty()) == s);
        assert(cs =~= Seq::<EditCommand>::empty());
    } else {
        assert(cs.push(c)[0] == cs[0]);
        assert(cs.push(c).drop_first() =~= cs.drop_first().push(c));
        lemma_apply_commands_push(apply_command(s, cs[0]), cs.drop_first(), c);
    }
}

/// Backspace idempotence at the start: a Backspace issued while the
/// cursor sits at offset 0 changes neither the content nor the cursor,
/// nor anything else about the engine.
pub proof fn lemma_backspace_at_start_is_noop(s: EngineView)
    requires
        s.wf(),
        s.cursor == 0,
    ensures
        apply_command(s, EditCommand::Backspace) == s,
{
}

/// Empty-history no-op: on an engine that has never committed a line,
/// PreviousHistory and NextHistory leave the state unchanged.
pub proof fn lemma_empty_history_is_noop(s: EngineView)
    requires
        s.wf(),
        !s.has_history,
    ensures
        apply_command(s, EditCommand::PreviousHistory) == s,
        apply_command(s, EditCommand::NextHistory) == s,
{
}

/// Kill-ring round trip: with the cursor strictly inside the line,
/// CutToEnd followed by InsertCutBuffer restores the original content,
/// leaves the cursor at the old end of the line, and leaves the cut tail
/// in the kill buffer.
pub proof fn lemma_cut_paste_round_trip(s: EngineView)
    requires
        s.wf(),
        s.cursor < s.content.len(),
    ensures
        ({
            let t = apply_commands(s, seq![EditCommand::CutToEnd, EditCommand::InsertCutBuffer]);
            &&& t.content == s.content
            &&& t.cursor == s.content.len()
            &&& t.kill == s.content.subrange(s.cursor, s.content.len() as int)
            &&& t.history == s.history
            &&& t.history_cursor == s.history_cursor
            &&& t.has_history == s.has_history
        }),
{
    reveal_with_fuel(apply_commands, 4);
    let cs = seq![EditCommand::CutToEnd, EditCommand::InsertCutBuffer];
    let s1 = apply_command(s, EditCommand::CutToEnd);
    assert(cs[0] == EditCommand::CutToEnd);
    assert(cs.drop_first() =~= seq![EditCommand::InsertCutBuffer]);
    let cs2 = seq![EditCommand::InsertCutBuffer];
    assert(cs2[0] == EditCommand::InsertCutBuffer);
    assert(cs2.drop_first() =~= Seq::<EditCommand>::empty());
    let s2 = apply_command(s1, EditCommand::InsertCutBuffer);
    assert(apply_commands(s2, Seq::<EditCommand>::empty()) == s2);
    assert(apply_commands(s, cs) == s2);
    let tail = s.content.subrange(s.cursor, s.content.len() as int);
    assert(s1.content =~= s.content.subrange(0, s.cursor));
    assert(s1.content.subrange(0, s.cursor) =~= s.content.subrange(0, s.cursor));
    assert(s1.content.subrange(s.cursor, s1.content.len() as int) =~= Seq::<u8>::empty());
    assert(s2.content =~= s.content);
}

/// The engine state reached from `s` by taking each line in turn as the
/// live line and committing it to the history.
pub open spec fn after_commits(s: EngineView, lines: Seq<Seq<u8>>) -> EngineView
    decreases lines.len(),
{
    if lines.len() == 0 {
        s
    } else {
        after_commits(
            apply_command(
                EngineView { content: lines[0], cursor: 0, ..s },
                EditCommand::AppendToHistory,
            ),
            lines.drop_first(),
        )
    }
}

proof fn lemma_after_commits_push(s: EngineView, lines: Seq<Seq<u8>>, l: Seq<u8>)
    ensures
        after_commits(s, lines.push(l)) == apply_command(
            EngineView { content: l, cursor: 0, ..after_commits(s, lines) },
            EditCommand::AppendToHistory,
        ),
    decreases lines.len(),
{
    reveal_with_fuel(after_commits, 3);
    if lines.len() == 0 {
        assert(lines.push(l)[0] == l);
        assert(lines.push(l).drop_first() =~= Seq::<Seq<u8>>::empty());
        assert(lines =~= Seq::<Seq<u8>>::empty());
    } else {
        assert(lines.push(l)[0] == lines[0]);
        assert(lines.push(l).drop_first() =~= lines.drop_first().push(l));
        lemma_after_commits_push(
            apply_command(
                EngineView { content: lines[0], cursor: 0, ..s },
                EditCommand::AppendToHistory,
            ),
            lines.drop_first(),
            l,
        );
    }
}

/// History bound: committing any sequence of non-empty lines into an
/// engine with an empty history leaves at most 100 entries; entry `i` is
/// always the `i`-th most recent line, so once at least 100 lines have
/// been committed, exactly the 100 most recent remain, most recent first.
pub proof fn lemma_history_bound(s: EngineView, lines: Seq<Seq<u8>>)
    requires
        s.history.len() == 0,
        forall|i: int| 0 <= i < lines.len() ==> (#[trigger] lines[i]).len() > 0,
    ensures
        after_commits(s, lines).history.len() == if lines.len() <= HISTORY_SIZE as int {
            lines.len() as int
        } else {
            HISTORY_SIZE as int
        },
        forall|i: int|
            0 <= i < after_commits(s, lines).history.len() ==> #[trigger] after_commits(
                s,
                lines,
            ).history[i] == lines[lines.len() - 1 - i],
    decreases lines.len(),
{
    if lines.len() == 0 {
    } else {
        let init = lines.drop_last();
        let l = lines.last();
        assert(forall|i: int| 0 <= i < init.len() ==> #[trigger] init[i] == lines[i]);
        lemma_history_bound(s, init);
        lemma_after_commits_push(s, init, l);
        assert(init.push(l) =~= lines);
        let t = after_commits(s, init);
        let u = after_commits(s, lines);
        assert(u == apply_command(
            EngineView { content: l, cursor: 0, ..t },
            EditCommand::AppendToHistory,
        ));
        let kept = if t.history.len() >= HISTORY_SIZE as int {
            t.history.drop_last()
        } else {
            t.history
        };
        assert(u.history =~= seq![l] + kept);
        assert forall|i: int| 0 <= i < u.history.len() implies #[trigger] u.history[i]
            == lines[lines.len() - 1 - i] by {
            if i == 0 {
                assert(u.history[0] == l);
            } else {
                assert(u.history[i] == kept[i - 1]);
                assert(kept[i - 1] == t.history[i - 1]);
            }
        }
    }
}

/// Splicing well-formed bytes into a well-formed line at a boundary at or
/// after the cursor keeps the line well-formed and keeps both the cursor
/// and the offset just past the splice on boundaries.
proof fn lemma_splice_keeps_boundaries(s: Seq<u8>, pos: int, mid: Seq<u8>, cur: int)
    requires
        valid_utf8(s),
        valid_utf8(mid),
        0 <= cur <= pos <= s.len(),
        is_char_boundary(s, pos),
        is_char_boundary(s, cur),
    ensures
        valid_utf8(s.subrange(0, pos) + mid + s.subrange(pos, s.len() as int)),
        is_char_boundary(s.subrange(0, pos) + mid + s.subrange(pos, s.len() as int), cur),
        is_char_boundary(
            s.subrange(0, pos) + mid + s.subrange(pos, s.len() as int),
            pos + mid.len(),
        ),
{
    let a = s.subrange(0, pos);
    let b = s.subrange(pos, s.len() as int);
    valid_utf8_split(s, pos);
    if cur == pos {
        lemma_boundary_from_byte(a, cur);
    } else {
        lemma_byte_at_boundary(s, cur);
        assert(a[cur] == s[cur]);
        lemma_boundary_from_byte(a, cur);
    }
    lemma_prefix_boundary(a, mid, cur);
    lemma_boundary_from_byte(a + mid, pos + mid.len());
    lemma_prefix_boundary(a + mid, b, cur);
    lemma_prefix_boundary(a + mid, b, pos + mid.len());
}

/// Removing the single character at a boundary at or after the cursor
/// keeps the line well-formed and the cursor on a boundary.
proof fn lemma_removal_keeps_boundaries(s: Seq<u8>, pos: int, cur: int)
    requires
        valid_utf8(s),
        0 <= cur <= pos < s.len(),
        is_char_boundary(s, pos),
        is_char_boundary(s, cur),
    ensures
        ({
            let k = length_of_first_scalar(s.subrange(pos, s.len() as int));
            let n = s.subrange(0, pos) + s.subrange(pos + k, s.len() as int);
            &&& pos + k <= s.len()
            &&& valid_utf8(n)
            &&& is_char_boundary(n, cur)
        }),
{
    let a = s.subrange(0, pos);
    let t = s.subrange(pos, s.len() as int);
    valid_utf8_split(s, pos);
    let k = length_of_first_scalar(t);
    let c = pop_first_scalar(t);
    assert(c =~= s.subrange(pos + k, s.len() as int));
    if cur == pos {
        lemma_boundary_from_byte(a, cur);
    } else {
        lemma_byte_at_boundary(s, cur);
        assert(a[cur] == s[cur]);
        lemma_boundary_from_byte(a, cur);
    }
    lemma_prefix_boundary(a, c, cur);
}

/// Truncating a well-formed line at a boundary at or after the cursor
/// keeps the line well-formed and the cursor on a boundary.
proof fn lemma_truncation_keeps_boundaries(s: Seq<u8>, pos: int, cur: int)
    requires
        valid_utf8(s),
        0 <= cur <= pos <= s.len(),
        is_char_boundary(s, pos),
        is_char_boundary(s, cur),
    ensures
        valid_utf8(s.subrange(0, pos)),
        is_char_boundary(s.subrange(0, pos), cur),
{
    let a = s.subrange(0, pos);
    valid_utf8_split(s, pos);
    if cur == pos {
        lemma_boundary_from_byte(a, cur);
    } else {
        lemma_byte_at_boundary(s, cur);
        assert(a[cur] == s[cur]);
        lemma_boundary_from_byte(a, cur);
    }
}

/// The line-editing engine.
pub struct Engine {
    line_buffer: LineBuffer,
    cut_buffer: Vec<u8>,
    history: VecDeque<Vec<u8>>,
    history_cursor: i64,
    /// Whether any line has ever been committed to the history.
    pub has_history: bool,
}

impl View for Engine {
    type V = EngineView;

    closed spec fn view(&self) -> EngineView {
        EngineView {
            content: self.line_buffer.bytes(),
            cursor: self.line_buffer.cursor(),
            kill: self.cut_buffer@,
            history: self.history.deep_view(),
            history_cursor: self.history_cursor as int,
            has_history: self.has_history,
        }
    }
}

impl Engine {
    /// Validity of the engine.
    pub open spec fn wf(&self) -> bool {
        self@.wf()
    }

    /// A fresh engine: empty line, empty kill buffer, empty history, not
    /// browsing.
    pub fn new() -> (r: Self)
        ensures
            r.wf(),
            r@ == (EngineView {
                content: Seq::<u8>::empty(),
                cursor: 0,
                kill: Seq::<u8>::empty(),
                history: Seq::<Seq<u8>>::empty(),
                history_cursor: -1,
                has_history: false,
            }),
    {
        let r = Engine {
            line_buffer: LineBuffer::new(),
            history: VecDeque::with_capacity(HISTORY_SIZE),
            history_cursor: -1,
            has_history: false,
            cut_buffer: Vec::new(),
        };
        proof {
            assert(r.history.deep_view() =~= Seq::<Seq<u8>>::empty());
        }
        r
    }

    /// Place the insertion point at the end of the line.
    pub fn move_to_end(&mut self)
        requires
            old(self).wf(),
        ensures
            final(self).wf(),
            final(self)@ == (EngineView { cursor: old(self)@.content.len() as int, ..old(self)@ }),
    {
        proof {
            is_char_boundary_start_end_of_seq(self@.content);
        }
        self.line_buffer.move_to_end();
    }

    /// The current insertion point, as a byte offset.
    pub fn get_insertion_point(&self) -> (r: usize)
        ensures
            r == self@.cursor,
    {
        self.line_buffer.get_insertion_point()
    }

    /// The length of the line in bytes.
    pub fn get_buffer_length(&self) -> (r: usize)
        ensures
            r == self@.content.len(),
    {
        self.line_buffer.get_buffer_length()
    }

    /// The content of the line, as a string.
    pub fn get_buffer(&self) -> (r: String)
        requires
            self.wf(),
        ensures
            encode_utf8(r@) == self@.content,
    {
        self.line_buffer.get_buffer()
    }

    /// Whether the line is empty.
    pub fn is_empty(&self) -> (r: bool)
        ensures
            r == (self@.content.len() == 0),
    {
        self.line_buffer.is_empty()
    }

    /// Place the insertion point at the given byte offset, which must fall
    /// on a character boundary of the line.
    pub fn set_insertion_point(&mut self, pos: usize)
        requires
            old(self).wf(),
            pos <= old(self)@.content.len(),
            is_char_boundary(old(self)@.content, pos as int),
        ensures
            final(self).wf(),
            final(self)@ == (EngineView { cursor: pos as int, ..old(self)@ }),
    {
        self.line_buffer.set_insertion_point(pos);
    }

    /// Advance the insertion point to the start of the next grapheme
    /// cluster, or to the end of the line when there is none.
    pub fn increment_insertion_point(&mut self)
        requires
            old(self).wf(),
        ensures
            final(self).wf(),
            final(self)@ == (EngineView {
                cursor: step_right_spec(old(self)@.content, old(self)@.cursor),
                ..old(self)@
            }),
    {
        self.line_buffer.increment_insertion_point();
    }

    /// Retreat the insertion point to the start of the previous grapheme
    /// cluster, or to the start of the line when there is none.
    pub fn decrement_insertion_point(&mut self)
        requires
            old(self).wf(),
        ensures
            final(self).wf(),
            final(self)@ == (EngineView {
                cursor: step_left_spec(old(self)@.content, old(self)@.cursor),
                ..old(self)@
            }),
            final(self)@.content.len() > 0 ==> final(self)@.cursor < final(self)@.content.len(),
    {
        self.line_buffer.decrement_insertion_point();
    }

    /// Move the insertion point to the closest word separator strictly
    /// before the character just left of the cursor, or to the start of
    /// the line, and return the new offset.
    pub fn move_word_left(&mut self) -> (r: usize)
        requires
            old(self).wf(),
        ensures
            final(self).wf(),
            final(self)@ == (EngineView {
                cursor: word_left_spec(old(self)@.content, old(self)@.cursor),
                ..old(self)@
            }),
            r as int == final(self)@.cursor,
    {
        self.line_buffer.move_word_left()
    }

    /// Move the insertion point one past the first word separator strictly
    /// after the cursor, or to the end of the line, and return the new
    /// offset.
    pub fn move_word_right(&mut self) -> (r: usize)
        requires
            old(self).wf(),
        ensures
            final(self).wf(),
            final(self)@ == (EngineView {
                cursor: word_right_spec(old(self)@.content, old(self)@.cursor),
                ..old(self)@
            }),
            r as int == final(self)@.cursor,
    {
        self.line_buffer.move_word_right()
    }

    /// Remove and return the final character of the line, if any; the
    /// insertion point ends up at the end of the shortened line.
    pub fn pop(&mut self) -> (r: Option<char>)
        requires
            old(self).wf(),
        ensures
            final(self).wf(),
            old(self)@.content.len() == 0 ==> r is None && final(self)@ == (EngineView {
                cursor: 0,
                ..old(self)@
            }),
            old(self)@.content.len() > 0 ==> ({
                let s = old(self)@.content;
                let rest = s.subrange(0, s.len() - length_of_last_scalar(s));
                &&& r == Some(decode_last_scalar(s) as char)
                &&& final(self)@ == (EngineView { content: rest, cursor: rest.len() as int, ..old(self)@ })
            }),
    {
        let r = self.line_buffer.pop();
        proof {
            is_char_boundary_start_end_of_seq(self@.content);
        }
        r
    }

    /// Empty the line and return the insertion point to the start.
    pub fn clear_buffer(&mut self)
        requires
            old(self).wf(),
        ensures
            final(self).wf(),
            final(self)@ == (EngineView { content: Seq::<u8>::empty(), cursor: 0, ..old(self)@ }),
    {
        self.line_buffer.clear_buffer();
    }

    /// Empty the line, leaving the insertion point where it was.  The
    /// engine is well-formed afterwards only when the insertion point was
    /// already at the start of the line; the interpreter's Clear command
    /// resets the insertion point as well.
    pub fn clear(&mut self)
        requires
            old(self).wf(),
        ensures
            final(self)@ == (EngineView {
                content: Seq::<u8>::empty(),
                cursor: old(self)@.cursor,
                ..old(self)@
            }),
            old(self)@.cursor == 0 ==> final(self).wf(),
    {
        self.line_buffer.clear();
    }

    /// Replace the content of the line.  The insertion point is left where
    /// it was, so the caller must see to it that the old offset falls on a
    /// character boundary of the new content (offset 0 always does).
    pub fn set_buffer(&mut self, buffer: String)
        requires
            old(self).wf(),
            old(self)@.cursor <= encode_utf8(buffer@).len(),
            is_char_boundary(encode_utf8(buffer@), old(self)@.cursor),
        ensures
            final(self).wf(),
            final(self)@ == (EngineView { content: encode_utf8(buffer@), ..old(self)@ }),
    {
        self.line_buffer.set_buffer(buffer);
    }

    /// Insert one character at the given byte offset, which must fall on a
    /// character boundary at or after the insertion point.  The insertion
    /// point is not moved.
    pub fn insert_char(&mut self, pos: usize, c: char)
        requires
            old(self).wf(),
            pos <= old(self)@.content.len(),
            is_char_boundary(old(self)@.content, pos as int),
            old(self)@.cursor <= pos,
        ensures
            final(self).wf(),
            final(self)@ == (EngineView {
                content: old(self)@.content.subrange(0, pos as int) + encode_scalar(c as u32)
                    + old(self)@.content.subrange(pos as int, old(self)@.content.len() as int),
                ..old(self)@
            }),
    {
        let ghost s = self@.content;
        let ghost cur = self@.cursor;
        self.line_buffer.insert_char(pos, c);
        proof {
            crate::text::lemma_encode_scalar_valid(c);
            lemma_splice_keeps_boundaries(s, pos as int, encode_scalar(c as u32), cur);
        }
    }

    /// Insert a string at the given byte offset, which must fall on a
    /// character boundary at or after the insertion point.  The insertion
    /// point is not moved.
    pub fn insert_string(&mut self, pos: usize, s: &str)
        requires
            old(self).wf(),
            pos <= old(self)@.content.len(),
            is_char_boundary(old(self)@.content, pos as int),
            old(self)@.cursor <= pos,
        ensures
            final(self).wf(),
            final(self)@ == (EngineView {
                content: old(self)@.content.subrange(0, pos as int) + encode_utf8(s@)
                    + old(self)@.content.subrange(pos as int, old(self)@.content.len() as int),
                ..old(self)@
            }),
    {
        let ghost content = self@.content;
        let ghost cur = self@.cursor;
        self.line_buffer.insert_string(pos, s);
        proof {
            vstd::utf8::encode_utf8_valid_utf8(s@);
            lemma_splice_keeps_boundaries(content, pos as int, encode_utf8(s@), cur);
        }
    }

    /// Remove the single character whose encoding starts at the given byte
    /// offset, which must fall on a character boundary at or after the
    /// insertion point and strictly inside the line.  The insertion point
    /// is not moved.
    pub fn remove_char(&mut self, pos: usize)
        requires
            old(self).wf(),
            pos < old(self)@.content.len(),
            is_char_boundary(old(self)@.content, pos as int),
            old(self)@.cursor <= pos,
        ensures
            final(self).wf(),
            ({
                let s = old(self)@.content;
                let k = length_of_first_scalar(s.subrange(pos as int, s.len() as int));
                final(self)@ == (EngineView {
                    content: s.subrange(0, pos as int) + s.subrange(pos as int + k, s.len() as int),
                    ..old(self)@
                })
            }),
    {
        let ghost s = self@.content;
        let ghost cur = self@.cursor;
        self.line_buffer.remove_char(pos);
        proof {
            lemma_removal_keeps_boundaries(s, pos as int, cur);
        }
    }

    /// Discard everything from the given byte offset, which must fall on a
    /// character boundary at or after the insertion point, to the end of
    /// the line.  An offset past the end leaves the line unchanged.
    pub fn clear_to_end(&mut self, pos: usize)
        requires
            old(self).wf(),
            pos as int > old(self)@.content.len() || is_char_boundary(
                old(self)@.content,
                pos as int,
            ),
            old(self)@.cursor <= pos,
        ensures
            final(self).wf(),
            final(self)@ == (EngineView {
                content: if pos as int <= old(self)@.content.len() {
                    old(self)@.content.subrange(0, pos as int)
                } else {
                    old(self)@.content
                },
                ..old(self)@
            }),
    {
        let ghost s = self@.content;
        let ghost cur = self@.cursor;
        self.line_buffer.clear_to_end(pos);
        proof {
            if pos as int <= s.len() {
                lemma_truncation_keeps_boundaries(s, pos as int, cur);
            }
        }
    }

    /// One Backspace.
    fn do_backspace(&mut self)
        requires
            old(self).wf(),
        ensures
            final(self).wf(),
            final(self)@ == apply_backspace(old(self)@),
    {
        let ip = self.get_insertion_point();
        let len = self.get_buffer_length();
        if ip == len && !self.is_empty() {
            self.pop();
        } else if ip < len && ip > 0 {
            self.decrement_insertion_point();
            let p = self.get_insertion_point();
            self.remove_char(p);
        }
    }

    /// One Delete.
    fn do_delete(&mut self)
        requires
            old(self).wf(),
        ensures
            final(self).wf(),
            final(self)@ == apply_delete(old(self)@),
    {
        let ip = self.get_insertion_point();
        let len = self.get_buffer_length();
        if ip < len {
            self.remove_char(ip);
        }
    }

    /// One AppendToHistory.
    fn do_append_to_history(&mut self)
        requires
            old(self).wf(),
        ensures
            final(self).wf(),
            final(self)@ == apply_append_to_history(old(self)@),
    {
        let ghost pre = self@;
        if !self.line_buffer.is_empty() {
            if self.history.len() == HISTORY_SIZE {
                self.history.pop_back();
                proof {
                    assert(self.history.deep_view() =~= pre.history.drop_last());
                }
            }
            let ghost kept = self.history.deep_view();
            let entry = self.line_buffer.suffix_bytes(0);
            proof {
                assert(entry@ =~= pre.content);
                assert(entry.deep_view() =~= pre.content);
            }
            self.history.push_front(entry);
            self.has_history = true;
            self.history_cursor = -1;
            proof {
                assert(self.history.deep_view() =~= seq![pre.content] + kept);
            }
        }
    }

    /// One PreviousHistory.
    fn do_previous_history(&mut self)
        requires
            old(self).wf(),
        ensures
            final(self).wf(),
            final(self)@ == apply_previous_history(old(self)@),
    {
        let ghost pre = self@;
        let hlen = self.history.len();
        if self.has_history && self.history_cursor < hlen as i64 - 1 {
            let idx = (self.history_cursor + 1) as usize;
            let entry = slice_to_vec(self.history[idx].as_slice());
            proof {
                assert(entry@ =~= pre.history[idx as int]);
            }
            self.history_cursor = self.history_cursor + 1;
            self.line_buffer.set_bytes(entry);
            self.line_buffer.move_to_end();
            proof {
                is_char_boundary_start_end_of_seq(self@.content);
            }
        }
    }

    /// One NextHistory.
    fn do_next_history(&mut self)
        requires
            old(self).wf(),
        ensures
            final(self).wf(),
            final(self)@ == apply_next_history(old(self)@),
    {
        let ghost pre = self@;
        if self.history_cursor >= 0 {
            self.history_cursor = self.history_cursor - 1;
            if self.history_cursor >= 0 {
                let idx = self.history_cursor as usize;
                let entry = slice_to_vec(self.history[idx].as_slice());
                proof {
                    assert(entry@ =~= pre.history[idx as int]);
                }
                self.line_buffer.set_bytes(entry);
                self.line_buffer.move_to_end();
                proof {
                    is_char_boundary_start_end_of_seq(self@.content);
                }
            } else {
                self.line_buffer.set_bytes(Vec::new());
                self.line_buffer.move_to_end();
            }
        }
    }

    /// One CutToEnd.
    fn do_cut_to_end(&mut self)
        requires
            old(self).wf(),
        ensures
            final(self).wf(),
            final(self)@ == apply_cut_to_end(old(self)@),
    {
        let ghost pre = self@;
        let ip = self.get_insertion_point();
        let len = self.get_buffer_length();
        if ip < len {
            let tail = self.line_buffer.suffix_bytes(ip);
            proof {
                valid_utf8_split(pre.content, ip as int);
            }
            self.cut_buffer = tail;
            self.line_buffer.clear_to_end(ip);
            proof {
                lemma_truncation_keeps_boundaries(pre.content, ip as int, ip as int);
            }
        }
    }

    /// One InsertCutBuffer.
    fn do_insert_cut_buffer(&mut self)
        requires
            old(self).wf(),
        ensures
            final(self).wf(),
            final(self)@ == apply_command(old(self)@, EditCommand::InsertCutBuffer),
    {
        let ghost pre = self@;
        let ip = self.get_insertion_point();
        self.line_buffer.splice_in(ip, &self.cut_buffer);
        let newlen = self.line_buffer.get_buffer_length();
        let k = self.cut_buffer.len();
        assert(ip + k <= newlen);
        self.line_buffer.set_insertion_point(ip + k);
        proof {
            lemma_splice_keeps_boundaries(pre.content, ip as int, pre.kill, pre.cursor);
        }
    }

    /// Apply each command of the batch strictly in order, each completing
    /// before the next begins.  Every command is a no-op when its
    /// conditions are not met; the interpreter has no error channel.
    pub fn run_edit_commands(&mut self, commands: &[EditCommand])
        requires
            old(self).wf(),
        ensures
            final(self).wf(),
            final(self)@ == apply_commands(old(self)@, commands@),
    {
        let n = commands.len();
        let mut idx: usize = 0;
        proof {
            assert(commands@.take(0) =~= Seq::<EditCommand>::empty());
        }
        while idx < n
            invariant
                old(self).wf(),
                self.wf(),
                n == commands@.len(),
                0 <= idx <= n,
                self@ == apply_commands(old(self)@, commands@.take(idx as int)),
            decreases n - idx,
        {
            let ghost pre = self@;
            match &commands[idx] {
                EditCommand::MoveToStart => {
                    self.set_insertion_point(0);
                },
                EditCommand::MoveToEnd => {
                    self.move_to_end();
                },
                EditCommand::MoveLeft => {
                    self.decrement_insertion_point();
                },
                EditCommand::MoveRight => {
                    self.increment_insertion_point();
                },
                EditCommand::MoveWordLeft => {
                    self.move_word_left();
                },
                EditCommand::MoveWordRight => {
                    self.move_word_right();
                },
                EditCommand::InsertChar(c) => {
                    let ip = self.get_insertion_point();
                    self.insert_char(ip, *c);
                },
                EditCommand::Backspace => {
                    self.do_backspace();
                },
                EditCommand::Delete => {
                    self.do_delete();
                },
                EditCommand::AppendToHistory => {
                    self.do_append_to_history();
                },
                EditCommand::PreviousHistory => {
                    self.do_previous_history();
                },
                EditCommand::NextHistory => {
                    self.do_next_history();
                },
                EditCommand::Clear => {
                    self.line_buffer.clear();
                    self.line_buffer.set_insertion_point(0);
                },
                EditCommand::CutToEnd => {
                    self.do_cut_to_end();
                },
                EditCommand::InsertCutBuffer => {
                    self.do_insert_cut_buffer();
                },
            }
            proof {
                assert(self@ == apply_command(pre, commands@[idx as int]));
                lemma_apply_commands_push(
                    old(self)@,
                    commands@.take(idx as int),
                    commands@[idx as int],
                );
                assert(commands@.take(idx as int).push(commands@[idx as int]) =~= commands@.take(
                    idx as int + 1,
                ));
            }
            idx = idx + 1;
        }
        proof {
            assert(commands@.take(n as int) =~= commands@);
        }
    }
}

} // verus!
