//! A window: a bounded, scrollable view over a stretch of visual lines,
//! owning the screen-space cursor.

use vstd::prelude::*;

use crate::buffer::buf_texts;
use crate::ext::{buf_map_get, buf_slots, key_eq, key_is_null, rope_char_at, BufTable};
use crate::vlines::{line_ref, VLine, VLineCursor, VLines};

verus! {

/// The lazily derived interpretation of the screen cursor: a char offset
/// into the buffer text plus the virtual whitespace that would have to be
/// materialized before an edit there.
#[derive(Clone, Copy)]
#[verifier::ext_equal]
pub struct Position {
    pub char_idx: usize,
    pub trailing_spaces: usize,
    pub newlines: usize,
    pub relative_x: usize,
    pub invalid: bool,
    pub cursor: VLineCursor,
}

#[verifier::ext_equal]
pub struct Window {
    /// First visible visual line.
    pub start: VLineCursor,
    /// How many visual lines precede `start` in the chain.
    pub start_idx: usize,
    /// One past the last visible line (null cursor: to the document's end).
    pub end: VLineCursor,
    /// The cursor's visual line, counted from `start`.
    pub cursor_idx: usize,
    /// Memoized position, cleared by every cursor move or edit.
    pub position: Option<Position>,
    pub cur_y: u16,
    pub cur_x: u16,
    /// The indentation the window subtracts from its lines for display.
    pub indent: usize,
    /// Virtual empty rows scrolled in above the document's start.
    pub prepend_newlines: usize,
}

impl Window {
    /// A window is tied to a chain when its anchors denote lines of it.
    pub open spec fn wf(self, v: VLines) -> bool {
        &&& self.start.ok(v)
        &&& self.cursor_idx == self.cur_y
        &&& self.start_idx <= self.start.idx(v)
        &&& self.end.ok(v) || key_is_null(self.end.key)
    }

    /// Opens a window over `[start, end)` with the cursor on its first row.
    pub fn new(v: &VLines, start: VLineCursor, end: VLineCursor, indent: usize) -> (w: Window)
        requires
            v.wf_links(),
            start.ok(*v),
            end.ok(*v) || key_is_null(end.key),
        ensures
            w.wf(*v),
            w == (Window {
                start,
                start_idx: 0,
                end,
                cursor_idx: 0,
                position: None,
                cur_y: 0,
                cur_x: 0,
                indent,
                prepend_newlines: 0,
            }),
    {
        Window {
            start,
            start_idx: 0,
            end,
            cursor_idx: 0,
            position: None,
            cur_y: 0,
            cur_x: 0,
            indent,
            prepend_newlines: 0,
        }
    }

    /// The cursor's visual line: the window start advanced `cursor_idx`
    /// rows, stopping early at the window's end or the document's last row.
    /// Nothing is modified.
    #[verifier::loop_isolation(false)]
    pub fn cursor(&self, v: &VLines) -> (c: VLineCursor)
        requires
            v.wf_links(),
            self.wf(*v),
        ensures
            c.ok(*v),
            self.start.idx(*v) <= c.idx(*v) <= self.start.idx(*v) + self.cursor_idx,
            c.idx(*v) < self.start.idx(*v) + self.cursor_idx
                ==> (c == self.end || c.idx(*v) == v.len() - 1),
    {
        let mut c = self.start;
        let mut i: usize = 0;
        while i < self.cursor_idx
            invariant
                c.ok(*v),
                i <= self.cursor_idx,
                c.idx(*v) == self.start.idx(*v) + i,
            decreases self.cursor_idx - i,
        {
            if c.same_as(&self.end) {
                proof {
                    assert(c =~= self.end);
                }
                break;
            }
            if !c.move_next_visual(v) {
                break;
            }
            i += 1;
        }
        c
    }

    /// Clears the memoized position.
    pub fn clear_position(&mut self)
        ensures
            *final(self) == (Window { position: None, ..*old(self) }),
    {
        self.position = None;
    }

    /// Scrolls one row up. Succeeds exactly when rows precede the window
    /// start; then the start moves back one row, its index drops by one and
    /// the cached position is cleared; otherwise nothing changes. The text
    /// is never touched.
    pub fn scroll_up(&mut self, v: &VLines) -> (changed: bool)
        requires
            v.wf_links(),
            old(self).wf(*v),
        ensures
            final(self).wf(*v),
            changed ==> old(self).start_idx > 0
                && old(self).start.idx(*v) > 0
                && final(self).start.idx(*v) == old(self).start.idx(*v) - 1
                && *final(self) == (Window {
                    start: old(self).start.pred_visual(*v),
                    start_idx: (old(self).start_idx - 1) as usize,
                    position: None,
                    ..*old(self)
                }),
            !changed ==> *final(self) == *old(self)
                && (old(self).start_idx == 0
                    || forall|y: int| 0 <= y < old(self).start.idx(*v)
                        ==> (#[trigger] v.rec(y)).continuation),
    {
        if self.start_idx > 0 && self.start.move_prev_visual(v) {
            self.start_idx = self.start_idx - 1;
            self.position = None;
            proof {
                assert(*self =~= (Window {
                    start: old(self).start.pred_visual(*v),
                    start_idx: (old(self).start_idx - 1) as usize,
                    position: None,
                    ..*old(self)
                }));
            }
            true
        } else {
            false
        }
    }

    /// Scrolls one row down: a virtual top row is consumed first; else the
    /// start advances one row unless the next row is the window's end or
    /// the document ends. The cached position is cleared on change; the
    /// text is never touched.
    pub fn scroll_down(&mut self, v: &VLines) -> (changed: bool)
        requires
            v.wf_links(),
            old(self).wf(*v),
        ensures
            final(self).wf(*v),
            old(self).prepend_newlines > 0 ==> changed
                && *final(self) == (Window {
                    prepend_newlines: (old(self).prepend_newlines - 1) as usize,
                    position: None,
                    ..*old(self)
                }),
            old(self).prepend_newlines == 0 && changed
                ==> old(self).start.idx(*v) < v.len() - 1
                    && final(self).start.idx(*v) == old(self).start.idx(*v) + 1
                    && *final(self) == (Window {
                        start: old(self).start.succ_visual(*v),
                        start_idx: (old(self).start_idx + 1) as usize,
                        position: None,
                        ..*old(self)
                    }),
            old(self).prepend_newlines == 0 && !changed
                ==> *final(self) == *old(self)
                    && (old(self).start.idx(*v) == v.len() - 1
                        || old(self).start.succ_visual(*v) == old(self).end),
    {
        if self.prepend_newlines > 0 {
            self.prepend_newlines = self.prepend_newlines - 1;
            self.position = None;
            proof {
                assert(*self =~= (Window {
                    prepend_newlines: (old(self).prepend_newlines - 1) as usize,
                    position: None,
                    ..*old(self)
                }));
            }
            true
        } else if self.start.move_next_visual_if(v, &self.end) {
            proof {
                v.lemma_len_bound();
            }
            self.start_idx = self.start_idx + 1;
            self.position = None;
            proof {
                assert(*self =~= (Window {
                    start: old(self).start.succ_visual(*v),
                    start_idx: (old(self).start_idx + 1) as usize,
                    position: None,
                    ..*old(self)
                }));
            }
            true
        } else {
            false
        }
    }

    /// The pane-relative cursor cell.
    pub fn cursor_position(&self) -> (p: (u16, u16))
        ensures
            p.0 == self.cur_x && p.1 == self.cur_y,
    {
        (self.cur_x, self.cur_y)
    }

    /// Moves the cursor one row up: within the pane when possible, else by
    /// scrolling, else by opening a virtual row above the document (their
    /// count saturates at the machine limit). The cached position is always
    /// cleared; the text is never touched.
    pub fn move_cursor_up(&mut self, v: &VLines) -> (changed: bool)
        requires
            v.wf_links(),
            old(self).wf(*v),
        ensures
            final(self).wf(*v),
            old(self).cur_y > 0 ==> changed
                && *final(self) == (Window {
                    cur_y: (old(self).cur_y - 1) as u16,
                    cursor_idx: (old(self).cursor_idx - 1) as usize,
                    position: None,
                    ..*old(self)
                }),
            old(self).cur_y == 0 && old(self).start_idx == 0 ==> changed
                && *final(self) == (Window {
                    prepend_newlines: if old(self).prepend_newlines < usize::MAX {
                        (old(self).prepend_newlines + 1) as usize
                    } else {
                        old(self).prepend_newlines
                    },
                    position: None,
                    ..*old(self)
                }),
            old(self).cur_y == 0 && old(self).start_idx > 0 ==> {
                &&& changed ==> *final(self) == (Window {
                        start: old(self).start.pred_visual(*v),
                        start_idx: (old(self).start_idx - 1) as usize,
                        position: None,
                        ..*old(self)
                    })
                &&& !changed ==> *final(self) == (Window { position: None, ..*old(self) })
                    && forall|y: int| 0 <= y < old(self).start.idx(*v)
                        ==> (#[trigger] v.rec(y)).continuation
            },
    {
        if self.cur_y > 0 {
            self.cur_y = self.cur_y - 1;
            self.cursor_idx = self.cursor_idx - 1;
            self.position = None;
            proof {
                assert(*self =~= (Window {
                    cur_y: (old(self).cur_y - 1) as u16,
                    cursor_idx: (old(self).cursor_idx - 1) as usize,
                    position: None,
                    ..*old(self)
                }));
            }
            true
        } else if self.start_idx == 0 {
            if self.prepend_newlines < usize::MAX {
                self.prepend_newlines = self.prepend_newlines + 1;
            }
            self.position = None;
            true
        } else {
            let ch = self.scroll_up(v);
            self.position = None;
            proof {
                if !ch {
                    assert(*self =~= (Window { position: None, ..*old(self) }));
                }
            }
            ch
        }
    }

    /// Moves the cursor one row down: a virtual top row is consumed first;
    /// within the pane up to `limit` next; else by scrolling. The cached
    /// position is cleared whenever anything changes; the text is never
    /// touched.
    pub fn move_cursor_down(&mut self, v: &VLines, limit: u16) -> (changed: bool)
        requires
            v.wf_links(),
            old(self).wf(*v),
        ensures
            final(self).wf(*v),
            old(self).prepend_newlines > 0 ==> changed
                && *final(self) == (Window {
                    prepend_newlines: (old(self).prepend_newlines - 1) as usize,
                    position: None,
                    ..*old(self)
                }),
            old(self).prepend_newlines == 0 && old(self).cur_y < limit ==> changed
                && *final(self) == (Window {
                    cur_y: (old(self).cur_y + 1) as u16,
                    cursor_idx: (old(self).cursor_idx + 1) as usize,
                    position: None,
                    ..*old(self)
                }),
            old(self).prepend_newlines == 0 && old(self).cur_y >= limit ==> {
                &&& changed ==> old(self).start.idx(*v) < v.len() - 1
                    && *final(self) == (Window {
                        start: old(self).start.succ_visual(*v),
                        start_idx: (old(self).start_idx + 1) as usize,
                        position: None,
                        ..*old(self)
                    })
                &&& !changed ==> *final(self) == *old(self)
                    && (old(self).start.idx(*v) == v.len() - 1
                        || old(self).start.succ_visual(*v) == old(self).end)
            },
    {
        if self.prepend_newlines > 0 {
            self.prepend_newlines = self.prepend_newlines - 1;
            self.position = None;
            proof {
                assert(*self =~= (Window {
                    prepend_newlines: (old(self).prepend_newlines - 1) as usize,
                    position: None,
                    ..*old(self)
                }));
            }
            true
        } else if self.cur_y < limit {
            proof {
                // the row counter mirrors `cur_y`, so it stays far below the
                // machine limit
                assert(self.cursor_idx < 0x1_0000);
            }
            self.cur_y = self.cur_y + 1;
            self.cursor_idx = self.cursor_idx + 1;
            self.position = None;
            proof {
                assert(*self =~= (Window {
                    cur_y: (old(self).cur_y + 1) as u16,
                    cursor_idx: (old(self).cursor_idx + 1) as usize,
                    position: None,
                    ..*old(self)
                }));
            }
            true
        } else {
            self.scroll_down(v)
        }
    }

    /// Moves one column left within the row; reports whether it could.
    pub fn move_cursor_left_saturating(&mut self) -> (moved: bool)
        ensures
            moved == (old(self).cur_x > 0),
            moved ==> *final(self) == (Window {
                cur_x: (old(self).cur_x - 1) as u16,
                position: None,
                ..*old(self)
            }),
            !moved ==> *final(self) == *old(self),
    {
        if self.cur_x > 0 {
            self.cur_x = self.cur_x - 1;
            self.position = None;
            true
        } else {
            false
        }
    }

    /// Moves one column right, staying left of the wrap width; reports
    /// whether it could.
    pub fn move_cursor_right_saturating(&mut self) -> (moved: bool)
        ensures
            moved == (old(self).cur_x as int + 1 < crate::WRAP_AT as int),
            moved ==> *final(self) == (Window {
                cur_x: (old(self).cur_x + 1) as u16,
                position: None,
                ..*old(self)
            }),
            !moved ==> *final(self) == *old(self),
    {
        if (self.cur_x as usize) + 1 < crate::WRAP_AT {
            self.cur_x = self.cur_x + 1;
            self.position = None;
            true
        } else {
            false
        }
    }

    /// Puts the cursor in column zero.
    pub fn move_cursor_at_0(&mut self) -> (changed: bool)
        ensures
            *final(self) == (Window { cur_x: 0, position: None, ..*old(self) }),
            changed,
    {
        self.cur_x = 0;
        self.position = None;
        true
    }
}

impl Window {
    /// Derives the logical position under the screen cursor, per the
    /// cursor/viewport model: the cursor's visual line is the window start
    /// advanced `cursor_idx` rows; rows that do not exist are counted as
    /// pending `newlines`; a column inside the line is a plain offset; a
    /// column past the line's content leaves `trailing_spaces`; a column
    /// left of the buffer's own indentation is an invalid position.
    #[verifier::loop_isolation(false)]
    #[verifier::rlimit(100)]
    #[verifier::spinoff_prover]
    pub fn get_position(&self, v: &VLines, bufs: &BufTable) -> (p: Position)
        requires
            v.wf_links(),
            v.wf_spans(buf_texts(*bufs)),
            self.wf(*v),
            self.indent + self.cur_x < usize::MAX,
        ensures
            p.cursor.ok(*v),
            self.start.idx(*v) <= p.cursor.idx(*v) <= self.start.idx(*v) + self.cursor_idx,
            p.cursor.idx(*v) < self.start.idx(*v) + self.cursor_idx
                ==> (p.cursor.idx(*v) == v.len() - 1
                    || p.cursor.succ_visual(*v) == self.end),
            ({
                let texts = buf_texts(*bufs);
                let line = v.rec(p.cursor.idx(*v));
                let b = buf_slots(*bufs)[line.buffer_key];
                let rxraw = self.cur_x + self.indent;
                let gap = self.start.idx(*v) + self.cursor_idx - p.cursor.idx(*v);
                let clen = if texts[line.buffer_key][line.end - 1] == '\n' {
                    line.end - line.start - 1
                } else {
                    line.end - line.start
                };
                &&& (p.invalid <==> rxraw < b.indent)
                &&& p.relative_x == if rxraw >= b.indent {
                        rxraw - b.indent
                    } else {
                        0int
                    }
                &&& (self.prepend_newlines > 0 ==> p.newlines == 0
                        && p.trailing_spaces == p.relative_x
                        && p.char_idx == line.start)
                &&& (self.prepend_newlines == 0 && gap > 0 ==> p.newlines == gap
                        && p.char_idx == line.end
                        && p.trailing_spaces == p.relative_x)
                &&& (self.prepend_newlines == 0 && gap == 0 ==> p.newlines == 0
                        && (p.relative_x <= clen ==> p.char_idx == line.start + p.relative_x
                            && p.trailing_spaces == 0)
                        && (p.relative_x > clen ==> p.char_idx == line.start + clen
                            && p.trailing_spaces == p.relative_x - clen))
            }),
    {
        let ghost texts = buf_texts(*bufs);
        let mut c = self.start;
        let mut gap: usize = 0;
        let mut i: usize = 0;
        while i < self.cursor_idx
            invariant
                c.ok(*v),
                i <= self.cursor_idx,
                gap <= i,
                c.idx(*v) == self.start.idx(*v) + i - gap,
                gap > 0 ==> (c.idx(*v) == v.len() - 1 || c.succ_visual(*v) == self.end),
            decreases self.cursor_idx - i,
        {
            if !c.move_next_visual_if(v, &self.end) {
                gap = gap + 1;
            }
            i += 1;
        }
        let ghost ci = c.idx(*v);
        let k = c.key(v);
        proof {
            assert(v.order().contains(k)) by {
                assert(v.order()[ci] == k);
            }
            assert(v.slots().dom().contains(k));
        }
        let line = *line_ref(v, k);
        proof {
            assert(line == v.rec(ci));
            assert(texts.dom().contains(line.buffer_key));
            assert(buf_slots(*bufs).dom().contains(line.buffer_key));
        }
        let b = match buf_map_get(bufs, line.buffer_key) {
            Some(b) => b,
            None => vstd::pervasive::unreached(),
        };
        proof {
            assert(crate::ext::rope_text(b.text) == texts[line.buffer_key]);
            assert(line.start < line.end <= texts[line.buffer_key].len());
        }
        let rxraw = (self.cur_x as usize) + self.indent;
        let invalid = rxraw < b.indent;
        let relative_x = if rxraw >= b.indent {
            rxraw - b.indent
        } else {
            0
        };
        let last = rope_char_at(&b.text, line.end - 1);
        let clen = if last == '\n' {
            line.end - line.start - 1
        } else {
            line.end - line.start
        };
        if self.prepend_newlines > 0 {
            Position {
                char_idx: line.start,
                trailing_spaces: relative_x,
                newlines: 0,
                relative_x,
                invalid,
                cursor: c,
            }
        } else if gap > 0 {
            Position {
                char_idx: line.end,
                trailing_spaces: relative_x,
                newlines: gap,
                relative_x,
                invalid,
                cursor: c,
            }
        } else if relative_x <= clen {
            Position {
                char_idx: line.start + relative_x,
                trailing_spaces: 0,
                newlines: 0,
                relative_x,
                invalid,
                cursor: c,
            }
        } else {
            Position {
                char_idx: line.start + clen,
                trailing_spaces: relative_x - clen,
                newlines: 0,
                relative_x,
                invalid,
                cursor: c,
            }
        }
    }
}

/// `n` copies of one character.
pub open spec fn filled(n: int, ch: char) -> Seq<char> {
    Seq::new(n as nat, |i: int| ch)
}

impl Window {
    /// The chain row under the screen cursor: the window start advanced
    /// `cursor_idx` rows, stopping at the document's last row (for a window
    /// to the document's end).
    pub open spec fn cursor_row(self, v: VLines) -> int {
        if self.start.idx(v) + self.cursor_idx < v.len() {
            self.start.idx(v) + self.cursor_idx
        } else {
            v.len() - 1
        }
    }

    /// How many rows past the document's end the cursor sits.
    pub open spec fn overshoot(self, v: VLines) -> int {
        self.start.idx(v) + self.cursor_idx - self.cursor_row(v)
    }

    /// The cursor column in document coordinates.
    pub open spec fn rxraw(self) -> int {
        self.cur_x + self.indent
    }

    /// The column relative to the cursor line's own indentation; a column
    /// left of that indentation is invalid.
    pub open spec fn col_invalid(self, v: VLines, bufs: BufTable) -> bool {
        self.rxraw() < buf_slots(bufs)[v.rec(self.cursor_row(v)).buffer_key].indent
    }

    pub open spec fn relx(self, v: VLines, bufs: BufTable) -> int {
        if self.col_invalid(v, bufs) {
            0
        } else {
            self.rxraw() - buf_slots(bufs)[v.rec(self.cursor_row(v)).buffer_key].indent
        }
    }

    /// The cursor line's content length, its terminator not counted.
    pub open spec fn row_content_len(self, v: VLines, bufs: BufTable) -> int {
        let line = v.rec(self.cursor_row(v));
        let t = buf_texts(bufs)[line.buffer_key];
        if t[line.end - 1] == '\n' {
            line.end - line.start - 1
        } else {
            line.end - line.start
        }
    }

    /// Where an edit at the cursor goes in the buffer text.
    pub open spec fn edit_pos(self, v: VLines, bufs: BufTable) -> int {
        let line = v.rec(self.cursor_row(v));
        if self.prepend_newlines > 0 {
            line.start as int
        } else if self.overshoot(v) > 0 {
            line.end as int
        } else if self.relx(v, bufs) <= self.row_content_len(v, bufs) {
            line.start + self.relx(v, bufs)
        } else {
            line.start + self.row_content_len(v, bufs)
        }
    }

    /// The characters an edit of `c` at the cursor really inserts: the
    /// pending terminators and spaces the virtual cursor position implies,
    /// with `c` placed at the derived offset, so that no virtual whitespace
    /// survives the edit.
    pub open spec fn edit_block(self, v: VLines, bufs: BufTable, c: char) -> Seq<char> {
        if self.prepend_newlines > 0 {
            filled(self.relx(v, bufs), ' ') + seq![c]
                + filled(self.prepend_newlines as int, '\n')
        } else if self.overshoot(v) > 0 {
            filled(self.overshoot(v) - 1, '\n') + filled(self.relx(v, bufs), ' ')
                + seq![c] + seq!['\n']
        } else if self.relx(v, bufs) <= self.row_content_len(v, bufs) {
            seq![c]
        } else {
            filled(self.relx(v, bufs) - self.row_content_len(v, bufs), ' ') + seq![c]
        }
    }

    /// Whether the cursor line is indentation padding at the column `at`
    /// relative to the buffer's own indentation: every character up to `at`
    /// rounded up to the indentation unit, as far as the line reaches, is a
    /// space.
    pub open spec fn pad_at(self, v: VLines, bufs: BufTable, at: int) -> bool {
        let line = v.rec(self.cursor_row(v));
        let t = buf_texts(bufs)[line.buffer_key];
        let ru = ((at + crate::INDENT - 1) / (crate::INDENT as int)) * (crate::INDENT as int);
        let lim = if ru <= line.end - line.start {
            ru
        } else {
            line.end - line.start
        };
        forall|i: int| 0 <= i < lim ==> #[trigger] t[line.start + i] == ' '
    }

    /// How many pending terminators an edit at the cursor materializes
    /// below the text (none while rows are scrolled in above the document).
    pub open spec fn eff_newlines(self, v: VLines) -> int {
        if self.prepend_newlines > 0 {
            0
        } else {
            self.overshoot(v)
        }
    }

    /// A space typed inside the line's indentation padding does not edit
    /// (in the original design it widens the indentation instead).
    pub open spec fn pad_blocked(self, v: VLines, bufs: BufTable, c: char) -> bool {
        c == ' ' && self.pad_at(v, bufs, self.relx(v, bufs))
    }

    /// A terminator typed at the very edge of a transient, not-yet-merged
    /// wrap fragment does not edit: the repair would strand the fragments
    /// that follow.
    pub open spec fn edge_blocked(self, v: VLines, bufs: BufTable, c: char) -> bool {
        &&& self.prepend_newlines == 0
        &&& self.overshoot(v) == 0
        &&& c == '\n'
        &&& self.edit_pos(v, bufs) == v.rec(self.cursor_row(v)).end
        &&& v.cont_follows(self.cursor_row(v))
    }

    /// The committed half of `insert_char`: performs the edit whose block
    /// and offset were derived, then moves the cursor.
    #[verifier::loop_isolation(false)]
    #[verifier::rlimit(100)]
    #[verifier::spinoff_prover]
    fn commit_edit(
        &mut self,
        v: &mut VLines,
        bufs: &mut BufTable,
        block: &Vec<char>,
        k: slotmap::DefaultKey,
        line: VLine,
        c: char,
        newlines: usize,
        char_idx: usize,
        limit: u16,
        Ghost(v0): Ghost<VLines>,
        Ghost(b0): Ghost<BufTable>,
        Ghost(w0): Ghost<Window>,
        Ghost(row): Ghost<int>,
    ) -> (changed: bool)
        requires
            *old(v) == v0,
            *old(bufs) == b0,
            *old(self) == (Window { position: old(self).position, ..w0 }),
            old(self).position is None || *old(self) == w0,
            v0.wf_links(),
            v0.wf_spans(buf_texts(b0)),
            v0.lines_closed(buf_texts(b0)),
            w0.wf(v0),
            key_is_null(w0.end.key),
            row == w0.cursor_row(v0),
            v0.order().contains(k),
            v0.key_at(k) == row,
            line == v0.rec(row),
            buf_slots(b0).dom().contains(line.buffer_key),
            forall|b: slotmap::DefaultKey| buf_slots(b0).dom().contains(b)
                ==> (#[trigger] buf_slots(b0)[b]).wrap_at >= 1,
            forall|x: int| 0 <= x < v0.len()
                ==> #[trigger] v0.rec_valid(
                    buf_texts(b0),
                    x,
                    crate::buffer::buf_widths(b0)[v0.rec(x).buffer_key],
                ),
            block@ == w0.edit_block(v0, b0, c),
            char_idx == w0.edit_pos(v0, b0),
            newlines == w0.eff_newlines(v0),
            !w0.col_invalid(v0, b0),
            line.start <= char_idx <= line.end,
            block@.len() >= 1,
            buf_texts(b0)[line.buffer_key].len() + block@.len() <= usize::MAX,
            (char_idx < buf_texts(b0)[line.buffer_key].len()
                || block@[block@.len() - 1] == '\n'),
            !(char_idx == v0.rec(row).end && v0.cont_follows(row)
                && block@[block@.len() - 1] == '\n'),
            v0.count() + buf_texts(b0)[line.buffer_key].len() + block@.len() <= 0xffff_ffff,
        ensures
            changed,
            final(v).wf_links(),
            final(v).wf_spans(buf_texts(*final(bufs))),
            final(v).lines_closed(buf_texts(*final(bufs))),
            buf_slots(*final(bufs)).dom() =~= buf_slots(b0).dom(),
            ({
                let bk = v0.rec(w0.cursor_row(v0)).buffer_key;
                &&& buf_texts(*final(bufs)) == buf_texts(b0).insert(
                        bk,
                        buf_texts(b0)[bk].take(w0.edit_pos(v0, b0))
                            + w0.edit_block(v0, b0, c)
                            + buf_texts(b0)[bk].skip(w0.edit_pos(v0, b0)),
                    )
                &&& (forall|kk: slotmap::DefaultKey|
                        kk != bk && buf_slots(b0).dom().contains(kk)
                        ==> buf_slots(*final(bufs))[kk] == buf_slots(b0)[kk])
                &&& buf_slots(*final(bufs))[bk].wrap_at == buf_slots(b0)[bk].wrap_at
                &&& buf_slots(*final(bufs))[bk].indent == buf_slots(b0)[bk].indent
                &&& final(self).position is None
                &&& final(self).end == w0.end
                &&& final(self).indent == w0.indent
                &&& final(self).prepend_newlines == 0
                &&& final(self).start == w0.start
                &&& final(self).start_idx == w0.start_idx
                &&& (c == '\n' || newlines > 0 ==> final(self).cur_x == 0
                        && (w0.cur_y < limit ==> final(self).cur_y == w0.cur_y + 1
                            && final(self).cursor_idx == w0.cursor_idx + 1)
                        && (w0.cur_y >= limit ==> final(self).cur_y == w0.cur_y
                            && final(self).cursor_idx == w0.cursor_idx))
                &&& (!(c == '\n' || newlines > 0) ==> final(self).cur_y == w0.cur_y
                        && final(self).cursor_idx == w0.cursor_idx
                        && (w0.cur_x as int + 1 < crate::WRAP_AT as int
                            ==> final(self).cur_x == w0.cur_x + 1)
                        && (w0.cur_x as int + 1 >= crate::WRAP_AT as int
                            ==> final(self).cur_x == w0.cur_x))
                &&& final(self).wf(*final(v))
                &&& (forall|x: int| 0 <= x < final(v).len()
                        ==> #[trigger] final(v).rec_valid(
                            buf_texts(*final(bufs)),
                            x,
                            crate::buffer::buf_widths(b0)[final(v).rec(x).buffer_key],
                        ))
            }),
    {
        let ghost bk = line.buffer_key;
        let ir = crate::buffer::Buffer::insert(bufs, v, line.buffer_key, char_idx, &block, k);
        proof {
            let widths = crate::buffer::buf_widths(b0);
            let texts_old = buf_texts(b0);
            let texts_new = buf_texts(*bufs);
            let ai = v0.key_at(k);
            v0.lemma_key_at(k);
            assert(v0.order().contains(k)) by {
                assert(v0.order()[row] == k);
            }
            assert(ai == row);
            assert(texts_old[bk] =~= texts_new[bk].take(char_idx as int)
                + texts_new[bk].skip(char_idx + block@.len()));
            assert forall|b: slotmap::DefaultKey| texts_old.dom().contains(b) && b != bk
                implies texts_new[b] == texts_old[b] by {
                assert(buf_slots(*bufs)[b] == buf_slots(b0)[b]);
            }
            assert(widths[bk] == buf_slots(b0)[bk].wrap_at as int);
            crate::vlines::lemma_insert_preserves_valid(
                v0, ir.1@, *v, texts_old, texts_new, k,
                char_idx as int, block@.len() as int,
                buf_slots(b0)[bk].wrap_at as int, ir.0, widths,
            );
            lemma_start_survives(v0, *v, w0.start, k, ai);
        }
        // cursor bookkeeping
        if c == '\n' || newlines > 0 {
            if self.cur_y < limit {
                self.cur_y = self.cur_y + 1;
                self.cursor_idx = self.cursor_idx + 1;
            }
            self.cur_x = 0;
        } else if (self.cur_x as usize) + 1 < crate::WRAP_AT {
            self.cur_x = self.cur_x + 1;
        }
        self.prepend_newlines = 0;
        self.position = None;
        true
    }

    /// Types one character at the screen cursor: pending virtual rows and
    /// columns (rows scrolled in above the document included) are
    /// materialized as real terminators and spaces around it, the buffer
    /// text gains exactly `edit_block` at `edit_pos`, and the affected
    /// logical line is canonically re-wrapped. Exactly three cursors do not
    /// edit: one left of the line's indentation, a space typed inside the
    /// indentation padding, and a terminator at the edge of a transient
    /// un-merged wrap fragment. The cursor advances one column (`'\n'`: to
    /// the next row's first column).
    #[verifier::loop_isolation(false)]
    #[verifier::rlimit(100)]
    #[verifier::spinoff_prover]
    pub fn insert_char(
        &mut self,
        v: &mut VLines,
        bufs: &mut BufTable,
        c: char,
        limit: u16,
    ) -> (changed: bool)
        requires
            old(v).wf_links(),
            old(v).wf_spans(buf_texts(*old(bufs))),
            old(v).lines_closed(buf_texts(*old(bufs))),
            old(self).wf(*old(v)),
            key_is_null(old(self).end.key),
            old(self).indent + old(self).cur_x < usize::MAX,
            forall|b: slotmap::DefaultKey| buf_slots(*old(bufs)).dom().contains(b)
                ==> (#[trigger] buf_slots(*old(bufs))[b]).wrap_at >= 1,
            forall|b: slotmap::DefaultKey| buf_texts(*old(bufs)).dom().contains(b)
                ==> (#[trigger] buf_texts(*old(bufs))[b]).len() + old(self).cursor_idx
                        + old(self).cur_x + old(self).indent + old(self).prepend_newlines + 2
                        <= usize::MAX
                    && old(v).count() + buf_texts(*old(bufs))[b].len() + old(self).cursor_idx
                        + old(self).cur_x + old(self).indent + old(self).prepend_newlines + 2
                        <= 0xffff_ffff,
            forall|x: int| 0 <= x < old(v).len()
                ==> #[trigger] old(v).rec_valid(
                    buf_texts(*old(bufs)),
                    x,
                    crate::buffer::buf_widths(*old(bufs))[old(v).rec(x).buffer_key],
                ),
        ensures
            final(v).wf_links(),
            final(v).wf_spans(buf_texts(*final(bufs))),
            final(v).lines_closed(buf_texts(*final(bufs))),
            buf_slots(*final(bufs)).dom() =~= buf_slots(*old(bufs)).dom(),
            ({
                let w0 = *old(self);
                let v0 = *old(v);
                let b0 = *old(bufs);
                let bk = v0.rec(w0.cursor_row(v0)).buffer_key;
                &&& (changed <==> !w0.col_invalid(v0, b0) && !w0.pad_blocked(v0, b0, c)
                        && !w0.edge_blocked(v0, b0, c))
                &&& (!changed ==> *final(bufs) == b0 && *final(v) == v0)
                &&& (!changed ==> *final(self) == (Window { position: None, ..w0 }))
                &&& (changed ==> buf_texts(*final(bufs)) == buf_texts(b0).insert(
                        bk,
                        buf_texts(b0)[bk].take(w0.edit_pos(v0, b0))
                            + w0.edit_block(v0, b0, c)
                            + buf_texts(b0)[bk].skip(w0.edit_pos(v0, b0)),
                    ))
                &&& (changed ==> forall|k: slotmap::DefaultKey|
                        k != bk && buf_slots(b0).dom().contains(k)
                        ==> buf_slots(*final(bufs))[k] == buf_slots(b0)[k])
                &&& (changed ==> buf_slots(*final(bufs))[bk].wrap_at == buf_slots(b0)[bk].wrap_at
                        && buf_slots(*final(bufs))[bk].indent == buf_slots(b0)[bk].indent)
                &&& (changed ==> final(self).position is None
                        && final(self).end == w0.end
                        && final(self).indent == w0.indent
                        && final(self).prepend_newlines == 0
                        && final(self).start == w0.start
                        && final(self).start_idx == w0.start_idx)
                &&& (changed && (c == '\n' || w0.eff_newlines(v0) > 0)
                        ==> final(self).cur_x == 0
                            && (w0.cur_y < limit ==> final(self).cur_y == w0.cur_y + 1
                                && final(self).cursor_idx == w0.cursor_idx + 1)
                            && (w0.cur_y >= limit ==> final(self).cur_y == w0.cur_y
                                && final(self).cursor_idx == w0.cursor_idx))
                &&& (changed && !(c == '\n' || w0.eff_newlines(v0) > 0)
                        ==> final(self).cur_y == w0.cur_y
                            && final(self).cursor_idx == w0.cursor_idx
                            && (w0.cur_x as int + 1 < crate::WRAP_AT as int
                                ==> final(self).cur_x == w0.cur_x + 1)
                            && (w0.cur_x as int + 1 >= crate::WRAP_AT as int
                                ==> final(self).cur_x == w0.cur_x))
                &&& final(self).wf(*final(v))
                &&& (forall|x: int| 0 <= x < final(v).len()
                        ==> #[trigger] final(v).rec_valid(
                            buf_texts(*final(bufs)),
                            x,
                            crate::buffer::buf_widths(b0)[final(v).rec(x).buffer_key],
                        ))
            }),
    {
        let ghost w0 = *self;
        let ghost v0 = *v;
        let ghost b0 = *bufs;
        let p = self.get_position(v, bufs);
        let ghost row = w0.cursor_row(v0);
        proof {
            assert(p.cursor.idx(v0) == row) by {
                if p.cursor.idx(v0) < w0.start.idx(v0) + w0.cursor_idx {
                    if p.cursor.succ_visual(v0) == w0.end && p.cursor.idx(v0) < v0.len() - 1 {
                        let succ = p.cursor.succ_visual(v0);
                        v0.lemma_key_at(p.cursor.key);
                        if v0.rec(p.cursor.idx(v0) + 1).continuation {
                            assert(succ.key == p.cursor.key);
                            assert(v0.order().contains(p.cursor.key)) by {
                                assert(v0.order()[v0.key_at(p.cursor.key)] == p.cursor.key);
                            }
                            assert(!key_is_null(v0.order()[v0.key_at(p.cursor.key)]));
                        } else {
                            assert(succ.key == v0.order()[p.cursor.idx(v0) + 1]);
                            assert(!key_is_null(v0.order()[p.cursor.idx(v0) + 1]));
                        }
                        assert(key_is_null(succ.key));
                        assert(false);
                    }
                    assert(p.cursor.idx(v0) == v0.len() - 1);
                }
            }
            assert(p.newlines == w0.eff_newlines(v0));
        }
        let k = p.cursor.key(v);
        let line = *crate::vlines::line_ref(v, k);
        let ghost bk = line.buffer_key;
        proof {
            assert(line == v0.rec(row));
            assert(buf_texts(b0).dom().contains(bk));
            assert(buf_slots(b0).dom().contains(bk));
        }
        // a space typed inside the line's indentation padding does not edit
        let mut padded = false;
        if c == ' ' {
            let linelen = line.end - line.start;
            let rx = p.relative_x;
            let lim: usize = if rx >= linelen {
                linelen
            } else {
                let q = rx / crate::INDENT;
                let r = rx % crate::INDENT;
                let ru = if r == 0 {
                    rx
                } else {
                    (q + 1) * crate::INDENT
                };
                if ru <= linelen {
                    ru
                } else {
                    linelen
                }
            };
            proof {
                let sru = ((p.relative_x + crate::INDENT - 1) / (crate::INDENT as int))
                    * (crate::INDENT as int);
                assert(sru >= p.relative_x && sru < p.relative_x + crate::INDENT);
                assert(lim == if sru <= line.end - line.start {
                    sru
                } else {
                    (line.end - line.start) as int
                });
            }
            let b = match buf_map_get(bufs, line.buffer_key) {
                Some(b) => b,
                None => vstd::pervasive::unreached(),
            };
            proof {
                assert(crate::ext::rope_text(b.text) == buf_texts(b0)[bk]);
                assert(line.start < line.end <= buf_texts(b0)[bk].len());
            }
            padded = true;
            let mut i: usize = 0;
            while i < lim
                invariant
                    padded,
                    i <= lim,
                    forall|y: int| 0 <= y < i ==> #[trigger] buf_texts(b0)[bk][line.start + y] == ' ',
                decreases lim - i,
            {
                if rope_char_at(&b.text, line.start + i) != ' ' {
                    padded = false;
                    break;
                }
                i += 1;
            }
            proof {
                if padded {
                    assert(w0.pad_at(v0, b0, w0.relx(v0, b0)));
                } else {
                    assert(buf_texts(b0)[bk][line.start + i] != ' ');
                    assert(!w0.pad_at(v0, b0, w0.relx(v0, b0)));
                }
            }
        }
        if p.invalid || padded {
            self.position = None;
            proof {
                assert(*self =~= (Window { position: None, ..w0 }));
            }
            return false;
        }
        // a terminator typed at the very edge of a not-yet-merged wrap
        // fragment would strand the fragments that follow; decline
        if self.prepend_newlines == 0 && p.newlines == 0 && c == '\n' && p.char_idx == line.end {
            match v.get(line.next) {
                Some(nl) => {
                    proof {
                        // the chain's last record has a null successor, so a
                        // found record sits right after this row
                        if row == v0.len() - 1 {
                            assert(key_is_null(v0.rec(row).next));
                            assert(v0.order().contains(line.next));
                            let z = choose|z: int| 0 <= z < v0.len() && v0.order()[z] == line.next;
                            assert(!key_is_null(v0.order()[z]));
                            assert(false);
                        }
                        assert(v0.rec(row).next == v0.order()[row + 1]);
                        assert(*nl == v0.rec(row + 1));
                    }
                    if nl.continuation && key_eq(nl.buffer_key, line.buffer_key) {
                        self.position = None;
                        proof {
                            assert(w0.edge_blocked(v0, b0, c));
                            assert(*self =~= (Window { position: None, ..w0 }));
                        }
                        return false;
                    }
                    proof {
                        assert(!v0.cont_follows(row));
                    }
                }
                None => {
                    proof {
                        if row < v0.len() - 1 {
                            assert(v0.rec(row).next == v0.order()[row + 1]);
                            assert(v0.slots().dom().contains(v0.order()[row + 1]));
                            assert(false);
                        }
                        assert(!v0.cont_follows(row));
                    }
                }
            }
        }
        proof {
            assert(!w0.edge_blocked(v0, b0, c));
            assert(!w0.pad_blocked(v0, b0, c)) by {
                if c == ' ' {
                    assert(!w0.pad_at(v0, b0, w0.relx(v0, b0)));
                }
            }
        }
        // build the materialized block
        let mut block: Vec<char> = Vec::new();
        if p.newlines > 0 {
            let mut t: usize = 0;
            while t + 1 < p.newlines
                invariant
                    t < p.newlines,
                    block@ =~= filled(t as int, '\n'),
                decreases p.newlines - t,
            {
                block.push('\n');
                t += 1;
            }
        }
        let mut sp: usize = 0;
        let ghost nl_part = block@;
        while sp < p.trailing_spaces
            invariant
                sp <= p.trailing_spaces,
                block@ =~= nl_part + filled(sp as int, ' '),
            decreases p.trailing_spaces - sp,
        {
            block.push(' ');
            sp += 1;
        }
        block.push(c);
        if p.newlines > 0 {
            block.push('\n');
        } else if self.prepend_newlines > 0 {
            let ghost head_part = block@;
            let mut t: usize = 0;
            while t < self.prepend_newlines
                invariant
                    t <= self.prepend_newlines,
                    block@ =~= head_part + filled(t as int, '\n'),
                    *self == (Window { position: self.position, ..w0 }),
                decreases self.prepend_newlines - t,
            {
                block.push('\n');
                t += 1;
            }
        }
        proof {
            if w0.prepend_newlines > 0 {
                assert(nl_part =~= Seq::<char>::empty());
                assert(p.trailing_spaces == w0.relx(v0, b0));
                assert(block@ =~= w0.edit_block(v0, b0, c));
            } else if w0.overshoot(v0) > 0 {
                assert(p.trailing_spaces == w0.relx(v0, b0));
                assert(block@ =~= w0.edit_block(v0, b0, c));
            } else {
                assert(nl_part =~= Seq::<char>::empty());
                if w0.relx(v0, b0) <= w0.row_content_len(v0, b0) {
                    assert(p.trailing_spaces == 0);
                    assert(block@ =~= w0.edit_block(v0, b0, c));
                } else {
                    assert(block@ =~= w0.edit_block(v0, b0, c));
                }
            }
            assert(p.char_idx == w0.edit_pos(v0, b0));
            assert(!(p.char_idx == v0.rec(row).end && v0.cont_follows(row)
                && block@[block@.len() - 1] == '\n')) by {
                if w0.prepend_newlines > 0 {
                    assert(p.char_idx == line.start);
                    assert(line.start < line.end);
                } else if w0.overshoot(v0) > 0 {
                    if v0.cont_follows(row) {
                        assert(row + 1 < v0.len());
                        assert(row == v0.len() - 1);
                    }
                } else {
                    assert(block@[block@.len() - 1] == c);
                }
            }
            assert(p.char_idx < buf_texts(b0)[bk].len() || block@[block@.len() - 1] == '\n') by {
                if w0.prepend_newlines == 0 && w0.overshoot(v0) == 0 {
                    assert(block@[block@.len() - 1] == c);
                    let t = buf_texts(b0)[bk];
                    assert(t[t.len() - 1] == '\n');
                    if p.char_idx == t.len() {
                        // the edit offset never passes the line's terminator
                        assert(line.end <= t.len());
                        assert(w0.row_content_len(v0, b0) < line.end - line.start
                            || t[line.end - 1] != '\n');
                        assert(p.char_idx <= line.start + w0.row_content_len(v0, b0));
                        if t[line.end - 1] == '\n' {
                            assert(p.char_idx < line.end);
                        } else {
                            // a line without its own terminator ends the text
                            assert(line.end == t.len() || t[line.end - 1] == '\n') by {
                                if line.end < t.len() {
                                    // only the chain's last record may lack one
                                    v0.lemma_nl_end(buf_texts(b0), row);
                                }
                            }
                        }
                    }
                }
            }
        }
        let changed = self.commit_edit(
            v, bufs, &block, k, line, c, p.newlines, p.char_idx, limit,
            Ghost(v0), Ghost(b0), Ghost(w0), Ghost(row),
        );
        changed
    }
}

/// A cursor at or before a repaired line's head still denotes a valid
/// visual line after the repair: the records before the head keep their
/// handles and values, and the head keeps its flag.
#[verifier::spinoff_prover]
#[verifier::rlimit(100)]
proof fn lemma_start_survives(
    pre: VLines,
    post: VLines,
    start: VLineCursor,
    at: slotmap::DefaultKey,
    ai: int,
)
    requires
        pre.wf_links(),
        post.wf_links(),
        start.ok(pre),
        ai == pre.key_at(at),
        pre.order().contains(at),
        start.idx(pre) <= ai,
        ai < post.len(),
        post.order()[ai] == at,
        post.rec(ai).continuation == pre.rec(ai).continuation,
        forall|x: int| 0 <= x < ai ==> #[trigger] post.order()[x] == pre.order()[x],
        forall|x: int| 0 <= x < ai ==> #[trigger] post.rec(x) == pre.rec(x),
    ensures
        start.ok(post),
        start.idx(post) == start.idx(pre),
{
    pre.lemma_key_at(start.key);
    pre.lemma_key_at(at);
    let hi = pre.key_at(start.key);
    assert(hi + start.offset <= ai);
    if hi < ai {
        assert(post.order()[hi] == pre.order()[hi]);
        assert(post.rec(hi) == pre.rec(hi));
    } else {
        assert(hi == ai && start.offset == 0);
        assert(pre.order()[ai] == start.key);
        assert(start.key == at) by {
            assert(pre.order()[pre.key_at(at)] == at);
        }
        assert(post.order()[ai] == start.key);
    }
    assert(post.order().contains(start.key)) by {
        if hi < ai {
            assert(post.order()[hi] == start.key);
        } else {
            assert(post.order()[ai] == start.key);
        }
    }
    post.lemma_key_at(start.key);
    assert(post.key_at(start.key) == hi);
    assert(!post.rec(hi).continuation) by {
        if hi == ai {
            assert(post.rec(ai).continuation == pre.rec(ai).continuation);
        }
    }
    assert forall|x: int| hi < x <= hi + start.offset
        implies (#[trigger] post.rec(x)).continuation by {
        assert(pre.rec(x).continuation);
        if x < ai {
            assert(post.rec(x) == pre.rec(x));
        } else {
            assert(x == ai);
            assert(post.rec(ai).continuation == pre.rec(ai).continuation);
        }
    }
}

} // verus!
