//! The editor facade: owns the buffers, the visual-line index and the
//! active window, and turns commands into operations on them.

use vstd::prelude::*;

use crate::buffer::{buf_texts, buf_widths, Buffer};
use crate::ext::{
    buf_map_get, buf_map_insert, buf_map_new, buf_slots, key_is_null, rope_chars_range,
    rope_from_chars, str_chars, BufTable,
};
use crate::vlines::{VLineCursor, VLines};
use crate::window::Window;
use crate::wrapmodel::{frag_start, wrap_frags};

verus! {

/// One renderable row: its characters (with the terminator, where the row
/// ends a logical line), the spaces to prepend, and whether the row is a
/// wrap continuation.
pub struct DisplayLine {
    pub text: Vec<char>,
    pub indent: usize,
    pub continuation: bool,
}

pub struct Editor {
    bufs: BufTable,
    vlines: VLines,
    window: Window,
    root: slotmap::DefaultKey,
    pane_width: u16,
    pane_height: u16,
}

/// The text the editor keeps for `text`: the input, with a terminator
/// appended when the input lacks one.
pub open spec fn seeded_text(t0: Seq<char>) -> Seq<char> {
    if t0.len() > 0 && t0[t0.len() - 1] == '\n' {
        t0
    } else {
        t0.push('\n')
    }
}

/// The chain-side invariant the editor maintains: a well-formed,
/// line-closed index over the buffer texts, every record wrap-valid at its
/// buffer's width.
pub open spec fn chain_ok(v: VLines, b: BufTable) -> bool {
    &&& v.wf_links()
    &&& v.wf_spans(buf_texts(b))
    &&& v.lines_closed(buf_texts(b))
    &&& forall|x: int| 0 <= x < v.len()
            ==> v.rec_valid(
                buf_texts(b),
                x,
                buf_widths(b)[(#[trigger] v.rec(x)).buffer_key],
            )
}

impl Editor {
    /// The editor's standing invariant: the chain invariant plus a window
    /// over the whole document tied to the chain.
    pub open spec fn wf(self) -> bool {
        &&& chain_ok(self.vlines_view(), self.bufs_view())
        &&& self.window_view().wf(self.vlines_view())
        &&& key_is_null(self.window_view().end.key)
    }

    pub closed spec fn vlines_view(self) -> VLines {
        self.vlines
    }

    pub closed spec fn bufs_view(self) -> BufTable {
        self.bufs
    }

    pub closed spec fn window_view(self) -> Window {
        self.window
    }

    /// The handle of the document's root buffer.
    pub closed spec fn root_view(self) -> slotmap::DefaultKey {
        self.root
    }

    /// The pane size last given by the host, `(width, height)`.
    pub closed spec fn pane_view(self) -> (u16, u16) {
        (self.pane_width, self.pane_height)
    }

    /// Builds an editor over one root buffer seeded with `text` (a
    /// terminator is appended when the text lacks one), wrapped at the
    /// default width, the window over the whole document, the cursor at the
    /// origin.
    pub fn new(text: &str) -> (e: Editor)
        requires
            text@.len() < 0x7fff_0000,
        ensures
            e.wf(),
            ({
                let t = seeded_text(text@);
                let fs = wrap_frags(t, crate::WRAP_AT as int, false);
                &&& buf_slots(e.bufs_view()).dom() =~= set![e.root_view()]
                &&& buf_texts(e.bufs_view())[e.root_view()] == t
                &&& e.vlines_view().count() <= t.len() + 1
                &&& buf_slots(e.bufs_view())[e.root_view()].wrap_at == crate::WRAP_AT
                &&& buf_slots(e.bufs_view())[e.root_view()].indent == 0
                &&& e.vlines_view().len() == fs.len()
                &&& (forall|x: int| 0 <= x < fs.len() ==> {
                        let r = #[trigger] e.vlines_view().rec(x);
                        &&& r.buffer_key == e.root_view()
                        &&& r.start == frag_start(fs, x)
                        &&& r.end == frag_start(fs, x + 1)
                        &&& r.continuation == fs[x].cont
                    })
                &&& e.window_view().start.key == e.vlines_view().first_key()
                &&& e.window_view().start.offset == 0
                &&& e.window_view().start.idx(e.vlines_view()) == 0
                &&& e.window_view().start_idx == 0
                &&& e.window_view().cursor_idx == 0
                &&& e.window_view().cur_x == 0 && e.window_view().cur_y == 0
                &&& e.window_view().indent == 0
                &&& e.window_view().prepend_newlines == 0
                &&& e.window_view().position is None
                &&& e.pane_view() == (0u16, 0u16)
            }),
    {
        let mut chars = str_chars(text);
        let needs_nl = if chars.len() == 0 {
            true
        } else {
            chars[chars.len() - 1] != '\n'
        };
        if needs_nl {
            chars.push('\n');
        }
        proof {
            assert(chars@ == seeded_text(text@));
        }
        let rope = rope_from_chars(&chars);
        let mut bufs = buf_map_new();
        let nullc = VLineCursor::null();
        let bk = buf_map_insert(
            &mut bufs,
            Buffer::new(crate::ext::key_null(), rope, nullc, nullc, crate::WRAP_AT, 0),
        );
        proof {
            assert(buf_texts(bufs).dom().contains(bk));
            assert(buf_texts(bufs)[bk] == chars@);
            assert(buf_slots(bufs).dom() =~= set![bk]);
        }
        let vlines = VLines::new(&bufs, bk);
        let first = vlines.first();
        proof {
            assert(vlines.order().contains(first)) by {
                assert(vlines.order()[0] == first);
            }
            vlines.lemma_key_at(first);
        }
        let start = VLineCursor::new(&vlines, first);
        let window = Window::new(&vlines, start, nullc, 0);
        proof {
            assert(vlines.lines_closed(buf_texts(bufs))) by {
                assert forall|x: int| 0 <= x < vlines.len() && ({
                    let t = #[trigger] vlines.rec_text(buf_texts(bufs), x);
                    t[t.len() - 1] == '\n'
                }) implies !vlines.cont_follows(x) by {
                    assert(vlines.rec_valid(buf_texts(bufs), x, crate::WRAP_AT as int));
                    let t = vlines.rec_text(buf_texts(bufs), x);
                    if vlines.cont_follows(x) {
                        assert(forall|y: int| 0 <= y < t.len() ==> t[y] != '\n');
                    }
                }
            }
            assert forall|x: int| 0 <= x < vlines.len() implies vlines.rec_valid(
                buf_texts(bufs),
                x,
                buf_widths(bufs)[(#[trigger] vlines.rec(x)).buffer_key],
            ) by {
                assert(vlines.rec(x).buffer_key == bk);
                assert(buf_widths(bufs)[bk] == crate::WRAP_AT as int);
                assert(vlines.rec_valid(buf_texts(bufs), x, crate::WRAP_AT as int));
            }
        }
        Editor {
            bufs,
            vlines,
            window,
            root: bk,
            pane_width: 0,
            pane_height: 0,
        }
    }


    /// Types one character at the cursor: pending virtual rows and columns
    /// become real terminators and spaces, the character lands at the
    /// derived offset, and the affected logical line is re-wrapped. A cursor
    /// scrolled above the document or left of the line's indentation does
    /// not edit.
    #[verifier::rlimit(100)]
    #[verifier::spinoff_prover]
    pub fn insert_char(&mut self, c: char) -> (changed: bool)
        requires
            old(self).wf(),
            old(self).window_view().indent + old(self).window_view().cur_x < usize::MAX,
            forall|b: slotmap::DefaultKey| buf_texts(old(self).bufs_view()).dom().contains(b)
                ==> (#[trigger] buf_texts(old(self).bufs_view())[b]).len()
                        + old(self).window_view().cursor_idx
                        + old(self).window_view().cur_x + old(self).window_view().indent
                        + old(self).window_view().prepend_newlines + 2
                        <= usize::MAX
                    && old(self).vlines_view().count()
                        + buf_texts(old(self).bufs_view())[b].len()
                        + old(self).window_view().cursor_idx
                        + old(self).window_view().cur_x + old(self).window_view().indent
                        + old(self).window_view().prepend_newlines + 2
                        <= 0xffff_ffff,
            forall|b: slotmap::DefaultKey| buf_slots(old(self).bufs_view()).dom().contains(b)
                ==> (#[trigger] buf_slots(old(self).bufs_view())[b]).wrap_at >= 1,
        ensures
            final(self).wf(),
            final(self).root_view() == old(self).root_view(),
            final(self).pane_view() == old(self).pane_view(),
            ({
                let w0 = old(self).window_view();
                let v0 = old(self).vlines_view();
                let b0 = old(self).bufs_view();
                let bk = v0.rec(w0.cursor_row(v0)).buffer_key;
                let limit = if old(self).pane_view().1 > 0 {
                    (old(self).pane_view().1 - 1) as u16
                } else {
                    0u16
                };
                &&& (changed <==> !w0.col_invalid(v0, b0) && !w0.pad_blocked(v0, b0, c)
                        && !w0.edge_blocked(v0, b0, c))
                &&& (!changed ==> final(self).bufs_view() == b0
                        && final(self).vlines_view() == v0
                        && final(self).window_view() == (Window { position: None, ..w0 }))
                &&& (changed ==> buf_texts(final(self).bufs_view()) == buf_texts(b0).insert(
                        bk,
                        buf_texts(b0)[bk].take(w0.edit_pos(v0, b0))
                            + w0.edit_block(v0, b0, c)
                            + buf_texts(b0)[bk].skip(w0.edit_pos(v0, b0)),
                    ))
                &&& (changed ==> final(self).window_view().position is None
                        && final(self).window_view().prepend_newlines == 0
                        && final(self).window_view().start == w0.start
                        && final(self).window_view().start_idx == w0.start_idx)
                &&& (changed && (c == '\n' || w0.eff_newlines(v0) > 0)
                        ==> final(self).window_view().cur_x == 0
                            && (w0.cur_y < limit ==> final(self).window_view().cur_y == w0.cur_y + 1)
                            && (w0.cur_y >= limit ==> final(self).window_view().cur_y == w0.cur_y))
                &&& (changed && !(c == '\n' || w0.eff_newlines(v0) > 0)
                        ==> final(self).window_view().cur_y == w0.cur_y
                            && (w0.cur_x as int + 1 < crate::WRAP_AT as int
                                ==> final(self).window_view().cur_x == w0.cur_x + 1)
                            && (w0.cur_x as int + 1 >= crate::WRAP_AT as int
                                ==> final(self).window_view().cur_x == w0.cur_x))
            }),
    {
        let ghost b0 = self.bufs;
        let limit = if self.pane_height > 0 {
            self.pane_height - 1
        } else {
            0
        };
        let ch = self.window.insert_char(&mut self.vlines, &mut self.bufs, c, limit);
        proof {
            if ch {
                assert(chain_ok(self.vlines_view(), self.bufs_view())) by {
                    assert forall|x: int| 0 <= x < self.vlines_view().len()
                        implies self.vlines_view().rec_valid(
                            buf_texts(self.bufs_view()),
                            x,
                            buf_widths(self.bufs_view())[(#[trigger] self.vlines_view().rec(x)).buffer_key],
                        ) by {
                        let bk2 = self.vlines_view().rec(x).buffer_key;
                        assert(self.vlines_view().rec_valid(
                            buf_texts(self.bufs_view()),
                            x,
                            buf_widths(b0)[self.vlines_view().rec(x).buffer_key],
                        ));
                        assert(buf_texts(self.bufs_view()).dom().contains(bk2)) by {
                            assert(self.vlines_view().wf_spans(buf_texts(self.bufs_view())));
                        }
                        assert(buf_slots(self.bufs_view()).dom().contains(bk2));
                        assert(buf_slots(b0).dom().contains(bk2));
                        assert(buf_widths(self.bufs_view())[bk2] == buf_widths(b0)[bk2]) by {
                            assert(buf_slots(self.bufs_view())[bk2].wrap_at
                                == buf_slots(b0)[bk2].wrap_at);
                        }
                    }
                }
            }
        }
        ch
    }

    /// Moves the cursor one row up (pane, then scroll, then a virtual row
    /// above the document); always a change. Text and index are untouched.
    #[verifier::rlimit(100)]
    #[verifier::spinoff_prover]
    pub fn move_cursor_up(&mut self) -> (changed: bool)
        requires
            old(self).wf(),
        ensures
            final(self).wf(),
            final(self).vlines_view() == old(self).vlines_view(),
            final(self).bufs_view() == old(self).bufs_view(),
            final(self).root_view() == old(self).root_view(),
            final(self).pane_view() == old(self).pane_view(),
            ({
                let w0 = old(self).window_view();
                let v = old(self).vlines_view();
                &&& (w0.cur_y > 0 ==> changed && final(self).window_view() == (Window {
                        cur_y: (w0.cur_y - 1) as u16,
                        cursor_idx: (w0.cursor_idx - 1) as usize,
                        position: None,
                        ..w0
                    }))
                &&& (w0.cur_y == 0 && w0.start_idx == 0 ==> changed
                        && final(self).window_view() == (Window {
                            prepend_newlines: if w0.prepend_newlines < usize::MAX {
                                (w0.prepend_newlines + 1) as usize
                            } else {
                                w0.prepend_newlines
                            },
                            position: None,
                            ..w0
                        }))
                &&& (w0.cur_y == 0 && w0.start_idx > 0 ==> {
                        &&& changed <==> w0.start.idx(v) > 0
                        &&& changed ==> final(self).window_view() == (Window {
                                start: w0.start.pred_visual(v),
                                start_idx: (w0.start_idx - 1) as usize,
                                position: None,
                                ..w0
                            })
                        &&& !changed ==> final(self).window_view() == (Window {
                                position: None,
                                ..w0
                            })
                    })
            }),
    {
        let ch = self.window.move_cursor_up(&self.vlines);
        proof {
            let w0 = old(self).window_view();
            let v = self.vlines_view();
            if w0.cur_y == 0 && w0.start_idx > 0 && !ch && w0.start.idx(v) > 0 {
                assert(v.rec(0).continuation);
                assert(!v.rec(0).continuation);
            }
        }
        ch
    }

    /// Moves the cursor one row down (virtual row, then pane up to its last
    /// row, then scroll). Text and index are untouched.
    #[verifier::rlimit(100)]
    #[verifier::spinoff_prover]
    pub fn move_cursor_down(&mut self) -> (changed: bool)
        requires
            old(self).wf(),
        ensures
            final(self).wf(),
            final(self).vlines_view() == old(self).vlines_view(),
            final(self).bufs_view() == old(self).bufs_view(),
            final(self).root_view() == old(self).root_view(),
            final(self).pane_view() == old(self).pane_view(),
            ({
                let w0 = old(self).window_view();
                let v = old(self).vlines_view();
                let limit = if old(self).pane_view().1 > 0 {
                    (old(self).pane_view().1 - 1) as u16
                } else {
                    0u16
                };
                &&& (w0.prepend_newlines > 0 ==> changed
                        && final(self).window_view() == (Window {
                            prepend_newlines: (w0.prepend_newlines - 1) as usize,
                            position: None,
                            ..w0
                        }))
                &&& (w0.prepend_newlines == 0 && w0.cur_y < limit ==> changed
                        && final(self).window_view() == (Window {
                            cur_y: (w0.cur_y + 1) as u16,
                            cursor_idx: (w0.cursor_idx + 1) as usize,
                            position: None,
                            ..w0
                        }))
                &&& (w0.prepend_newlines == 0 && w0.cur_y >= limit ==> {
                        &&& changed <==> w0.start.idx(v) < v.len() - 1
                        &&& changed ==> final(self).window_view() == (Window {
                                start: w0.start.succ_visual(v),
                                start_idx: (w0.start_idx + 1) as usize,
                                position: None,
                                ..w0
                            })
                        &&& !changed ==> final(self).window_view() == w0
                    })
            }),
    {
        let limit = if self.pane_height > 0 {
            self.pane_height - 1
        } else {
            0
        };
        let ch = self.window.move_cursor_down(&self.vlines, limit);
        proof {
            self.lemma_succ_not_null_end(*old(self), ch, limit);
        }
        ch
    }

    /// In the scroll branch, the window's end (the null cursor here) never
    /// equals the canonical next row, so only the document's last row stops
    /// the move.
    proof fn lemma_succ_not_null_end(self, pre: Editor, changed: bool, limit: u16)
        requires
            pre.wf(),
            self.vlines_view() == pre.vlines_view(),
            ({
                let w0 = pre.window_view();
                let v = pre.vlines_view();
                &&& (w0.prepend_newlines == 0 && w0.cur_y >= limit && !changed
                        ==> w0.start.idx(v) == v.len() - 1 || w0.start.succ_visual(v) == w0.end)
                &&& (w0.prepend_newlines == 0 && w0.cur_y >= limit && changed
                        ==> w0.start.idx(v) < v.len() - 1)
            }),
        ensures
            ({
                let w0 = pre.window_view();
                let v = pre.vlines_view();
                w0.prepend_newlines == 0 && w0.cur_y >= limit
                    ==> (changed <==> w0.start.idx(v) < v.len() - 1)
            }),
    {
        let w0 = pre.window_view();
        let v = pre.vlines_view();
        if w0.prepend_newlines == 0 && w0.cur_y >= limit && !changed {
            if w0.start.idx(v) < v.len() - 1 {
                let succ = w0.start.succ_visual(v);
                assert(succ == w0.end);
                v.lemma_key_at(w0.start.key);
                if v.rec(w0.start.idx(v) + 1).continuation {
                    assert(!key_is_null(succ.key)) by {
                        assert(v.order().contains(w0.start.key)) by {
                            assert(v.order()[v.key_at(w0.start.key)] == w0.start.key);
                        }
                        assert(!key_is_null(v.order()[v.key_at(w0.start.key)]));
                    }
                } else {
                    assert(!key_is_null(v.order()[w0.start.idx(v) + 1]));
                }
                assert(key_is_null(succ.key));
                assert(false);
            }
        }
    }

    /// Moves the cursor one column left within the row.
    pub fn move_cursor_left(&mut self) -> (changed: bool)
        requires
            old(self).wf(),
        ensures
            final(self).wf(),
            final(self).vlines_view() == old(self).vlines_view(),
            final(self).bufs_view() == old(self).bufs_view(),
            final(self).root_view() == old(self).root_view(),
            final(self).pane_view() == old(self).pane_view(),
            changed == (old(self).window_view().cur_x > 0),
            changed ==> final(self).window_view() == (Window {
                cur_x: (old(self).window_view().cur_x - 1) as u16,
                position: None,
                ..old(self).window_view()
            }),
            !changed ==> final(self).window_view() == old(self).window_view(),
    {
        self.window.move_cursor_left_saturating()
    }

    /// Moves the cursor one column right, staying left of the wrap width.
    pub fn move_cursor_right(&mut self) -> (changed: bool)
        requires
            old(self).wf(),
        ensures
            final(self).wf(),
            final(self).vlines_view() == old(self).vlines_view(),
            final(self).bufs_view() == old(self).bufs_view(),
            final(self).root_view() == old(self).root_view(),
            final(self).pane_view() == old(self).pane_view(),
            changed == (old(self).window_view().cur_x as int + 1 < crate::WRAP_AT as int),
            changed ==> final(self).window_view() == (Window {
                cur_x: (old(self).window_view().cur_x + 1) as u16,
                position: None,
                ..old(self).window_view()
            }),
            !changed ==> final(self).window_view() == old(self).window_view(),
    {
        self.window.move_cursor_right_saturating()
    }

    /// Puts the cursor in column zero.
    pub fn move_cursor_at_0(&mut self) -> (changed: bool)
        requires
            old(self).wf(),
        ensures
            final(self).wf(),
            final(self).vlines_view() == old(self).vlines_view(),
            final(self).bufs_view() == old(self).bufs_view(),
            final(self).root_view() == old(self).root_view(),
            final(self).pane_view() == old(self).pane_view(),
            final(self).window_view() == (Window {
                cur_x: 0,
                position: None,
                ..old(self).window_view()
            }),
            changed,
    {
        self.window.move_cursor_at_0()
    }

    /// Scrolls one row up; succeeds exactly when rows precede the window.
    #[verifier::rlimit(100)]
    #[verifier::spinoff_prover]
    pub fn scroll_up(&mut self) -> (changed: bool)
        requires
            old(self).wf(),
        ensures
            final(self).wf(),
            final(self).vlines_view() == old(self).vlines_view(),
            final(self).bufs_view() == old(self).bufs_view(),
            final(self).root_view() == old(self).root_view(),
            final(self).pane_view() == old(self).pane_view(),
            changed <==> (old(self).window_view().start_idx > 0
                && old(self).window_view().start.idx(old(self).vlines_view()) > 0),
            changed ==> final(self).window_view().start.idx(old(self).vlines_view())
                    == old(self).window_view().start.idx(old(self).vlines_view()) - 1
                && final(self).window_view() == (Window {
                    start: old(self).window_view().start.pred_visual(old(self).vlines_view()),
                    start_idx: (old(self).window_view().start_idx - 1) as usize,
                    position: None,
                    ..old(self).window_view()
                }),
            !changed ==> final(self).window_view() == old(self).window_view(),
    {
        let ch = self.window.scroll_up(&self.vlines);
        proof {
            let w0 = old(self).window_view();
            let v = self.vlines_view();
            if !ch && w0.start_idx > 0 && w0.start.idx(v) > 0 {
                assert(v.rec(0).continuation);
                assert(!v.rec(0).continuation);
            }
        }
        ch
    }

    /// Scrolls one row down; succeeds exactly when a virtual top row is
    /// pending or a row follows the window start.
    #[verifier::rlimit(100)]
    #[verifier::spinoff_prover]
    pub fn scroll_down(&mut self) -> (changed: bool)
        requires
            old(self).wf(),
        ensures
            final(self).wf(),
            final(self).vlines_view() == old(self).vlines_view(),
            final(self).bufs_view() == old(self).bufs_view(),
            final(self).root_view() == old(self).root_view(),
            final(self).pane_view() == old(self).pane_view(),
            changed <==> (old(self).window_view().prepend_newlines > 0
                || old(self).window_view().start.idx(old(self).vlines_view())
                    < old(self).vlines_view().len() - 1),
            old(self).window_view().prepend_newlines > 0
                ==> final(self).window_view() == (Window {
                    prepend_newlines: (old(self).window_view().prepend_newlines - 1) as usize,
                    position: None,
                    ..old(self).window_view()
                }),
            old(self).window_view().prepend_newlines == 0 && changed
                ==> final(self).window_view().start.idx(old(self).vlines_view())
                        == old(self).window_view().start.idx(old(self).vlines_view()) + 1
                    && final(self).window_view() == (Window {
                        start: old(self).window_view().start.succ_visual(old(self).vlines_view()),
                        start_idx: (old(self).window_view().start_idx + 1) as usize,
                        position: None,
                        ..old(self).window_view()
                    }),
            !changed ==> final(self).window_view() == old(self).window_view(),
    {
        let ch = self.window.scroll_down(&self.vlines);
        proof {
            self.lemma_succ_not_null_end(*old(self), ch, old(self).window_view().cur_y);
        }
        ch
    }

    /// One paging step up, with just the fields paging tracks.
    #[verifier::rlimit(100)]
    #[verifier::spinoff_prover]
    fn scroll_up_step(&mut self) -> (changed: bool)
        requires
            old(self).wf(),
        ensures
            final(self).wf(),
            final(self).vlines_view() == old(self).vlines_view(),
            final(self).bufs_view() == old(self).bufs_view(),
            final(self).root_view() == old(self).root_view(),
            final(self).pane_view() == old(self).pane_view(),
            changed <==> old(self).window_view().start_idx > 0,
            changed ==> ({
                let w0 = old(self).window_view();
                let v = old(self).vlines_view();
                &&& final(self).window_view().start_idx == w0.start_idx - 1
                &&& final(self).window_view().start.idx(v) == w0.start.idx(v) - 1
                &&& final(self).window_view().cur_x == w0.cur_x
                &&& final(self).window_view().cur_y == w0.cur_y
                &&& final(self).window_view().cursor_idx == w0.cursor_idx
                &&& final(self).window_view().end == w0.end
                &&& final(self).window_view().indent == w0.indent
                &&& final(self).window_view().prepend_newlines == w0.prepend_newlines
                &&& final(self).window_view().position is None
            }),
            !changed ==> final(self).window_view() == old(self).window_view(),
    {
        let ch = self.scroll_up();
        proof {
            if !ch && old(self).window_view().start_idx > 0 {
                assert(old(self).window_view().start_idx
                    <= old(self).window_view().start.idx(old(self).vlines_view()));
            }
        }
        ch
    }

    /// One paging step down, with just the fields paging tracks.
    #[verifier::rlimit(100)]
    #[verifier::spinoff_prover]
    fn scroll_down_step(&mut self) -> (changed: bool)
        requires
            old(self).wf(),
        ensures
            final(self).wf(),
            final(self).vlines_view() == old(self).vlines_view(),
            final(self).bufs_view() == old(self).bufs_view(),
            final(self).root_view() == old(self).root_view(),
            final(self).pane_view() == old(self).pane_view(),
            changed <==> (old(self).window_view().prepend_newlines > 0
                || old(self).window_view().start.idx(old(self).vlines_view())
                    < old(self).vlines_view().len() - 1),
            ({
                let w0 = old(self).window_view();
                let v = old(self).vlines_view();
                &&& (w0.prepend_newlines > 0 ==> final(self).window_view().prepend_newlines
                        == w0.prepend_newlines - 1
                        && final(self).window_view().start_idx == w0.start_idx
                        && final(self).window_view().start.idx(v) == w0.start.idx(v))
                &&& (w0.prepend_newlines == 0 && changed
                        ==> final(self).window_view().prepend_newlines == 0
                            && final(self).window_view().start_idx == w0.start_idx + 1
                            && final(self).window_view().start.idx(v) == w0.start.idx(v) + 1)
                &&& (changed ==> final(self).window_view().cur_x == w0.cur_x
                        && final(self).window_view().cur_y == w0.cur_y
                        && final(self).window_view().cursor_idx == w0.cursor_idx
                        && final(self).window_view().end == w0.end
                        && final(self).window_view().indent == w0.indent
                        && final(self).window_view().position is None)
                &&& (!changed ==> final(self).window_view() == w0)
            }),
    {
        let ch = self.scroll_down();
        proof {
            // the chain length bounds the start index, so the increment fits
            old(self).vlines_view().lemma_len_bound();
        }
        ch
    }

    /// Scrolls up one pane's worth of rows, stopping where the document
    /// starts: exactly the lesser of the pane height and the rows above the
    /// window; reports whether anything moved. Only the window start and its
    /// index move; the cursor cell and the text never do.
    #[verifier::loop_isolation(false)]
    #[verifier::rlimit(100)]
    #[verifier::spinoff_prover]
    pub fn page_up(&mut self) -> (changed: bool)
        requires
            old(self).wf(),
        ensures
            final(self).wf(),
            final(self).vlines_view() == old(self).vlines_view(),
            final(self).bufs_view() == old(self).bufs_view(),
            final(self).root_view() == old(self).root_view(),
            final(self).pane_view() == old(self).pane_view(),
            ({
                let w0 = old(self).window_view();
                let v = old(self).vlines_view();
                let ph = old(self).pane_view().1 as int;
                let steps = if ph <= w0.start_idx {
                    ph
                } else {
                    w0.start_idx as int
                };
                &&& (changed <==> steps > 0)
                &&& final(self).window_view().start_idx == w0.start_idx - steps
                &&& final(self).window_view().start.idx(v) == w0.start.idx(v) - steps
                &&& final(self).window_view().cur_x == w0.cur_x
                &&& final(self).window_view().cur_y == w0.cur_y
                &&& final(self).window_view().cursor_idx == w0.cursor_idx
                &&& final(self).window_view().end == w0.end
                &&& final(self).window_view().indent == w0.indent
                &&& final(self).window_view().prepend_newlines == w0.prepend_newlines
                &&& (!changed ==> final(self).window_view() == w0)
                &&& (changed ==> final(self).window_view().position is None)
            }),
    {
        let ghost w0 = self.window;
        let ghost v = self.vlines;
        let mut changed = false;
        let mut more: u8 = 1;
        let mut i: u16 = 0;
        while i < self.pane_height && more == 1
            invariant
                self.wf(),
                self.vlines_view() == old(self).vlines_view(),
                self.bufs_view() == old(self).bufs_view(),
                self.root_view() == old(self).root_view(),
                self.pane_view() == old(self).pane_view(),
                i <= self.pane_height,
                i as int <= w0.start_idx || i == 0,
                self.window_view().start_idx == w0.start_idx - i as int,
                self.window_view().start.idx(v) == w0.start.idx(v) - i as int,
                self.window_view().cur_x == w0.cur_x,
                self.window_view().cur_y == w0.cur_y,
                self.window_view().cursor_idx == w0.cursor_idx,
                self.window_view().end == w0.end,
                self.window_view().indent == w0.indent,
                self.window_view().prepend_newlines == w0.prepend_newlines,
                changed <==> i > 0,
                !changed ==> self.window_view() == w0,
                changed ==> self.window_view().position is None,
                more != 1 ==> self.window_view().start_idx == 0,
            decreases self.pane_height - i, more,
        {
            if !self.scroll_up_step() {
                more = 0;
            } else {
                changed = true;
                i += 1;
            }
        }
        changed
    }

    /// Scrolls down one pane's worth of rows, stopping at the document's
    /// last row: exactly the lesser of the pane height and the virtual top
    /// rows plus the rows below the window; reports whether anything moved.
    /// Only the window start, its index and the virtual-row count move; the
    /// cursor cell and the text never do.
    #[verifier::loop_isolation(false)]
    #[verifier::rlimit(100)]
    #[verifier::spinoff_prover]
    pub fn page_down(&mut self) -> (changed: bool)
        requires
            old(self).wf(),
        ensures
            final(self).wf(),
            final(self).vlines_view() == old(self).vlines_view(),
            final(self).bufs_view() == old(self).bufs_view(),
            final(self).root_view() == old(self).root_view(),
            final(self).pane_view() == old(self).pane_view(),
            ({
                let w0 = old(self).window_view();
                let v = old(self).vlines_view();
                let ph = old(self).pane_view().1 as int;
                let avail = w0.prepend_newlines + (v.len() - 1 - w0.start.idx(v));
                let steps = if ph <= avail {
                    ph
                } else {
                    avail
                };
                let fwd = if steps <= w0.prepend_newlines {
                    0int
                } else {
                    steps - w0.prepend_newlines
                };
                &&& (changed <==> steps > 0)
                &&& final(self).window_view().prepend_newlines
                        == if steps <= w0.prepend_newlines {
                            w0.prepend_newlines - steps
                        } else {
                            0int
                        }
                &&& final(self).window_view().start_idx == w0.start_idx + fwd
                &&& final(self).window_view().start.idx(v) == w0.start.idx(v) + fwd
                &&& final(self).window_view().cur_x == w0.cur_x
                &&& final(self).window_view().cur_y == w0.cur_y
                &&& final(self).window_view().cursor_idx == w0.cursor_idx
                &&& final(self).window_view().end == w0.end
                &&& final(self).window_view().indent == w0.indent
                &&& (!changed ==> final(self).window_view() == w0)
                &&& (changed ==> final(self).window_view().position is None)
            }),
    {
        let ghost w0 = self.window;
        let ghost v = self.vlines;
        let ghost avail = w0.prepend_newlines + (v.len() - 1 - w0.start.idx(v));
        let mut changed = false;
        let mut more: u8 = 1;
        let mut i: u16 = 0;
        while i < self.pane_height && more == 1
            invariant
                self.wf(),
                self.vlines_view() == old(self).vlines_view(),
                self.bufs_view() == old(self).bufs_view(),
                self.root_view() == old(self).root_view(),
                self.pane_view() == old(self).pane_view(),
                i <= self.pane_height,
                i as int <= avail || i == 0,
                self.window_view().prepend_newlines
                    == if i as int <= w0.prepend_newlines {
                        w0.prepend_newlines - i as int
                    } else {
                        0int
                    },
                self.window_view().start_idx == w0.start_idx
                    + (if i as int <= w0.prepend_newlines { 0int } else { i - w0.prepend_newlines }),
                self.window_view().start.idx(v) == w0.start.idx(v)
                    + (if i as int <= w0.prepend_newlines { 0int } else { i - w0.prepend_newlines }),
                self.window_view().cur_x == w0.cur_x,
                self.window_view().cur_y == w0.cur_y,
                self.window_view().cursor_idx == w0.cursor_idx,
                self.window_view().end == w0.end,
                self.window_view().indent == w0.indent,
                changed <==> i > 0,
                !changed ==> self.window_view() == w0,
                changed ==> self.window_view().position is None,
                more != 1 ==> self.window_view().prepend_newlines == 0
                    && self.window_view().start.idx(v) == v.len() - 1,
            decreases self.pane_height - i, more,
        {
            if !self.scroll_down_step() {
                more = 0;
            } else {
                changed = true;
                i += 1;
            }
        }
        changed
    }

    /// The pane-relative cursor cell.
    pub fn cursor_position(&self) -> (p: (u16, u16))
        ensures
            p.0 == self.window_view().cur_x && p.1 == self.window_view().cur_y,
    {
        self.window.cursor_position()
    }

    /// Records the pane size the host renders into.
    pub fn update_pane_size(&mut self, width: u16, height: u16)
        requires
            old(self).wf(),
        ensures
            final(self).wf(),
            final(self).vlines_view() == old(self).vlines_view(),
            final(self).bufs_view() == old(self).bufs_view(),
            final(self).root_view() == old(self).root_view(),
            final(self).window_view() == old(self).window_view(),
            final(self).pane_view() == (width, height),
    {
        self.pane_width = width;
        self.pane_height = height;
    }

    /// The visible rows: one per visual line from the window start, bounded
    /// by the pane height and the document's end; each row carries exactly
    /// its record's characters, its buffer's indentation relative to the
    /// window, and its continuation flag.
    #[verifier::loop_isolation(false)]
    #[verifier::rlimit(60)]
    pub fn get_display_lines(&self) -> (rows: Vec<DisplayLine>)
        requires
            self.wf(),
        ensures
            ({
                let v = self.vlines_view();
                let s = self.window_view().start.idx(v);
                let ph = self.pane_view().1 as int;
                let pn = self.window_view().prepend_newlines as int;
                let blanks = if ph <= pn {
                    ph
                } else {
                    pn
                };
                &&& rows@.len() == if ph <= pn + (v.len() - s) {
                        ph
                    } else {
                        pn + (v.len() - s)
                    }
                &&& (forall|i: int| 0 <= i < blanks
                        ==> (#[trigger] rows@[i]).text@ == Seq::<char>::empty()
                            && rows@[i].indent == 0
                            && !rows@[i].continuation)
                &&& (forall|i: int| blanks <= i < rows@.len()
                        ==> (#[trigger] rows@[i]).text@ == v.rec_text(
                                buf_texts(self.bufs_view()),
                                s + (i - blanks),
                            )
                            && rows@[i].continuation == v.rec(s + (i - blanks)).continuation
                            && rows@[i].indent == ({
                                let b = buf_slots(self.bufs_view())[v.rec(
                                    s + (i - blanks),
                                ).buffer_key].indent;
                                if b >= self.window_view().indent {
                                    b - self.window_view().indent
                                } else {
                                    0
                                }
                            }))
            }),
    {
        let ghost v = self.vlines;
        let ghost texts = buf_texts(self.bufs);
        let ghost s = self.window.start.idx(v);
        let mut rows: Vec<DisplayLine> = Vec::new();
        let mut c = self.window.start;
        let ph = self.pane_height as usize;
        // the rows scrolled in above the document render as blank rows
        while rows.len() < ph && rows.len() < self.window.prepend_newlines
            invariant
                rows@.len() <= ph,
                rows@.len() <= self.window_view().prepend_newlines,
                forall|x: int| 0 <= x < rows@.len()
                    ==> (#[trigger] rows@[x]).text@ == Seq::<char>::empty()
                        && rows@[x].indent == 0
                        && !rows@[x].continuation,
            decreases ph - rows@.len(),
        {
            let empty: Vec<char> = Vec::new();
            rows.push(DisplayLine { text: empty, indent: 0, continuation: false });
        }
        let ghost blanks = rows@.len() as int;
        proof {
            let pn = self.window_view().prepend_newlines as int;
            assert(blanks == if ph as int <= pn {
                ph as int
            } else {
                pn
            });
        }
        let mut fin: bool = false;
        while rows.len() < ph
            invariant
                blanks <= rows@.len() <= ph,
                !fin ==> c.ok(v) && c.idx(v) == s + (rows@.len() - blanks),
                fin ==> rows@.len() - blanks == v.len() - s,
                forall|x: int| 0 <= x < blanks
                    ==> (#[trigger] rows@[x]).text@ == Seq::<char>::empty()
                        && rows@[x].indent == 0
                        && !rows@[x].continuation,
                forall|x: int| blanks <= x < rows@.len()
                    ==> (#[trigger] rows@[x]).text@ == v.rec_text(texts, s + (x - blanks))
                        && rows@[x].continuation == v.rec(s + (x - blanks)).continuation
                        && rows@[x].indent == ({
                            let b = buf_slots(self.bufs)[v.rec(s + (x - blanks)).buffer_key].indent;
                            if b >= self.window.indent {
                                b - self.window.indent
                            } else {
                                0
                            }
                        }),
            decreases ph - rows@.len(),
        {
            if fin {
                break;
            }
            let ghost ci = c.idx(v);
            let k = c.key(&self.vlines);
            proof {
                assert(v.order().contains(k)) by {
                    assert(v.order()[ci] == k);
                }
                assert(v.slots().dom().contains(k));
            }
            let line = *crate::vlines::line_ref(&self.vlines, k);
            proof {
                assert(line == v.rec(ci));
                assert(texts.dom().contains(line.buffer_key));
                assert(buf_slots(self.bufs).dom().contains(line.buffer_key));
            }
            let b = match buf_map_get(&self.bufs, line.buffer_key) {
                Some(b) => b,
                None => vstd::pervasive::unreached(),
            };
            proof {
                assert(crate::ext::rope_text(b.text) == texts[line.buffer_key]);
                assert(line.start < line.end <= texts[line.buffer_key].len());
            }
            let text = rope_chars_range(&b.text, line.start, line.end);
            let ind = if b.indent >= self.window.indent {
                b.indent - self.window.indent
            } else {
                0
            };
            rows.push(DisplayLine { text, indent: ind, continuation: line.continuation });
            if !c.move_next_visual(&self.vlines) {
                fin = true;
            }
        }
        proof {
            if !fin {
                assert(rows@.len() == ph);
                assert(s + (rows@.len() - blanks) <= v.len());
            }
        }
        rows
    }
}

} // verus!
