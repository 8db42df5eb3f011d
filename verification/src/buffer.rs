//! A buffer (segment): an independently wrapped, independently indented
//! contiguous run of the document, owning its own text.

use vstd::prelude::*;

use crate::ext::{buf_map_get, buf_map_get_mut, buf_slots, rope_insert_text, rope_text, BufTable};
use crate::vlines::{wrap_post, VLine, VLineCursor, VLines};

verus! {

pub struct Buffer {
    /// This buffer's own handle in the buffer table.
    pub key: slotmap::DefaultKey,
    /// The character data of this segment.
    pub text: ropey::Rope,
    /// Head cursor of the first visual line owned by this buffer.
    pub start: VLineCursor,
    /// Cursor just past the last owned visual line (null at end of document).
    pub end: VLineCursor,
    /// Rows wrap after this many characters.
    pub wrap_at: usize,
    /// Spaces stripped from every logical line, re-added for display.
    pub indent: usize,
}

impl Buffer {
    /// Bundles a segment from its parts.
    pub fn new(
        key: slotmap::DefaultKey,
        text: ropey::Rope,
        start: VLineCursor,
        end: VLineCursor,
        wrap_at: usize,
        indent: usize,
    ) -> (b: Buffer)
        ensures
            b.key == key,
            rope_text(b.text) == rope_text(text),
            b.start == start,
            b.end == end,
            b.wrap_at == wrap_at,
            b.indent == indent,
    {
        Buffer { key, text, start, end, wrap_at, indent }
    }
}

/// Each buffer's characters, by handle.
pub open spec fn buf_texts(m: BufTable) -> Map<slotmap::DefaultKey, Seq<char>> {
    buf_slots(m).map_values(|b: Buffer| rope_text(b.text))
}

/// Each buffer's wrap width, by handle.
pub open spec fn buf_widths(m: BufTable) -> Map<slotmap::DefaultKey, int> {
    buf_slots(m).map_values(|b: Buffer| b.wrap_at as int)
}

impl Buffer {
    /// Inserts `chars` into buffer `key`'s text at `char_idx`, inside the
    /// span of the visual line `at`, then repairs the index at the buffer's
    /// own wrap width. Afterwards the buffer's text is the old text with
    /// `chars` spliced in, every other buffer is untouched, and the edited
    /// logical line is its canonical fragmentation (the second result is the
    /// intermediate, merely shifted index that `wrap_post` relates to the
    /// final one).
    pub fn insert(
        bufs: &mut BufTable,
        v: &mut VLines,
        key: slotmap::DefaultKey,
        char_idx: usize,
        chars: &Vec<char>,
        at: slotmap::DefaultKey,
    ) -> (r: (slotmap::DefaultKey, Ghost<VLines>))
        requires
            old(v).wf_links(),
            old(v).wf_spans(buf_texts(*old(bufs))),
            old(v).lines_closed(buf_texts(*old(bufs))),
            old(v).order().contains(at),
            buf_slots(*old(bufs)).dom().contains(key),
            ({
                let texts = buf_texts(*old(bufs));
                let ai = old(v).key_at(at);
                &&& old(v).rec(ai).buffer_key == key
                &&& old(v).rec(ai).start <= char_idx <= old(v).rec(ai).end
                &&& buf_slots(*old(bufs))[key].wrap_at >= 1
                &&& chars@.len() >= 1
                &&& texts[key].len() + chars@.len() <= usize::MAX
                &&& (char_idx < texts[key].len() || chars@[chars@.len() - 1] == '\n')
                &&& !(char_idx == old(v).rec(ai).end && old(v).cont_follows(ai)
                        && chars@[chars@.len() - 1] == '\n')
                &&& old(v).count() + texts[key].len() + chars@.len() <= 0xffff_ffff
            }),
        ensures
            buf_slots(*final(bufs)).dom() =~= buf_slots(*old(bufs)).dom(),
            buf_texts(*final(bufs)) == buf_texts(*old(bufs)).insert(
                key,
                buf_texts(*old(bufs))[key].take(char_idx as int) + chars@
                    + buf_texts(*old(bufs))[key].skip(char_idx as int),
            ),
            forall|k: slotmap::DefaultKey| k != key && buf_slots(*old(bufs)).dom().contains(k)
                ==> buf_slots(*final(bufs))[k] == buf_slots(*old(bufs))[k],
            ({
                let b0 = buf_slots(*old(bufs))[key];
                let b1 = buf_slots(*final(bufs))[key];
                b1.key == b0.key && b1.start == b0.start && b1.end == b0.end
                    && b1.wrap_at == b0.wrap_at && b1.indent == b0.indent
            }),
            final(v).wf_links(),
            final(v).wf_spans(buf_texts(*final(bufs))),
            final(v).lines_closed(buf_texts(*final(bufs))),
            ({
                let texts = buf_texts(*final(bufs));
                let mid = r.1@;
                let ai = old(v).key_at(at);
                &&& (forall|x: int| 0 <= x < ai ==> #[trigger] final(v).order()[x] == old(v).order()[x])
                &&& (forall|x: int| 0 <= x < ai ==> #[trigger] final(v).rec(x) == old(v).rec(x))
                &&& ai < final(v).len()
                &&& final(v).order()[ai] == at
                &&& final(v).first_key() == old(v).first_key()
                &&& mid.wf_links() && mid.wf_spans(texts)
                &&& mid.order() == old(v).order()
                &&& mid.key_at(at) == ai
                &&& mid.rec(ai) == (VLine {
                        end: (old(v).rec(ai).end + chars@.len()) as usize,
                        ..old(v).rec(ai)
                    })
                &&& (forall|x: int| 0 <= x < old(v).len() && x != ai
                        && (#[trigger] old(v).rec(x)).buffer_key == key && x > ai
                        ==> mid.rec(x) == (VLine {
                            start: (old(v).rec(x).start + chars@.len()) as usize,
                            end: (old(v).rec(x).end + chars@.len()) as usize,
                            ..old(v).rec(x)
                        }))
                &&& (forall|x: int| 0 <= x < old(v).len()
                        && ((#[trigger] old(v).rec(x)).buffer_key != key || x < ai)
                        ==> mid.rec(x) == old(v).rec(x))
                &&& wrap_post(mid, *final(v), texts, at,
                        buf_slots(*old(bufs))[key].wrap_at as int, r.0)
            }),
    {
        let ghost oldtext = buf_texts(*bufs)[key];
        proof {
            v.lemma_key_at(at);
            assert(buf_texts(*bufs)[key] == rope_text(buf_slots(*bufs)[key].text));
        }
        let ghost ai = v.key_at(at);
        let b = buf_map_get_mut(bufs, key);
        let w = b.wrap_at;
        let n = chars.len();
        rope_insert_text(&mut b.text, char_idx, chars);
        let ghost newtext = oldtext.take(char_idx as int) + chars@ + oldtext.skip(char_idx as int);
        proof {
            assert(buf_texts(*bufs) =~= buf_texts(*old(bufs)).insert(key, newtext));
            let texts = buf_texts(*bufs);
            let pre_text = texts[key].take(char_idx as int) + texts[key].skip(char_idx + n);
            assert(pre_text =~= oldtext);
            assert(texts.insert(key, pre_text) =~= buf_texts(*old(bufs)));
            assert(newtext[newtext.len() - 1] == '\n') by {
                if char_idx < oldtext.len() {
                    assert(newtext[newtext.len() - 1] == oldtext[oldtext.len() - 1]);
                } else {
                    assert(newtext[newtext.len() - 1] == chars@[chars@.len() - 1]);
                }
            }
            assert(newtext[char_idx + n - 1] == chars@[chars@.len() - 1]);
        }
        let r = v.insert(bufs, at, n, w, char_idx);
        r
    }

    /// Types one character; see `insert`.
    pub fn insert_char(
        bufs: &mut BufTable,
        v: &mut VLines,
        key: slotmap::DefaultKey,
        char_idx: usize,
        c: char,
        at: slotmap::DefaultKey,
    ) -> (r: (slotmap::DefaultKey, Ghost<VLines>))
        requires
            old(v).wf_links(),
            old(v).wf_spans(buf_texts(*old(bufs))),
            old(v).lines_closed(buf_texts(*old(bufs))),
            old(v).order().contains(at),
            buf_slots(*old(bufs)).dom().contains(key),
            ({
                let texts = buf_texts(*old(bufs));
                let ai = old(v).key_at(at);
                &&& old(v).rec(ai).buffer_key == key
                &&& old(v).rec(ai).start <= char_idx <= old(v).rec(ai).end
                &&& buf_slots(*old(bufs))[key].wrap_at >= 1
                &&& texts[key].len() < usize::MAX
                &&& (char_idx < texts[key].len() || c == '\n')
                &&& !(char_idx == old(v).rec(ai).end && old(v).cont_follows(ai) && c == '\n')
                &&& old(v).count() + texts[key].len() + 1 <= 0xffff_ffff
            }),
        ensures
            buf_slots(*final(bufs)).dom() =~= buf_slots(*old(bufs)).dom(),
            buf_texts(*final(bufs)) == buf_texts(*old(bufs)).insert(
                key,
                buf_texts(*old(bufs))[key].insert(char_idx as int, c),
            ),
            forall|k: slotmap::DefaultKey| k != key && buf_slots(*old(bufs)).dom().contains(k)
                ==> buf_slots(*final(bufs))[k] == buf_slots(*old(bufs))[k],
            ({
                let b0 = buf_slots(*old(bufs))[key];
                let b1 = buf_slots(*final(bufs))[key];
                b1.key == b0.key && b1.start == b0.start && b1.end == b0.end
                    && b1.wrap_at == b0.wrap_at && b1.indent == b0.indent
            }),
            final(v).wf_links(),
            final(v).wf_spans(buf_texts(*final(bufs))),
            final(v).lines_closed(buf_texts(*final(bufs))),
            ({
                let texts = buf_texts(*final(bufs));
                let mid = r.1@;
                let ai = old(v).key_at(at);
                &&& (forall|x: int| 0 <= x < ai ==> #[trigger] final(v).order()[x] == old(v).order()[x])
                &&& (forall|x: int| 0 <= x < ai ==> #[trigger] final(v).rec(x) == old(v).rec(x))
                &&& ai < final(v).len()
                &&& final(v).order()[ai] == at
                &&& final(v).first_key() == old(v).first_key()
                &&& mid.wf_links() && mid.wf_spans(texts)
                &&& mid.order() == old(v).order()
                &&& mid.key_at(at) == ai
                &&& mid.rec(ai) == (VLine {
                        end: (old(v).rec(ai).end + 1) as usize,
                        ..old(v).rec(ai)
                    })
                &&& (forall|x: int| 0 <= x < old(v).len() && x != ai
                        && (#[trigger] old(v).rec(x)).buffer_key == key && x > ai
                        ==> mid.rec(x) == (VLine {
                            start: (old(v).rec(x).start + 1) as usize,
                            end: (old(v).rec(x).end + 1) as usize,
                            ..old(v).rec(x)
                        }))
                &&& (forall|x: int| 0 <= x < old(v).len()
                        && ((#[trigger] old(v).rec(x)).buffer_key != key || x < ai)
                        ==> mid.rec(x) == old(v).rec(x))
                &&& wrap_post(mid, *final(v), texts, at,
                        buf_slots(*old(bufs))[key].wrap_at as int, r.0)
            }),
    {
        let mut one: Vec<char> = Vec::new();
        one.push(c);
        proof {
            assert(one@ =~= seq![c]);
            let oldtext = buf_texts(*bufs)[key];
            assert(oldtext.take(char_idx as int) + one@ + oldtext.skip(char_idx as int)
                =~= oldtext.insert(char_idx as int, c));
        }
        let r = Buffer::insert(bufs, v, key, char_idx, &one, at);
        r
    }
}

} // verus!
