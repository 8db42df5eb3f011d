//! The visual-line index: a doubly-linked chain of display rows kept in a
//! slotmap arena, each row a char range into one buffer's text.

use vstd::prelude::*;

use crate::buffer::{buf_texts, Buffer};
use crate::ext::{
    BufTable,
    buf_map_get, buf_slots, rope_len, is_null, key_eq, key_is_null, key_null, line_map_get, line_map_insert,
    line_map_new, line_map_remove, line_map_set, line_slot_count, line_slots, rope_char_at,
    rope_chars_range, rope_text, LineArena,
};
use crate::wrapmodel::{
    compute_fragments, first_nl, frag_shape_ok, frag_start, lemma_first_nl, lemma_frag_start_mono,
    lemma_wrap_frags, lemma_wrap_frags_single, wrap_frags, Frag, FragRange,
};

verus! {

/// One visual line: either the whole remainder of a logical line or one wrap
/// fragment of it. `start..end` is a char range into the owning buffer's text.
#[derive(Clone, Copy)]
pub struct VLine {
    pub prev: slotmap::DefaultKey,
    pub next: slotmap::DefaultKey,
    pub buffer_key: slotmap::DefaultKey,
    pub start: usize,
    pub end: usize,
    pub continuation: bool,
}

/// The fields of a record that wrapping is answerable for; the links are
/// derived from the chain order.
pub open spec fn vline_core(v: VLine) -> (slotmap::DefaultKey, int, int, bool) {
    (v.buffer_key, v.start as int, v.end as int, v.continuation)
}

/// A stable reference to a visual line: the handle of the logical line's head
/// record plus how many wrap fragments to step forward. The head handle
/// survives re-wrapping, so a cursor stays meaningful across edits.
#[derive(Clone, Copy)]
#[verifier::ext_equal]
pub struct VLineCursor {
    pub key: slotmap::DefaultKey,
    pub offset: usize,
}

pub struct VLines {
    arena: LineArena,
    first: slotmap::DefaultKey,
    ord: Ghost<Seq<slotmap::DefaultKey>>,
    runs: Ghost<Map<slotmap::DefaultKey, (int, int)>>,
}

impl VLines {
    /// The handles of the chain, in display order.
    pub closed spec fn order(self) -> Seq<slotmap::DefaultKey> {
        self.ord@
    }

    /// The records by handle.
    pub closed spec fn slots(self) -> Map<slotmap::DefaultKey, VLine> {
        line_slots(self.arena)
    }

    pub closed spec fn count(self) -> nat {
        line_slot_count(self.arena)
    }

    pub open spec fn len(self) -> nat {
        self.order().len()
    }

    /// The record at chain position `i`.
    pub open spec fn rec(self, i: int) -> VLine {
        self.slots()[self.order()[i]]
    }

    /// The chain position of a contained handle.
    pub open spec fn key_at(self, k: slotmap::DefaultKey) -> int {
        self.order().index_of(k)
    }

    pub closed spec fn first_key(self) -> slotmap::DefaultKey {
        self.first
    }

    /// For each buffer, the chain positions of its run of records.
    pub closed spec fn runs_map(self) -> Map<slotmap::DefaultKey, (int, int)> {
        self.runs@
    }

    /// The arena's bookkeeping bound: entries fit the key type's index space.
    pub closed spec fn arena_inv(self) -> bool {
        crate::ext::line_map_inv(self.arena) && line_slot_count(self.arena) <= 0xffff_ffff
    }

    /// Structural well-formedness: the arena holds exactly the ordered,
    /// pairwise-distinct, non-null handles, linked both ways in order.
    pub open spec fn wf_links(self) -> bool {
        &&& self.arena_inv()
        &&& self.len() >= 1
        &&& forall|i: int, j: int| 0 <= i < j < self.len() ==> self.order()[i] != self.order()[j]
        &&& self.slots().dom() =~= self.order().to_set()
        &&& forall|i: int| 0 <= i < self.len() ==> !key_is_null(#[trigger] self.order()[i])
        &&& self.first_key() == self.order()[0]
        &&& forall|i: int| 0 <= i < self.len() - 1 ==> (#[trigger] self.rec(i)).next == self.order()[i + 1]
        &&& key_is_null(self.rec(self.len() - 1).next)
        &&& forall|i: int| 1 <= i < self.len() ==> (#[trigger] self.rec(i)).prev == self.order()[i - 1]
        &&& key_is_null(self.rec(0).prev)
    }

    /// Spans well-formedness, relative to the buffer texts: every buffer's
    /// records form one contiguous run that tiles its text, which ends with a
    /// terminator; a run begins with a non-continuation record.
    pub open spec fn wf_spans(self, texts: Map<slotmap::DefaultKey, Seq<char>>) -> bool {
        &&& forall|i: int| 0 <= i < self.len() ==> texts.dom().contains((#[trigger] self.rec(i)).buffer_key)
        &&& forall|i: int| 0 <= i < self.len() ==> {
                let t = texts[(#[trigger] self.rec(i)).buffer_key];
                t.len() >= 1 && t[t.len() - 1] == '\n'
            }
        &&& forall|i: int| 0 <= i < self.len() ==> (#[trigger] self.rec(i)).start < self.rec(i).end
        &&& forall|i: int| 0 <= i < self.len() ==> (#[trigger] self.rec(i)).end <= texts[self.rec(i).buffer_key].len()
        &&& forall|i: int| 0 <= i < self.len() ==> {
                let b = (#[trigger] self.rec(i)).buffer_key;
                &&& self.runs_map().dom().contains(b)
                &&& self.runs_map()[b].0 <= i <= self.runs_map()[b].1
            }
        &&& forall|b: slotmap::DefaultKey| self.runs_map().dom().contains(b)
                ==> 0 <= (#[trigger] self.runs_map()[b]).0 <= self.runs_map()[b].1 < self.len()
        &&& forall|b1: slotmap::DefaultKey, b2: slotmap::DefaultKey|
                #![trigger self.runs_map()[b1], self.runs_map()[b2]]
                self.runs_map().dom().contains(b1) && self.runs_map().dom().contains(b2) && b1 != b2
                ==> self.runs_map()[b1].1 < self.runs_map()[b2].0
                    || self.runs_map()[b2].1 < self.runs_map()[b1].0
        &&& self.rec(0).start == 0
        &&& !self.rec(0).continuation
        &&& self.rec(self.len() - 1).end == texts[self.rec(self.len() - 1).buffer_key].len()
        &&& forall|i: int| #![trigger self.rec(i), self.rec(i - 1)] 1 <= i < self.len() ==>
                if self.rec(i).buffer_key == self.rec(i - 1).buffer_key {
                    self.rec(i).start == self.rec(i - 1).end
                } else {
                    &&& self.rec(i).start == 0
                    &&& !self.rec(i).continuation
                    &&& self.rec(i - 1).end == texts[self.rec(i - 1).buffer_key].len()
                }
    }

    /// The characters record `i` displays.
    pub open spec fn rec_text(self, texts: Map<slotmap::DefaultKey, Seq<char>>, i: int) -> Seq<char> {
        texts[self.rec(i).buffer_key].subrange(self.rec(i).start as int, self.rec(i).end as int)
    }

    /// Whether record `i` is followed by a continuation of its logical line.
    pub open spec fn cont_follows(self, i: int) -> bool {
        &&& i + 1 < self.len()
        &&& self.rec(i + 1).buffer_key == self.rec(i).buffer_key
        &&& self.rec(i + 1).continuation
    }

    /// Wrap validity of record `i` at width `w`: a record followed by a
    /// continuation is a full row without a terminator; any other record ends
    /// with its line's terminator and fits in `w + 1` columns.
    pub open spec fn rec_valid(self, texts: Map<slotmap::DefaultKey, Seq<char>>, i: int, w: int) -> bool {
        let t = self.rec_text(texts, i);
        if self.cont_follows(i) {
            t.len() == w && forall|x: int| 0 <= x < t.len() ==> t[x] != '\n'
        } else {
            &&& t.len() >= 1
            &&& t[t.len() - 1] == '\n'
            &&& t.len() <= w + 1
            &&& forall|x: int| 0 <= x < t.len() - 1 ==> t[x] != '\n'
        }
    }

    /// Last chain position of the buffer run containing position `i`.
    pub open spec fn run_end(self, i: int) -> int
        decreases self.len() - i,
    {
        if i < 0 || i + 1 >= self.len() {
            i
        } else if self.rec(i + 1).buffer_key == self.rec(i).buffer_key {
            self.run_end(i + 1)
        } else {
            i
        }
    }

    /// First chain position at or after `i`, within `i`'s buffer run, whose
    /// record ends with a terminator; the logical line through `i` ends there.
    pub open spec fn nl_end(self, texts: Map<slotmap::DefaultKey, Seq<char>>, i: int) -> int
        decreases self.len() - i,
    {
        if i < 0 {
            i
        } else if self.rec_text(texts, i).len() >= 1
            && self.rec_text(texts, i)[self.rec_text(texts, i).len() - 1] == '\n' {
            i
        } else if i + 1 < self.len() && self.rec(i + 1).buffer_key == self.rec(i).buffer_key {
            self.nl_end(texts, i + 1)
        } else {
            i
        }
    }

    pub proof fn lemma_run_end(self, i: int)
        requires
            0 <= i < self.len(),
        ensures
            i <= self.run_end(i) < self.len(),
            forall|x: int| i <= x <= self.run_end(i) ==> (#[trigger] self.rec(x)).buffer_key == self.rec(i).buffer_key,
            self.run_end(i) + 1 < self.len() ==> self.rec(self.run_end(i) + 1).buffer_key != self.rec(i).buffer_key,
        decreases self.len() - i,
    {
        if i + 1 >= self.len() {
        } else if self.rec(i + 1).buffer_key == self.rec(i).buffer_key {
            self.lemma_run_end(i + 1);
            assert forall|x: int| i <= x <= self.run_end(i) implies (#[trigger] self.rec(x)).buffer_key == self.rec(i).buffer_key by {
                if x > i {
                    assert(self.rec(x).buffer_key == self.rec(i + 1).buffer_key);
                }
            }
        } else {
        }
    }

    #[verifier::rlimit(60)]
    pub proof fn lemma_nl_end(self, texts: Map<slotmap::DefaultKey, Seq<char>>, i: int)
        requires
            self.wf_spans(texts),
            0 <= i < self.len(),
        ensures
            i <= self.nl_end(texts, i) <= self.run_end(i),
            ({
                let t = self.rec_text(texts, self.nl_end(texts, i));
                t.len() >= 1 && t[t.len() - 1] == '\n'
            }),
            forall|x: int| i <= x < self.nl_end(texts, i) ==> {
                let t = #[trigger] self.rec_text(texts, x);
                t[t.len() - 1] != '\n'
            },
            forall|x: int| i <= x <= self.nl_end(texts, i) ==> (#[trigger] self.rec(x)).buffer_key == self.rec(i).buffer_key,
        decreases self.len() - i,
    {
        self.lemma_run_end(i);
        let t0 = self.rec_text(texts, i);
        assert(t0.len() >= 1);
        if t0[t0.len() - 1] == '\n' {
            assert(self.nl_end(texts, i) == i);
        } else if i + 1 < self.len() && self.rec(i + 1).buffer_key == self.rec(i).buffer_key {
            self.lemma_nl_end(texts, i + 1);
            assert(self.run_end(i) == self.run_end(i + 1));
            assert forall|x: int| i <= x <= self.nl_end(texts, i) implies (#[trigger] self.rec(x)).buffer_key == self.rec(i).buffer_key by {
                if x > i {
                    assert(self.rec(x).buffer_key == self.rec(i + 1).buffer_key);
                }
            }
        } else {
            // end of run without a terminator: impossible, the run's last
            // record ends at the text's end, which holds a terminator
            assert(i == self.run_end(i));
            if i + 1 < self.len() {
                self.lemma_neighbor(texts, i + 1);
            }
            assert(self.rec(i).end == texts[self.rec(i).buffer_key].len());
            let bt = texts[self.rec(i).buffer_key];
            assert(t0[t0.len() - 1] == bt[bt.len() - 1]);
            assert(false);
        }
    }

    /// A buffer's records form one contiguous stretch of the chain.
    pub proof fn lemma_runs_between(self, texts: Map<slotmap::DefaultKey, Seq<char>>, a: int, b: int, c: int)
        requires
            self.wf_spans(texts),
            0 <= a <= b,
            b <= c < self.len(),
            self.rec(a).buffer_key == self.rec(c).buffer_key,
        ensures
            self.rec(b).buffer_key == self.rec(a).buffer_key,
    {
        let bb = self.rec(a).buffer_key;
        let cb = self.rec(b).buffer_key;
        if cb != bb {
            assert(self.runs_map()[bb].0 <= a && c <= self.runs_map()[bb].1);
            assert(self.runs_map()[cb].0 <= b <= self.runs_map()[cb].1);
            assert(false);
        }
    }

    /// The boundary facts between a record and the one before it.
    pub proof fn lemma_neighbor(self, texts: Map<slotmap::DefaultKey, Seq<char>>, i: int)
        requires
            self.wf_spans(texts),
            1 <= i < self.len(),
        ensures
            self.rec(i).buffer_key == self.rec(i - 1).buffer_key ==> self.rec(i).start == self.rec(i - 1).end,
            self.rec(i).buffer_key != self.rec(i - 1).buffer_key ==> {
                &&& self.rec(i).start == 0
                &&& !self.rec(i).continuation
                &&& self.rec(i - 1).end == texts[self.rec(i - 1).buffer_key].len()
            },
    {
        let a = self.rec(i);
        let b = self.rec(i - 1);
    }


    /// The characters that chain positions `lo..=hi` display, concatenated
    /// in order.
    pub open spec fn chain_text(self, texts: Map<slotmap::DefaultKey, Seq<char>>, lo: int, hi: int) -> Seq<char>
        decreases hi - lo + 1,
    {
        if lo > hi {
            Seq::empty()
        } else {
            self.chain_text(texts, lo, hi - 1) + self.rec_text(texts, hi)
        }
    }

    proof fn lemma_chain_text_covers(self, texts: Map<slotmap::DefaultKey, Seq<char>>, lo: int, hi: int)
        requires
            self.wf_spans(texts),
            0 <= lo <= hi < self.len(),
            forall|x: int| lo <= x <= hi ==> (#[trigger] self.rec(x)).buffer_key == self.rec(lo).buffer_key,
        ensures
            self.chain_text(texts, lo, hi)
                == texts[self.rec(lo).buffer_key].subrange(self.rec(lo).start as int, self.rec(hi).end as int),
        decreases hi - lo,
    {
        let bk = self.rec(lo).buffer_key;
        if lo == hi {
            assert(self.chain_text(texts, lo, hi - 1) =~= Seq::<char>::empty());
            assert(self.chain_text(texts, lo, hi) =~= self.rec_text(texts, lo));
        } else {
            self.lemma_chain_text_covers(texts, lo, hi - 1);
            self.lemma_neighbor(texts, hi);
            assert(self.rec(hi).start == self.rec(hi - 1).end);
            self.lemma_span_order(texts, lo, hi);
            assert(self.chain_text(texts, lo, hi)
                =~= texts[bk].subrange(self.rec(lo).start as int, self.rec(hi).end as int));
        }
    }

    /// Round trip: concatenating, in chain order, the text of every visual
    /// line a buffer owns reconstructs that buffer's text exactly.
    pub proof fn lemma_round_trip(self, texts: Map<slotmap::DefaultKey, Seq<char>>, i: int)
        requires
            self.wf_spans(texts),
            0 <= i < self.len(),
        ensures
            ({
                let bk = self.rec(i).buffer_key;
                let lo = self.runs_map()[bk].0;
                let hi = self.runs_map()[bk].1;
                self.chain_text(texts, lo, hi) == texts[bk]
            }),
    {
        let bk = self.rec(i).buffer_key;
        let lo = self.runs_map()[bk].0;
        let hi = self.runs_map()[bk].1;
        assert(self.runs_map().dom().contains(bk));
        assert(0 <= lo <= hi < self.len());
        assert forall|x: int| lo <= x <= hi implies (#[trigger] self.rec(x)).buffer_key == bk by {
            let c = self.rec(x).buffer_key;
            if c != bk {
                assert(self.runs_map()[c].0 <= x <= self.runs_map()[c].1);
                assert(self.runs_map()[c].1 < lo || hi < self.runs_map()[c].0);
                assert(false);
            }
        }
        assert(self.rec(lo).start == 0) by {
            if lo > 0 {
                self.lemma_neighbor(texts, lo);
                if self.rec(lo - 1).buffer_key == bk {
                    assert(self.runs_map()[bk].0 <= lo - 1);
                    assert(false);
                }
            }
        }
        assert(self.rec(hi).end == texts[bk].len()) by {
            if hi < self.len() - 1 {
                self.lemma_neighbor(texts, hi + 1);
                if self.rec(hi + 1).buffer_key == bk {
                    assert(self.runs_map()[bk].1 >= hi + 1);
                    assert(false);
                }
            }
        }
        self.lemma_chain_text_covers(texts, lo, hi);
        assert(texts[bk].subrange(0, texts[bk].len() as int) =~= texts[bk]);
    }

    /// Wrap invariant: when every record of the stretch from `i` to its
    /// line's end is wrap-valid, that stretch is one logical line (it holds
    /// a single terminator, at its very end); a visual line followed by a
    /// continuation is exactly the wrap width wide, and the whole logical
    /// line is then wider than the wrap width.
    pub proof fn lemma_wrap_invariant(self, texts: Map<slotmap::DefaultKey, Seq<char>>, i: int, w: int)
        requires
            self.wf_spans(texts),
            0 <= i < self.len(),
            forall|x: int| i <= x <= self.nl_end(texts, i) ==> self.rec_valid(texts, x, w),
            self.cont_follows(i),
        ensures
            self.rec_text(texts, i).len() == w,
            self.chain_text(texts, i, self.nl_end(texts, i)).len() > w,
            forall|x: int| i <= x < self.nl_end(texts, i)
                ==> forall|y: int| 0 <= y < (#[trigger] self.rec_text(texts, x)).len()
                    ==> self.rec_text(texts, x)[y] != '\n',
            ({
                let t = self.rec_text(texts, self.nl_end(texts, i));
                &&& t[t.len() - 1] == '\n'
                &&& forall|y: int| 0 <= y < t.len() - 1 ==> t[y] != '\n'
            }),
    {
        self.lemma_nl_end(texts, i);
        self.lemma_run_end(i);
        let j = self.nl_end(texts, i);
        assert(self.rec_valid(texts, i, w));
        assert(j > i) by {
            let tj = self.rec_text(texts, self.nl_end(texts, i));
            assert(tj[tj.len() - 1] == '\n');
            if j == i {
                let rt0 = self.rec_text(texts, i);
                assert(rt0[rt0.len() - 1] != '\n');
                assert(false);
            }
        }
        self.lemma_chain_text_covers(texts, i, j);
        self.lemma_span_order(texts, i, j);
        assert(self.chain_text(texts, i, j).len() == self.rec(j).end - self.rec(i).start);
        assert(self.rec(i).end <= self.rec(j).start);
        assert(self.rec(j).start < self.rec(j).end);
        // a single terminator: the records before the line's end hold none,
        // the final record ends with one and holds no other
        assert forall|x: int| i <= x < j implies forall|y: int| 0 <= y
            < (#[trigger] self.rec_text(texts, x)).len()
            ==> self.rec_text(texts, x)[y] != '\n' by {
            assert(self.rec_valid(texts, x, w));
            let t = self.rec_text(texts, x);
            assert(self.cont_follows(x)) by {
                if !self.cont_follows(x) {
                    assert(t[t.len() - 1] == '\n');
                    assert(t[t.len() - 1] != '\n');
                }
            }
        }
        assert(self.rec_valid(texts, j, w));
        assert(!self.cont_follows(j)) by {
            let t = self.rec_text(texts, j);
            if self.cont_follows(j) {
                assert(t[t.len() - 1] != '\n');
            }
        }
    }

    /// Idempotence: a logical line already in canonical wrapped form (every
    /// fragment valid and no continuation fragment starting with a
    /// terminator) is its own fragmentation, so repairing it again leaves
    /// every record as it is.
    pub proof fn lemma_wrap_idempotent(self, texts: Map<slotmap::DefaultKey, Seq<char>>, i: int, j: int, w: int)
        requires
            self.wf_spans(texts),
            0 <= i <= j < self.len(),
            self.nl_end(texts, i) == j,
            w >= 1,
            forall|x: int| i <= x <= j ==> self.rec_valid(texts, x, w),
            forall|x: int| i < x <= j ==> (#[trigger] self.rec_text(texts, x))[0] != '\n',
            !self.cont_follows(j),
        ensures
            wrap_frags(
                texts[self.rec(i).buffer_key].subrange(self.rec(i).start as int, self.rec(j).end as int),
                w,
                self.rec(i).continuation,
            ) == Seq::new((j - i + 1) as nat, |x: int| Frag {
                len: self.rec(i + x).end - self.rec(i + x).start,
                cont: self.rec(i + x).continuation,
            }),
        decreases j - i,
    {
        let bk = self.rec(i).buffer_key;
        self.lemma_nl_end(texts, i);
        self.lemma_run_end(i);
        let t = texts[bk].subrange(self.rec(i).start as int, self.rec(j).end as int);
        let target = Seq::new((j - i + 1) as nat, |x: int| Frag {
            len: self.rec(i + x).end - self.rec(i + x).start,
            cont: self.rec(i + x).continuation,
        });
        if i == j {
            let rt = self.rec_text(texts, i);
            assert(self.rec_valid(texts, i, w));
            assert(rt =~= t);
            assert(!self.cont_follows(i));
            assert(t.len() >= 1 && t[t.len() - 1] == '\n' && t.len() <= w + 1);
            assert forall|x: int| 0 <= x < t.len() - 1 implies t[x] != '\n' by {
                assert(rt[x] != '\n');
            }
            lemma_wrap_frags_single(t, w, self.rec(i).continuation);
            assert(wrap_frags(t, w, self.rec(i).continuation) =~= target);
        } else {
            let rt = self.rec_text(texts, i);
            assert(self.rec_valid(texts, i, w));
            assert(self.cont_follows(i)) by {
                if !self.cont_follows(i) {
                    assert(rt[rt.len() - 1] == '\n');
                    let x = self.nl_end(texts, i);
                    if i < x {
                        assert(self.rec_text(texts, i)[self.rec_text(texts, i).len() - 1] != '\n');
                    }
                    assert(false);
                }
            }
            assert(rt.len() == w);
            self.lemma_neighbor(texts, i + 1);
            self.lemma_span_order(texts, i, j);
            assert(self.nl_end(texts, i + 1) == j);
            self.lemma_wrap_idempotent(texts, i + 1, j, w);
            let t2 = texts[bk].subrange(self.rec(i + 1).start as int, self.rec(j).end as int);
            assert(t.skip(w) =~= t2);
            lemma_first_nl(t);
            let p = first_nl(t);
            assert(p > w) by {
                assert(forall|x: int| 0 <= x < w ==> t[x] == rt[x]);
                assert(t[w as int] == self.rec_text(texts, i + 1)[0]);
                if p <= w {
                    assert(t[p] == '\n');
                    if p < w {
                        assert(rt[p] != '\n');
                    }
                }
            }
            assert(1 <= w && w < t.len());
            assert(wrap_frags(t, w, self.rec(i).continuation)
                == seq![Frag { len: w, cont: self.rec(i).continuation }] + wrap_frags(t2, w, true));
            assert(self.rec(i + 1).continuation);
            let target2 = Seq::new((j - i) as nat, |x: int| Frag {
                len: self.rec(i + 1 + x).end - self.rec(i + 1 + x).start,
                cont: self.rec(i + 1 + x).continuation,
            });
            assert(wrap_frags(t2, w, self.rec(i + 1).continuation) == target2);
            assert(wrap_frags(t, w, self.rec(i).continuation) =~= target) by {
                assert forall|x: int| 0 <= x < target.len() implies
                    (seq![Frag { len: w, cont: self.rec(i).continuation }] + wrap_frags(t2, w, true))[x]
                        == target[x] by {
                    if x > 0 {
                        assert(wrap_frags(t2, w, true)[x - 1] == target2[x - 1]);
                        assert(target2[x - 1] == target[x]);
                    }
                }
            }
        }
    }

    /// A contained key names one chain position.
    pub proof fn lemma_key_at(self, k: slotmap::DefaultKey)
        requires
            self.wf_links(),
            self.order().contains(k),
        ensures
            0 <= self.key_at(k) < self.len(),
            self.order()[self.key_at(k)] == k,
            forall|i: int| 0 <= i < self.len() && self.order()[i] == k ==> i == self.key_at(k),
    {
        let ki = choose|i: int| 0 <= i < self.order().len() && self.order()[i] == k;
        assert(self.order()[ki] == k);
    }

    /// Spans within one run grow monotonically.
    pub proof fn lemma_span_order(self, texts: Map<slotmap::DefaultKey, Seq<char>>, i: int, j: int)
        requires
            self.wf_spans(texts),
            0 <= i <= j < self.len(),
            forall|x: int| i <= x <= j ==> (#[trigger] self.rec(x)).buffer_key == self.rec(i).buffer_key,
        ensures
            self.rec(i).start <= self.rec(j).start,
            self.rec(i).end <= self.rec(j).end,
            i < j ==> self.rec(i).end <= self.rec(j).start,
        decreases j - i,
    {
        if i < j {
            self.lemma_span_order(texts, i, j - 1);
            assert(self.rec(j).buffer_key == self.rec(j - 1).buffer_key);
            assert(self.rec(j).start == self.rec(j - 1).end);
        }
    }
}

/// How the per-buffer run intervals move when the records at positions
/// `ki..` of buffer `bk`'s run change count by `d`: runs before the repair
/// stay, `bk`'s run grows by `d`, runs after it shift by `d`.
pub open spec fn shift_runs(
    rm: Map<slotmap::DefaultKey, (int, int)>,
    bk: slotmap::DefaultKey,
    ki: int,
    d: int,
) -> Map<slotmap::DefaultKey, (int, int)> {
    Map::new(
        |b: slotmap::DefaultKey| rm.dom().contains(b),
        |b: slotmap::DefaultKey| if b == bk {
            (rm[b].0, rm[b].1 + d)
        } else if rm[b].1 < ki {
            rm[b]
        } else {
            (rm[b].0 + d, rm[b].1 + d)
        },
    )
}

/// What `wrap` does: the records of the logical line from position `ki`
/// through its terminator record `j` are replaced, in place, by the
/// canonical fragmentation of the line's text; everything else keeps its
/// handle and its record, and `key` survives as the head fragment.
pub open spec fn wrap_post(
    pre: VLines,
    post: VLines,
    texts: Map<slotmap::DefaultKey, Seq<char>>,
    key: slotmap::DefaultKey,
    w: int,
    last: slotmap::DefaultKey,
) -> bool {
    let ki = pre.key_at(key);
    let j = pre.nl_end(texts, ki);
    let bk = pre.rec(ki).buffer_key;
    let s0 = pre.rec(ki).start;
    let e = pre.rec(j).end;
    let t = texts[bk].subrange(s0 as int, e as int);
    let fs = wrap_frags(t, w, pre.rec(ki).continuation);
    let nf = fs.len() as int;
    &&& post.len() == pre.len() + nf - 1 - (j - ki)
    &&& forall|x: int| 0 <= x < ki ==> #[trigger] post.order()[x] == pre.order()[x]
    &&& forall|x: int| 0 <= x < ki ==> #[trigger] post.rec(x) == pre.rec(x)
    &&& post.order()[ki] == key
    &&& forall|x: int| 0 <= x < nf ==> {
            let r = #[trigger] post.rec(ki + x);
            &&& r.buffer_key == bk
            &&& r.start == s0 + frag_start(fs, x)
            &&& r.end == s0 + frag_start(fs, x + 1)
            &&& r.continuation == fs[x].cont
        }
    &&& forall|x: int| j < x < pre.len() ==> #[trigger] post.order()[x + nf - 1 - (j - ki)] == pre.order()[x]
    &&& forall|x: int| j < x < pre.len() ==> vline_core(#[trigger] post.rec(x + nf - 1 - (j - ki))) == vline_core(pre.rec(x))
    &&& last == post.order()[ki + nf - 1]
    &&& post.first_key() == pre.first_key()
    &&& post.count() <= pre.count() + nf
    &&& forall|x: int| ki <= x < ki + nf ==> post.rec_valid(texts, x, w)
    &&& (j == ki && nf == 1 ==> post == pre)
}


/// A line whose single record is already one canonical fragment needs no
/// repair: the untouched state satisfies the wrap contract.
#[verifier::spinoff_prover]
#[verifier::rlimit(100)]
proof fn lemma_wrap_noop(
    v: VLines,
    texts: Map<slotmap::DefaultKey, Seq<char>>,
    key: slotmap::DefaultKey,
    w: int,
)
    requires
        v.wf_links(),
        v.wf_spans(texts),
        v.order().contains(key),
        w >= 1,
        !v.cont_follows(v.nl_end(texts, v.key_at(key))),
        v.nl_end(texts, v.key_at(key)) == v.key_at(key),
        wrap_frags(
            texts[v.rec(v.key_at(key)).buffer_key].subrange(
                v.rec(v.key_at(key)).start as int,
                v.rec(v.key_at(key)).end as int,
            ),
            w,
            v.rec(v.key_at(key)).continuation,
        ).len() == 1,
    ensures
        wrap_post(v, v, texts, key, w, key),
{
    v.lemma_key_at(key);
    let ki = v.key_at(key);
    v.lemma_nl_end(texts, ki);
    let bk = v.rec(ki).buffer_key;
    let s0 = v.rec(ki).start;
    let e = v.rec(ki).end;
    let t = texts[bk].subrange(s0 as int, e as int);
    let fs = wrap_frags(t, w, v.rec(ki).continuation);
    let rt = v.rec_text(texts, ki);
    assert(rt =~= t);
    assert(t.len() >= 1);
    assert(t[t.len() - 1] == '\n');
    lemma_wrap_frags(t, w, v.rec(ki).continuation);
    assert(frag_start(fs, 1) == t.len());
    assert(frag_shape_ok(t, w, fs, 0));
    assert(!v.cont_follows(ki));
    assert(v.rec_valid(texts, ki, w));
    assert forall|x: int| 0 <= x < 1 implies {
        let r = #[trigger] v.rec(ki + x);
        &&& r.buffer_key == bk
        &&& r.start == s0 + frag_start(fs, x)
        &&& r.end == s0 + frag_start(fs, x + 1)
        &&& r.continuation == fs[x].cont
    } by {
        assert(v.rec(ki + 0) == v.rec(ki));
    }
    assert(wrap_post(v, v, texts, key, w, key));
}

/// The raw state `wrap`'s surgery leaves behind: the chain order with the
/// line's records replaced, the exact record values, and the frame on
/// everything else. `lemma_wrap_finish` turns this into well-formedness.
pub open spec fn wrap_surgery(
    pre: VLines,
    post: VLines,
    texts: Map<slotmap::DefaultKey, Seq<char>>,
    key: slotmap::DefaultKey,
    w: int,
    newkeys: Seq<slotmap::DefaultKey>,
    last: slotmap::DefaultKey,
) -> bool {
    let ki = pre.key_at(key);
    let j = pre.nl_end(texts, ki);
    let bk = pre.rec(ki).buffer_key;
    let s0 = pre.rec(ki).start;
    let e = pre.rec(j).end;
    let t = texts[bk].subrange(s0 as int, e as int);
    let fs = wrap_frags(t, w, pre.rec(ki).continuation);
    let nf = fs.len() as int;
    &&& newkeys.len() == nf - 1
    &&& post.order() == pre.order().take(ki) + seq![key] + newkeys + pre.order().skip(j + 1)
    &&& post.slots().dom() =~= post.order().to_set()
    &&& forall|a: int, b: int| 0 <= a < b < post.order().len() ==> post.order()[a] != post.order()[b]
    &&& forall|x: int| 0 <= x < post.order().len() ==> !key_is_null(#[trigger] post.order()[x])
    &&& forall|x: int| 0 <= x < nf ==> post.slots()[#[trigger] post.order()[ki + x]] == (VLine {
            prev: if x == 0 { pre.rec(ki).prev } else { post.order()[ki + x - 1] },
            next: if x == nf - 1 { pre.rec(j).next } else { post.order()[ki + x + 1] },
            buffer_key: bk,
            start: (s0 + frag_start(fs, x)) as usize,
            end: (s0 + frag_start(fs, x + 1)) as usize,
            continuation: fs[x].cont,
        })
    &&& forall|x: int| 0 <= x < ki ==> post.slots()[#[trigger] pre.order()[x]] == pre.slots()[pre.order()[x]]
    &&& forall|x: int| j + 1 < x < pre.len() ==> post.slots()[#[trigger] pre.order()[x]] == pre.slots()[pre.order()[x]]
    &&& (j + 1 < pre.len() ==> post.slots()[pre.order()[j + 1]] == (VLine { prev: last, ..pre.rec(j + 1) }))
    &&& last == post.order()[ki + nf - 1]
    &&& post.first_key() == pre.first_key()
    &&& post.count() <= pre.count() + nf
    &&& post.runs_map() == shift_runs(pre.runs_map(), bk, ki, nf - 1 - (j - ki))
    &&& post.arena_inv()
}

/// Splicing a stretch of records back into the chain keeps the links well
/// formed, given the handles stay distinct and the boundary links are fixed.
#[verifier::spinoff_prover]
#[verifier::rlimit(100)]
proof fn lemma_relink(
    pre: VLines,
    post: VLines,
    key: slotmap::DefaultKey,
    newkeys: Seq<slotmap::DefaultKey>,
    last: slotmap::DefaultKey,
    ki: int,
    j: int,
)
    requires
        pre.wf_links(),
        0 <= ki <= j < pre.len(),
        pre.order()[ki] == key,
        post.order() == pre.order().take(ki) + seq![key] + newkeys + pre.order().skip(j + 1),
        post.slots().dom() =~= post.order().to_set(),
        forall|a: int, b: int| 0 <= a < b < post.order().len() ==> post.order()[a] != post.order()[b],
        forall|x: int| 0 <= x < post.order().len() ==> !key_is_null(#[trigger] post.order()[x]),
        last == post.order()[ki + newkeys.len()],
        forall|x: int| 0 <= x <= newkeys.len() ==> {
            let r = post.slots()[#[trigger] post.order()[ki + x]];
            &&& r.prev == if x == 0 { pre.rec(ki).prev } else { post.order()[ki + x - 1] }
            &&& r.next == if x == newkeys.len() { pre.rec(j).next } else { post.order()[ki + x + 1] }
        },
        forall|x: int| 0 <= x < ki ==> post.slots()[#[trigger] pre.order()[x]] == pre.slots()[pre.order()[x]],
        forall|x: int| j + 1 < x < pre.len() ==> post.slots()[#[trigger] pre.order()[x]] == pre.slots()[pre.order()[x]],
        j + 1 < pre.len() ==> post.slots()[pre.order()[j + 1]] == (VLine { prev: last, ..pre.rec(j + 1) }),
        post.first_key() == pre.first_key(),
        post.arena_inv(),
    ensures
        post.wf_links(),
{
    let m = newkeys.len() as int;
    let d = m - (j - ki);
    assert(post.len() == pre.len() + d);
    assert forall|x: int| 0 <= x < ki implies #[trigger] post.order()[x] == pre.order()[x] by {}
    assert(post.order()[ki] == key);
    assert forall|x: int| j < x < pre.len() implies #[trigger] post.order()[x + d] == pre.order()[x] by {}
    assert forall|x: int| 0 <= x < ki implies #[trigger] post.rec(x) == pre.rec(x) by {
        assert(post.order()[x] == pre.order()[x]);
    }
    assert forall|x: int| j + 1 < x < pre.len() implies #[trigger] post.rec(x + d) == pre.rec(x) by {
        assert(post.order()[x + d] == pre.order()[x]);
    }
    if j + 1 < pre.len() {
        assert(post.rec(j + 1 + d) == (VLine { prev: last, ..pre.rec(j + 1) }));
    }
    assert forall|i: int| 0 <= i < post.len() - 1 implies (#[trigger] post.rec(i)).next == post.order()[i + 1] by {
        if i < ki - 1 {
            assert(post.rec(i) == pre.rec(i));
            assert(pre.rec(i).next == pre.order()[i + 1]);
        } else if i == ki - 1 {
            assert(post.rec(i) == pre.rec(i));
            assert(pre.rec(i).next == pre.order()[ki]);
        } else if i < ki + m {
            assert(post.slots()[post.order()[ki + (i - ki)]].next == post.order()[i + 1]);
        } else if i == ki + m {
            assert(post.slots()[post.order()[ki + m]].next == pre.rec(j).next);
            assert(j + 1 < pre.len());
            assert(pre.rec(j).next == pre.order()[j + 1]);
            assert(post.order()[j + 1 + d] == pre.order()[j + 1]);
        } else {
            let x = i - d;
            assert(j < x < pre.len());
            if x == j + 1 {
                assert(post.rec(i).next == pre.rec(j + 1).next);
            } else {
                assert(post.rec(i) == pre.rec(x));
            }
            assert(x < pre.len() - 1);
            assert(pre.rec(x).next == pre.order()[x + 1]);
            assert(post.order()[x + 1 + d] == pre.order()[x + 1]);
        }
    }
    assert(key_is_null(post.rec(post.len() - 1).next)) by {
        if j + 1 < pre.len() {
            let x = pre.len() - 1;
            if x == j + 1 {
                assert(post.rec(x + d).next == pre.rec(j + 1).next);
            } else {
                assert(post.rec(x + d) == pre.rec(x));
            }
            assert(key_is_null(pre.rec(x).next));
        } else {
            assert(post.len() - 1 == ki + m);
            assert(post.rec(ki + m).next == pre.rec(j).next);
            assert(key_is_null(pre.rec(pre.len() - 1).next));
        }
    }
    assert forall|i: int| 1 <= i < post.len() implies (#[trigger] post.rec(i)).prev == post.order()[i - 1] by {
        if i < ki {
            assert(post.rec(i) == pre.rec(i));
            assert(pre.rec(i).prev == pre.order()[i - 1]);
        } else if i == ki {
            assert(post.slots()[post.order()[ki + 0]].prev == pre.rec(ki).prev);
            assert(pre.rec(ki).prev == pre.order()[ki - 1]);
        } else if i <= ki + m {
            assert(post.slots()[post.order()[ki + (i - ki)]].prev == post.order()[i - 1]);
        } else if i == ki + m + 1 {
            assert(post.rec(j + 1 + d).prev == last);
        } else {
            let x = i - d;
            assert(j + 1 < x < pre.len());
            assert(post.rec(i) == pre.rec(x));
            assert(pre.rec(x).prev == pre.order()[x - 1]);
            assert(post.order()[x - 1 + d] == pre.order()[x - 1]);
        }
    }
    assert(key_is_null(post.rec(0).prev)) by {
        if ki == 0 {
            assert(post.slots()[post.order()[ki + 0]].prev == pre.rec(0).prev);
        } else {
            assert(post.rec(0) == pre.rec(0));
        }
    }
    assert(post.first_key() == post.order()[0]) by {
        if ki == 0 {
            assert(post.order()[0] == key);
        } else {
            assert(post.order()[0] == pre.order()[0]);
        }
    }
}

proof fn lemma_cuts_mono(cs: Seq<(int, int, bool)>, i: int, j: int)
    requires
        forall|x: int| 0 <= x < cs.len() ==> (#[trigger] cs[x]).0 < cs[x].1,
        forall|x: int| 0 <= x < cs.len() - 1 ==> (#[trigger] cs[x]).1 == cs[x + 1].0,
        0 <= i <= j < cs.len(),
    ensures
        cs[i].1 <= cs[j].1,
        cs[i].0 <= cs[j].0,
    decreases j - i,
{
    if i < j {
        lemma_cuts_mono(cs, i, j - 1);
        assert(cs[j - 1].1 == cs[j].0);
    }
}

/// Replacing one logical line's records, within one buffer run, by records
/// that tile the same char range keeps the spans well formed.
#[verifier::spinoff_prover]
#[verifier::rlimit(100)]
proof fn lemma_respan(
    pre: VLines,
    post: VLines,
    texts: Map<slotmap::DefaultKey, Seq<char>>,
    ki: int,
    j: int,
    m: int,
    cs: Seq<(int, int, bool)>,
)
    requires
        pre.wf_spans(texts),
        0 <= ki <= j < pre.len(),
        m >= 0,
        cs.len() == m + 1,
        post.len() == pre.len() + m - (j - ki),
        forall|x: int| 0 <= x < ki ==> #[trigger] post.rec(x) == pre.rec(x),
        forall|x: int| ki <= x <= ki + m ==> vline_core(#[trigger] post.rec(x))
            == (pre.rec(ki).buffer_key, cs[x - ki].0, cs[x - ki].1, cs[x - ki].2),
        forall|x: int| ki + m < x < post.len() ==> vline_core(#[trigger] post.rec(x))
            == vline_core(pre.rec(x - m + (j - ki))),
        forall|x: int| ki <= x <= j ==> (#[trigger] pre.rec(x)).buffer_key == pre.rec(ki).buffer_key,
        cs[0].0 == pre.rec(ki).start,
        cs[m as int].1 == pre.rec(j).end,
        forall|x: int| 0 <= x < cs.len() ==> (#[trigger] cs[x]).0 < cs[x].1,
        forall|x: int| 0 <= x < cs.len() - 1 ==> (#[trigger] cs[x]).1 == cs[x + 1].0,
        cs[0].2 == pre.rec(ki).continuation,
        post.runs_map() == shift_runs(pre.runs_map(), pre.rec(ki).buffer_key, ki, m - (j - ki)),
    ensures
        post.wf_spans(texts),
{
    let d = m - (j - ki);
    let bk = pre.rec(ki).buffer_key;
    let s0 = pre.rec(ki).start;
    let e = pre.rec(j).end;
    assert(pre.rec(j).end <= texts[bk].len());
    assert(texts.dom().contains(bk));
    assert forall|i: int| 0 <= i < post.len() implies texts.dom().contains(
        (#[trigger] post.rec(i)).buffer_key,
    ) && {
        let tb = texts[post.rec(i).buffer_key];
        tb.len() >= 1 && tb[tb.len() - 1] == '\n'
    } by {
        if i < ki {
            assert(post.rec(i) == pre.rec(i));
        } else if i <= ki + m {
            assert(vline_core(post.rec(i)).0 == bk);
        } else {
            assert(vline_core(post.rec(i)) == vline_core(pre.rec(i - d)));
        }
    }
    assert forall|i: int| 0 <= i < post.len() implies (#[trigger] post.rec(i)).start < post.rec(i).end
        && post.rec(i).end <= texts[post.rec(i).buffer_key].len() by {
        if i < ki {
            assert(post.rec(i) == pre.rec(i));
        } else if i <= ki + m {
            assert(vline_core(post.rec(i)) == (bk, cs[i - ki].0, cs[i - ki].1, cs[i - ki].2));
            lemma_cuts_mono(cs, i - ki, m);
            assert(cs[i - ki].1 <= e);
        } else {
            assert(vline_core(post.rec(i)) == vline_core(pre.rec(i - d)));
        }
    }
    // every record sits in its buffer's (shifted) run interval
    assert(pre.runs_map()[bk].0 <= ki && j <= pre.runs_map()[bk].1) by {
        assert(pre.rec(ki).buffer_key == bk);
        assert(pre.rec(j).buffer_key == bk);
    }
    assert forall|i: int| 0 <= i < post.len() implies {
        let b = (#[trigger] post.rec(i)).buffer_key;
        &&& post.runs_map().dom().contains(b)
        &&& post.runs_map()[b].0 <= i <= post.runs_map()[b].1
    } by {
        if i < ki {
            assert(post.rec(i) == pre.rec(i));
            let b = pre.rec(i).buffer_key;
            assert(pre.runs_map()[b].0 <= i <= pre.runs_map()[b].1);
            if b != bk && pre.runs_map()[b].1 >= ki {
                // b's run would overlap bk's run, which holds position ki
                assert(pre.runs_map()[b].1 < pre.runs_map()[bk].0
                    || pre.runs_map()[bk].1 < pre.runs_map()[b].0);
                assert(false);
            }
        } else if i <= ki + m {
            assert(vline_core(post.rec(i)).0 == bk);
            assert(pre.runs_map()[bk].1 + d >= ki + m);
        } else {
            let y = i - d;
            assert(vline_core(post.rec(i)) == vline_core(pre.rec(y)));
            let b = pre.rec(y).buffer_key;
            assert(pre.runs_map()[b].0 <= y <= pre.runs_map()[b].1);
            if b != bk && pre.runs_map()[b].1 < ki {
                assert(false);
            }
            if b == bk {
                assert(pre.runs_map()[bk].0 <= y + d);
            }
        }
    }
    assert forall|b: slotmap::DefaultKey| post.runs_map().dom().contains(b)
        implies 0 <= (#[trigger] post.runs_map()[b]).0 <= post.runs_map()[b].1 < post.len() by {
        assert(post.runs_map() == shift_runs(pre.runs_map(), bk, ki, d));
        assert(shift_runs(pre.runs_map(), bk, ki, d).dom().contains(b));
        assert(pre.runs_map().dom().contains(b));
        assert(pre.runs_map().dom().contains(bk));
        let lob = pre.runs_map()[bk].0;
        let hib = pre.runs_map()[bk].1;
        assert(lob <= ki && j <= hib);
        assert(post.runs_map()[b] == (if b == bk {
            (pre.runs_map()[b].0, pre.runs_map()[b].1 + d)
        } else if pre.runs_map()[b].1 < ki {
            pre.runs_map()[b]
        } else {
            (pre.runs_map()[b].0 + d, pre.runs_map()[b].1 + d)
        }));
        assert(0 <= pre.runs_map()[b].0 <= pre.runs_map()[b].1 < pre.len());
        if b != bk {
            assert(pre.runs_map()[b].1 < lob || hib < pre.runs_map()[b].0);
        }
        assert(post.len() == pre.len() + d);
        assert(hib + d >= ki + m);
    }
    assert forall|b1: slotmap::DefaultKey, b2: slotmap::DefaultKey|
        #![trigger post.runs_map()[b1], post.runs_map()[b2]]
        post.runs_map().dom().contains(b1) && post.runs_map().dom().contains(b2) && b1 != b2
        implies post.runs_map()[b1].1 < post.runs_map()[b2].0
            || post.runs_map()[b2].1 < post.runs_map()[b1].0 by {
        assert(post.runs_map() == shift_runs(pre.runs_map(), bk, ki, d));
        assert(shift_runs(pre.runs_map(), bk, ki, d).dom().contains(b1));
        assert(shift_runs(pre.runs_map(), bk, ki, d).dom().contains(b2));
        assert(pre.runs_map().dom().contains(b1));
        assert(pre.runs_map().dom().contains(b2));
        assert(pre.runs_map().dom().contains(bk));
        assert(post.runs_map()[b1] == (if b1 == bk {
            (pre.runs_map()[b1].0, pre.runs_map()[b1].1 + d)
        } else if pre.runs_map()[b1].1 < ki {
            pre.runs_map()[b1]
        } else {
            (pre.runs_map()[b1].0 + d, pre.runs_map()[b1].1 + d)
        }));
        assert(post.runs_map()[b2] == (if b2 == bk {
            (pre.runs_map()[b2].0, pre.runs_map()[b2].1 + d)
        } else if pre.runs_map()[b2].1 < ki {
            pre.runs_map()[b2]
        } else {
            (pre.runs_map()[b2].0 + d, pre.runs_map()[b2].1 + d)
        }));
        assert(pre.runs_map()[b1].1 < pre.runs_map()[b2].0
            || pre.runs_map()[b2].1 < pre.runs_map()[b1].0);
        let lob = pre.runs_map()[bk].0;
        let hib = pre.runs_map()[bk].1;
        assert(lob <= ki && j <= hib);
        assert(hib + d >= ki + m);
        if b1 != bk {
            assert(pre.runs_map()[b1].1 < lob || hib < pre.runs_map()[b1].0);
        }
        if b2 != bk {
            assert(pre.runs_map()[b2].1 < lob || hib < pre.runs_map()[b2].0);
        }
        let lo1 = pre.runs_map()[b1].0;
        let hi1 = pre.runs_map()[b1].1;
        let lo2 = pre.runs_map()[b2].0;
        let hi2 = pre.runs_map()[b2].1;
        assert(0 <= lo1 <= hi1 && 0 <= lo2 <= hi2);
        if b1 == bk {
            if hi2 < ki {
                assert(hi2 < lo1);
                assert(post.runs_map()[b2].1 < post.runs_map()[b1].0);
            } else {
                assert(hib < lo2);
                assert(post.runs_map()[b1].1 < post.runs_map()[b2].0);
            }
        } else if b2 == bk {
            if hi1 < ki {
                assert(hi1 < lo2);
                assert(post.runs_map()[b1].1 < post.runs_map()[b2].0);
            } else {
                assert(hib < lo1);
                assert(post.runs_map()[b2].1 < post.runs_map()[b1].0);
            }
        } else if hi1 < ki && hi2 < ki {
            assert(post.runs_map()[b1].1 < post.runs_map()[b2].0
                || post.runs_map()[b2].1 < post.runs_map()[b1].0);
        } else if hi1 < ki {
            assert(hib < lo2);
            assert(lo2 + d >= ki + m + 1);
            assert(post.runs_map()[b1].1 < post.runs_map()[b2].0);
        } else if hi2 < ki {
            assert(hib < lo1);
            assert(lo1 + d >= ki + m + 1);
            assert(post.runs_map()[b2].1 < post.runs_map()[b1].0);
        } else {
            assert(post.runs_map()[b1].1 < post.runs_map()[b2].0
                || post.runs_map()[b2].1 < post.runs_map()[b1].0);
        }
    }
    // endpoints
    assert(post.rec(0).start == 0 && !post.rec(0).continuation) by {
        if ki == 0 {
            assert(vline_core(post.rec(0)) == (bk, cs[0].0, cs[0].1, cs[0].2));
            assert(pre.rec(0).start == 0 && !pre.rec(0).continuation);
        } else {
            assert(post.rec(0) == pre.rec(0));
        }
    }
    assert(post.rec(post.len() - 1).end == texts[post.rec(post.len() - 1).buffer_key].len()) by {
        if j == pre.len() - 1 {
            assert(post.len() - 1 == ki + m);
            assert(vline_core(post.rec(ki + m)) == (bk, cs[m].0, cs[m].1, cs[m].2));
            assert(cs[m].1 == pre.rec(j).end);
            assert(pre.rec(pre.len() - 1).end == texts[pre.rec(pre.len() - 1).buffer_key].len());
        } else {
            let y = pre.len() - 1;
            assert(vline_core(post.rec(post.len() - 1)) == vline_core(pre.rec(y)));
            assert(pre.rec(y).end == texts[pre.rec(y).buffer_key].len());
        }
    }
    // the boundary between each record and its predecessor
    assert forall|i: int| #![trigger post.rec(i), post.rec(i - 1)] 1 <= i < post.len() implies
        (if post.rec(i).buffer_key == post.rec(i - 1).buffer_key {
            post.rec(i).start == post.rec(i - 1).end
        } else {
            &&& post.rec(i).start == 0
            &&& !post.rec(i).continuation
            &&& post.rec(i - 1).end == texts[post.rec(i - 1).buffer_key].len()
        }) by {
        if i < ki {
            assert(post.rec(i) == pre.rec(i));
            assert(post.rec(i - 1) == pre.rec(i - 1));
            pre.lemma_neighbor(texts, i);
        } else if i == ki {
            assert(post.rec(i - 1) == pre.rec(i - 1));
            assert(vline_core(post.rec(ki)) == (bk, cs[0].0, cs[0].1, cs[0].2));
            assert(cs[0].0 == pre.rec(ki).start && cs[0].2 == pre.rec(ki).continuation);
            pre.lemma_neighbor(texts, ki);
        } else if i <= ki + m {
            assert(vline_core(post.rec(i)) == (bk, cs[i - ki].0, cs[i - ki].1, cs[i - ki].2));
            assert(vline_core(post.rec(i - 1)) == (bk, cs[i - ki - 1].0, cs[i - ki - 1].1, cs[i - ki - 1].2));
            assert(cs[i - ki - 1].1 == cs[i - ki].0);
        } else if i == ki + m + 1 {
            let y = j + 1;
            assert(y < pre.len());
            assert(vline_core(post.rec(i)) == vline_core(pre.rec(y)));
            assert(vline_core(post.rec(i - 1)) == (bk, cs[m].0, cs[m].1, cs[m].2));
            assert(cs[m].1 == pre.rec(j).end);
            assert(pre.rec(j).buffer_key == bk);
            pre.lemma_neighbor(texts, y);
        } else {
            let y = i - d;
            assert(j + 1 < y < pre.len());
            assert(vline_core(post.rec(i)) == vline_core(pre.rec(y)));
            assert(vline_core(post.rec(i - 1)) == vline_core(pre.rec(y - 1)));
            pre.lemma_neighbor(texts, y);
        }
    }
}

#[verifier::spinoff_prover]
#[verifier::rlimit(100)]
#[verifier::spinoff_prover]
#[verifier::rlimit(100)]
proof fn lemma_wrap_valid(
    pre: VLines,
    post: VLines,
    texts: Map<slotmap::DefaultKey, Seq<char>>,
    key: slotmap::DefaultKey,
    w: int,
    newkeys: Seq<slotmap::DefaultKey>,
    last: slotmap::DefaultKey,
)
    requires
        pre.wf_links(),
        pre.wf_spans(texts),
        pre.order().contains(key),
        w >= 1,
        !pre.cont_follows(pre.nl_end(texts, pre.key_at(key))),
        wrap_surgery(pre, post, texts, key, w, newkeys, last),
        !(pre.nl_end(texts, pre.key_at(key)) == pre.key_at(key)
            && wrap_frags(
                texts[pre.rec(pre.key_at(key)).buffer_key].subrange(
                    pre.rec(pre.key_at(key)).start as int,
                    pre.rec(pre.nl_end(texts, pre.key_at(key))).end as int,
                ),
                w,
                pre.rec(pre.key_at(key)).continuation,
            ).len() == 1),
    ensures
        ({
            let ki = pre.key_at(key);
            let j = pre.nl_end(texts, ki);
            let bk = pre.rec(ki).buffer_key;
            let t = texts[bk].subrange(pre.rec(ki).start as int, pre.rec(j).end as int);
            let fs = wrap_frags(t, w, pre.rec(ki).continuation);
            forall|x: int| ki <= x < ki + fs.len() ==> post.rec_valid(texts, x, w)
        }),
{
    pre.lemma_key_at(key);
    let ki = pre.key_at(key);
    pre.lemma_nl_end(texts, ki);
    pre.lemma_run_end(ki);
    let j = pre.nl_end(texts, ki);
    let bk = pre.rec(ki).buffer_key;
    let s0 = pre.rec(ki).start;
    let e = pre.rec(j).end;
    pre.lemma_span_order(texts, ki, j);
    let t = texts[bk].subrange(s0 as int, e as int);
    assert(t.len() >= 1);
    assert(t[t.len() - 1] == '\n') by {
        assert(pre.rec_text(texts, j)[pre.rec(j).end - pre.rec(j).start - 1] == '\n');
    }
    lemma_wrap_frags(t, w, pre.rec(ki).continuation);
    let fs = wrap_frags(t, w, pre.rec(ki).continuation);
    let nf = fs.len() as int;
    let m = nf - 1;
    lemma_frag_start_mono(fs, 0, nf);
    assert(frag_start(fs, nf) == t.len());
    let d = nf - 1 - (j - ki);
    let cs = Seq::new(nf as nat, |x: int| (s0 + frag_start(fs, x), s0 + frag_start(fs, x + 1), fs[x].cont));
    assert forall|x: int| ki <= x <= ki + m implies vline_core(#[trigger] post.rec(x))
        == (bk, cs[x - ki].0, cs[x - ki].1, cs[x - ki].2) by {
        let i = x - ki;
        lemma_frag_start_mono(fs, 0, i);
        lemma_frag_start_mono(fs, i, nf);
        lemma_frag_start_mono(fs, i + 1, nf);
        assert(post.slots()[post.order()[ki + i]].buffer_key == bk);
    }
    if j + 1 < pre.len() {
        assert(post.order()[j + 1 + d] == pre.order()[j + 1]);
        assert(post.rec(j + 1 + d) == (VLine { prev: last, ..pre.rec(j + 1) }));
    }
    // the repaired records display exactly the fragments of the line's text
    assert forall|x: int| ki <= x < ki + nf implies #[trigger] post.rec_text(texts, x)
        =~= t.subrange(frag_start(fs, x - ki), frag_start(fs, x - ki + 1)) by {
        let i = x - ki;
        lemma_frag_start_mono(fs, 0, i);
        lemma_frag_start_mono(fs, i, nf);
        lemma_frag_start_mono(fs, i + 1, nf);
        assert(vline_core(post.rec(x)) == (bk, cs[i].0, cs[i].1, cs[i].2));
    }
    assert forall|x: int| ki <= x < ki + nf implies post.rec_valid(texts, x, w) by {
        let i = x - ki;
        lemma_frag_start_mono(fs, 0, i);
        lemma_frag_start_mono(fs, i, i + 1);
        lemma_frag_start_mono(fs, i + 1, nf);
        assert(frag_shape_ok(t, w, fs, i));
        let ts = post.rec_text(texts, x);
        assert(ts =~= t.subrange(frag_start(fs, i), frag_start(fs, i + 1)));
        let s = frag_start(fs, i);
        let l = fs[i].len;
        assert(ts.len() == l);
        assert forall|y: int| 0 <= y < ts.len() implies ts[y] == t[s + y] by {
            assert(ts[y] == t.subrange(frag_start(fs, i), frag_start(fs, i + 1))[y]);
        }
        if i + 1 < nf {
            assert(post.cont_follows(x) <==> fs[i + 1].cont) by {
                assert(vline_core(post.rec(x + 1)) == (bk, cs[i + 1].0, cs[i + 1].1, cs[i + 1].2));
            }
        } else {
            assert(!post.cont_follows(x)) by {
                if x + 1 < post.len() {
                    assert(vline_core(post.rec((j + 1) + d)) == vline_core(pre.rec(j + 1)));
                    assert(!pre.cont_follows(j));
                    assert(pre.rec(j).buffer_key == bk);
                    if pre.rec(j + 1).buffer_key == bk && pre.rec(j + 1).continuation {
                        assert(false);
                    }
                }
            }
        }
    }
}

#[verifier::spinoff_prover]
#[verifier::rlimit(100)]
pub proof fn lemma_wrap_finish(
    pre: VLines,
    post: VLines,
    texts: Map<slotmap::DefaultKey, Seq<char>>,
    key: slotmap::DefaultKey,
    w: int,
    newkeys: Seq<slotmap::DefaultKey>,
    last: slotmap::DefaultKey,
)
    requires
        pre.wf_links(),
        pre.wf_spans(texts),
        pre.order().contains(key),
        w >= 1,
        !pre.cont_follows(pre.nl_end(texts, pre.key_at(key))),
        wrap_surgery(pre, post, texts, key, w, newkeys, last),
        !(pre.nl_end(texts, pre.key_at(key)) == pre.key_at(key)
            && wrap_frags(
                texts[pre.rec(pre.key_at(key)).buffer_key].subrange(
                    pre.rec(pre.key_at(key)).start as int,
                    pre.rec(pre.nl_end(texts, pre.key_at(key))).end as int,
                ),
                w,
                pre.rec(pre.key_at(key)).continuation,
            ).len() == 1),
    ensures
        post.wf_links(),
        post.wf_spans(texts),
        wrap_post(pre, post, texts, key, w, last),
{
    pre.lemma_key_at(key);
    let ki = pre.key_at(key);
    pre.lemma_nl_end(texts, ki);
    pre.lemma_run_end(ki);
    let j = pre.nl_end(texts, ki);
    let bk = pre.rec(ki).buffer_key;
    let s0 = pre.rec(ki).start;
    let e = pre.rec(j).end;
    pre.lemma_span_order(texts, ki, j);
    let t = texts[bk].subrange(s0 as int, e as int);
    assert(t.len() >= 1);
    assert(t[t.len() - 1] == '\n') by {
        assert(pre.rec_text(texts, j)[pre.rec(j).end - pre.rec(j).start - 1] == '\n');
    }
    lemma_wrap_frags(t, w, pre.rec(ki).continuation);
    let fs = wrap_frags(t, w, pre.rec(ki).continuation);
    let nf = fs.len() as int;
    let m = nf - 1;
    lemma_frag_start_mono(fs, 0, nf);
    assert(frag_start(fs, nf) == t.len());
    let d = nf - 1 - (j - ki);
    assert(post.len() == pre.len() + d);
    assert forall|x: int| 0 <= x < ki implies #[trigger] post.order()[x] == pre.order()[x] by {}
    assert(post.order()[ki] == key);
    assert forall|x: int| j < x < pre.len() implies #[trigger] post.order()[x + d] == pre.order()[x] by {}
    assert forall|x: int| 0 <= x < ki implies #[trigger] post.rec(x) == pre.rec(x) by {
        assert(post.order()[x] == pre.order()[x]);
    }
    let cs = Seq::new(nf as nat, |x: int| (s0 + frag_start(fs, x), s0 + frag_start(fs, x + 1), fs[x].cont));
    assert forall|x: int| ki <= x <= ki + m implies vline_core(#[trigger] post.rec(x))
        == (bk, cs[x - ki].0, cs[x - ki].1, cs[x - ki].2) by {
        let i = x - ki;
        lemma_frag_start_mono(fs, 0, i);
        lemma_frag_start_mono(fs, i, nf);
        lemma_frag_start_mono(fs, i + 1, nf);
        assert(post.slots()[post.order()[ki + i]].buffer_key == bk);
    }
    assert forall|x: int| j + 1 < x < pre.len() implies #[trigger] post.rec(x + d) == pre.rec(x) by {
        assert(post.order()[x + d] == pre.order()[x]);
    }
    if j + 1 < pre.len() {
        assert(post.rec(j + 1 + d) == (VLine { prev: last, ..pre.rec(j + 1) }));
    }
    assert forall|x: int| ki + m < x < post.len() implies vline_core(#[trigger] post.rec(x))
        == vline_core(pre.rec(x - m + (j - ki))) by {
        let y = x - d;
        assert(j < y < pre.len());
        if y == j + 1 {
            assert(post.rec(j + 1 + d) == (VLine { prev: last, ..pre.rec(j + 1) }));
            assert(post.rec(x) == post.rec(j + 1 + d));
        } else {
            assert(post.rec(y + d) == pre.rec(y));
            assert(post.rec(x) == post.rec(y + d));
        }
    }
    lemma_relink(pre, post, key, newkeys, last, ki, j);
    assert forall|x: int| 0 <= x < cs.len() implies (#[trigger] cs[x]).0 < cs[x].1 by {
        assert(fs[x].len >= 1);
    }
    assert(cs[0].0 == s0);
    assert(cs[m].1 == s0 + t.len());
    assert(cs[0].2 == pre.rec(ki).continuation);
    lemma_respan(pre, post, texts, ki, j, m, cs);
    lemma_wrap_valid(pre, post, texts, key, w, newkeys, last);
    assert(wrap_post(pre, post, texts, key, w, last));
}

/// Looks a record up by handle; defined for handles the chain holds.
pub fn line_ref(v: &VLines, k: slotmap::DefaultKey) -> (r: &VLine)
    requires
        v.slots().dom().contains(k),
    ensures
        *r == v.slots()[k],
{
    match line_map_get(&v.arena, k) {
        Some(line) => line,
        None => vstd::pervasive::unreached(),
    }
}

impl VLines {
    /// The handle of the first visual line.
    #[inline(always)]
    pub fn first(&self) -> (k: slotmap::DefaultKey)
        ensures
            k == self.first_key(),
    {
        self.first
    }

    /// Looks a record up by handle.
    #[inline]
    pub fn get(&self, key: slotmap::DefaultKey) -> (r: Option<&VLine>)
        ensures
            match r {
                Some(v) => self.slots().dom().contains(key) && *v == self.slots()[key],
                None => !self.slots().dom().contains(key),
            },
    {
        line_map_get(&self.arena, key)
    }


    /// Removes the records after `key`, through chain position `j`, leaving
    /// the order spliced and every remaining record untouched.
    #[verifier::loop_isolation(false)]
    #[verifier::rlimit(100)]
    #[verifier::spinoff_prover]
    fn unlink_tail(
        &mut self,
        key: slotmap::DefaultKey,
        after: slotmap::DefaultKey,
        Ghost(ki): Ghost<int>,
        Ghost(j): Ghost<int>,
    )
        requires
            old(self).wf_links(),
            0 <= ki <= j < old(self).len(),
            old(self).order()[ki] == key,
            after == old(self).rec(j).next,
        ensures
            final(self).order() == old(self).order().take(ki + 1) + old(self).order().skip(j + 1),
            final(self).slots().dom() =~= final(self).order().to_set(),
            forall|a: int, b: int| 0 <= a < b < final(self).order().len()
                ==> final(self).order()[a] != final(self).order()[b],
            forall|k2: slotmap::DefaultKey| final(self).slots().dom().contains(k2)
                ==> final(self).slots()[k2] == old(self).slots()[k2],
            final(self).count() == old(self).count(),
            final(self).first_key() == old(self).first_key(),
            final(self).runs_map() == old(self).runs_map(),
            final(self).arena_inv(),
    {
        let ghost pre = *self;
        proof {
            if j < pre.len() - 1 {
                assert(pre.rec(j).next == pre.order()[j + 1]);
            } else {
                assert(key_is_null(pre.rec(pre.len() - 1).next));
            }
            assert(self.order().contains(key));
            assert(self.slots().dom().contains(key));
        }
        let head = *line_ref(self, key);
        let mut cur = head.next;
        let ghost mut removed: int = 0;
        proof {
            if ki < pre.len() - 1 {
                assert(pre.rec(ki).next == pre.order()[ki + 1]);
            } else {
                assert(ki == j);
            }
            assert(self.order() =~= pre.order().take(ki + 1) + pre.order().skip(ki + 1));
        }
        while !key_eq(cur, after)
            invariant
                0 <= removed <= j - ki,
                self.order() == pre.order().take(ki + 1) + pre.order().skip(ki + 1 + removed),
                cur == (if ki + 1 + removed <= j {
                    pre.order()[ki + 1 + removed]
                } else {
                    after
                }),
                forall|a: int, b: int| 0 <= a < b < self.order().len() ==> self.order()[a] != self.order()[b],
                self.slots().dom() =~= self.order().to_set(),
                forall|k2: slotmap::DefaultKey| self.slots().dom().contains(k2)
                    ==> self.slots()[k2] == pre.slots()[k2],
                self.count() == pre.count(),
                self.first_key() == pre.first_key(),
                self.runs_map() == pre.runs_map(),
                self.arena_inv(),
            decreases j - ki - removed,
        {
            proof {
                if removed == j - ki {
                    assert(cur == after);
                    assert(false);
                }
                assert(self.order()[ki + 1] == pre.order()[ki + 1 + removed]);
                assert(self.order().contains(cur));
                assert(self.slots().dom().contains(cur));
            }
            let line = match line_map_remove(&mut self.arena, cur) {
                Some(l) => l,
                None => vstd::pervasive::unreached(),
            };
            proof {
                let oldord = self.ord@;
                let olddom = line_slots(pre.arena).remove(cur).dom();
                self.ord@ = self.ord@.remove(ki + 1);
                removed = removed + 1;
                assert(self.order() =~= pre.order().take(ki + 1) + pre.order().skip(ki + 1 + removed));
                assert(line == pre.rec(ki + removed));
                if ki + removed < pre.len() - 1 {
                    assert(pre.rec(ki + removed).next == pre.order()[ki + removed + 1]);
                } else {
                    assert(ki + removed == j && j == pre.len() - 1);
                    assert(key_is_null(pre.rec(pre.len() - 1).next));
                }
                assert forall|a: int, b: int| 0 <= a < b < self.order().len()
                    implies self.order()[a] != self.order()[b] by {
                    let a2 = if a <= ki { a } else { a + 1 };
                    let b2 = if b <= ki { b } else { b + 1 };
                    assert(self.order()[a] == oldord[a2]);
                    assert(self.order()[b] == oldord[b2]);
                }
                assert(self.slots().dom() =~= self.order().to_set()) by {
                    assert forall|k2: slotmap::DefaultKey| self.order().contains(k2)
                        implies self.slots().dom().contains(k2) by {
                        let x = choose|x: int| 0 <= x < self.order().len() && self.order()[x] == k2;
                        let y: int = if x <= ki { x } else { x + 1 };
                        assert(oldord[y] == k2);
                        assert(oldord.contains(k2));
                        if k2 == cur {
                            assert(oldord[ki + 1] == cur);
                            assert(y != ki + 1);
                            assert(false);
                        }
                    }
                    assert forall|k2: slotmap::DefaultKey| self.slots().dom().contains(k2)
                        implies self.order().contains(k2) by {
                        assert(oldord.contains(k2));
                        let y = choose|y: int| 0 <= y < oldord.len() && oldord[y] == k2;
                        assert(k2 != cur);
                        assert(y != ki + 1);
                        let x: int = if y <= ki { y } else { y - 1 };
                        assert(self.order()[x] == k2);
                    }
                }
            }
            cur = line.next;
        }
        proof {
            if removed < j - ki {
                assert(cur == pre.order()[ki + 1 + removed]);
                assert(false);
            }
            assert(removed == j - ki);
        }
    }


    /// Inserts fragments `1..` of `frags` as fresh records after `key`,
    /// linking each to its predecessor; returns the last fragment's handle
    /// and the fresh handles in order.
    #[verifier::loop_isolation(false)]
    #[verifier::rlimit(100)]
    #[verifier::spinoff_prover]
    fn grow_tail(
        &mut self,
        key: slotmap::DefaultKey,
        after: slotmap::DefaultKey,
        bk: slotmap::DefaultKey,
        s0: usize,
        e: usize,
        frags: &Vec<FragRange>,
        Ghost(pre): Ghost<VLines>,
        Ghost(ki): Ghost<int>,
        Ghost(j): Ghost<int>,
        Ghost(fs): Ghost<Seq<Frag>>,
    ) -> (r: (slotmap::DefaultKey, Ghost<Seq<slotmap::DefaultKey>>))
        requires
            0 <= ki <= j < pre.len(),
            pre.order()[ki] == key,
            frags@.len() == fs.len(),
            fs.len() >= 1,
            forall|x: int| 0 <= x < fs.len() ==> {
                &&& (#[trigger] frags@[x]).start == frag_start(fs, x)
                &&& frags@[x].end == frag_start(fs, x + 1)
                &&& frags@[x].cont == fs[x].cont
            },
            forall|x: int| 0 <= x < fs.len() ==> (#[trigger] fs[x]).len >= 1,
            frag_start(fs, fs.len() as int) == e - s0,
            s0 <= e,
            pre.count() + fs.len() <= 0xffff_ffff,
            forall|a: int, b: int| 0 <= a < b < pre.len() ==> pre.order()[a] != pre.order()[b],
            old(self).order() == pre.order().take(ki) + seq![key] + pre.order().skip(j + 1),
            old(self).slots().dom() =~= old(self).order().to_set(),
            forall|a: int, b: int| 0 <= a < b < old(self).order().len()
                ==> old(self).order()[a] != old(self).order()[b],
            forall|x: int| 0 <= x < old(self).order().len()
                ==> !key_is_null(#[trigger] old(self).order()[x]),
            forall|x: int| 0 <= x < ki ==> old(self).slots()[#[trigger] pre.order()[x]]
                == pre.slots()[pre.order()[x]],
            forall|x: int| j < x < pre.len() ==> old(self).slots()[#[trigger] pre.order()[x]]
                == pre.slots()[pre.order()[x]],
            old(self).slots()[key] == (VLine {
                prev: pre.rec(ki).prev,
                next: after,
                buffer_key: bk,
                start: (s0 + frag_start(fs, 0)) as usize,
                end: (s0 + frag_start(fs, 1)) as usize,
                continuation: fs[0].cont,
            }),
            old(self).count() <= pre.count(),
            old(self).first_key() == pre.first_key(),
            old(self).runs_map() == pre.runs_map(),
            old(self).arena_inv(),
        ensures
            ({
                let last = r.0;
                let newkeys = r.1@;
                let nf = fs.len() as int;
                &&& newkeys.len() == nf - 1
                &&& final(self).order() == pre.order().take(ki) + seq![key] + newkeys + pre.order().skip(j + 1)
                &&& final(self).slots().dom() =~= final(self).order().to_set()
                &&& (forall|a: int, b: int| 0 <= a < b < final(self).order().len()
                        ==> final(self).order()[a] != final(self).order()[b])
                &&& (forall|x: int| 0 <= x < final(self).order().len()
                        ==> !key_is_null(#[trigger] final(self).order()[x]))
                &&& last == final(self).order()[ki + nf - 1]
                &&& (forall|x: int| 0 <= x < ki ==> final(self).slots()[#[trigger] pre.order()[x]]
                        == pre.slots()[pre.order()[x]])
                &&& (forall|x: int| j < x < pre.len() ==> final(self).slots()[#[trigger] pre.order()[x]]
                        == pre.slots()[pre.order()[x]])
                &&& (forall|x: int| 0 <= x < nf ==> final(self).slots()[#[trigger] final(self).order()[ki + x]] == (VLine {
                        prev: if x == 0 { pre.rec(ki).prev } else { final(self).order()[ki + x - 1] },
                        next: if x == nf - 1 { after } else { final(self).order()[ki + x + 1] },
                        buffer_key: bk,
                        start: (s0 + frag_start(fs, x)) as usize,
                        end: (s0 + frag_start(fs, x + 1)) as usize,
                        continuation: fs[x].cont,
                    }))
                &&& final(self).count() <= pre.count() + nf - 1
                &&& final(self).first_key() == pre.first_key()
                &&& final(self).runs_map() == pre.runs_map()
                &&& final(self).arena_inv()
            }),
    {
        let nf = frags.len();
        let mut prev_key = key;
        let mut idx: usize = 1;
        let ghost mut newkeys: Seq<slotmap::DefaultKey> = Seq::empty();
        proof {
            assert(self.order() =~= pre.order().take(ki) + seq![key] + newkeys + pre.order().skip(j + 1));
            assert(self.order()[ki] == key);
            assert forall|x: int| 0 <= x < 1 implies self.slots()[#[trigger] self.order()[ki + x]] == (VLine {
                prev: if x == 0 { pre.rec(ki).prev } else { self.order()[ki + x - 1] },
                next: if x == 0 { after } else { self.order()[ki + x + 1] },
                buffer_key: bk,
                start: (s0 + frag_start(fs, x)) as usize,
                end: (s0 + frag_start(fs, x + 1)) as usize,
                continuation: fs[x].cont,
            }) by {
                assert(self.order()[ki + 0] == key);
            }
        }
        while idx < nf
            invariant
                1 <= idx <= nf,
                nf == fs.len(),
                newkeys.len() == idx - 1,
                self.order() == pre.order().take(ki) + seq![key] + newkeys + pre.order().skip(j + 1),
                self.slots().dom() =~= self.order().to_set(),
                forall|a: int, b: int| 0 <= a < b < self.order().len() ==> self.order()[a] != self.order()[b],
                forall|x: int| 0 <= x < self.order().len() ==> !key_is_null(#[trigger] self.order()[x]),
                prev_key == self.order()[ki + idx - 1],
                forall|x: int| 0 <= x < ki ==> self.slots()[#[trigger] pre.order()[x]] == pre.slots()[pre.order()[x]],
                forall|x: int| j < x < pre.len() ==> self.slots()[#[trigger] pre.order()[x]] == pre.slots()[pre.order()[x]],
                forall|x: int| 0 <= x < idx ==> self.slots()[#[trigger] self.order()[ki + x]] == (VLine {
                    prev: if x == 0 { pre.rec(ki).prev } else { self.order()[ki + x - 1] },
                    next: if x == idx - 1 { after } else { self.order()[ki + x + 1] },
                    buffer_key: bk,
                    start: (s0 + frag_start(fs, x)) as usize,
                    end: (s0 + frag_start(fs, x + 1)) as usize,
                    continuation: fs[x].cont,
                }),
                self.count() <= pre.count() + idx - 1,
                self.first_key() == pre.first_key(),
                self.runs_map() == pre.runs_map(),
                self.arena_inv(),
            decreases nf - idx,
        {
            let f = frags[idx];
            proof {
                assert(f.start == frag_start(fs, idx as int) && f.end == frag_start(fs, idx as int + 1));
                lemma_frag_start_mono(fs, idx as int + 1, fs.len() as int);
                assert(s0 + f.end <= e);
                assert(self.count() < 0xffff_fffe);
            }
            let nk = line_map_insert(
                &mut self.arena,
                VLine {
                    prev: prev_key,
                    next: after,
                    buffer_key: bk,
                    start: s0 + f.start,
                    end: s0 + f.end,
                    continuation: f.cont,
                },
            );
            proof {
                assert(self.order().contains(prev_key));
                assert(self.slots().dom().contains(prev_key));
            }
            let pl: VLine = *line_ref(self, prev_key);
            line_map_set(
                &mut self.arena,
                prev_key,
                VLine {
                    prev: pl.prev,
                    next: nk,
                    buffer_key: pl.buffer_key,
                    start: pl.start,
                    end: pl.end,
                    continuation: pl.continuation,
                },
            );
            proof {
                let oldord = self.ord@;
                let oldks = newkeys;
                self.ord@ = self.ord@.insert(ki + idx as int, nk);
                newkeys = newkeys.push(nk);
                assert(oldord.insert(ki + idx as int, nk)
                    =~= oldord.take(ki + idx as int) + seq![nk] + oldord.skip(ki + idx as int));
                assert(self.order() =~= pre.order().take(ki) + seq![key] + newkeys + pre.order().skip(j + 1));
                assert(!oldord.to_set().contains(nk));
                assert forall|a: int, b: int| 0 <= a < b < self.order().len()
                    implies self.order()[a] != self.order()[b] by {
                    let a2 = if a < ki + idx { a } else { a - 1 };
                    let b2 = if b < ki + idx { b } else { b - 1 };
                    if a == ki + idx as int {
                        assert(self.order()[a] == nk);
                        assert(self.order()[b] == oldord[b2]);
                        assert(oldord.contains(oldord[b2]));
                    } else if b == ki + idx as int {
                        assert(self.order()[b] == nk);
                        assert(self.order()[a] == oldord[a2]);
                        assert(oldord.contains(oldord[a2]));
                    } else {
                        assert(self.order()[a] == oldord[a2]);
                        assert(self.order()[b] == oldord[b2]);
                    }
                }
                assert forall|x: int| 0 <= x < self.order().len()
                    implies !key_is_null(#[trigger] self.order()[x]) by {
                    if x != ki + idx as int {
                        let x2 = if x < ki + idx { x } else { x - 1 };
                        assert(self.order()[x] == oldord[x2]);
                    }
                }
                assert(self.slots().dom() =~= self.order().to_set()) by {
                    assert forall|k2: slotmap::DefaultKey| self.order().contains(k2)
                        implies self.slots().dom().contains(k2) by {
                        let x = choose|x: int| 0 <= x < self.order().len() && self.order()[x] == k2;
                        if x != ki + idx as int {
                            let x2 = if x < ki + idx { x } else { x - 1 };
                            assert(oldord[x2] == k2);
                            assert(oldord.contains(k2));
                        }
                    }
                    assert forall|k2: slotmap::DefaultKey| self.slots().dom().contains(k2)
                        implies self.order().contains(k2) by {
                        if k2 == nk {
                            assert(self.order()[ki + idx as int] == nk);
                        } else {
                            assert(oldord.contains(k2));
                            let y = choose|y: int| 0 <= y < oldord.len() && oldord[y] == k2;
                            let x: int = if y < ki + idx { y } else { y + 1 };
                            assert(self.order()[x] == k2);
                        }
                    }
                }
                // frames: the two touched handles are the new key and the
                // previous fragment, which sit inside the repaired stretch
                assert forall|x: int| 0 <= x < ki implies self.slots()[#[trigger] pre.order()[x]]
                    == pre.slots()[pre.order()[x]] by {
                    assert(self.order()[x] == pre.order()[x]);
                    assert(pre.order()[x] != nk);
                    assert(pre.order()[x] != prev_key);
                }
                assert forall|x: int| j < x < pre.len() implies self.slots()[#[trigger] pre.order()[x]]
                    == pre.slots()[pre.order()[x]] by {
                    let px = x - j - 1 + ki + idx as int + 1;
                    assert(self.order()[px] == pre.order()[x]);
                    assert(px != ki + idx as int && px != ki + idx - 1);
                    assert(pre.order()[x] != nk);
                    assert(pre.order()[x] != prev_key);
                }
                assert forall|x: int| 0 <= x < idx as int + 1 implies self.slots()[#[trigger] self.order()[ki + x]] == (VLine {
                    prev: if x == 0 { pre.rec(ki).prev } else { self.order()[ki + x - 1] },
                    next: if x == idx as int { after } else { self.order()[ki + x + 1] },
                    buffer_key: bk,
                    start: (s0 + frag_start(fs, x)) as usize,
                    end: (s0 + frag_start(fs, x + 1)) as usize,
                    continuation: fs[x].cont,
                }) by {
                    if x < idx as int - 1 {
                        assert(self.order()[ki + x] == oldord[ki + x]);
                        assert(oldord[ki + x] != nk && oldord[ki + x] != prev_key);
                        assert(self.order()[ki + x + 1] == oldord[ki + x + 1]);
                        if x > 0 {
                            assert(self.order()[ki + x - 1] == oldord[ki + x - 1]);
                        }
                    } else if x == idx as int - 1 {
                        assert(self.order()[ki + x] == oldord[ki + x]);
                        assert(oldord[ki + x] == prev_key);
                        assert(self.order()[ki + x + 1] == nk);
                        if x > 0 {
                            assert(self.order()[ki + x - 1] == oldord[ki + x - 1]);
                        }
                    } else {
                        assert(self.order()[ki + x] == nk);
                        assert(self.order()[ki + x - 1] == oldord[ki + x - 1]);
                        assert(oldord[ki + x - 1] == prev_key);
                    }
                }
            }
            prev_key = nk;
            idx += 1;
        }
        (prev_key, Ghost(newkeys))
    }

    /// Builds the visual-line index for one buffer: the buffer's text, cut
    /// into wrapped rows at the default width.
    #[verifier::spinoff_prover]
    pub fn new(bufs: &BufTable, buffer_key: slotmap::DefaultKey) -> (v: VLines)
        requires
            buf_slots(*bufs).dom().contains(buffer_key),
            buf_slots(*bufs)[buffer_key].wrap_at >= 1,
            buf_texts(*bufs)[buffer_key].len() >= 1,
            buf_texts(*bufs)[buffer_key][buf_texts(*bufs)[buffer_key].len() - 1] == '\n',
            buf_texts(*bufs)[buffer_key].len() < 0xffff_ffff,
        ensures
            v.wf_links(),
            v.wf_spans(buf_texts(*bufs)),
            ({
                let t = buf_texts(*bufs)[buffer_key];
                let fs = wrap_frags(t, buf_slots(*bufs)[buffer_key].wrap_at as int, false);
                &&& v.len() == fs.len()
                &&& forall|x: int| 0 <= x < fs.len() ==> {
                        let r = #[trigger] v.rec(x);
                        &&& r.buffer_key == buffer_key
                        &&& r.start == frag_start(fs, x)
                        &&& r.end == frag_start(fs, x + 1)
                        &&& r.continuation == fs[x].cont
                    }
                &&& forall|x: int| 0 <= x < v.len()
                        ==> v.rec_valid(buf_texts(*bufs), x, buf_slots(*bufs)[buffer_key].wrap_at as int)
                &&& v.count() <= t.len() + 1
            }),
    {
        let ghost texts = buf_texts(*bufs);
        let nk = key_null();
        let buf: &Buffer = match buf_map_get(bufs, buffer_key) {
            Some(b) => b,
            None => vstd::pervasive::unreached(),
        };
        proof {
            assert(rope_text(buf.text) == texts[buffer_key]);
        }
        let len = rope_len(&buf.text);
        let mut v = VLines {
            arena: line_map_new(),
            first: nk,
            ord: Ghost(Seq::empty()),
            runs: Ghost(Map::empty()),
        };
        let k0 = line_map_insert(
            &mut v.arena,
            VLine {
                prev: nk,
                next: nk,
                buffer_key,
                start: 0,
                end: len,
                continuation: false,
            },
        );
        v.first = k0;
        proof {
            v.ord@ = seq![k0];
            v.runs@ = map![buffer_key => (0int, 0int)];
            assert(v.order()[0] == k0);
            assert(v.slots().dom() =~= v.order().to_set());
            assert(v.rec(0) == VLine { prev: nk, next: nk, buffer_key, start: 0, end: len, continuation: false });
            assert(v.wf_links());
            assert(v.runs_map().dom().contains(buffer_key));
            assert(v.runs_map()[buffer_key] == (0int, 0int));
            assert(v.wf_spans(texts));
            let rt = v.rec_text(texts, 0);
            assert(rt =~= texts[buffer_key]);
            assert(v.nl_end(texts, 0) == 0);
            assert(!v.cont_follows(0));
            v.lemma_key_at(k0);
            assert(v.key_at(k0) == 0);
            assert(v.count() <= 1);
        }
        let ghost v0 = v;
        let w = buf.wrap_at;
        let last = v.wrap(bufs, k0, w);
        proof {
            let t = texts[buffer_key];
            let fs = wrap_frags(t, w as int, false);
            assert(t.subrange(0, t.len() as int) =~= t);
            assert(v0.rec(0).start == 0 && v0.rec(0).end == t.len());
            assert(wrap_frags(t.subrange(0, t.len() as int), w as int, false) == fs);
            assert(v.len() == fs.len());
            assert forall|x: int| 0 <= x < fs.len() implies {
                let r = #[trigger] v.rec(x);
                &&& r.buffer_key == buffer_key
                &&& r.start == frag_start(fs, x)
                &&& r.end == frag_start(fs, x + 1)
                &&& r.continuation == fs[x].cont
            } by {
                assert(v.rec(0 + x) == v.rec(x));
            }
            assert forall|x: int| 0 <= x < v.len() implies v.rec_valid(texts, x, w as int) by {
                assert(v.rec_valid(texts, 0 + x, w as int));
            }
            lemma_wrap_frags(t, w as int, false);
            lemma_frag_start_mono(fs, 0, fs.len() as int);
            assert(frag_start(fs, fs.len() as int) == t.len());
            assert(fs.len() <= t.len());
            assert(v.count() <= t.len() + 1);
        }
        v
    }

    /// Repairs the chain from `key` to the end of its logical line: those
    /// records become exactly the canonical fragmentation of the line's text
    /// at width `wrap_at`. Every other record keeps its handle and its
    /// content; `key` survives as the head fragment; when the record at
    /// `key` already is a whole valid line, nothing changes at all.
    /// Returns the handle of the line's last fragment.
    #[verifier::loop_isolation(false)]
    #[verifier::rlimit(100)]
    #[verifier::spinoff_prover]
    pub fn wrap(&mut self, bufs: &BufTable, key: slotmap::DefaultKey, wrap_at: usize) -> (last: slotmap::DefaultKey)
        requires
            old(self).wf_links(),
            old(self).wf_spans(buf_texts(*bufs)),
            old(self).order().contains(key),
            1 <= wrap_at,
            !old(self).cont_follows(old(self).nl_end(buf_texts(*bufs), old(self).key_at(key))),
            old(self).count() + buf_texts(*bufs)[old(self).rec(old(self).key_at(key)).buffer_key].len() <= 0xffff_ffff,
        ensures
            final(self).wf_links(),
            final(self).wf_spans(buf_texts(*bufs)),
            wrap_post(*old(self), *final(self), buf_texts(*bufs), key, wrap_at as int, last),
    {
        let ghost texts = buf_texts(*bufs);
        proof {
            self.lemma_key_at(key);
        }
        let ghost ki = self.key_at(key);
        proof {
            self.lemma_nl_end(texts, ki);
            self.lemma_run_end(ki);
            assert(self.slots().dom().contains(key));
        }
        let ghost j = self.nl_end(texts, ki);
        let head: VLine = *line_ref(self, key);
        let bk = head.buffer_key;
        let s0 = head.start;
        let buf: &Buffer = match buf_map_get(bufs, bk) {
            Some(b) => b,
            None => vstd::pervasive::unreached(),
        };
        proof {
            assert(rope_text(buf.text) == texts[bk]);
        }
        let mut jkey = key;
        let ghost mut ji: int = ki;
        loop
            invariant
                ki <= ji <= j,
                self.order()[ji] == jkey,
                self.nl_end(texts, ji) == j,
                self.rec(ji).buffer_key == bk,
            decreases j - ji,
        {
            proof {
                assert(self.slots().dom().contains(jkey));
            }
            let line = line_ref(self, jkey);
            let c = rope_char_at(&buf.text, line.end - 1);
            let nxt = line.next;
            proof {
                let rt = self.rec_text(texts, ji);
                assert(rt[rt.len() - 1] == texts[bk][self.rec(ji).end - 1]);
            }
            if c == '\n' {
                proof {
                    assert(self.nl_end(texts, ji) == ji);
                }
                break;
            }
            proof {
                self.lemma_nl_end(texts, j);
                if !(ji + 1 < self.len() && self.rec(ji + 1).buffer_key == self.rec(ji).buffer_key) {
                    assert(self.nl_end(texts, ji) == ji);
                    assert(false);
                }
                assert(self.rec(ji).next == self.order()[ji + 1]);
            }
            jkey = nxt;
            proof {
                ji = ji + 1;
            }
        }
        proof {
            assert(ji == j);
        }
        let jline: VLine = *line_ref(self, jkey);
        let e = jline.end;
        let after = jline.next;
        proof {
            self.lemma_span_order(texts, ki, j);
            assert(s0 < e);
        }
        let text = rope_chars_range(&buf.text, s0, e);
        let ghost t = texts[bk].subrange(s0 as int, e as int);
        proof {
            assert(text@ == t);
            assert(t[t.len() - 1] == texts[bk][e - 1]);
            let rt = self.rec_text(texts, j);
            assert(rt[rt.len() - 1] == texts[bk][e - 1]);
        }
        let frags = compute_fragments(&text, wrap_at, head.continuation);
        let ghost fs = wrap_frags(t, wrap_at as int, head.continuation);
        let nf = frags.len();
        proof {
            lemma_wrap_frags(t, wrap_at as int, head.continuation);
            lemma_frag_start_mono(fs, 0, fs.len() as int);
            assert(frag_start(fs, fs.len() as int) == t.len());
            assert(nf == fs.len());
            assert(nf <= t.len());
            assert(t.len() == e - s0);
        }
        if nf == 1 && key_eq(key, jkey) {
            proof {
                assert(j == ki);
                lemma_wrap_noop(*self, texts, key, wrap_at as int);
            }
            return key;
        }
        let ghost pre = *self;
        proof {
            assert(after == pre.rec(j).next);
        }
        self.unlink_tail(key, after, Ghost(ki), Ghost(j));
        // the head record becomes the first fragment
        let f0 = frags[0];
        proof {
            assert(f0.start == 0 && f0.end == frag_start(fs, 1));
            lemma_frag_start_mono(fs, 1, fs.len() as int);
            assert(s0 + f0.end <= e);
            assert(self.order()[ki] == key);
            assert(self.order().contains(key));
            assert(self.slots().dom().contains(key));
        }
        line_map_set(
            &mut self.arena,
            key,
            VLine {
                prev: head.prev,
                next: after,
                buffer_key: bk,
                start: s0,
                end: s0 + f0.end,
                continuation: head.continuation,
            },
        );
        proof {
            assert(self.order() =~= pre.order().take(ki) + seq![key] + pre.order().skip(j + 1));
            assert forall|x: int| 0 <= x < self.order().len()
                implies !key_is_null(#[trigger] self.order()[x]) by {
                let y = if x <= ki { x } else { x + j - ki };
                assert(self.order()[x] == pre.order()[y]);
            }
            assert forall|x: int| 0 <= x < ki implies self.slots()[#[trigger] pre.order()[x]]
                == pre.slots()[pre.order()[x]] by {
                assert(self.order()[x] == pre.order()[x]);
                assert(self.order().contains(pre.order()[x]));
                assert(pre.order()[x] != key);
            }
            assert forall|x: int| j < x < pre.len() implies self.slots()[#[trigger] pre.order()[x]]
                == pre.slots()[pre.order()[x]] by {
                assert(self.order()[x - j - 1 + ki + 1] == pre.order()[x]);
                assert(self.order().contains(pre.order()[x]));
                assert(pre.order()[x] != key);
            }
            assert(frag_start(fs, 0) == 0);
            assert(self.slots()[key] == (VLine {
                prev: pre.rec(ki).prev,
                next: after,
                buffer_key: bk,
                start: (s0 + frag_start(fs, 0)) as usize,
                end: (s0 + frag_start(fs, 1)) as usize,
                continuation: fs[0].cont,
            })) by {
                assert(head == pre.rec(ki));
                assert(fs[0].cont == head.continuation);
                assert(f0.end == frag_start(fs, 1));
            }
        }
        let rr = self.grow_tail(key, after, bk, s0, e, &frags, Ghost(pre), Ghost(ki), Ghost(j), Ghost(fs));
        let ghost newkeys = rr.1@;
        let prev_key = rr.0;
        let last = prev_key;
        // reattach the record after the line to the last fragment
        let has_after = is_null(after);
        if !has_after {
            proof {
                if j + 1 >= pre.len() {
                    assert(key_is_null(pre.rec(pre.len() - 1).next));
                    assert(false);
                }
                assert(after == pre.order()[j + 1]);
                assert(self.order()[ki + nf as int] == pre.order()[j + 1]);
                assert(self.order().contains(after));
                assert(self.slots().dom().contains(after));
            }
            let al: VLine = *line_ref(self, after);
            line_map_set(
                &mut self.arena,
                after,
                VLine {
                    prev: last,
                    next: al.next,
                    buffer_key: al.buffer_key,
                    start: al.start,
                    end: al.end,
                    continuation: al.continuation,
                },
            );
            proof {
                assert(after != key);
                assert forall|x: int| 0 <= x < ki implies self.slots()[#[trigger] pre.order()[x]]
                    == pre.slots()[pre.order()[x]] by {
                    assert(self.order()[x] == pre.order()[x]);
                    assert(pre.order()[x] != after);
                }
                assert forall|x: int| j + 1 < x < pre.len() implies self.slots()[#[trigger] pre.order()[x]]
                    == pre.slots()[pre.order()[x]] by {
                    let px = x - j - 1 + ki + nf as int;
                    assert(self.order()[px] == pre.order()[x]);
                    assert(pre.order()[x] != after);
                }
                assert forall|x: int| 0 <= x < nf as int implies self.slots()[#[trigger] self.order()[ki + x]] == (VLine {
                    prev: if x == 0 { pre.rec(ki).prev } else { self.order()[ki + x - 1] },
                    next: if x == nf as int - 1 { after } else { self.order()[ki + x + 1] },
                    buffer_key: bk,
                    start: (s0 + frag_start(fs, x)) as usize,
                    end: (s0 + frag_start(fs, x + 1)) as usize,
                    continuation: fs[x].cont,
                }) by {
                    assert(self.order()[ki + x] != after);
                    assert(pre.rec(j).next == after);
                }
            }
        } else {
            proof {
                if j + 1 < pre.len() {
                    assert(pre.rec(j).next == pre.order()[j + 1]);
                    assert(!key_is_null(pre.order()[j + 1]));
                    assert(false);
                }
            }
        }
        proof {
            self.runs@ = shift_runs(pre.runs_map(), bk, ki, nf as int - 1 - (j - ki));
            assert(pre.rec(j).next == after);
            assert(wrap_surgery(pre, *self, texts, key, wrap_at as int, newkeys, last)) by {
                assert(self.runs_map() == shift_runs(pre.runs_map(), bk, ki, fs.len() as int - 1 - (j - ki)));
                assert forall|x: int| 0 <= x < fs.len() as int implies self.slots()[#[trigger] self.order()[ki + x]] == (VLine {
                    prev: if x == 0 { pre.rec(ki).prev } else { self.order()[ki + x - 1] },
                    next: if x == fs.len() - 1 { pre.rec(j).next } else { self.order()[ki + x + 1] },
                    buffer_key: bk,
                    start: (s0 + frag_start(fs, x)) as usize,
                    end: (s0 + frag_start(fs, x + 1)) as usize,
                    continuation: fs[x].cont,
                }) by {
                    assert(0 <= x < nf as int);
                }
            }
            lemma_wrap_finish(pre, *self, texts, key, wrap_at as int, newkeys, last);
        }
        last
    }
}

impl VLines {
    /// The chain never outgrows the arena's key space.
    pub proof fn lemma_len_bound(self)
        requires
            self.wf_links(),
        ensures
            self.len() <= 0xffff_ffff,
    {
        assert(self.order().no_duplicates());
        self.order().unique_seq_to_set();
        assert(self.slots().dom().len() == self.order().len());
    }

    /// Chain position of the head of the logical line holding position `i`.
    pub open spec fn line_head(self, i: int) -> int
        decreases i,
    {
        if i <= 0 {
            0
        } else if !self.rec(i).continuation {
            i
        } else {
            self.line_head(i - 1)
        }
    }

    /// A non-continuation record followed only by continuations up to `q`
    /// is the head of `q`'s logical line.
    pub proof fn lemma_line_head_between(self, p: int, q: int)
        requires
            0 <= p <= q < self.len(),
            !self.rec(p).continuation,
            forall|y: int| p < y <= q ==> (#[trigger] self.rec(y)).continuation,
        ensures
            self.line_head(q) == p,
        decreases q - p,
    {
        if q > p {
            self.lemma_line_head_between(p, q - 1);
        }
    }

    /// Chain position of the next logical line's head after `i`, or the
    /// chain length when `i`'s line is the last.
    pub open spec fn next_head(self, i: int) -> int
        decreases self.len() - i,
    {
        if i < 0 || i + 1 >= self.len() {
            self.len() as int
        } else if !self.rec(i + 1).continuation {
            i + 1
        } else {
            self.next_head(i + 1)
        }
    }

    pub proof fn lemma_next_head(self, i: int)
        requires
            0 <= i < self.len(),
        ensures
            i < self.next_head(i) <= self.len(),
            self.next_head(i) < self.len() ==> !self.rec(self.next_head(i)).continuation,
            forall|x: int| i < x < self.next_head(i) ==> (#[trigger] self.rec(x)).continuation,
        decreases self.len() - i,
    {
        if i + 1 >= self.len() {
        } else if !self.rec(i + 1).continuation {
        } else {
            self.lemma_next_head(i + 1);
        }
    }
}

impl VLineCursor {
    /// Whether this cursor denotes a visual line of `v`: its handle is a
    /// logical line's head and the offset stays within that line.
    pub open spec fn ok(self, v: VLines) -> bool {
        &&& v.order().contains(self.key)
        &&& !v.rec(v.key_at(self.key)).continuation
        &&& v.key_at(self.key) + self.offset < v.len()
        &&& forall|x: int| v.key_at(self.key) < x <= v.key_at(self.key) + self.offset
                ==> (#[trigger] v.rec(x)).continuation
    }

    /// The chain position this cursor denotes.
    pub open spec fn idx(self, v: VLines) -> int {
        v.key_at(self.key) + self.offset
    }

    /// The canonical cursor one visual line down: one more fragment of the
    /// same logical line, or the next line's head.
    pub open spec fn succ_visual(self, v: VLines) -> VLineCursor {
        if v.rec(self.idx(v) + 1).continuation {
            VLineCursor { key: self.key, offset: (self.offset + 1) as usize }
        } else {
            VLineCursor { key: v.order()[self.idx(v) + 1], offset: 0 }
        }
    }

    /// The canonical cursor one visual line up: one fragment back, or the
    /// previous logical line's last fragment.
    pub open spec fn pred_visual(self, v: VLines) -> VLineCursor {
        if self.offset > 0 {
            VLineCursor { key: self.key, offset: (self.offset - 1) as usize }
        } else {
            let h = v.line_head(self.idx(v) - 1);
            VLineCursor { key: v.order()[h], offset: (self.idx(v) - 1 - h) as usize }
        }
    }

    /// The canonical cursor at the next logical line's head.
    pub open spec fn succ_logical(self, v: VLines) -> VLineCursor {
        VLineCursor { key: v.order()[v.next_head(v.key_at(self.key))], offset: 0 }
    }

    /// A cursor at a logical line's head record.
    pub fn new(v: &VLines, key: slotmap::DefaultKey) -> (r: VLineCursor)
        requires
            v.wf_links(),
            v.order().contains(key),
            !v.rec(v.key_at(key)).continuation,
        ensures
            r.ok(*v),
            r.key == key,
            r.offset == 0,
            r.idx(*v) == v.key_at(key),
    {
        proof {
            v.lemma_key_at(key);
        }
        VLineCursor { key, offset: 0 }
    }

    /// The denoted visual line's own handle.
    #[verifier::loop_isolation(false)]
    pub fn key(&self, v: &VLines) -> (r: slotmap::DefaultKey)
        requires
            v.wf_links(),
            self.ok(*v),
        ensures
            r == v.order()[self.idx(*v)],
    {
        proof {
            v.lemma_key_at(self.key);
        }
        let ghost hi = v.key_at(self.key);
        let mut k = self.key;
        let mut steps: usize = 0;
        while steps < self.offset
            invariant
                0 <= steps <= self.offset,
                k == v.order()[hi + steps],
            decreases self.offset - steps,
        {
            proof {
                assert(v.slots().dom().contains(k));
                assert(v.rec(hi + steps).next == v.order()[hi + steps + 1]);
            }
            let line = line_ref(v, k);
            k = line.next;
            steps += 1;
        }
        k
    }

    /// The head record's handle.
    #[inline(always)]
    pub fn head_key(&self) -> (r: slotmap::DefaultKey)
        ensures
            r == self.key,
    {
        self.key
    }

    /// The denoted record.
    pub fn line<'v>(&self, v: &'v VLines) -> (r: Option<&'v VLine>)
        requires
            v.wf_links(),
            self.ok(*v),
        ensures
            match r {
                Some(line) => *line == v.rec(self.idx(*v)),
                None => false,
            },
    {
        let k = self.key(v);
        proof {
            assert(v.slots().dom().contains(k));
        }
        v.get(k)
    }

    /// The head record.
    pub fn head_line<'v>(&self, v: &'v VLines) -> (r: Option<&'v VLine>)
        requires
            v.wf_links(),
            self.ok(*v),
        ensures
            match r {
                Some(line) => *line == v.rec(v.key_at(self.key)),
                None => false,
            },
    {
        proof {
            v.lemma_key_at(self.key);
            assert(v.slots().dom().contains(self.key));
        }
        v.get(self.head_key())
    }

    /// The cursor that denotes no line at all.
    pub fn null() -> (r: VLineCursor)
        ensures
            key_is_null(r.key),
            r.offset == 0,
    {
        VLineCursor { key: key_null(), offset: 0 }
    }

    pub fn is_null(&self) -> (r: bool)
        ensures
            r == key_is_null(self.key),
    {
        is_null(self.key)
    }

    /// Whether two cursors denote the same place.
    pub fn same_as(&self, other: &VLineCursor) -> (r: bool)
        ensures
            r == (self.key == other.key && self.offset == other.offset),
    {
        key_eq(self.key, other.key) && self.offset == other.offset
    }

    /// The head of the next logical line, if any line follows this one.
    #[verifier::loop_isolation(false)]
    pub fn peek_next_logical(&self, v: &VLines) -> (r: Option<VLineCursor>)
        requires
            v.wf_links(),
            self.ok(*v),
        ensures
            ({
                let hi = v.key_at(self.key);
                match r {
                    Some(c) => {
                        &&& c.ok(*v)
                        &&& c == self.succ_logical(*v)
                        &&& c.offset == 0
                        &&& c.idx(*v) == v.next_head(hi)
                        &&& v.next_head(hi) < v.len()
                    },
                    None => v.next_head(hi) == v.len(),
                }
            }),
    {
        proof {
            v.lemma_key_at(self.key);
            v.lemma_next_head(v.key_at(self.key));
            v.lemma_len_bound();
        }
        let ghost hi = v.key_at(self.key);
        let head = match v.get(self.key) {
            Some(line) => line,
            None => vstd::pervasive::unreached(),
        };
        let mut k = head.next;
        let ghost mut x: int = hi + 1;
        loop
            invariant
                hi < x <= v.next_head(hi),
                x < v.len() ==> k == v.order()[x],
                x == v.len() ==> key_is_null(k),
                forall|y: int| hi < y < x ==> (#[trigger] v.rec(y)).continuation,
            decreases v.len() - x,
        {
            proof {
                if x < v.len() {
                    assert(v.slots().dom().contains(k));
                } else {
                    assert(v.next_head(hi) == v.len());
                }
            }
            match v.get(k) {
                None => {
                    proof {
                        if x < v.len() {
                            assert(v.slots().dom().contains(k));
                            assert(false);
                        }
                    }
                    return None;
                }
                Some(line) => {
                    if !line.continuation {
                        proof {
                            assert(v.next_head(hi) == x) by {
                                v.lemma_next_head(hi);
                                if v.next_head(hi) < x {
                                    assert(v.rec(v.next_head(hi)).continuation);
                                    v.lemma_next_head(hi);
                                    assert(false);
                                }
                                if v.next_head(hi) > x {
                                    assert(v.rec(x).continuation);
                                }
                            }
                            v.lemma_key_at(v.order()[x]);
                            assert((VLineCursor { key: k, offset: 0 }) =~= self.succ_logical(*v));
                        }
                        return Some(VLineCursor { key: k, offset: 0 });
                    }
                    proof {
                        assert(x < v.len());
                        assert(v.rec(x).continuation);
                        assert(x < v.next_head(hi));
                        if x < v.len() - 1 {
                            assert(v.rec(x).next == v.order()[x + 1]);
                        } else {
                            assert(key_is_null(v.rec(x).next));
                            assert(v.next_head(hi) <= v.len());
                        }
                    }
                    let nxt = line.next;
                    k = nxt;
                    proof {
                        x = x + 1;
                    }
                }
            }
        }
    }

    /// The head of the previous logical line, if any line precedes this one.
    #[verifier::loop_isolation(false)]
    pub fn peek_prev_logical(&self, v: &VLines) -> (r: Option<VLineCursor>)
        requires
            v.wf_links(),
            self.ok(*v),
        ensures
            ({
                let hi = v.key_at(self.key);
                match r {
                    Some(c) => {
                        &&& c.ok(*v)
                        &&& c.offset == 0
                        &&& 0 <= c.idx(*v) < hi
                        &&& !v.rec(c.idx(*v)).continuation
                        &&& forall|y: int| c.idx(*v) < y < hi ==> (#[trigger] v.rec(y)).continuation
                    },
                    None => forall|y: int| 0 <= y < hi ==> (#[trigger] v.rec(y)).continuation,
                }
            }),
    {
        proof {
            v.lemma_key_at(self.key);
        }
        let ghost hi = v.key_at(self.key);
        let head = match v.get(self.key) {
            Some(line) => line,
            None => vstd::pervasive::unreached(),
        };
        let mut k = head.prev;
        let ghost mut x: int = hi - 1;
        proof {
            if hi == 0 {
                assert(key_is_null(v.rec(0).prev));
            } else {
                assert(v.rec(hi).prev == v.order()[hi - 1]);
            }
        }
        loop
            invariant
                -1 <= x < hi,
                x >= 0 ==> k == v.order()[x],
                x < 0 ==> key_is_null(k),
                forall|y: int| x < y < hi ==> (#[trigger] v.rec(y)).continuation,
            decreases x + 1,
        {
            match v.get(k) {
                None => {
                    proof {
                        if x >= 0 {
                            assert(v.slots().dom().contains(k));
                            assert(false);
                        }
                    }
                    return None;
                }
                Some(line) => {
                    if !line.continuation {
                        proof {
                            v.lemma_key_at(v.order()[x]);
                        }
                        return Some(VLineCursor { key: k, offset: 0 });
                    }
                    proof {
                        assert(v.rec(x).continuation);
                        if x == 0 {
                            assert(key_is_null(v.rec(0).prev));
                        } else {
                            assert(v.rec(x).prev == v.order()[x - 1]);
                        }
                    }
                    let prv = line.prev;
                    k = prv;
                    proof {
                        x = x - 1;
                    }
                }
            }
        }
    }

    /// Steps to the next logical line; stays put (returning false) at the end.
    pub fn move_next_logical(&mut self, v: &VLines) -> (moved: bool)
        requires
            v.wf_links(),
            old(self).ok(*v),
        ensures
            final(self).ok(*v),
            moved ==> *final(self) == old(self).succ_logical(*v)
                && final(self).idx(*v) == v.next_head(v.key_at(old(self).key))
                && final(self).offset == 0,
            !moved ==> *final(self) == *old(self) && v.next_head(v.key_at(old(self).key)) == v.len(),
    {
        match self.peek_next_logical(v) {
            Some(c) => {
                *self = c;
                true
            }
            None => false,
        }
    }

    /// Steps to the next logical line unless it is `stop`'s line.
    pub fn move_next_logical_if(&mut self, v: &VLines, stop: &VLineCursor) -> (moved: bool)
        requires
            v.wf_links(),
            old(self).ok(*v),
        ensures
            final(self).ok(*v),
            moved ==> v.next_head(v.key_at(old(self).key)) < v.len()
                && *final(self) == old(self).succ_logical(*v)
                && old(self).succ_logical(*v) != *stop,
            !moved ==> *final(self) == *old(self)
                && (v.next_head(v.key_at(old(self).key)) == v.len()
                    || old(self).succ_logical(*v) == *stop),
    {
        match self.peek_next_logical(v) {
            Some(c) => {
                if c.same_as(stop) {
                    proof {
                        assert(c =~= *stop);
                    }
                    false
                } else {
                    *self = c;
                    true
                }
            }
            None => false,
        }
    }

    /// The next visual line, if any.
    pub fn peek_next_visual(&self, v: &VLines) -> (r: Option<VLineCursor>)
        requires
            v.wf_links(),
            self.ok(*v),
        ensures
            match r {
                Some(c) => c.ok(*v) && c == self.succ_visual(*v) && c.idx(*v) == self.idx(*v) + 1,
                None => self.idx(*v) == v.len() - 1,
            },
    {
        proof {
            v.lemma_key_at(self.key);
            v.lemma_len_bound();
            assert(v.slots().dom().contains(v.order()[self.idx(*v)]));
        }
        let k = self.key(v);
        let line = line_ref(v, k);
        let ghost ci = self.idx(*v);
        proof {
            if ci < v.len() - 1 {
                assert(v.rec(ci).next == v.order()[ci + 1]);
                assert(v.slots().dom().contains(v.order()[ci + 1]));
            } else {
                assert(key_is_null(v.rec(ci).next));
            }
        }
        let nxt = line.next;
        match v.get(nxt) {
            None => {
                proof {
                    if ci < v.len() - 1 {
                        assert(false);
                    }
                }
                None
            }
            Some(nline) => {
                proof {
                    assert(ci < v.len() - 1) by {
                        if ci == v.len() - 1 {
                            assert(key_is_null(nxt));
                            assert(v.slots().dom().contains(nxt));
                            assert(v.order().contains(nxt));
                            let z = choose|z: int| 0 <= z < v.len() && v.order()[z] == nxt;
                            assert(!key_is_null(v.order()[z]));
                            assert(false);
                        }
                    }
                }
                if nline.continuation {
                    proof {
                        v.lemma_key_at(self.key);
                        assert((VLineCursor { key: self.key, offset: (self.offset + 1) as usize })
                            =~= self.succ_visual(*v));
                    }
                    Some(VLineCursor { key: self.key, offset: self.offset + 1 })
                } else {
                    proof {
                        v.lemma_key_at(nxt);
                        assert((VLineCursor { key: nxt, offset: 0 }) =~= self.succ_visual(*v));
                    }
                    Some(VLineCursor { key: nxt, offset: 0 })
                }
            }
        }
    }

    /// Steps to the next visual line; stays put at the end of the chain.
    pub fn move_next_visual(&mut self, v: &VLines) -> (moved: bool)
        requires
            v.wf_links(),
            old(self).ok(*v),
        ensures
            final(self).ok(*v),
            moved ==> *final(self) == old(self).succ_visual(*v)
                && final(self).idx(*v) == old(self).idx(*v) + 1,
            !moved ==> *final(self) == *old(self) && old(self).idx(*v) == v.len() - 1,
    {
        match self.peek_next_visual(v) {
            Some(c) => {
                *self = c;
                true
            }
            None => false,
        }
    }

    /// Steps to the next visual line unless it is `stop`.
    pub fn move_next_visual_if(&mut self, v: &VLines, stop: &VLineCursor) -> (moved: bool)
        requires
            v.wf_links(),
            old(self).ok(*v),
        ensures
            final(self).ok(*v),
            moved ==> old(self).idx(*v) < v.len() - 1
                && *final(self) == old(self).succ_visual(*v)
                && final(self).idx(*v) == old(self).idx(*v) + 1
                && old(self).succ_visual(*v) != *stop,
            !moved ==> *final(self) == *old(self)
                && (old(self).idx(*v) == v.len() - 1 || old(self).succ_visual(*v) == *stop),
    {
        match self.peek_next_visual(v) {
            Some(c) => {
                if c.same_as(stop) {
                    proof {
                        assert(c =~= *stop);
                    }
                    false
                } else {
                    *self = c;
                    true
                }
            }
            None => false,
        }
    }

    /// The previous visual line, if any.
    #[verifier::loop_isolation(false)]
    pub fn peek_prev_visual(&self, v: &VLines) -> (r: Option<VLineCursor>)
        requires
            v.wf_links(),
            self.ok(*v),
        ensures
            match r {
                Some(c) => c.ok(*v) && c == self.pred_visual(*v) && c.idx(*v) == self.idx(*v) - 1,
                None => self.offset == 0
                    && forall|y: int| 0 <= y < self.idx(*v) ==> (#[trigger] v.rec(y)).continuation,
            },
    {
        proof {
            v.lemma_key_at(self.key);
        }
        if self.offset > 0 {
            proof {
                assert((VLineCursor { key: self.key, offset: (self.offset - 1) as usize })
                    =~= self.pred_visual(*v));
            }
            return Some(VLineCursor { key: self.key, offset: self.offset - 1 });
        }
        match self.peek_prev_logical(v) {
            None => None,
            Some(prev_head) => {
                proof {
                    v.lemma_key_at(prev_head.key);
                }
                let ghost hi = v.key_at(self.key);
                let ghost pi = prev_head.idx(*v);
                proof {
                    v.lemma_len_bound();
                }
                // the previous visual line is the previous logical line's
                // last fragment, just before this head
                let mut c = prev_head;
                loop
                    invariant
                        c.key == prev_head.key,
                        c.ok(*v),
                        pi <= c.idx(*v) <= hi - 1,
                    decreases hi - 1 - c.idx(*v),
                {
                    let ghost cx = c.idx(*v);
                    let kk = c.key(v);
                    proof {
                        assert(v.slots().dom().contains(kk));
                        assert(v.rec(cx).next == v.order()[cx + 1]);
                        assert(v.slots().dom().contains(v.order()[cx + 1]));
                    }
                    let line = line_ref(v, kk);
                    let nxt = line.next;
                    let nline = match v.get(nxt) {
                        Some(nl) => nl,
                        None => vstd::pervasive::unreached(),
                    };
                    if nline.continuation {
                        proof {
                            assert(v.rec(cx + 1).continuation);
                            assert(cx + 1 <= hi - 1) by {
                                if cx + 1 == hi {
                                    assert(!v.rec(hi).continuation);
                                }
                            }
                        }
                        c = VLineCursor { key: c.key, offset: c.offset + 1 };
                    } else {
                        proof {
                            assert(cx == hi - 1) by {
                                if cx + 1 < hi {
                                    assert(v.rec(cx + 1).continuation);
                                }
                            }
                        }
                        break;
                    }
                }
                proof {
                    v.lemma_line_head_between(pi, hi - 1);
                    assert(c.offset == c.idx(*v) - pi);
                    assert(c =~= self.pred_visual(*v));
                }
                Some(c)
            }
        }
    }

    /// Steps to the previous visual line; stays put at the chain's start.
    pub fn move_prev_visual(&mut self, v: &VLines) -> (moved: bool)
        requires
            v.wf_links(),
            old(self).ok(*v),
        ensures
            final(self).ok(*v),
            moved ==> *final(self) == old(self).pred_visual(*v)
                && final(self).idx(*v) == old(self).idx(*v) - 1,
            !moved ==> *final(self) == *old(self)
                && forall|y: int| 0 <= y < old(self).idx(*v) ==> (#[trigger] v.rec(y)).continuation,
    {
        match self.peek_prev_visual(v) {
            Some(c) => {
                *self = c;
                true
            }
            None => false,
        }
    }

    /// Steps to the previous visual line unless it is `stop`.
    pub fn move_prev_visual_if(&mut self, v: &VLines, stop: &VLineCursor) -> (moved: bool)
        requires
            v.wf_links(),
            old(self).ok(*v),
        ensures
            final(self).ok(*v),
            moved ==> old(self).idx(*v) > 0
                && *final(self) == old(self).pred_visual(*v)
                && final(self).idx(*v) == old(self).idx(*v) - 1
                && old(self).pred_visual(*v) != *stop,
            !moved ==> *final(self) == *old(self)
                && ((old(self).offset == 0
                        && forall|y: int| 0 <= y < old(self).idx(*v) ==> (#[trigger] v.rec(y)).continuation)
                    || old(self).pred_visual(*v) == *stop),
    {
        match self.peek_prev_visual(v) {
            Some(c) => {
                if c.same_as(stop) {
                    proof {
                        assert(c =~= *stop);
                    }
                    false
                } else {
                    *self = c;
                    true
                }
            }
            None => false,
        }
    }
}


#[verifier::spinoff_prover]
#[verifier::rlimit(100)]
proof fn lemma_shift_shapes(
    pre: VLines,
    post: VLines,
    texts: Map<slotmap::DefaultKey, Seq<char>>,
    pos: int,
    n: int,
    ai: int,
)
    requires
        pre.wf_links(),
        0 <= ai < pre.len(),
        n >= 1,
        ({
            let bk0 = pre.rec(ai).buffer_key;
            let pre_text = texts[bk0].take(pos) + texts[bk0].skip(pos + n);
            let pts = texts.insert(bk0, pre_text);
            let re = pre.run_end(ai);
            let x = re + 1;
            &&& texts.dom().contains(bk0)
            &&& pre.rec(ai).start <= pos <= pre.rec(ai).end
            &&& pos + n <= texts[bk0].len()
            &&& texts[bk0].len() <= usize::MAX
            &&& texts[bk0][texts[bk0].len() - 1] == '\n'
            &&& pre.wf_spans(pts)
            &&& post.order() == pre.order()
            &&& post.runs_map() == pre.runs_map()
            &&& post.first_key() == pre.first_key()
            &&& post.slots().dom() =~= pre.slots().dom()
            &&& post.slots()[pre.order()[ai]] == (VLine { end: (pre.rec(ai).end + n) as usize, ..pre.rec(ai) })
            &&& (forall|y: int| ai < y < x ==> post.slots()[#[trigger] pre.order()[y]] == (VLine {
                    start: (pre.rec(y).start + n) as usize,
                    end: (pre.rec(y).end + n) as usize,
                    ..pre.rec(y)
                }))
            &&& (forall|y: int| 0 <= y < pre.len() && y != ai && !(ai < y < x)
                    ==> post.slots()[#[trigger] pre.order()[y]] == pre.slots()[pre.order()[y]])
            &&& post.arena_inv()
        }),
    ensures
        ({
            let bk0 = pre.rec(ai).buffer_key;
            &&& (forall|y: int| 0 <= y < pre.len()
                    ==> (#[trigger] post.rec(y)).prev == pre.rec(y).prev
                        && post.rec(y).next == pre.rec(y).next
                        && post.rec(y).buffer_key == pre.rec(y).buffer_key
                        && post.rec(y).continuation == pre.rec(y).continuation)
            &&& (forall|y: int| 0 <= y < pre.len()
                    ==> (#[trigger] post.rec(y)).start == (if pre.rec(y).buffer_key != bk0 || y <= ai {
                            pre.rec(y).start as int
                        } else {
                            pre.rec(y).start + n
                        })
                        && post.rec(y).end == (if pre.rec(y).buffer_key != bk0 || y < ai {
                            pre.rec(y).end as int
                        } else {
                            pre.rec(y).end + n
                        }))
        }),
{
    let bk0 = pre.rec(ai).buffer_key;
    let pre_text = texts[bk0].take(pos) + texts[bk0].skip(pos + n);
    let pts = texts.insert(bk0, pre_text);
    pre.lemma_run_end(ai);
    let re = pre.run_end(ai);
    let x = re + 1;
    assert(pre_text.len() + n == texts[bk0].len());
    assert forall|y: int| 0 <= y < pre.len() && (#[trigger] pre.rec(y)).buffer_key == bk0
        && y > ai implies y <= re by {
        if y > re {
            assert(pre.rec(re + 1).buffer_key != bk0);
            let c = pre.rec(re + 1).buffer_key;
            assert(pre.runs_map()[bk0].0 <= ai && y <= pre.runs_map()[bk0].1);
            assert(pre.runs_map()[c].0 <= re + 1 <= pre.runs_map()[c].1);
            assert(pre.runs_map()[bk0].0 <= re + 1 <= pre.runs_map()[bk0].1);
            assert(false);
        }
    }
    assert forall|y: int| 0 <= y < pre.len()
        implies ((#[trigger] post.rec(y)).prev == pre.rec(y).prev
            && post.rec(y).next == pre.rec(y).next
            && post.rec(y).buffer_key == pre.rec(y).buffer_key
            && post.rec(y).continuation == pre.rec(y).continuation) by {
        if y == ai {
        } else if ai < y < x {
        } else {
            assert(post.slots()[pre.order()[y]] == pre.slots()[pre.order()[y]]);
        }
    }
    assert forall|y: int| 0 <= y < pre.len() implies ((#[trigger] post.rec(y)).start
        == (if pre.rec(y).buffer_key != bk0 || y <= ai {
            pre.rec(y).start as int
        } else {
            pre.rec(y).start + n
        }) && post.rec(y).end == (if pre.rec(y).buffer_key != bk0 || y < ai {
            pre.rec(y).end as int
        } else {
            pre.rec(y).end + n
        })) by {
        if y == ai {
            assert(pre.rec(ai).end <= pts[bk0].len());
            assert(pre.rec(ai).end + n <= texts[bk0].len() <= usize::MAX);
        } else if ai < y < x {
            assert(pre.rec(y).buffer_key == bk0);
            assert(pre.rec(y).end <= pts[bk0].len());
            assert(pre.rec(y).end + n <= texts[bk0].len() <= usize::MAX);
            assert(pre.rec(y).start + n <= texts[bk0].len() <= usize::MAX);
        } else {
            assert(post.slots()[pre.order()[y]] == pre.slots()[pre.order()[y]]);
            if pre.rec(y).buffer_key == bk0 && y > ai {
                assert(y <= re);
                assert(false);
            }
        }
    }
}

#[verifier::spinoff_prover]
#[verifier::rlimit(100)]
proof fn lemma_shift_links(
    pre: VLines,
    post: VLines,
    texts: Map<slotmap::DefaultKey, Seq<char>>,
    pos: int,
    n: int,
    ai: int,
)
    requires
        pre.wf_links(),
        0 <= ai < pre.len(),
        n >= 1,
        post.order() == pre.order(),
        post.runs_map() == pre.runs_map(),
        post.first_key() == pre.first_key(),
        post.slots().dom() =~= post.order().to_set(),
        ({
            let bk0 = pre.rec(ai).buffer_key;
            let pre_text = texts[bk0].take(pos) + texts[bk0].skip(pos + n);
            let pts = texts.insert(bk0, pre_text);
            &&& texts.dom().contains(bk0)
            &&& pre.rec(ai).start <= pos <= pre.rec(ai).end
            &&& pos + n <= texts[bk0].len()
            &&& texts[bk0].len() <= usize::MAX
            &&& texts[bk0][texts[bk0].len() - 1] == '\n'
            &&& pre.wf_spans(pts)
            &&& post.arena_inv()
            &&& (forall|y: int| 0 <= y < pre.len()
                    ==> (#[trigger] post.rec(y)).prev == pre.rec(y).prev
                        && post.rec(y).next == pre.rec(y).next
                        && post.rec(y).buffer_key == pre.rec(y).buffer_key
                        && post.rec(y).continuation == pre.rec(y).continuation)
            &&& (forall|y: int| 0 <= y < pre.len()
                    ==> (#[trigger] post.rec(y)).start == (if pre.rec(y).buffer_key != bk0 || y <= ai {
                            pre.rec(y).start as int
                        } else {
                            pre.rec(y).start + n
                        })
                        && post.rec(y).end == (if pre.rec(y).buffer_key != bk0 || y < ai {
                            pre.rec(y).end as int
                        } else {
                            pre.rec(y).end + n
                        }))
        }),
    ensures
        post.wf_links(),
{
    assert forall|i: int| 0 <= i < post.len() - 1 implies (#[trigger] post.rec(i)).next == post.order()[i + 1] by {
        assert(pre.rec(i).next == pre.order()[i + 1]);
    }
    assert forall|i: int| 1 <= i < post.len() implies (#[trigger] post.rec(i)).prev == post.order()[i - 1] by {
        assert(pre.rec(i).prev == pre.order()[i - 1]);
    }
    assert(post.rec(post.len() - 1).next == pre.rec(pre.len() - 1).next);
    assert(post.rec(0).prev == pre.rec(0).prev);
}

#[verifier::spinoff_prover]
#[verifier::rlimit(100)]
proof fn lemma_shift_spans(
    pre: VLines,
    post: VLines,
    texts: Map<slotmap::DefaultKey, Seq<char>>,
    pos: int,
    n: int,
    ai: int,
)
    requires
        pre.wf_links(),
        0 <= ai < pre.len(),
        n >= 1,
        post.order() == pre.order(),
        post.runs_map() == pre.runs_map(),
        post.first_key() == pre.first_key(),
        post.slots().dom() =~= post.order().to_set(),
        ({
            let bk0 = pre.rec(ai).buffer_key;
            let pre_text = texts[bk0].take(pos) + texts[bk0].skip(pos + n);
            let pts = texts.insert(bk0, pre_text);
            &&& texts.dom().contains(bk0)
            &&& pre.rec(ai).start <= pos <= pre.rec(ai).end
            &&& pos + n <= texts[bk0].len()
            &&& texts[bk0].len() <= usize::MAX
            &&& texts[bk0][texts[bk0].len() - 1] == '\n'
            &&& pre.wf_spans(pts)
            &&& post.arena_inv()
            &&& (forall|y: int| 0 <= y < pre.len()
                    ==> (#[trigger] post.rec(y)).prev == pre.rec(y).prev
                        && post.rec(y).next == pre.rec(y).next
                        && post.rec(y).buffer_key == pre.rec(y).buffer_key
                        && post.rec(y).continuation == pre.rec(y).continuation)
            &&& (forall|y: int| 0 <= y < pre.len()
                    ==> (#[trigger] post.rec(y)).start == (if pre.rec(y).buffer_key != bk0 || y <= ai {
                            pre.rec(y).start as int
                        } else {
                            pre.rec(y).start + n
                        })
                        && post.rec(y).end == (if pre.rec(y).buffer_key != bk0 || y < ai {
                            pre.rec(y).end as int
                        } else {
                            pre.rec(y).end + n
                        }))
        }),
    ensures
        post.wf_spans(texts),
{
    let bk0 = pre.rec(ai).buffer_key;
    let pre_text = texts[bk0].take(pos) + texts[bk0].skip(pos + n);
    let pts = texts.insert(bk0, pre_text);
    pre.lemma_run_end(ai);
    let re = pre.run_end(ai);
    let x = re + 1;
    assert(pre_text.len() + n == texts[bk0].len());
    assert forall|y: int| 0 <= y < pre.len() && (#[trigger] pre.rec(y)).buffer_key == bk0
        && y > ai implies y <= re by {
        if y > re {
            assert(pre.rec(re + 1).buffer_key != bk0);
            let c = pre.rec(re + 1).buffer_key;
            assert(pre.runs_map()[bk0].0 <= ai && y <= pre.runs_map()[bk0].1);
            assert(pre.runs_map()[c].0 <= re + 1 <= pre.runs_map()[c].1);
            assert(pre.runs_map()[bk0].0 <= re + 1 <= pre.runs_map()[bk0].1);
            assert(false);
        }
    }
    assert(texts[bk0].len() >= 1);
    assert forall|b: slotmap::DefaultKey| texts.dom().contains(b) && b != bk0
        implies texts[b] == pts[b] by {}
            assert(post.wf_spans(texts)) by {
                assert forall|i: int| 0 <= i < post.len() implies {
                    &&& texts.dom().contains((#[trigger] post.rec(i)).buffer_key)
                    &&& ({
                        let tb = texts[post.rec(i).buffer_key];
                        tb.len() >= 1 && tb[tb.len() - 1] == '\n'
                    })
                    &&& post.rec(i).start < post.rec(i).end
                    &&& post.rec(i).end <= texts[post.rec(i).buffer_key].len()
                    &&& ({
                        let b = post.rec(i).buffer_key;
                        &&& post.runs_map().dom().contains(b)
                        &&& post.runs_map()[b].0 <= i <= post.runs_map()[b].1
                    })
                } by {
                    assert(post.rec(i).buffer_key == pre.rec(i).buffer_key);
                    assert(pre.rec(i).end <= pts[pre.rec(i).buffer_key].len());
                    if pre.rec(i).buffer_key == bk0 {
                        assert(pts[bk0].len() + n == texts[bk0].len());
                    }
                }
                assert(post.rec(0).start == 0) by {
                    if 0 == ai {
                        assert(pre.rec(0).start == 0);
                    }
                }
                assert(!post.rec(0).continuation);
                assert(post.rec(post.len() - 1).end == texts[post.rec(post.len() - 1).buffer_key].len()) by {
                    let z = pre.len() - 1;
                    assert(pre.rec(z).end == pts[pre.rec(z).buffer_key].len());
                    if pre.rec(z).buffer_key == bk0 && z >= ai {
                        assert(pts[bk0].len() + n == texts[bk0].len());
                    } else {
                        assert(pre.rec(z).buffer_key != bk0 || z < ai);
                        if pre.rec(z).buffer_key == bk0 && z < ai {
                            // the run containing ai reaches past z, yet z is the chain's end
                            assert(pre.runs_map()[bk0].0 <= z <= pre.runs_map()[bk0].1);
                            assert(ai <= pre.runs_map()[bk0].1);
                            assert(ai <= z);
                            assert(false);
                        }
                    }
                }
                assert forall|i: int| #![trigger post.rec(i), post.rec(i - 1)] 1 <= i < post.len() implies
                    (if post.rec(i).buffer_key == post.rec(i - 1).buffer_key {
                        post.rec(i).start == post.rec(i - 1).end
                    } else {
                        &&& post.rec(i).start == 0
                        &&& !post.rec(i).continuation
                        &&& post.rec(i - 1).end == texts[post.rec(i - 1).buffer_key].len()
                    }) by {
                    pre.lemma_neighbor(pts, i);
                    if post.rec(i).buffer_key == post.rec(i - 1).buffer_key {
                        if pre.rec(i).buffer_key == bk0 {
                            if i - 1 < ai && i > ai {
                                assert(i == ai);
                                assert(false);
                            }
                            if i == ai {
                                assert(post.rec(i).start == pre.rec(i).start);
                                assert(i - 1 < ai);
                                assert(post.rec(i - 1).end == pre.rec(i - 1).end);
                            }
                        }
                    } else {
                        assert(post.rec(i).start == 0) by {
                            if pre.rec(i).buffer_key == bk0 && i > ai {
                                // the record before i would close the run early
                                assert(pre.runs_map()[bk0].0 <= ai && i <= pre.runs_map()[bk0].1);
                                let c = pre.rec(i - 1).buffer_key;
                                assert(pre.runs_map()[c].0 <= i - 1 <= pre.runs_map()[c].1);
                                if ai <= i - 1 {
                                    assert(pre.runs_map()[bk0].0 <= i - 1 <= pre.runs_map()[bk0].1);
                                    assert(false);
                                }
                                assert(i - 1 < ai && ai < i);
                                assert(false);
                            }
                        }
                        assert(post.rec(i - 1).end == texts[post.rec(i - 1).buffer_key].len()) by {
                            let c = pre.rec(i - 1).buffer_key;
                            assert(pre.rec(i - 1).end == pts[c].len());
                            if c == bk0 && i - 1 >= ai {
                                assert(pts[bk0].len() + n == texts[bk0].len());
                            } else if c == bk0 && i - 1 < ai {
                                assert(pre.runs_map()[bk0].0 <= i - 1 && ai <= pre.runs_map()[bk0].1);
                                let c2 = pre.rec(i).buffer_key;
                                assert(pre.runs_map()[c2].0 <= i <= pre.runs_map()[c2].1);
                                assert(i <= ai);
                                assert(pre.runs_map()[bk0].0 <= i <= pre.runs_map()[bk0].1);
                                assert(false);
                            }
                        }
                    }
                }
            }
}

impl VLines {
    /// Every terminator-ending record closes its logical line: no
    /// continuation follows it. Wrapping keeps this; edits rely on it.
    pub open spec fn lines_closed(self, texts: Map<slotmap::DefaultKey, Seq<char>>) -> bool {
        forall|x: int| 0 <= x < self.len() && ({
            let t = #[trigger] self.rec_text(texts, x);
            t[t.len() - 1] == '\n'
        }) ==> !self.cont_follows(x)
    }


    /// The shifting walk of `shift_tail`, split out to keep each proof small.
    #[verifier::loop_isolation(false)]
    #[verifier::rlimit(100)]
    #[verifier::spinoff_prover]
    fn shift_rest(
        &mut self,
        first: slotmap::DefaultKey,
        bk: slotmap::DefaultKey,
        n: usize,
        Ghost(pre): Ghost<VLines>,
        Ghost(texts): Ghost<Map<slotmap::DefaultKey, Seq<char>>>,
        Ghost(pos): Ghost<int>,
        Ghost(ai): Ghost<int>,
    )
        requires
            pre.wf_links(),
            0 <= ai < pre.len(),
            n >= 1,
            ({
                let bk0 = pre.rec(ai).buffer_key;
                let pre_text = texts[bk0].take(pos) + texts[bk0].skip(pos + n);
                let pts = texts.insert(bk0, pre_text);
                let re = pre.run_end(ai);
                &&& texts.dom().contains(bk0)
                &&& pre.rec(ai).start <= pos <= pre.rec(ai).end
                &&& pos + n <= texts[bk0].len()
                &&& texts[bk0].len() <= usize::MAX
                &&& texts[bk0][texts[bk0].len() - 1] == '\n'
                &&& pre.wf_spans(pts)
                &&& (forall|y: int| 0 <= y < pre.len() && (#[trigger] pre.rec(y)).buffer_key == bk0
                        && y > ai ==> y <= re)
                &&& first == (if ai < pre.len() - 1 { pre.order()[ai + 1] } else { pre.rec(ai).next })
                &&& bk == bk0
                &&& (ai == pre.len() - 1 ==> key_is_null(first))
                &&& old(self).order() == pre.order()
                &&& old(self).runs_map() == pre.runs_map()
                &&& old(self).count() == pre.count()
                &&& old(self).first_key() == pre.first_key()
                &&& old(self).slots().dom() =~= pre.slots().dom()
                &&& old(self).slots()[pre.order()[ai]] == (VLine { end: (pre.rec(ai).end + n) as usize, ..pre.rec(ai) })
                &&& (forall|y: int| 0 <= y < pre.len() && y != ai
                        ==> old(self).slots()[#[trigger] pre.order()[y]] == pre.slots()[pre.order()[y]])
                &&& old(self).arena_inv()
            }),
        ensures
            ({
                let bk0 = pre.rec(ai).buffer_key;
                let re = pre.run_end(ai);
                let x = re + 1;
                &&& final(self).order() == pre.order()
                &&& final(self).runs_map() == pre.runs_map()
                &&& final(self).count() == pre.count()
                &&& final(self).first_key() == pre.first_key()
                &&& final(self).slots().dom() =~= pre.slots().dom()
                &&& final(self).slots()[pre.order()[ai]] == (VLine { end: (pre.rec(ai).end + n) as usize, ..pre.rec(ai) })
                &&& (forall|y: int| ai < y < x ==> final(self).slots()[#[trigger] pre.order()[y]] == (VLine {
                        start: (pre.rec(y).start + n) as usize,
                        end: (pre.rec(y).end + n) as usize,
                        ..pre.rec(y)
                    }))
                &&& (forall|y: int| 0 <= y < pre.len() && y != ai && !(ai < y < x)
                        ==> final(self).slots()[#[trigger] pre.order()[y]] == pre.slots()[pre.order()[y]])
                &&& final(self).arena_inv()
            }),
    {
        let ghost bk0 = pre.rec(ai).buffer_key;
        let ghost pre_text = texts[bk0].take(pos) + texts[bk0].skip(pos + n);
        let ghost pts = texts.insert(bk0, pre_text);
        proof {
            pre.lemma_run_end(ai);
        }
        let ghost re = pre.run_end(ai);
        let ghost at = pre.order()[ai];
        let ghost line = pre.rec(ai);
        let mut cur = first;
        let ghost mut x: int = ai + 1;
        proof {
            if ai < pre.len() - 1 {
                assert(pre.rec(ai).next == pre.order()[ai + 1]);
            }
        }
        loop
            invariant
                ai + 1 <= x <= re + 1,
                x <= re ==> cur == pre.order()[x],
                x == re + 1 ==> (re == pre.len() - 1 && key_is_null(cur))
                    || (re < pre.len() - 1 && cur == pre.order()[re + 1]),
                self.order() == pre.order(),
                self.runs_map() == pre.runs_map(),
                self.count() == pre.count(),
                self.first_key() == pre.first_key(),
                self.slots().dom() =~= pre.slots().dom(),
                self.slots()[at] == (VLine { end: (pre.rec(ai).end + n) as usize, ..pre.rec(ai) }),
                forall|y: int| ai < y < x ==> self.slots()[#[trigger] pre.order()[y]] == (VLine {
                    start: (pre.rec(y).start + n) as usize,
                    end: (pre.rec(y).end + n) as usize,
                    ..pre.rec(y)
                }),
                forall|y: int| 0 <= y < pre.len() && y != ai && !(ai < y < x)
                    ==> self.slots()[#[trigger] pre.order()[y]] == pre.slots()[pre.order()[y]],
                self.arena_inv(),
            decreases re + 1 - x,
        {
            proof {
                if x <= re {
                    assert(pre.rec(x).buffer_key == bk0);
                    assert(self.slots().dom().contains(pre.order()[x]));
                }
                if x == re + 1 && re < pre.len() - 1 {
                    assert(pre.rec(re + 1).buffer_key != bk0);
                    assert(self.slots().dom().contains(pre.order()[re + 1]));
                }
            }
            let stop = match self.get(cur) {
                None => true,
                Some(l) => !key_eq(l.buffer_key, bk),
            };
            if stop {
                proof {
                    if x <= re {
                        assert(self.slots()[cur] == pre.slots()[pre.order()[x]]
                            || self.slots()[cur] == (VLine {
                                start: (pre.rec(x).start + n) as usize,
                                end: (pre.rec(x).end + n) as usize,
                                ..pre.rec(x)
                            }));
                        assert(self.slots()[cur].buffer_key == bk0);
                        assert(false);
                    }
                    assert(x == re + 1);
                }
                break;
            }
            proof {
                assert(x <= re) by {
                    if x == re + 1 {
                        if re == pre.len() - 1 {
                            assert(key_is_null(cur));
                            if self.slots().dom().contains(cur) {
                                assert(pre.slots().dom().contains(cur));
                                assert(pre.order().contains(cur));
                                let z = choose|z: int| 0 <= z < pre.len() && pre.order()[z] == cur;
                                assert(!key_is_null(pre.order()[z]));
                            }
                        } else {
                            assert(self.slots()[cur] == pre.slots()[pre.order()[re + 1]]);
                            assert(pre.rec(re + 1).buffer_key != bk0);
                        }
                        assert(false);
                    }
                }
                assert(self.slots()[cur] == pre.slots()[pre.order()[x]]);
                assert(pre.rec(x).buffer_key == bk0);
                assert(pre.rec(x).end <= pts[bk0].len());
                assert(pre.rec(x).end + n <= texts[bk0].len());
            }
            let l = *line_ref(self, cur);
            line_map_set(
                &mut self.arena,
                cur,
                VLine { start: l.start + n, end: l.end + n, ..l },
            );
            proof {
                if x < pre.len() - 1 {
                    assert(pre.rec(x).next == pre.order()[x + 1]);
                } else {
                    assert(key_is_null(pre.rec(x).next));
                }
                assert forall|y: int| 0 <= y < pre.len() && y != ai && !(ai < y < x + 1)
                    implies self.slots()[#[trigger] pre.order()[y]] == pre.slots()[pre.order()[y]] by {
                    assert(pre.order()[y] != cur && pre.order()[y] != at);
                }
            }
            cur = l.next;
            proof {
                x = x + 1;
            }
        }
    }

    /// After `n` chars enter buffer `bk`'s text at `pos`, inside record
    /// `ai`'s span, widen that record and push every later record of the
    /// same buffer right by `n`. Chain order, links, flags and every other
    /// buffer's records stay untouched.
    #[verifier::loop_isolation(false)]
    #[verifier::rlimit(100)]
    #[verifier::spinoff_prover]
    fn shift_tail(
        &mut self,
        at: slotmap::DefaultKey,
        n: usize,
        Ghost(texts): Ghost<Map<slotmap::DefaultKey, Seq<char>>>,
        Ghost(pos): Ghost<int>,
    )
        requires
            old(self).wf_links(),
            old(self).order().contains(at),
            n >= 1,
            ({
                let ai = old(self).key_at(at);
                let bk = old(self).rec(ai).buffer_key;
                let pre_text = texts[bk].take(pos) + texts[bk].skip(pos + n);
                &&& texts.dom().contains(bk)
                &&& old(self).rec(ai).start <= pos <= old(self).rec(ai).end
                &&& pos + n <= texts[bk].len()
                &&& texts[bk].len() <= usize::MAX
                &&& texts[bk][texts[bk].len() - 1] == '\n'
                &&& old(self).wf_spans(texts.insert(bk, pre_text))
            }),
        ensures
            ({
                let ai = old(self).key_at(at);
                let bk = old(self).rec(ai).buffer_key;
                &&& final(self).wf_links()
                &&& final(self).wf_spans(texts)
                &&& final(self).order() == old(self).order()
                &&& final(self).runs_map() == old(self).runs_map()
                &&& final(self).count() == old(self).count()
                &&& final(self).first_key() == old(self).first_key()
                &&& final(self).rec(ai) == (VLine { end: (old(self).rec(ai).end + n) as usize, ..old(self).rec(ai) })
                &&& (forall|x: int| 0 <= x < old(self).len() && x != ai
                        && (#[trigger] old(self).rec(x)).buffer_key == bk && x > ai
                        ==> final(self).rec(x) == (VLine {
                            start: (old(self).rec(x).start + n) as usize,
                            end: (old(self).rec(x).end + n) as usize,
                            ..old(self).rec(x)
                        }))
                &&& (forall|x: int| 0 <= x < old(self).len()
                        && ((#[trigger] old(self).rec(x)).buffer_key != bk || x < ai)
                        ==> final(self).rec(x) == old(self).rec(x))
            }),
    {
        let ghost pre = *self;
        proof {
            self.lemma_key_at(at);
        }
        let ghost ai = self.key_at(at);
        let ghost bk0 = pre.rec(ai).buffer_key;
        let ghost pre_text = texts[bk0].take(pos) + texts[bk0].skip(pos + n);
        let ghost pts = texts.insert(bk0, pre_text);
        proof {
            pre.lemma_run_end(ai);
            assert(pre_text.len() + n == texts[bk0].len());
            assert(self.slots().dom().contains(at));
            // a same-buffer record never sits past the run's end
            assert forall|y: int| 0 <= y < pre.len() && (#[trigger] pre.rec(y)).buffer_key == bk0
                implies ai <= pre.run_end(ai) || true by {}
        }
        let ghost re = pre.run_end(ai);
        proof {
            assert forall|y: int| 0 <= y < pre.len() && (#[trigger] pre.rec(y)).buffer_key == bk0
                && y > ai implies y <= re by {
                if y > re {
                    assert(pre.rec(re + 1).buffer_key != bk0);
                    let c = pre.rec(re + 1).buffer_key;
                    assert(pre.runs_map()[bk0].0 <= ai && y <= pre.runs_map()[bk0].1);
                    assert(pre.runs_map()[c].0 <= re + 1 <= pre.runs_map()[c].1);
                    assert(pre.runs_map()[bk0].0 <= re + 1 <= pre.runs_map()[bk0].1);
                    assert(false);
                }
            }
        }
        let line = *line_ref(self, at);
        let bk = line.buffer_key;
        proof {
            assert(line.end + n <= texts[bk0].len());
        }
        line_map_set(
            &mut self.arena,
            at,
            VLine { end: line.end + n, ..line },
        );
        proof {
            if ai < pre.len() - 1 {
                assert(pre.rec(ai).next == pre.order()[ai + 1]);
            } else {
                assert(key_is_null(pre.rec(ai).next));
            }
            assert forall|y: int| 0 <= y < pre.len() && y != ai
                implies self.slots()[#[trigger] pre.order()[y]] == pre.slots()[pre.order()[y]] by {
                assert(pre.order()[y] != at);
            }
        }
        self.shift_rest(line.next, bk, n, Ghost(pre), Ghost(texts), Ghost(pos), Ghost(ai));
        proof {
            lemma_shift_shapes(pre, *self, texts, pos, n as int, ai);
            lemma_shift_links(pre, *self, texts, pos, n as int, ai);
            lemma_shift_spans(pre, *self, texts, pos, n as int, ai);
        }
    }
}

/// Wrapping keeps every terminator-ending record un-followed: the repaired
/// fragments obey it by shape, everything else keeps its text and flags.
#[verifier::spinoff_prover]
#[verifier::rlimit(100)]
proof fn lemma_wrap_lines_closed(
    pre: VLines,
    post: VLines,
    texts: Map<slotmap::DefaultKey, Seq<char>>,
    key: slotmap::DefaultKey,
    w: int,
    last: slotmap::DefaultKey,
)
    requires
        pre.wf_links(),
        pre.wf_spans(texts),
        post.wf_links(),
        post.wf_spans(texts),
        pre.order().contains(key),
        w >= 1,
        pre.lines_closed(texts),
        wrap_post(pre, post, texts, key, w, last),
    ensures
        post.lines_closed(texts),
{
    pre.lemma_key_at(key);
    let ki = pre.key_at(key);
    pre.lemma_nl_end(texts, ki);
    pre.lemma_run_end(ki);
    let j = pre.nl_end(texts, ki);
    let bk = pre.rec(ki).buffer_key;
    let s0 = pre.rec(ki).start;
    let e = pre.rec(j).end;
    let t = texts[bk].subrange(s0 as int, e as int);
    let fs = wrap_frags(t, w, pre.rec(ki).continuation);
    let nf = fs.len() as int;
    let d = nf - 1 - (j - ki);
    pre.lemma_span_order(texts, ki, j);
    assert(t.len() >= 1);
    assert(t[t.len() - 1] == '\n') by {
        let rt = pre.rec_text(texts, j);
        assert(rt[rt.len() - 1] == texts[bk][e - 1]);
    }
    lemma_wrap_frags(t, w, pre.rec(ki).continuation);
    assert(post.rec(ki + 0) == post.rec(ki));
    assert forall|x: int| 0 <= x < post.len() && ({
        let tx = #[trigger] post.rec_text(texts, x);
        tx[tx.len() - 1] == '\n'
    }) implies !post.cont_follows(x) by {
        if x < ki {
            assert(post.rec(x) == pre.rec(x));
            assert(post.rec_text(texts, x) =~= pre.rec_text(texts, x));
            if x + 1 < ki {
                assert(post.rec(x + 1) == pre.rec(x + 1));
            } else {
                assert(vline_core(post.rec(ki)).0 == bk);
                assert(post.rec(ki).continuation == fs[0].cont);
            }
            assert(!pre.cont_follows(x));
        } else if x < ki + nf {
            assert(post.rec_valid(texts, x, w));
            let tx = post.rec_text(texts, x);
            if post.cont_follows(x) {
                assert(forall|y: int| 0 <= y < tx.len() ==> tx[y] != '\n');
                assert(tx.len() == w);
            }
        } else {
            let y = x - d;
            assert(j < y < pre.len());
            assert(post.order()[y + nf - 1 - (j - ki)] == pre.order()[y]);
            assert(vline_core(post.rec(y + nf - 1 - (j - ki))) == vline_core(pre.rec(y)));
            assert(x == y + nf - 1 - (j - ki));
            assert(vline_core(post.rec(x)) == vline_core(pre.rec(y)));
            assert(post.rec_text(texts, x) =~= pre.rec_text(texts, y));
            if x + 1 < post.len() {
                assert(vline_core(post.rec((y + 1) + nf - 1 - (j - ki))) == vline_core(pre.rec(y + 1)));
                assert(x + 1 == (y + 1) + nf - 1 - (j - ki));
            }
            assert(!pre.cont_follows(y));
        }
    }
}



/// Shifting spans after an edit keeps every record's characters, flags and
/// validity, apart from the edited record itself.
#[verifier::spinoff_prover]
#[verifier::rlimit(100)]
proof fn lemma_shift_preserves_valid(
    pre: VLines,
    mid: VLines,
    texts_old: Map<slotmap::DefaultKey, Seq<char>>,
    texts_new: Map<slotmap::DefaultKey, Seq<char>>,
    at: slotmap::DefaultKey,
    pos: int,
    n: int,
    widths: Map<slotmap::DefaultKey, int>,
)

    requires
        pre.wf_links(),
        pre.wf_spans(texts_old),
        mid.wf_links(),
        mid.wf_spans(texts_new),
        pre.order().contains(at),
        n >= 1,
        ({
            let ai = pre.key_at(at);
            let bk = pre.rec(ai).buffer_key;
            &&& texts_old.dom().contains(bk)
            &&& texts_new[bk].len() == texts_old[bk].len() + n
            &&& texts_new[bk].len() <= usize::MAX
            &&& texts_old[bk] == texts_new[bk].take(pos) + texts_new[bk].skip(pos + n)
            &&& (forall|b: slotmap::DefaultKey| texts_old.dom().contains(b) && b != bk
                    ==> texts_new[b] == texts_old[b])
            &&& pre.rec(ai).start <= pos <= pre.rec(ai).end
            &&& mid.order() == pre.order()
            &&& mid.key_at(at) == ai
            &&& mid.rec(ai) == (VLine { end: (pre.rec(ai).end + n) as usize, ..pre.rec(ai) })
            &&& (forall|x: int| 0 <= x < pre.len() && x != ai
                    && (#[trigger] pre.rec(x)).buffer_key == bk && x > ai
                    ==> mid.rec(x) == (VLine {
                        start: (pre.rec(x).start + n) as usize,
                        end: (pre.rec(x).end + n) as usize,
                        ..pre.rec(x)
                    }))
            &&& (forall|x: int| 0 <= x < pre.len()
                    && ((#[trigger] pre.rec(x)).buffer_key != bk || x < ai)
                    ==> mid.rec(x) == pre.rec(x))
            &&& (forall|x: int| 0 <= x < pre.len()
                    ==> #[trigger] pre.rec_valid(texts_old, x, widths[pre.rec(x).buffer_key]))
        }),
    ensures
        forall|x: int| 0 <= x < pre.len() && x != pre.key_at(at)
            ==> #[trigger] mid.rec_text(texts_new, x) == pre.rec_text(texts_old, x),
        forall|x: int| 0 <= x < pre.len()
            ==> (#[trigger] mid.cont_follows(x)) == pre.cont_follows(x),
        forall|x: int| 0 <= x < pre.len() && x != pre.key_at(at)
            ==> #[trigger] mid.rec_valid(texts_new, x, widths[mid.rec(x).buffer_key]),
{
    pre.lemma_key_at(at);
    let ai = pre.key_at(at);
    let bk = pre.rec(ai).buffer_key;
    assert(texts_new[bk].len() == texts_old[bk].len() + n);
    assert forall|i: int| 0 <= i < pos implies texts_old[bk][i] == texts_new[bk][i] by {
        assert(texts_old[bk][i] == (texts_new[bk].take(pos as int) + texts_new[bk].skip(pos + n))[i]);
    }
    assert forall|i: int| pos <= i < texts_old[bk].len() implies texts_old[bk][i]
        == texts_new[bk][i + n] by {
        assert(texts_old[bk][i] == (texts_new[bk].take(pos as int) + texts_new[bk].skip(pos + n))[i]);
    }
    assert forall|x: int| 0 <= x < pre.len() && x != ai
        implies #[trigger] mid.rec_text(texts_new, x) =~= pre.rec_text(texts_old, x) by {
        if pre.rec(x).buffer_key != bk {
            assert(mid.rec(x) == pre.rec(x));
            assert(texts_new[pre.rec(x).buffer_key] == texts_old[pre.rec(x).buffer_key]);
        } else if x < ai {
            assert(mid.rec(x) == pre.rec(x));
            assert forall|y: int| x <= y <= ai implies (#[trigger] pre.rec(y)).buffer_key == bk by {
                let c = pre.rec(y).buffer_key;
                if c != bk {
                    assert(pre.runs_map()[bk].0 <= x && ai <= pre.runs_map()[bk].1);
                    assert(pre.runs_map()[c].0 <= y <= pre.runs_map()[c].1);
                    assert(pre.runs_map()[bk].0 <= y <= pre.runs_map()[bk].1);
                    assert(false);
                }
            }
            pre.lemma_span_order(texts_old, x, ai);
            assert(pre.rec(x).end <= pre.rec(ai).start);
        } else {
            assert forall|y: int| ai <= y <= x implies (#[trigger] pre.rec(y)).buffer_key == bk by {
                let c = pre.rec(y).buffer_key;
                if c != bk {
                    assert(pre.runs_map()[bk].0 <= ai && x <= pre.runs_map()[bk].1);
                    assert(pre.runs_map()[c].0 <= y <= pre.runs_map()[c].1);
                    assert(pre.runs_map()[bk].0 <= y <= pre.runs_map()[bk].1);
                    assert(false);
                }
            }
            pre.lemma_span_order(texts_old, ai, x);
            assert(pre.rec(ai).end <= pre.rec(x).start);
            assert(mid.rec(x).start == pre.rec(x).start + n);
        }
    }
    assert forall|x: int| 0 <= x < pre.len() implies (#[trigger] mid.cont_follows(x))
        == pre.cont_follows(x) by {
        assert(mid.rec(x).buffer_key == pre.rec(x).buffer_key);
        if x + 1 < pre.len() {
            assert(mid.rec(x + 1).buffer_key == pre.rec(x + 1).buffer_key);
            assert(mid.rec(x + 1).continuation == pre.rec(x + 1).continuation);
        }
    }
    assert forall|x: int| 0 <= x < pre.len() && x != ai
        implies #[trigger] mid.rec_valid(texts_new, x, widths[mid.rec(x).buffer_key]) by {
        assert(pre.rec_valid(texts_old, x, widths[pre.rec(x).buffer_key]));
        assert(mid.rec_text(texts_new, x) == pre.rec_text(texts_old, x));
        assert(mid.rec(x).buffer_key == pre.rec(x).buffer_key);
    }
}

/// An edit preserves wrap validity everywhere: the repaired line is valid by
/// construction, shifted records keep their characters and flags, and the
/// rest is untouched.
#[verifier::spinoff_prover]
#[verifier::rlimit(100)]
pub proof fn lemma_insert_preserves_valid(
    pre: VLines,
    mid: VLines,
    post: VLines,
    texts_old: Map<slotmap::DefaultKey, Seq<char>>,
    texts_new: Map<slotmap::DefaultKey, Seq<char>>,
    at: slotmap::DefaultKey,
    pos: int,
    n: int,
    w: int,
    last: slotmap::DefaultKey,
    widths: Map<slotmap::DefaultKey, int>,
)

    requires
        pre.wf_links(),
        pre.wf_spans(texts_old),
        mid.wf_links(),
        mid.wf_spans(texts_new),
        pre.order().contains(at),
        n >= 1,
        ({
            let ai = pre.key_at(at);
            let bk = pre.rec(ai).buffer_key;
            &&& texts_old.dom().contains(bk)
            &&& texts_new[bk].len() == texts_old[bk].len() + n
            &&& texts_new[bk].len() <= usize::MAX
            &&& texts_old[bk] == texts_new[bk].take(pos) + texts_new[bk].skip(pos + n)
            &&& (forall|b: slotmap::DefaultKey| texts_old.dom().contains(b) && b != bk
                    ==> texts_new[b] == texts_old[b])
            &&& pre.rec(ai).start <= pos <= pre.rec(ai).end
            &&& mid.order() == pre.order()
            &&& mid.key_at(at) == ai
            &&& mid.rec(ai) == (VLine { end: (pre.rec(ai).end + n) as usize, ..pre.rec(ai) })
            &&& (forall|x: int| 0 <= x < pre.len() && x != ai
                    && (#[trigger] pre.rec(x)).buffer_key == bk && x > ai
                    ==> mid.rec(x) == (VLine {
                        start: (pre.rec(x).start + n) as usize,
                        end: (pre.rec(x).end + n) as usize,
                        ..pre.rec(x)
                    }))
            &&& (forall|x: int| 0 <= x < pre.len()
                    && ((#[trigger] pre.rec(x)).buffer_key != bk || x < ai)
                    ==> mid.rec(x) == pre.rec(x))
            &&& (forall|x: int| 0 <= x < pre.len()
                    ==> #[trigger] pre.rec_valid(texts_old, x, widths[pre.rec(x).buffer_key]))
        }),
        post.wf_links(),
        post.wf_spans(texts_new),
        w >= 1,
        wrap_post(mid, post, texts_new, at, w, last),
        widths[pre.rec(pre.key_at(at)).buffer_key] == w,
    ensures
        forall|x: int| 0 <= x < post.len()
            ==> #[trigger] post.rec_valid(texts_new, x, widths[post.rec(x).buffer_key]),
        post.rec(pre.key_at(at)).continuation == pre.rec(pre.key_at(at)).continuation,
        post.rec(pre.key_at(at)).buffer_key == pre.rec(pre.key_at(at)).buffer_key,
{
    pre.lemma_key_at(at);
    let ai = pre.key_at(at);
    let bk = pre.rec(ai).buffer_key;
    lemma_shift_preserves_valid(pre, mid, texts_old, texts_new, at, pos, n, widths);
    mid.lemma_key_at(at);
    mid.lemma_nl_end(texts_new, ai);
    mid.lemma_run_end(ai);
    let j = mid.nl_end(texts_new, ai);
    let s0 = mid.rec(ai).start;
    let e = mid.rec(j).end;
    let t = texts_new[bk].subrange(s0 as int, e as int);
    let fs = wrap_frags(t, w, mid.rec(ai).continuation);
    let nf = fs.len() as int;
    let d = nf - 1 - (j - ai);
    mid.lemma_span_order(texts_new, ai, j);
    assert(t.len() >= 1);
    assert(t[t.len() - 1] == '\n') by {
        let rt = mid.rec_text(texts_new, j);
        assert(rt[rt.len() - 1] == texts_new[bk][e - 1]);
    }
    lemma_wrap_frags(t, w, mid.rec(ai).continuation);
    assert(nf >= 1);
    assert(fs[0].cont == mid.rec(ai).continuation);
    assert forall|x: int| 0 <= x < post.len() implies #[trigger] post.rec_valid(
        texts_new,
        x,
        widths[post.rec(x).buffer_key],
    ) by {
        if x < ai {
            assert(x < mid.key_at(at));
            assert(post.order()[x] == mid.order()[x]);
            assert(post.rec(x) == mid.rec(x));
            assert(post.rec_text(texts_new, x) =~= mid.rec_text(texts_new, x));
            if x + 1 < ai {
                assert(post.rec(x + 1) == mid.rec(x + 1));
                assert(post.cont_follows(x) == mid.cont_follows(x));
            } else {
                assert(mid.key_at(at) == ai);
                assert(post.rec(mid.key_at(at) + 0) == post.rec(ai));
                let ghost fs2 = wrap_frags(
                    texts_new[mid.rec(mid.key_at(at)).buffer_key].subrange(
                        mid.rec(mid.key_at(at)).start as int,
                        mid.rec(mid.nl_end(texts_new, mid.key_at(at))).end as int,
                    ),
                    w,
                    mid.rec(mid.key_at(at)).continuation,
                );
                assert(fs2 == fs);
                assert(vline_core(post.rec(ai)).0 == bk);
                assert(post.rec(ai).continuation == fs[0].cont);
                assert(post.cont_follows(x) == mid.cont_follows(x));
            }
            assert(mid.rec_valid(texts_new, x, widths[mid.rec(x).buffer_key]));
        } else if x < ai + nf {
            assert(post.rec_valid(texts_new, x, w));
            assert(post.rec(mid.key_at(at) + (x - ai)) == post.rec(x));
            assert(post.rec(x).buffer_key == bk);
        } else {
            let y = x - d;
            assert(j < y < pre.len());
            assert(post.order()[y + nf - 1 - (j - ai)] == mid.order()[y]);
            assert(vline_core(post.rec(y + nf - 1 - (j - ai))) == vline_core(mid.rec(y)));
            assert(x == y + nf - 1 - (j - ai));
            assert(vline_core(post.rec(x)) == vline_core(mid.rec(y)));
            assert(post.rec_text(texts_new, x) =~= mid.rec_text(texts_new, y));
            if x + 1 < post.len() {
                assert(vline_core(post.rec((y + 1) + nf - 1 - (j - ai))) == vline_core(mid.rec(y + 1)));
                assert(x + 1 == (y + 1) + nf - 1 - (j - ai));
            }
            assert(post.cont_follows(x) == mid.cont_follows(y));
            assert(y != ai);
            assert(mid.rec_valid(texts_new, y, widths[mid.rec(y).buffer_key]));
            assert(post.rec(x).buffer_key == mid.rec(y).buffer_key);
        }
    }
    assert(post.rec(mid.key_at(at) + 0) == post.rec(ai));
    assert(post.rec(ai).continuation == fs[0].cont);
    assert(vline_core(post.rec(ai)).0 == bk);
}

/// After the shift, the chain still closes its lines, and the edited line
/// still ends properly, so re-wrapping it is allowed.
#[verifier::spinoff_prover]
#[verifier::rlimit(100)]
proof fn lemma_shift_closure(
    pre: VLines,
    mid: VLines,
    texts: Map<slotmap::DefaultKey, Seq<char>>,
    pos: int,
    n: int,
    ai: int,
)
    requires
        pre.wf_links(),
        mid.wf_links(),
        0 <= ai < pre.len(),
        n >= 1,
        ({
            let bk = pre.rec(ai).buffer_key;
            let pre_text = texts[bk].take(pos) + texts[bk].skip(pos + n);
            let pts = texts.insert(bk, pre_text);
            &&& texts.dom().contains(bk)
            &&& pre.rec(ai).start <= pos <= pre.rec(ai).end
            &&& pos + n <= texts[bk].len()
            &&& texts[bk].len() <= usize::MAX
            &&& texts[bk][texts[bk].len() - 1] == '\n'
            &&& pre.wf_spans(pts)
            &&& mid.wf_spans(texts)
            &&& pre.lines_closed(pts)
            &&& !(pos == pre.rec(ai).end && pre.cont_follows(ai) && texts[bk][pos + n - 1] == '\n')
            &&& mid.order() == pre.order()
            &&& mid.rec(ai) == (VLine { end: (pre.rec(ai).end + n) as usize, ..pre.rec(ai) })
            &&& (forall|x: int| 0 <= x < pre.len() && x != ai
                    && (#[trigger] pre.rec(x)).buffer_key == bk && x > ai
                    ==> mid.rec(x) == (VLine {
                        start: (pre.rec(x).start + n) as usize,
                        end: (pre.rec(x).end + n) as usize,
                        ..pre.rec(x)
                    }))
            &&& (forall|x: int| 0 <= x < pre.len()
                    && ((#[trigger] pre.rec(x)).buffer_key != bk || x < ai)
                    ==> mid.rec(x) == pre.rec(x))
        }),
    ensures
        mid.lines_closed(texts),
        !mid.cont_follows(mid.nl_end(texts, ai)),
{
    let bk = pre.rec(ai).buffer_key;
    let pre_text = texts[bk].take(pos) + texts[bk].skip(pos + n);
    let pts = texts.insert(bk, pre_text);
    assert(pre_text.len() + n == texts[bk].len());
    assert(forall|i: int| 0 <= i < pos ==> pre_text[i] == texts[bk][i]);
    assert(forall|i: int| pos <= i < pre_text.len() ==> pre_text[i] == texts[bk][i + n]);
    // per-record text preservation away from the edit
    assert forall|x: int| 0 <= x < pre.len() && x != ai
        implies #[trigger] mid.rec_text(texts, x) =~= pre.rec_text(pts, x) by {
        if pre.rec(x).buffer_key != bk {
            assert(mid.rec(x) == pre.rec(x));
            assert(texts[pre.rec(x).buffer_key] == pts[pre.rec(x).buffer_key]);
        } else if x < ai {
            assert(mid.rec(x) == pre.rec(x));
            assert forall|y: int| x <= y <= ai implies (#[trigger] pre.rec(y)).buffer_key == bk by {
                let c = pre.rec(y).buffer_key;
                if c != bk {
                    assert(pre.runs_map()[bk].0 <= x && ai <= pre.runs_map()[bk].1);
                    assert(pre.runs_map()[c].0 <= y <= pre.runs_map()[c].1);
                    assert(pre.runs_map()[bk].0 <= y <= pre.runs_map()[bk].1);
                    assert(false);
                }
            }
            pre.lemma_span_order(pts, x, ai);
            assert(pre.rec(x).end <= pre.rec(ai).start);
        } else {
            assert forall|y: int| ai <= y <= x implies (#[trigger] pre.rec(y)).buffer_key == bk by {
                let c = pre.rec(y).buffer_key;
                if c != bk {
                    assert(pre.runs_map()[bk].0 <= ai && x <= pre.runs_map()[bk].1);
                    assert(pre.runs_map()[c].0 <= y <= pre.runs_map()[c].1);
                    assert(pre.runs_map()[bk].0 <= y <= pre.runs_map()[bk].1);
                    assert(false);
                }
            }
            pre.lemma_span_order(pts, ai, x);
            assert(pre.rec(ai).end <= pre.rec(x).start);
            assert(mid.rec(x).start == pre.rec(x).start + n);
        }
    }
    // flags and neighbours unchanged
    assert forall|x: int| 0 <= x < pre.len() implies (#[trigger] mid.cont_follows(x)) == pre.cont_follows(x) by {
        assert(mid.rec(x).buffer_key == pre.rec(x).buffer_key);
        if x + 1 < pre.len() {
            assert(mid.rec(x + 1).buffer_key == pre.rec(x + 1).buffer_key);
            assert(mid.rec(x + 1).continuation == pre.rec(x + 1).continuation);
        }
    }
    let tai = mid.rec_text(texts, ai);
    assert(tai.len() == pre.rec(ai).end + n - pre.rec(ai).start);
    assert(mid.lines_closed(texts)) by {
        assert forall|x: int| 0 <= x < mid.len() && ({
            let tx = #[trigger] mid.rec_text(texts, x);
            tx[tx.len() - 1] == '\n'
        }) implies !mid.cont_follows(x) by {
            if x != ai {
                let tp = pre.rec_text(pts, x);
                assert(tp[tp.len() - 1] == '\n');
                assert(!pre.cont_follows(x));
            } else {
                assert(tai[tai.len() - 1] == texts[bk][pre.rec(ai).end + n - 1]);
                if pos < pre.rec(ai).end {
                    assert(pre_text[pre.rec(ai).end - 1] == texts[bk][pre.rec(ai).end - 1 + n]);
                    let tp = pre.rec_text(pts, ai);
                    assert(tp[tp.len() - 1] == pre_text[pre.rec(ai).end - 1]);
                    assert(tp[tp.len() - 1] == '\n');
                    assert(!pre.cont_follows(ai));
                } else {
                    assert(pos == pre.rec(ai).end);
                    assert(texts[bk][pos + n - 1] == '\n');
                    assert(!pre.cont_follows(ai));
                }
            }
        }
    }
    mid.lemma_nl_end(texts, ai);
    let j2 = mid.nl_end(texts, ai);
    let t2 = mid.rec_text(texts, j2);
    assert(t2.len() >= 1 && t2[t2.len() - 1] == '\n');
    assert(!mid.cont_follows(j2));
}

impl VLines {
    /// After `n` chars entered the buffer's text at `pos`, inside the span
    /// of the record `at`, repairs the index: the affected records shift
    /// right, then the edited logical line is re-wrapped. Returns the handle
    /// of the repaired line's last fragment.
    #[verifier::loop_isolation(false)]
    #[verifier::rlimit(100)]
    #[verifier::spinoff_prover]
    pub fn insert(
        &mut self,
        bufs: &BufTable,
        at: slotmap::DefaultKey,
        n: usize,
        wrap_at: usize,
        pos: usize,
    ) -> (r: (slotmap::DefaultKey, Ghost<VLines>))
        requires
            old(self).wf_links(),
            old(self).order().contains(at),
            n >= 1,
            1 <= wrap_at,
            ({
                let texts = buf_texts(*bufs);
                let ai = old(self).key_at(at);
                let bk = old(self).rec(ai).buffer_key;
                let pre_text = texts[bk].take(pos as int) + texts[bk].skip(pos + n);
                let pts = texts.insert(bk, pre_text);
                &&& texts.dom().contains(bk)
                &&& old(self).rec(ai).start <= pos <= old(self).rec(ai).end
                &&& pos + n <= texts[bk].len()
                &&& texts[bk].len() <= usize::MAX
                &&& texts[bk][texts[bk].len() - 1] == '\n'
                &&& old(self).wf_spans(pts)
                &&& old(self).lines_closed(pts)
                &&& !(pos == old(self).rec(ai).end && old(self).cont_follows(ai)
                        && texts[bk][pos + n - 1] == '\n')
                &&& old(self).count() + texts[bk].len() <= 0xffff_ffff
            }),
        ensures
            final(self).wf_links(),
            final(self).wf_spans(buf_texts(*bufs)),
            final(self).lines_closed(buf_texts(*bufs)),
            ({
                let ai = old(self).key_at(at);
                &&& (forall|x: int| 0 <= x < ai ==> #[trigger] final(self).order()[x] == old(self).order()[x])
                &&& (forall|x: int| 0 <= x < ai ==> #[trigger] final(self).rec(x) == old(self).rec(x))
                &&& ai < final(self).len()
                &&& final(self).order()[ai] == at
                &&& final(self).first_key() == old(self).first_key()
            }),
            // the repair in full: the spans shift right by `n` from the
            // edited record on (`mid`), then the edited logical line becomes
            // its canonical fragmentation (`wrap_post`)
            ({
                let texts = buf_texts(*bufs);
                let mid = r.1@;
                let ai = old(self).key_at(at);
                let bk = old(self).rec(ai).buffer_key;
                &&& mid.wf_links() && mid.wf_spans(texts)
                &&& mid.order() == old(self).order()
                &&& mid.key_at(at) == ai
                &&& mid.rec(ai) == (VLine {
                        end: (old(self).rec(ai).end + n) as usize,
                        ..old(self).rec(ai)
                    })
                &&& (forall|x: int| 0 <= x < old(self).len() && x != ai
                        && (#[trigger] old(self).rec(x)).buffer_key == bk && x > ai
                        ==> mid.rec(x) == (VLine {
                            start: (old(self).rec(x).start + n) as usize,
                            end: (old(self).rec(x).end + n) as usize,
                            ..old(self).rec(x)
                        }))
                &&& (forall|x: int| 0 <= x < old(self).len()
                        && ((#[trigger] old(self).rec(x)).buffer_key != bk || x < ai)
                        ==> mid.rec(x) == old(self).rec(x))
                &&& wrap_post(mid, *final(self), texts, at, wrap_at as int, r.0)
            }),
    {
        let ghost texts = buf_texts(*bufs);
        proof {
            self.lemma_key_at(at);
        }
        let ghost ai = self.key_at(at);
        let ghost pre0 = *self;
        let ghost bk0 = pre0.rec(ai).buffer_key;
        self.shift_tail(at, n, Ghost(texts), Ghost(pos as int));
        let ghost mid = *self;
        proof {
            lemma_shift_closure(pre0, mid, texts, pos as int, n as int, ai);
            mid.lemma_key_at(at);
            assert(mid.key_at(at) == ai) by {
                assert(mid.order()[ai] == at);
            }
            assert(mid.rec(ai).buffer_key == bk0);
            assert(mid.count() + texts[bk0].len() <= 0xffff_ffff);
        }
        let last = self.wrap(bufs, at, wrap_at);
        proof {
            lemma_wrap_lines_closed(mid, *self, texts, at, wrap_at as int, last);
            assert forall|x: int| 0 <= x < ai implies #[trigger] self.rec(x) == pre0.rec(x) by {
                assert(self.rec(x) == mid.rec(x));
                assert(mid.rec(x) == pre0.rec(x)) by {
                    if pre0.rec(x).buffer_key == bk0 && x > ai {
                        assert(false);
                    }
                }
            }
            assert forall|x: int| 0 <= x < ai implies #[trigger] self.order()[x] == pre0.order()[x] by {}
            assert(self.order()[ai] == at);
        }
        (last, Ghost(mid))
    }
}

/// A forward walk over the chain, one record at a time, by handle.
pub struct VLineIter {
    pub index: slotmap::DefaultKey,
}

impl VLines {
    /// Starts a walk at the given handle.
    #[inline(always)]
    pub fn iter(&self, index: slotmap::DefaultKey) -> (it: VLineIter)
        ensures
            it.index == index,
    {
        VLineIter { index }
    }
}

impl VLineIter {
    /// The record under the walk, advancing to its successor; `None` once
    /// the handle leaves the chain.
    pub fn next(&mut self, v: &VLines) -> (r: Option<(slotmap::DefaultKey, VLine)>)
        ensures
            match r {
                Some(p) => {
                    &&& v.slots().dom().contains(old(self).index)
                    &&& p.0 == old(self).index
                    &&& p.1 == v.slots()[old(self).index]
                    &&& final(self).index == p.1.next
                },
                None => !v.slots().dom().contains(old(self).index)
                    && *final(self) == *old(self),
            },
    {
        match v.get(self.index) {
            Some(line) => {
                let k = self.index;
                let l = *line;
                self.index = l.next;
                Some((k, l))
            }
            None => None,
        }
    }
}

} // verus!


