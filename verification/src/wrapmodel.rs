//! The pure model of line wrapping: how a stretch of text that ends with a
//! terminator is cut into visual-line fragments at a given width.
//!
//! Policy: a logical line is cut after its terminator; an overlong line is
//! cut at exactly the wrap width, and the tail fragment is a continuation.

use vstd::prelude::*;

verus! {

/// Index of the first `'\n'` in `t`, or `t.len()` if there is none.
pub open spec fn first_nl(t: Seq<char>) -> int
    decreases t.len(),
{
    if t.len() == 0 {
        0
    } else if t[0] == '\n' {
        0
    } else {
        1 + first_nl(t.skip(1))
    }
}

pub proof fn lemma_first_nl(t: Seq<char>)
    ensures
        0 <= first_nl(t) <= t.len(),
        forall|i: int| 0 <= i < first_nl(t) ==> t[i] != '\n',
        first_nl(t) < t.len() ==> t[first_nl(t)] == '\n',
    decreases t.len(),
{
    if t.len() == 0 {
    } else if t[0] == '\n' {
    } else {
        lemma_first_nl(t.skip(1));
        assert forall|i: int| 0 <= i < first_nl(t) implies t[i] != '\n' by {
            if i >= 1 {
                assert(t.skip(1)[i - 1] != '\n');
            }
        }
        if first_nl(t) < t.len() {
            assert(t.skip(1)[first_nl(t) - 1] == '\n');
        }
    }
}

/// If `t` has a `'\n'` at `p` and none before it, `first_nl(t) == p`.
pub proof fn lemma_first_nl_is(t: Seq<char>, p: int)
    requires
        0 <= p < t.len(),
        t[p] == '\n',
        forall|i: int| 0 <= i < p ==> t[i] != '\n',
    ensures
        first_nl(t) == p,
{
    lemma_first_nl(t);
    if first_nl(t) < p {
        assert(t[first_nl(t)] != '\n');
    }
    if first_nl(t) > p {
        assert(t[p] != '\n');
    }
}

/// One visual-line fragment: its length and whether it is a continuation
/// (produced by width overflow rather than a terminator).
pub struct Frag {
    pub len: int,
    pub cont: bool,
}

/// The canonical fragmentation of `t` at width `w`, the first fragment
/// keeping the flag `head_cont` of the record being repaired.
pub open spec fn wrap_frags(t: Seq<char>, w: int, head_cont: bool) -> Seq<Frag>
    decreases t.len(),
{
    if t.len() == 0 {
        seq![]
    } else {
        let p = first_nl(t);
        if 0 <= p && p < t.len() && p <= w {
            seq![Frag { len: p + 1, cont: head_cont }] + wrap_frags(t.skip(p + 1), w, false)
        } else if 1 <= w && w < t.len() {
            seq![Frag { len: w, cont: head_cont }] + wrap_frags(t.skip(w), w, true)
        } else {
            seq![Frag { len: t.len() as int, cont: head_cont }]
        }
    }
}

/// Where fragment `i` starts: the sum of the lengths of fragments before it.
pub open spec fn frag_start(fs: Seq<Frag>, i: int) -> int
    decreases i,
{
    if i <= 0 {
        0
    } else {
        frag_start(fs, i - 1) + fs[i - 1].len
    }
}

pub proof fn lemma_frag_start_cons(x: Frag, rest: Seq<Frag>, i: int)
    requires
        0 <= i <= rest.len(),
    ensures
        frag_start(seq![x] + rest, i + 1) == x.len + frag_start(rest, i),
    decreases i,
{
    let fs = seq![x] + rest;
    if i > 0 {
        lemma_frag_start_cons(x, rest, i - 1);
        assert(fs[i] == rest[i - 1]);
        assert(frag_start(fs, i + 1) == frag_start(fs, i) + fs[i].len);
        assert(frag_start(rest, i) == frag_start(rest, i - 1) + rest[i - 1].len);
        assert(frag_start(fs, i + 1) == x.len + frag_start(rest, i));
    } else {
        assert(fs[0] == x);
        assert(frag_start(fs, 0) == 0);
        assert(frag_start(rest, 0) == 0);
        assert(frag_start(fs, 1) == frag_start(fs, 0) + fs[0].len);
        assert(frag_start(fs, 1) == x.len + frag_start(rest, 0));
    }
    assert(frag_start(seq![x] + rest, i + 1) == x.len + frag_start(rest, i));
}

/// Whether fragment `i` of the fragmentation of `t` is well shaped: a
/// fragment followed by a continuation is exactly `w` characters with no
/// terminator; any other fragment ends with the line's terminator, holds no
/// earlier terminator, and fits in `w + 1` columns.
pub open spec fn frag_shape_ok(t: Seq<char>, w: int, fs: Seq<Frag>, i: int) -> bool {
    let s = frag_start(fs, i);
    let l = fs[i].len;
    &&& l >= 1
    &&& if i + 1 < fs.len() && fs[i + 1].cont {
            l == w && forall|x: int| s <= x < s + l ==> t[x] != '\n'
        } else {
            t[s + l - 1] == '\n' && l <= w + 1 && forall|x: int| s <= x < s + l - 1 ==> t[x] != '\n'
        }
}

/// The wrap model is sound: fragments tile `t` exactly and each is well
/// shaped.
pub proof fn lemma_wrap_frags(t: Seq<char>, w: int, head_cont: bool)
    requires
        t.len() >= 1,
        t[t.len() - 1] == '\n',
        w >= 1,
    ensures
        wrap_frags(t, w, head_cont).len() >= 1,
        frag_start(wrap_frags(t, w, head_cont), wrap_frags(t, w, head_cont).len() as int) == t.len(),
        wrap_frags(t, w, head_cont)[0].cont == head_cont,
        forall|i: int| 0 <= i < wrap_frags(t, w, head_cont).len() ==>
            (#[trigger] wrap_frags(t, w, head_cont)[i]).len >= 1,
        forall|i: int| 0 <= i < wrap_frags(t, w, head_cont).len() ==>
            #[trigger] frag_shape_ok(t, w, wrap_frags(t, w, head_cont), i),
    decreases t.len(),
{
    lemma_first_nl(t);
    let p = first_nl(t);
    let fs = wrap_frags(t, w, head_cont);
    assert(p < t.len());
    if p < t.len() && p <= w {
        let head = Frag { len: p + 1, cont: head_cont };
        let t2 = t.skip(p + 1);
        let rest = wrap_frags(t2, w, false);
        assert(fs == seq![head] + rest);
        assert(fs[0] == head);
        if t2.len() == 0 {
            assert(p == t.len() - 1);
            assert(rest.len() == 0);
            assert(fs.len() == 1);
            lemma_frag_start_cons(head, rest, 0);
            assert(frag_start(fs, 1) == p + 1);
            assert(fs[0].len >= 1);
            assert(frag_shape_ok(t, w, fs, 0));
            assert(forall|i: int| 0 <= i < fs.len() ==> #[trigger] frag_shape_ok(t, w, fs, i));
        } else {
            assert(t2[t2.len() - 1] == t[t.len() - 1]);
            lemma_wrap_frags(t2, w, false);
            lemma_frag_start_cons(head, rest, rest.len() as int);
            assert(frag_start(fs, fs.len() as int) == p + 1 + t2.len());
            assert forall|i: int| 0 <= i < fs.len() implies (#[trigger] fs[i]).len >= 1 by {
                if i >= 1 {
                    assert(fs[i] == rest[i - 1]);
                }
            }
            assert(frag_shape_ok(t, w, fs, 0)) by {
                assert(!fs[1].cont);
                assert(t[p + 1 - 1] == '\n');
            }
            assert forall|i: int| 0 <= i < fs.len() implies #[trigger] frag_shape_ok(t, w, fs, i) by {
                if i >= 1 {
                    assert(frag_shape_ok(t2, w, rest, i - 1));
                    lemma_frag_start_cons(head, rest, i - 1);
                    lemma_frag_start_cons(head, rest, i);
                    assert(fs[i] == rest[i - 1]);
                    let s2 = frag_start(rest, i - 1);
                    let s = frag_start(fs, i);
                    assert(s == p + 1 + s2);
                    let l = rest[i - 1].len;
                    assert(s2 + l == frag_start(rest, i));
                    lemma_frag_start_mono(rest, 0, i - 1);
                    lemma_frag_start_mono(rest, i, rest.len() as int);
                    assert(s2 + l <= t2.len());
                    assert forall|x: int| s <= x < s + l implies t[x] == t2[x - (p + 1)] by {
                        assert(t2[x - (p + 1)] == t[x]);
                    }
                    if i + 1 < fs.len() && fs[i + 1].cont {
                        assert(rest[i].cont);
                    } else {
                        if i + 1 < rest.len() {
                            assert(fs[i + 1] == rest[i]);
                        }
                    }
                }
            }
        }
    } else {
        assert(p > w);
        assert(1 <= w && w < t.len());
        let head = Frag { len: w, cont: head_cont };
        let t2 = t.skip(w);
        let rest = wrap_frags(t2, w, true);
        assert(fs == seq![head] + rest);
        assert(fs[0] == head);
        assert(t2.len() >= 1);
        assert(t2[t2.len() - 1] == t[t.len() - 1]);
        lemma_wrap_frags(t2, w, true);
        lemma_frag_start_cons(head, rest, rest.len() as int);
        assert(frag_start(fs, fs.len() as int) == w + t2.len());
        assert forall|i: int| 0 <= i < fs.len() implies (#[trigger] fs[i]).len >= 1 by {
            if i >= 1 {
                assert(fs[i] == rest[i - 1]);
            }
        }
        assert(frag_shape_ok(t, w, fs, 0)) by {
            assert(fs[1] == rest[0]);
            assert(fs[1].cont);
            assert(forall|x: int| 0 <= x < w ==> t[x] != '\n');
        }
        assert forall|i: int| 0 <= i < fs.len() implies #[trigger] frag_shape_ok(t, w, fs, i) by {
            if i >= 1 {
                assert(frag_shape_ok(t2, w, rest, i - 1));
                lemma_frag_start_cons(head, rest, i - 1);
                lemma_frag_start_cons(head, rest, i);
                assert(fs[i] == rest[i - 1]);
                let s2 = frag_start(rest, i - 1);
                let s = frag_start(fs, i);
                assert(s == w + s2);
                let l = rest[i - 1].len;
                assert(s2 + l == frag_start(rest, i));
                lemma_frag_start_mono(rest, 0, i - 1);
                lemma_frag_start_mono(rest, i, rest.len() as int);
                assert(s2 + l <= t2.len());
                assert forall|x: int| s <= x < s + l implies t[x] == t2[x - w] by {
                    assert(t2[x - w] == t[x]);
                }
                if i + 1 < fs.len() && fs[i + 1].cont {
                    assert(rest[i].cont);
                } else {
                    if i + 1 < rest.len() {
                        assert(fs[i + 1] == rest[i]);
                    }
                }
            }
        }
    }
}

/// A stretch that is already a single valid visual line stays one fragment.
pub proof fn lemma_wrap_frags_single(t: Seq<char>, w: int, head_cont: bool)
    requires
        t.len() >= 1,
        t[t.len() - 1] == '\n',
        forall|i: int| 0 <= i < t.len() - 1 ==> t[i] != '\n',
        t.len() <= w + 1,
        w >= 1,
    ensures
        wrap_frags(t, w, head_cont) == seq![Frag { len: t.len() as int, cont: head_cont }],
{
    lemma_first_nl_is(t, t.len() - 1);
    let p = first_nl(t);
    assert(p == t.len() - 1);
    assert(p < t.len() && p <= w);
    let t2 = t.skip(p + 1);
    assert(t2.len() == 0);
    assert(wrap_frags(t2, w, false) == Seq::<Frag>::empty());
    assert(wrap_frags(t, w, head_cont) =~= seq![Frag { len: t.len() as int, cont: head_cont }]);
}

/// All fragment starts lie inside the text, in increasing order.
pub proof fn lemma_frag_start_mono(fs: Seq<Frag>, i: int, j: int)
    requires
        forall|x: int| 0 <= x < fs.len() ==> (#[trigger] fs[x]).len >= 1,
        0 <= i <= j <= fs.len(),
    ensures
        frag_start(fs, i) + (j - i) <= frag_start(fs, j),
        i < j ==> frag_start(fs, i) < frag_start(fs, j),
    decreases j - i,
{
    if i < j {
        lemma_frag_start_mono(fs, i, j - 1);
        assert(fs[j - 1].len >= 1);
    }
}

/// An executable fragment: the char range it covers (relative to the start
/// of the stretch being wrapped) and its continuation flag.
#[derive(Clone, Copy)]
pub struct FragRange {
    pub start: usize,
    pub end: usize,
    pub cont: bool,
}

/// Finds the first `'\n'` at or after `from` in `text`.
fn find_nl(text: &Vec<char>, from: usize) -> (r: usize)
    requires
        from <= text@.len(),
    ensures
        r == from + first_nl(text@.skip(from as int)),
        r <= text@.len(),
{
    proof {
        lemma_first_nl(text@.skip(from as int));
    }
    let mut i: usize = from;
    while i < text.len()
        invariant
            from <= i <= text@.len(),
            forall|x: int| from <= x < i ==> text@[x] != '\n',
        decreases text@.len() - i,
    {
        if text[i] == '\n' {
            proof {
                lemma_first_nl_is(text@.skip(from as int), i - from);
            }
            return i;
        }
        i += 1;
    }
    proof {
        let t = text@.skip(from as int);
        lemma_first_nl(t);
        if first_nl(t) < t.len() {
            assert(t[first_nl(t)] == '\n');
            assert(text@[from + first_nl(t)] == '\n');
        }
    }
    i
}

/// Cuts `text` (which ends with a terminator) into fragments at width `w`,
/// following the wrap model exactly.
#[verifier::loop_isolation(false)]
#[verifier::rlimit(100)]
#[verifier::spinoff_prover]
pub fn compute_fragments(text: &Vec<char>, w: usize, head_cont: bool) -> (frags: Vec<FragRange>)
    requires
        1 <= w,
        text@.len() >= 1,
        text@[text@.len() - 1] == '\n',
    ensures
        ({
            let fs = wrap_frags(text@, w as int, head_cont);
            &&& frags@.len() == fs.len()
            &&& forall|i: int| 0 <= i < fs.len() ==> {
                &&& (#[trigger] frags@[i]).start == frag_start(fs, i)
                &&& frags@[i].end == frag_start(fs, i + 1)
                &&& frags@[i].cont == fs[i].cont
            }
        }),
{
    let ghost whole = wrap_frags(text@, w as int, head_cont);
    let tlen: usize = text.len();
    let mut frags: Vec<FragRange> = Vec::new();
    let mut pos: usize = 0;
    let mut cont = head_cont;
    proof {
        lemma_wrap_frags(text@, w as int, head_cont);
        assert(text@.skip(0) =~= text@);
    }
    loop
        invariant
            1 <= w,
            tlen == text@.len(),
            text@.len() >= 1,
            text@[text@.len() - 1] == '\n',
            pos < text@.len(),
            whole == frags@.map_values(|f: FragRange| Frag { len: f.end - f.start, cont: f.cont })
                + wrap_frags(text@.skip(pos as int), w as int, cont),
            forall|i: int| 0 <= i < frags@.len() ==> {
                &&& (#[trigger] frags@[i]).start == frag_start(whole, i)
                &&& frags@[i].end == frag_start(whole, i + 1)
                &&& frags@[i].cont == whole[i].cont
            },
            pos == frag_start(whole, frags@.len() as int),
        decreases text@.len() - pos,
    {
        let ghost t = text@.skip(pos as int);
        let ghost fs_rest = wrap_frags(t, w as int, cont);
        proof {
            assert(t.len() >= 1);
            assert(t[t.len() - 1] == text@[text@.len() - 1]);
            lemma_first_nl(t);
            if first_nl(t) == t.len() {
                assert(t[t.len() - 1] != '\n');
            }
        }
        let nl = find_nl(text, pos);
        let ghost p = first_nl(t);
        proof {
            lemma_first_nl(t);
            if first_nl(t) == t.len() {
                assert(t[t.len() - 1] != '\n');
                assert(false);
            }
            assert(p < t.len());
            assert(nl == pos + p);
            assert(nl < text@.len());
        }
        let flen: usize;
        let next_cont: bool;
        if nl - pos <= w {
            flen = nl - pos + 1;
            next_cont = false;
        } else {
            flen = w;
            next_cont = true;
        }
        let head = FragRange { start: pos, end: pos + flen, cont };
        let ghost headf = Frag { len: flen as int, cont };
        let ghost rest2 = wrap_frags(text@.skip(pos + flen), w as int, next_cont);
        proof {
            assert(p < t.len());
            assert(t.skip(flen as int) =~= text@.skip(pos + flen));
            if nl - pos <= w {
                assert(p <= w);
                assert(fs_rest == seq![headf] + wrap_frags(t.skip(p + 1), w as int, false));
            } else {
                assert(p > w);
                assert(1 <= w && w < t.len());
                assert(fs_rest == seq![headf] + wrap_frags(t.skip(w as int), w as int, true));
            }
            assert(fs_rest == seq![headf] + rest2);
        }
        let ghost old_frags = frags@;
        frags.push(head);
        proof {
            let view = |f: FragRange| Frag { len: f.end - f.start, cont: f.cont };
            assert(frags@ == old_frags.push(head));
            assert(frags@.map_values(view) =~= old_frags.map_values(view).push(headf));
            assert(whole =~= frags@.map_values(view) + rest2);
            assert(whole[frags@.len() - 1] == headf);
            assert(frag_start(whole, frags@.len() as int)
                == frag_start(whole, frags@.len() - 1) + flen);
            assert forall|i: int| 0 <= i < frags@.len() implies {
                &&& (#[trigger] frags@[i]).start == frag_start(whole, i)
                &&& frags@[i].end == frag_start(whole, i + 1)
                &&& frags@[i].cont == whole[i].cont
            } by {
                if i < frags@.len() - 1 {
                    assert(old_frags[i] == frags@[i]);
                } else {
                    assert(frags@[i] == head);
                }
            }
        }
        if pos + flen >= text.len() {
            proof {
                assert(pos + flen == text@.len());
                assert(text@.skip(pos + flen).len() == 0);
                assert(rest2.len() == 0);
                let view = |f: FragRange| Frag { len: f.end - f.start, cont: f.cont };
                assert(whole =~= frags@.map_values(view));
                assert(whole.len() == frags@.len());
                assert(whole == wrap_frags(text@, w as int, head_cont));
                assert(frags@.len() == wrap_frags(text@, w as int, head_cont).len());
                assert(forall|i: int| 0 <= i < whole.len() ==> {
                    &&& (#[trigger] frags@[i]).start == frag_start(whole, i)
                    &&& frags@[i].end == frag_start(whole, i + 1)
                    &&& frags@[i].cont == whole[i].cont
                });
            }
            return frags;
        }
        pos = pos + flen;
        cont = next_cont;
    }
}

/// Insert/delete inverse, on the text: deleting the character just inserted
/// at `p` restores the original characters exactly.
pub proof fn lemma_edit_inverse_text(t: Seq<char>, p: int, c: char)
    requires
        0 <= p <= t.len(),
    ensures
        t.insert(p, c).take(p) + t.insert(p, c).skip(p + 1) == t,
{
    assert(t.insert(p, c).take(p) + t.insert(p, c).skip(p + 1) =~= t);
}

} // verus!
