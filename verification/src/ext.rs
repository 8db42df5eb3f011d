//! Trusted boundary to the outside crates: `ropey` stores the character data,
//! `slotmap` stores the generation-checked handle tables (arenas).
//!
//! Every contract in this file is believed, not proved; each item's doc
//! comment names the outside function it relies on.

use vstd::prelude::*;

use crate::buffer::Buffer;
use crate::vlines::VLine;

verus! {

#[verifier::external_type_specification]
#[verifier::external_body]
pub struct ExRope(ropey::Rope);

#[verifier::external_type_specification]
#[verifier::external_body]
pub struct ExDefaultKey(slotmap::DefaultKey);

/// A `slotmap::SlotMap` arena of visual-line records. Verus refuses the map
/// type's own declaration (its key-trait bound), so the map sits in an opaque
/// struct and is reached only through the wrappers below.
#[verifier::external_body]
pub struct LineArena {
    inner: slotmap::SlotMap<slotmap::DefaultKey, VLine>,
}

/// A `slotmap::SlotMap` of buffers, held opaquely for the same reason.
#[verifier::external_body]
pub struct BufTable {
    inner: slotmap::SlotMap<slotmap::DefaultKey, Buffer>,
}

/// The characters a `ropey::Rope` holds, in order.
pub uninterp spec fn rope_text(r: ropey::Rope) -> Seq<char>;

/// What `slotmap::Key::is_null` returns for a key: whether its index is the
/// sentinel; such a key is invalid in every map.
pub uninterp spec fn key_is_null(k: slotmap::DefaultKey) -> bool;

/// The visual-line records the arena holds, keyed by their handles.
pub uninterp spec fn line_slots(m: LineArena) -> Map<slotmap::DefaultKey, VLine>;

/// How many user slots the visual-line arena has ever allocated, the map's
/// internal sentinel slot not counted (insertion fails only when this
/// reaches `0xffff_fffe`, the key type's index limit less the sentinel).
pub uninterp spec fn line_slot_count(m: LineArena) -> nat;

/// A slotmap never holds more entries than it has allocated slots.
pub open spec fn line_map_inv(m: LineArena) -> bool {
    line_slots(m).dom().finite() && line_slots(m).dom().len() <= line_slot_count(m)
}

/// The buffers the table holds, keyed by their handles.
pub uninterp spec fn buf_slots(m: BufTable) -> Map<slotmap::DefaultKey, Buffer>;

/// How many slots the buffer table has ever allocated.
pub uninterp spec fn buf_slot_count(m: BufTable) -> nat;

/// Relies on `slotmap::Key::null`: a key that is invalid in every map.
#[verifier::external_body]
pub fn key_null() -> (k: slotmap::DefaultKey)
    ensures
        key_is_null(k),
{
    <slotmap::DefaultKey as slotmap::Key>::null()
}

/// Relies on `slotmap::Key::is_null`.
#[verifier::external_body]
pub fn is_null(k: slotmap::DefaultKey) -> (r: bool)
    ensures
        r == key_is_null(k),
{
    <slotmap::DefaultKey as slotmap::Key>::is_null(&k)
}

/// Relies on the derived `PartialEq` of `slotmap::DefaultKey`, which compares
/// the underlying index and version fields.
#[verifier::external_body]
pub fn key_eq(a: slotmap::DefaultKey, b: slotmap::DefaultKey) -> (r: bool)
    ensures
        r == (a == b),
{
    a == b
}

/// Relies on `slotmap::SlotMap::new`: the new map is empty.
#[verifier::external_body]
pub fn line_map_new() -> (m: LineArena)
    ensures
        forall|k: slotmap::DefaultKey| !line_slots(m).dom().contains(k),
        line_slot_count(m) == 0,
        line_map_inv(m),
{
    LineArena { inner: slotmap::SlotMap::new() }
}

/// Relies on `slotmap::SlotMap::insert`: the returned key is fresh, non-null,
/// and now maps to the value; insertion fails (panics) only when the slots
/// vector, its internal sentinel slot included, has reached the key type's
/// `u32::MAX` index limit, that is at `0xffff_fffe` user slots.
#[verifier::external_body]
pub fn line_map_insert(m: &mut LineArena, v: VLine) -> (k: slotmap::DefaultKey)
    requires
        line_slot_count(*old(m)) < 0xffff_fffe,
    ensures
        !line_slots(*old(m)).dom().contains(k),
        !key_is_null(k),
        line_slots(*final(m)) == line_slots(*old(m)).insert(k, v),
        line_slot_count(*old(m)) <= line_slot_count(*final(m)) <= line_slot_count(*old(m)) + 1,
        line_map_inv(*old(m)) ==> line_map_inv(*final(m)),
{
    m.inner.insert(v)
}

/// Relies on `slotmap::SlotMap::get`: `Some` exactly for a contained key.
#[verifier::external_body]
pub fn line_map_get(m: &LineArena, k: slotmap::DefaultKey) -> (r: Option<&VLine>)
    ensures
        match r {
            Some(v) => line_slots(*m).dom().contains(k) && *v == line_slots(*m)[k],
            None => !line_slots(*m).dom().contains(k),
        },
{
    m.inner.get(k)
}

/// Relies on `slotmap::SlotMap::get_mut`: overwrites the value at a contained
/// key, touching no other entry.
#[verifier::external_body]
pub fn line_map_set(m: &mut LineArena, k: slotmap::DefaultKey, v: VLine)
    requires
        line_slots(*old(m)).dom().contains(k),
    ensures
        line_slots(*final(m)) == line_slots(*old(m)).insert(k, v),
        line_slot_count(*final(m)) == line_slot_count(*old(m)),
        line_map_inv(*old(m)) ==> line_map_inv(*final(m)),
{
    *m.inner.get_mut(k).unwrap() = v;
}

/// Relies on `slotmap::SlotMap::remove`: removes exactly the given key;
/// returns the removed value when the key was contained.
#[verifier::external_body]
pub fn line_map_remove(m: &mut LineArena, k: slotmap::DefaultKey) -> (r: Option<VLine>)
    ensures
        line_slots(*final(m)) == line_slots(*old(m)).remove(k),
        line_slot_count(*final(m)) == line_slot_count(*old(m)),
        line_map_inv(*old(m)) ==> line_map_inv(*final(m)),
        match r {
            Some(v) => line_slots(*old(m)).dom().contains(k) && v == line_slots(*old(m))[k],
            None => !line_slots(*old(m)).dom().contains(k),
        },
{
    m.inner.remove(k)
}

/// Relies on `slotmap::SlotMap::new`: the new map is empty.
#[verifier::external_body]
pub fn buf_map_new() -> (m: BufTable)
    ensures
        forall|k: slotmap::DefaultKey| !buf_slots(m).dom().contains(k),
        buf_slot_count(m) == 0,
{
    BufTable { inner: slotmap::SlotMap::new() }
}

/// Relies on `slotmap::SlotMap::insert` (see `line_map_insert`).
#[verifier::external_body]
pub fn buf_map_insert(m: &mut BufTable, v: Buffer) -> (k: slotmap::DefaultKey)
    requires
        buf_slot_count(*old(m)) < 0xffff_fffe,
    ensures
        !buf_slots(*old(m)).dom().contains(k),
        !key_is_null(k),
        buf_slots(*final(m)) == buf_slots(*old(m)).insert(k, v),
        buf_slot_count(*old(m)) <= buf_slot_count(*final(m)) <= buf_slot_count(*old(m)) + 1,
{
    m.inner.insert(v)
}

/// Relies on `slotmap::SlotMap::get` (see `line_map_get`).
#[verifier::external_body]
pub fn buf_map_get(m: &BufTable, k: slotmap::DefaultKey) -> (r: Option<&Buffer>)
    ensures
        match r {
            Some(v) => buf_slots(*m).dom().contains(k) && *v == buf_slots(*m)[k],
            None => !buf_slots(*m).dom().contains(k),
        },
{
    m.inner.get(k)
}

/// Relies on `slotmap::SlotMap::get_mut`: a contained key's value may be
/// replaced through the returned reference; no other entry changes.
#[verifier::external_body]
pub fn buf_map_get_mut(m: &mut BufTable, k: slotmap::DefaultKey) -> (r: &mut Buffer)
    requires
        buf_slots(*old(m)).dom().contains(k),
    ensures
        *r == buf_slots(*old(m))[k],
        buf_slots(*final(m)) == buf_slots(*old(m)).insert(k, *final(r)),
        buf_slot_count(*final(m)) == buf_slot_count(*old(m)),
{
    m.inner.get_mut(k).unwrap()
}

/// Relies on `ropey::Rope::from_str`: the rope holds exactly the given text.
#[verifier::external_body]
pub fn rope_from_chars(v: &Vec<char>) -> (r: ropey::Rope)
    ensures
        rope_text(r) == v@,
{
    ropey::Rope::from_str(&v.iter().collect::<String>())
}

/// Relies on `ropey::Rope::len_chars`.
#[verifier::external_body]
pub fn rope_len(r: &ropey::Rope) -> (n: usize)
    ensures
        n == rope_text(*r).len(),
{
    r.len_chars()
}

/// Relies on `ropey::Rope::char`, defined for every index below the length.
#[verifier::external_body]
pub fn rope_char_at(r: &ropey::Rope, i: usize) -> (c: char)
    requires
        i < rope_text(*r).len(),
    ensures
        c == rope_text(*r)[i as int],
{
    r.char(i)
}

/// Relies on `ropey::Rope::insert_char`: inserts one character at a char
/// index no greater than the length.
#[verifier::external_body]
pub fn rope_insert_char(r: &mut ropey::Rope, i: usize, c: char)
    requires
        i <= rope_text(*old(r)).len(),
    ensures
        rope_text(*final(r)) == rope_text(*old(r)).insert(i as int, c),
{
    r.insert_char(i, c)
}


/// Relies on `ropey::Rope::insert`: inserts the text at a char index no
/// greater than the length.
#[verifier::external_body]
pub fn rope_insert_text(r: &mut ropey::Rope, i: usize, v: &Vec<char>)
    requires
        i <= rope_text(*old(r)).len(),
    ensures
        rope_text(*final(r)) == rope_text(*old(r)).take(i as int) + v@ + rope_text(*old(r)).skip(i as int),
{
    r.insert(i, &v.iter().collect::<String>())
}

/// Relies on `ropey::Rope::slice` and the `Chars` iterator: the chars of the
/// char range `s..e`, in order.
#[verifier::external_body]
pub fn rope_chars_range(r: &ropey::Rope, s: usize, e: usize) -> (v: Vec<char>)
    requires
        s <= e <= rope_text(*r).len(),
    ensures
        v@ == rope_text(*r).subrange(s as int, e as int),
{
    r.slice(s..e).chars().collect()
}

/// Relies on `str::chars`: the characters of the text, in order.
#[verifier::external_body]
pub fn str_chars(s: &str) -> (v: Vec<char>)
    ensures
        v@ == s@,
{
    s.chars().collect()
}

} // verus!
