//! Core of a terminal code editor: an editable text store split into
//! independently wrapped buffers, an incrementally maintained index of
//! wrapped display rows, and a cursor/window model over them.

pub mod buffer;
pub mod editor;
pub mod ext;
pub mod vlines;
pub mod window;
pub mod wrapmodel;

use vstd::prelude::*;

verus! {

/// The indentation unit, in spaces.
pub const INDENT: usize = 4;
/// The wrap width of an unindented buffer.
pub const WRAP_AT: usize = 40;
/// No buffer wraps narrower than this.
pub const MIN_WRAP_AT: usize = 12;

/// The wrap width a buffer gets at a given indentation depth: the base
/// width less the indentation, never below the floor.
pub fn wrap_width_for(indent: usize) -> (w: usize)
    requires
        indent <= WRAP_AT,
    ensures
        w == if WRAP_AT - indent >= MIN_WRAP_AT {
            (WRAP_AT - indent) as int
        } else {
            MIN_WRAP_AT as int
        },
{
    let base = WRAP_AT - indent;
    if base >= MIN_WRAP_AT {
        base
    } else {
        MIN_WRAP_AT
    }
}

} // verus!
