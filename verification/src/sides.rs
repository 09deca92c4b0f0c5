//! Printing decisions: whether pages are imposed two to a sheet or only
//! reordered, the sheet size, and which sides are turned by half a turn so
//! that backs print the right way up on printers that flip on the short edge.
use vstd::prelude::*;

verus! {

/// Remainder of `a` divided by `m`, with the sign of `a` (Rust's `%`).
pub open spec fn trunc_rem(a: int, m: int) -> int {
    if a >= 0 {
        a % m
    } else {
        -((-a) % m)
    }
}

/// A page rotation (`Rotate`, in degrees) turned by half a turn.
pub open spec fn half_turn_spec(rotation: int) -> int {
    trunc_rem(rotation + 180, 360)
}

/// Turns a page rotation by half a turn: `(rotation + 180) % 360`.
pub fn half_turn(rotation: i64) -> (turned: i64)
    requires
        rotation <= i64::MAX - 180,
    ensures
        turned == half_turn_spec(rotation as int),
{
    (rotation + 180) % 360
}

/// Turning a rotation between 0 and 359 degrees twice by half a turn gives it
/// back; the turned value stays in that range.
pub proof fn lemma_half_turn_twice(rotation: int)
    requires
        0 <= rotation < 360,
    ensures
        0 <= half_turn_spec(rotation) < 360,
        half_turn_spec(half_turn_spec(rotation)) == rotation,
{
}

/// Whether printed sheet side `index` (counting from 0) is a back.
pub open spec fn is_back_side(index: int) -> bool {
    index % 2 != 0
}

/// Whether imposed sheet side `index` is turned by half a turn: backs are,
/// when backs are to be flipped.
pub fn imposed_side_turned(index: usize, flip_backs: bool) -> (turned: bool)
    ensures
        turned == (flip_backs && is_back_side(index as int)),
{
    let is_back = index % 2 != 0;
    is_back && flip_backs
}

/// Whether the page at position `position` of a reordered booklet lies on a
/// back: positions come in pairs, one pair to a side.
pub open spec fn on_back_side(position: int) -> bool {
    is_back_side(position / 2)
}

/// Whether the page at `position` of a reordered (not imposed) booklet is
/// turned by half a turn when backs are flipped.
pub fn reordered_page_turned(position: usize) -> (turned: bool)
    ensures
        turned == on_back_side(position as int),
{
    let pair_index = position / 2;
    pair_index % 2 != 0
}

/// A page in reordered output is turned exactly when the imposed side that
/// would carry it is turned: both follow the same front/back alternation.
pub proof fn lemma_reordered_follows_imposed(position: int)
    requires
        position >= 0,
    ensures
        on_back_side(position) == is_back_side(position / 2),
        on_back_side(2 * position) == on_back_side(2 * position + 1),
        on_back_side(4 * position) == false,
        on_back_side(4 * position + 2) == true,
{
    assert((2 * position) / 2 == position && (2 * position + 1) / 2 == position);
    assert((4 * position) / 2 == 2 * position && (4 * position + 2) / 2 == 2 * position + 1);
}

} // verus!
