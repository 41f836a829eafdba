use vstd::prelude::*;

use crate::car::{Dir, Id};
use crate::grid::Grid;

verus! {

/// No cell is covered by two different vehicles.
pub open spec fn no_overlap(g: Grid) -> bool {
    forall|i: int, j: int, px: int, py: int|
        0 <= i < g.cars@.len() && 0 <= j < g.cars@.len() && i != j ==> !((
        #[trigger] g.cars@[i].occupies(px, py)) && (#[trigger] g.cars@[j].occupies(px, py)))
}

/// Every vehicle's cells lie inside `[0, width) x [0, height)`.
pub open spec fn all_within(g: Grid) -> bool {
    forall|i: int, px: int, py: int|
        0 <= i < g.cars@.len() && #[trigger] g.cars@[i].occupies(px, py) ==> 0 <= px < g.width && 0
            <= py < g.height
}

/// Move legality: from a board whose vehicles are pairwise disjoint and in
/// bounds, any generated move keeps the moved vehicle's cells disjoint from
/// every other vehicle's cells, and inside the board, except that the player
/// may cover the exit cell itself; every other pair stays disjoint too.
pub proof fn lemma_move_legality(a: Grid, id: Id, dir: Dir, b: Grid)
    requires
        a.wf(),
        no_overlap(a),
        all_within(a),
        a.move_ok(id, dir, b),
    ensures
        no_overlap(b),
        exists|i: int|
            0 <= i < b.cars@.len() && (#[trigger] b.cars@[i]).id == id && (forall|px: int, py: int|
                #[trigger] b.cars@[i].occupies(px, py) ==> (0 <= px < b.width && 0 <= py
                    < b.height) || (b.cars@[i].is_player_spec() && px == b.exit.0 && py
                    == b.exit.1)),
{
    let i = choose|i: int|
        0 <= i < a.cars@.len() && a.cars@[i].id == id && #[trigger] a.move_at_ok(i, dir, b);
    let c = a.cars@[i];
    let c2 = c.slid_spec(dir);
    let pos = match dir {
        Dir::Forward => c2.head_spec(),
        Dir::Backward => c2.tail_spec(),
    };
    assert(c.wf());
    assert(a.fits_spec(c2, pos));
    assert(b.cars@[i] == c2);
    // Each cell of the slid vehicle is an old cell or the newly entered one.
    assert forall|px: int, py: int|
        #[trigger] c2.occupies(px, py) implies c.occupies(px, py) || (px == pos.0 && py
        == pos.1) by {
        match dir {
            Dir::Forward => {
                if c.horizontal {
                    assert(c2.x == c.x - 1);
                } else {
                    assert(c2.y == c.y - 1);
                }
            },
            Dir::Backward => {
                if c.horizontal {
                    assert(c2.x == c.x + 1);
                    assert(pos.0 == c.x + c.length && pos.1 == c.y);
                } else {
                    assert(c2.y == c.y + 1);
                    assert(pos.0 == c.x && pos.1 == c.y + c.length);
                }
            },
        }
    }
    // The moved vehicle hits no other vehicle.
    assert forall|j: int, px: int, py: int|
        0 <= j < b.cars@.len() && j != i && #[trigger] b.cars@[j].occupies(px, py) implies !(
    #[trigger] b.cars@[i].occupies(px, py)) by {
        assert(b.cars@[j] == a.cars@[j]);
        assert(a.cars@[j].id != a.cars@[i].id);
        if b.cars@[i].occupies(px, py) {
            if c.occupies(px, py) {
                assert(a.cars@[i].occupies(px, py) && a.cars@[j].occupies(px, py));
                assert(false);
            } else {
                assert(px == pos.0 && py == pos.1);
                assert(!a.cars@[j].occupies(pos.0 as int, pos.1 as int));
                assert(false);
            }
        }
    }
    assert forall|j2: int, k2: int, px: int, py: int|
        0 <= j2 < b.cars@.len() && 0 <= k2 < b.cars@.len() && j2 != k2 implies !((
    #[trigger] b.cars@[j2].occupies(px, py)) && (#[trigger] b.cars@[k2].occupies(px, py))) by {
        if j2 != i && k2 != i {
            assert(b.cars@[j2] == a.cars@[j2] && b.cars@[k2] == a.cars@[k2]);
        }
    }
    // The moved vehicle stays on the board, or the player covers the exit.
    assert forall|px: int, py: int| #[trigger]
        b.cars@[i].occupies(px, py) implies (0 <= px < b.width && 0 <= py < b.height) || (
        b.cars@[i].is_player_spec() && px == b.exit.0 && py == b.exit.1) by {
        if c.occupies(px, py) {
            assert(a.cars@[i].occupies(px, py));
        } else {
            assert(px == pos.0 && py == pos.1);
            assert((c2.is_player_spec() && pos == a.exit) || (pos.0 < a.width && pos.1
                < a.height));
        }
    }
    assert(0 <= i < b.cars@.len() && b.cars@[i].id == id);
}

} // verus!
