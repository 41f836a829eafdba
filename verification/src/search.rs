use vstd::prelude::*;

use crate::car::{Car, Dir, Id, MoveDir};
use crate::grid::{dir2_of, dir4_of, edge, g_eq, is_cmove, lemma_move_bounded, lemma_move_diff, lemma_move_preserves, origins_bounded, skel_eq, Grid};

verus! {

/// One atomic move: a named vehicle slides one cell in a cardinal direction.
pub type AtomicMove = (Id, MoveDir);

/// A run of `count` consecutive atomic moves of one vehicle in one
/// direction.
#[derive(PartialEq, Eq, Structural, Clone, Copy, Debug)]
pub struct Step {
    pub id: Id,
    pub dir: MoveDir,
    pub count: usize,
}

/// `count` copies of one atomic move.
pub open spec fn repeat_move(m: AtomicMove, count: nat) -> Seq<AtomicMove> {
    Seq::new(count, |k: int| m)
}

/// The atomic moves that a step sequence stands for.
pub open spec fn decompress(steps: Seq<Step>) -> Seq<AtomicMove>
    decreases steps.len(),
{
    if steps.len() == 0 {
        Seq::empty()
    } else {
        decompress(steps.drop_last()) + repeat_move(
            (steps.last().id, steps.last().dir),
            steps.last().count as nat,
        )
    }
}

/// Proper run-length encoding: positive counts, and no two adjacent steps
/// with the same vehicle and direction.
pub open spec fn steps_wf(steps: Seq<Step>) -> bool {
    &&& forall|k: int| 0 <= k < steps.len() ==> (#[trigger] steps[k]).count >= 1
    &&& forall|k: int|
        #![trigger steps[k], steps[k + 1]]
        0 <= k && k + 1 < steps.len() ==> !(steps[k].id == steps[k + 1].id && steps[k].dir
            == steps[k + 1].dir)
}

/// The atomic moves `ms`, applied in order, lead from board `a` to board
/// `b`, each step being a legal slide.
pub open spec fn is_path(a: Grid, ms: Seq<AtomicMove>, b: Grid) -> bool
    decreases ms.len(),
{
    if ms.len() == 0 {
        g_eq(a, b)
    } else {
        exists|mid: Grid| #[trigger] is_cmove(a, ms[0].0, ms[0].1, mid) && is_path(mid, ms.drop_first(), b)
    }
}

/// A legal slide out of `a` is also a legal slide out of any board equal to
/// `a`.
pub proof fn lemma_move_ok_g_eq(a: Grid, a2: Grid, id: Id, dir: Dir, b: Grid)
    requires
        g_eq(a, a2),
        a.move_ok(id, dir, b),
    ensures
        a2.move_ok(id, dir, b),
{
    let i = choose|i: int|
        0 <= i < a.cars@.len() && a.cars@[i].id == id && #[trigger] a.move_at_ok(i, dir, b);
    assert(a2.cars@ == a.cars@);
    assert(a2.move_at_ok(i, dir, b));
}

/// The same, for a cardinal atomic move.
pub proof fn lemma_cmove_g_eq(a: Grid, a2: Grid, id: Id, d: MoveDir, b: Grid)
    requires
        g_eq(a, a2),
        is_cmove(a, id, d, b),
    ensures
        is_cmove(a2, id, d, b),
{
    let i = choose|i: int|
        0 <= i < a.cars@.len() && a.cars@[i].id == id && axis_ok_of(a, i, d) && #[trigger] a.move_at_ok(
            i,
            crate::grid::dir2_of(d),
            b,
        );
    assert(a2.cars@ == a.cars@);
    assert(a2.move_at_ok(i, crate::grid::dir2_of(d), b));
}

/// The vehicle at index `i` can move cardinally in `d` along its own axis.
pub open spec fn axis_ok_of(a: Grid, i: int, d: MoveDir) -> bool {
    crate::grid::axis_ok(a.cars@[i], d)
}

/// A path out of `a` is also a path out of any board equal to `a`.
pub proof fn lemma_is_path_g_eq(a: Grid, a2: Grid, ms: Seq<AtomicMove>, b: Grid)
    requires
        g_eq(a, a2),
        is_path(a, ms, b),
    ensures
        is_path(a2, ms, b),
    decreases ms.len(),
{
    if ms.len() == 0 {
        assert(g_eq(a2, b));
    } else {
        let mid = choose|mid: Grid| #[trigger]
            is_cmove(a, ms[0].0, ms[0].1, mid) && is_path(mid, ms.drop_first(), b)
        ;
        lemma_cmove_g_eq(a, a2, ms[0].0, ms[0].1, mid);
        assert(is_cmove(a2, ms[0].0, ms[0].1, mid) && is_path(mid, ms.drop_first(), b));
    }
}

/// Path continuity is deterministic: replaying one move sequence from one
/// well-formed board can only arrive at one board.
pub proof fn lemma_path_deterministic(a: Grid, ms: Seq<AtomicMove>, b1: Grid, b2: Grid)
    requires
        a.wf(),
        is_path(a, ms, b1),
        is_path(a, ms, b2),
    ensures
        g_eq(b1, b2),
    decreases ms.len(),
{
    if ms.len() == 0 {
    } else {
        let m1 = choose|mid: Grid| #[trigger]
            is_cmove(a, ms[0].0, ms[0].1, mid) && is_path(mid, ms.drop_first(), b1)
        ;
        let m2 = choose|mid: Grid| #[trigger]
            is_cmove(a, ms[0].0, ms[0].1, mid) && is_path(mid, ms.drop_first(), b2)
        ;
        let i1 = choose|i: int|
            0 <= i < a.cars@.len() && a.cars@[i].id == ms[0].0 && axis_ok_of(a, i, ms[0].1)
                && #[trigger] a.move_at_ok(i, dir2_of(ms[0].1), m1);
        let i2 = choose|i: int|
            0 <= i < a.cars@.len() && a.cars@[i].id == ms[0].0 && axis_ok_of(a, i, ms[0].1)
                && #[trigger] a.move_at_ok(i, dir2_of(ms[0].1), m2);
        assert(a.move_ok(ms[0].0, dir2_of(ms[0].1), m1));
        assert(a.move_ok(ms[0].0, dir2_of(ms[0].1), m2));
        crate::grid::lemma_move_functional(a, ms[0].0, dir2_of(ms[0].1), m1, m2);
        crate::grid::lemma_move_preserves(a, ms[0].0, dir2_of(ms[0].1), m1);
        lemma_is_path_g_eq(m2, m1, ms.drop_first(), b2);
        lemma_path_deterministic(m1, ms.drop_first(), b1, b2);
    }
}

/// Appending one further legal move to a path keeps it a path.
pub proof fn lemma_is_path_push(a: Grid, ms: Seq<AtomicMove>, m: Grid, id: Id, d: MoveDir, b: Grid)
    requires
        is_path(a, ms, m),
        is_cmove(m, id, d, b),
    ensures
        is_path(a, ms.push((id, d)), b),
    decreases ms.len(),
{
    let ms2 = ms.push((id, d));
    if ms.len() == 0 {
        lemma_cmove_g_eq(m, a, id, d, b);
        assert(ms2[0] == (id, d));
        assert(ms2.drop_first() =~= Seq::<AtomicMove>::empty());
        assert(is_cmove(a, ms2[0].0, ms2[0].1, b) && is_path(b, ms2.drop_first(), b));
    } else {
        let mid = choose|mid: Grid| #[trigger]
            is_cmove(a, ms[0].0, ms[0].1, mid) && is_path(mid, ms.drop_first(), m)
        ;
        lemma_is_path_push(mid, ms.drop_first(), m, id, d, b);
        assert(ms2.drop_first() =~= ms.drop_first().push((id, d)));
        assert(ms2[0] == ms[0]);
        assert(is_cmove(a, ms2[0].0, ms2[0].1, mid) && is_path(mid, ms2.drop_first(), b));
    }
}

/// Decoding after extending the last run by one move appends that move.
proof fn lemma_decompress_bump(old_r: Seq<Step>, r2: Seq<Step>, m: AtomicMove)
    requires
        old_r.len() > 0,
        old_r.last().id == m.0,
        old_r.last().dir == m.1,
        old_r.last().count + 1 <= usize::MAX,
        r2 == old_r.update(old_r.len() - 1, Step { id: m.0, dir: m.1, count: (old_r.last().count + 1) as usize }),
    ensures
        decompress(r2) == decompress(old_r).push(m),
        r2.len() == old_r.len(),
        r2.last().id == old_r.last().id,
        r2.last().dir == old_r.last().dir,
        r2.last().count == old_r.last().count + 1,
        forall|k: int| 0 <= k < old_r.len() - 1 ==> #[trigger] r2[k] == old_r[k],
    decreases old_r.len(),
{
    assert(r2.len() == old_r.len());
    assert(r2.drop_last() =~= old_r.drop_last());
    assert(r2.last() == Step { id: m.0, dir: m.1, count: (old_r.last().count + 1) as usize });
    assert(repeat_move(m, (old_r.last().count + 1) as nat) =~= repeat_move(
        m,
        old_r.last().count as nat,
    ).push(m));
    assert(decompress(r2) =~= decompress(old_r).push(m));
}

/// Decoding after starting a new run of one appends that move.
proof fn lemma_decompress_push(old_r: Seq<Step>, r2: Seq<Step>, id: Id, dir: MoveDir)
    requires
        r2 == old_r.push(Step { id, dir, count: 1 }),
    ensures
        decompress(r2) == decompress(old_r).push((id, dir)),
        r2.len() == old_r.len() + 1,
        r2.last().id == id,
        r2.last().dir == dir,
        r2.last().count == 1,
        forall|k: int| 0 <= k < old_r.len() ==> #[trigger] r2[k] == old_r[k],
{
    assert(r2.len() == old_r.len() + 1);
    assert(r2.drop_last() =~= old_r);
    assert(r2.last() == Step { id, dir, count: 1 });
    assert(repeat_move((id, dir), 1 as nat) =~= Seq::<AtomicMove>::empty().push((id, dir)));
    assert(decompress(r2) =~= decompress(old_r).push((id, dir)));
}

/// Run-length-encodes a move sequence; decoding the result gives back
/// exactly the input, and no two adjacent steps share vehicle and direction.
pub fn compress_moves(moves: &Vec<AtomicMove>) -> (r: Vec<Step>)
    ensures
        decompress(r@) == moves@,
        steps_wf(r@),
{
    let mut r: Vec<Step> = Vec::new();
    let mut i: usize = 0;
    proof {
        assert(decompress(r@) =~= moves@.subrange(0, 0));
    }
    while i < moves.len()
        invariant
            i <= moves@.len(),
            steps_wf(r@),
            decompress(r@) == moves@.subrange(0, i as int),
            r@.len() == 0 ==> i == 0,
            r@.len() > 0 ==> i > 0 && r@.last().id == moves@[i - 1].0 && r@.last().dir
                == moves@[i - 1].1 && r@.last().count <= i,
        decreases moves@.len() - i,
    {
        let m = moves[i];
        let mc = m.0;
        let md = m.1;
        let rlen = r.len();
        let mut merged = false;
        if rlen > 0 {
            let last = r[rlen - 1];
            if last.id == mc && last.dir == md {
                let ghost old_r = r@;
                r[rlen - 1] = Step { id: last.id, dir: last.dir, count: last.count + 1 };
                merged = true;
                proof {
                    lemma_decompress_bump(old_r, r@, m);
                    assert(moves@.subrange(0, i + 1) =~= moves@.subrange(0, i as int).push(m));
                    assert forall|k: int| 0 <= k < r@.len() implies (#[trigger] r@[k]).count
                        >= 1 by {
                        if k < r@.len() - 1 {
                            assert(r@[k] == old_r[k]);
                        }
                    }
                    assert forall|k: int|
                        #![trigger r@[k], r@[k + 1]]
                        0 <= k && k + 1 < r@.len() implies !(r@[k].id == r@[k + 1].id && r@[k].dir
                        == r@[k + 1].dir) by {
                        if k + 1 < r@.len() - 1 {
                            assert(r@[k] == old_r[k] && r@[k + 1] == old_r[k + 1]);
                        } else {
                            assert(r@[k] == old_r[k]);
                        }
                    }
                }
            }
        }
        if !merged {
            let ghost old_r = r@;
            r.push(Step { id: mc, dir: md, count: 1 });
            proof {
                lemma_decompress_push(old_r, r@, mc, md);
                assert((mc, md) == m);
                assert(moves@.subrange(0, i + 1) =~= moves@.subrange(0, i as int).push(m));
                assert forall|k: int| 0 <= k < r@.len() implies (#[trigger] r@[k]).count >= 1 by {
                    if k < r@.len() - 1 {
                        assert(r@[k] == old_r[k]);
                    }
                }
                assert forall|k: int|
                    #![trigger r@[k], r@[k + 1]]
                    0 <= k && k + 1 < r@.len() implies !(r@[k].id == r@[k + 1].id && r@[k].dir
                    == r@[k + 1].dir) by {
                    if k + 1 < r@.len() - 1 {
                        assert(r@[k] == old_r[k] && r@[k + 1] == old_r[k + 1]);
                    } else {
                        assert(r@[k] == old_r[k]);
                    }
                }
            }
        }
        i = i + 1;
    }
    proof {
        assert(moves@.subrange(0, moves@.len() as int) =~= moves@);
    }
    r
}

/// The larger of two integers.
pub open spec fn imax(a: int, b: int) -> int {
    if a > b {
        a
    } else {
        b
    }
}

/// The largest x origin among the vehicles.
pub open spec fn seq_max_x(cars: Seq<Car>) -> int
    decreases cars.len(),
{
    if cars.len() == 0 {
        0
    } else {
        imax(seq_max_x(cars.drop_last()), cars.last().x as int)
    }
}

/// The largest y origin among the vehicles.
pub open spec fn seq_max_y(cars: Seq<Car>) -> int
    decreases cars.len(),
{
    if cars.len() == 0 {
        0
    } else {
        imax(seq_max_y(cars.drop_last()), cars.last().y as int)
    }
}

/// A strict x bound that no reachable origin can pass.
pub open spec fn bx_of(g: Grid) -> int {
    imax(g.width as int, imax(g.exit.0 + 1, seq_max_x(g.cars@) + 1))
}

/// A strict y bound that no reachable origin can pass.
pub open spec fn by_of(g: Grid) -> int {
    imax(g.height as int, imax(g.exit.1 + 1, seq_max_y(g.cars@) + 1))
}

proof fn lemma_seq_max(cars: Seq<Car>, i: int)
    requires
        0 <= i < cars.len(),
    ensures
        cars[i].x <= seq_max_x(cars),
        cars[i].y <= seq_max_y(cars),
    decreases cars.len(),
{
    if i < cars.len() - 1 {
        lemma_seq_max(cars.drop_last(), i);
        assert(cars.drop_last()[i] == cars[i]);
    }
}

/// The bounds derived from a board do bound that board, and dominate its
/// geometry.
pub proof fn lemma_root_bounded(g: Grid)
    ensures
        origins_bounded(g, bx_of(g), by_of(g)),
        bx_of(g) >= g.width,
        bx_of(g) > g.exit.0,
        by_of(g) >= g.height,
        by_of(g) > g.exit.1,
        bx_of(g) >= 1,
        by_of(g) >= 1,
{
    assert forall|i: int|
        0 <= i < g.cars@.len() implies (#[trigger] g.cars@[i]).x < bx_of(g) && g.cars@[i].y
        < by_of(g) by {
        lemma_seq_max(g.cars@, i);
    }
}

/// A base-`bx * by` positional encoding of all the origins.
pub open spec fn enc_cars(cars: Seq<Car>, bx: int, by: int) -> int
    decreases cars.len(),
{
    if cars.len() == 0 {
        0
    } else {
        enc_cars(cars.drop_last(), bx, by) * (bx * by) + (cars.last().x as int) * by + (
        cars.last().y as int)
    }
}

/// `b` to the power `n`.
pub open spec fn pow_int(b: int, n: nat) -> int
    decreases n,
{
    if n == 0 {
        1
    } else {
        b * pow_int(b, (n - 1) as nat)
    }
}

proof fn lemma_pow_pos(b: int, n: nat)
    requires
        b >= 1,
    ensures
        pow_int(b, n) >= 1,
    decreases n,
{
    if n > 0 {
        lemma_pow_pos(b, (n - 1) as nat);
        assert(b * pow_int(b, (n - 1) as nat) >= 1) by (nonlinear_arith)
            requires
                b >= 1,
                pow_int(b, (n - 1) as nat) >= 1,
        ;
    }
}

proof fn lemma_enc_bounds(cars: Seq<Car>, bx: int, by: int)
    requires
        bx >= 1,
        by >= 1,
        forall|i: int| 0 <= i < cars.len() ==> (#[trigger] cars[i]).x < bx && cars[i].y < by,
    ensures
        0 <= enc_cars(cars, bx, by) < pow_int(bx * by, cars.len()),
    decreases cars.len(),
{
    if cars.len() == 0 {
    } else {
        let rest = cars.drop_last();
        assert forall|i: int|
            0 <= i < rest.len() implies (#[trigger] rest[i]).x < bx && rest[i].y < by by {
            assert(rest[i] == cars[i]);
        }
        lemma_enc_bounds(rest, bx, by);
        let e = enc_cars(rest, bx, by);
        let x = cars.last().x as int;
        let y = cars.last().y as int;
        let kk = bx * by;
        let p = pow_int(kk, rest.len());
        assert(kk >= 1) by (nonlinear_arith)
            requires
                bx >= 1,
                by >= 1,
                kk == bx * by,
        ;
        lemma_pow_pos(kk, rest.len());
        assert(pow_int(kk, cars.len()) == kk * p);
        assert(0 <= x * by + y < kk) by (nonlinear_arith)
            requires
                0 <= x < bx,
                0 <= y < by,
                bx >= 1,
                by >= 1,
                kk == bx * by,
        ;
        assert(0 <= e * kk + x * by + y < kk * p) by (nonlinear_arith)
            requires
                0 <= e < p,
                0 <= x * by + y < kk,
                kk >= 1,
                p >= 1,
        ;
    }
}

proof fn lemma_enc_inj(s1: Seq<Car>, s2: Seq<Car>, bx: int, by: int)
    requires
        s1.len() == s2.len(),
        bx >= 1,
        by >= 1,
        forall|i: int| 0 <= i < s1.len() ==> (#[trigger] s1[i]).x < bx && s1[i].y < by,
        forall|i: int| 0 <= i < s2.len() ==> (#[trigger] s2[i]).x < bx && s2[i].y < by,
        enc_cars(s1, bx, by) == enc_cars(s2, bx, by),
    ensures
        forall|i: int| 0 <= i < s1.len() ==> (#[trigger] s1[i]).x == s2[i].x && s1[i].y == s2[i].y,
    decreases s1.len(),
{
    if s1.len() == 0 {
    } else {
        let r1 = s1.drop_last();
        let r2 = s2.drop_last();
        assert forall|i: int|
            0 <= i < r1.len() implies (#[trigger] r1[i]).x < bx && r1[i].y < by by {
            assert(r1[i] == s1[i]);
        }
        assert forall|i: int|
            0 <= i < r2.len() implies (#[trigger] r2[i]).x < bx && r2[i].y < by by {
            assert(r2[i] == s2[i]);
        }
        lemma_enc_bounds(r1, bx, by);
        lemma_enc_bounds(r2, bx, by);
        let e1 = enc_cars(r1, bx, by);
        let e2 = enc_cars(r2, bx, by);
        let x1 = s1.last().x as int;
        let y1 = s1.last().y as int;
        let x2 = s2.last().x as int;
        let y2 = s2.last().y as int;
        let kk = bx * by;
        assert(0 <= x1 * by + y1 < kk && 0 <= x2 * by + y2 < kk) by (nonlinear_arith)
            requires
                0 <= x1 < bx,
                0 <= y1 < by,
                0 <= x2 < bx,
                0 <= y2 < by,
                kk == bx * by,
        ;
        assert(e1 == e2 && x1 * by + y1 == x2 * by + y2) by (nonlinear_arith)
            requires
                e1 * kk + x1 * by + y1 == e2 * kk + x2 * by + y2,
                0 <= x1 * by + y1 < kk,
                0 <= x2 * by + y2 < kk,
        ;
        assert(x1 == x2 && y1 == y2) by (nonlinear_arith)
            requires
                x1 * by + y1 == x2 * by + y2,
                0 <= y1 < by,
                0 <= y2 < by,
        ;
        lemma_enc_inj(r1, r2, bx, by);
        assert forall|i: int|
            0 <= i < s1.len() implies (#[trigger] s1[i]).x == s2[i].x && s1[i].y == s2[i].y by {
            if i < s1.len() - 1 {
                assert(r1[i] == s1[i] && r2[i] == s2[i]);
            }
        }
    }
}

/// The record of one discovered board and the index it was reached from.
pub type SearchRecord = (Grid, Option<usize>);

/// Some entry of the visited list holds this very board.
pub open spec fn in_visited(v: Seq<SearchRecord>, g: Grid) -> bool {
    exists|k: int| 0 <= k < v.len() && g_eq((#[trigger] v[k]).0, g)
}

/// Entry `j` is sound: a well-formed board whose recorded parent precedes it
/// and reaches it by one legal slide.
pub open spec fn entry_ok(v: Seq<SearchRecord>, j: int) -> bool {
    &&& v[j].0.wf()
    &&& match v[j].1 {
        None => true,
        Some(p) => p < j && edge(v[p as int].0, v[j].0),
    }
}

/// Every entry of the visited list is sound.
pub open spec fn visited_wf(v: Seq<SearchRecord>) -> bool {
    forall|j: int| 0 <= j < v.len() ==> #[trigger] entry_ok(v, j)
}

/// Every slide out of any recorded board stays inside the visited list.
pub open spec fn closed(v: Seq<SearchRecord>) -> bool {
    forall|j: int, id: Id, dir: Dir, g2: Grid|
        0 <= j < v.len() && (#[trigger] v[j].0.move_ok(id, dir, g2)) ==> in_visited(v, g2)
}

/// The root of the parent chain starting at entry `j`.
pub open spec fn chain_root(v: Seq<SearchRecord>, j: int) -> int
    decreases
            (if j >= 0 {
                j
            } else {
                0
            }),
{
    if 0 <= j < v.len() {
        match v[j].1 {
            None => j,
            Some(p) => if p < j {
                chain_root(v, p as int)
            } else {
                j
            },
        }
    } else {
        j
    }
}

/// The number of edges on the parent chain from entry `j` to its root.
pub open spec fn chain_len(v: Seq<SearchRecord>, j: int) -> int
    decreases
            (if j >= 0 {
                j
            } else {
                0
            }),
{
    if 0 <= j < v.len() {
        match v[j].1 {
            None => 0,
            Some(p) => if p < j {
                1 + chain_len(v, p as int)
            } else {
                0
            },
        }
    } else {
        0
    }
}

proof fn lemma_chain_root_zero(v: Seq<SearchRecord>, j: int)
    requires
        visited_wf(v),
        0 <= j < v.len(),
        v[0].1 is None,
        forall|t: int| 1 <= t < v.len() ==> (#[trigger] v[t]).1 is Some,
    ensures
        chain_root(v, j) == 0,
    decreases j,
{
    if j > 0 {
        assert(entry_ok(v, j));
        let p = v[j].1->0;
        lemma_chain_root_zero(v, p as int);
    }
}

/// Appending an entry cannot remove a board from the visited list.
proof fn lemma_in_visited_extend(v: Seq<SearchRecord>, e: SearchRecord, g: Grid)
    requires
        in_visited(v, g),
    ensures
        in_visited(v.push(e), g),
{
    let k = choose|k: int| 0 <= k < v.len() && g_eq((#[trigger] v[k]).0, g);
    assert(v.push(e)[k] == v[k]);
}

/// Two equal boards are solved together.
proof fn lemma_solved_g_eq(a: Grid, b: Grid)
    requires
        g_eq(a, b),
    ensures
        a.solved_spec() == b.solved_spec(),
{
    assert(b.cars@ == a.cars@);
}

/// Board skeleton equality is transitive.
proof fn lemma_skel_trans(a: Grid, b: Grid, c: Grid)
    requires
        skel_eq(a, b),
        skel_eq(b, c),
    ensures
        skel_eq(a, c),
{
    assert forall|i: int|
        0 <= i < a.cars@.len() implies ((#[trigger] a.cars@[i]).id == c.cars@[i].id
        && a.cars@[i].car_type == c.cars@[i].car_type && a.cars@[i].length == c.cars@[i].length
        && a.cars@[i].horizontal == c.cars@[i].horizontal) by {
        assert(a.cars@[i].id == b.cars@[i].id);
        assert(b.cars@[i].id == c.cars@[i].id);
    }
}

/// Distinct boards of one skeleton within the origin bounds cannot outnumber
/// the positional encodings available to them.
proof fn lemma_visited_cap(v: Seq<SearchRecord>, root: Grid)
    requires
        forall|j: int| 0 <= j < v.len() ==> skel_eq(root, (#[trigger] v[j]).0),
        forall|j: int|
            0 <= j < v.len() ==> origins_bounded((#[trigger] v[j]).0, bx_of(root), by_of(root)),
        forall|j: int, k: int|
            0 <= j < k < v.len() ==> !g_eq((#[trigger] v[j]).0, (#[trigger] v[k]).0),
    ensures
        v.len() <= pow_int(bx_of(root) * by_of(root), root.cars@.len()),
{
    let bx = bx_of(root);
    let by = by_of(root);
    let cap = pow_int(bx * by, root.cars@.len());
    lemma_root_bounded(root);
    let es = Seq::new(v.len(), |j: int| enc_cars(v[j].0.cars@, bx, by));
    assert forall|j: int, k: int|
        0 <= j < v.len() && 0 <= k < v.len() && j != k implies es[j] != es[k] by {
        let (j2, k2) = if j < k {
            (j, k)
        } else {
            (k, j)
        };
        if es[j2] == es[k2] {
            assert(v[j2].0.cars@.len() == root.cars@.len() && v[k2].0.cars@.len()
                == root.cars@.len());
            lemma_enc_inj(v[j2].0.cars@, v[k2].0.cars@, bx, by);
            assert forall|i: int|
                0 <= i < v[j2].0.cars@.len() implies #[trigger] v[j2].0.cars@[i]
                == v[k2].0.cars@[i] by {
                assert(root.cars@[i].id == v[j2].0.cars@[i].id);
                assert(root.cars@[i].id == v[k2].0.cars@[i].id);
            }
            assert(v[j2].0.cars@ =~= v[k2].0.cars@);
            assert(g_eq(v[j2].0, v[k2].0));
            assert(false);
        }
    }
    assert(es.no_duplicates());
    es.unique_seq_to_set();
    assert forall|e: int| es.to_set().contains(e) implies 0 <= e < cap by {
        let idx = choose|idx: int| 0 <= idx < es.len() && es[idx] == e;
        lemma_enc_bounds(v[idx].0.cars@, bx, by);
    }
    assert(bx * by >= 1) by (nonlinear_arith)
        requires
            bx >= 1,
            by >= 1,
    ;

    lemma_pow_pos(bx * by, root.cars@.len());
    vstd::set_lib::lemma_int_range(0, cap);
    assert(es.to_set().subset_of(vstd::set_lib::set_int_range(0, cap)));
    vstd::set_lib::lemma_len_subset(es.to_set(), vstd::set_lib::set_int_range(0, cap));
}

/// Every slide out of a processed entry (index below `h`) lands on a
/// recorded board whose chain is at most one edge longer.
pub open spec fn dist_closed(v: Seq<SearchRecord>, h: int) -> bool {
    forall|j: int, id: Id, dir: Dir, g2: Grid|
        0 <= j < h && j < v.len() && (#[trigger] v[j].0.move_ok(id, dir, g2)) ==> exists|k: int|
            0 <= k < v.len() && g_eq((#[trigger] v[k]).0, g2) && chain_len(v, k) <= chain_len(v, j)
                + 1
}

/// Appending an entry changes no existing chain length.
proof fn lemma_chain_len_push(v: Seq<SearchRecord>, e: SearchRecord, j: int)
    requires
        0 <= j < v.len(),
    ensures
        chain_len(v.push(e), j) == chain_len(v, j),
    decreases j,
{
    let v2 = v.push(e);
    assert(v2[j] == v[j]);
    match v[j].1 {
        None => {},
        Some(p) => {
            if p < j {
                lemma_chain_len_push(v, e, p as int);
            }
        },
    }
}

/// Appending a child of entry `h` preserves the metric invariants: chain
/// lengths, their monotonicity along the list, the one-edge band above the
/// entry in hand, and closure with distances.
proof fn lemma_push_metrics(v: Seq<SearchRecord>, m: Grid, h: usize)
    requires
        0 <= h < v.len(),
        forall|j: int, k: int|
            #![trigger chain_len(v, j), chain_len(v, k)]
            0 <= j <= k < v.len() ==> chain_len(v, j) <= chain_len(v, k),
        forall|k: int| 0 <= k < v.len() ==> #[trigger] chain_len(v, k) <= chain_len(v, h as int) + 1,
        dist_closed(v, h as int),
    ensures
        forall|j: int| 0 <= j < v.len() ==> #[trigger] chain_len(v.push((m, Some(h))), j)
            == chain_len(v, j),
        chain_len(v.push((m, Some(h))), v.len() as int) == chain_len(v, h as int) + 1,
        forall|j: int, k: int|
            #![trigger chain_len(v.push((m, Some(h))), j), chain_len(v.push((m, Some(h))), k)]
            0 <= j <= k < v.len() + 1 ==> chain_len(v.push((m, Some(h))), j) <= chain_len(
                v.push((m, Some(h))),
                k,
            ),
        forall|k: int| 0 <= k < v.len() + 1 ==> #[trigger] chain_len(v.push((m, Some(h))), k)
            <= chain_len(v.push((m, Some(h))), h as int) + 1,
        dist_closed(v.push((m, Some(h))), h as int),
{
    let v2 = v.push((m, Some(h)));
    assert forall|j: int| 0 <= j < v.len() implies #[trigger] chain_len(v2, j) == chain_len(
        v,
        j,
    ) by {
        lemma_chain_len_push(v, (m, Some(h)), j);
    }
    assert(v2[v.len() as int].1 == Some(h));
    assert(chain_len(v2, v.len() as int) == 1 + chain_len(v2, h as int));
    assert forall|j: int, k: int|
        #![trigger chain_len(v2, j), chain_len(v2, k)]
        0 <= j <= k < v.len() + 1 implies chain_len(v2, j) <= chain_len(v2, k) by {
        if k == v.len() {
            if j < v.len() {
                assert(chain_len(v, j) <= chain_len(v, h as int) + 1);
            }
        } else {
            assert(chain_len(v, j) <= chain_len(v, k));
        }
    }
    assert forall|k: int| 0 <= k < v.len() + 1 implies #[trigger] chain_len(v2, k) <= chain_len(
        v2,
        h as int,
    ) + 1 by {
        if k < v.len() {
            assert(chain_len(v, k) <= chain_len(v, h as int) + 1);
        }
    }
    assert forall|j: int, id: Id, dir: Dir, g2: Grid|
        0 <= j < h && j < v2.len() && (#[trigger] v2[j].0.move_ok(id, dir, g2)) implies exists|
        k: int,
    |
        0 <= k < v2.len() && g_eq((#[trigger] v2[k]).0, g2) && chain_len(v2, k) <= chain_len(v2, j)
            + 1 by {
        assert(v2[j] == v[j]);
        assert(v[j].0.move_ok(id, dir, g2));
        let k = choose|k: int|
            0 <= k < v.len() && g_eq((#[trigger] v[k]).0, g2) && chain_len(v, k) <= chain_len(v, j)
                + 1;
        assert(v2[k] == v[k]);
        assert(0 <= k < v2.len() && g_eq(v2[k].0, g2) && chain_len(v2, k) <= chain_len(v2, j) + 1);
    }
}

/// Any path from a recorded board, while it runs through processed entries,
/// keeps a recorded companion whose chain length tracks the path position:
/// it either reaches the path's end, or leaves the processed region, within
/// the path's budget of moves.
proof fn lemma_bfs_depth(
    v: Seq<SearchRecord>,
    h: int,
    a: Grid,
    ms: Seq<AtomicMove>,
    gf: Grid,
    j: int,
    budget: int,
)
    requires
        0 <= h <= v.len(),
        dist_closed(v, h),
        0 <= j < v.len(),
        g_eq(v[j].0, a),
        is_path(a, ms, gf),
        chain_len(v, j) + ms.len() <= budget,
    ensures
        exists|k: int|
            0 <= k < v.len() && #[trigger] chain_len(v, k) <= budget && (g_eq(v[k].0, gf) || k
                >= h),
    decreases ms.len(),
{
    if j >= h {
        assert(0 <= j < v.len() && chain_len(v, j) <= budget && (g_eq(v[j].0, gf) || j >= h));
    } else if ms.len() == 0 {
        assert(g_eq(v[j].0, gf));
        assert(0 <= j < v.len() && chain_len(v, j) <= budget && (g_eq(v[j].0, gf) || j >= h));
    } else {
        let mid = choose|mid: Grid| #[trigger]
            is_cmove(a, ms[0].0, ms[0].1, mid) && is_path(mid, ms.drop_first(), gf)
        ;
        let i = choose|i: int|
            0 <= i < a.cars@.len() && a.cars@[i].id == ms[0].0 && axis_ok_of(a, i, ms[0].1)
                && #[trigger] a.move_at_ok(i, dir2_of(ms[0].1), mid);
        assert(a.move_ok(ms[0].0, dir2_of(ms[0].1), mid));
        assert(g_eq(a, v[j].0));
        lemma_move_ok_g_eq(a, v[j].0, ms[0].0, dir2_of(ms[0].1), mid);
        let k2 = choose|k: int|
            0 <= k < v.len() && g_eq((#[trigger] v[k]).0, mid) && chain_len(v, k) <= chain_len(v, j)
                + 1;
        lemma_bfs_depth(v, h, mid, ms.drop_first(), gf, k2, budget);
    }
}

/// A path that starts inside a move-closed visited list ends inside it.
proof fn lemma_path_stays(v: Seq<SearchRecord>, a: Grid, ms: Seq<AtomicMove>, gf: Grid)
    requires
        closed(v),
        in_visited(v, a),
        is_path(a, ms, gf),
    ensures
        in_visited(v, gf),
    decreases ms.len(),
{
    if ms.len() == 0 {
        let k = choose|k: int| 0 <= k < v.len() && g_eq((#[trigger] v[k]).0, a);
        assert(g_eq(v[k].0, gf));
        assert(in_visited(v, gf));
    } else {
        let mid = choose|mid: Grid| #[trigger]
            is_cmove(a, ms[0].0, ms[0].1, mid) && is_path(mid, ms.drop_first(), gf)
        ;
        let i = choose|i: int|
            0 <= i < a.cars@.len() && a.cars@[i].id == ms[0].0 && axis_ok_of(a, i, ms[0].1)
                && #[trigger] a.move_at_ok(i, dir2_of(ms[0].1), mid);
        assert(a.move_ok(ms[0].0, dir2_of(ms[0].1), mid));
        let k = choose|k: int| 0 <= k < v.len() && g_eq((#[trigger] v[k]).0, a);
        assert(g_eq(a, v[k].0));
        lemma_move_ok_g_eq(a, v[k].0, ms[0].0, dir2_of(ms[0].1), mid);
        assert(v[k].0.move_ok(ms[0].0, dir2_of(ms[0].1), mid));
        assert(in_visited(v, mid));
        lemma_path_stays(v, mid, ms.drop_first(), gf);
    }
}

/// Whether this very board is already recorded.
fn contains_grid(v: &Vec<SearchRecord>, g: &Grid) -> (r: bool)
    ensures
        r == in_visited(v@, *g),
{
    let n = v.len();
    let mut j: usize = 0;
    while j < n
        invariant
            n == v@.len(),
            j <= n,
            forall|t: int| 0 <= t < j ==> !g_eq((#[trigger] v@[t]).0, *g),
        decreases n - j,
    {
        if v[j].0 == *g {
            proof {
                assert(g_eq(v@[j as int].0, *g));
            }
            return true;
        }
        j = j + 1;
    }
    false
}

/// Walks the parent chain from `goal` back to its root, reads off the move
/// of each link, and run-length-encodes the result from the root forward.
pub fn get_history(visited: &Vec<SearchRecord>, goal: usize) -> (r: Vec<Step>)
    requires
        visited_wf(visited@),
        goal < visited@.len(),
    ensures
        steps_wf(r@),
        decompress(r@).len() == chain_len(visited@, goal as int),
        is_path(
            visited@[chain_root(visited@, goal as int)].0,
            decompress(r@),
            visited@[goal as int].0,
        ),
{
    let mut rev_path: Vec<usize> = Vec::new();
    rev_path.push(goal);
    let mut cur: usize = goal;
    while visited[cur].1.is_some()
        invariant
            visited_wf(visited@),
            goal < visited@.len(),
            cur < visited@.len(),
            rev_path@.len() >= 1,
            rev_path@[0] == goal,
            rev_path@.last() == cur,
            forall|t: int| 0 <= t < rev_path@.len() ==> (#[trigger] rev_path@[t]) < visited@.len(),
            forall|t: int|
                0 <= t < rev_path@.len() - 1 ==> (#[trigger] visited@[rev_path@[t] as int]).1
                    == Some(rev_path@[t + 1]),
            chain_root(visited@, cur as int) == chain_root(visited@, goal as int),
            chain_len(visited@, goal as int) == chain_len(visited@, cur as int) + rev_path@.len()
                - 1,
        decreases cur,
    {
        proof {
            assert(entry_ok(visited@, cur as int));
        }
        let p = visited[cur].1.unwrap();
        proof {
            assert(chain_root(visited@, p as int) == chain_root(visited@, cur as int));
            assert(chain_len(visited@, cur as int) == 1 + chain_len(visited@, p as int));
        }
        cur = p;
        rev_path.push(cur);
    }
    proof {
        assert(entry_ok(visited@, cur as int));
        assert(chain_root(visited@, cur as int) == cur as int);
        assert(chain_len(visited@, cur as int) == 0);
        assert(chain_len(visited@, goal as int) == rev_path@.len() - 1);
    }
    let ghost root = cur as int;
    let mut moves: Vec<AtomicMove> = Vec::new();
    let mut t: usize = rev_path.len() - 1;
    proof {
        assert(rev_path@[t as int] == cur);
        assert(g_eq(visited@[root].0, visited@[root].0));
        assert(is_path(visited@[root].0, moves@, visited@[rev_path@[t as int] as int].0));
    }
    while t > 0
        invariant
            visited_wf(visited@),
            t < rev_path@.len(),
            0 <= root < visited@.len(),
            rev_path@[0] == goal,
            goal < visited@.len(),
            forall|u: int| 0 <= u < rev_path@.len() ==> (#[trigger] rev_path@[u]) < visited@.len(),
            forall|u: int|
                0 <= u < rev_path@.len() - 1 ==> (#[trigger] visited@[rev_path@[u] as int]).1
                    == Some(rev_path@[u + 1]),
            is_path(visited@[root].0, moves@, visited@[rev_path@[t as int] as int].0),
            moves@.len() == rev_path@.len() - 1 - t,
            chain_len(visited@, goal as int) == rev_path@.len() - 1,
        decreases t,
    {
        let prev_i = rev_path[t];
        let cur_i = rev_path[t - 1];
        let ghost a = visited@[prev_i as int].0;
        let ghost b = visited@[cur_i as int].0;
        proof {
            assert(visited@[cur_i as int].1 == Some(prev_i));
            assert(entry_ok(visited@, cur_i as int));
            assert(edge(a, b));
            assert(entry_ok(visited@, prev_i as int));
            assert(a.wf());
        }
        let ghost (mid, mdir) = choose|id: Id, dir: Dir| #[trigger] a.move_ok(id, dir, b);
        proof {
            lemma_move_diff(a, mid, mdir, b);
        }
        let d_opt = visited[cur_i].0.diff(&visited[prev_i].0);
        match d_opt {
            Some(pr) => {
                let prc = pr.0;
                let prd = pr.1;
                let ghost old_moves = moves@;
                moves.push(pr);
                proof {
                    let i = choose|i: int|
                        0 <= i < a.cars@.len() && (#[trigger] b.cars@[i]).head_spec()
                            != a.cars@[i].head_spec() && (forall|j: int|
                            0 <= j < a.cars@.len() && j != i ==> #[trigger] b.cars@[j]
                                == a.cars@[j]) && b.cars@[i].id == mid && is_cmove(
                            a,
                            mid,
                            dir4_of(a.cars@[i], b.cars@[i]),
                            b,
                        );
                    let i0 = choose|i0: int|
                        0 <= i0 < b.cars@.len() && (#[trigger] b.cars@[i0]).head_spec()
                            != a.cars@[i0].head_spec() && (forall|j: int|
                            0 <= j < i0 ==> (#[trigger] b.cars@[j]).head_spec()
                                == a.cars@[j].head_spec()) && pr.0 == b.cars@[i0].id && pr.1
                            == dir4_of(a.cars@[i0], b.cars@[i0]);
                    assert(i0 == i);
                    assert(prc == mid && prd == dir4_of(a.cars@[i], b.cars@[i]));
                    assert(is_cmove(a, prc, prd, b));
                    lemma_is_path_push(visited@[root].0, old_moves, a, prc, prd, b);
                    assert((prc, prd) == pr);
                    assert(moves@ == old_moves.push(pr));
                }
            },
            None => {
                proof {
                    let i = choose|i: int|
                        0 <= i < a.cars@.len() && (#[trigger] b.cars@[i]).head_spec()
                            != a.cars@[i].head_spec() && (forall|j: int|
                            0 <= j < a.cars@.len() && j != i ==> #[trigger] b.cars@[j]
                                == a.cars@[j]) && b.cars@[i].id == mid && is_cmove(
                            a,
                            mid,
                            dir4_of(a.cars@[i], b.cars@[i]),
                            b,
                        );
                    assert(b.cars@[i].head_spec() == a.cars@[i].head_spec());
                    assert(false);
                }
            },
        }
        t = t - 1;
    }
    let steps = compress_moves(&moves);
    proof {
        assert(rev_path@[0] == goal);
        assert(root == chain_root(visited@, goal as int));
    }
    steps
}

/// Breadth-first search from `grid`: returns a shortest run-length-encoded
/// solution, or `None` exactly when no sequence of legal moves solves the
/// puzzle.
#[verifier::rlimit(100)]
pub fn solve(grid: Grid) -> (r: Option<Vec<Step>>)
    requires
        grid.wf(),
    ensures
        r matches Some(steps) ==> steps_wf(steps@) && exists|gf: Grid|
            #[trigger] is_path(grid, decompress(steps@), gf) && gf.solved_spec(),
        r matches Some(steps) ==> forall|ms: Seq<AtomicMove>, gf: Grid|
            #[trigger] is_path(grid, ms, gf) && gf.solved_spec() ==> decompress(steps@).len()
                <= ms.len(),
        r is None ==> forall|ms: Seq<AtomicMove>, gf: Grid|
            #[trigger] is_path(grid, ms, gf) ==> !gf.solved_spec(),
{
    let ghost cap = pow_int(bx_of(grid) * by_of(grid), grid.cars@.len());
    let mut visited: Vec<SearchRecord> = Vec::new();
    visited.push((grid, None));
    proof {
        lemma_root_bounded(grid);
        assert(skel_eq(grid, visited@[0].0));
        assert(visited@.len() <= cap) by {
            assert(bx_of(grid) * by_of(grid) >= 1) by (nonlinear_arith)
                requires
                    bx_of(grid) >= 1,
                    by_of(grid) >= 1,
            ;
            lemma_pow_pos(bx_of(grid) * by_of(grid), grid.cars@.len());
        }
    }
    let mut head: usize = 0;
    while head < visited.len()
        invariant
            grid.wf(),
            visited@.len() >= 1,
            head <= visited@.len(),
            visited@[0].0 == grid,
            visited@[0].1 is None,
            forall|j: int| 1 <= j < visited@.len() ==> (#[trigger] visited@[j]).1 is Some,
            visited_wf(visited@),
            forall|j: int| 0 <= j < visited@.len() ==> skel_eq(grid, (#[trigger] visited@[j]).0),
            forall|j: int|
                0 <= j < visited@.len() ==> origins_bounded(
                    (#[trigger] visited@[j]).0,
                    bx_of(grid),
                    by_of(grid),
                ),
            forall|j: int, k: int|
                0 <= j < k < visited@.len() ==> !g_eq(
                    (#[trigger] visited@[j]).0,
                    (#[trigger] visited@[k]).0,
                ),
            forall|j: int| 0 <= j < head ==> !(#[trigger] visited@[j]).0.solved_spec(),
            forall|j: int, id: Id, dir: Dir, g2: Grid|
                0 <= j < head && (#[trigger] visited@[j].0.move_ok(id, dir, g2)) ==> in_visited(
                    visited@,
                    g2,
                ),
            forall|j: int, k: int|
                #![trigger chain_len(visited@, j), chain_len(visited@, k)]
                0 <= j <= k < visited@.len() ==> chain_len(visited@, j) <= chain_len(visited@, k),
            forall|k: int|
                0 <= k < visited@.len() && head < visited@.len() ==> #[trigger] chain_len(
                    visited@,
                    k,
                ) <= chain_len(visited@, head as int) + 1,
            dist_closed(visited@, head as int),
            visited@.len() <= cap,
            cap == pow_int(bx_of(grid) * by_of(grid), grid.cars@.len()),
        decreases cap - head,
    {
        let solved = visited[head].0.is_solved();
        if solved {
            proof {
                lemma_chain_root_zero(visited@, head as int);
            }
            let steps = get_history(&visited, head);
            proof {
                assert(is_path(grid, decompress(steps@), visited@[head as int].0));
                assert(decompress(steps@).len() == chain_len(visited@, head as int));
                assert forall|ms: Seq<AtomicMove>, gf: Grid|
                    #[trigger] is_path(grid, ms, gf) && gf.solved_spec() implies decompress(
                    steps@,
                ).len() <= ms.len() by {
                    assert(g_eq(visited@[0].0, grid));
                    assert(chain_len(visited@, 0) == 0);
                    lemma_bfs_depth(
                        visited@,
                        head as int,
                        grid,
                        ms,
                        gf,
                        0,
                        ms.len() as int,
                    );
                    let k = choose|k: int|
                        0 <= k < visited@.len() && #[trigger] chain_len(visited@, k) <= ms.len()
                            && (g_eq(visited@[k].0, gf) || k >= head);
                    if k < head {
                        assert(g_eq(visited@[k].0, gf));
                        lemma_solved_g_eq(visited@[k].0, gf);
                        assert(false);
                    } else {
                        assert(chain_len(visited@, head as int) <= chain_len(visited@, k));
                    }
                }
            }
            return Some(steps);
        }
        proof {
            assert(entry_ok(visited@, head as int));
        }
        let mut frontier = visited[head].0.next_moves();
        let ghost nseq = frontier@;
        let ghost cur = visited@[head as int].0;
        proof {
            assert(frontier@ =~= nseq.subrange(0, nseq.len() as int));
        }
        while frontier.len() > 0
            invariant
                grid.wf(),
                visited@.len() >= 1,
                head < visited@.len(),
                visited@[0].0 == grid,
                visited@[0].1 is None,
                forall|j: int| 1 <= j < visited@.len() ==> (#[trigger] visited@[j]).1 is Some,
                visited_wf(visited@),
                forall|j: int|
                    0 <= j < visited@.len() ==> skel_eq(grid, (#[trigger] visited@[j]).0),
                forall|j: int|
                    0 <= j < visited@.len() ==> origins_bounded(
                        (#[trigger] visited@[j]).0,
                        bx_of(grid),
                        by_of(grid),
                    ),
                forall|j: int, k: int|
                    0 <= j < k < visited@.len() ==> !g_eq(
                        (#[trigger] visited@[j]).0,
                        (#[trigger] visited@[k]).0,
                    ),
                forall|j: int| 0 <= j < head ==> !(#[trigger] visited@[j]).0.solved_spec(),
                forall|j: int, id: Id, dir: Dir, g2: Grid|
                    0 <= j < head && (#[trigger] visited@[j].0.move_ok(id, dir, g2))
                        ==> in_visited(visited@, g2),
                forall|j: int, k: int|
                    #![trigger chain_len(visited@, j), chain_len(visited@, k)]
                    0 <= j <= k < visited@.len() ==> chain_len(visited@, j) <= chain_len(
                        visited@,
                        k,
                    ),
                forall|k: int|
                    0 <= k < visited@.len() ==> #[trigger] chain_len(visited@, k) <= chain_len(
                        visited@,
                        head as int,
                    ) + 1,
                dist_closed(visited@, head as int),
                visited@.len() <= cap,
                cap == pow_int(bx_of(grid) * by_of(grid), grid.cars@.len()),
                frontier@.len() <= nseq.len(),
                frontier@ == nseq.subrange(
                    nseq.len() - frontier@.len(),
                    nseq.len() as int,
                ),
                forall|u: int|
                    0 <= u < nseq.len() - frontier@.len() ==> in_visited(
                        visited@,
                        #[trigger] nseq[u],
                    ),
                cur == visited@[head as int].0,
                forall|u: int| 0 <= u < nseq.len() ==> edge(cur, #[trigger] nseq[u]),
            decreases frontier@.len(),
        {
            let ghost fsnap = frontier@;
            let ghost done = nseq.len() - fsnap.len();
            let m = frontier.remove(0);
            proof {
                assert(m == fsnap[0]);
                assert(fsnap[0] == nseq[done]);
                assert(frontier@ =~= nseq.subrange(
                    nseq.len() - frontier@.len(),
                    nseq.len() as int,
                ));
                assert(edge(cur, m));
                assert(entry_ok(visited@, head as int));
                assert(cur.wf());
            }
            let ghost (mid, mdir) = choose|id: Id, dir: Dir| #[trigger] cur.move_ok(id, dir, m);
            let dup = contains_grid(&visited, &m);
            if !dup {
                let ghost vsnap = visited@;
                visited.push((m, Some(head)));
                proof {
                    lemma_move_preserves(cur, mid, mdir, m);
                    lemma_move_bounded(cur, mid, mdir, m, bx_of(grid), by_of(grid));
                    lemma_skel_trans(grid, cur, m);
                    assert forall|j: int| 0 <= j < visited@.len() implies #[trigger] entry_ok(
                        visited@,
                        j,
                    ) by {
                        if j < vsnap.len() {
                            assert(entry_ok(vsnap, j));
                            assert(visited@[j] == vsnap[j]);
                            match vsnap[j].1 {
                                None => {},
                                Some(p) => {
                                    assert(visited@[p as int] == vsnap[p as int]);
                                },
                            }
                        } else {
                            assert(visited@[j] == (m, Some(head)));
                            assert(visited@[head as int] == vsnap[head as int]);
                            assert(edge(visited@[head as int].0, m));
                        }
                    }
                    assert forall|u: int|
                        0 <= u < nseq.len() - frontier@.len() implies in_visited(
                        visited@,
                        #[trigger] nseq[u],
                    ) by {
                        if u < done {
                            lemma_in_visited_extend(vsnap, (m, Some(head)), nseq[u]);
                        } else {
                            assert(u == done);
                            assert(g_eq(visited@[vsnap.len() as int].0, nseq[u]));
                        }
                    }
                    assert forall|j: int, id: Id, dir: Dir, g2: Grid|
                        0 <= j < head && (#[trigger] visited@[j].0.move_ok(id, dir, g2))
                            implies in_visited(visited@, g2) by {
                        assert(visited@[j] == vsnap[j]);
                        assert(vsnap[j].0.move_ok(id, dir, g2));
                        assert(in_visited(vsnap, g2));
                        lemma_in_visited_extend(vsnap, (m, Some(head)), g2);
                    }
                    lemma_visited_cap(visited@, grid);
                    lemma_push_metrics(vsnap, m, head);
                    assert(visited@ == vsnap.push((m, Some(head))));
                }
            } else {
                proof {
                    assert forall|u: int|
                        0 <= u < nseq.len() - frontier@.len() implies in_visited(
                        visited@,
                        #[trigger] nseq[u],
                    ) by {
                        if u == done {
                            assert(in_visited(visited@, m));
                        }
                    }
                }
            }
        }
        proof {
            assert forall|j: int, id: Id, dir: Dir, g2: Grid|
                0 <= j < head + 1 && (#[trigger] visited@[j].0.move_ok(id, dir, g2))
                    implies in_visited(visited@, g2) by {
                if j == head {
                    assert(cur.move_ok(id, dir, g2));
                    let u = choose|u: int| 0 <= u < nseq.len() && g_eq(#[trigger] nseq[u], g2);
                    assert(in_visited(visited@, nseq[u]));
                    let k = choose|k: int|
                        0 <= k < visited@.len() && g_eq((#[trigger] visited@[k]).0, nseq[u]);
                    assert(g_eq(visited@[k].0, g2));
                    assert(in_visited(visited@, g2));
                }
            }
            assert(dist_closed(visited@, head as int + 1)) by {
                assert forall|j: int, id: Id, dir: Dir, g2: Grid|
                    0 <= j < head + 1 && j < visited@.len() && (#[trigger] visited@[j].0.move_ok(
                        id,
                        dir,
                        g2,
                    )) implies exists|k: int|
                    0 <= k < visited@.len() && g_eq((#[trigger] visited@[k]).0, g2) && chain_len(
                        visited@,
                        k,
                    ) <= chain_len(visited@, j) + 1 by {
                    if j == head {
                        assert(cur.move_ok(id, dir, g2));
                        let u = choose|u: int| 0 <= u < nseq.len() && g_eq(#[trigger] nseq[u], g2);
                        assert(in_visited(visited@, nseq[u]));
                        let k = choose|k: int|
                            0 <= k < visited@.len() && g_eq((#[trigger] visited@[k]).0, nseq[u]);
                        assert(g_eq(visited@[k].0, g2));
                        assert(chain_len(visited@, k) <= chain_len(visited@, head as int) + 1);
                        assert(0 <= k < visited@.len() && g_eq(visited@[k].0, g2) && chain_len(
                            visited@,
                            k,
                        ) <= chain_len(visited@, j) + 1);
                    }
                }
            }
            assert forall|k: int|
                0 <= k < visited@.len() && head + 1 < visited@.len() implies #[trigger] chain_len(
                visited@,
                k,
            ) <= chain_len(visited@, head as int + 1) + 1 by {
                assert(chain_len(visited@, k) <= chain_len(visited@, head as int) + 1);
                assert(chain_len(visited@, head as int) <= chain_len(visited@, head as int + 1));
            }
        }
        head = head + 1;
    }
    proof {
        assert forall|ms: Seq<AtomicMove>, gf: Grid| #[trigger]
            is_path(grid, ms, gf) implies !gf.solved_spec() by {
            assert(g_eq(visited@[0].0, grid));
            assert(in_visited(visited@, grid));
            assert(closed(visited@));
            lemma_path_stays(visited@, grid, ms, gf);
            let k = choose|k: int| 0 <= k < visited@.len() && g_eq((#[trigger] visited@[k]).0, gf);
            lemma_solved_g_eq(visited@[k].0, gf);
        }
    }
    None
}

} // verus!
