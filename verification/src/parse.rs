use vstd::prelude::*;

use crate::car::{Car, CarType, Position};
use crate::grid::Grid;

verus! {

/// Space-like characters trimmed from line ends.
pub open spec fn is_space_spec(c: char) -> bool {
    c == ' ' || c == '\t' || c == '\r' || c == '\n'
}

/// A character that names a vehicle: anything but empty cells, the border
/// and the exit marker.
pub open spec fn is_vehicle_spec(c: char) -> bool {
    !(c == '.' || c == ' ' || c == '+' || c == '-' || c == '|' || c == 'x')
}

/// The input split at newlines into lines.
pub open spec fn split_lines(s: Seq<char>) -> Seq<Seq<char>>
    decreases s.len(),
{
    if s.len() == 0 {
        seq![Seq::<char>::empty()]
    } else {
        let rest = split_lines(s.drop_last());
        if s.last() == '\n' {
            rest.push(Seq::<char>::empty())
        } else {
            rest.update(rest.len() - 1, rest.last().push(s.last()))
        }
    }
}

/// A line without its leading spaces.
pub open spec fn trim_front(s: Seq<char>) -> Seq<char>
    decreases s.len(),
{
    if s.len() > 0 && is_space_spec(s[0]) {
        trim_front(s.drop_first())
    } else {
        s
    }
}

/// A line without its trailing spaces.
pub open spec fn trim_back(s: Seq<char>) -> Seq<char>
    decreases s.len(),
{
    if s.len() > 0 && is_space_spec(s.last()) {
        trim_back(s.drop_last())
    } else {
        s
    }
}

/// A line without spaces around it.
pub open spec fn trim_line(s: Seq<char>) -> Seq<char> {
    trim_back(trim_front(s))
}

/// The lines without leading empty lines.
pub open spec fn drop_front_empty(ls: Seq<Seq<char>>) -> Seq<Seq<char>>
    decreases ls.len(),
{
    if ls.len() > 0 && ls[0].len() == 0 {
        drop_front_empty(ls.drop_first())
    } else {
        ls
    }
}

/// The lines without trailing empty lines.
pub open spec fn drop_back_empty(ls: Seq<Seq<char>>) -> Seq<Seq<char>>
    decreases ls.len(),
{
    if ls.len() > 0 && ls.last().len() == 0 {
        drop_back_empty(ls.drop_last())
    } else {
        ls
    }
}

/// The picture that parsing works on: the input split into lines, each line
/// trimmed, and blank lines around the picture dropped.
pub open spec fn clean_spec(s: Seq<char>) -> Seq<Seq<char>> {
    drop_back_empty(drop_front_empty(split_lines(s).map_values(|l: Seq<char>| trim_line(l))))
}

/// The views of a list of character lines.
pub open spec fn seq_views(v: Seq<Vec<char>>) -> Seq<Seq<char>> {
    v.map_values(|x: Vec<char>| x@)
}

/// Some cell of the picture holds the exit marker.
pub open spec fn has_exit_marker(rows: Seq<Seq<char>>) -> bool {
    exists|y: int, x: int|
        0 <= y < rows.len() && 0 <= x < rows[y].len() && #[trigger] rows[y][x] == 'x'
}

/// No vehicle character sits in the picture's first row or first column.
pub open spec fn border_clean(rows: Seq<Seq<char>>) -> bool {
    forall|y: int, x: int|
        0 <= y < rows.len() && 0 <= x < rows[y].len() && is_vehicle_spec(#[trigger] rows[y][x])
            ==> x > 0 && y > 0
}

/// The picture is small enough that no coordinate arithmetic can overflow.
pub open spec fn small_picture(rows: Seq<Seq<char>>) -> bool {
    rows.len() <= 65535 && forall|y: int| 0 <= y < rows.len() ==> (#[trigger] rows[y]).len()
        <= 65535
}

/// The interior cells, in scan order, of the first `upto` characters of row
/// `y` that carry the vehicle character `c`; top and left border cells never
/// count.
pub open spec fn row_cells(row: Seq<char>, y: int, c: char, upto: int) -> Seq<Position>
    decreases
            (if upto >= 0 {
                upto
            } else {
                0
            }),
{
    if upto <= 0 {
        Seq::empty()
    } else {
        let p = row_cells(row, y, c, upto - 1);
        if row[upto - 1] == c && is_vehicle_spec(c) && upto - 1 > 0 && y > 0 {
            p.push((((upto - 2) as usize), ((y - 1) as usize)))
        } else {
            p
        }
    }
}

/// The interior cells carrying `c` in the first `upto_y` rows, in scan
/// order.
pub open spec fn rows_cells(rows: Seq<Seq<char>>, c: char, upto_y: int) -> Seq<Position>
    decreases
            (if upto_y >= 0 {
                upto_y
            } else {
                0
            }),
{
    if upto_y <= 0 {
        Seq::empty()
    } else {
        rows_cells(rows, c, upto_y - 1) + row_cells(
            rows[upto_y - 1],
            upto_y - 1,
            c,
            rows[upto_y - 1].len() as int,
        )
    }
}

/// All interior cells of the picture carrying the vehicle character `c`.
pub open spec fn cells_of(rows: Seq<Seq<char>>, c: char) -> Seq<Position> {
    rows_cells(rows, c, rows.len() as int)
}

/// Adds a character to the list unless it is already there.
pub open spec fn insert_new(cs: Seq<char>, c: char) -> Seq<char> {
    if cs.contains(c) {
        cs
    } else {
        cs.push(c)
    }
}

/// The distinct vehicle characters, in order of first occurrence, after
/// scanning the first `upto` characters of row `y`, starting from `cs`.
pub open spec fn row_chars(cs: Seq<char>, row: Seq<char>, y: int, upto: int) -> Seq<char>
    decreases
            (if upto >= 0 {
                upto
            } else {
                0
            }),
{
    if upto <= 0 {
        cs
    } else {
        let p = row_chars(cs, row, y, upto - 1);
        if is_vehicle_spec(row[upto - 1]) && upto - 1 > 0 && y > 0 {
            insert_new(p, row[upto - 1])
        } else {
            p
        }
    }
}

/// The distinct vehicle characters of the first `upto_y` rows, in order of
/// first occurrence.
pub open spec fn rows_chars(rows: Seq<Seq<char>>, upto_y: int) -> Seq<char>
    decreases
            (if upto_y >= 0 {
                upto_y
            } else {
                0
            }),
{
    if upto_y <= 0 {
        Seq::empty()
    } else {
        row_chars(
            rows_chars(rows, upto_y - 1),
            rows[upto_y - 1],
            upto_y - 1,
            rows[upto_y - 1].len() as int,
        )
    }
}

/// The picture's distinct vehicle characters, in order of first occurrence.
pub open spec fn vehicle_chars(rows: Seq<Seq<char>>) -> Seq<char> {
    rows_chars(rows, rows.len() as int)
}

/// The identities of the collected groups, in order.
pub open spec fn group_ids(groups: Seq<(char, Vec<Position>)>) -> Seq<char> {
    groups.map_values(|e: (char, Vec<Position>)| e.0)
}

/// The interior coordinates of a border cell: shifted up and left by one,
/// except along the top and left edges.
pub open spec fn adjust(x: int, y: int) -> (int, int) {
    (
        if x == 0 {
            0int
        } else {
            x - 1
        },
        if y == 0 {
            0int
        } else {
            y - 1
        },
    )
}

/// Space-like characters trimmed from line ends and around the input.
fn is_space(c: char) -> (r: bool)
    ensures
        r == is_space_spec(c),
{
    c == ' ' || c == '\t' || c == '\r' || c == '\n'
}

/// True for the characters that never belong to a vehicle: empty cells, the
/// border, and the exit marker.
fn is_non_vehicle(c: char) -> (r: bool)
    ensures
        r == !is_vehicle_spec(c),
{
    c == '.' || c == ' ' || c == '+' || c == '-' || c == '|' || c == 'x'
}

/// Splits the input into lines, trimming whitespace around each line and
/// dropping empty lines before and after the picture.
fn clean_lines(input: &str) -> (r: Vec<Vec<char>>)
    ensures
        seq_views(r@) == clean_spec(input@),
{
    let n = input.unicode_len();
    let mut rows: Vec<Vec<char>> = Vec::new();
    let mut line: Vec<char> = Vec::new();
    let mut i: usize = 0;
    proof {
        assert(input@.take(0) =~= Seq::<char>::empty());
        assert(seq_views(rows@).push(line@) =~= split_lines(input@.take(0)));
    }
    while i < n
        invariant
            n == input@.len(),
            i <= n,
            seq_views(rows@).push(line@) == split_lines(input@.take(i as int)),
        decreases n - i,
    {
        let c = input.get_char(i);
        let ghost pre = split_lines(input@.take(i as int));
        proof {
            assert(input@.take(i + 1).drop_last() =~= input@.take(i as int));
            assert(input@.take(i + 1).last() == c);
            assert(input@.take(i + 1).len() == i + 1);
        }
        if c == '\n' {
            let ghost old_rows = rows@;
            rows.push(line);
            line = Vec::new();
            proof {
                assert(seq_views(rows@) =~= seq_views(old_rows).push(pre.last()));
                assert(seq_views(rows@).push(line@) =~= pre.push(Seq::<char>::empty()));
            }
        } else {
            let ghost old_line = line@;
            line.push(c);
            proof {
                assert(seq_views(rows@).push(line@) =~= pre.update(
                    pre.len() - 1,
                    pre.last().push(c),
                ));
            }
        }
        i = i + 1;
    }
    let ghost allsplit = split_lines(input@);
    proof {
        assert(input@.take(n as int) =~= input@);
    }
    rows.push(line);
    proof {
        assert(seq_views(rows@) =~= allsplit);
    }
    // Trim each line.
    let mut trimmed: Vec<Vec<char>> = Vec::new();
    let mut y: usize = 0;
    let nr = rows.len();
    while y < nr
        invariant
            nr == rows@.len(),
            y <= nr,
            trimmed@.len() == y,
            seq_views(rows@) == allsplit,
            forall|t: int| 0 <= t < y ==> (#[trigger] trimmed@[t])@ == trim_line(rows@[t]@),
        decreases nr - y,
    {
        let row = &rows[y];
        let ghost rv = row@;
        let ln = row.len();
        let mut start: usize = 0;
        let mut end: usize = ln;
        proof {
            assert(rv.subrange(0, ln as int) =~= rv);
        }
        while start < end && is_space(row[start])
            invariant
                rv == row@,
                ln == rv.len(),
                end == ln,
                start <= end,
                trim_front(rv) == trim_front(rv.subrange(start as int, ln as int)),
            decreases end - start,
        {
            proof {
                assert(rv.subrange(start as int, ln as int).drop_first() =~= rv.subrange(
                    start + 1,
                    ln as int,
                ));
            }
            start = start + 1;
        }
        proof {
            assert(trim_front(rv) == rv.subrange(start as int, ln as int));
        }
        while end > start && is_space(row[end - 1])
            invariant
                rv == row@,
                ln == rv.len(),
                start <= end <= ln,
                trim_back(rv.subrange(start as int, ln as int)) == trim_back(
                    rv.subrange(start as int, end as int),
                ),
            decreases end - start,
        {
            proof {
                assert(rv.subrange(start as int, end as int).drop_last() =~= rv.subrange(
                    start as int,
                    end - 1,
                ));
            }
            end = end - 1;
        }
        proof {
            assert(trim_line(rv) == rv.subrange(start as int, end as int));
        }
        let mut t: Vec<char> = Vec::new();
        let mut k: usize = start;
        while k < end
            invariant
                rv == row@,
                start <= k <= end <= rv.len(),
                t@ == rv.subrange(start as int, k as int),
            decreases end - k,
        {
            proof {
                assert(rv.subrange(start as int, k + 1) =~= rv.subrange(
                    start as int,
                    k as int,
                ).push(rv[k as int]));
            }
            t.push(row[k]);
            k = k + 1;
        }
        trimmed.push(t);
        y = y + 1;
    }
    let ghost alltrim = allsplit.map_values(|l: Seq<char>| trim_line(l));
    proof {
        assert(seq_views(trimmed@) =~= alltrim);
    }
    // Drop empty lines before and after the picture.
    let ghost tl = seq_views(trimmed@);
    let nt = trimmed.len();
    let mut first: usize = 0;
    proof {
        assert(tl.subrange(0, nt as int) =~= tl);
    }
    while first < nt && trimmed[first].len() == 0
        invariant
            nt == trimmed@.len(),
            tl == seq_views(trimmed@),
            first <= nt,
            drop_front_empty(tl) == drop_front_empty(tl.subrange(first as int, nt as int)),
        decreases nt - first,
    {
        proof {
            assert(tl[first as int] == trimmed@[first as int]@);
            assert(tl.subrange(first as int, nt as int).drop_first() =~= tl.subrange(
                first + 1,
                nt as int,
            ));
        }
        first = first + 1;
    }
    proof {
        assert(drop_front_empty(tl) == tl.subrange(first as int, nt as int));
    }
    let mut last: usize = nt;
    while last > first && trimmed[last - 1].len() == 0
        invariant
            nt == trimmed@.len(),
            tl == seq_views(trimmed@),
            first <= last <= nt,
            drop_back_empty(tl.subrange(first as int, nt as int)) == drop_back_empty(
                tl.subrange(first as int, last as int),
            ),
        decreases last - first,
    {
        proof {
            assert(tl[last - 1] == trimmed@[last - 1]@);
            assert(tl.subrange(first as int, last as int).drop_last() =~= tl.subrange(
                first as int,
                last - 1,
            ));
        }
        last = last - 1;
    }
    proof {
        assert(clean_spec(input@) == tl.subrange(first as int, last as int));
    }
    let mut out: Vec<Vec<char>> = Vec::new();
    let mut k: usize = first;
    while k < last
        invariant
            nt == trimmed@.len(),
            tl == seq_views(trimmed@),
            first <= k <= last <= nt,
            seq_views(out@) == tl.subrange(first as int, k as int),
        decreases last - k,
    {
        let row = &trimmed[k];
        let mut copy: Vec<char> = Vec::new();
        let mut j: usize = 0;
        while j < row.len()
            invariant
                j <= row@.len(),
                copy@ == row@.subrange(0, j as int),
            decreases row@.len() - j,
        {
            proof {
                assert(row@.subrange(0, j + 1) =~= row@.subrange(0, j as int).push(
                    row@[j as int],
                ));
            }
            copy.push(row[j]);
            j = j + 1;
        }
        proof {
            assert(copy@ =~= trimmed@[k as int]@);
        }
        let ghost old_out = out@;
        out.push(copy);
        proof {
            assert(seq_views(out@) =~= seq_views(old_out).push(tl[k as int]));
            assert(tl.subrange(first as int, k + 1) =~= tl.subrange(first as int, k as int).push(
                tl[k as int],
            ));
            assert(seq_views(out@) =~= tl.subrange(first as int, k + 1));
        }
        k = k + 1;
    }
    proof {
        assert(seq_views(out@) == clean_spec(input@));
    }
    out
}

impl Grid {
    /// Parses a bordered ASCII picture into a board. The picture is the
    /// input split into lines, trimmed, with blank lines dropped around it
    /// (`clean_spec`). The first `x`, scanning rows top to bottom and left
    /// to right, marks the exit, whose interior coordinates are the marker's
    /// shifted by one off the border; the interior dimensions are the
    /// picture's minus the border. Parsing fails exactly on a degenerate
    /// picture: no exit marker, fewer than two rows or columns, a vehicle
    /// character on the top or left border, or a picture too large for
    /// coordinate arithmetic; a returned board is always well formed.
    pub fn parse(input: &str) -> (r: Option<Grid>)
        ensures
            r matches Some(g) ==> g.wf(),
            input@.len() == 0 ==> r is None,
            r is None ==> (input@.len() == 0 || !has_exit_marker(clean_spec(input@))
                || clean_spec(input@).len() < 2 || clean_spec(input@)[0].len() < 2
                || !border_clean(clean_spec(input@)) || !small_picture(clean_spec(input@))),
            (has_exit_marker(clean_spec(input@)) && clean_spec(input@).len() >= 2 && clean_spec(
                input@,
            )[0].len() >= 2 && border_clean(clean_spec(input@)) && small_picture(
                clean_spec(input@),
            )) ==> r is Some,
            r matches Some(g) ==> clean_spec(input@).len() >= 2 && clean_spec(input@)[0].len() >= 2
                && g.width == clean_spec(input@)[0].len() - 2 && g.height == clean_spec(
                input@,
            ).len() - 2,
            r matches Some(g) ==> g.cars@.len() == vehicle_chars(clean_spec(input@)).len()
                && (forall|a: int|
                0 <= a < g.cars@.len() ==> (#[trigger] g.cars@[a]).id == vehicle_chars(
                    clean_spec(input@),
                )[a]) && (forall|a: int|
                0 <= a < g.cars@.len() ==> (#[trigger] g.cars@[a]).car_type == (
                if g.cars@[a].id == 'X' {
                    CarType::Player
                } else {
                    CarType::Other
                })) && (forall|a: int|
                0 <= a < g.cars@.len() ==> (#[trigger] g.cars@[a]).length == cells_of(
                    clean_spec(input@),
                    g.cars@[a].id,
                ).len()) && (forall|a: int|
                0 <= a < g.cars@.len() ==> (#[trigger] g.cars@[a]).horizontal == (forall|i: int|
                    0 <= i < cells_of(clean_spec(input@), g.cars@[a].id).len() ==> (
                    #[trigger] cells_of(clean_spec(input@), g.cars@[a].id)[i]).1 == cells_of(
                        clean_spec(input@),
                        g.cars@[a].id,
                    )[0].1)) && (forall|a: int, i: int|
                0 <= a < g.cars@.len() && 0 <= i < cells_of(
                    clean_spec(input@),
                    (#[trigger] g.cars@[a]).id,
                ).len() ==> g.cars@[a].x <= (#[trigger] cells_of(
                    clean_spec(input@),
                    g.cars@[a].id,
                )[i]).0 && g.cars@[a].y <= cells_of(clean_spec(input@), g.cars@[a].id)[i].1) && (
            forall|a: int|
                0 <= a < g.cars@.len() ==> exists|i: int|
                    0 <= i < cells_of(clean_spec(input@), (#[trigger] g.cars@[a]).id).len()
                        && g.cars@[a].x == (#[trigger] cells_of(
                        clean_spec(input@),
                        g.cars@[a].id,
                    )[i]).0) && (forall|a: int|
                0 <= a < g.cars@.len() ==> exists|i: int|
                    0 <= i < cells_of(clean_spec(input@), (#[trigger] g.cars@[a]).id).len()
                        && g.cars@[a].y == (#[trigger] cells_of(
                        clean_spec(input@),
                        g.cars@[a].id,
                    )[i]).1),
            r matches Some(g) ==> exists|ey: int, ex: int|
                0 <= ey < clean_spec(input@).len() && 0 <= ex < clean_spec(input@)[ey].len() && (
                #[trigger] clean_spec(input@)[ey][ex]) == 'x' && (forall|y2: int, x2: int|
                    0 <= y2 < ey && 0 <= x2 < clean_spec(input@)[y2].len() ==> (
                    #[trigger] clean_spec(input@)[y2][x2]) != 'x') && (forall|x2: int|
                    0 <= x2 < ex ==> (#[trigger] clean_spec(input@)[ey][x2]) != 'x') && (
                g.exit.0 as int, g.exit.1 as int) == adjust(ex, ey),
    {
        let ghost rs = clean_spec(input@);
        if input.unicode_len() == 0 {
            proof {
                assert(split_lines(input@) =~= seq![Seq::<char>::empty()]);
                assert(trim_front(Seq::<char>::empty()) =~= Seq::<char>::empty());
                assert(split_lines(input@).map_values(|l: Seq<char>| trim_line(l)) =~= seq![
                    Seq::<char>::empty(),
                ]);
                assert(seq![Seq::<char>::empty()].drop_first() =~= Seq::<Seq<char>>::empty());
                assert(drop_front_empty(Seq::<Seq<char>>::empty()) =~= Seq::<Seq<char>>::empty());
                assert(drop_front_empty(seq![Seq::<char>::empty()]) =~= Seq::<
                    Seq<char>,
                >::empty());
                assert(rs =~= Seq::<Seq<char>>::empty());
                assert(!has_exit_marker(rs));
            }
            return None;
        }
        let rows = clean_lines(input);
        proof {
            assert(seq_views(rows@) == rs);
            assert(rows@.len() == rs.len());
        }
        // Locate the exit marker, scanning rows top to bottom.
        let mut exit_x: usize = 0;
        let mut exit_y: usize = 0;
        let mut found = false;
        let nrows = rows.len();
        let mut y: usize = 0;
        while y < nrows && !found
            invariant
                rs == clean_spec(input@),
                seq_views(rows@) == rs,
                nrows == rs.len(),
                y <= nrows,
                !found ==> forall|y2: int, x2: int|
                    0 <= y2 < y && 0 <= x2 < rs[y2].len() ==> (#[trigger] rs[y2][x2]) != 'x',
                found ==> exit_x < usize::MAX && exit_y < usize::MAX && 0 <= exit_y < rs.len()
                    && 0 <= exit_x < rs[exit_y as int].len() && rs[exit_y as int][exit_x as int]
                    == 'x' && (forall|y2: int, x2: int|
                    0 <= y2 < exit_y && 0 <= x2 < rs[y2].len() ==> (#[trigger] rs[y2][x2]) != 'x')
                    && (forall|x2: int|
                    0 <= x2 < exit_x ==> (#[trigger] rs[exit_y as int][x2]) != 'x'),
            decreases nrows - y,
        {
            let row = &rows[y];
            proof {
                assert(row@ == rs[y as int]);
            }
            let rl = row.len();
            let mut x: usize = 0;
            while x < rl && !found
                invariant
                    rs == clean_spec(input@),
                    seq_views(rows@) == rs,
                    nrows == rs.len(),
                    y < nrows,
                    row@ == rs[y as int],
                    rl == row@.len(),
                    x <= rl,
                    !found ==> forall|y2: int, x2: int|
                        0 <= y2 < y && 0 <= x2 < rs[y2].len() ==> (#[trigger] rs[y2][x2]) != 'x',
                    !found ==> forall|x2: int|
                        0 <= x2 < x ==> (#[trigger] rs[y as int][x2]) != 'x',
                    found ==> exit_x < usize::MAX && exit_y < usize::MAX && 0 <= exit_y < rs.len()
                        && 0 <= exit_x < rs[exit_y as int].len() && rs[exit_y as int][exit_x as int]
                        == 'x' && (forall|y2: int, x2: int|
                        0 <= y2 < exit_y && 0 <= x2 < rs[y2].len() ==> (#[trigger] rs[y2][x2])
                            != 'x') && (forall|x2: int|
                        0 <= x2 < exit_x ==> (#[trigger] rs[exit_y as int][x2]) != 'x'),
                decreases rl - x,
            {
                if row[x] == 'x' {
                    exit_x = x;
                    exit_y = y;
                    found = true;
                }
                x = x + 1;
            }
            y = y + 1;
        }
        if !found {
            proof {
                assert(!has_exit_marker(rs));
            }
            return None;
        }
        let ghost mx = exit_x as int;
        let ghost my = exit_y as int;
        // Account for the border.
        if exit_x != 0 {
            exit_x = exit_x - 1;
        }
        if exit_y != 0 {
            exit_y = exit_y - 1;
        }
        proof {
            assert((exit_x as int, exit_y as int) == adjust(mx, my));
        }
        if rows.len() < 2 || rows[0].len() < 2 {
            proof {
                if rows@.len() >= 2 {
                    assert(rows@[0]@ == rs[0]);
                }
            }
            return None;
        }
        proof {
            assert(rows@[0]@ == rs[0]);
        }
        let width = rows[0].len() - 2;
        let height = rows.len() - 2;
        // Group vehicle cells by their character, in scan order.
        let mut groups: Vec<(char, Vec<Position>)> = Vec::new();
        let mut gy: usize = 0;
        while gy < nrows
            invariant
                rs == clean_spec(input@),
                seq_views(rows@) == rs,
                nrows == rs.len(),
                gy <= nrows,
                forall|a: int, b: int|
                    0 <= a < b < groups@.len() ==> (#[trigger] groups@[a]).0 != (
                    #[trigger] groups@[b]).0,
                forall|a: int| 0 <= a < groups@.len() ==> (#[trigger] groups@[a]).1@.len() >= 1,
                small_picture(rs) ==> forall|a: int, i: int|
                    0 <= a < groups@.len() && 0 <= i < (#[trigger] groups@[a]).1@.len() ==> (
                    #[trigger] groups@[a].1@[i]).0 <= 65534 && groups@[a].1@[i].1 <= 65534,
                small_picture(rs) ==> forall|a: int|
                    0 <= a < groups@.len() ==> (#[trigger] groups@[a]).1@.len() <= 65535 * gy,
                group_ids(groups@) == rows_chars(rs, gy as int),
                forall|a: int|
                    0 <= a < groups@.len() ==> (#[trigger] groups@[a]).1@ == rows_cells(
                        rs,
                        groups@[a].0,
                        gy as int,
                    ),
                forall|c2: char|
                    !group_ids(groups@).contains(c2) ==> #[trigger] rows_cells(rs, c2, gy as int)
                        == Seq::<Position>::empty(),
            decreases nrows - gy,
        {
            let row = &rows[gy];
            proof {
                assert(row@ == rs[gy as int]);
            }
            let rl = row.len();
            let mut gx: usize = 0;
            proof {
                assert forall|a: int| 0 <= a < groups@.len() implies (#[trigger] groups@[a]).1@
                    == rows_cells(rs, groups@[a].0, gy as int) + row_cells(
                    rs[gy as int],
                    gy as int,
                    groups@[a].0,
                    0,
                ) by {
                    assert(rows_cells(rs, groups@[a].0, gy as int) + row_cells(
                        rs[gy as int],
                        gy as int,
                        groups@[a].0,
                        0,
                    ) =~= rows_cells(rs, groups@[a].0, gy as int));
                }
                assert forall|c2: char| !group_ids(groups@).contains(c2) implies rows_cells(
                    rs,
                    c2,
                    gy as int,
                ) + #[trigger] row_cells(rs[gy as int], gy as int, c2, 0) == Seq::<
                    Position,
                >::empty() by {
                    assert(rows_cells(rs, c2, gy as int) + row_cells(rs[gy as int], gy as int, c2, 0)
                        =~= rows_cells(rs, c2, gy as int));
                }
            }
            while gx < rl
                invariant
                    rs == clean_spec(input@),
                    seq_views(rows@) == rs,
                    nrows == rs.len(),
                    gy < nrows,
                    row@ == rs[gy as int],
                    rl == row@.len(),
                    gx <= rl,
                    forall|a: int, b: int|
                        0 <= a < b < groups@.len() ==> (#[trigger] groups@[a]).0 != (
                        #[trigger] groups@[b]).0,
                    forall|a: int| 0 <= a < groups@.len() ==> (#[trigger] groups@[a]).1@.len() >= 1,
                    small_picture(rs) ==> forall|a: int, i: int|
                        0 <= a < groups@.len() && 0 <= i < (#[trigger] groups@[a]).1@.len() ==> (
                        #[trigger] groups@[a].1@[i]).0 <= 65534 && groups@[a].1@[i].1 <= 65534,
                    small_picture(rs) ==> forall|a: int|
                        0 <= a < groups@.len() ==> (#[trigger] groups@[a]).1@.len() <= 65535 * gy
                            + gx,
                    group_ids(groups@) == row_chars(
                        rows_chars(rs, gy as int),
                        rs[gy as int],
                        gy as int,
                        gx as int,
                    ),
                    forall|a: int|
                        0 <= a < groups@.len() ==> (#[trigger] groups@[a]).1@ == rows_cells(
                            rs,
                            groups@[a].0,
                            gy as int,
                        ) + row_cells(rs[gy as int], gy as int, groups@[a].0, gx as int),
                    forall|c2: char|
                        !group_ids(groups@).contains(c2) ==> rows_cells(rs, c2, gy as int)
                            + #[trigger] row_cells(rs[gy as int], gy as int, c2, gx as int)
                            == Seq::<Position>::empty(),
                decreases rl - gx,
            {
                let c = row[gx];
                let ghost gmap0 = group_ids(groups@);
                if !is_non_vehicle(c) {
                    if gx == 0 || gy == 0 {
                        // A vehicle character on the top or left border: malformed.
                        proof {
                            assert(is_vehicle_spec(rs[gy as int][gx as int]));
                            assert(!border_clean(rs));
                        }
                        return None;
                    }
                    let mut e: usize = 0;
                    while e < groups.len() && groups[e].0 != c
                        invariant
                            e <= groups@.len(),
                            forall|a: int| 0 <= a < e ==> (#[trigger] groups@[a]).0 != c,
                        decreases groups@.len() - e,
                    {
                        e = e + 1;
                    }
                    let ghost gold = groups@;
                    if e < groups.len() {
                        groups[e].1.push((gx - 1, gy - 1));
                        proof {
                            assert(gold[e as int].0 == c);
                            assert(group_ids(gold)[e as int] == c);
                            assert(group_ids(gold).contains(c));
                            assert(group_ids(groups@) =~= group_ids(gold));
                            assert(insert_new(gmap0, c) == gmap0);
                            assert(group_ids(groups@)[e as int] == c);
                        }
                    } else {
                        let mut ps: Vec<Position> = Vec::new();
                        ps.push((gx - 1, gy - 1));
                        groups.push((c, ps));
                        proof {
                            assert(!group_ids(gold).contains(c)) by {
                                if group_ids(gold).contains(c) {
                                    let w = choose|w: int|
                                        0 <= w < group_ids(gold).len() && group_ids(gold)[w] == c;
                                    assert(gold[w].0 == c);
                                    assert(false);
                                }
                            }
                            assert(group_ids(groups@) =~= gmap0.push(c));
                            assert(insert_new(gmap0, c) == gmap0.push(c));
                            assert(group_ids(groups@)[group_ids(groups@).len() - 1] == c);
                            assert(rows_cells(rs, c, gy as int) + row_cells(
                                rs[gy as int],
                                gy as int,
                                c,
                                gx as int,
                            ) == Seq::<Position>::empty());
                            assert(groups@[groups@.len() - 1].1@ =~= Seq::<
                                Position,
                            >::empty().push((((gx - 1) as usize), ((gy - 1) as usize))));
                        }
                    }
                    proof {
                        assert(rs[gy as int][gx as int] == c && is_vehicle_spec(c) && gx > 0 && gy
                            > 0);
                        assert forall|c2: char| #[trigger] row_cells(
                            rs[gy as int],
                            gy as int,
                            c2,
                            gx + 1,
                        ) == (if c2 == c {
                            row_cells(rs[gy as int], gy as int, c2, gx as int).push(
                                (((gx - 1) as usize), ((gy - 1) as usize)),
                            )
                        } else {
                            row_cells(rs[gy as int], gy as int, c2, gx as int)
                        }) by {}
                        assert(row_chars(
                            rows_chars(rs, gy as int),
                            rs[gy as int],
                            gy as int,
                            gx + 1,
                        ) == insert_new(gmap0, c));
                        assert forall|a: int|
                            0 <= a < groups@.len() implies (#[trigger] groups@[a]).1@
                            == rows_cells(rs, groups@[a].0, gy as int) + row_cells(
                            rs[gy as int],
                            gy as int,
                            groups@[a].0,
                            gx + 1,
                        ) by {
                            if groups@[a].0 == c {
                                assert(groups@[a].1@ =~= rows_cells(rs, c, gy as int) + row_cells(
                                    rs[gy as int],
                                    gy as int,
                                    c,
                                    gx as int,
                                ).push((((gx - 1) as usize), ((gy - 1) as usize))));
                            }
                        }
                        assert(group_ids(groups@).contains(c)) by {
                            assert(exists|w: int|
                                0 <= w < groups@.len() && (#[trigger] group_ids(groups@)[w]) == c);
                        }
                        assert forall|c2: char|
                            !group_ids(groups@).contains(c2) implies rows_cells(rs, c2, gy as int)
                            + #[trigger] row_cells(rs[gy as int], gy as int, c2, gx + 1) == Seq::<
                            Position,
                        >::empty() by {
                            assert(c2 != c);
                            assert(!gmap0.contains(c2)) by {
                                if gmap0.contains(c2) {
                                    let w = choose|w: int|
                                        0 <= w < gmap0.len() && gmap0[w] == c2;
                                    assert(group_ids(groups@)[w] == c2);
                                    assert(group_ids(groups@).contains(c2));
                                    assert(false);
                                }
                            }
                            assert(row_cells(rs[gy as int], gy as int, c2, gx + 1) == row_cells(
                                rs[gy as int],
                                gy as int,
                                c2,
                                gx as int,
                            ));
                        }
                    }
                } else {
                    proof {
                        assert(!is_vehicle_spec(rs[gy as int][gx as int]));
                        assert forall|c2: char| #[trigger] row_cells(
                            rs[gy as int],
                            gy as int,
                            c2,
                            gx + 1,
                        ) == row_cells(rs[gy as int], gy as int, c2, gx as int) by {}
                        assert(row_chars(
                            rows_chars(rs, gy as int),
                            rs[gy as int],
                            gy as int,
                            gx + 1,
                        ) == row_chars(
                            rows_chars(rs, gy as int),
                            rs[gy as int],
                            gy as int,
                            gx as int,
                        ));
                    }
                }
                gx = gx + 1;
            }
            proof {
                if small_picture(rs) {
                    assert(rs[gy as int].len() <= 65535);
                }
                assert(rl == rs[gy as int].len());
                assert forall|c2: char| #[trigger] rows_cells(rs, c2, gy + 1) == rows_cells(
                    rs,
                    c2,
                    gy as int,
                ) + row_cells(rs[gy as int], gy as int, c2, rl as int) by {}
                assert(rows_chars(rs, gy + 1) == row_chars(
                    rows_chars(rs, gy as int),
                    rs[gy as int],
                    gy as int,
                    rl as int,
                ));
                assert forall|c2: char|
                    !group_ids(groups@).contains(c2) implies #[trigger] rows_cells(rs, c2, gy + 1)
                    == Seq::<Position>::empty() by {
                    assert(rows_cells(rs, c2, gy as int) + row_cells(
                        rs[gy as int],
                        gy as int,
                        c2,
                        gx as int,
                    ) == Seq::<Position>::empty());
                    assert(rows_cells(rs, c2, gy as int).len() == 0);
                    assert(row_cells(rs[gy as int], gy as int, c2, rl as int).len() == 0);
                    assert(rows_cells(rs, c2, gy + 1) =~= Seq::<Position>::empty());
                }
            }
            gy = gy + 1;
        }
        // Build the vehicles; a board too large for the cell arithmetic is
        // refused.
        let mut cars: Vec<Car> = Vec::new();
        let mut gi: usize = 0;
        let ng = groups.len();
        while gi < ng
            invariant
                rs == clean_spec(input@),
                ng == groups@.len(),
                nrows == rs.len(),
                gi <= ng,
                cars@.len() == gi,
                forall|a: int, b: int|
                    0 <= a < b < groups@.len() ==> (#[trigger] groups@[a]).0 != (
                    #[trigger] groups@[b]).0,
                forall|a: int| 0 <= a < groups@.len() ==> (#[trigger] groups@[a]).1@.len() >= 1,
                small_picture(rs) ==> forall|a: int, i: int|
                    0 <= a < groups@.len() && 0 <= i < (#[trigger] groups@[a]).1@.len() ==> (
                    #[trigger] groups@[a].1@[i]).0 <= 65534 && groups@[a].1@[i].1 <= 65534,
                small_picture(rs) ==> forall|a: int|
                    0 <= a < groups@.len() ==> (#[trigger] groups@[a]).1@.len() <= 65535 * 65535,
                group_ids(groups@) == vehicle_chars(rs),
                forall|a: int|
                    0 <= a < groups@.len() ==> (#[trigger] groups@[a]).1@ == cells_of(
                        rs,
                        groups@[a].0,
                    ),
                forall|a: int| 0 <= a < gi ==> (#[trigger] cars@[a]).id == groups@[a].0,
                forall|a: int| 0 <= a < gi ==> (#[trigger] cars@[a]).wf(),
                forall|a: int| 0 <= a < gi ==> (#[trigger] cars@[a]).car_type == (
                if cars@[a].id == 'X' {
                    CarType::Player
                } else {
                    CarType::Other
                }),
                forall|a: int| 0 <= a < gi ==> (#[trigger] cars@[a]).length == cells_of(
                    rs,
                    cars@[a].id,
                ).len(),
                forall|a: int| 0 <= a < gi ==> (#[trigger] cars@[a]).horizontal == (forall|i: int|
                    0 <= i < cells_of(rs, cars@[a].id).len() ==> (#[trigger] cells_of(
                        rs,
                        cars@[a].id,
                    )[i]).1 == cells_of(rs, cars@[a].id)[0].1),
                forall|a: int, i: int|
                    0 <= a < gi && 0 <= i < cells_of(rs, (#[trigger] cars@[a]).id).len()
                        ==> cars@[a].x <= (#[trigger] cells_of(rs, cars@[a].id)[i]).0 && cars@[a].y
                        <= cells_of(rs, cars@[a].id)[i].1,
                forall|a: int| 0 <= a < gi ==> exists|i: int|
                    0 <= i < cells_of(rs, (#[trigger] cars@[a]).id).len() && cars@[a].x == (
                    #[trigger] cells_of(rs, cars@[a].id)[i]).0,
                forall|a: int| 0 <= a < gi ==> exists|i: int|
                    0 <= i < cells_of(rs, (#[trigger] cars@[a]).id).len() && cars@[a].y == (
                    #[trigger] cells_of(rs, cars@[a].id)[i]).1,
            decreases ng - gi,
        {
            let id = groups[gi].0;
            let mut ps: Vec<Position> = Vec::new();
            let src = &groups[gi].1;
            let mut k: usize = 0;
            while k < src.len()
                invariant
                    k <= src@.len(),
                    ps@.len() == k,
                    forall|i: int| 0 <= i < k ==> (#[trigger] ps@[i]) == src@[i],
                decreases src@.len() - k,
            {
                ps.push(src[k]);
                k = k + 1;
            }
            let ghost psv = ps@;
            proof {
                assert(psv =~= groups@[gi as int].1@);
                assert(psv == cells_of(rs, id));
            }
            let car = Car::new(id, ps);
            if car.length > usize::MAX - car.x || car.length > usize::MAX - car.y {
                proof {
                    if small_picture(rs) {
                        assert(psv == groups@[gi as int].1@);
                        let w = choose|i: int| 0 <= i < psv.len() && car.x == (#[trigger] psv[i]).0;
                        assert(psv[w] == groups@[gi as int].1@[w]);
                        assert(car.x <= 65534);
                        let w2 = choose|i: int|
                            0 <= i < psv.len() && car.y == (#[trigger] psv[i]).1;
                        assert(psv[w2] == groups@[gi as int].1@[w2]);
                        assert(car.y <= 65534);
                        assert(car.length <= 65535 * 65535);
                        assert(usize::MAX >= 0xffff_ffff);
                        assert(false);
                    }
                }
                return None;
            }
            cars.push(car);
            gi = gi + 1;
        }
        let g = Grid { width, height, exit: (exit_x, exit_y), cars };
        proof {
            assert forall|a: int, b: int|
                0 <= a < b < g.cars@.len() implies (#[trigger] g.cars@[a]).id != (
            #[trigger] g.cars@[b]).id by {
                assert(g.cars@[a].id == groups@[a].0);
                assert(g.cars@[b].id == groups@[b].0);
            }
            assert(exit_x < usize::MAX && exit_y < usize::MAX);
        }
        Some(g)
    }
}

} // verus!
