//! The cells around a cell: everything within one step in any of the eight
//! directions, cut off at the edges of the board.

use vstd::prelude::*;

verus! {

/// The cell at a column and a row, as a point of the plane.
pub open spec fn cell(col: usize, row: usize) -> (int, int) {
    (col as int, row as int)
}

/// A list of cells as points of the plane.
pub open spec fn cells(list: Seq<(usize, usize)>) -> Seq<(int, int)> {
    Seq::new(list.len(), |i: int| cell(list[i].0, list[i].1))
}

/// Whether the point lies on a board of the given size.
pub open spec fn in_bounds(p: (int, int), width: int, height: int) -> bool {
    0 <= p.0 < width && 0 <= p.1 < height
}

/// Whether two points are distinct and at most one step apart in each direction.
pub open spec fn adjacent(p: (int, int), q: (int, int)) -> bool {
    p != q && -1 <= p.0 - q.0 <= 1 && -1 <= p.1 - q.1 <= 1
}

/// The point alone if it lies on the board, and nothing otherwise.
pub open spec fn on_board(p: (int, int), width: int, height: int) -> Seq<(int, int)> {
    if in_bounds(p, width, height) {
        seq![p]
    } else {
        Seq::empty()
    }
}

/// The neighbours of `p` on a board of the given size, column by column and
/// from the top down within a column.
pub open spec fn neighbour_seq(p: (int, int), width: int, height: int) -> Seq<(int, int)> {
    on_board((p.0 - 1, p.1 - 1), width, height)
        + on_board((p.0 - 1, p.1), width, height)
        + on_board((p.0 - 1, p.1 + 1), width, height)
        + on_board((p.0, p.1 - 1), width, height)
        + on_board((p.0, p.1 + 1), width, height)
        + on_board((p.0 + 1, p.1 - 1), width, height)
        + on_board((p.0 + 1, p.1), width, height)
        + on_board((p.0 + 1, p.1 + 1), width, height)
}

/// How many of the positions `x - 1`, `x`, `x + 1` lie in `0..limit`.
pub open spec fn span(x: int, limit: int) -> int {
    (if 0 <= x - 1 < limit { 1int } else { 0int })
        + (if 0 <= x < limit { 1int } else { 0int })
        + (if 0 <= x + 1 < limit { 1int } else { 0int })
}

/// The list holds, each once, the candidates that lie on the board.
#[verifier::opaque]
spec fn lists(s: Seq<(int, int)>, candidates: Set<(int, int)>, width: int, height: int) -> bool {
    &&& s.no_duplicates()
    &&& forall|q: (int, int)| #[trigger]
        s.contains(q) <==> candidates.contains(q) && in_bounds(q, width, height)
}

/// One more candidate, not among those before, keeps the list as `lists` says.
proof fn lemma_extend(
    s: Seq<(int, int)>,
    candidates: Set<(int, int)>,
    c: (int, int),
    width: int,
    height: int,
)
    requires
        lists(s, candidates, width, height),
        !candidates.contains(c),
    ensures
        lists(s + on_board(c, width, height), candidates.insert(c), width, height),
{
    reveal(lists);
    let t = s + on_board(c, width, height);
    let more = candidates.insert(c);
    assert forall|q: (int, int)| #[trigger] t.contains(q) <==> more.contains(q) && in_bounds(
        q,
        width,
        height,
    ) by {
        if t.contains(q) {
            let i = choose|i: int| 0 <= i < t.len() && t[i] == q;
            if i < s.len() {
                assert(s[i] == q);
                assert(s.contains(q));
            }
        }
        if more.contains(q) && in_bounds(q, width, height) {
            if q == c {
                assert(t[s.len() as int] == q);
            } else {
                assert(s.contains(q));
                let i = choose|i: int| 0 <= i < s.len() && s[i] == q;
                assert(t[i] == q);
            }
        }
    }
    assert forall|i: int, j: int| 0 <= i < t.len() && 0 <= j < t.len() && i != j implies t[i]
        != t[j] by {
        if i < s.len() && j < s.len() {
            assert(s[i] != s[j]);
        } else if i < s.len() {
            assert(s.contains(s[i]));
        } else if j < s.len() {
            assert(s.contains(s[j]));
        }
    }
}

/// The neighbours of a cell are the adjacent cells of the board, each once.
proof fn lemma_neighbours_listed(p: (int, int), width: int, height: int)
    ensures
        neighbour_seq(p, width, height).no_duplicates(),
        forall|q: (int, int)| #[trigger]
            neighbour_seq(p, width, height).contains(q) <==> in_bounds(q, width, height)
                && adjacent(p, q),
{
    let s0 = Seq::<(int, int)>::empty();
    let k0 = Set::<(int, int)>::empty();
    let c1 = (p.0 - 1, p.1 - 1);
    let c2 = (p.0 - 1, p.1);
    let c3 = (p.0 - 1, p.1 + 1);
    let c4 = (p.0, p.1 - 1);
    let c5 = (p.0, p.1 + 1);
    let c6 = (p.0 + 1, p.1 - 1);
    let c7 = (p.0 + 1, p.1);
    let c8 = (p.0 + 1, p.1 + 1);
    let s1 = s0 + on_board(c1, width, height);
    let s2 = s1 + on_board(c2, width, height);
    let s3 = s2 + on_board(c3, width, height);
    let s4 = s3 + on_board(c4, width, height);
    let s5 = s4 + on_board(c5, width, height);
    let s6 = s5 + on_board(c6, width, height);
    let s7 = s6 + on_board(c7, width, height);
    let s8 = s7 + on_board(c8, width, height);
    let k1 = k0.insert(c1);
    let k2 = k1.insert(c2);
    let k3 = k2.insert(c3);
    let k4 = k3.insert(c4);
    let k5 = k4.insert(c5);
    let k6 = k5.insert(c6);
    let k7 = k6.insert(c7);
    let k8 = k7.insert(c8);
    assert(lists(s0, k0, width, height)) by {
        reveal(lists);
    }
    lemma_extend(s0, k0, c1, width, height);
    lemma_extend(s1, k1, c2, width, height);
    lemma_extend(s2, k2, c3, width, height);
    lemma_extend(s3, k3, c4, width, height);
    lemma_extend(s4, k4, c5, width, height);
    lemma_extend(s5, k5, c6, width, height);
    lemma_extend(s6, k6, c7, width, height);
    lemma_extend(s7, k7, c8, width, height);
    assert(s1 =~= on_board(c1, width, height));
    assert(s8 == neighbour_seq(p, width, height));
    assert forall|q: (int, int)| k8.contains(q) <==> adjacent(p, q) by {
        if adjacent(p, q) {
            assert(q == c1 || q == c2 || q == c3 || q == c4 || q == c5 || q == c6 || q == c7 || q
                == c8);
        }
    }
    reveal(lists);
}

/// How many neighbours a cell of the board has.
proof fn lemma_neighbours_len(p: (int, int), width: int, height: int)
    requires
        in_bounds(p, width, height),
    ensures
        neighbour_seq(p, width, height).len() == span(p.0, width) * span(p.1, height) - 1,
{
    let a = span(p.0, width);
    let b = span(p.1, height);
    assert(1 <= a <= 3 && 1 <= b <= 3);
    assert(a * b == if a == 1 {
        b
    } else if a == 2 {
        b + b
    } else {
        b + b + b
    }) by (nonlinear_arith)
        requires
            1 <= a <= 3,
    ;
}

/// The neighbours of a cell are the cells of the board that are adjacent to
/// it, each listed once; there are `span * span - 1` of them when the cell
/// itself lies on the board.
pub proof fn lemma_neighbours(p: (int, int), width: int, height: int)
    ensures
        neighbour_seq(p, width, height).no_duplicates(),
        neighbour_seq(p, width, height).len() <= 8,
        forall|q: (int, int)| #[trigger]
            neighbour_seq(p, width, height).contains(q) <==> in_bounds(q, width, height)
                && adjacent(p, q),
        forall|i: int|
            0 <= i < neighbour_seq(p, width, height).len() ==> in_bounds(
                #[trigger] neighbour_seq(p, width, height)[i],
                width,
                height,
            ) && adjacent(p, neighbour_seq(p, width, height)[i]),
        in_bounds(p, width, height) ==> neighbour_seq(p, width, height).len() == span(p.0, width)
            * span(p.1, height) - 1,
{
    let s = neighbour_seq(p, width, height);
    lemma_neighbours_listed(p, width, height);
    assert forall|i: int| 0 <= i < s.len() implies in_bounds(#[trigger] s[i], width, height)
        && adjacent(p, s[i]) by {
        assert(s.contains(s[i]));
    }
    if in_bounds(p, width, height) {
        lemma_neighbours_len(p, width, height);
    }
}

/// The position `x + step - 1` if it lies in `0..limit`: the one before `x`
/// for step 0, `x` itself for step 1 and the one after `x` for step 2.
fn beside(x: usize, step: u8, limit: usize) -> (found: Option<usize>)
    requires
        step <= 2,
    ensures
        match found {
            Some(y) => y == x + step - 1 && y < limit,
            None => !(0 <= x + step - 1 < limit),
        },
{
    if step == 0 {
        if x >= 1 && x - 1 < limit {
            Some(x - 1)
        } else {
            None
        }
    } else if step == 1 {
        if x < limit {
            Some(x)
        } else {
            None
        }
    } else {
        if x < usize::MAX && x + 1 < limit {
            Some(x + 1)
        } else {
            None
        }
    }
}

/// The bounds of what surrounds the cell at (`col`, `row`) of the board: the
/// least column and row, and then the greatest column and row, that are one
/// step from the cell at most and lie on the board. The neighbours of the
/// cell are the cells within these bounds other than the cell itself.
pub fn surrounding_bounds(col: usize, row: usize, width: usize, height: usize) -> (bounds: (
    (usize, usize),
    (usize, usize),
))
    requires
        col < width,
        row < height,
    ensures
        ({
            let (low, high) = bounds;
            &&& low.0 == if col == 0 {
                0
            } else {
                col - 1
            }
            &&& low.1 == if row == 0 {
                0
            } else {
                row - 1
            }
            &&& high.0 == if col == width - 1 {
                col as int
            } else {
                col + 1
            }
            &&& high.1 == if row == height - 1 {
                row as int
            } else {
                row + 1
            }
            &&& forall|q: (int, int)|
                neighbour_seq(cell(col, row), width as int, height as int).contains(q) <==> q
                    != cell(col, row) && low.0 <= q.0 <= high.0 && low.1 <= q.1 <= high.1
        }),
{
    let min_col = match beside(col, 0, width) {
        Some(c) => c,
        None => col,
    };
    let max_col = match beside(col, 2, width) {
        Some(c) => c,
        None => col,
    };
    let min_row = match beside(row, 0, height) {
        Some(r) => r,
        None => row,
    };
    let max_row = match beside(row, 2, height) {
        Some(r) => r,
        None => row,
    };
    proof {
        lemma_neighbours(cell(col, row), width as int, height as int);
    }
    ((min_col, min_row), (max_col, max_row))
}

/// Adds the cell to the list if its column and its row lie on the board.
fn push_on_board(
    list: &mut Vec<(usize, usize)>,
    col: Option<usize>,
    row: Option<usize>,
    Ghost(p): Ghost<(int, int)>,
    Ghost(width): Ghost<int>,
    Ghost(height): Ghost<int>,
)
    requires
        match col {
            Some(c) => c == p.0 && c < width,
            None => !(0 <= p.0 < width),
        },
        match row {
            Some(r) => r == p.1 && r < height,
            None => !(0 <= p.1 < height),
        },
    ensures
        cells(final(list)@) == cells(old(list)@) + on_board(p, width, height),
{
    match (col, row) {
        (Some(c), Some(r)) => {
            list.push((c, r));
        },
        _ => {},
    }
    assert(cells(list@) =~= cells(old(list)@) + on_board(p, width, height));
}

/// The neighbours of the cell at (`col`, `row`) on a board of the given size:
/// every cell of the board within one step of it in each direction, but not
/// the cell itself. A cell in the interior has eight, one on an edge five and
/// one in a corner three. They are listed column by column, and from the top
/// down within a column.
pub fn neighbours(col: usize, row: usize, width: usize, height: usize) -> (list: Vec<
    (usize, usize),
>)
    ensures
        cells(list@) == neighbour_seq(cell(col, row), width as int, height as int),
        list@.len() <= 8,
{
    let left = beside(col, 0, width);
    let middle = beside(col, 1, width);
    let right = beside(col, 2, width);
    let above = beside(row, 0, height);
    let level = beside(row, 1, height);
    let below = beside(row, 2, height);
    let ghost p = cell(col, row);
    let ghost w = width as int;
    let ghost h = height as int;
    let mut list: Vec<(usize, usize)> = Vec::new();
    assert(cells(list@) + on_board((p.0 - 1, p.1 - 1), w, h) =~= on_board(
        (p.0 - 1, p.1 - 1),
        w,
        h,
    ));
    push_on_board(&mut list, left, above, Ghost((p.0 - 1, p.1 - 1)), Ghost(w), Ghost(h));
    push_on_board(&mut list, left, level, Ghost((p.0 - 1, p.1)), Ghost(w), Ghost(h));
    push_on_board(&mut list, left, below, Ghost((p.0 - 1, p.1 + 1)), Ghost(w), Ghost(h));
    push_on_board(&mut list, middle, above, Ghost((p.0, p.1 - 1)), Ghost(w), Ghost(h));
    push_on_board(&mut list, middle, below, Ghost((p.0, p.1 + 1)), Ghost(w), Ghost(h));
    push_on_board(&mut list, right, above, Ghost((p.0 + 1, p.1 - 1)), Ghost(w), Ghost(h));
    push_on_board(&mut list, right, level, Ghost((p.0 + 1, p.1)), Ghost(w), Ghost(h));
    push_on_board(&mut list, right, below, Ghost((p.0 + 1, p.1 + 1)), Ghost(w), Ghost(h));
    proof {
        lemma_neighbours(p, w, h);
        assert(cells(list@).len() == list@.len());
    }
    list
}

} // verus!
