//! Grid coordinates and the neighbourhood of a cell.
use vstd::prelude::*;

verus! {

/// A cell position `(x, y)`: `x` is the column, `y` the row.
pub type Pos = (usize, usize);

/// `(x, y)` lies on a grid of `columns` columns and `rows` rows.
pub open spec fn in_bounds(columns: usize, rows: usize, p: Pos) -> bool {
    p.0 < columns && p.1 < rows
}

/// Two distinct positions that share an edge or a corner.
pub open spec fn adjacent(p: Pos, q: Pos) -> bool {
    &&& p != q
    &&& p.0 <= q.0 + 1
    &&& q.0 <= p.0 + 1
    &&& p.1 <= q.1 + 1
    &&& q.1 <= p.1 + 1
}

/// The one-element sequence `[(x, y)]` when `c` holds, else the empty one.
pub open spec fn pos_if(c: bool, x: int, y: int) -> Seq<Pos> {
    if c {
        seq![(x as usize, y as usize)]
    } else {
        Seq::empty()
    }
}

/// The neighbours of `(x, y)` on the grid, in the order in which
/// `with_surrounding_cells` lists them; positions off the grid are left out.
pub open spec fn neighbor_seq(columns: usize, rows: usize, x: usize, y: usize) -> Seq<Pos> {
    let first_x = x == 0;
    let first_y = y == 0;
    let last_x = x + 1 >= columns;
    let last_y = y + 1 >= rows;
    pos_if(!first_x && !first_y, x - 1, y - 1)
        + pos_if(!first_x, x - 1, y as int)
        + pos_if(!first_y, x as int, y - 1)
        + pos_if(!last_x && !last_y, x + 1, y + 1)
        + pos_if(!last_x, x + 1, y as int)
        + pos_if(!last_y, x as int, y + 1)
        + pos_if(!first_x && !last_y, x - 1, y + 1)
        + pos_if(!last_x && !first_y, x + 1, y - 1)
}

proof fn lemma_pos_if(c: bool, x: int, y: int)
    ensures
        forall|q: Pos| #[trigger]
            pos_if(c, x, y).contains(q) <==> (c && q == (x as usize, y as usize)),
        pos_if(c, x, y).no_duplicates(),
        pos_if(c, x, y).len() == if c { 1int } else { 0int },
{
    if c {
        assert(pos_if(c, x, y)[0] == (x as usize, y as usize));
    }
}

proof fn lemma_concat(a: Seq<Pos>, b: Seq<Pos>)
    ensures
        forall|q: Pos| #[trigger] (a + b).contains(q) <==> (a.contains(q) || b.contains(q)),
        (a.no_duplicates() && b.no_duplicates() && (forall|q: Pos|
            a.contains(q) ==> !b.contains(q))) ==> (a + b).no_duplicates(),
{
    assert forall|q: Pos| #[trigger] (a + b).contains(q) <==> (a.contains(q) || b.contains(q)) by {
        if a.contains(q) {
            let i = choose|i: int| 0 <= i < a.len() && a[i] == q;
            assert((a + b)[i] == q);
        }
        if b.contains(q) {
            let i = choose|i: int| 0 <= i < b.len() && b[i] == q;
            assert((a + b)[a.len() + i] == q);
        }
        if (a + b).contains(q) {
            let i = choose|i: int| 0 <= i < (a + b).len() && (a + b)[i] == q;
            if i < a.len() {
                assert(a[i] == q);
            } else {
                assert(b[i - a.len()] == q);
            }
        }
    }
    if a.no_duplicates() && b.no_duplicates() && (forall|q: Pos| a.contains(q) ==> !b.contains(q)) {
        let s = a + b;
        assert forall|i: int, j: int| 0 <= i < s.len() && 0 <= j < s.len() && i != j implies s[i]
            != s[j] by {
            if i < a.len() && j >= a.len() {
                assert(a.contains(s[i]));
                assert(b[j - a.len()] == s[j]);
            } else if j < a.len() && i >= a.len() {
                assert(a.contains(s[j]));
                assert(b[i - a.len()] == s[i]);
            }
        }
    }
}

/// `q` is one of the eight positions around `(x, y)` that stay on the grid,
/// stated case by case as `neighbor_seq` lists them.
spec fn listed_neighbor(columns: usize, rows: usize, x: usize, y: usize, q: Pos) -> bool {
    let first_x = x == 0;
    let first_y = y == 0;
    let last_x = x + 1 >= columns;
    let last_y = y + 1 >= rows;
    ||| (!first_x && !first_y && q == ((x - 1) as usize, (y - 1) as usize))
    ||| (!first_x && q == ((x - 1) as usize, y))
    ||| (!first_y && q == (x, (y - 1) as usize))
    ||| (!last_x && !last_y && q == ((x + 1) as usize, (y + 1) as usize))
    ||| (!last_x && q == ((x + 1) as usize, y))
    ||| (!last_y && q == (x, (y + 1) as usize))
    ||| (!first_x && !last_y && q == ((x - 1) as usize, (y + 1) as usize))
    ||| (!last_x && !first_y && q == ((x + 1) as usize, (y - 1) as usize))
}

proof fn lemma_listed_neighbor(columns: usize, rows: usize, x: usize, y: usize, q: Pos)
    requires
        in_bounds(columns, rows, (x, y)),
    ensures
        listed_neighbor(columns, rows, x, y, q) <==> (in_bounds(columns, rows, q) && adjacent(
            (x, y),
            q,
        )),
{
}

/// The neighbours of a cell are exactly the positions on the grid that share an
/// edge or a corner with it: no position off the grid, none twice, at most eight.
pub proof fn lemma_neighbors_in_grid(columns: usize, rows: usize, x: usize, y: usize)
    requires
        in_bounds(columns, rows, (x, y)),
    ensures
        forall|q: Pos| #[trigger]
            neighbor_seq(columns, rows, x, y).contains(q) <==> (in_bounds(columns, rows, q)
                && adjacent((x, y), q)),
        neighbor_seq(columns, rows, x, y).no_duplicates(),
        neighbor_seq(columns, rows, x, y).len() <= 8,
{
    let first_x = x == 0;
    let first_y = y == 0;
    let last_x = x + 1 >= columns;
    let last_y = y + 1 >= rows;
    let p0 = pos_if(!first_x && !first_y, x - 1, y - 1);
    let p1 = pos_if(!first_x, x - 1, y as int);
    let p2 = pos_if(!first_y, x as int, y - 1);
    let p3 = pos_if(!last_x && !last_y, x + 1, y + 1);
    let p4 = pos_if(!last_x, x + 1, y as int);
    let p5 = pos_if(!last_y, x as int, y + 1);
    let p6 = pos_if(!first_x && !last_y, x - 1, y + 1);
    let p7 = pos_if(!last_x && !first_y, x + 1, y - 1);
    lemma_pos_if(!first_x && !first_y, x - 1, y - 1);
    lemma_pos_if(!first_x, x - 1, y as int);
    lemma_pos_if(!first_y, x as int, y - 1);
    lemma_pos_if(!last_x && !last_y, x + 1, y + 1);
    lemma_pos_if(!last_x, x + 1, y as int);
    lemma_pos_if(!last_y, x as int, y + 1);
    lemma_pos_if(!first_x && !last_y, x - 1, y + 1);
    lemma_pos_if(!last_x && !first_y, x + 1, y - 1);
    let s1 = p0 + p1;
    let s2 = s1 + p2;
    let s3 = s2 + p3;
    let s4 = s3 + p4;
    let s5 = s4 + p5;
    let s6 = s5 + p6;
    let s7 = s6 + p7;
    lemma_concat(p0, p1);
    lemma_concat(s1, p2);
    lemma_concat(s2, p3);
    lemma_concat(s3, p4);
    lemma_concat(s4, p5);
    lemma_concat(s5, p6);
    lemma_concat(s6, p7);
    assert(neighbor_seq(columns, rows, x, y) == s7);
    assert forall|q: Pos| #[trigger] s7.contains(q) <==> listed_neighbor(columns, rows, x, y, q) by {
    }
    assert forall|q: Pos| #[trigger] s7.contains(q) <==> (in_bounds(columns, rows, q) && adjacent(
        (x, y),
        q,
    )) by {
        lemma_listed_neighbor(columns, rows, x, y, q);
    }
}

/// Lists the neighbours of `(x, y)` on a grid of `columns` columns and `rows`
/// rows: the positions that share an edge or a corner with it, never one off
/// the grid.
pub fn with_surrounding_cells(x: usize, y: usize, columns: usize, rows: usize) -> (r: Vec<Pos>)
    requires
        in_bounds(columns, rows, (x, y)),
    ensures
        r@ == neighbor_seq(columns, rows, x, y),
        forall|q: Pos| #[trigger]
            r@.contains(q) <==> (in_bounds(columns, rows, q) && adjacent((x, y), q)),
        forall|i: int| 0 <= i < r@.len() ==> in_bounds(columns, rows, #[trigger] r@[i]),
        r@.no_duplicates(),
        r@.len() <= 8,
{
    proof {
        lemma_neighbors_in_grid(columns, rows, x, y);
    }
    let first_x = x == 0;
    let first_y = y == 0;
    let last_x = x == columns - 1;
    let last_y = y == rows - 1;
    let mut r: Vec<Pos> = Vec::new();
    if !first_x && !first_y {
        r.push((x - 1, y - 1));
    }
    if !first_x {
        r.push((x - 1, y));
    }
    if !first_y {
        r.push((x, y - 1));
    }
    if !last_x && !last_y {
        r.push((x + 1, y + 1));
    }
    if !last_x {
        r.push((x + 1, y));
    }
    if !last_y {
        r.push((x, y + 1));
    }
    if !first_x && !last_y {
        r.push((x - 1, y + 1));
    }
    if !last_x && !first_y {
        r.push((x + 1, y - 1));
    }
    assert(r@ =~= neighbor_seq(columns, rows, x, y));
    assert(forall|i: int| 0 <= i < r@.len() ==> r@.contains(#[trigger] r@[i]));
    r
}

} // verus!
