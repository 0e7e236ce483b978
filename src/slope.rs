//! Walking the grid along a slope and counting the trees met.
use vstd::prelude::*;

use vstd::arithmetic::div_mod::{
    lemma_div_plus_one, lemma_mod_add_multiples_vanish, lemma_mod_multiples_basic, lemma_mod_twice,
};

use crate::piste::{cell_at, Piste};
use crate::terrain::Terrain;

verus! {

/// A step of the walk: `top` rows down and `right` columns to the right.
#[derive(Copy, Clone, Debug, PartialEq, Eq, Structural)]
pub struct Vector {
    pub top: usize,
    pub right: usize,
}

impl Vector {
    pub fn new(top: usize, right: usize) -> (v: Vector)
        ensures
            v.top == top,
            v.right == right,
    {
        Vector { top, right }
    }
}

/// The number of cells the walk visits on a grid of `n` rows, stepping
/// `d` rows at a time, when it stands at row `row`: it stops once the row
/// is at or past the last one.
pub open spec fn visits_from(n: int, d: int, row: int) -> nat
    decreases (if row < n {
        n - row
    } else {
        0
    }),
{
    if d <= 0 || row >= n {
        0
    } else {
        1 + visits_from(n, d, row + d)
    }
}

/// The number of trees the walk meets from cell (`row`, `col`) on, moving
/// `d` rows down and `r` columns right after each cell.
pub open spec fn trees_from(g: Seq<Seq<Terrain>>, d: int, r: int, row: int, col: int) -> nat
    decreases (if row < g.len() {
        g.len() - row
    } else {
        0
    }),
{
    if d <= 0 || row >= g.len() {
        0
    } else {
        (if cell_at(g, row, col) == Terrain::Tree {
            1nat
        } else {
            0nat
        }) + trees_from(g, d, r, row + d, col + r)
    }
}

/// The number of trees met on the walk along `v` from the top-left corner.
pub open spec fn trees_on_slope(g: Seq<Seq<Terrain>>, v: Vector) -> nat {
    trees_from(g, v.top as int, v.right as int, 0, 0)
}

/// Every row that the walk stepping `d` rows at a time visits is non-empty.
pub open spec fn walk_rows_nonempty(g: Seq<Seq<Terrain>>, d: int) -> bool {
    forall|i: int| 0 <= i < g.len() && i % d == 0 ==> #[trigger] g[i].len() > 0
}

/// The walk visits `ceil(n / d)` cells, and meets at most that many trees.
pub proof fn lemma_walk_length(g: Seq<Seq<Terrain>>, v: Vector)
    requires
        v.top >= 1,
    ensures
        visits_from(g.len() as int, v.top as int, 0) == (g.len() + v.top - 1) / (v.top as int),
        trees_on_slope(g, v) <= visits_from(g.len() as int, v.top as int, 0),
{
    let d = v.top as int;
    lemma_visits_count(g.len() as int, d, 0);
    if g.len() == 0 {
        assert((d - 1) / d == 0) by (nonlinear_arith)
            requires
                d >= 1,
        ;
    }
    lemma_trees_le_visits(g, v.top as int, v.right as int, 0, 0);
}

proof fn lemma_visits_count(n: int, d: int, row: int)
    requires
        d >= 1,
        0 <= row,
    ensures
        visits_from(n, d, row) == (if row >= n {
            0
        } else {
            (n - row + d - 1) / d
        }),
    decreases (if row < n {
        n - row
    } else {
        0
    }),
{
    if row < n {
        lemma_visits_count(n, d, row + d);
        if row + d >= n {
            assert((n - row + d - 1) / d == 1) by (nonlinear_arith)
                requires
                    1 <= n - row <= d,
            ;
        } else {
            lemma_div_plus_one(n - row - 1, d);
        }
    }
}

proof fn lemma_trees_le_visits(g: Seq<Seq<Terrain>>, d: int, r: int, row: int, col: int)
    ensures
        trees_from(g, d, r, row, col) <= visits_from(g.len() as int, d, row),
    decreases (if row < g.len() {
        g.len() - row
    } else {
        0
    }),
{
    if d > 0 && row < g.len() {
        lemma_trees_le_visits(g, d, r, row + d, col + r);
    }
}

/// The grid repeats to the right: looking up a column is the same as looking
/// up that column modulo the row's width, however far right it lies.
pub proof fn lemma_wrap(g: Seq<Seq<Terrain>>, row: int, col: int)
    requires
        0 <= row < g.len(),
        g[row].len() > 0,
    ensures
        cell_at(g, row, col) == cell_at(g, row, col % (g[row].len() as int)),
        cell_at(g, row, col + g[row].len()) == cell_at(g, row, col),
{
    let w = g[row].len() as int;
    lemma_mod_twice(col, w);
    lemma_mod_add_multiples_vanish(col, w);
}

/// Counts the trees met on the walk along `vector`, from the top-left corner
/// down past the last row.
pub fn count_trees(piste: &Piste, vector: &Vector) -> (n: usize)
    requires
        vector.top >= 1,
        walk_rows_nonempty(piste@, vector.top as int),
    ensures
        n == trees_on_slope(piste@, *vector),
        n <= (piste@.len() + vector.top - 1) / (vector.top as int),
{
    let ghost g = piste@;
    let d = vector.top;
    let r = vector.right;
    let rows = piste.rows();
    let mut row: usize = 0;
    // The column grows without bound as the walk goes down; at most `rows`
    // steps of at most `usize::MAX` columns each always fit in a `u128`.
    let mut left: u128 = 0;
    let mut count: usize = 0;
    let ghost mut k: int = 0;
    while row < rows
        invariant
            g == piste@,
            rows == g.len(),
            d == vector.top,
            r == vector.right,
            d >= 1,
            walk_rows_nonempty(g, d as int),
            0 <= k <= rows,
            row <= rows,
            row < rows ==> row == k * d,
            left == k * r,
            count <= k,
            count + trees_from(g, d as int, r as int, row as int, left as int) == trees_from(
                g,
                d as int,
                r as int,
                0,
                0,
            ),
        decreases rows - row,
    {
        proof {
            lemma_mod_multiples_basic(k, d as int);
            assert(k < rows) by (nonlinear_arith)
                requires
                    row == k * d,
                    row < rows,
                    d >= 1,
                    k >= 0,
            ;
            lemma_wrap(g, row as int, left as int);
            assert(k * r + r <= u128::MAX) by (nonlinear_arith)
                requires
                    0 <= k + 1 <= usize::MAX,
                    0 <= r <= usize::MAX,
                    usize::MAX <= 0xffff_ffff_ffff_ffffu128,
            ;
        }
        let ghost row0 = row as int;
        let ghost left0 = left as int;
        assert(trees_from(g, d as int, r as int, row0, left0) == (if cell_at(g, row0, left0)
            == Terrain::Tree {
            1nat
        } else {
            0nat
        }) + trees_from(g, d as int, r as int, row0 + d, left0 + r));
        let width = piste.model[row].len();
        let col = (left % (width as u128)) as usize;
        let t = piste.get_terrain(row, col);
        if t == Some(Terrain::Tree) {
            count = count + 1;
        }
        left = left + r as u128;
        proof {
            assert(left == (k + 1) * r) by (nonlinear_arith)
                requires
                    left == k * r + r,
            ;
            k = k + 1;
        }
        if d < rows - row {
            row = row + d;
            assert(row == k * d) by (nonlinear_arith)
                requires
                    row == (k - 1) * d + d,
            ;
        } else {
            assert(trees_from(g, d as int, r as int, row0 + d, left0 + r) == 0);
            row = rows;
        }
    }
    proof {
        lemma_walk_length(g, *vector);
    }
    count
}

/// The product of the tree counts of the walks along each of `vs`.
pub open spec fn slopes_product(g: Seq<Seq<Terrain>>, vs: Seq<Vector>) -> nat
    decreases vs.len(),
{
    if vs.len() == 0 {
        1
    } else {
        slopes_product(g, vs.drop_last()) * trees_on_slope(g, vs.last())
    }
}

/// Taking one walk out of the product divides its count out.
proof fn lemma_product_remove(g: Seq<Seq<Terrain>>, vs: Seq<Vector>, j: int)
    requires
        0 <= j < vs.len(),
    ensures
        slopes_product(g, vs) == trees_on_slope(g, vs[j]) * slopes_product(g, vs.remove(j)),
    decreases vs.len(),
{
    if j < vs.len() - 1 {
        let rest = vs.drop_last();
        lemma_product_remove(g, rest, j);
        assert(vs.remove(j).drop_last() =~= rest.remove(j));
        assert(vs.remove(j).last() == vs.last());
        let a = trees_on_slope(g, vs[j]) as int;
        let b = slopes_product(g, rest.remove(j)) as int;
        let c = trees_on_slope(g, vs.last()) as int;
        assert(slopes_product(g, rest) == a * b);
        assert(slopes_product(g, vs.remove(j)) == b * c);
        assert(slopes_product(g, vs) == (a * b) * c);
        assert((a * b) * c == a * (b * c)) by (nonlinear_arith);
    } else {
        assert(vs.remove(j) =~= vs.drop_last());
        let p = slopes_product(g, vs.drop_last()) as int;
        let c = trees_on_slope(g, vs.last()) as int;
        assert(p * c == c * p) by (nonlinear_arith);
    }
}

/// The product of the per-slope counts does not depend on the order in which
/// the slopes are taken.
pub proof fn lemma_product_reorder(g: Seq<Seq<Terrain>>, vs: Seq<Vector>, ws: Seq<Vector>)
    requires
        vs.to_multiset() == ws.to_multiset(),
    ensures
        slopes_product(g, vs) == slopes_product(g, ws),
    decreases vs.len(),
{
    broadcast use vstd::seq_lib::group_to_multiset_ensures;

    if vs.len() == 0 {
        assert(vs.to_multiset().len() == 0);
        assert(ws.to_multiset().len() == 0);
        assert(ws.len() == 0);
    } else {
        let last = vs.len() - 1;
        let v = vs[last];
        assert(vs.to_multiset().count(v) > 0);
        assert(ws.contains(v));
        let j = choose|j: int| 0 <= j < ws.len() && ws[j] == v;
        assert(vs.remove(last).to_multiset() == ws.remove(j).to_multiset());
        lemma_product_reorder(g, vs.remove(last), ws.remove(j));
        lemma_product_remove(g, vs, last);
        lemma_product_remove(g, ws, j);
    }
}

/// A product with a zero count in it is zero.
proof fn lemma_product_zero(g: Seq<Seq<Terrain>>, vs: Seq<Vector>, j: int)
    requires
        0 <= j < vs.len(),
        trees_on_slope(g, vs[j]) == 0,
    ensures
        slopes_product(g, vs) == 0,
{
    lemma_product_remove(g, vs, j);
}

/// With no zero count, the product over a prefix is at most the whole product.
proof fn lemma_prefix_product_le(g: Seq<Seq<Terrain>>, vs: Seq<Vector>, i: int)
    requires
        0 <= i <= vs.len(),
        forall|k: int| 0 <= k < vs.len() ==> trees_on_slope(g, #[trigger] vs[k]) >= 1,
    ensures
        slopes_product(g, vs.subrange(0, i)) <= slopes_product(g, vs),
    decreases vs.len(),
{
    if i < vs.len() {
        let rest = vs.drop_last();
        assert(vs.subrange(0, i) =~= rest.subrange(0, i));
        assert forall|k: int| 0 <= k < rest.len() implies trees_on_slope(g, #[trigger] rest[k])
            >= 1 by {
            assert(rest[k] == vs[k]);
        }
        lemma_prefix_product_le(g, rest, i);
        let p = slopes_product(g, rest) as int;
        let c = trees_on_slope(g, vs.last()) as int;
        assert(p <= p * c) by (nonlinear_arith)
            requires
                p >= 0,
                c >= 1,
        ;
    } else {
        assert(vs.subrange(0, i) =~= vs);
    }
}

/// The product of the tree counts of the walks along each of `vectors`, or
/// `None` where that product does not fit in a `usize`.
pub fn trees_product(piste: &Piste, vectors: &Vec<Vector>) -> (p: Option<usize>)
    requires
        forall|k: int|
            0 <= k < vectors@.len() ==> (#[trigger] vectors@[k]).top >= 1 && walk_rows_nonempty(
                piste@,
                vectors@[k].top as int,
            ),
    ensures
        p == (if slopes_product(piste@, vectors@) <= usize::MAX {
            Some(slopes_product(piste@, vectors@) as usize)
        } else {
            None
        }),
{
    let ghost g = piste@;
    let ghost vs = vectors@;
    let mut counts: Vec<usize> = Vec::new();
    let mut i: usize = 0;
    while i < vectors.len()
        invariant
            g == piste@,
            vs == vectors@,
            i <= vs.len(),
            counts@.len() == i,
            forall|k: int|
                0 <= k < vs.len() ==> (#[trigger] vs[k]).top >= 1 && walk_rows_nonempty(
                    g,
                    vs[k].top as int,
                ),
            forall|k: int| 0 <= k < i ==> #[trigger] counts@[k] == trees_on_slope(g, vs[k]),
        decreases vectors.len() - i,
    {
        let c = count_trees(piste, &vectors[i]);
        counts.push(c);
        i = i + 1;
    }
    i = 0;
    while i < counts.len()
        invariant
            g == piste@,
            vs == vectors@,
            counts@.len() == vs.len(),
            i <= vs.len(),
            forall|k: int| 0 <= k < vs.len() ==> #[trigger] counts@[k] == trees_on_slope(g, vs[k]),
            forall|k: int| 0 <= k < i ==> #[trigger] counts@[k] >= 1,
        decreases counts.len() - i,
    {
        if counts[i] == 0 {
            proof {
                lemma_product_zero(g, vs, i as int);
            }
            return Some(0);
        }
        i = i + 1;
    }
    assert forall|k: int| 0 <= k < vs.len() implies trees_on_slope(g, #[trigger] vs[k]) >= 1 by {
        assert(counts@[k] >= 1);
    }
    let mut acc: usize = 1;
    i = 0;
    while i < counts.len()
        invariant
            g == piste@,
            vs == vectors@,
            counts@.len() == vs.len(),
            i <= vs.len(),
            forall|k: int| 0 <= k < vs.len() ==> #[trigger] counts@[k] == trees_on_slope(g, vs[k]),
            forall|k: int| 0 <= k < vs.len() ==> trees_on_slope(g, #[trigger] vs[k]) >= 1,
            acc == slopes_product(g, vs.subrange(0, i as int)),
        decreases counts.len() - i,
    {
        assert(vs.subrange(0, i + 1).drop_last() =~= vs.subrange(0, i as int));
        match acc.checked_mul(counts[i]) {
            Some(x) => {
                acc = x;
            },
            None => {
                proof {
                    lemma_prefix_product_le(g, vs, i + 1);
                }
                return None;
            },
        }
        i = i + 1;
    }
    assert(vs.subrange(0, vs.len() as int) =~= vs);
    Some(acc)
}

/// Walking two grids of the same cells along the same slope meets the same
/// number of trees: the count depends on the cells and the slope alone.
pub proof fn lemma_walk_repeatable(g: Seq<Seq<Terrain>>, h: Seq<Seq<Terrain>>, v: Vector)
    requires
        g.len() == h.len(),
        forall|i: int| 0 <= i < g.len() ==> #[trigger] g[i] == h[i],
    ensures
        trees_on_slope(g, v) == trees_on_slope(h, v),
{
    assert(g =~= h);
}

/// On a grid of one row, any walk visits that row's first cell only, and
/// counts one tree exactly when that cell is a tree.
pub proof fn lemma_single_row(g: Seq<Seq<Terrain>>, v: Vector)
    requires
        g.len() == 1,
        g[0].len() > 0,
        v.top >= 1,
    ensures
        visits_from(1, v.top as int, 0) == 1,
        trees_on_slope(g, v) == (if g[0][0] == Terrain::Tree {
            1nat
        } else {
            0nat
        }),
{
    assert(trees_from(g, v.top as int, v.right as int, v.top as int, v.right as int) == 0);
    assert(visits_from(1, v.top as int, v.top as int) == 0);
}

/// The slope whose count is reported on its own.
pub open spec fn first_slope() -> Vector {
    Vector { top: 1, right: 3 }
}

/// The slopes whose counts are multiplied together, in order.
pub open spec fn survey_slope_list() -> Seq<Vector> {
    seq![
        Vector { top: 1, right: 1 },
        Vector { top: 1, right: 3 },
        Vector { top: 1, right: 5 },
        Vector { top: 1, right: 7 },
        Vector { top: 2, right: 1 },
    ]
}

/// The slopes whose counts are multiplied together.
pub fn survey_slopes() -> (v: Vec<Vector>)
    ensures
        v@ == survey_slope_list(),
{
    let v = vec![
        Vector::new(1, 1),
        Vector::new(1, 3),
        Vector::new(1, 5),
        Vector::new(1, 7),
        Vector::new(2, 1),
    ];
    assert(v@ =~= survey_slope_list());
    v
}

/// What a survey of the grid finds: the trees met along the first slope, and
/// the product of the trees met along each surveyed slope (`None` where that
/// product does not fit in a `usize`).
#[derive(Copy, Clone, Debug, PartialEq, Eq, Structural)]
pub struct Survey {
    pub first: usize,
    pub product: Option<usize>,
}

/// Surveys a grid whose rows are all non-empty.
pub fn survey(piste: &Piste) -> (s: Survey)
    requires
        forall|i: int| 0 <= i < piste@.len() ==> #[trigger] piste@[i].len() > 0,
    ensures
        s.first == trees_on_slope(piste@, first_slope()),
        s.product == (if slopes_product(piste@, survey_slope_list()) <= usize::MAX {
            Some(slopes_product(piste@, survey_slope_list()) as usize)
        } else {
            None
        }),
{
    let first = count_trees(piste, &Vector::new(1, 3));
    let slopes = survey_slopes();
    let product = trees_product(piste, &slopes);
    Survey { first, product }
}

} // verus!
