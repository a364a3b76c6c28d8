//! Sums over the sides of a shell: since every side is run along once in
//! each direction, a quantity that changes sign with the direction sums to
//! zero.

use vstd::prelude::*;
use crate::hull::Face;
use crate::shell::{shell, proper, paired};

verus! {

/// The corner at which side `k` of the faces starts, the sides counted
/// through face by face.
pub open spec fn side_from(faces: Seq<Face>, k: int) -> int {
    let f = faces[k / 3];
    if k % 3 == 0 {
        f.a as int
    } else if k % 3 == 1 {
        f.b as int
    } else {
        f.c as int
    }
}

/// The corner at which side `k` of the faces ends.
pub open spec fn side_to(faces: Seq<Face>, k: int) -> int {
    let f = faces[k / 3];
    if k % 3 == 0 {
        f.b as int
    } else if k % 3 == 1 {
        f.c as int
    } else {
        f.a as int
    }
}

/// The number of sides of the faces.
pub open spec fn sides(faces: Seq<Face>) -> int {
    3 * (faces.len() as int)
}

/// The weight of side `k`.
pub open spec fn weight(faces: Seq<Face>, w: spec_fn(int, int) -> int, k: int) -> int {
    w(side_from(faces, k), side_to(faces, k))
}

/// Side `j` runs back along side `k`.
pub open spec fn answers(faces: Seq<Face>, k: int, j: int) -> bool {
    side_from(faces, j) == side_to(faces, k) && side_to(faces, j) == side_from(faces, k)
}

/// The weight of side `k`, counted at the side `j` that runs back along it.
pub open spec fn hit(faces: Seq<Face>, w: spec_fn(int, int) -> int, k: int, j: int) -> int {
    if answers(faces, k, j) {
        weight(faces, w, k)
    } else {
        0
    }
}

/// The sum of `hit(k, j)` over the first `m` sides `j`.
pub open spec fn row(faces: Seq<Face>, w: spec_fn(int, int) -> int, k: int, m: int) -> int
    decreases m,
{
    if m <= 0 {
        0
    } else {
        row(faces, w, k, m - 1) + hit(faces, w, k, m - 1)
    }
}

/// The sum of `hit(k, j)` over the first `n` sides `k`.
pub open spec fn column(faces: Seq<Face>, w: spec_fn(int, int) -> int, j: int, n: int) -> int
    decreases n,
{
    if n <= 0 {
        0
    } else {
        column(faces, w, j, n - 1) + hit(faces, w, n - 1, j)
    }
}

/// The sum of the rows of the first `n` sides, each over the first `m`.
pub open spec fn by_rows(faces: Seq<Face>, w: spec_fn(int, int) -> int, n: int, m: int) -> int
    decreases n,
{
    if n <= 0 {
        0
    } else {
        by_rows(faces, w, n - 1, m) + row(faces, w, n - 1, m)
    }
}

/// The sum of the columns of the first `m` sides, each over the first `n`.
pub open spec fn by_columns(faces: Seq<Face>, w: spec_fn(int, int) -> int, n: int, m: int) -> int
    decreases m,
{
    if m <= 0 {
        0
    } else {
        by_columns(faces, w, n, m - 1) + column(faces, w, m - 1, n)
    }
}

/// The sum of the weights of the first `n` sides.
pub open spec fn weights(faces: Seq<Face>, w: spec_fn(int, int) -> int, n: int) -> int
    decreases n,
{
    if n <= 0 {
        0
    } else {
        weights(faces, w, n - 1) + weight(faces, w, n - 1)
    }
}

proof fn lemma_columns_grow(faces: Seq<Face>, w: spec_fn(int, int) -> int, n: int, m: int)
    requires
        n >= 0,
        m >= 0,
    ensures
        by_columns(faces, w, n + 1, m) == by_columns(faces, w, n, m) + row(faces, w, n, m),
    decreases m,
{
    if m > 0 {
        lemma_columns_grow(faces, w, n, m - 1);
    }
}

/// A double sum can be taken by rows or by columns.
proof fn lemma_rows_are_columns(faces: Seq<Face>, w: spec_fn(int, int) -> int, n: int, m: int)
    requires
        n >= 0,
        m >= 0,
    ensures
        by_rows(faces, w, n, m) == by_columns(faces, w, n, m),
    decreases n,
{
    if n > 0 {
        lemma_rows_are_columns(faces, w, n - 1, m);
        lemma_columns_grow(faces, w, n - 1, m);
    } else {
        lemma_columns_empty(faces, w, m);
    }
}

proof fn lemma_columns_empty(faces: Seq<Face>, w: spec_fn(int, int) -> int, m: int)
    requires
        m >= 0,
    ensures
        by_columns(faces, w, 0, m) == 0,
    decreases m,
{
    if m > 0 {
        lemma_columns_empty(faces, w, m - 1);
    }
}

/// In a shell, the sides differ from one another.
proof fn lemma_sides_differ(faces: Seq<Face>, k: int, j: int)
    requires
        shell(faces),
        0 <= k < sides(faces),
        0 <= j < sides(faces),
        side_from(faces, k) == side_from(faces, j),
        side_to(faces, k) == side_to(faces, j),
    ensures
        k == j,
{
    let f = faces[k / 3];
    let g = faces[j / 3];
    assert(proper(f));
    assert(proper(g));
    assert(f.has_edge(side_from(faces, k), side_to(faces, k)));
    assert(g.has_edge(side_from(faces, k), side_to(faces, k)));
    assert(k / 3 == j / 3);
}

/// In a shell, some side runs back along each side.
proof fn lemma_side_answered(faces: Seq<Face>, k: int) -> (j: int)
    requires
        shell(faces),
        0 <= k < sides(faces),
    ensures
        0 <= j < sides(faces),
        answers(faces, k, j),
        answers(faces, j, k),
{
    let u = side_from(faces, k);
    let v = side_to(faces, k);
    assert(faces[k / 3].has_edge(u, v));
    assert(paired(faces, v, u));
    let g = choose|g: int| 0 <= g < faces.len() && (#[trigger] faces[g]).has_edge(v, u);
    let f = faces[g];
    if f.a == v && f.b == u {
        3 * g
    } else if f.b == v && f.c == u {
        3 * g + 1
    } else {
        3 * g + 2
    }
}

/// A row over sides of which only side `t` answers.
proof fn lemma_row_single(faces: Seq<Face>, w: spec_fn(int, int) -> int, k: int, t: int, m: int)
    requires
        0 <= t,
        0 <= m,
        answers(faces, k, t),
        forall|j: int| 0 <= j < m && j != t ==> !answers(faces, k, j),
    ensures
        row(faces, w, k, m) == if t < m {
            weight(faces, w, k)
        } else {
            0
        },
    decreases m,
{
    if m > 0 {
        lemma_row_single(faces, w, k, t, m - 1);
    }
}

/// A column over sides of which only side `t` is answered.
proof fn lemma_column_single(faces: Seq<Face>, w: spec_fn(int, int) -> int, j: int, t: int, n: int)
    requires
        0 <= t,
        0 <= n,
        answers(faces, t, j),
        forall|k: int| 0 <= k < n && k != t ==> !answers(faces, k, j),
    ensures
        column(faces, w, j, n) == if t < n {
            weight(faces, w, t)
        } else {
            0
        },
    decreases n,
{
    if n > 0 {
        lemma_column_single(faces, w, j, t, n - 1);
    }
}

/// In a shell, each row sums to the weight of its side.
proof fn lemma_row(faces: Seq<Face>, w: spec_fn(int, int) -> int, k: int)
    requires
        shell(faces),
        0 <= k < sides(faces),
    ensures
        row(faces, w, k, sides(faces)) == weight(faces, w, k),
{
    let t = lemma_side_answered(faces, k);
    assert forall|j: int| 0 <= j < sides(faces) && j != t implies !answers(faces, k, j) by {
        if answers(faces, k, j) {
            lemma_sides_differ(faces, j, t);
        }
    }
    lemma_row_single(faces, w, k, t, sides(faces));
}

/// In a shell, each column sums to the weight of its side run backward.
proof fn lemma_column(faces: Seq<Face>, w: spec_fn(int, int) -> int, j: int)
    requires
        shell(faces),
        0 <= j < sides(faces),
        forall|u: int, v: int| #[trigger] w(u, v) == -w(v, u),
    ensures
        column(faces, w, j, sides(faces)) == -weight(faces, w, j),
{
    let t = lemma_side_answered(faces, j);
    assert forall|k: int| 0 <= k < sides(faces) && k != t implies !answers(faces, k, j) by {
        if answers(faces, k, j) {
            lemma_sides_differ(faces, k, t);
        }
    }
    lemma_column_single(faces, w, j, t, sides(faces));
    assert(weight(faces, w, t) == w(side_to(faces, j), side_from(faces, j)));
}

proof fn lemma_rows_total(faces: Seq<Face>, w: spec_fn(int, int) -> int, n: int)
    requires
        shell(faces),
        0 <= n <= sides(faces),
    ensures
        by_rows(faces, w, n, sides(faces)) == weights(faces, w, n),
    decreases n,
{
    if n > 0 {
        lemma_rows_total(faces, w, n - 1);
        lemma_row(faces, w, n - 1);
    }
}

proof fn lemma_columns_total(faces: Seq<Face>, w: spec_fn(int, int) -> int, m: int)
    requires
        shell(faces),
        0 <= m <= sides(faces),
        forall|u: int, v: int| #[trigger] w(u, v) == -w(v, u),
    ensures
        by_columns(faces, w, sides(faces), m) == -weights(faces, w, m),
    decreases m,
{
    if m > 0 {
        lemma_columns_total(faces, w, m - 1);
        lemma_column(faces, w, m - 1);
    }
}

/// Over the sides of a shell, a weight that changes its sign with the
/// direction of the side sums to zero.
pub proof fn lemma_weights_cancel(faces: Seq<Face>, w: spec_fn(int, int) -> int)
    requires
        shell(faces),
        forall|u: int, v: int| #[trigger] w(u, v) == -w(v, u),
    ensures
        weights(faces, w, sides(faces)) == 0,
{
    let n = sides(faces);
    lemma_rows_total(faces, w, n);
    lemma_columns_total(faces, w, n);
    lemma_rows_are_columns(faces, w, n, n);
}

} // verus!
