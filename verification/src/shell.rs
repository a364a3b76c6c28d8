//! Closed shells of triangles: every side shared by exactly two faces
//! that run along it in opposite directions.

use vstd::prelude::*;
use crate::hull::Face;

verus! {

/// The three corners differ.
pub open spec fn proper(f: Face) -> bool {
    f.a != f.b && f.b != f.c && f.c != f.a
}

/// Every face has three different corners.
pub open spec fn all_proper(faces: Seq<Face>) -> bool {
    forall|f: int| 0 <= f < faces.len() ==> proper(#[trigger] faces[f])
}

/// No two faces run along the same side in the same direction.
pub open spec fn tight(faces: Seq<Face>) -> bool {
    forall|f: int, g: int, u: int, v: int|
        0 <= f < faces.len() && 0 <= g < faces.len() && #[trigger] faces[f].has_edge(u, v)
            && #[trigger] faces[g].has_edge(u, v) ==> f == g
}

/// Some face runs from `u` to `v`.
pub open spec fn paired(faces: Seq<Face>, u: int, v: int) -> bool {
    exists|g: int| 0 <= g < faces.len() && (#[trigger] faces[g]).has_edge(u, v)
}

/// Along every side of every face, some face runs the other way.
pub open spec fn closed(faces: Seq<Face>) -> bool {
    forall|f: int, u: int, v: int|
        0 <= f < faces.len() && #[trigger] faces[f].has_edge(u, v) ==> paired(faces, v, u)
}

/// A shell: proper faces, tight and closed.
pub open spec fn shell(faces: Seq<Face>) -> bool {
    all_proper(faces) && tight(faces) && closed(faces)
}

/// Some marked face runs from `u` to `v`.
pub open spec fn marked_edge(faces: Seq<Face>, marks: Seq<bool>, u: int, v: int) -> bool {
    exists|g: int| 0 <= g < faces.len() && marks[g] && (#[trigger] faces[g]).has_edge(u, v)
}

/// Some face without a mark runs from `u` to `v`.
pub open spec fn plain_edge(faces: Seq<Face>, marks: Seq<bool>, u: int, v: int) -> bool {
    exists|g: int| 0 <= g < faces.len() && !marks[g] && (#[trigger] faces[g]).has_edge(u, v)
}

/// The side from `u` to `v` is on the rim of the marked faces: a marked
/// face runs along it, and a face without a mark runs back.
pub open spec fn rim(faces: Seq<Face>, marks: Seq<bool>, u: int, v: int) -> bool {
    marked_edge(faces, marks, u, v) && plain_edge(faces, marks, v, u)
}

/// The corner of `f` that follows the corner `v`.
pub open spec fn after(f: Face, v: int) -> int {
    if f.a == v {
        f.b as int
    } else if f.b == v {
        f.c as int
    } else {
        f.a as int
    }
}

/// The face with the same corners, run the other way.
pub open spec fn flipped(f: Face) -> Face {
    Face { a: f.a, b: f.c, c: f.b }
}

/// The marked faces that have the corner `v`.
pub open spec fn fan(faces: Seq<Face>, marks: Seq<bool>, v: int) -> Set<int> {
    Set::new(|g: int| 0 <= g < faces.len() && marks[g] && faces[g].has_corner(v))
}

/// A face that runs back along the side on which `g` leaves `v`.
pub open spec fn beyond(faces: Seq<Face>, v: int, g: int) -> int {
    choose|h: int| 0 <= h < faces.len() && (#[trigger] faces[h]).has_edge(after(faces[g], v), v)
}

/// The rim of the marked faces of a shell has no end: where it runs into a
/// corner, it runs out of it again.
pub proof fn lemma_rim_continues(faces: Seq<Face>, marks: Seq<bool>, u: int, v: int)
    requires
        shell(faces),
        marks.len() == faces.len(),
        rim(faces, marks, u, v),
    ensures
        exists|w: int| rim(faces, marks, v, w),
{
    if !(exists|w: int| rim(faces, marks, v, w)) {
        let n = faces.len() as int;
        let s = fan(faces, marks, v);
        let step = |g: int| beyond(faces, v, g);
        let g0 = choose|g: int| 0 <= g < faces.len() && marks[g] && (#[trigger] faces[g]).has_edge(u, v);
        let h0 = choose|h: int| 0 <= h < faces.len() && !marks[h] && (#[trigger] faces[h]).has_edge(v, u);
        assert(s.contains(g0));
        // every face of the fan leads to another face of the fan
        assert forall|g: int| s.contains(g) implies s.contains(#[trigger] step(g)) && faces[step(
            g,
        )].has_edge(after(faces[g], v), v) by {
            let x = after(faces[g], v);
            assert(faces[g].has_edge(v, x));
            assert(proper(faces[g]));
            assert(paired(faces, x, v));
            let h = beyond(faces, v, g);
            assert(0 <= h < faces.len() && faces[h].has_edge(x, v));
            if !marks[h] {
                assert(marked_edge(faces, marks, v, x));
                assert(plain_edge(faces, marks, x, v));
                assert(rim(faces, marks, v, x));
                assert(false);
            }
        }
        // and no two lead to the same
        assert(vstd::relations::injective_on(step, s)) by {
            assert forall|g1: int, g2: int|
                s.contains(g1) && s.contains(g2) && #[trigger] step(g1) == #[trigger] step(
                    g2,
                ) implies g1 == g2 by {
                let h = step(g1);
                assert(s.contains(step(g1)));
                assert(s.contains(step(g2)));
                assert(proper(faces[h]));
                let x1 = after(faces[g1], v);
                let x2 = after(faces[g2], v);
                assert(faces[h].has_edge(x1, v));
                assert(faces[h].has_edge(x2, v));
                assert(x1 == x2);
                assert(proper(faces[g1]));
                assert(proper(faces[g2]));
                assert(faces[g1].has_edge(v, x1));
                assert(faces[g2].has_edge(v, x1));
            }
        }
        let image = s.map(step);
        let all = vstd::set_lib::set_int_range(0, n);
        vstd::set_lib::lemma_int_range(0, n);
        assert(s.subset_of(all));
        vstd::set_lib::lemma_len_subset(s, all);
        assert(image.subset_of(s)) by {
            assert forall|h: int| image.contains(h) implies s.contains(h) by {
                let g = choose|g: int| s.contains(g) && h == step(g);
                assert(s.contains(step(g)));
            }
        }
        vstd::set_lib::lemma_map_size(s, image, step);
        vstd::set_lib::lemma_subset_equality(image, s);
        assert(image.contains(g0));
        let g = choose|g: int| s.contains(g) && g0 == step(g);
        assert(s.contains(step(g)));
        let x = after(faces[g], v);
        assert(faces[g0].has_edge(x, v));
        assert(proper(faces[g0]));
        assert(x == u);
        assert(proper(faces[g]));
        assert(faces[g].has_edge(v, u));
        assert(g == h0);
        assert(false);
    }
}

/// The rim of the marked faces of a shell has no beginning: where it runs
/// out of a corner, it has run into it.
pub proof fn lemma_rim_begins(faces: Seq<Face>, marks: Seq<bool>, u: int, v: int)
    requires
        shell(faces),
        marks.len() == faces.len(),
        rim(faces, marks, u, v),
    ensures
        exists|w: int| rim(faces, marks, w, u),
{
    let back = Seq::new(faces.len(), |g: int| flipped(faces[g]));
    assert forall|g: int, x: int, y: int| 0 <= g < faces.len() implies (#[trigger] back[g].has_edge(
        x,
        y,
    )) == faces[g].has_edge(y, x) by {}
    assert(all_proper(back));
    assert(tight(back)) by {
        assert forall|f: int, g: int, x: int, y: int|
            0 <= f < back.len() && 0 <= g < back.len() && #[trigger] back[f].has_edge(x, y)
                && #[trigger] back[g].has_edge(x, y) implies f == g by {
            assert(faces[f].has_edge(y, x));
            assert(faces[g].has_edge(y, x));
        }
    }
    assert(closed(back)) by {
        assert forall|f: int, x: int, y: int|
            0 <= f < back.len() && #[trigger] back[f].has_edge(x, y) implies paired(back, y, x) by {
            assert(faces[f].has_edge(y, x));
            assert(paired(faces, x, y));
            let g = choose|g: int| 0 <= g < faces.len() && (#[trigger] faces[g]).has_edge(x, y);
            assert(back[g].has_edge(y, x));
        }
    }
    let g0 = choose|g: int| 0 <= g < faces.len() && marks[g] && (#[trigger] faces[g]).has_edge(u, v);
    let h0 = choose|h: int| 0 <= h < faces.len() && !marks[h] && (#[trigger] faces[h]).has_edge(v, u);
    assert(back[g0].has_edge(v, u));
    assert(back[h0].has_edge(u, v));
    assert(rim(back, marks, v, u));
    lemma_rim_continues(back, marks, v, u);
    let w = choose|w: int| rim(back, marks, u, w);
    let g1 = choose|g: int| 0 <= g < back.len() && marks[g] && (#[trigger] back[g]).has_edge(u, w);
    let h1 = choose|h: int| 0 <= h < back.len() && !marks[h] && (#[trigger] back[h]).has_edge(w, u);
    assert(faces[g1].has_edge(w, u));
    assert(faces[h1].has_edge(u, w));
    assert(rim(faces, marks, w, u));
}

} // verus!
