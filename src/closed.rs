//! When traced contours close: a segment family in which every point starts as
//! many segments as it ends has only closed polylines in any assembly of it.
use crate::contour::{
    all_segments, assembled, cell_segments, coord_spec, field_segments, fraction_spec, grid_spec,
    none_starts_at, on_border, polyline_segments, row_segments, rows_segments, Field, Framed, Point,
    Segment,
};
use vstd::multiset::Multiset;
use vstd::prelude::*;

verus! {

broadcast use vstd::seq_lib::group_to_multiset_ensures, vstd::multiset::group_multiset_axioms;

/// Whether a segment starts at `p`.
pub open spec fn starts_at(p: Point) -> spec_fn(Segment) -> bool {
    |s: Segment| s.0 == p
}

/// Whether a segment ends at `p`.
pub open spec fn ends_at(p: Point) -> spec_fn(Segment) -> bool {
    |s: Segment| s.1 == p
}

/// Number of segments of `ms` that start at `p`.
pub open spec fn out_degree(ms: Multiset<Segment>, p: Point) -> nat {
    ms.filter(starts_at(p)).len()
}

/// Number of segments of `ms` that end at `p`.
pub open spec fn in_degree(ms: Multiset<Segment>, p: Point) -> nat {
    ms.filter(ends_at(p)).len()
}

/// Every point starts as many segments of `segs` as it ends.
pub open spec fn balanced(segs: Seq<Segment>) -> bool {
    forall|p: Point| #[trigger] out_degree(segs.to_multiset(), p) == in_degree(segs.to_multiset(), p)
}

proof fn lemma_degree_add(a: Multiset<Segment>, b: Multiset<Segment>, p: Point)
    ensures
        out_degree(a.add(b), p) == out_degree(a, p) + out_degree(b, p),
        in_degree(a.add(b), p) == in_degree(a, p) + in_degree(b, p),
{
    let fo = starts_at(p);
    let fi = ends_at(p);
    assert(a.add(b).filter(fo) =~= a.filter(fo).add(b.filter(fo)));
    assert(a.add(b).filter(fi) =~= a.filter(fi).add(b.filter(fi)));
}

proof fn lemma_degree_insert(a: Multiset<Segment>, s: Segment, p: Point)
    ensures
        out_degree(a.insert(s), p) == out_degree(a, p) + if s.0 == p { 1nat } else { 0 },
        in_degree(a.insert(s), p) == in_degree(a, p) + if s.1 == p { 1nat } else { 0 },
{
    lemma_degree_add(a, Multiset::singleton(s), p);
    let fo = starts_at(p);
    let fi = ends_at(p);
    let one = Multiset::singleton(s);
    if s.0 == p {
        assert(one.filter(fo) =~= one);
    } else {
        assert(one.filter(fo) =~= Multiset::empty());
    }
    if s.1 == p {
        assert(one.filter(fi) =~= one);
    } else {
        assert(one.filter(fi) =~= Multiset::empty());
    }
}

proof fn lemma_no_start(ms: Multiset<Segment>, p: Point)
    requires
        none_starts_at(ms, p),
    ensures
        out_degree(ms, p) == 0,
{
    assert(ms.filter(starts_at(p)) =~= Multiset::empty());
}

/// Along a polyline, each point is entered as often as it is left, but for its
/// first point (left once more) and its last point (entered once more).
proof fn lemma_walk(c: Seq<Point>, r: Point)
    requires
        c.len() >= 2,
    ensures
        in_degree(polyline_segments(c).to_multiset(), r) + (if r == c[0] { 1nat } else { 0 })
            == out_degree(polyline_segments(c).to_multiset(), r) + (if r == c.last() { 1nat } else { 0 }),
    decreases c.len(),
{
    let ps = polyline_segments(c);
    if c.len() == 2 {
        assert(ps =~= seq![(c[0], c[1])]);
        assert(ps.to_multiset() =~= Multiset::<Segment>::empty().insert((c[0], c[1])));
        lemma_degree_insert(Multiset::empty(), (c[0], c[1]), r);
        assert(Multiset::<Segment>::empty().filter(starts_at(r)) =~= Multiset::empty());
        assert(Multiset::<Segment>::empty().filter(ends_at(r)) =~= Multiset::empty());
    } else {
        let d = c.drop_last();
        lemma_walk(d, r);
        assert(ps =~= polyline_segments(d).push((d.last(), c.last())));
        lemma_degree_insert(polyline_segments(d).to_multiset(), (d.last(), c.last()), r);
    }
}

proof fn lemma_all_segments_append(a: Seq<Seq<Point>>, b: Seq<Seq<Point>>)
    ensures
        all_segments(a + b) == all_segments(a) + all_segments(b),
    decreases b.len(),
{
    if b.len() == 0 {
        assert(a + b =~= a);
        assert(all_segments(a) + all_segments(b) =~= all_segments(a));
    } else {
        lemma_all_segments_append(a, b.drop_last());
        assert((a + b).drop_last() =~= a + b.drop_last());
        assert((a + b).last() == b.last());
        assert(all_segments(a + b) =~= all_segments(a) + all_segments(b));
    }
}

/// Closed polylines enter every point as often as they leave it.
proof fn lemma_closed_balanced(cs: Seq<Seq<Point>>, r: Point)
    requires
        forall|k: int| 0 <= k < cs.len() ==> #[trigger] cs[k].len() >= 2 && cs[k][0] == cs[k].last(),
    ensures
        in_degree(all_segments(cs).to_multiset(), r) == out_degree(all_segments(cs).to_multiset(), r),
    decreases cs.len(),
{
    if cs.len() == 0 {
        assert(all_segments(cs).to_multiset() =~= Multiset::empty());
        assert(Multiset::<Segment>::empty().filter(starts_at(r)) =~= Multiset::empty());
        assert(Multiset::<Segment>::empty().filter(ends_at(r)) =~= Multiset::empty());
    } else {
        let d = cs.drop_last();
        assert forall|k: int| 0 <= k < d.len() implies #[trigger] d[k].len() >= 2 && d[k][0]
            == d[k].last() by {
            assert(d[k] == cs[k]);
        }
        lemma_closed_balanced(d, r);
        assert(cs.last() == cs[cs.len() - 1]);
        lemma_walk(cs.last(), r);
        vstd::seq_lib::lemma_multiset_commutative(all_segments(d), polyline_segments(cs.last()));
        lemma_degree_add(all_segments(d).to_multiset(), polyline_segments(cs.last()).to_multiset(), r);
    }
}

/// Polylines none of which has a segment starting at `r`.
proof fn lemma_none_start(cs: Seq<Seq<Point>>, r: Point)
    requires
        forall|k: int| 0 <= k < cs.len() ==> none_starts_at(#[trigger] polyline_segments(cs[k]).to_multiset(), r),
    ensures
        out_degree(all_segments(cs).to_multiset(), r) == 0,
    decreases cs.len(),
{
    if cs.len() == 0 {
        assert(all_segments(cs).to_multiset() =~= Multiset::empty());
        lemma_no_start(Multiset::empty(), r);
    } else {
        let d = cs.drop_last();
        assert forall|k: int| 0 <= k < d.len() implies none_starts_at(
            #[trigger] polyline_segments(d[k]).to_multiset(),
            r,
        ) by {
            assert(d[k] == cs[k]);
        }
        lemma_none_start(d, r);
        assert(cs.last() == cs[cs.len() - 1]);
        lemma_no_start(polyline_segments(cs.last()).to_multiset(), r);
        vstd::seq_lib::lemma_multiset_commutative(all_segments(d), polyline_segments(cs.last()));
        lemma_degree_add(all_segments(d).to_multiset(), polyline_segments(cs.last()).to_multiset(), r);
    }
}

/// If every point starts as many segments of `segs` as it ends, then every
/// polyline of an assembly of `segs` (such as the one [`crate::contour::march`]
/// returns) is closed: it ends where it starts.
pub proof fn lemma_balanced_assembly_is_closed(cs: Seq<Seq<Point>>, segs: Seq<Segment>, w: int, h: int)
    requires
        assembled(cs, segs, w, h),
        balanced(segs),
    ensures
        forall|k: int| 0 <= k < cs.len() ==> (#[trigger] cs[k])[0] == cs[k].last(),
{
    lemma_closed_prefix(cs, segs, w, h, cs.len() as int);
}

proof fn lemma_closed_prefix(cs: Seq<Seq<Point>>, segs: Seq<Segment>, w: int, h: int, j: int)
    requires
        assembled(cs, segs, w, h),
        balanced(segs),
        0 <= j <= cs.len(),
    ensures
        forall|k: int| 0 <= k < j ==> (#[trigger] cs[k])[0] == cs[k].last(),
    decreases j,
{
    if j > 0 {
        let k = j - 1;
        lemma_closed_prefix(cs, segs, w, h, k);
        let c = cs[k];
        let r = c.last();
        let before = cs.subrange(0, k);
        let after = cs.subrange(k + 1, cs.len() as int);
        assert(cs =~= before + seq![c] + after);
        lemma_all_segments_append(before + seq![c], after);
        lemma_all_segments_append(before, seq![c]);
        assert(seq![c].drop_last() =~= Seq::<Seq<Point>>::empty());
        assert(seq![c].last() == c);
        assert(all_segments(seq![c].drop_last()) == Seq::<Segment>::empty());
        assert(all_segments(seq![c]) =~= polyline_segments(c));
        let ta = all_segments(before);
        let tc = polyline_segments(c);
        let tb = all_segments(after);
        vstd::seq_lib::lemma_multiset_commutative(ta, tc);
        vstd::seq_lib::lemma_multiset_commutative(ta + tc, tb);
        assert(all_segments(cs) == ta + tc + tb);
        lemma_degree_add(ta.to_multiset(), tc.to_multiset(), r);
        lemma_degree_add(ta.to_multiset().add(tc.to_multiset()), tb.to_multiset(), r);
        assert forall|i: int| 0 <= i < before.len() implies #[trigger] before[i].len() >= 2
            && before[i][0] == before[i].last() by {
            assert(before[i] == cs[i]);
        }
        lemma_closed_balanced(before, r);
        assert forall|i: int| 0 <= i < after.len() implies none_starts_at(
            #[trigger] polyline_segments(after[i]).to_multiset(),
            r,
        ) by {
            assert(after[i] == cs[k + 1 + i]);
        }
        lemma_none_start(after, r);
        lemma_walk(c, r);
        assert(out_degree(segs.to_multiset(), r) == in_degree(segs.to_multiset(), r));
    }
}

/// Segments started at `p` minus segments ended at `p`.
pub open spec fn degree_gap(segs: Seq<Segment>, p: Point) -> int {
    out_degree(segs.to_multiset(), p) - in_degree(segs.to_multiset(), p)
}

proof fn lemma_gap_append(a: Seq<Segment>, b: Seq<Segment>, p: Point)
    ensures
        degree_gap(a + b, p) == degree_gap(a, p) + degree_gap(b, p),
{
    vstd::seq_lib::lemma_multiset_commutative(a, b);
    lemma_degree_add(a.to_multiset(), b.to_multiset(), p);
}

proof fn lemma_gap_small(segs: Seq<Segment>, p: Point)
    requires
        segs.len() <= 2,
    ensures
        degree_gap(segs, p) == (if segs.len() >= 1 {
            (if segs[0].0 == p { 1int } else { 0 }) - (if segs[0].1 == p { 1int } else { 0 })
        } else {
            0
        }) + (if segs.len() == 2 {
            (if segs[1].0 == p { 1int } else { 0 }) - (if segs[1].1 == p { 1int } else { 0 })
        } else {
            0
        }),
{
    let e = Multiset::<Segment>::empty();
    assert(e.filter(starts_at(p)) =~= e);
    assert(e.filter(ends_at(p)) =~= e);
    let n = Seq::<Segment>::empty();
    assert(n.to_multiset() =~= e);
    if segs.len() == 0 {
        assert(segs.to_multiset() =~= e);
    } else if segs.len() == 1 {
        assert(segs =~= n.push(segs[0]));
        assert(segs.to_multiset() =~= e.insert(segs[0]));
        lemma_degree_insert(e, segs[0], p);
    } else {
        assert(segs =~= n.push(segs[0]).push(segs[1]));
        assert(n.push(segs[0]).to_multiset() =~= e.insert(segs[0]));
        assert(segs.to_multiset() =~= e.insert(segs[0]).insert(segs[1]));
        lemma_degree_insert(e, segs[0], p);
        lemma_degree_insert(e.insert(segs[0]), segs[1], p);
    }
}

/// The crossing point on the horizontal grid edge from sample `(x, y)` to `(x + 1, y)`.
pub open spec fn h_point<F: Field>(f: &F, z: int, x: int, y: int) -> Point {
    Point { x: coord_spec(x, fraction_spec(z, f.value(x, y), f.value(x + 1, y))), y: grid_spec(y) }
}

/// The crossing point on the vertical grid edge from sample `(x, y)` to `(x, y + 1)`.
pub open spec fn v_point<F: Field>(f: &F, z: int, x: int, y: int) -> Point {
    Point { x: grid_spec(x), y: coord_spec(y, fraction_spec(z, f.value(x, y), f.value(x, y + 1))) }
}

/// Whether samples `a` and `b` lie on different sides of `z`.
pub open spec fn crosses(z: int, a: int, b: int) -> bool {
    (a > z) != (b > z)
}

/// The horizontal edge from `(x, y)` to `(x + 1, y)` as seen from `p`: +1 when it
/// is crossed at `p` with its right sample above `z`, -1 when crossed at `p` the
/// other way, 0 otherwise.
pub open spec fn h_term<F: Field>(f: &F, z: int, x: int, y: int, p: Point) -> int {
    if crosses(z, f.value(x, y), f.value(x + 1, y)) && p == h_point(f, z, x, y) {
        if f.value(x + 1, y) > z { 1 } else { -1 }
    } else {
        0
    }
}

/// The vertical edge from `(x, y)` to `(x, y + 1)` as seen from `p`: +1 when it is
/// crossed at `p` with its upper sample above `z`, -1 when crossed at `p` the other
/// way, 0 otherwise.
pub open spec fn v_term<F: Field>(f: &F, z: int, x: int, y: int, p: Point) -> int {
    if crosses(z, f.value(x, y), f.value(x, y + 1)) && p == v_point(f, z, x, y) {
        if f.value(x, y) > z { 1 } else { -1 }
    } else {
        0
    }
}

/// Each cell starts a segment at every crossing of its top and left edges where it
/// ends one in the neighbour across that edge, and the other way round.
proof fn lemma_cell_gap<F: Field>(f: &F, z: int, x: int, y: int, p: Point)
    ensures
        degree_gap(cell_segments(f, z, x, y), p) == h_term(f, z, x, y, p) - h_term(f, z, x, y + 1, p)
            + v_term(f, z, x, y, p) - v_term(f, z, x + 1, y, p),
{
    let segs = cell_segments(f, z, x, y);
    assert(segs.len() <= 2);
    lemma_gap_small(segs, p);
}

spec fn h_sum<F: Field>(f: &F, z: int, y: int, n: nat, p: Point) -> int
    decreases n,
{
    if n == 0 {
        0
    } else {
        h_sum(f, z, y, (n - 1) as nat, p) + h_term(f, z, n - 1, y, p)
    }
}

proof fn lemma_row_gap<F: Field>(f: &F, z: int, y: int, n: nat, p: Point)
    ensures
        degree_gap(row_segments(f, z, y, n), p) == h_sum(f, z, y, n, p) - h_sum(f, z, y + 1, n, p)
            + v_term(f, z, 0, y, p) - v_term(f, z, n as int, y, p),
    decreases n,
{
    if n == 0 {
        lemma_gap_small(Seq::<Segment>::empty(), p);
    } else {
        lemma_row_gap(f, z, y, (n - 1) as nat, p);
        lemma_gap_append(row_segments(f, z, y, (n - 1) as nat), cell_segments(f, z, n - 1, y), p);
        lemma_cell_gap(f, z, n - 1, y, p);
    }
}

/// A border row whose samples all lie on one side of `z` has no crossing.
proof fn lemma_border_row_quiet<F: Field>(f: &F, z: int, above: bool, y: int, n: nat, p: Point)
    requires
        f.width() >= 2,
        y == 0 || y == f.height() - 1,
        0 <= y < f.height(),
        n <= f.width() - 1,
        forall|a: int, b: int|
            0 <= a < f.width() && 0 <= b < f.height() && on_border(a, b, f.width() as int, f.height() as int)
                ==> (#[trigger] f.value(a, b) > z) == above,
    ensures
        h_sum(f, z, y, n, p) == 0,
    decreases n,
{
    if n > 0 {
        lemma_border_row_quiet(f, z, above, y, (n - 1) as nat, p);
        assert(f.value(n - 1, y) > z <==> above);
        assert(f.value(n as int, y) > z <==> above);
    }
}

proof fn lemma_rows_gap<F: Field>(f: &F, z: int, above: bool, m: nat, p: Point)
    requires
        f.width() >= 2,
        f.height() >= 2,
        m <= f.height() - 1,
        forall|a: int, b: int|
            0 <= a < f.width() && 0 <= b < f.height() && on_border(a, b, f.width() as int, f.height() as int)
                ==> (#[trigger] f.value(a, b) > z) == above,
    ensures
        degree_gap(rows_segments(f, z, m), p) == -h_sum(f, z, m as int, (f.width() - 1) as nat, p),
    decreases m,
{
    let n = (f.width() - 1) as nat;
    if m == 0 {
        lemma_gap_small(Seq::<Segment>::empty(), p);
        lemma_border_row_quiet(f, z, above, 0, n, p);
    } else {
        let y = m - 1;
        lemma_rows_gap(f, z, above, (m - 1) as nat, p);
        lemma_gap_append(rows_segments(f, z, (m - 1) as nat), row_segments(f, z, y, n), p);
        lemma_row_gap(f, z, y, n, p);
        assert(f.value(0, y) > z <==> above);
        assert(f.value(0, y + 1) > z <==> above);
        assert(f.value(n as int, y) > z <==> above);
        assert(f.value(n as int, y + 1) > z <==> above);
    }
}

/// A field whose border samples all lie on the same side of `z` has balanced
/// segments at `z`: every crossing point starts as many segments as it ends.
pub proof fn lemma_quiet_border_balanced<F: Field>(f: &F, z: int, above: bool)
    requires
        forall|a: int, b: int|
            0 <= a < f.width() && 0 <= b < f.height() && on_border(a, b, f.width() as int, f.height() as int)
                ==> (#[trigger] f.value(a, b) > z) == above,
    ensures
        balanced(field_segments(f, z)),
{
    assert forall|p: Point|
        #[trigger] out_degree(field_segments(f, z).to_multiset(), p) == in_degree(
            field_segments(f, z).to_multiset(),
            p,
        ) by {
        if f.width() >= 2 && f.height() >= 2 {
            let m = (f.height() - 1) as nat;
            lemma_rows_gap(f, z, above, m, p);
            lemma_border_row_quiet(f, z, above, m as int, (f.width() - 1) as nat, p);
        } else {
            lemma_gap_small(Seq::<Segment>::empty(), p);
        }
    }
}

/// Every contour of a field whose border samples all lie on the same side of `z`
/// is closed: each polyline of an assembly of its segments at `z`, such as the one
/// [`crate::contour::march`] returns, ends where it starts.
pub proof fn lemma_quiet_border_contours_closed<F: Field>(f: &F, z: int, above: bool, cs: Seq<Seq<Point>>)
    requires
        forall|a: int, b: int|
            0 <= a < f.width() && 0 <= b < f.height() && on_border(a, b, f.width() as int, f.height() as int)
                ==> (#[trigger] f.value(a, b) > z) == above,
        assembled(cs, field_segments(f, z), f.width() as int, f.height() as int),
    ensures
        forall|k: int| 0 <= k < cs.len() ==> (#[trigger] cs[k])[0] == cs[k].last(),
{
    lemma_quiet_border_balanced(f, z, above);
    lemma_balanced_assembly_is_closed(cs, field_segments(f, z), f.width() as int, f.height() as int);
}

/// Framing closes every contour: at any threshold, each polyline traced on a
/// [`Framed`] field ends where it starts.
pub proof fn lemma_framed_contours_closed<'s, F: Field>(f: &Framed<'s, F>, z: int, cs: Seq<Seq<Point>>)
    requires
        assembled(cs, field_segments(f, z), f.width() as int, f.height() as int),
    ensures
        forall|k: int| 0 <= k < cs.len() ==> (#[trigger] cs[k])[0] == cs[k].last(),
{
    lemma_quiet_border_contours_closed(f, z, f.border_value() > z, cs);
}

} // verus!
