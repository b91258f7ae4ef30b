//! Marching-squares extraction of iso-value contours from a sampled scalar field.
//!
//! Field samples are integers (fixed-point values chosen by the caller), so every
//! contour point is an exact rational position in field-index space.
use vstd::arithmetic::mul::lemma_mul_is_commutative;
use crate::segments::{cells_of, segments_of, CellKey, CellSet, SegmentsMap};
use vstd::multiset::Multiset;
use vstd::prelude::*;

verus! {

broadcast use vstd::seq_lib::group_to_multiset_ensures, vstd::multiset::group_multiset_axioms;

/// A position along one axis of the field: `whole + num / den`, with `num < den`.
///
/// A coordinate produced by the tracer is in lowest form at the grid lines: a
/// position on a grid line is always written `whole + 0 / 1`.
#[derive(Debug, Clone, Copy, PartialEq, Eq, Structural)]
pub struct Coord {
    pub whole: usize,
    pub num: u64,
    pub den: u64,
}

/// A contour point in field-index space.
#[derive(Debug, Clone, Copy, PartialEq, Eq, Structural)]
pub struct Point {
    pub x: Coord,
    pub y: Coord,
}

/// A directed contour segment, from its start point to its end point.
pub type Segment = (Point, Point);

/// A list of polylines, each an ordered sequence of points.
pub type Contours = Vec<Vec<Point>>;

impl Coord {
    /// The fraction is proper: `0 <= num < den`.
    pub open spec fn wf(self) -> bool {
        &&& self.den > 0
        &&& self.num < self.den
    }
}

/// The fraction `clamp((z - z0) / (z1 - z0), 0, 1)` as a (numerator, denominator)
/// pair, `1 / 2` when `z0 == z1`; both ends of the clamp are written `0 / 1` and `1 / 1`.
pub open spec fn fraction_spec(z: int, z0: int, z1: int) -> (int, int) {
    if z0 == z1 {
        (1, 2)
    } else if z0 < z1 {
        if z <= z0 {
            (0, 1)
        } else if z >= z1 {
            (1, 1)
        } else {
            (z - z0, z1 - z0)
        }
    } else {
        if z >= z0 {
            (0, 1)
        } else if z <= z1 {
            (1, 1)
        } else {
            (z0 - z, z0 - z1)
        }
    }
}

/// The coordinate `whole + n / d` for a fraction `n / d` in `[0, 1]`.
pub open spec fn coord_spec(whole: int, f: (int, int)) -> Coord {
    if f.0 == f.1 {
        Coord { whole: (whole + 1) as usize, num: 0, den: 1 }
    } else {
        Coord { whole: whole as usize, num: f.0 as u64, den: f.1 as u64 }
    }
}

/// The coordinate of a grid line.
pub open spec fn grid_spec(whole: int) -> Coord {
    Coord { whole: whole as usize, num: 0, den: 1 }
}

/// Linear interpolation parameter of the threshold `z` between the samples `z0` and `z1`.
///
/// The result `(n, d)` stands for `n / d`, which is `(z - z0) / (z1 - z0)` clamped to
/// `[0, 1]`, or `1 / 2` when both samples are equal.
pub fn fraction(z: i64, z0: i64, z1: i64) -> (r: (u64, u64))
    ensures
        (r.0 as int, r.1 as int) == fraction_spec(z as int, z0 as int, z1 as int),
        0 <= r.0 <= r.1,
        r.1 > 0,
        z0 != z1 && (z0 < z < z1 || z1 < z < z0) ==> r.0 * (z1 - z0) == (z - z0) * r.1,
        z0 != z1 && (z <= z0 < z1 || z1 < z0 <= z) ==> r.0 == 0,
        z0 != z1 && (z0 < z1 <= z || z <= z1 < z0) ==> r.0 == r.1,
{
    if z0 == z1 {
        (1, 2)
    } else if z0 < z1 {
        if z <= z0 {
            (0, 1)
        } else if z >= z1 {
            (1, 1)
        } else {
            proof {
                lemma_mul_is_commutative(z as int - z0 as int, z1 as int - z0 as int);
            }
            (((z as i128) - (z0 as i128)) as u64, ((z1 as i128) - (z0 as i128)) as u64)
        }
    } else {
        if z >= z0 {
            (0, 1)
        } else if z <= z1 {
            (1, 1)
        } else {
            proof {
                let (a, b) = (z0 as int - z as int, z0 as int - z1 as int);
                assert(a * (z1 - z0) == (z - z0) * b) by (nonlinear_arith)
                    requires
                        a == z0 - z,
                        b == z0 - z1,
                ;
            }
            (((z0 as i128) - (z as i128)) as u64, ((z0 as i128) - (z1 as i128)) as u64)
        }
    }
}

/// The coordinate `whole + f`, for a fraction `f` in `[0, 1]` as returned by [`fraction`].
fn edge_coord(whole: usize, f: (u64, u64)) -> (r: Coord)
    requires
        f.0 <= f.1,
        f.1 > 0,
        whole < usize::MAX,
    ensures
        r == coord_spec(whole as int, (f.0 as int, f.1 as int)),
        r.wf(),
{
    if f.0 == f.1 {
        Coord { whole: whole + 1, num: 0, den: 1 }
    } else {
        Coord { whole, num: f.0, den: f.1 }
    }
}

/// A rectangular scalar field sampled at integer positions.
pub trait Field {
    /// Number of samples along x.
    spec fn width(&self) -> nat;

    /// Number of samples along y.
    spec fn height(&self) -> nat;

    /// The sample at `(x, y)`, for `x < width` and `y < height`.
    spec fn value(&self, x: int, y: int) -> int;

    /// The width and height of the field.
    fn dimensions(&self) -> (r: (usize, usize))
        ensures
            r.0 == self.width(),
            r.1 == self.height(),
    ;

    /// The sample at `(x, y)`.
    fn z_at(&self, x: usize, y: usize) -> (r: i64)
        requires
            x < self.width(),
            y < self.height(),
        ensures
            r == self.value(x as int, y as int),
    ;

    /// This field with every border sample replaced by `border_z + 1`, so that every
    /// contour traced on it closes (see `closed::lemma_framed_contours_closed`).
    fn framed(&self, border_z: i64) -> (r: Framed<'_, Self>) where Self: Sized
        requires
            border_z < i64::MAX,
        ensures
            r.inner() == self,
            r.border_value() == border_z + 1,
    {
        Framed { field: self, border_value: border_z + 1 }
    }
}

/// Whether `(x, y)` lies on the border of a `w` by `h` grid.
pub open spec fn on_border(x: int, y: int, w: int, h: int) -> bool {
    x == 0 || x == w - 1 || y == 0 || y == h - 1
}

/// A field whose border samples all read one fixed value. See [`Field::framed`].
#[derive(Debug, Clone)]
pub struct Framed<'s, F> {
    field: &'s F,
    border_value: i64,
}

impl<'s, F> Framed<'s, F> {
    /// The framed field.
    pub closed spec fn inner(&self) -> &'s F {
        self.field
    }

    /// The value read at every border sample.
    pub closed spec fn border_value(&self) -> int {
        self.border_value as int
    }
}

impl<'s, F: Field> Field for Framed<'s, F> {
    open spec fn width(&self) -> nat {
        self.inner().width()
    }

    open spec fn height(&self) -> nat {
        self.inner().height()
    }

    open spec fn value(&self, x: int, y: int) -> int {
        if on_border(x, y, self.width() as int, self.height() as int) {
            self.border_value()
        } else {
            self.inner().value(x, y)
        }
    }

    fn dimensions(&self) -> (r: (usize, usize)) {
        self.field.dimensions()
    }

    fn z_at(&self, x: usize, y: usize) -> (r: i64) {
        let (w, h) = self.dimensions();
        if x == 0 || x == w - 1 || y == 0 || y == h - 1 {
            self.border_value
        } else {
            self.field.z_at(x, y)
        }
    }
}

/// A field held as a row-major vector of samples.
#[derive(Debug)]
pub struct Grid {
    width: usize,
    height: usize,
    data: Vec<i64>,
}

impl Grid {
    #[verifier::type_invariant]
    closed spec fn sized(&self) -> bool {
        self.data@.len() == self.width * self.height
    }

    pub closed spec fn samples(&self) -> Seq<i64> {
        self.data@
    }

    /// A `width` by `height` field whose sample `(x, y)` is `data[y * width + x]`.
    /// Returns `None` when `data` does not hold exactly `width * height` samples.
    pub fn new(width: usize, height: usize, data: Vec<i64>) -> (r: Option<Grid>)
        ensures
            r is Some <==> data@.len() == width * height,
            r matches Some(g) ==> {
                &&& g.width() == width
                &&& g.height() == height
                &&& g.samples() == data@
                &&& forall|x: int, y: int|
                    0 <= x < width && 0 <= y < height ==> #[trigger] g.value(x, y) == data@[y * width + x]
            },
    {
        proof {
            let (a, b) = (width as int, height as int);
            assert(0 <= a * b <= usize::MAX * usize::MAX) by (nonlinear_arith)
                requires
                    0 <= a <= usize::MAX,
                    0 <= b <= usize::MAX,
            ;
        }
        if (width as u128) * (height as u128) == data.len() as u128 {
            Some(Grid { width, height, data })
        } else {
            None
        }
    }
}

impl Field for Grid {
    closed spec fn width(&self) -> nat {
        self.width as nat
    }

    closed spec fn height(&self) -> nat {
        self.height as nat
    }

    closed spec fn value(&self, x: int, y: int) -> int {
        self.data@[y * self.width + x] as int
    }

    fn dimensions(&self) -> (r: (usize, usize)) {
        (self.width, self.height)
    }

    fn z_at(&self, x: usize, y: usize) -> (r: i64) {
        let n = self.data.len();
        proof {
            use_type_invariant(self);
            let (w, h, a, b) = (self.width as int, self.height as int, x as int, y as int);
            assert(0 <= b * w + a < w * h) by (nonlinear_arith)
                requires
                    0 <= a < w,
                    0 <= b < h,
            ;
        }
        self.data[y * self.width + x]
    }
}

/// The 4-bit code of a cell: bit 1 for the bottom-left corner above `z`, 2 for
/// bottom-right, 4 for top-right, 8 for top-left.
pub open spec fn cell_code(z: int, ul: int, ur: int, bl: int, br: int) -> int {
    (if bl > z { 1int } else { 0 }) + (if br > z { 2int } else { 0 }) + (if ur > z { 4int } else {
        0
    }) + (if ul > z { 8int } else { 0 })
}

/// The directed segments emitted for a cell code, from the crossing points on
/// its four edges. Uniform cells emit nothing; a saddle cell (two diagonally
/// opposite corners above `z`) always emits the same fixed pair, whatever the
/// value at its center. Segments are oriented so that samples above `z` lie on
/// the same side of every segment.
pub open spec fn code_segments(
    code: int,
    top: Point,
    bottom: Point,
    left: Point,
    right: Point,
) -> Seq<Segment> {
    if code == 1 {
        seq![(bottom, left)]
    } else if code == 2 {
        seq![(right, bottom)]
    } else if code == 3 {
        seq![(right, left)]
    } else if code == 4 {
        seq![(top, right)]
    } else if code == 5 {
        seq![(top, left), (bottom, right)]
    } else if code == 6 {
        seq![(top, bottom)]
    } else if code == 7 {
        seq![(top, left)]
    } else if code == 8 {
        seq![(left, top)]
    } else if code == 9 {
        seq![(bottom, top)]
    } else if code == 10 {
        seq![(left, bottom), (right, top)]
    } else if code == 11 {
        seq![(right, top)]
    } else if code == 12 {
        seq![(left, right)]
    } else if code == 13 {
        seq![(bottom, right)]
    } else if code == 14 {
        seq![(left, bottom)]
    } else {
        seq![]
    }
}

/// The segments of the cell whose top-left sample is `(x, y)`, at threshold `z`.
/// Each crossing point is interpolated along its edge between the edge's two samples.
pub open spec fn cell_segments<F: Field>(f: &F, z: int, x: int, y: int) -> Seq<Segment> {
    let ul = f.value(x, y);
    let ur = f.value(x + 1, y);
    let bl = f.value(x, y + 1);
    let br = f.value(x + 1, y + 1);
    let top = Point { x: coord_spec(x, fraction_spec(z, ul, ur)), y: grid_spec(y) };
    let bottom = Point { x: coord_spec(x, fraction_spec(z, bl, br)), y: grid_spec(y + 1) };
    let left = Point { x: grid_spec(x), y: coord_spec(y, fraction_spec(z, ul, bl)) };
    let right = Point { x: grid_spec(x + 1), y: coord_spec(y, fraction_spec(z, ur, br)) };
    code_segments(cell_code(z, ul, ur, bl, br), top, bottom, left, right)
}

/// The segments of the first `n` cells of row `y`, in order.
pub open spec fn row_segments<F: Field>(f: &F, z: int, y: int, n: nat) -> Seq<Segment>
    decreases n,
{
    if n == 0 {
        seq![]
    } else {
        row_segments(f, z, y, (n - 1) as nat) + cell_segments(f, z, n - 1, y)
    }
}

/// The segments of the first `m` rows of cells, in order.
pub open spec fn rows_segments<F: Field>(f: &F, z: int, m: nat) -> Seq<Segment>
    decreases m,
{
    if m == 0 {
        seq![]
    } else {
        rows_segments(f, z, (m - 1) as nat) + row_segments(f, z, m - 1, (f.width() - 1) as nat)
    }
}

/// Every segment of the field at threshold `z`, cell by cell in row-major order.
pub open spec fn field_segments<F: Field>(f: &F, z: int) -> Seq<Segment> {
    if f.width() >= 2 && f.height() >= 2 {
        rows_segments(f, z, (f.height() - 1) as nat)
    } else {
        seq![]
    }
}

/// The segments of one cell.
fn cell_segs<F: Field>(field: &F, z: i64, x: usize, y: usize) -> (r: Vec<Segment>)
    requires
        x + 1 < field.width(),
        y + 1 < field.height(),
    ensures
        r@ == cell_segments(field, z as int, x as int, y as int),
{
    let _ = field.dimensions();
    let ulz = field.z_at(x, y);
    let urz = field.z_at(x + 1, y);
    let blz = field.z_at(x, y + 1);
    let brz = field.z_at(x + 1, y + 1);
    let mut code: u8 = 0;
    if blz > z {
        code = code + 1;
    }
    if brz > z {
        code = code + 2;
    }
    if urz > z {
        code = code + 4;
    }
    if ulz > z {
        code = code + 8;
    }
    let top = Point { x: edge_coord(x, fraction(z, ulz, urz)), y: Coord { whole: y, num: 0, den: 1 } };
    let bottom = Point {
        x: edge_coord(x, fraction(z, blz, brz)),
        y: Coord { whole: y + 1, num: 0, den: 1 },
    };
    let left = Point { x: Coord { whole: x, num: 0, den: 1 }, y: edge_coord(y, fraction(z, ulz, blz)) };
    let right = Point {
        x: Coord { whole: x + 1, num: 0, den: 1 },
        y: edge_coord(y, fraction(z, urz, brz)),
    };
    let r = match code {
        1 => vec![(bottom, left)],
        2 => vec![(right, bottom)],
        3 => vec![(right, left)],
        4 => vec![(top, right)],
        5 => vec![(top, left), (bottom, right)],
        6 => vec![(top, bottom)],
        7 => vec![(top, left)],
        8 => vec![(left, top)],
        9 => vec![(bottom, top)],
        10 => vec![(left, bottom), (right, top)],
        11 => vec![(right, top)],
        12 => vec![(left, right)],
        13 => vec![(bottom, right)],
        14 => vec![(left, bottom)],
        _ => Vec::new(),
    };
    proof {
        assert(r@ =~= code_segments(code as int, top, bottom, left, right));
    }
    r
}

/// The cell that holds a point: the integer parts of its coordinates.
pub open spec fn key_of(p: Point) -> CellKey {
    (p.x.whole, p.y.whole)
}

/// The consecutive segments of a polyline.
pub open spec fn polyline_segments(c: Seq<Point>) -> Seq<Segment> {
    if c.len() == 0 {
        seq![]
    } else {
        Seq::new((c.len() - 1) as nat, |i: int| (c[i], c[i + 1]))
    }
}

/// The segments of all polylines, polyline after polyline.
pub open spec fn all_segments(cs: Seq<Seq<Point>>) -> Seq<Segment>
    decreases cs.len(),
{
    if cs.len() == 0 {
        seq![]
    } else {
        all_segments(cs.drop_last()) + polyline_segments(cs.last())
    }
}

/// The polylines of a contour list.
pub open spec fn contours_view(r: Contours) -> Seq<Seq<Point>> {
    r@.map_values(|c: Vec<Point>| c@)
}

/// No segment of `ms` starts at `p`.
pub open spec fn none_starts_at(ms: Multiset<Segment>, p: Point) -> bool {
    forall|s: Segment| #[trigger] ms.count(s) > 0 ==> s.0 != p
}

/// No segment of `ms` starts in a border cell of a `w` by `h` field.
pub open spec fn none_starts_on_border(ms: Multiset<Segment>, w: int, h: int) -> bool {
    forall|s: Segment| #[trigger] ms.count(s) > 0 ==> !on_border(s.0.x.whole as int, s.0.y.whole as int, w, h)
}

/// `cs` is an assembly of the segments `segs` of a `w` by `h` field into polylines:
/// - every segment is used exactly once, as two consecutive points of one polyline;
/// - every polyline has at least two points;
/// - a polyline stops only where no later polyline has a segment starting at its end;
/// - a polyline starts off the border only when no segment of it or of a later
///   polyline starts in a border cell.
pub open spec fn assembled(cs: Seq<Seq<Point>>, segs: Seq<Segment>, w: int, h: int) -> bool {
    &&& all_segments(cs).to_multiset() == segs.to_multiset()
    &&& forall|k: int| 0 <= k < cs.len() ==> #[trigger] cs[k].len() >= 2
    &&& forall|k: int, j: int|
        0 <= k < j < cs.len() ==> none_starts_at(
            #[trigger] polyline_segments(cs[j]).to_multiset(),
            #[trigger] cs[k].last(),
        )
    &&& forall|k: int, j: int|
        0 <= k <= j < cs.len() && !on_border(
            #[trigger] cs[k][0].x.whole as int,
            cs[k][0].y.whole as int,
            w,
            h,
        ) ==> none_starts_on_border(#[trigger] polyline_segments(cs[j]).to_multiset(), w, h)
}

/// `m` holds exactly the segments of `ms`, each in the list of the cell of its start.
spec fn store_holds(m: Map<CellKey, Seq<Segment>>, ms: Multiset<Segment>) -> bool {
    &&& forall|k: CellKey| #[trigger] m.contains_key(k) ==> m[k].len() > 0
    &&& forall|k: CellKey, i: int|
        m.contains_key(k) && 0 <= i < m[k].len() ==> key_of(#[trigger] m[k][i].0) == k
    &&& forall|s: Segment|
        #[trigger] ms.count(s) == if m.contains_key(key_of(s.0)) {
            m[key_of(s.0)].to_multiset().count(s)
        } else {
            0
        }
}

/// `b` holds exactly the border cells that `m` has lists for.
spec fn border_cells(b: Set<CellKey>, m: Map<CellKey, Seq<Segment>>, w: int, h: int) -> bool {
    forall|k: CellKey|
        #![trigger b.contains(k)]
        #![trigger m.contains_key(k)]
        b.contains(k) <==> m.contains_key(k) && on_border(k.0 as int, k.1 as int, w, h)
}

/// Replacing the list of cell `k` by `rest`, which is that list without its
/// element `i`, takes that one segment out of the store.
proof fn lemma_take(
    m: Map<CellKey, Seq<Segment>>,
    ms: Multiset<Segment>,
    k: CellKey,
    i: int,
    rest: Seq<Segment>,
)
    requires
        store_holds(m, ms),
        m.contains_key(k),
        0 <= i < m[k].len(),
        rest.to_multiset() == m[k].to_multiset().remove(m[k][i]),
        forall|j: int| 0 <= j < rest.len() ==> key_of(#[trigger] rest[j].0) == k,
    ensures
        ms.count(m[k][i]) > 0,
        store_holds(
            if rest.len() == 0 {
                m.remove(k)
            } else {
                m.insert(k, rest)
            },
            ms.remove(m[k][i]),
        ),
{
    let t = m[k][i];
    assert(m[k].to_multiset().count(t) > 0);
    assert(key_of(t.0) == k);
    let m2 = if rest.len() == 0 {
        m.remove(k)
    } else {
        m.insert(k, rest)
    };
    let ms2 = ms.remove(t);
    assert forall|s: Segment|
        #[trigger] ms2.count(s) == if m2.contains_key(key_of(s.0)) {
            m2[key_of(s.0)].to_multiset().count(s)
        } else {
            0
        } by {
        if key_of(s.0) == k {
            if rest.len() == 0 {
                assert(rest.to_multiset().count(s) == 0);
            }
        }
    }
}

/// Adds segment `s` to the store, under the cell of its start point.
fn add_seg(
    segments: &mut SegmentsMap,
    boundaries: &mut CellSet,
    s: Segment,
    w: usize,
    h: usize,
    Ghost(ms): Ghost<Multiset<Segment>>,
)
    requires
        store_holds(segments_of(*old(segments)), ms),
        border_cells(cells_of(*old(boundaries)), segments_of(*old(segments)), w as int, h as int),
        w >= 1,
        h >= 1,
    ensures
        store_holds(segments_of(*final(segments)), ms.insert(s)),
        border_cells(cells_of(*final(boundaries)), segments_of(*final(segments)), w as int, h as int),
{
    let k = (s.0.x.whole, s.0.y.whole);
    let ghost m = segments_of(*segments);
    let mut list = match segments.remove(k) {
        Some(l) => l,
        None => Vec::new(),
    };
    let ghost l0 = list@;
    list.push(s);
    segments.insert(k, list);
    if k.0 == 0 || k.0 == w - 1 || k.1 == 0 || k.1 == h - 1 {
        boundaries.insert(k);
    }
    proof {
        let m2 = segments_of(*segments);
        let ms2 = ms.insert(s);
        assert(m2 == m.insert(k, l0.push(s)));
        assert(l0.push(s).to_multiset() == l0.to_multiset().insert(s));
        assert forall|t: Segment|
            #[trigger] ms2.count(t) == if m2.contains_key(key_of(t.0)) {
                m2[key_of(t.0)].to_multiset().count(t)
            } else {
                0
            } by {
            if key_of(t.0) == k {
                if !m.contains_key(k) {
                    assert(l0 =~= Seq::<Segment>::empty());
                    assert(l0.to_multiset().count(t) == 0);
                }
            }
        }
        assert forall|kk: CellKey, i: int|
            m2.contains_key(kk) && 0 <= i < m2[kk].len() implies key_of(#[trigger] m2[kk][i].0)
            == kk by {
            if kk == k && i < l0.len() {
                assert(m2[kk][i] == m[kk][i]);
            }
        }
    }
}

/// The contours of `field` at threshold `z`: the marching-squares segments of every
/// cell, joined into polylines in field-index space.
pub fn march<F: Field>(field: &F, z: i64) -> (r: Contours)
    ensures
        assembled(
            contours_view(r),
            field_segments(field, z as int),
            field.width() as int,
            field.height() as int,
        ),
{
    let (w, h) = field.dimensions();
    let mut segments = SegmentsMap::new();
    let mut boundaries = CellSet::new();
    let ghost mut all: Seq<Segment> = seq![];
    proof {
        assert(all.to_multiset() =~= Multiset::empty());
    }
    if w >= 2 && h >= 2 {
        let mut y: usize = 0;
        while y < h - 1
            invariant
                w == field.width(),
                h == field.height(),
                w >= 2,
                h >= 2,
                y <= h - 1,
                all == rows_segments(field, z as int, y as nat),
                store_holds(segments_of(segments), all.to_multiset()),
                border_cells(cells_of(boundaries), segments_of(segments), w as int, h as int),
            decreases h - 1 - y,
        {
            let mut x: usize = 0;
            while x < w - 1
                invariant
                    w == field.width(),
                    h == field.height(),
                    w >= 2,
                    h >= 2,
                    y < h - 1,
                    x <= w - 1,
                    all == rows_segments(field, z as int, y as nat) + row_segments(
                        field,
                        z as int,
                        y as int,
                        x as nat,
                    ),
                    store_holds(segments_of(segments), all.to_multiset()),
                    border_cells(cells_of(boundaries), segments_of(segments), w as int, h as int),
                decreases w - 1 - x,
            {
                let segs = cell_segs(field, z, x, y);
                let ghost before = all;
                let mut i: usize = 0;
                while i < segs.len()
                    invariant
                        w >= 2,
                        h >= 2,
                        i <= segs@.len(),
                        all == before + segs@.subrange(0, i as int),
                        store_holds(segments_of(segments), all.to_multiset()),
                        border_cells(
                            cells_of(boundaries),
                            segments_of(segments),
                            w as int,
                            h as int,
                        ),
                    decreases segs@.len() - i,
                {
                    add_seg(&mut segments, &mut boundaries, segs[i], w, h, Ghost(all.to_multiset()));
                    proof {
                        assert(before + segs@.subrange(0, i + 1) =~= all.push(segs@[i as int]));
                        all = all.push(segs@[i as int]);
                    }
                    i += 1;
                }
                proof {
                    assert(segs@.subrange(0, segs@.len() as int) =~= segs@);
                    assert(row_segments(field, z as int, y as int, (x + 1) as nat) == row_segments(
                        field,
                        z as int,
                        y as int,
                        x as nat,
                    ) + cell_segments(field, z as int, x as int, y as int));
                    assert(all =~= rows_segments(field, z as int, y as nat) + row_segments(
                        field,
                        z as int,
                        y as int,
                        (x + 1) as nat,
                    ));
                }
                x += 1;
            }
            proof {
                assert(rows_segments(field, z as int, (y + 1) as nat) == rows_segments(
                    field,
                    z as int,
                    y as nat,
                ) + row_segments(field, z as int, y as int, (w - 1) as nat));
            }
            y += 1;
        }
    }
    build_contours(segments, boundaries, w, h, Ghost(all))
}

/// Joins the stored segments into polylines, preferring to start each polyline in a
/// border cell so that open curves crossing the field are not split.
fn build_contours(
    segments: SegmentsMap,
    boundaries: CellSet,
    w: usize,
    h: usize,
    Ghost(all): Ghost<Seq<Segment>>,
) -> (r: Contours)
    requires
        store_holds(segments_of(segments), all.to_multiset()),
        border_cells(cells_of(boundaries), segments_of(segments), w as int, h as int),
    ensures
        assembled(contours_view(r), all, w as int, h as int),
{
    let mut segments = segments;
    let mut boundaries = boundaries;
    let mut contours: Contours = Vec::new();
    let ghost mut rem = all.to_multiset();
    proof {
        assert(contours_view(contours) =~= Seq::<Seq<Point>>::empty());
        assert(all_segments(contours_view(contours)).to_multiset() =~= Multiset::empty());
        assert(rem.add(Multiset::empty()) =~= rem);
    }
    while !segments.is_empty()
        invariant
            store_holds(segments_of(segments), rem),
            border_cells(cells_of(boundaries), segments_of(segments), w as int, h as int),
            all.to_multiset() == rem.add(all_segments(contours_view(contours)).to_multiset()),
            forall|k: int|
                0 <= k < contours@.len() ==> #[trigger] contours_view(contours)[k].len() >= 2,
            forall|k: int|
                0 <= k < contours@.len() ==> none_starts_at(
                    rem,
                    #[trigger] contours_view(contours)[k].last(),
                ),
            forall|k: int, j: int|
                0 <= k < j < contours@.len() ==> none_starts_at(
                    #[trigger] polyline_segments(contours_view(contours)[j]).to_multiset(),
                    #[trigger] contours_view(contours)[k].last(),
                ),
            forall|k: int|
                0 <= k < contours@.len() && !on_border(
                    #[trigger] contours_view(contours)[k][0].x.whole as int,
                    contours_view(contours)[k][0].y.whole as int,
                    w as int,
                    h as int,
                ) ==> none_starts_on_border(rem, w as int, h as int),
            forall|k: int, j: int|
                0 <= k <= j < contours@.len() && !on_border(
                    #[trigger] contours_view(contours)[k][0].x.whole as int,
                    contours_view(contours)[k][0].y.whole as int,
                    w as int,
                    h as int,
                ) ==> none_starts_on_border(
                    #[trigger] polyline_segments(contours_view(contours)[j]).to_multiset(),
                    w as int,
                    h as int,
                ),
        decreases rem.len(),
    {
        let ghost rem0 = rem;
        let ghost cv0 = contours_view(contours);
        let first_k = match boundaries.any_cell() {
            Some(k) => k,
            None => segments.any_key().unwrap(),
        };
        let ghost m0 = segments_of(segments);
        let mut list = segments.remove(first_k).unwrap();
        let ghost l0 = list@;
        let first = list.pop().unwrap();
        proof {
            assert(l0 =~= list@.push(first));
            assert(list@.to_multiset() =~= l0.to_multiset().remove(first));
            assert forall|j: int| 0 <= j < list@.len() implies key_of(#[trigger] list@[j].0)
                == first_k by {
                assert(list@[j] == l0[j]);
            }
            lemma_take(m0, rem, first_k, l0.len() - 1, list@);
            rem = rem.remove(first);
        }
        if list.len() == 0 {
            boundaries.remove(first_k);
        } else {
            segments.insert(first_k, list);
        }
        let mut contour: Vec<Point> = vec![first.0, first.1];
        proof {
            assert(polyline_segments(contour@) =~= seq![first]);
            assert(seq![first].to_multiset() =~= Multiset::empty().insert(first));
            assert(rem0 =~= rem.add(polyline_segments(contour@).to_multiset()));
            assert(key_of(first.0) == first_k);
        }
        loop
            invariant
                store_holds(segments_of(segments), rem),
                border_cells(cells_of(boundaries), segments_of(segments), w as int, h as int),
                rem0 == rem.add(polyline_segments(contour@).to_multiset()),
                contour@.len() >= 2,
                contour@[0] == first.0,
            ensures
                none_starts_at(rem, contour@.last()),
            decreases rem.len(),
        {
            let prev = contour[contour.len() - 1];
            let k = (prev.x.whole, prev.y.whole);
            let ghost m1 = segments_of(segments);
            match segments.remove(k) {
                None => {
                    proof {
                        assert(segments_of(segments) =~= m1);
                    }
                    break ;
                },
                Some(mut list) => {
                    let mut i: usize = 0;
                    while i < list.len() && list[i].0 != prev
                        invariant
                            i <= list@.len(),
                            forall|j: int| 0 <= j < i ==> (#[trigger] list@[j]).0 != prev,
                        decreases list@.len() - i,
                    {
                        i += 1;
                    }
                    if i == list.len() {
                        proof {
                            assert forall|t: Segment| #[trigger] rem.count(t) > 0 implies t.0
                                != prev by {
                                if t.0 == prev {
                                    assert(list@.to_multiset().count(t) > 0);
                                    let j = list@.index_of(t);
                                    assert(list@[j] == t);
                                }
                            }
                        }
                        segments.insert(k, list);
                        proof {
                            assert(segments_of(segments) =~= m1);
                        }
                        break ;
                    }
                    let ghost l1 = list@;
                    let seg = list.swap_remove(i);
                    proof {
                        let u = l1.update(i as int, l1.last());
                        assert(u =~= list@.push(l1.last()));
                        assert(u.to_multiset() =~= l1.to_multiset().insert(l1.last()).remove(
                            l1[i as int],
                        ));
                        assert(u.to_multiset() =~= list@.to_multiset().insert(l1.last()));
                        assert(l1.to_multiset().count(l1[i as int]) > 0);
                        assert forall|t: Segment| #[trigger] list@.to_multiset().count(t)
                            == l1.to_multiset().remove(l1[i as int]).count(t) by {
                            assert(u.to_multiset().count(t) == list@.to_multiset().insert(
                                l1.last(),
                            ).count(t));
                        }
                        assert(list@.to_multiset() =~= l1.to_multiset().remove(l1[i as int]));
                        assert forall|j: int| 0 <= j < list@.len() implies key_of(
                            #[trigger] list@[j].0,
                        ) == k by {
                            assert(list@[j] == u[j]);
                        }
                        lemma_take(m1, rem, k, i as int, list@);
                        let c0 = contour@;
                        assert(polyline_segments(c0.push(seg.1)) =~= polyline_segments(c0).push(
                            seg,
                        ));
                        rem = rem.remove(seg);
                    }
                    contour.push(seg.1);
                    if list.len() == 0 {
                        boundaries.remove(k);
                    } else {
                        segments.insert(k, list);
                    }
                },
            }
        }
        contours.push(contour);
        proof {
            let c = contour@;
            let cv = contours_view(contours);
            let ps = polyline_segments(c).to_multiset();
            assert(cv =~= cv0.push(c));
            assert(cv.drop_last() =~= cv0);
            assert(all_segments(cv) == all_segments(cv0) + polyline_segments(c));
            vstd::seq_lib::lemma_multiset_commutative(all_segments(cv0), polyline_segments(c));
            assert(all.to_multiset() =~= rem.add(all_segments(cv).to_multiset()));
            assert forall|k: int| 0 <= k < cv.len() implies none_starts_at(
                rem,
                #[trigger] cv[k].last(),
            ) by {
                if k < cv0.len() {
                    assert(cv[k] == cv0[k]);
                    assert forall|t: Segment| #[trigger] rem.count(t) > 0 implies t.0
                        != cv[k].last() by {
                        assert(rem0.count(t) > 0);
                    }
                }
            }
            assert forall|k: int, j: int| 0 <= k < j < cv.len() implies none_starts_at(
                #[trigger] polyline_segments(cv[j]).to_multiset(),
                #[trigger] cv[k].last(),
            ) by {
                assert(cv[k] == cv0[k]);
                if j == cv.len() - 1 {
                    assert forall|t: Segment| #[trigger] ps.count(t) > 0 implies t.0
                        != cv[k].last() by {
                        assert(rem0.count(t) > 0);
                    }
                } else {
                    assert(cv[j] == cv0[j]);
                }
            }
            if !on_border(first_k.0 as int, first_k.1 as int, w as int, h as int) {
                assert(none_starts_on_border(rem0, w as int, h as int)) by {
                    assert forall|t: Segment| #[trigger] rem0.count(t) > 0 implies !on_border(
                        t.0.x.whole as int,
                        t.0.y.whole as int,
                        w as int,
                        h as int,
                    ) by {
                        assert(m0.contains_key(key_of(t.0)));
                    }
                }
            }
            assert forall|k: int|
                0 <= k < cv.len() && !on_border(
                    #[trigger] cv[k][0].x.whole as int,
                    cv[k][0].y.whole as int,
                    w as int,
                    h as int,
                ) implies none_starts_on_border(rem, w as int, h as int) by {
                assert(none_starts_on_border(rem0, w as int, h as int));
                assert forall|t: Segment| #[trigger] rem.count(t) > 0 implies !on_border(
                    t.0.x.whole as int,
                    t.0.y.whole as int,
                    w as int,
                    h as int,
                ) by {
                    assert(rem0.count(t) > 0);
                }
            }
            assert forall|k: int, j: int|
                0 <= k <= j < cv.len() && !on_border(
                    #[trigger] cv[k][0].x.whole as int,
                    cv[k][0].y.whole as int,
                    w as int,
                    h as int,
                ) implies none_starts_on_border(
                #[trigger] polyline_segments(cv[j]).to_multiset(),
                w as int,
                h as int,
            ) by {
                assert(none_starts_on_border(rem0, w as int, h as int));
                if j == cv.len() - 1 {
                    assert forall|t: Segment| #[trigger] ps.count(t) > 0 implies !on_border(
                        t.0.x.whole as int,
                        t.0.y.whole as int,
                        w as int,
                        h as int,
                    ) by {
                        assert(rem0.count(t) > 0);
                    }
                } else {
                    assert(cv[j] == cv0[j]);
                }
            }
        }
    }
    proof {
        let cv = contours_view(contours);
        assert(rem =~= Multiset::empty());
        assert(all.to_multiset() =~= all_segments(cv).to_multiset());
    }
    contours
}

/// Every cell of a field whose samples all lie on one side of `z` emits nothing.
proof fn lemma_one_sided_rows<F: Field>(f: &F, z: int, above: bool, m: nat)
    requires
        forall|x: int, y: int|
            0 <= x < f.width() && 0 <= y < f.height() ==> (#[trigger] f.value(x, y) > z) == above,
        f.width() >= 2,
        m <= f.height() - 1,
    ensures
        rows_segments(f, z, m) == Seq::<Segment>::empty(),
    decreases m,
{
    if m > 0 {
        lemma_one_sided_rows(f, z, above, (m - 1) as nat);
        lemma_one_sided_row(f, z, above, m - 1, (f.width() - 1) as nat);
        assert(rows_segments(f, z, m) =~= Seq::<Segment>::empty());
    }
}

proof fn lemma_one_sided_row<F: Field>(f: &F, z: int, above: bool, y: int, n: nat)
    requires
        forall|x: int, y: int|
            0 <= x < f.width() && 0 <= y < f.height() ==> (#[trigger] f.value(x, y) > z) == above,
        0 <= y < f.height() - 1,
        n <= f.width() - 1,
    ensures
        row_segments(f, z, y, n) == Seq::<Segment>::empty(),
    decreases n,
{
    if n > 0 {
        lemma_one_sided_row(f, z, above, y, (n - 1) as nat);
        let x = n - 1;
        assert(f.value(x, y) > z <==> above);
        assert(f.value(x + 1, y) > z <==> above);
        assert(f.value(x, y + 1) > z <==> above);
        assert(f.value(x + 1, y + 1) > z <==> above);
        assert(cell_segments(f, z, x, y) =~= Seq::<Segment>::empty());
        assert(row_segments(f, z, y, n) =~= Seq::<Segment>::empty());
    }
}

/// A field whose samples all lie on the same side of the threshold `z` (in
/// particular a uniform field, or one with fewer than two samples along a side)
/// emits no segment, so any assembly of its contours, such as the one returned by
/// [`march`], is empty.
pub proof fn lemma_one_sided_field_has_no_contours<F: Field>(
    f: &F,
    z: int,
    above: bool,
    cs: Seq<Seq<Point>>,
)
    requires
        forall|x: int, y: int|
            0 <= x < f.width() && 0 <= y < f.height() ==> (#[trigger] f.value(x, y) > z) == above,
        assembled(cs, field_segments(f, z), f.width() as int, f.height() as int),
    ensures
        field_segments(f, z) == Seq::<Segment>::empty(),
        cs.len() == 0,
{
    if f.width() >= 2 && f.height() >= 2 {
        lemma_one_sided_rows(f, z, above, (f.height() - 1) as nat);
    }
    assert(field_segments(f, z).to_multiset().len() == 0);
    if cs.len() > 0 {
        assert(cs.last().len() >= 2);
        assert(all_segments(cs) == all_segments(cs.drop_last()) + polyline_segments(cs.last()));
        assert(polyline_segments(cs.last()).len() >= 1);
        assert(all_segments(cs).to_multiset().len() == all_segments(cs).len());
    }
}

} // verus!
