use vstd::prelude::*;

verus! {

/// An integer coordinate pair: a board position or a brick offset.
#[derive(Copy, Clone, Debug, PartialEq, Eq, Structural)]
pub struct XY {
    pub x: i32,
    pub y: i32,
}

pub fn xy(x: i32, y: i32) -> (r: XY)
    ensures
        r == (XY { x, y }),
{
    XY { x, y }
}

/// A polyomino game piece: a set of cell offsets, each with both coordinates
/// at least 0. A brick in canonical form additionally has minimum x offset 0
/// and minimum y offset 0 (see [`normalized`]).
///
/// Bricks are value data; two bricks are the same piece when they hold the
/// same offsets, regardless of the order in which they list them.
#[derive(Clone, Debug)]
pub struct Brick {
    pub offsets: Vec<XY>,
}

/// Offsets that describe a piece that fits the game: at least one cell, all
/// coordinates within the board's 0..=8 range.
pub open spec fn wf_offsets(offs: Seq<XY>) -> bool {
    &&& offs.len() >= 1
    &&& forall|i: int| 0 <= i < offs.len() ==> 0 <= #[trigger] offs[i].x <= 8 && 0 <= offs[i].y <= 8
}

/// Canonical form: all offsets non-negative, and both minima are exactly 0.
pub open spec fn normalized(offs: Seq<XY>) -> bool {
    &&& forall|i: int| 0 <= i < offs.len() ==> 0 <= #[trigger] offs[i].x && 0 <= offs[i].y
    &&& exists|i: int| 0 <= i < offs.len() && #[trigger] offs[i].x == 0
    &&& exists|i: int| 0 <= i < offs.len() && #[trigger] offs[i].y == 0
}

/// The largest x coordinate among the first `n` offsets.
pub open spec fn max_x_upto(offs: Seq<XY>, n: int) -> int
    decreases n,
{
    if n <= 1 {
        offs[0].x as int
    } else if offs[n - 1].x > max_x_upto(offs, n - 1) {
        offs[n - 1].x as int
    } else {
        max_x_upto(offs, n - 1)
    }
}

/// The largest y coordinate among the first `n` offsets.
pub open spec fn max_y_upto(offs: Seq<XY>, n: int) -> int
    decreases n,
{
    if n <= 1 {
        offs[0].y as int
    } else if offs[n - 1].y > max_y_upto(offs, n - 1) {
        offs[n - 1].y as int
    } else {
        max_y_upto(offs, n - 1)
    }
}

/// The smallest x coordinate among the first `n` offsets.
pub open spec fn min_x_upto(offs: Seq<XY>, n: int) -> int
    decreases n,
{
    if n <= 1 {
        offs[0].x as int
    } else if offs[n - 1].x < min_x_upto(offs, n - 1) {
        offs[n - 1].x as int
    } else {
        min_x_upto(offs, n - 1)
    }
}

/// The smallest y coordinate among the first `n` offsets.
pub open spec fn min_y_upto(offs: Seq<XY>, n: int) -> int
    decreases n,
{
    if n <= 1 {
        offs[0].y as int
    } else if offs[n - 1].y < min_y_upto(offs, n - 1) {
        offs[n - 1].y as int
    } else {
        min_y_upto(offs, n - 1)
    }
}

pub open spec fn max_x_of(offs: Seq<XY>) -> int {
    max_x_upto(offs, offs.len() as int)
}

pub open spec fn max_y_of(offs: Seq<XY>) -> int {
    max_y_upto(offs, offs.len() as int)
}

pub open spec fn min_x_of(offs: Seq<XY>) -> int {
    min_x_upto(offs, offs.len() as int)
}

pub open spec fn min_y_of(offs: Seq<XY>) -> int {
    min_y_upto(offs, offs.len() as int)
}

pub proof fn lemma_max_x_upto(offs: Seq<XY>, n: int)
    requires
        1 <= n <= offs.len(),
    ensures
        forall|i: int| 0 <= i < n ==> #[trigger] offs[i].x <= max_x_upto(offs, n),
        exists|i: int| 0 <= i < n && #[trigger] offs[i].x == max_x_upto(offs, n),
    decreases n,
{
    if n == 1 {
        assert(offs[0].x == max_x_upto(offs, n));
    } else {
        lemma_max_x_upto(offs, n - 1);
        if offs[n - 1].x > max_x_upto(offs, n - 1) {
            assert(offs[n - 1].x == max_x_upto(offs, n));
        } else {
            let w = choose|i: int| 0 <= i < n - 1 && #[trigger] offs[i].x == max_x_upto(offs, n - 1);
            assert(offs[w].x == max_x_upto(offs, n));
        }
    }
}

pub proof fn lemma_max_y_upto(offs: Seq<XY>, n: int)
    requires
        1 <= n <= offs.len(),
    ensures
        forall|i: int| 0 <= i < n ==> #[trigger] offs[i].y <= max_y_upto(offs, n),
        exists|i: int| 0 <= i < n && #[trigger] offs[i].y == max_y_upto(offs, n),
    decreases n,
{
    if n == 1 {
        assert(offs[0].y == max_y_upto(offs, n));
    } else {
        lemma_max_y_upto(offs, n - 1);
        if offs[n - 1].y > max_y_upto(offs, n - 1) {
            assert(offs[n - 1].y == max_y_upto(offs, n));
        } else {
            let w = choose|i: int| 0 <= i < n - 1 && #[trigger] offs[i].y == max_y_upto(offs, n - 1);
            assert(offs[w].y == max_y_upto(offs, n));
        }
    }
}

pub proof fn lemma_min_x_upto(offs: Seq<XY>, n: int)
    requires
        1 <= n <= offs.len(),
    ensures
        forall|i: int| 0 <= i < n ==> #[trigger] offs[i].x >= min_x_upto(offs, n),
        exists|i: int| 0 <= i < n && #[trigger] offs[i].x == min_x_upto(offs, n),
    decreases n,
{
    if n == 1 {
        assert(offs[0].x == min_x_upto(offs, n));
    } else {
        lemma_min_x_upto(offs, n - 1);
        if offs[n - 1].x < min_x_upto(offs, n - 1) {
            assert(offs[n - 1].x == min_x_upto(offs, n));
        } else {
            let w = choose|i: int| 0 <= i < n - 1 && #[trigger] offs[i].x == min_x_upto(offs, n - 1);
            assert(offs[w].x == min_x_upto(offs, n));
        }
    }
}

pub proof fn lemma_min_y_upto(offs: Seq<XY>, n: int)
    requires
        1 <= n <= offs.len(),
    ensures
        forall|i: int| 0 <= i < n ==> #[trigger] offs[i].y >= min_y_upto(offs, n),
        exists|i: int| 0 <= i < n && #[trigger] offs[i].y == min_y_upto(offs, n),
    decreases n,
{
    if n == 1 {
        assert(offs[0].y == min_y_upto(offs, n));
    } else {
        lemma_min_y_upto(offs, n - 1);
        if offs[n - 1].y < min_y_upto(offs, n - 1) {
            assert(offs[n - 1].y == min_y_upto(offs, n));
        } else {
            let w = choose|i: int| 0 <= i < n - 1 && #[trigger] offs[i].y == min_y_upto(offs, n - 1);
            assert(offs[w].y == min_y_upto(offs, n));
        }
    }
}

/// What normalization does to each offset: shift the whole set so that the
/// minimum offset becomes (0, 0).
pub open spec fn spec_normalize(offs: Seq<XY>) -> Seq<XY> {
    Seq::new(
        offs.len(),
        |i: int|
            XY {
                x: (offs[i].x - min_x_of(offs)) as i32,
                y: (offs[i].y - min_y_of(offs)) as i32,
            },
    )
}

/// Shifts a brick so that its minimum x and y offsets are exactly 0.
pub fn normalize_brick(brick: &Brick) -> (r: Brick)
    requires
        brick.offsets@.len() >= 1,
        forall|i: int|
            0 <= i < brick.offsets@.len() ==> 0 <= #[trigger] brick.offsets@[i].x && 0
                <= brick.offsets@[i].y,
    ensures
        r.offsets@ == spec_normalize(brick.offsets@),
        normalized(r.offsets@),
{
    let ghost offs = brick.offsets@;
    let n = brick.offsets.len();

    let mut min_x = brick.offsets[0].x;
    let mut i: usize = 1;
    while i < n
        invariant
            1 <= i <= n,
            n == offs.len(),
            offs == brick.offsets@,
            min_x == min_x_upto(offs, i as int),
        decreases n - i,
    {
        if brick.offsets[i].x < min_x {
            min_x = brick.offsets[i].x;
        }
        i = i + 1;
    }

    let mut min_y = brick.offsets[0].y;
    let mut j: usize = 1;
    while j < n
        invariant
            1 <= j <= n,
            n == offs.len(),
            offs == brick.offsets@,
            min_y == min_y_upto(offs, j as int),
        decreases n - j,
    {
        if brick.offsets[j].y < min_y {
            min_y = brick.offsets[j].y;
        }
        j = j + 1;
    }

    proof {
        lemma_min_x_upto(offs, n as int);
        lemma_min_y_upto(offs, n as int);
        let wx = choose|i: int| 0 <= i < offs.len() && #[trigger] offs[i].x == min_x_of(offs);
        assert(0 <= offs[wx].x);
        let wy = choose|i: int| 0 <= i < offs.len() && #[trigger] offs[i].y == min_y_of(offs);
        assert(0 <= offs[wy].x && 0 <= offs[wy].y);
    }

    let mut out: Vec<XY> = Vec::new();
    let mut k: usize = 0;
    while k < n
        invariant
            0 <= k <= n,
            n == offs.len(),
            offs == brick.offsets@,
            min_x == min_x_of(offs),
            min_y == min_y_of(offs),
            0 <= min_x,
            0 <= min_y,
            forall|i: int| 0 <= i < offs.len() ==> #[trigger] offs[i].x >= min_x && offs[i].y >= min_y,
            out@.len() == k,
            forall|i: int| 0 <= i < k ==> #[trigger] out@[i] == spec_normalize(offs)[i],
        decreases n - k,
    {
        let v = brick.offsets[k];
        out.push(xy(v.x - min_x, v.y - min_y));
        k = k + 1;
    }

    proof {
        assert(out@ =~= spec_normalize(offs));
        let witness_x = choose|i: int| 0 <= i < offs.len() && #[trigger] offs[i].x == min_x_of(offs);
        assert(spec_normalize(offs)[witness_x].x == 0);
        let witness_y = choose|i: int| 0 <= i < offs.len() && #[trigger] offs[i].y == min_y_of(offs);
        assert(spec_normalize(offs)[witness_y].y == 0);
    }

    Brick { offsets: out }
}

/// The extent of the brick's bounding box: the larger of its maximum x and
/// maximum y offset.
pub open spec fn box_max(offs: Seq<XY>) -> int {
    if max_x_of(offs) > max_y_of(offs) {
        max_x_of(offs)
    } else {
        max_y_of(offs)
    }
}

/// A straight line of 4 or 5 cells, the only supported shapes whose bounding
/// box exceeds 3x3 in one axis.
pub open spec fn is_long_line(offs: Seq<XY>) -> bool {
    ||| (max_x_of(offs) == 3 || max_x_of(offs) == 4) && max_y_of(offs) == 0
    ||| (max_y_of(offs) == 3 || max_y_of(offs) == 4) && max_x_of(offs) == 0
}

/// The shapes the rotation operation supports: anything within a 3x3 bounding
/// box, plus the two straight lines of length 4 and 5.
pub open spec fn rotatable(offs: Seq<XY>) -> bool {
    box_max(offs) <= 2 || is_long_line(offs)
}

/// What one clockwise quarter turn does to a canonical brick.
///
/// For bricks within a 3x3 box this is the rigid rotation about the bounding
/// box followed by re-normalization, which lands each offset `(x, y)` on
/// `(max_y - y, x)`. The two long lines are instead transposed — for a
/// straight line the visual effect is the same as a rigid rotation, but this
/// shortcut is not a correct rotation for any other shape and is applied to
/// no other.
pub open spec fn spec_rotate(offs: Seq<XY>) -> Seq<XY> {
    if box_max(offs) <= 2 {
        Seq::new(
            offs.len(),
            |i: int| XY { x: (max_y_of(offs) - offs[i].y) as i32, y: offs[i].x },
        )
    } else {
        Seq::new(offs.len(), |i: int| XY { x: offs[i].y, y: offs[i].x })
    }
}

/// `n` successive clockwise quarter turns.
pub open spec fn rotate_n(offs: Seq<XY>, n: nat) -> Seq<XY>
    decreases n,
{
    if n == 0 {
        offs
    } else {
        spec_rotate(rotate_n(offs, (n - 1) as nat))
    }
}

/// A quarter turn of a canonical, supported brick is again canonical and
/// supported, fits the board, keeps the cell count, and stays in the same
/// shape class (boxed or long line).
pub proof fn lemma_rotate_preserves(offs: Seq<XY>)
    requires
        wf_offsets(offs),
        normalized(offs),
        rotatable(offs),
    ensures
        wf_offsets(spec_rotate(offs)),
        normalized(spec_rotate(offs)),
        rotatable(spec_rotate(offs)),
        spec_rotate(offs).len() == offs.len(),
        box_max(offs) <= 2 ==> box_max(spec_rotate(offs)) <= 2,
        is_long_line(offs) ==> is_long_line(spec_rotate(offs)),
        max_x_of(spec_rotate(offs)) == max_y_of(offs),
        max_y_of(spec_rotate(offs)) == max_x_of(offs),
{
    let n = offs.len() as int;
    let res = spec_rotate(offs);
    lemma_max_x_upto(offs, n);
    lemma_max_y_upto(offs, n);
    lemma_max_x_upto(res, n);
    lemma_max_y_upto(res, n);
    let jx = choose|i: int| 0 <= i < n && #[trigger] offs[i].x == max_x_of(offs);
    let jy = choose|i: int| 0 <= i < n && #[trigger] offs[i].y == max_y_of(offs);
    let zx = choose|i: int| 0 <= i < n && #[trigger] offs[i].x == 0;
    let zy = choose|i: int| 0 <= i < n && #[trigger] offs[i].y == 0;
    let rx = choose|i: int| 0 <= i < n && #[trigger] res[i].x == max_x_of(res);
    let ry = choose|i: int| 0 <= i < n && #[trigger] res[i].y == max_y_of(res);
    if box_max(offs) <= 2 {
        // each result offset is (max_y - y, x)
        assert forall|i: int| 0 <= i < n implies 0 <= #[trigger] res[i].x <= max_y_of(offs) && 0
            <= res[i].y <= max_x_of(offs) by {
            assert(res[i].x == max_y_of(offs) - offs[i].y);
            assert(res[i].y == offs[i].x);
        }
        // the maximum x of the result is max_y, attained where y was 0
        assert(res[zy].x == max_y_of(offs));
        assert(res[rx].x <= max_y_of(offs));
        assert(max_x_of(res) == max_y_of(offs));
        // the maximum y of the result is max_x, attained where x was maximal
        assert(res[jx].y == max_x_of(offs));
        assert(res[ry].y <= max_x_of(offs));
        assert(max_y_of(res) == max_x_of(offs));
        // canonical: x hits 0 where y was maximal, y hits 0 where x was 0
        assert(exists|i: int| 0 <= i < res.len() && #[trigger] res[i].x == 0) by {
            assert(res[jy].x == max_y_of(offs) - offs[jy].y);
            assert(res[jy].x == 0);
        }
        assert(exists|i: int| 0 <= i < res.len() && #[trigger] res[i].y == 0) by {
            assert(res[zx].y == 0);
        }
    } else {
        // a long line: the result is its transpose
        assert(res[jy].x == max_y_of(offs));
        assert(res[jx].y == max_x_of(offs));
        assert(max_x_of(res) == max_y_of(offs));
        assert(max_y_of(res) == max_x_of(offs));
        assert(exists|i: int| 0 <= i < res.len() && #[trigger] res[i].x == 0) by {
            assert(res[zy].x == 0);
        }
        assert(exists|i: int| 0 <= i < res.len() && #[trigger] res[i].y == 0) by {
            assert(res[zx].y == 0);
        }
    }
}

/// Rotates a canonical brick by a quarter turn clockwise.
///
/// Shapes within a 3x3 bounding box are rotated rigidly about that box and
/// re-normalized; the two long straight lines are transposed instead, which
/// for a line has the same visual effect.
pub fn rotate_clockwise(brick: &Brick) -> (r: Brick)
    requires
        wf_offsets(brick.offsets@),
        normalized(brick.offsets@),
        rotatable(brick.offsets@),
    ensures
        r.offsets@ == spec_rotate(brick.offsets@),
{
    let ghost offs = brick.offsets@;
    let n = brick.offsets.len();

    let mut max_x = brick.offsets[0].x;
    let mut i: usize = 1;
    while i < n
        invariant
            1 <= i <= n,
            n == offs.len(),
            offs == brick.offsets@,
            max_x == max_x_upto(offs, i as int),
        decreases n - i,
    {
        if brick.offsets[i].x > max_x {
            max_x = brick.offsets[i].x;
        }
        i = i + 1;
    }

    let mut max_y = brick.offsets[0].y;
    let mut j: usize = 1;
    while j < n
        invariant
            1 <= j <= n,
            n == offs.len(),
            offs == brick.offsets@,
            max_y == max_y_upto(offs, j as int),
        decreases n - j,
    {
        if brick.offsets[j].y > max_y {
            max_y = brick.offsets[j].y;
        }
        j = j + 1;
    }

    proof {
        lemma_max_x_upto(offs, n as int);
        lemma_max_y_upto(offs, n as int);
    }

    let max = if max_x > max_y {
        max_x
    } else {
        max_y
    };

    if max <= 2 {
        // rigid rotation about the bounding box, then normalization
        let mut mapped: Vec<XY> = Vec::new();
        let mut k: usize = 0;
        while k < n
            invariant
                0 <= k <= n,
                n == offs.len(),
                offs == brick.offsets@,
                max_y == max_y_of(offs),
                forall|i: int| 0 <= i < offs.len() ==> 0 <= #[trigger] offs[i].x <= 8 && 0 <= offs[i].y <= 8,
                forall|i: int| 0 <= i < offs.len() ==> #[trigger] offs[i].y <= max_y,
                mapped@.len() == k,
                forall|i: int|
                    0 <= i < k ==> #[trigger] mapped@[i] == (XY {
                        x: (max_y_of(offs) - offs[i].y) as i32,
                        y: offs[i].x,
                    }),
            decreases n - k,
        {
            let v = brick.offsets[k];
            assert(0 <= offs[k as int].x <= 8);
            assert(offs[k as int].y <= max_y && 0 <= offs[k as int].y);
            mapped.push(xy(max_y - v.y, v.x));
            k = k + 1;
        }

        let ghost mseq = mapped@;
        let r = normalize_brick(&Brick { offsets: mapped });
        proof {
            let my = max_y_of(offs);
            lemma_min_x_upto(mseq, n as int);
            lemma_min_y_upto(mseq, n as int);
            // the mapped set's minimum x is max_y - max_y(offs) attained where
            // y was maximal; its minimum y is 0, attained where x was 0
            let jy = choose|i: int| 0 <= i < n && #[trigger] offs[i].y == my;
            let zx = choose|i: int| 0 <= i < offs.len() && #[trigger] offs[i].x == 0;
            let wx = choose|i: int| 0 <= i < n && #[trigger] mseq[i].x == min_x_of(mseq);
            let wy = choose|i: int| 0 <= i < n && #[trigger] mseq[i].y == min_y_of(mseq);
            assert(mseq[jy].x == 0);
            assert(mseq[wx].x >= 0);
            assert(min_x_of(mseq) == 0);
            assert(mseq[zx].y == 0);
            assert(mseq[wy].y >= 0);
            assert(min_y_of(mseq) == 0);
            assert(r.offsets@ =~= spec_rotate(offs));
        }
        r
    } else {
        // a long line: swap each offset's coordinates
        let mut mapped: Vec<XY> = Vec::new();
        let mut k: usize = 0;
        while k < n
            invariant
                0 <= k <= n,
                n == offs.len(),
                offs == brick.offsets@,
                mapped@.len() == k,
                forall|i: int|
                    0 <= i < k ==> #[trigger] mapped@[i] == (XY { x: offs[i].y, y: offs[i].x }),
            decreases n - k,
        {
            let v = brick.offsets[k];
            mapped.push(xy(v.y, v.x));
            k = k + 1;
        }
        proof {
            assert(box_max(offs) > 2);
            assert(mapped@ =~= spec_rotate(offs));
        }
        Brick { offsets: mapped }
    }
}

/// Rotating a supported canonical brick four times returns exactly the
/// original offsets: two rigid quarter turns invert each other after four
/// applications, and the transpose used for the long lines is its own
/// inverse.
pub proof fn lemma_rotate_round_trip(offs: Seq<XY>)
    requires
        wf_offsets(offs),
        normalized(offs),
        rotatable(offs),
    ensures
        rotate_n(offs, 4) == offs,
{
    let s1 = spec_rotate(offs);
    lemma_rotate_preserves(offs);
    let s2 = spec_rotate(s1);
    lemma_rotate_preserves(s1);
    let s3 = spec_rotate(s2);
    lemma_rotate_preserves(s2);
    let s4 = spec_rotate(s3);
    lemma_rotate_preserves(s3);
    assert(rotate_n(offs, 4) == s4) by {
        assert(rotate_n(offs, 0) == offs);
        assert(rotate_n(offs, 1) == s1);
        assert(rotate_n(offs, 2) == s2);
        assert(rotate_n(offs, 3) == s3);
        assert(rotate_n(offs, 4) == s4);
    }
    if box_max(offs) <= 2 {
        let mx = max_x_of(offs);
        let my = max_y_of(offs);
        assert forall|i: int| 0 <= i < offs.len() implies s4[i] == offs[i] by {
            assert(s1[i] == (XY { x: (my - offs[i].y) as i32, y: offs[i].x }));
            assert(s2[i] == (XY { x: (mx - s1[i].y) as i32, y: s1[i].x }));
            assert(s3[i] == (XY { x: (my - s2[i].y) as i32, y: s2[i].x }));
            assert(s4[i] == (XY { x: (mx - s3[i].y) as i32, y: s3[i].x }));
        }
        assert(s4 =~= offs);
    } else {
        assert forall|i: int| 0 <= i < offs.len() implies s2[i] == offs[i] by {
            assert(s1[i] == (XY { x: offs[i].y, y: offs[i].x }));
            assert(s2[i] == (XY { x: s1[i].y, y: s1[i].x }));
        }
        assert(s2 =~= offs);
        assert(s3 == s1);
        assert(s4 =~= offs);
    }
}

/// An independent copy of a brick, offset for offset.
pub fn clone_brick(brick: &Brick) -> (r: Brick)
    ensures
        r.offsets@ == brick.offsets@,
{
    let offsets = brick.offsets.clone();
    proof {
        assert forall|i: int| 0 <= i < offsets@.len() implies offsets@[i] == brick.offsets@[i] by {
            assert(cloned::<XY>(brick.offsets@[i], offsets@[i]));
        }
        assert(offsets@ =~= brick.offsets@);
    }
    Brick { offsets }
}

/// The brick itself followed by its three further quarter turns. All four are
/// listed even when rotational symmetry makes some of them coincide, so that
/// a uniform draw from the library weights each orientation equally.
pub fn all_brick_rotations(brick: &Brick) -> (r: Vec<Brick>)
    requires
        wf_offsets(brick.offsets@),
        normalized(brick.offsets@),
        rotatable(brick.offsets@),
    ensures
        r@.len() == 4,
        forall|k: int|
            0 <= k < 4 ==> #[trigger] r@[k].offsets@ == rotate_n(brick.offsets@, k as nat),
        forall|k: int|
            0 <= k < 4 ==> wf_offsets(#[trigger] r@[k].offsets@) && normalized(r@[k].offsets@)
                && rotatable(r@[k].offsets@),
{
    let ghost offs = brick.offsets@;
    proof {
        lemma_rotate_preserves(offs);
        lemma_rotate_preserves(spec_rotate(offs));
        lemma_rotate_preserves(spec_rotate(spec_rotate(offs)));
        assert(rotate_n(offs, 0) == offs);
        assert(rotate_n(offs, 1) == spec_rotate(offs));
        assert(rotate_n(offs, 2) == spec_rotate(spec_rotate(offs)));
        assert(rotate_n(offs, 3) == spec_rotate(spec_rotate(spec_rotate(offs))));
    }
    let b1 = clone_brick(brick);
    let b2 = rotate_clockwise(&b1);
    let b3 = rotate_clockwise(&b2);
    let b4 = rotate_clockwise(&b3);

    let mut r: Vec<Brick> = Vec::new();
    r.push(b1);
    r.push(b2);
    r.push(b3);
    r.push(b4);
    r
}

/// Two offset lists describe the same piece: each cell of one occurs in the
/// other, whatever the order in which the cells are listed.
pub open spec fn same_cells(a: Seq<XY>, b: Seq<XY>) -> bool {
    &&& forall|i: int| 0 <= i < a.len() ==> b.contains(#[trigger] a[i])
    &&& forall|i: int| 0 <= i < b.len() ==> a.contains(#[trigger] b[i])
}

/// Whether the offset list holds the cell `t`.
fn offsets_contain(v: &Vec<XY>, t: XY) -> (r: bool)
    ensures
        r == v@.contains(t),
{
    let mut i: usize = 0;
    while i < v.len()
        invariant
            0 <= i <= v@.len(),
            forall|j: int| 0 <= j < i ==> v@[j] != t,
        decreases v@.len() - i,
    {
        if v[i] == t {
            assert(v@[i as int] == t);
            return true;
        }
        i = i + 1;
    }
    assert(!v@.contains(t));
    false
}

impl PartialEq for Brick {
    /// Bricks are equal by offset-set content, not by identity or listing
    /// order.
    fn eq(&self, other: &Brick) -> (r: bool) {
        let mut i: usize = 0;
        while i < self.offsets.len()
            invariant
                0 <= i <= self.offsets@.len(),
                forall|j: int| 0 <= j < i ==> other.offsets@.contains(#[trigger] self.offsets@[j]),
            decreases self.offsets@.len() - i,
        {
            if !offsets_contain(&other.offsets, self.offsets[i]) {
                return false;
            }
            i = i + 1;
        }
        let mut i: usize = 0;
        while i < other.offsets.len()
            invariant
                0 <= i <= other.offsets@.len(),
                forall|j: int| 0 <= j < self.offsets@.len() ==> other.offsets@.contains(
                    #[trigger] self.offsets@[j],
                ),
                forall|j: int| 0 <= j < i ==> self.offsets@.contains(#[trigger] other.offsets@[j]),
            decreases other.offsets@.len() - i,
        {
            if !offsets_contain(&self.offsets, other.offsets[i]) {
                return false;
            }
            i = i + 1;
        }
        true
    }
}

impl vstd::std_specs::cmp::PartialEqSpecImpl for Brick {
    open spec fn obeys_eq_spec() -> bool {
        true
    }

    open spec fn eq_spec(&self, other: &Brick) -> bool {
        same_cells(self.offsets@, other.offsets@)
    }
}

/// The 11 hand-authored base shapes, from the single cell up to the
/// five-in-a-row line and the irregular L/T/Z-like, ring-like and S-like
/// shapes.
pub open spec fn spec_base_brick(k: int) -> Seq<XY> {
    if k == 0 {
        seq![XY { x: 0, y: 0 }]
    } else if k == 1 {
        seq![XY { x: 0, y: 0 }, XY { x: 1, y: 0 }]
    } else if k == 2 {
        seq![XY { x: 0, y: 0 }, XY { x: 1, y: 0 }, XY { x: 2, y: 0 }]
    } else if k == 3 {
        seq![XY { x: 0, y: 0 }, XY { x: 1, y: 0 }, XY { x: 2, y: 0 }, XY { x: 3, y: 0 }]
    } else if k == 4 {
        seq![
            XY { x: 0, y: 0 },
            XY { x: 1, y: 0 },
            XY { x: 2, y: 0 },
            XY { x: 3, y: 0 },
            XY { x: 4, y: 0 },
        ]
    } else if k == 5 {
        seq![XY { x: 0, y: 0 }, XY { x: 1, y: 0 }, XY { x: 0, y: 1 }]
    } else if k == 6 {
        seq![XY { x: 0, y: 0 }, XY { x: 1, y: 0 }, XY { x: 2, y: 0 }, XY { x: 1, y: 1 }]
    } else if k == 7 {
        seq![
            XY { x: 0, y: 0 },
            XY { x: 1, y: 0 },
            XY { x: 2, y: 0 },
            XY { x: 1, y: 1 },
            XY { x: 1, y: 2 },
        ]
    } else if k == 8 {
        seq![
            XY { x: 0, y: 0 },
            XY { x: 1, y: 0 },
            XY { x: 2, y: 0 },
            XY { x: 0, y: 1 },
            XY { x: 2, y: 1 },
        ]
    } else if k == 9 {
        seq![
            XY { x: 0, y: 0 },
            XY { x: 1, y: 0 },
            XY { x: 2, y: 0 },
            XY { x: 0, y: 1 },
            XY { x: 2, y: 1 },
            XY { x: 0, y: 2 },
            XY { x: 2, y: 2 },
        ]
    } else if k == 10 {
        seq![XY { x: 0, y: 0 }, XY { x: 1, y: 0 }, XY { x: 1, y: 1 }, XY { x: 2, y: 1 }]
    } else {
        seq![]
    }
}

/// Every base shape is a well-formed, canonical, rotation-supported brick.
pub proof fn lemma_base_brick_props(k: int)
    requires
        0 <= k < 11,
    ensures
        wf_offsets(spec_base_brick(k)),
        normalized(spec_base_brick(k)),
        rotatable(spec_base_brick(k)),
{
    let s = spec_base_brick(k);
    assert(s[0].x == 0 && s[0].y == 0);
    assert(forall|i: int| 0 <= i < s.len() ==> 0 <= #[trigger] s[i].x <= 8 && 0 <= s[i].y <= 8);
    if k == 3 {
        assert(max_x_of(s) == 3 && max_y_of(s) == 0) by {
            reveal_with_fuel(max_x_upto, 8);
            reveal_with_fuel(max_y_upto, 8);
        }
    } else if k == 4 {
        assert(max_x_of(s) == 4 && max_y_of(s) == 0) by {
            reveal_with_fuel(max_x_upto, 8);
            reveal_with_fuel(max_y_upto, 8);
        }
    } else {
        assert(max_x_of(s) <= 2 && max_y_of(s) <= 2) by {
            reveal_with_fuel(max_x_upto, 8);
            reveal_with_fuel(max_y_upto, 8);
        }
    }
}

/// The library entry at index `i`: the `i % 4`-th rotation of base shape
/// `i / 4`.
pub open spec fn spec_library_entry(i: int) -> Seq<XY> {
    rotate_n(spec_base_brick(i / 4), (i % 4) as nat)
}

/// The first `n` bricks of `s` hold exactly the first `n` library entries.
pub open spec fn library_prefix_ok(s: Seq<Brick>, n: int) -> bool {
    forall|i: int| 0 <= i < n ==> (#[trigger] s[i].offsets@) == spec_library_entry(i)
}

/// The first `n` bricks of `s` are well formed, canonical and supported.
pub open spec fn library_prefix_wf(s: Seq<Brick>, n: int) -> bool {
    forall|i: int|
        0 <= i < n ==> wf_offsets(#[trigger] s[i].offsets@) && normalized(s[i].offsets@)
            && rotatable(s[i].offsets@)
}

/// Appends the four rotations of base shape `k` to the library being built.
fn push_base_rotations(ret: &mut Vec<Brick>, base: Brick, Ghost(k): Ghost<int>)
    requires
        0 <= k < 11,
        base.offsets@ == spec_base_brick(k),
        old(ret)@.len() == 4 * k,
        library_prefix_ok(old(ret)@, 4 * k),
        library_prefix_wf(old(ret)@, 4 * k),
    ensures
        final(ret)@.len() == 4 * k + 4,
        library_prefix_ok(final(ret)@, 4 * k + 4),
        library_prefix_wf(final(ret)@, 4 * k + 4),
{
    proof {
        lemma_base_brick_props(k);
    }
    let mut rots = all_brick_rotations(&base);
    let ghost rseq = rots@;
    let ghost prev = ret@;
    ret.append(&mut rots);
    proof {
        assert forall|i: int| 0 <= i < 4 * k + 4 implies (#[trigger] ret@[i].offsets@)
            == spec_library_entry(i) && wf_offsets(ret@[i].offsets@) && normalized(
            ret@[i].offsets@,
        ) && rotatable(ret@[i].offsets@) by {
            if i < 4 * k {
                assert(ret@[i] == prev[i]);
                assert(prev[i].offsets@ == spec_library_entry(i));
            } else {
                assert(ret@[i] == rseq[i - 4 * k]);
                assert(i / 4 == k && i % 4 == i - 4 * k);
                assert(rseq[i - 4 * k].offsets@ == rotate_n(base.offsets@, (i - 4 * k) as nat));
            }
        }
    }
}

/// Builds the fixed piece catalogue: for each of the 11 base shapes, its four
/// rotations in order, 44 bricks in all. Shapes with rotational symmetry
/// appear several times, so a uniform draw weights orientations, not
/// distinct shapes, equally.
pub fn generate_brick_library() -> (r: Vec<Brick>)
    ensures
        r@.len() == 44,
        library_prefix_ok(r@, 44),
        library_prefix_wf(r@, 44),
{
    let mut ret: Vec<Brick> = Vec::new();

    // X
    let brick_0 = Brick { offsets: vec![xy(0, 0)] };
    proof {
        assert(brick_0.offsets@ =~= spec_base_brick(0));
    }
    push_base_rotations(&mut ret, brick_0, Ghost(0));

    // XX
    let brick_1 = Brick { offsets: vec![xy(0, 0), xy(1, 0)] };
    proof {
        assert(brick_1.offsets@ =~= spec_base_brick(1));
    }
    push_base_rotations(&mut ret, brick_1, Ghost(1));

    // XXX
    let brick_2 = Brick { offsets: vec![xy(0, 0), xy(1, 0), xy(2, 0)] };
    proof {
        assert(brick_2.offsets@ =~= spec_base_brick(2));
    }
    push_base_rotations(&mut ret, brick_2, Ghost(2));

    // XXXX
    let brick_3 = Brick { offsets: vec![xy(0, 0), xy(1, 0), xy(2, 0), xy(3, 0)] };
    proof {
        assert(brick_3.offsets@ =~= spec_base_brick(3));
    }
    push_base_rotations(&mut ret, brick_3, Ghost(3));

    // XXXXX
    let brick_4 = Brick { offsets: vec![xy(0, 0), xy(1, 0), xy(2, 0), xy(3, 0), xy(4, 0)] };
    proof {
        assert(brick_4.offsets@ =~= spec_base_brick(4));
    }
    push_base_rotations(&mut ret, brick_4, Ghost(4));

    // XX
    // X
    let brick_5 = Brick { offsets: vec![xy(0, 0), xy(1, 0), xy(0, 1)] };
    proof {
        assert(brick_5.offsets@ =~= spec_base_brick(5));
    }
    push_base_rotations(&mut ret, brick_5, Ghost(5));

    // XXX
    //  X
    let brick_6 = Brick { offsets: vec![xy(0, 0), xy(1, 0), xy(2, 0), xy(1, 1)] };
    proof {
        assert(brick_6.offsets@ =~= spec_base_brick(6));
    }
    push_base_rotations(&mut ret, brick_6, Ghost(6));

    // XXX
    //  X
    //  X
    let brick_7 = Brick { offsets: vec![xy(0, 0), xy(1, 0), xy(2, 0), xy(1, 1), xy(1, 2)] };
    proof {
        assert(brick_7.offsets@ =~= spec_base_brick(7));
    }
    push_base_rotations(&mut ret, brick_7, Ghost(7));

    // XXX
    // X X
    let brick_8 = Brick { offsets: vec![xy(0, 0), xy(1, 0), xy(2, 0), xy(0, 1), xy(2, 1)] };
    proof {
        assert(brick_8.offsets@ =~= spec_base_brick(8));
    }
    push_base_rotations(&mut ret, brick_8, Ghost(8));

    // XXX
    // X X
    // X X
    let brick_9 = Brick {
        offsets: vec![
            xy(0, 0),
            xy(1, 0),
            xy(2, 0),
            xy(0, 1),
            xy(2, 1),
            xy(0, 2),
            xy(2, 2),
        ],
    };
    proof {
        assert(brick_9.offsets@ =~= spec_base_brick(9));
    }
    push_base_rotations(&mut ret, brick_9, Ghost(9));

    // XX
    //  XX
    let brick_10 = Brick { offsets: vec![xy(0, 0), xy(1, 0), xy(1, 1), xy(2, 1)] };
    proof {
        assert(brick_10.offsets@ =~= spec_base_brick(10));
    }
    push_base_rotations(&mut ret, brick_10, Ghost(10));

    ret
}

/// Relies on rand::random_range: a uniform draw from the given range, which
/// panics only when the range is empty.
#[verifier::external_body]
fn draw_index(n: usize) -> (r: usize)
    requires
        n > 0,
    ensures
        r < n,
{
    rand::random_range(0..n)
}

/// Draws one brick uniformly from the library by index. The library is the
/// caller-built, read-only catalogue; the randomness device is the process-wide
/// one, so two calls on the same library may differ.
pub fn random_brick(library: &Vec<Brick>) -> (r: Brick)
    requires
        library@.len() >= 1,
    ensures
        exists|i: int| 0 <= i < library@.len() && r.offsets@ == (#[trigger] library@[i].offsets@),
{
    let i = draw_index(library.len());
    let r = clone_brick(&library[i]);
    proof {
        assert(r.offsets@ == library@[i as int].offsets@);
    }
    r
}

} // verus!
