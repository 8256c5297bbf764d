//! Partition of the framebuffer into disjoint rectangular tiles.
use vstd::prelude::*;

verus! {

/// An axis-aligned rectangle of pixels, `[min_x, max_x) x [min_y, max_y)`.
#[derive(Debug, Clone, Copy, PartialEq, Eq, Structural)]
pub struct Rect {
    pub min_x: u32,
    pub min_y: u32,
    pub max_x: u32,
    pub max_y: u32,
}

impl Rect {
    /// The bounds are ordered, so the extents do not underflow.
    pub open spec fn wf(self) -> bool {
        self.min_x <= self.max_x && self.min_y <= self.max_y
    }

    /// The pixel `(x, y)` lies inside the rectangle.
    pub open spec fn contains(self, x: int, y: int) -> bool {
        self.min_x <= x < self.max_x && self.min_y <= y < self.max_y
    }

    pub fn width(&self) -> (r: u32)
        requires
            self.min_x <= self.max_x,
        ensures
            r == self.max_x - self.min_x,
    {
        self.max_x - self.min_x
    }

    pub fn height(&self) -> (r: u32)
        requires
            self.min_y <= self.max_y,
        ensures
            r == self.max_y - self.min_y,
    {
        self.max_y - self.min_y
    }
}

/// `2^d`.
pub open spec fn two_pow(d: nat) -> nat
    decreases d,
{
    if d == 0 {
        1
    } else {
        2 * two_pow((d - 1) as nat)
    }
}

/// Smallest number of binary subdivisions that yields at least `n` tiles.
pub fn compute_subdivisions(n: usize) -> (depth: u32)
    ensures
        two_pow(depth as nat) >= n,
        depth == 0 || two_pow((depth - 1) as nat) < n,
{
    let mut depth: u32 = 0;
    let mut count: u128 = 1;
    while count < n as u128
        invariant
            count == two_pow(depth as nat),
            count >= 1,
            depth == 0 || two_pow((depth - 1) as nat) < n,
            depth <= 64,
        decreases 2 * (n as int) - count,
    {
        proof {
            lemma_two_pow_bound(depth as nat);
        }
        depth = depth + 1;
        count = count * 2;
    }
    depth
}

proof fn lemma_two_pow_monotone(a: nat, b: nat)
    requires
        a <= b,
    ensures
        two_pow(a) <= two_pow(b),
    decreases b - a,
{
    if a < b {
        lemma_two_pow_monotone(a, (b - 1) as nat);
    }
}

proof fn lemma_two_pow_bound(d: nat)
    ensures
        d >= 64 ==> two_pow(d) >= 0x1_0000_0000_0000_0000,
{
    reveal_with_fuel(two_pow, 65);
    assert(two_pow(64) == 0x1_0000_0000_0000_0000);
    if d >= 64 {
        lemma_two_pow_monotone(64, d);
    }
}

/// The two halves of `r` when it is split across `x` (`vertical`) or across
/// `y`; of an odd extent the first half gets the extra pixel.
pub open spec fn split(r: Rect, vertical: bool) -> (Rect, Rect) {
    if vertical {
        let mid = (r.min_x + (r.max_x - r.min_x + 1) / 2) as u32;
        (
            Rect { min_x: r.min_x, min_y: r.min_y, max_x: mid, max_y: r.max_y },
            Rect { min_x: mid, min_y: r.min_y, max_x: r.max_x, max_y: r.max_y },
        )
    } else {
        let mid = (r.min_y + (r.max_y - r.min_y + 1) / 2) as u32;
        (
            Rect { min_x: r.min_x, min_y: r.min_y, max_x: r.max_x, max_y: mid },
            Rect { min_x: r.min_x, min_y: mid, max_x: r.max_x, max_y: r.max_y },
        )
    }
}

/// The tiles of `r` after `depth` levels of bisection, alternating the split
/// direction at each level and starting with `vertical`, first half first.
pub open spec fn tiles_of(r: Rect, vertical: bool, depth: nat) -> Seq<Rect>
    decreases depth,
{
    if depth == 0 {
        seq![r]
    } else {
        let (a, b) = split(r, vertical);
        tiles_of(a, !vertical, (depth - 1) as nat) + tiles_of(b, !vertical, (depth - 1) as nat)
    }
}

/// The rectangle covering a `width x height` screen.
pub open spec fn screen_rect(width: u32, height: u32) -> Rect {
    Rect { min_x: 0, min_y: 0, max_x: width, max_y: height }
}

/// The tiling of a `width x height` screen at the given depth.
pub open spec fn tiling(width: u32, height: u32, depth: nat) -> Seq<Rect> {
    tiles_of(screen_rect(width, height), true, depth)
}

proof fn lemma_split(r: Rect, vertical: bool)
    requires
        r.wf(),
    ensures
        split(r, vertical).0.wf(),
        split(r, vertical).1.wf(),
        forall|x: int, y: int|
            #![trigger r.contains(x, y)]
            r.contains(x, y) <==> (split(r, vertical).0.contains(x, y) || split(r,
                vertical,
            ).1.contains(x, y)),
        forall|x: int, y: int|
            #![trigger split(r, vertical).0.contains(x, y), split(r, vertical).1.contains(x, y)]
            !(split(r, vertical).0.contains(x, y) && split(r, vertical).1.contains(x, y)),
{
}

proof fn lemma_tiles_partition(r: Rect, vertical: bool, depth: nat)
    requires
        r.wf(),
    ensures
        tiles_of(r, vertical, depth).len() == two_pow(depth),
        forall|i: int| 0 <= i < tiles_of(r, vertical, depth).len() ==> #[trigger] tiles_of(r, vertical, depth)[i].wf(),
        forall|i: int, x: int, y: int|
            0 <= i < tiles_of(r, vertical, depth).len() && #[trigger] tiles_of(r, vertical, depth)[i].contains(x, y)
                ==> r.contains(x, y),
        forall|x: int, y: int|
            #![trigger r.contains(x, y)]
            r.contains(x, y) ==> exists|i: int|
                0 <= i < tiles_of(r, vertical, depth).len() && #[trigger] tiles_of(r, vertical, depth)[i].contains(x, y),
        forall|i: int, j: int, x: int, y: int|
            0 <= i < tiles_of(r, vertical, depth).len() && 0 <= j < tiles_of(r, vertical, depth).len() && i != j
                && #[trigger] tiles_of(r, vertical, depth)[i].contains(x, y)
                ==> !(#[trigger] tiles_of(r, vertical, depth)[j].contains(x, y)),
    decreases depth,
{
    let t = tiles_of(r, vertical, depth);
    if depth == 0 {
        assert(t =~= seq![r]);
        assert forall|x: int, y: int| #![trigger r.contains(x, y)] r.contains(x, y) implies exists|i: int|
            0 <= i < t.len() && #[trigger] t[i].contains(x, y) by {
            assert(t[0].contains(x, y));
        }
    } else {
        let (a, b) = split(r, vertical);
        let d = (depth - 1) as nat;
        lemma_split(r, vertical);
        lemma_tiles_partition(a, !vertical, d);
        lemma_tiles_partition(b, !vertical, d);
        let ta = tiles_of(a, !vertical, d);
        let tb = tiles_of(b, !vertical, d);
        assert(t == ta + tb);
        assert forall|i: int| 0 <= i < t.len() implies #[trigger] t[i].wf() by {
            if i < ta.len() {
                assert(t[i] == ta[i]);
            } else {
                assert(t[i] == tb[i - ta.len()]);
            }
        }
        assert forall|i: int, x: int, y: int| 0 <= i < t.len() && #[trigger] t[i].contains(x, y) implies r.contains(x, y) by {
            if i < ta.len() {
                assert(t[i] == ta[i]);
                assert(a.contains(x, y));
            } else {
                assert(t[i] == tb[i - ta.len()]);
                assert(b.contains(x, y));
            }
        }
        assert forall|x: int, y: int| #![trigger r.contains(x, y)] r.contains(x, y) implies exists|i: int|
            0 <= i < t.len() && #[trigger] t[i].contains(x, y) by {
            if a.contains(x, y) {
                let k = choose|k: int| 0 <= k < ta.len() && #[trigger] ta[k].contains(x, y);
                assert(t[k] == ta[k]);
                assert(t[k].contains(x, y));
            } else {
                assert(b.contains(x, y));
                let k = choose|k: int| 0 <= k < tb.len() && #[trigger] tb[k].contains(x, y);
                assert(t[k + ta.len()] == tb[k]);
                assert(t[k + ta.len()].contains(x, y));
            }
        }
        assert forall|i: int, j: int, x: int, y: int|
            0 <= i < t.len() && 0 <= j < t.len() && i != j && #[trigger] t[i].contains(x, y)
                implies !(#[trigger] t[j].contains(x, y)) by {
            if t[j].contains(x, y) {
                if i < ta.len() {
                    assert(t[i] == ta[i]);
                    assert(a.contains(x, y));
                } else {
                    assert(t[i] == tb[i - ta.len()]);
                    assert(b.contains(x, y));
                }
                if j < ta.len() {
                    assert(t[j] == ta[j]);
                    assert(a.contains(x, y));
                } else {
                    assert(t[j] == tb[j - ta.len()]);
                    assert(b.contains(x, y));
                }
            }
        }
    }
}

/// The tiling of a `width x height` screen at any depth consists of `2^depth`
/// well-formed tiles that are pairwise disjoint and whose union is exactly
/// `[0, width) x [0, height)`.
pub proof fn lemma_tiling_covers_screen(width: u32, height: u32, depth: nat)
    ensures
        tiling(width, height, depth).len() == two_pow(depth),
        forall|i: int| 0 <= i < tiling(width, height, depth).len() ==> #[trigger] tiling(width, height, depth)[i].wf(),
        forall|i: int, x: int, y: int|
            0 <= i < tiling(width, height, depth).len() && #[trigger] tiling(width, height, depth)[i].contains(x, y)
                ==> screen_rect(width, height).contains(x, y),
        forall|x: int, y: int|
            #![trigger screen_rect(width, height).contains(x, y)]
            screen_rect(width, height).contains(x, y) ==> exists|i: int|
                0 <= i < tiling(width, height, depth).len() && #[trigger] tiling(width, height, depth)[i].contains(x, y),
        forall|i: int, j: int, x: int, y: int|
            0 <= i < tiling(width, height, depth).len() && 0 <= j < tiling(width, height, depth).len() && i != j
                && #[trigger] tiling(width, height, depth)[i].contains(x, y)
                ==> !(#[trigger] tiling(width, height, depth)[j].contains(x, y)),
{
    let r = screen_rect(width, height);
    lemma_tiles_partition(r, true, depth);
    let t = tiling(width, height, depth);
    assert forall|x: int, y: int| #![trigger screen_rect(width, height).contains(x, y)]
        screen_rect(width, height).contains(x, y) implies exists|i: int|
        0 <= i < t.len() && #[trigger] t[i].contains(x, y) by {
        assert(r.contains(x, y));
        let k = choose|k: int| 0 <= k < t.len() && #[trigger] tiles_of(r, true, depth)[k].contains(x, y);
        assert(t[k].contains(x, y));
    }
}

fn subdivide_into(r: Rect, vertical: bool, depth: u32, rects: &mut Vec<Rect>)
    requires
        r.wf(),
    ensures
        final(rects)@ == old(rects)@ + tiles_of(r, vertical, depth as nat),
    decreases depth,
{
    if depth == 0 {
        rects.push(r);
        assert(tiles_of(r, vertical, 0) == seq![r]);
        return;
    }
    let w = r.max_x - r.min_x;
    let h = r.max_y - r.min_y;
    let (first, second) = if vertical {
        let mid = r.min_x + (w - w / 2);
        (
            Rect { min_x: r.min_x, min_y: r.min_y, max_x: mid, max_y: r.max_y },
            Rect { min_x: mid, min_y: r.min_y, max_x: r.max_x, max_y: r.max_y },
        )
    } else {
        let mid = r.min_y + (h - h / 2);
        (
            Rect { min_x: r.min_x, min_y: r.min_y, max_x: r.max_x, max_y: mid },
            Rect { min_x: r.min_x, min_y: mid, max_x: r.max_x, max_y: r.max_y },
        )
    };
    assert((first, second) == split(r, vertical));
    let ghost before = rects@;
    subdivide_into(first, !vertical, depth - 1, rects);
    subdivide_into(second, !vertical, depth - 1, rects);
    assert(rects@ =~= before + tiles_of(r, vertical, depth as nat));
}

/// Splits the `width x height` screen into `2^depth` tiles by recursive
/// bisection, alternating vertical and horizontal splits, vertical first.
pub fn subdivide(width: u32, height: u32, depth: u32) -> (rects: Vec<Rect>)
    ensures
        rects@ == tiling(width, height, depth as nat),
{
    let mut rects: Vec<Rect> = Vec::new();
    let root = Rect { min_x: 0, min_y: 0, max_x: width, max_y: height };
    subdivide_into(root, true, depth, &mut rects);
    assert(rects@ =~= tiling(width, height, depth as nat));
    rects
}

} // verus!
