//! Merge of the tiles' color buffers into the presented framebuffer.
use vstd::prelude::*;
use crate::screen::{Color, ScreenSpace};
use crate::tiling::{lemma_tiling_covers_screen, screen_rect, tiling};

verus! {

/// The color of framebuffer pixel `(x, y)` after the first `k` tiles have
/// been copied over `base`: the last of them that covers the pixel wins.
pub open spec fn merged_color(tiles: Seq<ScreenSpace>, k: int, base: ScreenSpace, x: int, y: int) -> Color
    decreases k,
{
    if k <= 0 {
        base.color_at(x, y)
    } else if tiles[k - 1].rect.contains(x, y) {
        tiles[k - 1].color_at(x - tiles[k - 1].rect.min_x, y - tiles[k - 1].rect.min_y)
    } else {
        merged_color(tiles, k - 1, base, x, y)
    }
}

/// No pixel lies in the rectangles of two different tiles.
pub open spec fn tiles_disjoint(tiles: Seq<ScreenSpace>) -> bool {
    forall|i: int, j: int, x: int, y: int|
        0 <= i < tiles.len() && 0 <= j < tiles.len() && i != j && #[trigger] tiles[i].rect.contains(x, y)
            ==> !#[trigger] tiles[j].rect.contains(x, y)
}

/// Copies every tile's colors into `screen` at the tile's position; rows and
/// columns of a tile beyond the framebuffer's edges are dropped. Depths are
/// not copied.
pub fn merge_tiles(screen: &mut ScreenSpace, tiles: &Vec<ScreenSpace>)
    requires
        old(screen).wf(),
        forall|i: int| 0 <= i < tiles@.len() ==> #[trigger] tiles@[i].wf() && tiles@[i].fits_rect(),
    ensures
        final(screen).wf(),
        final(screen).rect == old(screen).rect,
        final(screen).width == old(screen).width,
        final(screen).height == old(screen).height,
        final(screen).depth@ == old(screen).depth@,
        forall|x: int, y: int| old(screen).in_bounds(x, y) ==> #[trigger] final(screen).color_at(x, y) == merged_color(
            tiles@,
            tiles@.len() as int,
            *old(screen),
            x,
            y,
        ),
{
    let ghost start = *screen;
    let mut k: usize = 0;
    while k < tiles.len()
        invariant
            0 <= k <= tiles@.len(),
            screen.wf(),
            screen.rect == start.rect,
            screen.width == start.width,
            screen.height == start.height,
            screen.depth@ == start.depth@,
            forall|i: int| 0 <= i < tiles@.len() ==> #[trigger] tiles@[i].wf() && tiles@[i].fits_rect(),
            forall|x: int, y: int| start.in_bounds(x, y) ==> #[trigger] screen.color_at(x, y) == merged_color(tiles@, k as int, start, x, y),
        decreases tiles@.len() - k,
    {
        let tile = &tiles[k];
        assert(tiles@[k as int].wf() && tiles@[k as int].fits_rect());
        assert(*tile == tiles@[k as int]);
        let ghost before = *screen;
        let tw = tile.rect.max_x - tile.rect.min_x;
        let th = tile.rect.max_y - tile.rect.min_y;
        let mut ly: u32 = 0;
        while ly < th
            invariant
                0 <= ly <= th,
                *tile == tiles@[k as int],
                tile.wf(),
                tile.fits_rect(),
                tw == tile.width,
                th == tile.height,
                screen.wf(),
                screen.rect == start.rect,
                screen.width == start.width,
                screen.height == start.height,
                screen.depth@ == start.depth@,
                forall|x: int, y: int| start.in_bounds(x, y) ==> #[trigger] screen.color_at(x, y) == (if tile.rect.contains(x, y)
                    && y < tile.rect.min_y + ly {
                    tile.color_at(x - tile.rect.min_x, y - tile.rect.min_y)
                } else {
                    before.color_at(x, y)
                }),
            decreases th - ly,
        {
            let mut lx: u32 = 0;
            while lx < tw
                invariant
                    0 <= lx <= tw,
                    0 <= ly < th,
                    *tile == tiles@[k as int],
                    tile.wf(),
                    tile.fits_rect(),
                    tw == tile.width,
                    th == tile.height,
                    screen.wf(),
                    screen.rect == start.rect,
                    screen.width == start.width,
                    screen.height == start.height,
                    screen.depth@ == start.depth@,
                    forall|x: int, y: int| start.in_bounds(x, y) ==> #[trigger] screen.color_at(x, y) == (if tile.rect.contains(x, y)
                        && (y < tile.rect.min_y + ly || (y == tile.rect.min_y + ly && x < tile.rect.min_x + lx)) {
                        tile.color_at(x - tile.rect.min_x, y - tile.rect.min_y)
                    } else {
                        before.color_at(x, y)
                    }),
                decreases tw - lx,
            {
                let gx = tile.rect.min_x + lx;
                let gy = tile.rect.min_y + ly;
                if gx < screen.width && gy < screen.height {
                    match tile.get_pixel(lx, ly) {
                        Some(c) => {
                            screen.set_pixel(gx, gy, c.0, c.1, c.2, c.3);
                        },
                        None => {},
                    }
                }
                lx = lx + 1;
            }
            ly = ly + 1;
        }
        proof {
            assert forall|x: int, y: int| start.in_bounds(x, y) implies #[trigger] screen.color_at(x, y) == merged_color(tiles@, k as int + 1, start, x, y) by {
                assert(before.color_at(x, y) == merged_color(tiles@, k as int, start, x, y));
            }
        }
        k = k + 1;
    }
}

/// With pairwise disjoint tiles, every framebuffer pixel that a tile covers
/// ends up holding exactly that tile's color for it, whatever the order of
/// the tiles.
pub proof fn lemma_merge_fidelity(tiles: Seq<ScreenSpace>, base: ScreenSpace, i: int, x: int, y: int)
    requires
        tiles_disjoint(tiles),
        0 <= i < tiles.len(),
        tiles[i].rect.contains(x, y),
    ensures
        merged_color(tiles, tiles.len() as int, base, x, y) == tiles[i].color_at(x - tiles[i].rect.min_x, y - tiles[i].rect.min_y),
{
    lemma_merged_from(tiles, tiles.len() as int, base, i, x, y);
}

proof fn lemma_merged_from(tiles: Seq<ScreenSpace>, k: int, base: ScreenSpace, i: int, x: int, y: int)
    requires
        tiles_disjoint(tiles),
        0 <= i < k <= tiles.len(),
        tiles[i].rect.contains(x, y),
    ensures
        merged_color(tiles, k, base, x, y) == tiles[i].color_at(x - tiles[i].rect.min_x, y - tiles[i].rect.min_y),
    decreases k,
{
    if k - 1 != i {
        assert(!tiles[k - 1].rect.contains(x, y));
        lemma_merged_from(tiles, k - 1, base, i, x, y);
    }
}

/// A framebuffer pixel that no tile covers keeps its color.
pub proof fn lemma_merge_keeps_uncovered(tiles: Seq<ScreenSpace>, base: ScreenSpace, k: int, x: int, y: int)
    requires
        0 <= k <= tiles.len(),
        forall|i: int| 0 <= i < k ==> !(#[trigger] tiles[i].rect.contains(x, y)),
    ensures
        merged_color(tiles, k, base, x, y) == base.color_at(x, y),
    decreases k,
{
    if k > 0 {
        assert(!tiles[k - 1].rect.contains(x, y));
        lemma_merge_keeps_uncovered(tiles, base, k - 1, x, y);
    }
}

/// When the tiles are those of the screen's tiling at some depth, every pixel
/// of the screen has exactly one owning tile, and after the merge the pixel
/// holds that tile's color for it.
pub proof fn lemma_tiled_frame_fidelity(tiles: Seq<ScreenSpace>, base: ScreenSpace, width: u32, height: u32, depth: nat, x: int, y: int)
    requires
        tiles.len() == tiling(width, height, depth).len(),
        forall|i: int| 0 <= i < tiles.len() ==> #[trigger] tiles[i].rect == tiling(width, height, depth)[i],
        0 <= x < width,
        0 <= y < height,
    ensures
        exists|i: int| {
            &&& 0 <= i < tiles.len()
            &&& #[trigger] tiles[i].rect.contains(x, y)
            &&& forall|j: int| 0 <= j < tiles.len() && j != i ==> !(#[trigger] tiles[j].rect.contains(x, y))
            &&& merged_color(tiles, tiles.len() as int, base, x, y) == tiles[i].color_at(x - tiles[i].rect.min_x, y - tiles[i].rect.min_y)
        },
{
    let t = tiling(width, height, depth);
    lemma_tiling_covers_screen(width, height, depth);
    assert(screen_rect(width, height).contains(x, y));
    let i = choose|i: int| 0 <= i < t.len() && #[trigger] t[i].contains(x, y);
    assert(tiles[i].rect == t[i]);
    assert forall|a: int, b: int, px: int, py: int|
        0 <= a < tiles.len() && 0 <= b < tiles.len() && a != b && #[trigger] tiles[a].rect.contains(px, py)
            implies !#[trigger] tiles[b].rect.contains(px, py) by {
        assert(tiles[a].rect == t[a] && tiles[b].rect == t[b]);
        assert(t[a].contains(px, py));
    }
    assert(tiles_disjoint(tiles));
    lemma_merge_fidelity(tiles, base, i, x, y);
    assert forall|j: int| 0 <= j < tiles.len() && j != i implies !(#[trigger] tiles[j].rect.contains(x, y)) by {
        assert(tiles[j].rect == t[j]);
        assert(t[i].contains(x, y));
    }
}

} // verus!
