//! Properties that relate several operations of the engine.
use vstd::prelude::*;
use vstd::set_lib::{lemma_len_subset, lemma_set_disjoint_lens};
use crate::mandelbrot::{
    Mandelbrot, CENTER_LIMIT, TILE_SIZE, panned, rem_toward_zero, step_done, stepped,
};
use crate::palette::{Rgba, color_of};
use crate::square::{Square, tile_image};

verus! {

/// The escape count zero (no escape within the budget) is colored opaque
/// black, whatever the palette.
pub proof fn color_of_zero_is_opaque_black(palette: Seq<Rgba>)
    ensures
        color_of(0, palette) == (Rgba { r: 0, g: 0, b: 0, a: 255 }),
{
}

/// Every color the mapping gives is opaque.
pub proof fn color_is_opaque(iterations: u32, palette: Seq<Rgba>)
    ensures
        color_of(iterations, palette).a == 255,
{
}

/// Two colorings of the same count with the same palette agree.
pub proof fn color_is_deterministic(iterations: u32, palette: Seq<Rgba>, first: Rgba, second: Rgba)
    requires
        first == color_of(iterations, palette),
        second == color_of(iterations, palette),
    ensures
        first == second,
{
}

/// Rendering a cached tile again from the same probes and merging the
/// result leaves the cache as it was: one entry for the key, same image,
/// same number of entries.
pub proof fn rerender_merge_is_idempotent<F: Fn(i128, i128, u64, u32) -> u32>(
    cache: Map<Square, Seq<Rgba>>,
    key: Square,
    eval: F,
    palette: Seq<Rgba>,
    probes: Seq<(u32, u32)>,
)
    requires
        cache.contains_key(key),
        cache[key] == tile_image(eval, key, palette, probes),
    ensures
        cache.insert(key, tile_image(eval, key, palette, probes)) == cache,
        cache.insert(key, tile_image(eval, key, palette, probes)).dom() == cache.dom(),
{
    assert(cache.insert(key, tile_image(eval, key, palette, probes)) =~= cache);
}

/// Panning by `(dx, dy)` and back by `(-dx, -dy)` restores the center
/// exactly when the first pan stays within `CENTER_LIMIT`; the cached tiles
/// are untouched by both.
pub proof fn pan_round_trip(a: Mandelbrot, b: Mandelbrot, c: Mandelbrot, dx: int, dy: int)
    requires
        a.wf(),
        panned(a, b, dx, dy),
        panned(b, c, -dx, -dy),
        -CENTER_LIMIT <= a.center_x + dx <= CENTER_LIMIT,
        -CENTER_LIMIT <= a.center_y + dy <= CENTER_LIMIT,
    ensures
        c.center_x == a.center_x,
        c.center_y == a.center_y,
        c.zoom == a.zoom,
        c.squares == a.squares,
{
}

/// Every required tile carries the view's zoom and iteration budget, so a
/// tile cached under another zoom or budget never satisfies one.
pub proof fn required_tiles_carry_level(m: Mandelbrot, k: Square)
    requires
        m.is_required(k),
    ensures
        k.zoom == m.zoom,
        k.max_iter == m.max_iter,
{
}

/// After a change of zoom, the required tiles of the new view and of the
/// old one are disjoint, and a non-empty view requires at least its corner
/// tile, which the old view did not.
pub proof fn zoom_change_replaces_required_tiles(pre: Mandelbrot, post: Mandelbrot, k: Square)
    requires
        post.wf(),
        pre.zoom != post.zoom,
        post.width > 0,
        post.height > 0,
    ensures
        post.is_required(k) ==> !pre.is_required(k),
        post.is_required(
            Square {
                x: post.start_x() as i64,
                y: post.start_y() as i64,
                zoom: post.zoom,
                size: TILE_SIZE,
                max_iter: post.max_iter,
            },
        ),
        !pre.is_required(
            Square {
                x: post.start_x() as i64,
                y: post.start_y() as i64,
                zoom: post.zoom,
                size: TILE_SIZE,
                max_iter: post.max_iter,
            },
        ),
{
    let tx = post.top_x();
    let ty = post.top_y();
    assert(-48 < rem_toward_zero(tx, 48) < 48);
    assert(-48 < rem_toward_zero(ty, 48) < 48);
    assert((post.start_x() - post.start_x()) % (TILE_SIZE as int) == 0);
    assert((post.start_y() - post.start_y()) % (TILE_SIZE as int) == 0);
}

/// Missing-tile count bound along a run of steps.
proof fn steps_shrink_missing<F: Fn(i128, i128, u64, u32) -> u32>(
    states: Seq<Mandelbrot>,
    eval: F,
    palette: Seq<Rgba>,
    i: int,
)
    requires
        0 <= i < states.len(),
        forall|t: int|
            0 <= t < states.len() - 1 ==> stepped(#[trigger] states[t], states[t + 1], eval, palette),
    ensures
        states[i].missing().len() == 0 || states[i].missing().len() + i <= states[0].missing().len(),
    decreases i,
{
    if i > 0 {
        steps_shrink_missing(states, eval, palette, i - 1);
        assert(stepped(states[i - 1], states[i], eval, palette));
        let b = choose|b: nat| b >= 1 && #[trigger] step_done(states[i - 1], states[i], b, eval, palette);
    }
}

/// Stepping an unchanged view with a budget of at least one tile per call
/// (`step` with a positive budget, or `calculate_mandelbrot`) leaves no
/// required tile missing after as many calls as were missing at the start;
/// after at least one call the completion flag is then set.
pub proof fn steps_converge<F: Fn(i128, i128, u64, u32) -> u32>(
    states: Seq<Mandelbrot>,
    eval: F,
    palette: Seq<Rgba>,
)
    requires
        states.len() >= 1,
        states.len() - 1 >= states[0].missing().len(),
        forall|t: int|
            0 <= t < states.len() - 1 ==> stepped(#[trigger] states[t], states[t + 1], eval, palette),
    ensures
        states.last().missing().len() == 0,
        states.len() >= 2 ==> states.last().finished_frame,
{
    let n = states.len() - 1;
    steps_shrink_missing(states, eval, palette, n);
    if states.len() >= 2 {
        let pre = states[n - 1];
        let post = states[n];
        assert(stepped(pre, post, eval, palette));
        let b = choose|b: nat| b >= 1 && #[trigger] step_done(pre, post, b, eval, palette);
        post.missing().lemma_len0_is_empty();
        assert forall|k: Square| post.is_required(k) implies #[trigger]
            post.squares@.contains_key(k) by {
            assert(!post.missing().contains(k));
        }
    }
}

/// Cached tiles of the view's own zoom and iteration budget.
pub open spec fn level_tiles(m: Mandelbrot) -> Set<Square> {
    m.squares@.dom().filter(|k: Square| k.zoom == m.zoom && k.max_iter == m.max_iter)
}

/// Panning touches no cached tile, and a scheduling step on the panned view
/// keeps every tile of the current zoom and budget with its image and adds
/// only tiles that the panned view newly needs: the count of such tiles
/// grows by exactly the number added.
pub proof fn pan_keeps_level_tiles<F: Fn(i128, i128, u64, u32) -> u32>(
    a: Mandelbrot,
    b: Mandelbrot,
    c: Mandelbrot,
    dx: int,
    dy: int,
    budget: nat,
    eval: F,
    palette: Seq<Rgba>,
)
    requires
        a.wf(),
        panned(a, b, dx, dy),
        step_done(b, c, budget, eval, palette),
    ensures
        forall|k: Square|
            #[trigger] a.squares@.contains_key(k) && k.zoom == a.zoom && k.max_iter == a.max_iter
                ==> c.squares@.contains_key(k) && c.squares@[k] == a.squares@[k],
        forall|k: Square|
            #[trigger] c.squares@.contains_key(k) && !a.squares@.contains_key(k)
                ==> b.missing().contains(k),
        level_tiles(c).finite(),
        level_tiles(c).len() == level_tiles(a).len() + c.squares@.dom().difference(
            a.squares@.dom(),
        ).len(),
{
    let la = level_tiles(a);
    let lc = level_tiles(c);
    let added = c.squares@.dom().difference(a.squares@.dom());
    a.squares.lemma_dom_finite();
    c.squares.lemma_dom_finite();
    lemma_len_subset(la, a.squares@.dom());
    lemma_len_subset(added, c.squares@.dom());
    lemma_len_subset(lc, c.squares@.dom());
    assert forall|k: Square| added.contains(k) implies lc.contains(k) by {
        assert(b.missing().contains(k));
    }
    assert(lc =~= la.union(added));
    lemma_set_disjoint_lens(la, added);
}

} // verus!
