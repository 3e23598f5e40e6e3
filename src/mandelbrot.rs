//! Viewport state, the commands that change it, and the scheduler that
//! keeps the tile cache filled for it.
use rayon::iter::{IntoParallelIterator, ParallelIterator};
use vstd::prelude::*;
use vstd::arithmetic::div_mod::{lemma_fundamental_div_mod, lemma_mod_add_multiples_vanish};
use vstd::seq_lib::lemma_seq_contains_after_push;
use vstd::set_lib::lemma_set_disjoint_lens;
use crate::cache::TileCache;
use crate::palette::{Rgba, PALETTE_SIZE};
use crate::square::{Square, eval_ok, probes_in_tile, tile_image};

verus! {

/// Side length of every tile, in pixels.
pub const TILE_SIZE: u32 = 48;

/// Smallest zoom that a zoom command leaves.
pub const MIN_ZOOM: u64 = 10;

/// Smallest iteration budget that an iteration command leaves.
pub const MIN_ITER: u32 = 100;

/// Bound on the magnitude of the viewport center, in fractal-plane pixels:
/// `2^63 - 2^33`. Tile origins of a view reach from
/// `center - width / 2 - 95` to below `center + width / 2 + 1`, and the
/// width is below `2^32`, so every such origin has an `i64` key; a center
/// beyond it would need tiles that cannot be keyed.
pub const CENTER_LIMIT: i64 = 9223372028264841216;

/// Tiles a step may compute for each worker thread.
pub const TILES_PER_WORKER: usize = 6;

/// Iteration budget restored by `reset`.
pub const DEFAULT_MAX_ITER: u32 = 1600;

/// Horizontal center restored by `reset`.
pub const DEFAULT_CENTER_X: i64 = -100;

/// Vertical center restored by `reset`.
pub const DEFAULT_CENTER_Y: i64 = 0;

/// Zoom restored by `reset`.
pub const DEFAULT_ZOOM: u64 = 200;

/// A center coordinate pulled into `[-CENTER_LIMIT, CENTER_LIMIT]`.
pub open spec fn clamp_center(v: int) -> int {
    if v < -CENTER_LIMIT {
        -CENTER_LIMIT as int
    } else if v > CENTER_LIMIT {
        CENTER_LIMIT as int
    } else {
        v
    }
}

/// Integer quotient rounded toward zero, for a positive divisor.
pub open spec fn div_toward_zero(a: int, d: int) -> int {
    if a >= 0 {
        a / d
    } else {
        -((-a) / d)
    }
}

/// `b` to the power `e`.
pub open spec fn pow_nat(b: nat, e: nat) -> nat
    decreases e,
{
    if e == 0 {
        1
    } else {
        b * pow_nat(b, (e - 1) as nat)
    }
}

/// Most scroll steps applied with a single rounding; `z * 133^9` still fits
/// in `u128`.
pub const MAX_STEPS_PER_ROUNDING: i64 = 9;

/// Zoom after `k` steps, `|k| <= 9`, rounded down once: `z * 1.33^k`,
/// saturating at `u64::MAX`.
pub open spec fn scale_steps(z: nat, k: int) -> nat {
    if k >= 0 {
        let v = z * pow_nat(133, k as nat) / pow_nat(100, k as nat);
        if v > u64::MAX {
            u64::MAX as nat
        } else {
            v
        }
    } else {
        z * pow_nat(100, (-k) as nat) / pow_nat(133, (-k) as nat)
    }
}

/// Zoom after `steps` scroll steps of factor 1.33 each: `z * 1.33^steps`
/// rounded down once for every nine steps (so once for any scroll of up to
/// nine steps), saturating at `u64::MAX`.
pub open spec fn zoom_after(z: nat, steps: int) -> nat
    decreases (if steps >= 0 {
        steps
    } else {
        -steps
    }),
{
    if steps > 9 {
        zoom_after(scale_steps(z, 9), steps - 9)
    } else if steps < -9 {
        zoom_after(scale_steps(z, -9), steps + 9)
    } else {
        scale_steps(z, steps)
    }
}

fn pow133(k: u64) -> (r: u128)
    requires
        k <= 9,
    ensures
        r == pow_nat(133, k as nat),
        1 <= r <= 13021612539908538853,
{
    proof {
        reveal_with_fuel(pow_nat, 10);
    }
    if k == 0 {
        1
    } else if k == 1 {
        133
    } else if k == 2 {
        17689
    } else if k == 3 {
        2352637
    } else if k == 4 {
        312900721
    } else if k == 5 {
        41615795893
    } else if k == 6 {
        5534900853769
    } else if k == 7 {
        736141813551277
    } else if k == 8 {
        97906861202319841
    } else {
        13021612539908538853
    }
}

fn pow100(k: u64) -> (r: u128)
    requires
        k <= 9,
    ensures
        r == pow_nat(100, k as nat),
        1 <= r <= pow_nat(133, k as nat),
{
    proof {
        reveal_with_fuel(pow_nat, 10);
    }
    if k == 0 {
        1
    } else if k == 1 {
        100
    } else if k == 2 {
        10000
    } else if k == 3 {
        1000000
    } else if k == 4 {
        100000000
    } else if k == 5 {
        10000000000
    } else if k == 6 {
        1000000000000
    } else if k == 7 {
        100000000000000
    } else if k == 8 {
        10000000000000000
    } else {
        1000000000000000000
    }
}

fn scale_zoom(z: u64, k: i64) -> (r: u64)
    requires
        -9 <= k <= 9,
    ensures
        r == scale_steps(z as nat, k as int),
{
    if k >= 0 {
        let n = pow133(k as u64);
        let d = pow100(k as u64);
        assert(z as int * n as int <= u128::MAX) by (nonlinear_arith)
            requires
                z <= u64::MAX,
                n <= 13021612539908538853,
        ;
        let v: u128 = z as u128 * n / d;
        if v > u64::MAX as u128 {
            u64::MAX
        } else {
            v as u64
        }
    } else {
        let n = pow100((-k) as u64);
        let d = pow133((-k) as u64);
        assert(z as int * n as int <= u128::MAX) by (nonlinear_arith)
            requires
                z <= u64::MAX,
                n <= d,
                d <= 13021612539908538853,
        ;
        let v: u128 = z as u128 * n / d;
        assert(v <= z) by (nonlinear_arith)
            requires
                v == z as int * n as int / d as int,
                1 <= n <= d,
        ;
        v as u64
    }
}

/// Zoom that a zoom command of `steps` leaves, floored at `MIN_ZOOM`.
pub open spec fn zoomed(z: nat, steps: int) -> nat {
    let n = zoom_after(z, steps);
    if n < MIN_ZOOM {
        MIN_ZOOM as nat
    } else {
        n
    }
}

/// Center after a zoom from `z` to `nz` about the screen offset `m`: the
/// old center scaled by `nz / z`, plus the offset scaled by `(nz - z) / z`,
/// each quotient rounded toward zero, then clamped.
pub open spec fn zoomed_center(c: int, m: int, z: int, nz: int) -> int {
    clamp_center(div_toward_zero(c * nz, z) + div_toward_zero(m * (nz - z), z))
}

/// `post` is `pre` panned by `(x, y)` fractal-plane pixels: the center
/// moves (clamped to `CENTER_LIMIT`) and nothing else changes.
pub open spec fn panned(pre: Mandelbrot, post: Mandelbrot, x: int, y: int) -> bool {
    &&& post.center_x == clamp_center(pre.center_x + x)
    &&& post.center_y == clamp_center(pre.center_y + y)
    &&& post.width == pre.width
    &&& post.height == pre.height
    &&& post.zoom == pre.zoom
    &&& post.max_iter == pre.max_iter
    &&& post.squares == pre.squares
    &&& post.finished_frame == pre.finished_frame
}

/// Iteration budget after adding `delta`: at least `MIN_ITER`, at most
/// `u32::MAX`.
pub open spec fn adjusted_iter(max_iter: int, delta: int) -> int {
    let v = max_iter + delta;
    if v < MIN_ITER {
        MIN_ITER as int
    } else if v > u32::MAX {
        u32::MAX as int
    } else {
        v
    }
}

/// Remainder of `t` by `m` with the sign of `t`, as Rust's `%` gives it.
pub open spec fn rem_toward_zero(t: int, m: int) -> int {
    if t >= 0 {
        t % m
    } else {
        -((-t) % m)
    }
}

/// Among values congruent modulo the tile size, one below `b + TILE_SIZE`
/// is at most `b`.
proof fn lemma_aligned_le(a: int, b: int, s: int)
    requires
        (a - s) % (TILE_SIZE as int) == 0,
        (b - s) % (TILE_SIZE as int) == 0,
        a < b + TILE_SIZE,
    ensures
        a <= b,
{
    let m = TILE_SIZE as int;
    lemma_fundamental_div_mod(a - s, m);
    lemma_fundamental_div_mod(b - s, m);
    let qa = (a - s) / m;
    let qb = (b - s) / m;
    assert(qa <= qb) by (nonlinear_arith)
        requires
            a - s == m * qa,
            b - s == m * qb,
            a < b + m,
            m == 48,
    ;
    assert(m * qa <= m * qb) by (nonlinear_arith)
        requires
            qa <= qb,
            m == 48,
    ;
}

/// Pushing a new element keeps a sequence free of duplicates.
proof fn lemma_push_no_dup(s: Seq<Square>, e: Square)
    requires
        s.no_duplicates(),
        !s.contains(e),
    ensures
        s.push(e).no_duplicates(),
{
    assert forall|i: int, j: int|
        0 <= i < s.push(e).len() && 0 <= j < s.push(e).len() && i != j implies s.push(e)[i]
        != s.push(e)[j] by {
        if i == s.len() {
            assert(s[j] == s.push(e)[j]);
        } else if j == s.len() {
            assert(s[i] == s.push(e)[i]);
        }
    }
}

/// Tiles that a step with budget `budget` computes when `n` are missing.
pub open spec fn batch_len(budget: nat, n: nat) -> nat {
    if budget < n {
        budget
    } else {
        n
    }
}

/// What one scheduling step with a budget of `budget` tiles leaves: the
/// view is unchanged; `batch_len` of the missing tiles are rendered from
/// probes drawn for them and cached, and nothing else is added; cached tiles
/// keep their images; once every required tile is cached the flag is set and
/// tiles of another zoom or budget are pruned, and only then.
pub open spec fn step_done<F: Fn(i128, i128, u64, u32) -> u32>(
    pre: Mandelbrot,
    post: Mandelbrot,
    budget: nat,
    eval: F,
    palette: Seq<Rgba>,
) -> bool {
    &&& post.wf()
    &&& post.same_view(pre)
    &&& pre.missing().finite()
    &&& post.missing().finite()
    &&& post.missing().subset_of(pre.missing())
    &&& post.missing().len() == pre.missing().len() - batch_len(budget, pre.missing().len())
    &&& post.finished_frame == post.complete()
    &&& forall|k: Square|
        #[trigger] post.squares@.contains_key(k) && !pre.squares@.contains_key(k) ==> {
            &&& pre.missing().contains(k)
            &&& exists|p: Seq<(u32, u32)>|
                p.len() == k.probe_count() && probes_in_tile(k, p) && post.squares@[k]
                    == tile_image(eval, k, palette, p)
        }
    &&& forall|k: Square|
        #[trigger] pre.squares@.contains_key(k) && ((k.zoom == pre.zoom && k.max_iter
            == pre.max_iter) || !post.finished_frame) ==> post.squares@.contains_key(k)
            && post.squares@[k] == pre.squares@[k]
    &&& post.finished_frame ==> forall|k: Square| #[trigger]
        post.squares@.contains_key(k) ==> k.zoom == pre.zoom && k.max_iter == pre.max_iter
}

/// `next` follows `pre` by one scheduling step with a budget of at least
/// one tile, as `step` with a positive budget and `calculate_mandelbrot`
/// give.
pub open spec fn stepped<F: Fn(i128, i128, u64, u32) -> u32>(
    pre: Mandelbrot,
    next: Mandelbrot,
    eval: F,
    palette: Seq<Rgba>,
) -> bool {
    exists|budget: nat| budget >= 1 && #[trigger] step_done(pre, next, budget, eval, palette)
}

/// Relies on `rand::seq::SliceRandom::shuffle`, which only swaps items: the
/// keys come back in some order, each as often as before.
#[verifier::external_body]
fn shuffle_keys(keys: &mut Vec<Square>, rng: &mut rand::rngs::StdRng)
    ensures
        final(keys)@.to_multiset() == old(keys)@.to_multiset(),
{
    rand::seq::SliceRandom::shuffle(keys.as_mut_slice(), rng)
}

/// Relies on `rayon::current_num_threads`: the size of the worker pool. No
/// property of the number is assumed.
#[verifier::external_body]
fn worker_count() -> (r: usize) {
    rayon::current_num_threads()
}

/// Relies on rayon's parallel map over a `Vec` and its `collect` into a
/// `Vec`, which keeps the order of the items: each job is rendered by
/// `Square::render_probed` with its own probes.
#[verifier::external_body]
fn render_all<F: Fn(i128, i128, u64, u32) -> u32 + Sync>(
    jobs: Vec<(Square, Vec<(u32, u32)>)>,
    eval: &F,
    palette: &Vec<Rgba>,
) -> (r: Vec<Vec<Rgba>>)
    requires
        eval_ok(*eval),
        palette@.len() == PALETTE_SIZE,
        forall|i: int|
            0 <= i < jobs@.len() ==> probes_in_tile(jobs@[i].0, jobs@[i].1@) && jobs@[i].0.area()
                <= usize::MAX,
    ensures
        r@.len() == jobs@.len(),
        forall|i: int|
            0 <= i < jobs@.len() ==> r@[i]@ == tile_image(*eval, jobs@[i].0, palette@, jobs@[i].1@),
{
    jobs.into_par_iter().map(|(k, p)| k.render_probed(&p, eval, palette)).collect()
}

fn clamp_to_center(v: i128) -> (r: i64)
    ensures
        r == clamp_center(v as int),
{
    if v < -(CENTER_LIMIT as i128) {
        -CENTER_LIMIT
    } else if v > CENTER_LIMIT as i128 {
        CENTER_LIMIT
    } else {
        v as i64
    }
}

fn div_trunc(a: i128, d: u128) -> (r: i128)
    requires
        d > 0,
        a > i128::MIN,
    ensures
        r == div_toward_zero(a as int, d as int),
{
    if a >= 0 {
        (a as u128 / d) as i128
    } else {
        let q: u128 = (-a) as u128 / d;
        -(q as i128)
    }
}

/// The view over the fractal plane, and the tiles computed for it.
///
/// Coordinates are in fractal-plane pixels: the plane point is the
/// coordinate divided by `zoom`.
pub struct Mandelbrot {
    pub width: u32,
    pub height: u32,
    pub max_iter: u32,
    pub center_x: i64,
    pub center_y: i64,
    pub zoom: u64,
    pub squares: TileCache,
    /// Whether every tile required by the view was cached at the end of the
    /// last scheduling step; commands between steps leave it as it is.
    pub finished_frame: bool,
}

impl Mandelbrot {
    /// Same size, center, zoom and iteration budget.
    pub open spec fn same_view(&self, other: Mandelbrot) -> bool {
        &&& self.width == other.width
        &&& self.height == other.height
        &&& self.max_iter == other.max_iter
        &&& self.center_x == other.center_x
        &&& self.center_y == other.center_y
        &&& self.zoom == other.zoom
    }

    /// The center lies within `CENTER_LIMIT` and the cache is well formed.
    pub open spec fn wf(&self) -> bool {
        &&& -CENTER_LIMIT <= self.center_x <= CENTER_LIMIT
        &&& -CENTER_LIMIT <= self.center_y <= CENTER_LIMIT
        &&& self.squares.wf()
    }

    /// A view with an empty cache; the center is clamped to `CENTER_LIMIT`,
    /// the largest whose tiles all have `i64` keys.
    pub fn new(
        width: u32,
        height: u32,
        max_iter: u32,
        center_x: i64,
        center_y: i64,
        zoom: u64,
    ) -> (r: Self)
        ensures
            r.wf(),
            r.width == width,
            r.height == height,
            r.max_iter == max_iter,
            r.center_x == clamp_center(center_x as int),
            r.center_y == clamp_center(center_y as int),
            r.zoom == zoom,
            r.squares@ == Map::<Square, Seq<Rgba>>::empty(),
            !r.finished_frame,
    {
        Mandelbrot {
            width,
            height,
            max_iter,
            center_x: clamp_to_center(center_x as i128),
            center_y: clamp_to_center(center_y as i128),
            zoom,
            squares: TileCache::new(),
            finished_frame: false,
        }
    }

    /// Zooms by `zoom` scroll steps about the screen offset
    /// `(mouse_x, mouse_y)` from the view center, which stays over the same
    /// plane point up to rounding. The new zoom is `zoom * 1.33^steps`,
    /// rounded down once (see `zoom_after`), then floored at `MIN_ZOOM`.
    /// From a zoom of zero the center is left as it is.
    pub fn zoom(&mut self, zoom: i32, mouse_x: i32, mouse_y: i32)
        requires
            old(self).wf(),
        ensures
            final(self).wf(),
            final(self).zoom == zoomed(old(self).zoom as nat, zoom as int),
            old(self).zoom > 0 ==> final(self).center_x == zoomed_center(
                old(self).center_x as int,
                mouse_x as int,
                old(self).zoom as int,
                final(self).zoom as int,
            ),
            old(self).zoom > 0 ==> final(self).center_y == zoomed_center(
                old(self).center_y as int,
                mouse_y as int,
                old(self).zoom as int,
                final(self).zoom as int,
            ),
            old(self).zoom == 0 ==> final(self).center_x == old(self).center_x
                && final(self).center_y == old(self).center_y,
            final(self).width == old(self).width,
            final(self).height == old(self).height,
            final(self).max_iter == old(self).max_iter,
            final(self).squares == old(self).squares,
            final(self).finished_frame == old(self).finished_frame,
    {
        let mut z: u64 = self.zoom;
        let mut rest: i64 = zoom as i64;
        while rest > MAX_STEPS_PER_ROUNDING
            invariant
                zoom_after(self.zoom as nat, zoom as int) == zoom_after(z as nat, rest as int),
                i32::MIN <= rest <= i32::MAX,
            decreases rest,
        {
            z = scale_zoom(z, MAX_STEPS_PER_ROUNDING);
            rest = rest - MAX_STEPS_PER_ROUNDING;
        }
        while rest < -MAX_STEPS_PER_ROUNDING
            invariant
                zoom_after(self.zoom as nat, zoom as int) == zoom_after(z as nat, rest as int),
                i32::MIN <= rest <= MAX_STEPS_PER_ROUNDING,
            decreases -rest,
        {
            z = scale_zoom(z, -MAX_STEPS_PER_ROUNDING);
            rest = rest + MAX_STEPS_PER_ROUNDING;
        }
        z = scale_zoom(z, rest);
        let new_zoom: u64 = if z < MIN_ZOOM {
            MIN_ZOOM
        } else {
            z
        };
        if self.zoom > 0 {
            let old_zoom: u128 = self.zoom as u128;
            let diff: i128 = new_zoom as i128 - self.zoom as i128;
            assert(-0x7FFF_FFFE_0000_0000_0000_0000_0000_0000 <= self.center_x as int
                * new_zoom as int <= 0x7FFF_FFFE_0000_0000_0000_0000_0000_0000)
                by (nonlinear_arith)
                requires
                    -CENTER_LIMIT <= self.center_x <= CENTER_LIMIT,
                    new_zoom <= u64::MAX,
            ;
            assert(-0x7FFF_FFFE_0000_0000_0000_0000_0000_0000 <= self.center_y as int
                * new_zoom as int <= 0x7FFF_FFFE_0000_0000_0000_0000_0000_0000)
                by (nonlinear_arith)
                requires
                    -CENTER_LIMIT <= self.center_y <= CENTER_LIMIT,
                    new_zoom <= u64::MAX,
            ;
            assert(-0x1_0000_0000_0000_0000_0000_0000 <= mouse_x as int * diff as int
                <= 0x1_0000_0000_0000_0000_0000_0000) by (nonlinear_arith)
                requires
                    i32::MIN <= mouse_x <= i32::MAX,
                    -0x1_0000_0000_0000_0000 <= diff <= 0x1_0000_0000_0000_0000,
            ;
            assert(-0x1_0000_0000_0000_0000_0000_0000 <= mouse_y as int * diff as int
                <= 0x1_0000_0000_0000_0000_0000_0000) by (nonlinear_arith)
                requires
                    i32::MIN <= mouse_y <= i32::MAX,
                    -0x1_0000_0000_0000_0000 <= diff <= 0x1_0000_0000_0000_0000,
            ;
            let sx: i128 = div_trunc(self.center_x as i128 * new_zoom as i128, old_zoom);
            let ox: i128 = div_trunc(mouse_x as i128 * diff, old_zoom);
            let sy: i128 = div_trunc(self.center_y as i128 * new_zoom as i128, old_zoom);
            let oy: i128 = div_trunc(mouse_y as i128 * diff, old_zoom);
            assert(-0x7FFF_FFFE_0000_0000_0000_0000_0000_0000 <= sx
                <= 0x7FFF_FFFE_0000_0000_0000_0000_0000_0000) by (nonlinear_arith)
                requires
                    sx == div_toward_zero(self.center_x as int * new_zoom as int, old_zoom as int),
                    old_zoom >= 1,
                    -0x7FFF_FFFE_0000_0000_0000_0000_0000_0000 <= self.center_x as int
                        * new_zoom as int <= 0x7FFF_FFFE_0000_0000_0000_0000_0000_0000,
            ;
            assert(-0x7FFF_FFFE_0000_0000_0000_0000_0000_0000 <= sy
                <= 0x7FFF_FFFE_0000_0000_0000_0000_0000_0000) by (nonlinear_arith)
                requires
                    sy == div_toward_zero(self.center_y as int * new_zoom as int, old_zoom as int),
                    old_zoom >= 1,
                    -0x7FFF_FFFE_0000_0000_0000_0000_0000_0000 <= self.center_y as int
                        * new_zoom as int <= 0x7FFF_FFFE_0000_0000_0000_0000_0000_0000,
            ;
            assert(-0x1_0000_0000_0000_0000_0000_0000 <= ox <= 0x1_0000_0000_0000_0000_0000_0000)
                by (nonlinear_arith)
                requires
                    ox == div_toward_zero(mouse_x as int * diff as int, old_zoom as int),
                    old_zoom >= 1,
                    -0x1_0000_0000_0000_0000_0000_0000 <= mouse_x as int * diff as int
                        <= 0x1_0000_0000_0000_0000_0000_0000,
            ;
            assert(-0x1_0000_0000_0000_0000_0000_0000 <= oy <= 0x1_0000_0000_0000_0000_0000_0000)
                by (nonlinear_arith)
                requires
                    oy == div_toward_zero(mouse_y as int * diff as int, old_zoom as int),
                    old_zoom >= 1,
                    -0x1_0000_0000_0000_0000_0000_0000 <= mouse_y as int * diff as int
                        <= 0x1_0000_0000_0000_0000_0000_0000,
            ;
            self.center_x = clamp_to_center(sx + ox);
            self.center_y = clamp_to_center(sy + oy);
        }
        self.zoom = new_zoom;
    }

    /// Resizes the view to `width` by `height` pixels. The zoom is scaled by
    /// `height / old height`, rounded down and saturating; the center is then
    /// scaled by `new zoom / old zoom` (rounded toward zero, clamped), so the
    /// plane point at the center stays there up to one pixel. With an old or
    /// new height of zero the zoom and center are left as they are, and from
    /// a zoom of zero the center is. Tiles stay cached.
    pub fn change_size(&mut self, width: u32, height: u32)
        requires
            old(self).wf(),
        ensures
            final(self).wf(),
            final(self).width == width,
            final(self).height == height,
            old(self).height == 0 || height == 0 ==> final(self).zoom == old(self).zoom
                && final(self).center_x == old(self).center_x && final(self).center_y == old(
                self,
            ).center_y,
            old(self).height > 0 && height > 0 ==> final(self).zoom == (if old(self).zoom as int
                * height as int / old(self).height as int > u64::MAX {
                u64::MAX as int
            } else {
                old(self).zoom as int * height as int / old(self).height as int
            }),
            old(self).height > 0 && height > 0 && old(self).zoom > 0 ==> final(self).center_x
                == clamp_center(
                div_toward_zero(
                    old(self).center_x as int * final(self).zoom as int,
                    old(self).zoom as int,
                ),
            ),
            old(self).height > 0 && height > 0 && old(self).zoom > 0 ==> final(self).center_y
                == clamp_center(
                div_toward_zero(
                    old(self).center_y as int * final(self).zoom as int,
                    old(self).zoom as int,
                ),
            ),
            old(self).zoom == 0 ==> final(self).center_x == old(self).center_x
                && final(self).center_y == old(self).center_y,
            final(self).max_iter == old(self).max_iter,
            final(self).squares == old(self).squares,
            final(self).finished_frame == old(self).finished_frame,
    {
        if self.height > 0 && height > 0 {
            let old_h: u128 = self.height as u128;
            assert(self.zoom as int * height as int <= u128::MAX) by (nonlinear_arith)
                requires
                    self.zoom <= u64::MAX,
                    height <= u32::MAX,
            ;
            let z: u128 = self.zoom as u128 * height as u128 / old_h;
            let new_zoom: u64 = if z > u64::MAX as u128 {
                u64::MAX
            } else {
                z as u64
            };
            if self.zoom > 0 {
                let old_zoom: u128 = self.zoom as u128;
                assert(-0x7FFF_FFFE_0000_0000_0000_0000_0000_0000 <= self.center_x as int
                    * new_zoom as int <= 0x7FFF_FFFE_0000_0000_0000_0000_0000_0000)
                    by (nonlinear_arith)
                    requires
                        -CENTER_LIMIT <= self.center_x <= CENTER_LIMIT,
                        new_zoom <= u64::MAX,
                ;
                assert(-0x7FFF_FFFE_0000_0000_0000_0000_0000_0000 <= self.center_y as int
                    * new_zoom as int <= 0x7FFF_FFFE_0000_0000_0000_0000_0000_0000)
                    by (nonlinear_arith)
                    requires
                        -CENTER_LIMIT <= self.center_y <= CENTER_LIMIT,
                        new_zoom <= u64::MAX,
                ;
                let cx: i128 = div_trunc(self.center_x as i128 * new_zoom as i128, old_zoom);
                let cy: i128 = div_trunc(self.center_y as i128 * new_zoom as i128, old_zoom);
                self.center_x = clamp_to_center(cx);
                self.center_y = clamp_to_center(cy);
            }
            self.zoom = new_zoom;
        }
        self.width = width;
        self.height = height;
    }

    /// Pans by `(x, y)` fractal-plane pixels; the center is clamped to
    /// `CENTER_LIMIT`. Tiles stay cached.
    pub fn move_center(&mut self, x: i64, y: i64)
        requires
            old(self).wf(),
        ensures
            final(self).wf(),
            panned(*old(self), *final(self), x as int, y as int),
    {
        self.center_x = clamp_to_center(self.center_x as i128 + x as i128);
        self.center_y = clamp_to_center(self.center_y as i128 + y as i128);
    }

    /// Adds `delta` to the iteration budget, floored at `MIN_ITER` and
    /// capped at `u32::MAX`.
    pub fn increase_max_iter(&mut self, delta: i32)
        requires
            old(self).wf(),
        ensures
            final(self).wf(),
            final(self).max_iter == adjusted_iter(old(self).max_iter as int, delta as int),
            final(self).width == old(self).width,
            final(self).height == old(self).height,
            final(self).zoom == old(self).zoom,
            final(self).center_x == old(self).center_x,
            final(self).center_y == old(self).center_y,
            final(self).squares == old(self).squares,
            final(self).finished_frame == old(self).finished_frame,
    {
        let v: i64 = self.max_iter as i64 + delta as i64;
        self.max_iter = if v < MIN_ITER as i64 {
            MIN_ITER
        } else if v > u32::MAX as i64 {
            u32::MAX
        } else {
            v as u32
        };
    }

    /// Restores the default center, zoom and iteration budget, keeps the
    /// size, and empties the cache.
    pub fn reset(&mut self)
        ensures
            final(self).wf(),
            final(self).width == old(self).width,
            final(self).height == old(self).height,
            final(self).max_iter == DEFAULT_MAX_ITER,
            final(self).center_x == DEFAULT_CENTER_X,
            final(self).center_y == DEFAULT_CENTER_Y,
            final(self).zoom == DEFAULT_ZOOM,
            final(self).squares@ == Map::<Square, Seq<Rgba>>::empty(),
            !final(self).finished_frame,
    {
        *self = Mandelbrot::new(
            self.width,
            self.height,
            DEFAULT_MAX_ITER,
            DEFAULT_CENTER_X,
            DEFAULT_CENTER_Y,
            DEFAULT_ZOOM,
        );
    }
}

impl Mandelbrot {
    /// Left edge of the view, in fractal-plane pixels.
    pub open spec fn top_x(&self) -> int {
        self.center_x - self.width as int / 2
    }

    /// Top edge of the view, in fractal-plane pixels.
    pub open spec fn top_y(&self) -> int {
        self.center_y - self.height as int / 2
    }

    /// First tile column: the left edge brought onto the tile grid, one
    /// tile further left.
    pub open spec fn start_x(&self) -> int {
        self.top_x() - rem_toward_zero(self.top_x(), TILE_SIZE as int) - TILE_SIZE
    }

    /// First tile row: the top edge brought onto the tile grid, one tile
    /// further up.
    pub open spec fn start_y(&self) -> int {
        self.top_y() - rem_toward_zero(self.top_y(), TILE_SIZE as int) - TILE_SIZE
    }

    /// The tiles that cover the view: the current zoom and budget, the
    /// standard size, and origins on the grid through `(start_x, start_y)`
    /// from there up to the right and bottom edges.
    pub open spec fn is_required(&self, k: Square) -> bool {
        &&& k.zoom == self.zoom
        &&& k.size == TILE_SIZE
        &&& k.max_iter == self.max_iter
        &&& self.start_x() <= k.x < self.top_x() + self.width
        &&& (k.x - self.start_x()) % (TILE_SIZE as int) == 0
        &&& self.start_y() <= k.y < self.top_y() + self.height
        &&& (k.y - self.start_y()) % (TILE_SIZE as int) == 0
    }

    /// Required tiles not in the cache.
    pub open spec fn missing(&self) -> Set<Square> {
        Set::new(|k: Square| self.is_required(k) && !self.squares@.contains_key(k))
    }

    /// Every required tile is in the cache.
    pub open spec fn complete(&self) -> bool {
        forall|k: Square| self.is_required(k) ==> #[trigger] self.squares@.contains_key(k)
    }

    /// The tiles that cover the view, each once, column by column.
    pub fn required_keys(&self) -> (r: Vec<Square>)
        requires
            self.wf(),
        ensures
            r@.no_duplicates(),
            forall|k: Square| #[trigger] r@.contains(k) <==> self.is_required(k),
    {
        let ts: i64 = TILE_SIZE as i64;
        let top_x: i64 = self.center_x - (self.width / 2) as i64;
        let top_y: i64 = self.center_y - (self.height / 2) as i64;
        let rem_x: i64 = if top_x >= 0 {
            (top_x as u64 % 48) as i64
        } else {
            -(((-top_x) as u64 % 48) as i64)
        };
        let rem_y: i64 = if top_y >= 0 {
            (top_y as u64 % 48) as i64
        } else {
            -(((-top_y) as u64 % 48) as i64)
        };
        let start_x: i64 = top_x - rem_x - ts;
        let start_y: i64 = top_y - rem_y - ts;
        let end_x: i64 = top_x + self.width as i64;
        let end_y: i64 = top_y + self.height as i64;
        assert(start_x == self.start_x() && start_y == self.start_y());
        assert((start_x - start_x) % 48 == 0 && (start_y - start_y) % 48 == 0);
        let mut r: Vec<Square> = Vec::new();
        let mut x: i64 = start_x;
        while x < end_x
            invariant
                self.wf(),
                ts == 48,
                start_x == self.start_x(),
                start_y == self.start_y(),
                end_x == self.top_x() + self.width,
                end_y == self.top_y() + self.height,
                start_x <= x < end_x + 48,
                start_y < end_y,
                (x - start_x) % 48 == 0,
                r@.no_duplicates(),
                forall|k: Square| #[trigger]
                    r@.contains(k) <==> (self.is_required(k) && k.x < x),
            decreases end_x + 48 - x,
        {
            let mut y: i64 = start_y;
            assert((y - start_y) % 48 == 0);
            while y < end_y
                invariant
                    self.wf(),
                    ts == 48,
                    start_x == self.start_x(),
                    start_y == self.start_y(),
                    end_x == self.top_x() + self.width,
                    end_y == self.top_y() + self.height,
                    start_x <= x < end_x,
                    start_y <= y < end_y + 48,
                    (x - start_x) % 48 == 0,
                    (y - start_y) % 48 == 0,
                    r@.no_duplicates(),
                    forall|k: Square| #[trigger]
                        r@.contains(k) <==> (self.is_required(k) && (k.x < x || (k.x == x
                            && k.y < y))),
                decreases end_y + 48 - y,
            {
                let sq = Square::new(x, y, self.zoom, TILE_SIZE, self.max_iter);
                proof {
                    lemma_push_no_dup(r@, sq);
                    assert forall|k: Square| #[trigger]
                        r@.push(sq).contains(k) <==> (self.is_required(k) && (k.x < x || (k.x
                            == x && k.y < y + 48))) by {
                        lemma_seq_contains_after_push(r@, sq, k);
                        if self.is_required(k) && k.x == x && k.y < y + 48 && k.y >= y {
                            lemma_aligned_le(k.y as int, y as int, start_y as int);
                        }
                    }
                    lemma_mod_add_multiples_vanish(y - start_y, 48);
                }
                r.push(sq);
                y = y + ts;
            }
            proof {
                assert forall|k: Square| #[trigger]
                    r@.contains(k) <==> (self.is_required(k) && k.x < x + 48) by {
                    if self.is_required(k) && k.x < x + 48 {
                        lemma_aligned_le(k.x as int, x as int, start_x as int);
                    }
                }
                lemma_mod_add_multiples_vanish(x - start_x, 48);
            }
            x = x + ts;
        }
        r
    }

    /// The required tiles not yet cached, each once.
    pub fn missing_keys(&self) -> (r: Vec<Square>)
        requires
            self.wf(),
        ensures
            r@.no_duplicates(),
            forall|k: Square| #[trigger] r@.contains(k) <==> self.missing().contains(k),
    {
        let req = self.required_keys();
        let mut r: Vec<Square> = Vec::new();
        let mut i: usize = 0;
        while i < req.len()
            invariant
                self.wf(),
                i <= req@.len(),
                req@.no_duplicates(),
                forall|k: Square| #[trigger] req@.contains(k) <==> self.is_required(k),
                r@.no_duplicates(),
                forall|k: Square| #[trigger]
                    r@.contains(k) <==> (exists|t: int|
                        0 <= t < i && req@[t] == k && !self.squares@.contains_key(k)),
            decreases req@.len() - i,
        {
            let k = req[i];
            if !self.squares.contains_key(&k) {
                proof {
                    lemma_push_no_dup(r@, k);
                    assert forall|k2: Square| #[trigger]
                        r@.push(k).contains(k2) <==> (exists|t: int|
                            0 <= t < i + 1 && req@[t] == k2 && !self.squares@.contains_key(k2)) by {
                        lemma_seq_contains_after_push(r@, k, k2);
                        if k2 == k {
                            assert(req@[i as int] == k2);
                        }
                        if exists|t: int|
                            0 <= t < i + 1 && req@[t] == k2 && !self.squares@.contains_key(k2) {
                            let t = choose|t: int|
                                0 <= t < i + 1 && req@[t] == k2 && !self.squares@.contains_key(k2);
                            if t < i {
                                assert(r@.contains(k2));
                            }
                        }
                    }
                }
                r.push(k);
            } else {
                proof {
                    assert forall|k2: Square| #[trigger]
                        r@.contains(k2) <==> (exists|t: int|
                            0 <= t < i + 1 && req@[t] == k2 && !self.squares@.contains_key(k2)) by {
                        if exists|t: int|
                            0 <= t < i + 1 && req@[t] == k2 && !self.squares@.contains_key(k2) {
                            let t = choose|t: int|
                                0 <= t < i + 1 && req@[t] == k2 && !self.squares@.contains_key(k2);
                            if t == i {
                                assert(false);
                            }
                        }
                    }
                }
            }
            i = i + 1;
        }
        proof {
            assert forall|k: Square| #[trigger] r@.contains(k) <==> self.missing().contains(k) by {
                if self.missing().contains(k) {
                    assert(req@.contains(k));
                    let t = choose|t: int| 0 <= t < req@.len() && req@[t] == k;
                    assert(0 <= t < i && req@[t] == k && !self.squares@.contains_key(k));
                }
                if r@.contains(k) {
                    let t = choose|t: int|
                        0 <= t < i && req@[t] == k && !self.squares@.contains_key(k);
                    assert(req@.contains(k));
                }
            }
        }
        r
    }

    /// One scheduling step with a budget of `budget` tiles.
    ///
    /// Computes the required tiles missing from the cache, shuffles them with
    /// `rng`, renders the first `min(budget, missing)` of them in parallel
    /// (each from its own probes drawn from `rng`, see
    /// `Square::calculate_square`), and merges the results into the cache
    /// after all are done. The completion flag then tells whether
    /// every required tile is cached; when it is, tiles of another zoom or
    /// iteration budget, kept until then as filler, are pruned.
    pub fn step<F: Fn(i128, i128, u64, u32) -> u32 + Sync>(
        &mut self,
        budget: usize,
        rng: &mut rand::rngs::StdRng,
        eval: &F,
        palette: &Vec<Rgba>,
    )
        requires
            old(self).wf(),
            eval_ok(*eval),
            palette@.len() == PALETTE_SIZE,
        ensures
            step_done(*old(self), *final(self), budget as nat, *eval, palette@),
    {
        let ghost pre = *self;
        let mut missing = self.missing_keys();
        let ghost listed = missing@;
        shuffle_keys(&mut missing, rng);
        proof {
            listed.lemma_multiset_has_no_duplicates();
            listed.to_multiset_ensures();
            missing@.to_multiset_ensures();
            missing@.lemma_multiset_has_no_duplicates_conv();
            assert forall|k: Square| #[trigger]
                missing@.contains(k) <==> pre.missing().contains(k) by {
                assert(missing@.to_multiset().count(k) == listed.to_multiset().count(k));
                assert(missing@.contains(k) <==> listed.contains(k));
            }
        }
        let b: usize = if budget < missing.len() {
            budget
        } else {
            missing.len()
        };
        let mut keys: Vec<Square> = Vec::new();
        let mut jobs: Vec<(Square, Vec<(u32, u32)>)> = Vec::new();
        let mut i: usize = 0;
        while i < b
            invariant
                b <= missing@.len(),
                i <= b,
                keys@.len() == i,
                jobs@.len() == i,
                forall|t: int| 0 <= t < i ==> keys@[t] == missing@[t],
                forall|t: int|
                    0 <= t < i ==> {
                        &&& (#[trigger] jobs@[t]).0 == missing@[t]
                        &&& jobs@[t].1@.len() == missing@[t].probe_count()
                        &&& probes_in_tile(jobs@[t].0, jobs@[t].1@)
                    },
                forall|k: Square| #[trigger] missing@.contains(k) ==> pre.is_required(k),
            decreases b - i,
        {
            let k = missing[i];
            assert(missing@.contains(k));
            let p = k.draw_probes(rng);
            keys.push(k);
            jobs.push((k, p));
            i = i + 1;
        }
        let ghost jobs0 = jobs@;
        proof {
            assert forall|t: int| 0 <= t < jobs@.len() implies probes_in_tile(
                jobs@[t].0,
                jobs@[t].1@,
            ) && jobs@[t].0.area() <= usize::MAX by {
                assert(missing@.contains(missing@[t]));
            }
        }
        let mut imgs = render_all(jobs, eval, palette);
        let ghost imgs0 = imgs@;
        let ghost sq0 = self.squares@;
        while imgs.len() > 0
            invariant
                self.wf(),
                self.same_view(pre),
                self.finished_frame == pre.finished_frame,
                sq0 == pre.squares@,
                b <= missing@.len(),
                keys@.len() == b,
                jobs0.len() == b,
                imgs0.len() == b,
                imgs@.len() <= b,
                imgs@ == imgs0.subrange(0, imgs@.len() as int),
                missing@.no_duplicates(),
                forall|t: int| 0 <= t < b ==> keys@[t] == missing@[t],
                forall|t: int| 0 <= t < b ==> (#[trigger] jobs0[t]).0 == missing@[t],
                forall|k: Square| #[trigger] missing@.contains(k) <==> pre.missing().contains(k),
                forall|k: Square| #[trigger]
                    self.squares@.contains_key(k) <==> (sq0.contains_key(k) || exists|t: int|
                        imgs@.len() <= t < b && keys@[t] == k),
                forall|t: int|
                    imgs@.len() <= t < b ==> self.squares@[#[trigger] keys@[t]] == imgs0[t]@,
                forall|k: Square| #[trigger]
                    sq0.contains_key(k) ==> self.squares@[k] == sq0[k],
            decreases imgs@.len(),
        {
            let img = imgs.pop().unwrap();
            let t: usize = imgs.len();
            let k = keys[t];
            let ghost before = self.squares@;
            proof {
                assert(missing@.contains(missing@[t as int]));
                assert(!sq0.contains_key(k));
            }
            self.squares.insert(k, img);
            proof {
                assert forall|k2: Square| #[trigger]
                    self.squares@.contains_key(k2) <==> (sq0.contains_key(k2) || exists|t2: int|
                        imgs@.len() <= t2 < b && keys@[t2] == k2) by {
                    if k2 == k {
                        assert(keys@[t as int] == k2);
                    }
                }
                assert forall|t2: int| imgs@.len() <= t2 < b implies self.squares@[
                    #[trigger] keys@[t2]] == imgs0[t2]@ by {
                    if t2 != t {
                        assert(missing@[t2] != missing@[t as int]);
                    }
                }
            }
        }
        let finished: bool = b == missing.len();
        let ghost sq1 = self.squares@;
        if finished {
            self.squares.retain_level(self.zoom, self.max_iter);
        }
        self.finished_frame = finished;
        proof {
            let m_set = pre.missing();
            let b_set = keys@.to_set();
            assert(missing@.to_set() =~= m_set);
            missing@.unique_seq_to_set();
            assert(keys@ =~= missing@.subrange(0, b as int));
            assert(keys@.no_duplicates()) by {
                assert forall|x: int, y: int|
                    0 <= x < keys@.len() && 0 <= y < keys@.len() && x != y implies keys@[x]
                    != keys@[y] by {
                    assert(keys@[x] == missing@[x] && keys@[y] == missing@[y]);
                }
            }
            keys@.unique_seq_to_set();
            assert forall|k: Square| #[trigger] self.squares@.contains_key(k) && pre.is_required(
                k,
            ) <==> pre.is_required(k) && (sq0.contains_key(k) || b_set.contains(k)) by {
                if pre.is_required(k) && (sq0.contains_key(k) || b_set.contains(k)) {
                    if b_set.contains(k) {
                        let t = choose|t: int| 0 <= t < keys@.len() && keys@[t] == k;
                        assert(sq1.contains_key(k));
                    }
                }
                if self.squares@.contains_key(k) && !sq0.contains_key(k) {
                    assert(sq1.contains_key(k));
                    let t = choose|t: int| 0 <= t < b && keys@[t] == k;
                    assert(b_set.contains(k));
                }
            }
            assert(b_set.subset_of(m_set)) by {
                assert forall|k: Square| b_set.contains(k) implies m_set.contains(k) by {
                    let t = choose|t: int| 0 <= t < keys@.len() && keys@[t] == k;
                    assert(missing@.contains(missing@[t]));
                }
            }
            assert(self.missing() =~= m_set.difference(b_set));
            assert(m_set.difference(b_set).union(b_set) =~= m_set);
            lemma_set_disjoint_lens(m_set.difference(b_set), b_set);
            if finished {
                self.missing().lemma_len0_is_empty();
                assert forall|k: Square| pre.is_required(k) implies #[trigger]
                    self.squares@.contains_key(k) by {
                    assert(!self.missing().contains(k));
                }
            } else {
                if self.complete() {
                    assert(self.missing() =~= Set::<Square>::empty());
                }
            }
            assert forall|k: Square|
                #[trigger] self.squares@.contains_key(k) && !pre.squares@.contains_key(k) implies {
                &&& pre.missing().contains(k)
                &&& exists|p: Seq<(u32, u32)>|
                    p.len() == k.probe_count() && probes_in_tile(k, p) && self.squares@[k]
                        == tile_image(*eval, k, palette@, p)
            } by {
                assert(sq1.contains_key(k));
                let t = choose|t: int| 0 <= t < b && keys@[t] == k;
                assert(missing@.contains(missing@[t]));
                assert(sq1[keys@[t]] == imgs0[t]@);
                let p = jobs0[t].1@;
                assert(p.len() == k.probe_count() && probes_in_tile(k, p));
            }
        }
    }

    /// One scheduling step (see `step`) with a budget of `TILES_PER_WORKER`
    /// tiles for each thread of rayon's worker pool, and at least one tile.
    pub fn calculate_mandelbrot<F: Fn(i128, i128, u64, u32) -> u32 + Sync>(
        &mut self,
        rng: &mut rand::rngs::StdRng,
        eval: &F,
        palette: &Vec<Rgba>,
    )
        requires
            old(self).wf(),
            eval_ok(*eval),
            palette@.len() == PALETTE_SIZE,
        ensures
            stepped(*old(self), *final(self), *eval, palette@),
    {
        let ghost pre = *self;
        let workers: usize = worker_count();
        let w: usize = if workers == 0 {
            1
        } else {
            workers
        };
        let budget: usize = if w > usize::MAX / TILES_PER_WORKER {
            usize::MAX
        } else {
            w * TILES_PER_WORKER
        };
        self.step(budget, rng, eval, palette);
        assert(step_done(pre, *self, budget as nat, *eval, palette@));
    }
}

} // verus!
