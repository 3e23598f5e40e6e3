//! Tile keys and the rendering of one square tile.
use vstd::prelude::*;
use vstd::arithmetic::div_mod::lemma_fundamental_div_mod_converse;
use crate::palette::{Rgba, color_for, color_of, interior, interior_color, PALETTE_SIZE};

verus! {

#[verifier::external_type_specification]
#[verifier::external_body]
pub struct ExStdRng(rand::rngs::StdRng);

/// Relies on `rand::Rng::gen_range` over `0..bound`: the value drawn lies in
/// that range; the call panics on an empty range.
#[verifier::external_body]
fn draw_below(rng: &mut rand::rngs::StdRng, bound: u32) -> (r: u32)
    requires
        bound > 0,
    ensures
        r < bound,
{
    rand::Rng::gen_range(rng, 0..bound)
}

/// Key of one square tile: its top-left origin in fractal-plane pixel units
/// (the plane point is the coordinate divided by `zoom`), the zoom, the side
/// length in pixels and the iteration budget.
#[derive(Clone, Copy, Debug, PartialEq, Eq, Hash, Structural)]
pub struct Square {
    pub x: i64,
    pub y: i64,
    pub zoom: u64,
    pub size: u32,
    pub max_iter: u32,
}

/// Arguments handed to a point evaluator: the point's coordinates in
/// fractal-plane pixel units, the zoom that divides them, and the budget.
pub type EvalArgs = (i128, i128, u64, u32);

/// The evaluator accepts every argument tuple.
pub open spec fn eval_total<F: Fn(i128, i128, u64, u32) -> u32>(eval: F) -> bool {
    forall|a: EvalArgs| #[trigger] eval.requires(a)
}

/// The evaluator gives one answer for each argument tuple.
pub open spec fn eval_pure<F: Fn(i128, i128, u64, u32) -> u32>(eval: F) -> bool {
    forall|a: EvalArgs, v: u32, w: u32|
        #[trigger] eval.ensures(a, v) && #[trigger] eval.ensures(a, w) ==> v == w
}

/// An evaluator that may stand in for the escape-iteration test.
pub open spec fn eval_ok<F: Fn(i128, i128, u64, u32) -> u32>(eval: F) -> bool {
    eval_total(eval) && eval_pure(eval)
}

/// Escape count that the evaluator gives for pixel `(px, py)` of a tile.
pub open spec fn escape_at<F: Fn(i128, i128, u64, u32) -> u32>(
    eval: F,
    key: Square,
    px: int,
    py: int,
) -> u32 {
    choose|v: u32| eval.ensures(key.eval_args(px, py), v)
}

/// Color of pixel number `i` (row-major) of a fully computed tile.
pub open spec fn pixel_color<F: Fn(i128, i128, u64, u32) -> u32>(
    eval: F,
    key: Square,
    palette: Seq<Rgba>,
    i: int,
) -> Rgba {
    color_of(escape_at(eval, key, i % key.size as int, i / key.size as int), palette)
}

/// The tile with every pixel computed.
pub open spec fn full_image<F: Fn(i128, i128, u64, u32) -> u32>(
    eval: F,
    key: Square,
    palette: Seq<Rgba>,
) -> Seq<Rgba> {
    Seq::new(key.area(), |i: int| pixel_color(eval, key, palette, i))
}

/// A tile of `n` pixels, all of the interior color.
pub open spec fn uniform_interior(n: nat) -> Seq<Rgba> {
    Seq::new(n, |i: int| interior_color())
}

/// Every probe lands on a point presumed to be in the set (true of an
/// empty sample).
pub open spec fn probes_interior<F: Fn(i128, i128, u64, u32) -> u32>(
    eval: F,
    key: Square,
    probes: Seq<(u32, u32)>,
) -> bool {
    forall|j: int|
        0 <= j < probes.len() ==> escape_at(eval, key, probes[j].0 as int, probes[j].1 as int)
            == 0
}

/// Every probe lies inside the tile.
pub open spec fn probes_in_tile(key: Square, probes: Seq<(u32, u32)>) -> bool {
    forall|j: int| 0 <= j < probes.len() ==> probes[j].0 < key.size && probes[j].1 < key.size
}

/// The image that progressive rendering gives for the given probes: uniform
/// interior where every probe is interior, else the fully computed tile.
pub open spec fn tile_image<F: Fn(i128, i128, u64, u32) -> u32>(
    eval: F,
    key: Square,
    palette: Seq<Rgba>,
    probes: Seq<(u32, u32)>,
) -> Seq<Rgba> {
    if probes_interior(eval, key, probes) {
        uniform_interior(key.area())
    } else {
        full_image(eval, key, palette)
    }
}

/// What the evaluator returned for some arguments is what `escape_at` names.
proof fn lemma_escape_at<F: Fn(i128, i128, u64, u32) -> u32>(
    eval: F,
    key: Square,
    px: int,
    py: int,
    v: u32,
)
    requires
        eval_pure(eval),
        eval.ensures(key.eval_args(px, py), v),
    ensures
        escape_at(eval, key, px, py) == v,
{
}

impl Square {
    /// The key with the given origin, zoom, side length and budget.
    pub fn new(x: i64, y: i64, zoom: u64, size: u32, max_iter: u32) -> (r: Self)
        ensures
            r == (Square { x, y, zoom, size, max_iter }),
    {
        Square { x, y, zoom, size, max_iter }
    }

    /// Number of pixels in the tile.
    pub open spec fn area(self) -> nat {
        self.size as nat * self.size as nat
    }

    /// Evaluator arguments for pixel `(px, py)` of the tile.
    pub open spec fn eval_args(self, px: int, py: int) -> EvalArgs {
        ((self.x + px) as i128, (self.y + py) as i128, self.zoom, self.max_iter)
    }

    /// Number of probes drawn for a tile: a twelfth of its area.
    pub open spec fn probe_count(self) -> nat {
        self.area() / 12
    }

    /// Draws the probe positions for progressive rendering: a twelfth of the
    /// tile's area (none for tiles under 4 by 4), each coordinate uniform in
    /// `0..size`. Repeated positions are evaluated once by `render_probed`.
    pub fn draw_probes(&self, rng: &mut rand::rngs::StdRng) -> (r: Vec<(u32, u32)>)
        ensures
            r@.len() == self.probe_count(),
            probes_in_tile(*self, r@),
    {
        assert(self.size as nat * self.size as nat <= u64::MAX) by (nonlinear_arith)
            requires
                self.size <= u32::MAX,
        ;
        let n: u64 = self.size as u64 * self.size as u64 / 12;
        let mut probes: Vec<(u32, u32)> = Vec::new();
        let mut i: u64 = 0;
        while i < n
            invariant
                n == self.probe_count(),
                i <= n,
                probes@.len() == i,
                probes_in_tile(*self, probes@),
            decreases n - i,
        {
            assert(self.size > 0) by (nonlinear_arith)
                requires
                    i < n,
                    n == self.size as nat * self.size as nat / 12,
            ;
            let px = draw_below(rng, self.size);
            let py = draw_below(rng, self.size);
            probes.push((px, py));
            i = i + 1;
        }
        probes
    }

    /// Renders the tile progressively from the given probe positions.
    ///
    /// Each probe is evaluated (a position once); as soon as one escapes the
    /// probing stops. If all probes are interior (as an empty sample
    /// trivially is; `draw_probes` draws none for tiles under 4 by 4), the
    /// tile is returned uniformly interior-colored without evaluating any
    /// other pixel. Otherwise every pixel not yet evaluated is computed. The
    /// shortcut can misclassify a mixed tile whose escaping pixels no probe
    /// hits: with `n` independent probes and a fraction `f` of escaping
    /// pixels that happens with probability `(1 - f)^n` (about 5e-5 for
    /// `f = 0.05` and the 192 probes of a 48-pixel tile). The number of
    /// probes trades speed for that risk; it is not a guarantee. The image is
    /// row-major, pixel `(px, py)` at index `px + py * size`.
    pub fn render_probed<F: Fn(i128, i128, u64, u32) -> u32>(
        &self,
        probes: &Vec<(u32, u32)>,
        eval: &F,
        palette: &Vec<Rgba>,
    ) -> (r: Vec<Rgba>)
        requires
            eval_ok(*eval),
            palette@.len() == PALETTE_SIZE,
            probes_in_tile(*self, probes@),
            self.area() <= usize::MAX,
        ensures
            r@ == tile_image(*eval, *self, palette@, probes@),
    {
        let size: usize = self.size as usize;
        assert(size * size == self.area());
        let n: usize = size * size;
        let mut img: Vec<Rgba> = Vec::new();
        let mut done: Vec<bool> = Vec::new();
        let mut k: usize = 0;
        while k < n
            invariant
                k <= n,
                img@.len() == k,
                done@.len() == k,
                forall|t: int| 0 <= t < k ==> !done@[t],
            decreases n - k,
        {
            img.push(interior());
            done.push(false);
            k = k + 1;
        }
        let mut all_interior: bool = true;
        let mut j: usize = 0;
        while j < probes.len() && all_interior
            invariant
                eval_ok(*eval),
                palette@.len() == PALETTE_SIZE,
                probes_in_tile(*self, probes@),
                size == self.size,
                n == self.area(),
                img@.len() == n,
                done@.len() == n,
                j <= probes@.len(),
                all_interior ==> forall|t: int|
                    0 <= t < j ==> escape_at(
                        *eval,
                        *self,
                        probes@[t].0 as int,
                        probes@[t].1 as int,
                    ) == 0,
                all_interior ==> forall|t: int|
                    0 <= t < n && #[trigger] done@[t] ==> escape_at(
                        *eval,
                        *self,
                        t % size as int,
                        t / size as int,
                    ) == 0,
                !all_interior ==> !probes_interior(*eval, *self, probes@),
                forall|t: int|
                    0 <= t < n && #[trigger] done@[t] ==> img@[t] == pixel_color(
                        *eval,
                        *self,
                        palette@,
                        t,
                    ),
            decreases probes@.len() - j,
        {
            let (px, py) = probes[j];
            assert(px + py * size < n && py * size < n) by (nonlinear_arith)
                requires
                    px < size,
                    py < size,
                    n == size * size,
            ;
            let idx: usize = px as usize + py as usize * size;
            proof {
                lemma_fundamental_div_mod_converse(idx as int, size as int, py as int, px as int);
            }
            if !done[idx] {
                let v = eval(
                    self.x as i128 + px as i128,
                    self.y as i128 + py as i128,
                    self.zoom,
                    self.max_iter,
                );
                proof {
                    lemma_escape_at(*eval, *self, px as int, py as int, v);
                }
                img.set(idx, color_for(v, palette));
                done.set(idx, true);
                if v != 0 {
                    all_interior = false;
                }
            }
            j = j + 1;
        }
        if all_interior {
            let mut out: Vec<Rgba> = Vec::new();
            let mut k: usize = 0;
            while k < n
                invariant
                    k <= n,
                    out@ == uniform_interior(k as nat),
                decreases n - k,
            {
                out.push(interior());
                k = k + 1;
                assert(out@ =~= uniform_interior(k as nat));
            }
            return out;
        }
        let mut i: usize = 0;
        while i < n
            invariant
                eval_ok(*eval),
                palette@.len() == PALETTE_SIZE,
                size == self.size,
                n == self.area(),
                i <= n,
                img@.len() == n,
                done@.len() == n,
                forall|t: int|
                    0 <= t < n && #[trigger] done@[t] ==> img@[t] == pixel_color(
                        *eval,
                        *self,
                        palette@,
                        t,
                    ),
                forall|t: int| 0 <= t < i ==> #[trigger] img@[t] == pixel_color(
                    *eval,
                    *self,
                    palette@,
                    t,
                ),
            decreases n - i,
        {
            if !done[i] {
                assert(size > 0) by (nonlinear_arith)
                    requires
                        i < n,
                        n == size * size,
                ;
                let px: usize = i % size;
                let py: usize = i / size;
                assert(py < size) by (nonlinear_arith)
                    requires
                        i < n,
                        n == size * size,
                        py == i / size,
                        size > 0,
                ;
                let v = eval(
                    self.x as i128 + px as i128,
                    self.y as i128 + py as i128,
                    self.zoom,
                    self.max_iter,
                );
                proof {
                    lemma_escape_at(*eval, *self, px as int, py as int, v);
                }
                img.set(i, color_for(v, palette));
            }
            i = i + 1;
        }
        assert(img@ =~= full_image(*eval, *self, palette@));
        img
    }

    /// Renders the tile progressively with probe positions drawn from `rng`
    /// (see `draw_probes` and `render_probed`).
    pub fn calculate_square<F: Fn(i128, i128, u64, u32) -> u32>(
        &self,
        rng: &mut rand::rngs::StdRng,
        eval: &F,
        palette: &Vec<Rgba>,
    ) -> (r: Vec<Rgba>)
        requires
            eval_ok(*eval),
            palette@.len() == PALETTE_SIZE,
            self.area() <= usize::MAX,
        ensures
            exists|probes: Seq<(u32, u32)>|
                probes.len() == self.probe_count() && probes_in_tile(*self, probes) && r@
                    == tile_image(*eval, *self, palette@, probes),
    {
        let probes = self.draw_probes(rng);
        self.render_probed(&probes, eval, palette)
    }
}

} // verus!
