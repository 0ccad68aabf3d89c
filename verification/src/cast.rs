//! The ray caster: one grid of claimed pixels, shared by all the rays of a
//! run. A ray claims the pixels of its segment up to the first pixel that an
//! earlier ray has claimed.

use vstd::prelude::*;
use crate::config::RaycastConfig;
use crate::pixel_math::line::{
    iter_pixels_in_line,
    lemma_segment_follows_dominant_axis,
    lemma_segment_no_duplicates,
    pixels_on_segment,
};
use crate::pixel_math::vector::{Coord, Point};

verus! {

/// How many pixels at the head of `line` are free, that is, not in
/// `claimed`.
pub open spec fn free_prefix_len(claimed: Set<Coord>, line: Seq<Coord>) -> nat
    decreases line.len(),
{
    if line.len() == 0 || claimed.contains(line.first()) {
        0
    } else {
        1 + free_prefix_len(claimed, line.drop_first())
    }
}

/// The run that a ray along `line` claims on a grid where `claimed` is
/// taken: the pixels of `line` before the first that is taken.
pub open spec fn claimed_run(claimed: Set<Coord>, line: Seq<Coord>) -> Seq<Coord> {
    line.take(free_prefix_len(claimed, line) as int)
}

/// What is taken on the grid after a ray along `line` has been cast.
pub open spec fn claimed_after(claimed: Set<Coord>, line: Seq<Coord>) -> Set<Coord> {
    claimed.union(claimed_run(claimed, line).to_set())
}

/// The square of the distance between the first and the last pixel of
/// `run`; 0 for an empty run.
pub open spec fn squared_span(run: Seq<Coord>) -> int {
    if run.len() == 0 {
        0
    } else {
        let d = run.first().minus(run.last());
        d.x * d.x + d.y * d.y
    }
}

/// The length of the free prefix is the one `k` such that the first `k`
/// pixels of the line are free and the pixel after them, if there is one, is
/// taken.
pub proof fn lemma_free_prefix_len(claimed: Set<Coord>, line: Seq<Coord>, k: int)
    ensures
        k == free_prefix_len(claimed, line) <==> {
            &&& 0 <= k <= line.len()
            &&& forall|i: int| 0 <= i < k ==> !claimed.contains(#[trigger] line[i])
            &&& k < line.len() ==> claimed.contains(line[k])
        },
    decreases line.len(),
{
    if line.len() == 0 || claimed.contains(line.first()) {
    } else {
        let rest = line.drop_first();
        lemma_free_prefix_len(claimed, rest, k - 1);
        if k == free_prefix_len(claimed, line) {
            assert forall|i: int| 0 <= i < k implies !claimed.contains(#[trigger] line[i]) by {
                if i > 0 {
                    assert(line[i] == rest[i - 1]);
                }
            }
            assert(k < line.len() ==> line[k] == rest[k - 1]);
        }
        if {
            &&& 0 <= k <= line.len()
            &&& forall|i: int| 0 <= i < k ==> !claimed.contains(#[trigger] line[i])
            &&& k < line.len() ==> claimed.contains(line[k])
        } {
            assert(k >= 1) by {
                if k == 0 {
                    assert(claimed.contains(line[0]));
                }
            }
            assert forall|i: int| 0 <= i < k - 1 implies !claimed.contains(#[trigger] rest[i]) by {
                assert(rest[i] == line[i + 1]);
            }
            assert(k - 1 < rest.len() ==> rest[k - 1] == line[k]);
        }
    }
}

/// The runs that the rays `rays`, each a pair of an origin and a target,
/// claim when they are cast in order on a grid where `claimed` is taken at
/// the start.
pub open spec fn runs_of_casts(claimed: Set<Coord>, rays: Seq<(Coord, Coord)>) -> Seq<Seq<Coord>>
    decreases rays.len(),
{
    if rays.len() == 0 {
        Seq::empty()
    } else {
        let line = pixels_on_segment(rays.first().0, rays.first().1);
        seq![claimed_run(claimed, line)] + runs_of_casts(
            claimed_after(claimed, line),
            rays.drop_first(),
        )
    }
}

/// Every ray of a sequence of casts claims a prefix of its segment, and no
/// pixel that was taken before the first cast.
pub proof fn lemma_runs_are_free_prefixes(
    claimed: Set<Coord>,
    rays: Seq<(Coord, Coord)>,
    j: int,
)
    requires
        0 <= j < rays.len(),
    ensures
        runs_of_casts(claimed, rays).len() == rays.len(),
        runs_of_casts(claimed, rays)[j].is_prefix_of(pixels_on_segment(rays[j].0, rays[j].1)),
        runs_of_casts(claimed, rays)[j].no_duplicates(),
        forall|b: int|
            0 <= b < runs_of_casts(claimed, rays)[j].len() ==> !claimed.contains(
                #[trigger] runs_of_casts(claimed, rays)[j][b],
            ),
    decreases rays.len(),
{
    let line = pixels_on_segment(rays.first().0, rays.first().1);
    let rest = rays.drop_first();
    let after = claimed_after(claimed, line);
    lemma_runs_len(claimed, rays);
    lemma_runs_len(after, rest);
    if j == 0 {
        lemma_free_prefix_len(claimed, line, free_prefix_len(claimed, line) as int);
        lemma_segment_no_duplicates(rays[0].0, rays[0].1);
    } else {
        lemma_runs_are_free_prefixes(after, rest, j - 1);
        assert(rest[j - 1] == rays[j]);
    }
}

proof fn lemma_runs_len(claimed: Set<Coord>, rays: Seq<(Coord, Coord)>)
    ensures
        runs_of_casts(claimed, rays).len() == rays.len(),
    decreases rays.len(),
{
    if rays.len() > 0 {
        let line = pixels_on_segment(rays.first().0, rays.first().1);
        lemma_runs_len(claimed_after(claimed, line), rays.drop_first());
    }
}

/// The runs of different rays of a sequence of casts have no pixel in
/// common.
pub proof fn lemma_runs_are_disjoint(
    claimed: Set<Coord>,
    rays: Seq<(Coord, Coord)>,
    i: int,
    j: int,
    a: int,
    b: int,
)
    requires
        0 <= i < j < rays.len(),
        0 <= a < runs_of_casts(claimed, rays)[i].len(),
        0 <= b < runs_of_casts(claimed, rays)[j].len(),
    ensures
        runs_of_casts(claimed, rays)[i][a] != runs_of_casts(claimed, rays)[j][b],
    decreases rays.len(),
{
    let line = pixels_on_segment(rays.first().0, rays.first().1);
    let rest = rays.drop_first();
    let after = claimed_after(claimed, line);
    lemma_runs_len(after, rest);
    if i == 0 {
        let run = claimed_run(claimed, line);
        assert(run.to_set().contains(run[a]));
        lemma_runs_are_free_prefixes(after, rest, j - 1);
    } else {
        lemma_runs_are_disjoint(after, rest, i - 1, j - 1, a, b);
    }
}

/// What one cast reports.
pub struct CastResults {
    /// The pixels that the ray claimed, in the order of the ray.
    pub out_pixels: Vec<Point>,
    /// The number of pixels that the ray claimed.
    pub pixel_count: usize,
    /// The square of the distance between the first and the last pixel that
    /// the ray claimed; 0 if it claimed none.
    pub cast_distance_squared: u64,
}

impl CastResults {
    /// The report of a ray that claimed nothing.
    pub fn new() -> (result: CastResults)
        ensures
            result.out_pixels@.len() == 0,
            result.pixel_count == 0,
            result.cast_distance_squared == 0,
    {
        CastResults { out_pixels: Vec::new(), pixel_count: 0, cast_distance_squared: 0 }
    }
}

/// The row-major index of the pixel `q` on a canvas `dim` pixels wide.
spec fn cell_index(dim: int, q: Coord) -> int {
    q.y * dim + q.x
}

proof fn lemma_cell_index(dim: int, p: Coord, q: Coord)
    requires
        0 <= p.x < dim,
        0 <= p.y < dim,
        0 <= q.x < dim,
        0 <= q.y < dim,
    ensures
        0 <= cell_index(dim, p) < dim * dim,
        cell_index(dim, p) == cell_index(dim, q) ==> p == q,
{
    assert(0 <= p.y * dim <= (dim - 1) * dim && (dim - 1) * dim == dim * dim - dim)
        by (nonlinear_arith)
        requires
            0 <= p.y <= dim - 1,
            0 < dim,
    ;
    if p.y < q.y {
        assert(p.y * dim + dim <= q.y * dim) by (nonlinear_arith)
            requires
                p.y + 1 <= q.y,
                0 < dim,
        ;
    }
    if q.y < p.y {
        assert(q.y * dim + dim <= p.y * dim) by (nonlinear_arith)
            requires
                q.y + 1 <= p.y,
                0 < dim,
        ;
    }
}

/// The grid of one run: which pixels of the canvas have been claimed.
pub struct CastGrid<'a> {
    config: &'a RaycastConfig,
    grid: Vec<bool>,
}

impl<'a> CastGrid<'a> {
    #[verifier::type_invariant]
    closed spec fn well_formed(self) -> bool {
        self.grid.len() == self.config.output_dim * self.config.output_dim
    }

    /// The set-up that the grid was made for.
    pub closed spec fn config(self) -> RaycastConfig {
        *self.config
    }

    /// The pixels of the canvas that have been claimed.
    pub closed spec fn claimed(self) -> Set<Coord> {
        Set::new(
            |q: Coord|
                self.config.on_canvas(q) && self.grid@[cell_index(
                    self.config.output_dim as int,
                    q,
                )],
        )
    }

    /// A grid for the canvas of `config`, with no pixel claimed. The number
    /// of pixels of the canvas must not exceed `usize::MAX`.
    pub fn new(config: &'a RaycastConfig) -> (grid: CastGrid<'a>)
        requires
            config.output_dim * config.output_dim <= usize::MAX,
        ensures
            grid.config() == *config,
            grid.claimed() == Set::<Coord>::empty(),
    {
        let grid = CastGrid { config, grid: vec![false; config.output_dim * config.output_dim] };
        proof {
            assert forall|q: Coord| !grid.claimed().contains(q) by {
                if config.on_canvas(q) {
                    lemma_cell_index(config.output_dim as int, q, q);
                }
            }
            assert(grid.claimed() =~= Set::<Coord>::empty());
        }
        grid
    }

    /// Casts a ray from `from` to `to`, two pixels of the canvas. The ray
    /// claims the pixels of its segment, in order, up to the first that was
    /// claimed before; if that is `from` itself, it claims nothing. Whatever
    /// `result` held is overwritten by the report of this ray.
    pub fn cast(&mut self, from: &Point, to: &Point, result: &mut CastResults)
        requires
            old(self).config().on_canvas(from@),
            old(self).config().on_canvas(to@),
        ensures
            final(self).config() == old(self).config(),
            final(result).out_pixels.deep_view() == claimed_run(
                old(self).claimed(),
                pixels_on_segment(from@, to@),
            ),
            final(self).claimed() == claimed_after(
                old(self).claimed(),
                pixels_on_segment(from@, to@),
            ),
            final(result).pixel_count == final(result).out_pixels.len(),
            final(result).cast_distance_squared == squared_span(
                final(result).out_pixels.deep_view(),
            ),
    {
        let ghost line = pixels_on_segment(from@, to@);
        let ghost taken = self.claimed();
        result.out_pixels.clear();
        result.out_pixels.reserve(self.config.radius);
        let mut pixels = iter_pixels_in_line(*from, *to);
        proof {
            assert(line.take(0) =~= Seq::<Coord>::empty());
            assert(result.out_pixels.deep_view() =~= line.take(0));
            assert(line.take(0).to_set() =~= Set::<Coord>::empty());
            assert(taken.union(Set::<Coord>::empty()) =~= taken);
            assert(line.skip(0) =~= line);
        }
        loop
            invariant_except_break
                pixels.remaining() == line.skip(result.out_pixels.len() as int),
            invariant
                line == pixels_on_segment(from@, to@),
                self.config() == old(self).config(),
                self.config().on_canvas(from@),
                self.config().on_canvas(to@),
                result.out_pixels.len() <= line.len(),
                result.out_pixels.deep_view() == line.take(result.out_pixels.len() as int),
                forall|i: int|
                    0 <= i < result.out_pixels.len() ==> !taken.contains(#[trigger] line[i]),
                self.claimed() == taken.union(line.take(result.out_pixels.len() as int).to_set()),
            ensures
                result.out_pixels.deep_view() == claimed_run(taken, line),
                self.claimed() == claimed_after(taken, line),
            decreases line.len() - result.out_pixels.len(),
        {
            let ghost k = result.out_pixels.len() as int;
            let ghost so_far = result.out_pixels.deep_view();
            let ghost marked = self.claimed();
            match pixels.next() {
                Some(pixel) => {
                    proof {
                        assert(line.skip(k).first() == line[k]);
                        lemma_segment_follows_dominant_axis(from@, to@, k);
                    }
                    if self.try_mark(&pixel) {
                        result.out_pixels.push(pixel);
                        proof {
                            assert(result.out_pixels.deep_view() =~= so_far.push(line[k]));
                            assert(line.take(k).push(line[k]) =~= line.take(k + 1));
                            assert(line.skip(k).drop_first() =~= line.skip(k + 1));
                            assert(line.take(k + 1).to_set() =~= line.take(k).to_set().insert(
                                line[k],
                            )) by {
                                line.take(k).lemma_push_to_set_commute(line[k]);
                            }
                            assert(taken.union(line.take(k).to_set()).insert(line[k])
                                =~= taken.union(line.take(k).to_set().insert(line[k])));
                        }
                    } else {
                        proof {
                            lemma_segment_no_duplicates(from@, to@);
                            assert(!line.take(k).to_set().contains(line[k])) by {
                                if line.take(k).contains(line[k]) {
                                    let i = choose|i: int|
                                        0 <= i < k && line.take(k)[i] == line[k];
                                    assert(line[i] == line[k]);
                                }
                            }
                            assert(taken.contains(line[k]));
                            lemma_free_prefix_len(taken, line, k);
                            assert(marked.insert(line[k]) =~= marked);
                        }
                        break ;
                    }
                },
                None => {
                    proof {
                        lemma_free_prefix_len(taken, line, k);
                    }
                    break ;
                },
            }
        }
        result.pixel_count = result.out_pixels.len();
        let ghost run = result.out_pixels.deep_view();
        let distance_sq: i64 = if result.out_pixels.len() == 0 {
            0
        } else {
            let first = result.out_pixels[0];
            let last = result.out_pixels[result.out_pixels.len() - 1];
            let offset = first.offset_from(&last);
            proof {
                assert(run.first() == first@ && run.last() == last@);
                assert(run.is_prefix_of(line));
                lemma_segment_follows_dominant_axis(from@, to@, 0);
                lemma_segment_follows_dominant_axis(from@, to@, run.len() - 1);
                assert(0 <= offset.x * offset.x <= 0x3fff_ffff_0000_0001 && 0 <= offset.y
                    * offset.y <= 0x3fff_ffff_0000_0001) by (nonlinear_arith)
                    requires
                        -0x7fff_ffff <= offset.x <= 0x7fff_ffff,
                        -0x7fff_ffff <= offset.y <= 0x7fff_ffff,
                ;
            }
            offset.x * offset.x + offset.y * offset.y
        };
        result.cast_distance_squared = distance_sq as u64;
    }

    /// Claims the pixel `p` of the canvas, and says whether it was free.
    fn try_mark(&mut self, p: &Point) -> (fresh: bool)
        requires
            old(self).config().on_canvas(p@),
        ensures
            final(self).config() == old(self).config(),
            fresh == !old(self).claimed().contains(p@),
            final(self).claimed() == old(self).claimed().insert(p@),
    {
        proof {
            use_type_invariant(&*self);
            lemma_cell_index(self.config.output_dim as int, p@, p@);
        }
        let ghost dim = self.config.output_dim as int;
        let ghost before = self.grid@;
        assert(p.y * dim <= dim * dim - dim) by (nonlinear_arith)
            requires
                0 <= p.y <= dim - 1,
                0 < dim,
        ;
        let index = p.y as usize * self.config.output_dim + (p.x as usize);
        let was_claimed = self.grid[index];
        self.grid[index] = true;
        proof {
            assert(index == cell_index(dim, p@));
            assert(self.grid@ == before.update(index as int, true));
            assert forall|q: Coord|
                self.claimed().contains(q) <==> old(self).claimed().insert(p@).contains(q) by {
                if self.config.on_canvas(q) {
                    lemma_cell_index(dim, q, p@);
                    let cell = cell_index(dim, q);
                    assert(q != p@ ==> self.grid@[cell] == before[cell]);
                }
            }
            assert(self.claimed() =~= old(self).claimed().insert(p@));
        }
        !was_claimed
    }
}

} // verus!
