use crate::laws::lemma_depth_zero_adds_nothing;
use crate::plan::{
    base_copy, mesh_outcome, mesh_plan, placement_count, plan_view, selections_fit, shape_error,
    validate_shape, GrowthError, GrownTriangle,
};
use rand::Rng;
use rand::SeedableRng;
use rand_xoshiro::Xoshiro256StarStar;
use vstd::prelude::*;

verus! {

/// rand_xoshiro's `Xoshiro256StarStar` generator, carried through as an opaque value.
#[verifier::external_type_specification]
#[verifier::external_body]
pub struct ExXoshiro256StarStar(Xoshiro256StarStar);

/// The value that a `Xoshiro256StarStar` generator seeded with `seed` by `seed_from_u64`,
/// after one `gen_range` draw from `0..b` for each `b` of `history` in order, draws from
/// `0..n`.
pub uninterp spec fn draw_of(seed: u64, history: Seq<u64>, n: u64) -> u64;

/// A seeded random generator. Its model is the seed and the upper bounds of the ranges
/// drawn from so far, in order: together they fix every later draw.
pub struct SeededRng {
    rng: Xoshiro256StarStar,
    seed: Ghost<u64>,
    history: Ghost<Seq<u64>>,
}

impl View for SeededRng {
    type V = (u64, Seq<u64>);

    closed spec fn view(&self) -> (u64, Seq<u64>) {
        (self.seed@, self.history@)
    }
}

/// Relies on `SeedableRng::seed_from_u64` of rand_xoshiro's `Xoshiro256StarStar`: the
/// generator seeded with `seed`, before any draw.
#[verifier::external_body]
fn seeded(seed: u64) -> (r: SeededRng)
    ensures
        r@ == (seed, Seq::<u64>::empty()),
{
    SeededRng {
        rng: Xoshiro256StarStar::seed_from_u64(seed),
        seed: Ghost(seed),
        history: Ghost(Seq::empty()),
    }
}

/// Relies on rand's `Rng::gen_range` on the `u64` range `0..n`: one draw, whose value lies
/// in that range and is fixed by the seed and the draws before it. It panics on an empty
/// range, which `requires` leaves out.
#[verifier::external_body]
fn draw_below(g: &mut SeededRng, n: u64) -> (r: u64)
    requires
        n > 0,
    ensures
        r == draw_of(old(g)@.0, old(g)@.1, n),
        r < n,
        final(g)@ == (old(g)@.0, old(g)@.1.push(n)),
{
    let r = g.rng.gen_range(0..n);
    g.history = Ghost(g.history@.push(n));
    r
}

impl SeededRng {
    /// The generator seeded with `seed`, before any draw.
    pub fn new(seed: u64) -> (r: SeededRng)
        ensures
            r@ == (seed, Seq::<u64>::empty()),
    {
        seeded(seed)
    }
}

/// `count` times the bound `n`.
pub open spec fn repeat(n: u64, count: nat) -> Seq<u64> {
    Seq::new(count, |i: int| n)
}

/// The `count` draws from `0..n`, one after another, of the generator seeded with `seed`
/// that has drawn from the ranges of `history` before.
pub open spec fn uniform_draws(seed: u64, history: Seq<u64>, n: u64, count: nat) -> Seq<usize> {
    Seq::new(count, |i: int| draw_of(seed, history + repeat(n, i as nat), n) as usize)
}

/// Draws one triangle of a mesh of `n` triangles, each equally likely: the generator's
/// next draw from `0..n`.
pub fn select_uniform(rng: &mut SeededRng, n: usize) -> (r: Result<usize, GrowthError>)
    ensures
        match r {
            Ok(i) => {
                &&& n > 0
                &&& i < n
                &&& i == draw_of(old(rng)@.0, old(rng)@.1, n as u64) as usize
                &&& final(rng)@ == (old(rng)@.0, old(rng)@.1.push(n as u64))
            },
            Err(e) => n == 0 && e == GrowthError::EmptyMesh && final(rng)@ == old(rng)@,
        },
{
    if n == 0 {
        return Err(GrowthError::EmptyMesh);
    }
    let r = draw_below(rng, n as u64);
    Ok(r as usize)
}

/// Draws `count` triangles of a mesh of `n` triangles one after another, each uniformly.
pub fn uniform_selections(rng: &mut SeededRng, n: usize, count: usize) -> (r: Result<
    Vec<usize>,
    GrowthError,
>)
    ensures
        match r {
            Ok(v) => {
                &&& v@ == uniform_draws(old(rng)@.0, old(rng)@.1, n as u64, count as nat)
                &&& selections_fit(n as nat, v@)
                &&& final(rng)@ == (old(rng)@.0, old(rng)@.1 + repeat(n as u64, count as nat))
            },
            Err(e) => count > 0 && n == 0 && e == GrowthError::EmptyMesh && final(rng)@ == old(
                rng,
            )@,
        },
{
    let ghost seed = rng@.0;
    let ghost h0 = rng@.1;
    let mut v: Vec<usize> = Vec::new();
    let mut i: usize = 0;
    assert(h0 + repeat(n as u64, 0) =~= h0);
    assert(v@ =~= uniform_draws(seed, h0, n as u64, 0));
    while i < count
        invariant
            i <= count,
            v@ == uniform_draws(seed, h0, n as u64, i as nat),
            selections_fit(n as nat, v@),
            rng@ == (seed, h0 + repeat(n as u64, i as nat)),
            i > 0 ==> n > 0,
            seed == old(rng)@.0,
            h0 == old(rng)@.1,
        decreases count - i,
    {
        let sel = match select_uniform(rng, n) {
            Ok(sel) => sel,
            Err(e) => {
                assert(h0 + repeat(n as u64, 0) =~= h0);
                return Err(e);
            },
        };
        v.push(sel);
        i = i + 1;
        assert(v@ =~= uniform_draws(seed, h0, n as u64, i as nat));
        assert(rng@.1 =~= h0 + repeat(n as u64, i as nat));
    }
    Ok(v)
}

/// What planning an output mesh with uniform sampling from the generator seeded with
/// `seed` gives: the selections are that generator's first draws.
pub open spec fn uniform_mesh_outcome(n: nat, seed: u64, depth: nat, k: nat, max: nat) -> Result<
    Seq<(usize, Seq<usize>)>,
    GrowthError,
> {
    match shape_error(n, depth, k, max) {
        Some(e) => Err(e),
        None => mesh_outcome(
            n,
            depth,
            k,
            uniform_draws(seed, Seq::empty(), n as u64, placement_count(depth, k)),
            max,
        ),
    }
}

/// Plans an output mesh grown with uniform sampling from a generator seeded with `seed`:
/// the base mesh of `base_len` triangles, then a growth of `depth` levels with
/// `num_children` children per level that adds at most `max_triangles` triangles.
/// The result is fixed by the arguments: the same seed gives the same mesh.
pub fn uniform_mesh_plan(
    base_len: usize,
    seed: u64,
    depth: usize,
    num_children: usize,
    max_triangles: usize,
) -> (r: Result<Vec<GrownTriangle>, GrowthError>)
    ensures
        match r {
            Ok(g) => uniform_mesh_outcome(
                base_len as nat,
                seed,
                depth as nat,
                num_children as nat,
                max_triangles as nat,
            ) == Ok::<Seq<(usize, Seq<usize>)>, GrowthError>(plan_view(g@)),
            Err(e) => {
                &&& uniform_mesh_outcome(
                    base_len as nat,
                    seed,
                    depth as nat,
                    num_children as nat,
                    max_triangles as nat,
                ) == Err::<Seq<(usize, Seq<usize>)>, GrowthError>(e)
                &&& shape_error(
                    base_len as nat,
                    depth as nat,
                    num_children as nat,
                    max_triangles as nat,
                ) == Some(e)
            },
        },
        depth == 0 ==> (r matches Ok(g) && plan_view(g@) == base_copy(base_len as nat, seq![])),
{
    proof {
        assert(base_len * 0 == 0);
    }
    let count = match validate_shape(base_len, depth, num_children, max_triangles) {
        Ok(c) => c,
        Err(e) => {
            return Err(e);
        },
    };
    let mut rng = SeededRng::new(seed);
    let sels = match uniform_selections(&mut rng, base_len, count) {
        Ok(v) => v,
        Err(e) => {
            return Err(e);
        },
    };
    let r = mesh_plan(base_len, depth, num_children, &sels, max_triangles);
    proof {
        if depth == 0 {
            assert(sels@ =~= Seq::<usize>::empty());
            lemma_depth_zero_adds_nothing(
                base_len as nat,
                num_children as nat,
                sels@,
                max_triangles as nat,
            );
        }
    }
    r
}

} // verus!
