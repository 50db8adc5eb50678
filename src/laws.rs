//! Facts about planned growths that relate several results.
use crate::plan::{
    base_copy, children, growth, growth_outcome, mesh_outcome, placed_on, placement_count,
    selections_fit, shape_error, GrowthError,
};
use crate::sampling::{uniform_draws, uniform_mesh_outcome};
use vstd::arithmetic::power::pow;
use vstd::prelude::*;

verus! {

/// `k + k^2 + ... + k^depth`.
pub open spec fn power_sum(depth: nat, k: nat) -> int
    decreases depth,
{
    if depth == 0 {
        0
    } else {
        power_sum((depth - 1) as nat, k) + pow(k as int, depth)
    }
}

proof fn lemma_power_sum_step(depth: nat, k: nat)
    requires
        depth >= 1,
    ensures
        k + k * power_sum((depth - 1) as nat, k) == power_sum(depth, k),
    decreases depth,
{
    reveal(pow);
    if depth == 1 {
        assert(pow(k as int, 0) == 1);
        assert(pow(k as int, 1) == k * pow(k as int, 0));
    } else {
        lemma_power_sum_step((depth - 1) as nat, k);
        let a = power_sum((depth - 2) as nat, k);
        let p = pow(k as int, (depth - 1) as nat);
        assert(pow(k as int, depth) == k * p);
        assert(k * (a + p) == k * a + k * p) by (nonlinear_arith);
    }
}

/// A growth of `depth` levels with `k` children per level makes `k + k^2 + ... + k^depth`
/// placements, one random selection each.
pub proof fn lemma_placement_count_is_power_sum(depth: nat, k: nat)
    ensures
        placement_count(depth, k) == power_sum(depth, k),
    decreases depth,
{
    if depth > 0 {
        lemma_placement_count_is_power_sum((depth - 1) as nat, k);
        lemma_power_sum_step(depth, k);
        let p = placement_count((depth - 1) as nat, k);
        assert(k * (1 + p) == k + k * p) by (nonlinear_arith);
    }
}

proof fn lemma_children_len(n: nat, depth: nat, k: nat, i: nat, s: Seq<usize>)
    ensures
        depth > 0 ==> children(n, depth, k, i, s).len() == i * (n * (1 + placement_count(
            (depth - 1) as nat,
            k,
        ))),
        depth == 0 ==> children(n, depth, k, i, s).len() == 0,
    decreases depth, i,
{
    if depth > 0 && i == 0 {
        assert(0 * (n * (1 + placement_count((depth - 1) as nat, k))) == 0);
    }
    if depth > 0 && i > 0 {
        let block = 1 + placement_count((depth - 1) as nat, k);
        let start = (i - 1) * block;
        let sub = s.subrange(start + 1, start + block);
        lemma_children_len(n, depth, k, (i - 1) as nat, s);
        lemma_children_len(n, (depth - 1) as nat, k, k, sub);
        let c = n * (1 + placement_count((depth - 1) as nat, k));
        assert(i * c == (i - 1) * c + c) by (nonlinear_arith);
        if depth - 1 == 0 {
            assert(n * 0 == 0);
        } else {
            let q = placement_count((depth - 2) as nat, k);
            assert(k * (n * (1 + q)) == n * (k * (1 + q))) by (nonlinear_arith);
        }
        assert(n * (1 + placement_count((depth - 1) as nat, k)) == n + n * placement_count(
            (depth - 1) as nat,
            k,
        )) by (nonlinear_arith);
    }
}

/// A growth adds `n` triangles, one copy of the base mesh, for each placement it makes.
pub proof fn lemma_growth_len(n: nat, depth: nat, k: nat, s: Seq<usize>)
    ensures
        growth(n, depth, k, s).len() == n * placement_count(depth, k),
{
    lemma_children_len(n, depth, k, k, s);
    if depth > 0 {
        let p = placement_count((depth - 1) as nat, k);
        assert(k * (n * (1 + p)) == n * (k * (1 + p))) by (nonlinear_arith);
    } else {
        assert(n * 0 == 0);
    }
}

/// A planned triangle copies a triangle of a base mesh of `n` triangles, and was placed
/// at least once and at most `depth` times, each time on a triangle of the base mesh.
pub open spec fn entry_fits(n: nat, depth: nat, e: (usize, Seq<usize>)) -> bool {
    &&& e.0 < n
    &&& 1 <= e.1.len() <= depth
    &&& selections_fit(n, e.1)
}

proof fn lemma_children_fit(n: nat, depth: nat, k: nat, i: nat, s: Seq<usize>)
    requires
        depth > 0 ==> i * (1 + placement_count((depth - 1) as nat, k)) <= s.len(),
        selections_fit(n, s),
    ensures
        forall|j: int|
            0 <= j < children(n, depth, k, i, s).len() ==> entry_fits(
                n,
                depth,
                #[trigger] children(n, depth, k, i, s)[j],
            ),
    decreases depth, i,
{
    if depth > 0 && i > 0 {
        let block = 1 + placement_count((depth - 1) as nat, k);
        let start = (i - 1) * block;
        let sel = s[start];
        assert((i - 1) * block + block == i * block) by (nonlinear_arith);
        assert((i - 1) * block >= 0) by (nonlinear_arith)
            requires
                i >= 1,
                block >= 1,
        ;
        let sub = s.subrange(start + 1, start + block);
        let a = children(n, depth, k, (i - 1) as nat, s);
        let b = base_copy(n, seq![sel]);
        let inner = children(n, (depth - 1) as nat, k, k, sub);
        let c = placed_on(sel, inner);
        lemma_children_fit(n, depth, k, (i - 1) as nat, s);
        assert(selections_fit(n, sub));
        if depth - 1 > 0 {
            assert(placement_count((depth - 1) as nat, k) == k * (1 + placement_count(
                (depth - 2) as nat,
                k,
            )));
        }
        lemma_children_fit(n, (depth - 1) as nat, k, k, sub);
        assert(children(n, depth, k, i, s) == a + b + c);
        assert forall|j: int| 0 <= j < c.len() implies entry_fits(n, depth, #[trigger] c[j]) by {
            assert(entry_fits(n, (depth - 1) as nat, inner[j]));
            assert(c[j] == (inner[j].0, seq![sel] + inner[j].1));
            assert forall|m: int| 0 <= m < c[j].1.len() implies c[j].1[m] < n by {
                if m > 0 {
                    assert(c[j].1[m] == inner[j].1[m - 1]);
                }
            }
        }
        assert forall|j: int| 0 <= j < b.len() implies entry_fits(n, depth, #[trigger] b[j]) by {
            assert(b[j].1 == seq![sel]);
        }
        assert forall|j: int| 0 <= j < (a + b + c).len() implies entry_fits(
            n,
            depth,
            #[trigger] (a + b + c)[j],
        ) by {
            if j < a.len() {
                assert((a + b + c)[j] == a[j]);
            } else if j < a.len() + b.len() {
                assert((a + b + c)[j] == b[j - a.len()]);
            } else {
                assert((a + b + c)[j] == c[j - a.len() - b.len()]);
            }
        }
    }
}

/// On selections that fit the base mesh and are as many as the growth draws, every
/// triangle of a growth of `depth` levels copies a base triangle and was placed between
/// once and `depth` times, each time on a base triangle.
pub proof fn lemma_growth_fits(n: nat, depth: nat, k: nat, s: Seq<usize>)
    requires
        s.len() == placement_count(depth, k),
        selections_fit(n, s),
    ensures
        forall|j: int|
            0 <= j < growth(n, depth, k, s).len() ==> entry_fits(
                n,
                depth,
                #[trigger] growth(n, depth, k, s)[j],
            ),
{
    lemma_children_fit(n, depth, k, k, s);
}

/// A growth of no levels adds nothing, whatever the base mesh, branching and selections;
/// planned with no selections it succeeds, and the whole mesh is the base mesh.
pub proof fn lemma_depth_zero_adds_nothing(n: nat, k: nat, s: Seq<usize>, max: nat)
    ensures
        growth(n, 0, k, s) == Seq::<(usize, Seq<usize>)>::empty(),
        growth_outcome(n, 0, k, Seq::empty(), max) == Ok::<Seq<(usize, Seq<usize>)>, GrowthError>(
            Seq::empty(),
        ),
        mesh_outcome(n, 0, k, Seq::empty(), max) == Ok::<Seq<(usize, Seq<usize>)>, GrowthError>(
            base_copy(n, seq![]),
        ),
{
    assert(n * 0 == 0);
    assert(base_copy(n, seq![]) + Seq::<(usize, Seq<usize>)>::empty() =~= base_copy(n, seq![]));
}

/// A run seeded with `seed` whose shape fits and whose draws name base triangles plans the
/// base mesh, unchanged, followed by the growth whose selections are that generator's first
/// draws from `0..n`: `n * (1 + k + k^2 + ... + k^depth)` triangles in all.
pub proof fn lemma_seeded_mesh(n: nat, seed: u64, depth: nat, k: nat, max: nat)
    requires
        shape_error(n, depth, k, max) is None,
        selections_fit(n, uniform_draws(seed, Seq::empty(), n as u64, placement_count(depth, k))),
    ensures
        ({
            let s = uniform_draws(seed, Seq::empty(), n as u64, placement_count(depth, k));
            &&& uniform_mesh_outcome(n, seed, depth, k, max) == Ok::<
                Seq<(usize, Seq<usize>)>,
                GrowthError,
            >(base_copy(n, seq![]) + growth(n, depth, k, s))
            &&& base_copy(n, seq![]).len() + growth(n, depth, k, s).len() == n * (1
                + power_sum(depth, k))
        }),
{
    let s = uniform_draws(seed, Seq::empty(), n as u64, placement_count(depth, k));
    lemma_growth_len(n, depth, k, s);
    lemma_placement_count_is_power_sum(depth, k);
    assert(n * (1 + power_sum(depth, k)) == n + n * power_sum(depth, k)) by (nonlinear_arith);
}

} // verus!
