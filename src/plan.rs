use vstd::prelude::*;

verus! {

/// One triangle of a planned mesh: the base triangle it copies, and the base triangles it
/// was placed on, outermost placement first. An empty path is the base triangle itself.
#[derive(Debug, Clone)]
pub struct GrownTriangle {
    pub base: usize,
    pub path: Vec<usize>,
}

impl View for GrownTriangle {
    type V = (usize, Seq<usize>);

    open spec fn view(&self) -> (usize, Seq<usize>) {
        (self.base, self.path@)
    }
}

/// Why a growth cannot be planned.
#[derive(Debug, Clone, Copy, PartialEq, Eq, Structural)]
pub enum GrowthError {
    /// A triangle had to be sampled from a base mesh without triangles.
    EmptyMesh,
    /// The growth would add more triangles than the caller allowed.
    BudgetExceeded,
    /// The selections given are not as many as the growth draws, or one names no triangle.
    SelectionMismatch,
}

/// A planned mesh as plain values.
pub open spec fn plan_view(v: Seq<GrownTriangle>) -> Seq<(usize, Seq<usize>)> {
    v.map_values(|g: GrownTriangle| g@)
}

/// Every triangle of a base mesh of `n` triangles, in order, each placed along `path`.
pub open spec fn base_copy(n: nat, path: Seq<usize>) -> Seq<(usize, Seq<usize>)> {
    Seq::new(n, |t: int| (t as usize, path))
}

/// The entries of `s`, each placed once more, on base triangle `sel`, as outermost placement.
pub open spec fn placed_on(sel: usize, s: Seq<(usize, Seq<usize>)>) -> Seq<(usize, Seq<usize>)> {
    s.map_values(|e: (usize, Seq<usize>)| (e.0, seq![sel] + e.1))
}

/// What the first `i` children of a level with `depth` levels to go produce. Child `j`
/// reads its block of `1 + placement_count(depth - 1, k)` selections of `s` from
/// `j * block` on: its own triangle first, then those of its sub-growth. It yields a copy
/// of the base mesh placed on its triangle, then its sub-growth placed there too.
pub open spec fn children(n: nat, depth: nat, k: nat, i: nat, s: Seq<usize>) -> Seq<(usize, Seq<usize>)>
    decreases depth, i,
{
    if depth == 0 || i == 0 {
        seq![]
    } else {
        let block = 1 + placement_count((depth - 1) as nat, k);
        let start = (i - 1) * block;
        let sel = s[start];
        children(n, depth, k, (i - 1) as nat, s) + base_copy(n, seq![sel]) + placed_on(
            sel,
            children(n, (depth - 1) as nat, k, k, s.subrange(start + 1, start + block)),
        )
    }
}

/// The triangles that a growth of `depth` levels with `k` children per level adds to a base
/// mesh of `n` triangles, where `s` holds the selected triangles in the order drawn.
pub open spec fn growth(n: nat, depth: nat, k: nat, s: Seq<usize>) -> Seq<(usize, Seq<usize>)> {
    children(n, depth, k, k, s)
}

/// Every selection names a triangle of a base mesh of `n` triangles.
pub open spec fn selections_fit(n: nat, s: Seq<usize>) -> bool {
    forall|i: int| 0 <= i < s.len() ==> s[i] < n
}

/// How many placements (one random selection each) a growth of `depth` levels with
/// `k` children per level makes: `k` children, each followed by its own sub-growth.
pub open spec fn placement_count(depth: nat, k: nat) -> nat
    decreases depth,
{
    if depth == 0 {
        0
    } else {
        k * (1 + placement_count((depth - 1) as nat, k))
    }
}

/// Without children a growth makes no placements, however deep.
pub proof fn lemma_no_children(depth: nat)
    ensures
        placement_count(depth, 0) == 0,
    decreases depth,
{
    if depth > 0 {
        lemma_no_children((depth - 1) as nat);
    }
}

/// With at least one child per level, each extra level makes strictly more placements.
pub proof fn lemma_placement_count_grows(d1: nat, d2: nat, k: nat)
    requires
        k >= 1,
        d1 < d2,
    ensures
        placement_count(d1, k) < placement_count(d2, k),
    decreases d2,
{
    let p = placement_count((d2 - 1) as nat, k);
    assert(k * (1 + p) >= 1 + p) by (nonlinear_arith)
        requires
            k >= 1,
    ;
    if d1 < d2 - 1 {
        lemma_placement_count_grows(d1, (d2 - 1) as nat, k);
    }
}

/// The number of random selections a growth of `depth` levels with `num_children`
/// children per level consumes, or `None` where it does not fit in a `usize`.
pub fn selection_count(depth: usize, num_children: usize) -> (r: Option<usize>)
    ensures
        match r {
            Some(c) => c == placement_count(depth as nat, num_children as nat),
            None => placement_count(depth as nat, num_children as nat) > usize::MAX,
        },
{
    let mut c: usize = 0;
    let mut d: usize = 0;
    while d < depth
        invariant
            d <= depth,
            c == placement_count(d as nat, num_children as nat),
        decreases depth - d,
    {
        if c == usize::MAX {
            proof {
                lemma_no_children(d as nat);
                lemma_placement_count_grows(d as nat, depth as nat, num_children as nat);
            }
            return None;
        }
        match num_children.checked_mul(c + 1) {
            Some(v) => {
                c = v;
            },
            None => {
                proof {
                    if d + 1 < depth {
                        lemma_placement_count_grows((d + 1) as nat, depth as nat, num_children as nat);
                    }
                }
                return None;
            },
        }
        d = d + 1;
    }
    Some(c)
}

/// Why a growth of this shape on a base mesh of `n` triangles cannot be made, whatever
/// the selections: it adds more than `max` triangles, or it must sample an empty mesh.
pub open spec fn shape_error(n: nat, depth: nat, k: nat, max: nat) -> Option<GrowthError> {
    let pc = placement_count(depth, k);
    if n * pc > max {
        Some(GrowthError::BudgetExceeded)
    } else if pc > 0 && n == 0 {
        Some(GrowthError::EmptyMesh)
    } else {
        None
    }
}

/// What planning a growth on the selections `s` gives.
pub open spec fn growth_outcome(n: nat, depth: nat, k: nat, s: Seq<usize>, max: nat) -> Result<
    Seq<(usize, Seq<usize>)>,
    GrowthError,
> {
    match shape_error(n, depth, k, max) {
        Some(e) => Err(e),
        None => if s.len() != placement_count(depth, k) || !selections_fit(n, s) {
            Err(GrowthError::SelectionMismatch)
        } else {
            Ok(growth(n, depth, k, s))
        },
    }
}

/// Checks that a growth of this shape can be planned on a base mesh of `base_len` triangles:
/// the error it meets whatever the selections, or else the number of selections it draws.
pub fn validate_shape(base_len: usize, depth: usize, num_children: usize, max_triangles: usize) -> (r:
    Result<usize, GrowthError>)
    ensures
        match r {
            Ok(c) => {
                &&& shape_error(base_len as nat, depth as nat, num_children as nat, max_triangles as nat)
                    is None
                &&& c == placement_count(depth as nat, num_children as nat)
            },
            Err(e) => shape_error(base_len as nat, depth as nat, num_children as nat, max_triangles as nat)
                == Some(e),
        },
{
    let ghost pc = placement_count(depth as nat, num_children as nat);
    match selection_count(depth, num_children) {
        None => {
            if base_len == 0 {
                Err(GrowthError::EmptyMesh)
            } else {
                assert(base_len * pc >= pc) by (nonlinear_arith)
                    requires
                        base_len >= 1,
                ;
                Err(GrowthError::BudgetExceeded)
            }
        },
        Some(c) => match base_len.checked_mul(c) {
            None => Err(GrowthError::BudgetExceeded),
            Some(total) => {
                if total > max_triangles {
                    Err(GrowthError::BudgetExceeded)
                } else if c > 0 && base_len == 0 {
                    Err(GrowthError::EmptyMesh)
                } else {
                    Ok(c)
                }
            },
        },
    }
}

/// Plans the triangles that a growth adds to a base mesh of `base_len` triangles: `depth`
/// levels, `num_children` children per level, at most `max_triangles` triangles added.
/// `selections` holds the sampled base triangles in the order they were drawn; each child
/// draws its own before those of its sub-growth.
pub fn growth_plan(
    base_len: usize,
    depth: usize,
    num_children: usize,
    selections: &Vec<usize>,
    max_triangles: usize,
) -> (r: Result<Vec<GrownTriangle>, GrowthError>)
    ensures
        match r {
            Ok(g) => growth_outcome(
                base_len as nat,
                depth as nat,
                num_children as nat,
                selections@,
                max_triangles as nat,
            ) == Ok::<Seq<(usize, Seq<usize>)>, GrowthError>(plan_view(g@)),
            Err(e) => growth_outcome(
                base_len as nat,
                depth as nat,
                num_children as nat,
                selections@,
                max_triangles as nat,
            ) == Err::<Seq<(usize, Seq<usize>)>, GrowthError>(e),
        },
{
    let count = match validate_shape(base_len, depth, num_children, max_triangles) {
        Ok(c) => c,
        Err(e) => {
            return Err(e);
        },
    };
    if selections.len() != count {
        return Err(GrowthError::SelectionMismatch);
    }
    let mut i: usize = 0;
    while i < selections.len()
        invariant
            i <= selections@.len(),
            forall|j: int| 0 <= j < i ==> selections@[j] < base_len,
            shape_error(base_len as nat, depth as nat, num_children as nat, max_triangles as nat)
                is None,
            selections@.len() == placement_count(depth as nat, num_children as nat),
        decreases selections@.len() - i,
    {
        if selections[i] >= base_len {
            assert(!selections_fit(base_len as nat, selections@)) by {
                assert(selections@[i as int] >= base_len);
            }
            return Err(GrowthError::SelectionMismatch);
        }
        i = i + 1;
    }
    let r = grow_from(base_len, depth, num_children, selections, 0);
    assert(selections@.subrange(0, count as int) =~= selections@);
    Ok(r)
}

/// The base mesh of `n` triangles followed by what a growth adds, as planning gives it.
pub open spec fn mesh_outcome(n: nat, depth: nat, k: nat, s: Seq<usize>, max: nat) -> Result<
    Seq<(usize, Seq<usize>)>,
    GrowthError,
> {
    match growth_outcome(n, depth, k, s, max) {
        Ok(g) => Ok(base_copy(n, seq![]) + g),
        Err(e) => Err(e),
    }
}

/// Plans a whole output mesh: the base mesh of `base_len` triangles, unchanged and in order,
/// followed by the triangles that `growth_plan` gives for the same arguments.
pub fn mesh_plan(
    base_len: usize,
    depth: usize,
    num_children: usize,
    selections: &Vec<usize>,
    max_triangles: usize,
) -> (r: Result<Vec<GrownTriangle>, GrowthError>)
    ensures
        match r {
            Ok(g) => mesh_outcome(
                base_len as nat,
                depth as nat,
                num_children as nat,
                selections@,
                max_triangles as nat,
            ) == Ok::<Seq<(usize, Seq<usize>)>, GrowthError>(plan_view(g@)),
            Err(e) => mesh_outcome(
                base_len as nat,
                depth as nat,
                num_children as nat,
                selections@,
                max_triangles as nat,
            ) == Err::<Seq<(usize, Seq<usize>)>, GrowthError>(e),
        },
{
    let grown = match growth_plan(base_len, depth, num_children, selections, max_triangles) {
        Ok(g) => g,
        Err(e) => {
            return Err(e);
        },
    };
    Ok(with_base(base_len, grown))
}

/// The base mesh of `n` triangles, each unplaced, followed by `grown`.
fn with_base(n: usize, grown: Vec<GrownTriangle>) -> (r: Vec<GrownTriangle>)
    ensures
        plan_view(r@) == base_copy(n as nat, seq![]) + plan_view(grown@),
{
    let mut ret: Vec<GrownTriangle> = Vec::new();
    let mut t: usize = 0;
    while t < n
        invariant
            t <= n,
            plan_view(ret@) == base_copy(n as nat, seq![]).subrange(0, t as int),
        decreases n - t,
    {
        let p: Vec<usize> = Vec::new();
        assert(p@ =~= seq![]);
        let g = GrownTriangle { base: t, path: p };
        let ghost prev = ret@;
        ret.push(g);
        assert(plan_view(ret@) =~= plan_view(prev).push(g@));
        t = t + 1;
        assert(plan_view(ret@) =~= base_copy(n as nat, seq![]).subrange(0, t as int));
    }
    let ghost head = ret@;
    let mut rest = grown;
    ret.append(&mut rest);
    assert(plan_view(ret@) =~= plan_view(head) + plan_view(grown@));
    assert(base_copy(n as nat, seq![]).subrange(0, n as int) =~= base_copy(n as nat, seq![]));
    ret
}

/// `sel` followed by `path`.
fn prefixed(sel: usize, path: &Vec<usize>) -> (r: Vec<usize>)
    ensures
        r@ == seq![sel] + path@,
{
    let mut r: Vec<usize> = Vec::new();
    r.push(sel);
    let mut j: usize = 0;
    while j < path.len()
        invariant
            j <= path@.len(),
            r@ == seq![sel] + path@.subrange(0, j as int),
        decreases path@.len() - j,
    {
        r.push(path[j]);
        j = j + 1;
        assert(r@ =~= seq![sel] + path@.subrange(0, j as int));
    }
    assert(path@.subrange(0, path@.len() as int) =~= path@);
    r
}

/// The growth that reads its selections from `sels` at `start` on.
fn grow_from(n: usize, depth: usize, k: usize, sels: &Vec<usize>, start: usize) -> (r: Vec<GrownTriangle>)
    requires
        start + placement_count(depth as nat, k as nat) <= sels@.len(),
    ensures
        plan_view(r@) == growth(
            n as nat,
            depth as nat,
            k as nat,
            sels@.subrange(start as int, start + placement_count(depth as nat, k as nat)),
        ),
    decreases depth,
{
    let ghost whole = sels@.subrange(start as int, start + placement_count(depth as nat, k as nat));
    let mut ret: Vec<GrownTriangle> = Vec::new();
    if depth == 0 || k == 0 {
        assert(plan_view(ret@) =~= growth(n as nat, depth as nat, k as nat, whole));
        return ret;
    }
    let ghost pc = placement_count(depth as nat, k as nat);
    let len = sels.len();
    proof {
        lemma_placement_count_grows((depth - 1) as nat, depth as nat, k as nat);
    }
    let m: usize = match selection_count(depth - 1, k) {
        Some(m) => m,
        None => {
            return ret;
        },
    };
    let block: usize = m + 1;
    assert(pc == k * block);
    let mut i: usize = 0;
    while i < k
        invariant
            0 < depth,
            i <= k,
            block == 1 + placement_count((depth - 1) as nat, k as nat),
            pc == k * block,
            start + pc <= sels@.len(),
            len == sels@.len(),
            whole == sels@.subrange(start as int, start + pc),
            plan_view(ret@) == children(n as nat, depth as nat, k as nat, i as nat, whole),
        decreases k - i,
    {
        assert(i * block + block <= k * block) by (nonlinear_arith)
            requires
                i < k,
        ;
        let pos: usize = start + i * block;
        let sel = sels[pos];
        assert(sel == whole[i * block]);
        let ghost before = plan_view(ret@);
        let mut t: usize = 0;
        while t < n
            invariant
                t <= n,
                plan_view(ret@) == before + base_copy(n as nat, seq![sel]).subrange(0, t as int),
            decreases n - t,
        {
            let mut p: Vec<usize> = Vec::new();
            p.push(sel);
            assert(p@ =~= seq![sel]);
            let g = GrownTriangle { base: t, path: p };
            let ghost prev = ret@;
            ret.push(g);
            assert(ret@ == prev.push(g));
            assert(plan_view(ret@) =~= plan_view(prev).push(g@));
            t = t + 1;
            assert(plan_view(ret@) =~= before + base_copy(n as nat, seq![sel]).subrange(0, t as int));
        }
        let ghost with_copy = before + base_copy(n as nat, seq![sel]);
        assert(plan_view(ret@) =~= with_copy);
        let sub = grow_from(n, depth - 1, k, sels, pos + 1);
        let ghost inner = children((n as nat), (depth - 1) as nat, k as nat, k as nat,
            whole.subrange(i * block + 1, i * block + block));
        assert(sels@.subrange(pos + 1, pos + 1 + (block - 1)) =~= whole.subrange(i * block + 1, i * block + block));
        assert(plan_view(sub@) == inner);
        let mut j: usize = 0;
        while j < sub.len()
            invariant
                j <= sub@.len(),
                plan_view(sub@) == inner,
                plan_view(ret@) == with_copy + placed_on(sel, inner.subrange(0, j as int)),
            decreases sub@.len() - j,
        {
            let path = prefixed(sel, &sub[j].path);
            let g = GrownTriangle { base: sub[j].base, path };
            assert(inner[j as int] == sub@[j as int]@);
            assert(g@ == (inner[j as int].0, seq![sel] + inner[j as int].1));
            let ghost prev = ret@;
            ret.push(g);
            assert(plan_view(ret@) =~= plan_view(prev).push(g@));
            assert(placed_on(sel, inner.subrange(0, j + 1)) =~= placed_on(sel, inner.subrange(0, j as int)).push(g@));
            j = j + 1;
            assert(plan_view(ret@) =~= with_copy + placed_on(sel, inner.subrange(0, j as int)));
        }
        assert(inner.subrange(0, sub@.len() as int) =~= inner);
        assert(((i + 1) - 1) * block == i * block);
        i = i + 1;
        assert(plan_view(ret@) =~= children(n as nat, depth as nat, k as nat, i as nat, whole));
    }
    ret
}

} // verus!
