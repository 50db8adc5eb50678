use fractal_growth::plan::{growth_plan, mesh_plan, selection_count, GrowthError, GrownTriangle};
use fractal_growth::sampling::{select_uniform, uniform_mesh_plan, uniform_selections, SeededRng};

fn flat(v: &[GrownTriangle]) -> Vec<(usize, Vec<usize>)> {
    v.iter().map(|g| (g.base, g.path.clone())).collect()
}

#[test]
fn selection_count_is_power_sum() {
    assert_eq!(selection_count(0, 5), Some(0));
    assert_eq!(selection_count(1, 3), Some(3));
    assert_eq!(selection_count(2, 5), Some(30));
    assert_eq!(selection_count(3, 3), Some(39));
    assert_eq!(selection_count(7, 0), Some(0));
    assert_eq!(selection_count(1000, 1), Some(1000));
}

#[test]
fn selection_count_overflow_is_none() {
    assert_eq!(selection_count(64, 2), None);
    assert_eq!(selection_count(2, usize::MAX), None);
    assert_eq!(selection_count(63, 2), Some(usize::MAX - 1));
}

#[test]
fn one_level_one_child_copies_base_onto_selection() {
    let r = growth_plan(2, 1, 1, &vec![1], 100).unwrap();
    assert_eq!(flat(&r), vec![(0, vec![1]), (1, vec![1])]);
}

#[test]
fn two_levels_follow_draw_order() {
    // Each child draws its own triangle, then its sub-growth draws.
    let sels = vec![5, 4, 3, 2, 1, 0];
    let r = growth_plan(6, 2, 2, &sels, 1000).unwrap();
    assert_eq!(r.len(), 36);
    let paths: Vec<Vec<usize>> = r.iter().filter(|g| g.base == 0).map(|g| g.path.clone()).collect();
    assert_eq!(
        paths,
        vec![vec![5], vec![5, 4], vec![5, 3], vec![2], vec![2, 1], vec![2, 0]]
    );
    let bases: Vec<usize> = r[0..6].iter().map(|g| g.base).collect();
    assert_eq!(bases, vec![0, 1, 2, 3, 4, 5]);
    assert_eq!(r[6].path, vec![5, 4]);
}

#[test]
fn growth_count_matches_formula() {
    // 3 * (2 + 4 + 8) triangles added to 3.
    let r = uniform_mesh_plan(3, 7, 3, 2, 1000).unwrap();
    assert_eq!(r.len(), 3 + 42);
    for g in &r[3..] {
        assert!(g.base < 3);
        assert!(!g.path.is_empty() && g.path.len() <= 3);
        assert!(g.path.iter().all(|&s| s < 3));
    }
}

#[test]
fn depth_zero_adds_nothing() {
    assert!(growth_plan(4, 0, 3, &vec![], 0).unwrap().is_empty());
    assert!(growth_plan(0, 0, 3, &vec![], 0).unwrap().is_empty());
    let r = uniform_mesh_plan(3, 11, 0, 9, 0).unwrap();
    assert_eq!(flat(&r), vec![(0, vec![]), (1, vec![]), (2, vec![])]);
    assert!(uniform_mesh_plan(0, 11, 0, 9, 0).unwrap().is_empty());
}

#[test]
fn no_children_adds_nothing() {
    assert!(growth_plan(0, 5, 0, &vec![], 0).unwrap().is_empty());
    assert_eq!(uniform_mesh_plan(2, 1, 5, 0, 0).unwrap().len(), 2);
}

#[test]
fn empty_mesh_is_refused() {
    assert_eq!(growth_plan(0, 1, 1, &vec![], 100).unwrap_err(), GrowthError::EmptyMesh);
    assert_eq!(uniform_mesh_plan(0, 0, 2, 2, 100).unwrap_err(), GrowthError::EmptyMesh);
    assert_eq!(uniform_mesh_plan(0, 0, 200, 2, 100).unwrap_err(), GrowthError::EmptyMesh);
}

#[test]
fn budget_is_enforced() {
    // 2 * (5 + 25) = 60 added triangles.
    assert_eq!(uniform_mesh_plan(2, 0, 2, 5, 59).unwrap_err(), GrowthError::BudgetExceeded);
    assert_eq!(uniform_mesh_plan(2, 0, 2, 5, 60).unwrap().len(), 62);
    assert_eq!(
        uniform_mesh_plan(1, 0, 200, 2, usize::MAX).unwrap_err(),
        GrowthError::BudgetExceeded
    );
    assert_eq!(
        growth_plan(usize::MAX, 1, 2, &vec![0, 0], usize::MAX).unwrap_err(),
        GrowthError::BudgetExceeded
    );
}

#[test]
fn selections_must_match() {
    assert_eq!(growth_plan(2, 1, 2, &vec![0], 100).unwrap_err(), GrowthError::SelectionMismatch);
    assert_eq!(growth_plan(2, 1, 2, &vec![0, 2], 100).unwrap_err(), GrowthError::SelectionMismatch);
    assert_eq!(growth_plan(2, 0, 2, &vec![0], 100).unwrap_err(), GrowthError::SelectionMismatch);
}

#[test]
fn mesh_plan_puts_base_first() {
    let r = mesh_plan(2, 1, 2, &vec![1, 0], 100).unwrap();
    assert_eq!(
        flat(&r),
        vec![
            (0, vec![]),
            (1, vec![]),
            (0, vec![1]),
            (1, vec![1]),
            (0, vec![0]),
            (1, vec![0]),
        ]
    );
}

#[test]
fn same_seed_same_mesh() {
    let a = uniform_mesh_plan(4, 42, 3, 3, 10000).unwrap();
    let b = uniform_mesh_plan(4, 42, 3, 3, 10000).unwrap();
    assert_eq!(flat(&a), flat(&b));
}

#[test]
fn unit_square_seed_zero_fixture() {
    // Two triangles, one level, one child: the seeded draw picks the second triangle.
    let r = uniform_mesh_plan(2, 0, 1, 1, 100).unwrap();
    assert_eq!(
        flat(&r),
        vec![(0, vec![]), (1, vec![]), (0, vec![1]), (1, vec![1])]
    );
}

#[test]
fn uniform_sampling_is_even() {
    let mut rng = SeededRng::new(0);
    let mut counts = [0usize; 3];
    for _ in 0..100_000 {
        counts[select_uniform(&mut rng, 3).unwrap()] += 1;
    }
    for c in counts {
        let f = c as f64 / 100_000.0;
        assert!((f - 1.0 / 3.0).abs() < 0.01, "frequency {}", f);
    }
}

#[test]
fn uniform_sampling_of_one_triangle() {
    let mut rng = SeededRng::new(3);
    for _ in 0..10 {
        assert_eq!(select_uniform(&mut rng, 1), Ok(0));
    }
}

#[test]
fn uniform_sampling_of_nothing_fails() {
    let mut rng = SeededRng::new(3);
    assert_eq!(select_uniform(&mut rng, 0), Err(GrowthError::EmptyMesh));
    assert_eq!(uniform_selections(&mut rng, 0, 0), Ok(vec![]));
    assert_eq!(uniform_selections(&mut rng, 0, 3), Err(GrowthError::EmptyMesh));
    let v = uniform_selections(&mut rng, 5, 50).unwrap();
    assert_eq!(v.len(), 50);
    assert!(v.iter().all(|&s| s < 5));
}

#[test]
fn same_seed_same_draws() {
    let mut a = SeededRng::new(9);
    let mut b = SeededRng::new(9);
    for n in 1..200 {
        assert_eq!(select_uniform(&mut a, n), select_uniform(&mut b, n));
    }
}

#[test]
fn each_selection_takes_one_draw() {
    let mut a = SeededRng::new(5);
    let first = uniform_selections(&mut a, 1000, 4).unwrap();
    let mut b = SeededRng::new(5);
    let mut one_by_one = Vec::new();
    for _ in 0..4 {
        one_by_one.push(select_uniform(&mut b, 1000).unwrap());
    }
    assert_eq!(first, one_by_one);
    // A failed selection leaves the generator where it was.
    let mut c = SeededRng::new(5);
    assert_eq!(select_uniform(&mut c, 0), Err(GrowthError::EmptyMesh));
    assert_eq!(select_uniform(&mut c, 1000), Ok(first[0]));
    assert_eq!(select_uniform(&mut c, 1000), Ok(first[1]));
}

#[test]
fn different_seeds_differ() {
    let a = uniform_mesh_plan(8, 1, 2, 4, 10000).unwrap();
    let b = uniform_mesh_plan(8, 2, 2, 4, 10000).unwrap();
    assert_eq!(a.len(), b.len());
    assert_ne!(flat(&a), flat(&b));
}
