use particle_sim::{candidate_pairs, LinkedCells, VerletLists};

fn collect_pairs(verlet_lists: &VerletLists) -> Vec<(usize, usize)> {
    let mut iter = verlet_lists.into_iter();
    let mut out = Vec::new();
    while let Some(pair) = iter.next() {
        out.push(pair);
    }
    out
}

#[test]
fn test_verlet_list_construction() {
    let mut v = Vec::new();
    v.push((0usize, vec![1usize, 2usize, 3usize]));
    v.push((1usize, vec![2usize, 4usize]));
    v.push((5usize, vec![6usize, 7usize]));

    let vl = VerletLists::from(v);
    assert_eq!(vl.num_pairs(), 7);
}

#[test]
fn test_verlet_list_iteration() {
    let vl = vec![
        (0, vec![1, 3, 5]),
        (1, vec![3, 7]),
        (2, vec![0, 4]),
        (3, vec![2, 4, 6]),
    ];

    let verlet_lists = VerletLists::from(vl);
    let indices: Vec<(usize, usize)> = collect_pairs(&verlet_lists);

    assert_eq!(indices.len(), 10);
    assert_eq!(indices[0], (0, 1));
    assert_eq!(indices[1], (0, 3));
    assert_eq!(indices[2], (0, 5));
    assert_eq!(indices[3], (1, 3));
    assert_eq!(indices[4], (1, 7));
    assert_eq!(indices[5], (2, 0));
    assert_eq!(indices[6], (2, 4));
    assert_eq!(indices[7], (3, 2));
    assert_eq!(indices[8], (3, 4));
    assert_eq!(indices[9], (3, 6));
}

#[test]
fn test_verlet_list_empty_iteration() {
    let vl: Vec<(usize, Vec<usize>)> = Vec::new();

    let verlet_lists = VerletLists::from(vl);
    let indices: Vec<(usize, usize)> = collect_pairs(&verlet_lists);

    assert_eq!(indices.len(), 0);
}

#[test]
fn iteration_skips_entries_without_partners() {
    let verlet_lists = VerletLists::from(vec![(0, vec![1]), (2, vec![]), (3, vec![4, 5]), (6, vec![])]);
    assert_eq!(collect_pairs(&verlet_lists), vec![(0, 1), (3, 4), (3, 5)]);
    assert_eq!(verlet_lists.num_pairs(), 3);
}

#[test]
fn iterator_stays_exhausted() {
    let verlet_lists = VerletLists::from(vec![(7, vec![8])]);
    let mut iter = verlet_lists.into_iter();
    assert_eq!(iter.next(), Some((7, 8)));
    assert_eq!(iter.next(), None);
    assert_eq!(iter.next(), None);
}

#[test]
fn pairs_match_iteration() {
    let verlet_lists = VerletLists::from(vec![(4, vec![1, 2]), (0, vec![3])]);
    assert_eq!(verlet_lists.pairs(), vec![(4, 1), (4, 2), (0, 3)]);
    assert_eq!(verlet_lists.pairs(), collect_pairs(&verlet_lists));
}

#[test]
fn from_candidates_keeps_flagged_pairs_in_order() {
    let candidates = vec![(0, 2), (0, 3), (0, 4), (4, 2), (4, 3), (1, 2)];
    let keep = vec![true, false, true, false, false, true];
    let verlet_lists = VerletLists::from_candidates(&candidates, &keep);
    assert_eq!(verlet_lists.pairs(), vec![(0, 2), (0, 4), (1, 2)]);
    assert_eq!(verlet_lists.num_pairs(), 3);
}

#[test]
fn from_candidates_with_nothing_kept_is_empty() {
    let candidates = vec![(0, 1), (1, 2)];
    let keep = vec![false, false];
    let verlet_lists = VerletLists::from_candidates(&candidates, &keep);
    assert_eq!(verlet_lists.pairs(), Vec::<(usize, usize)>::new());
    assert_eq!(verlet_lists.num_pairs(), 0);
}

#[test]
fn from_candidates_gathers_runs_of_one_particle() {
    let candidates = vec![(5, 1), (5, 2), (6, 1), (5, 3)];
    let keep = vec![true, true, true, true];
    let verlet_lists = VerletLists::from_candidates(&candidates, &keep);
    assert_eq!(verlet_lists.pairs(), candidates);
    assert_eq!(verlet_lists.num_pairs(), 4);
}

// Five particles on a 3 by 3 grid: particles 0 and 4 in cell (0, 0), 1 in (1, 0),
// 2 in (0, 1) and 3 in (1, 1). Every two of them are neighbours.
fn five_particle_grid() -> LinkedCells {
    let mut cells = LinkedCells::new(3, 3);
    cells.bin_particles(&vec![(0, 0), (1, 0), (0, 1), (1, 1), (0, 0)]);
    cells
}

#[test]
fn verlet_pair_order_is_fixed() {
    let cells = five_particle_grid();
    let candidates = candidate_pairs(&cells);
    let expected = vec![
        (0, 2),
        (0, 3),
        (0, 4),
        (4, 2),
        (4, 3),
        (1, 2),
        (1, 3),
        (1, 0),
        (1, 4),
        (3, 2),
    ];
    assert_eq!(candidates, expected);

    let keep = vec![true; candidates.len()];
    let verlet_lists = VerletLists::from_candidates(&candidates, &keep);
    let pairs = collect_pairs(&verlet_lists);
    assert_eq!(pairs, expected);
    assert_eq!(verlet_lists.num_pairs(), 10);
}

#[test]
fn verlet_pairs_have_no_self_pair_or_repeat() {
    let cells = five_particle_grid();
    let candidates = candidate_pairs(&cells);
    let keep: Vec<bool> = (0..candidates.len()).map(|k| k % 3 != 1).collect();
    let pairs = VerletLists::from_candidates(&candidates, &keep).pairs();
    for (i, p) in pairs.iter().enumerate() {
        assert_ne!(p.0, p.1);
        for q in pairs.iter().skip(i + 1) {
            assert!(!(p == q || (p.0 == q.1 && p.1 == q.0)));
        }
    }
}

#[test]
fn lone_particle_has_no_candidates() {
    let mut cells = LinkedCells::new(2, 2);
    cells.bin_particles(&vec![(1, 1)]);
    assert_eq!(candidate_pairs(&cells), Vec::<(usize, usize)>::new());
}

#[test]
fn empty_grid_has_no_candidates() {
    let cells = LinkedCells::new(4, 4);
    assert_eq!(candidate_pairs(&cells), Vec::<(usize, usize)>::new());
}

#[test]
fn distant_cells_give_no_candidates() {
    let mut cells = LinkedCells::new(4, 1);
    cells.bin_particles(&vec![(0, 0), (2, 0)]);
    assert_eq!(candidate_pairs(&cells), Vec::<(usize, usize)>::new());
}
