use particle_sim::LinkedCells;

#[test]
fn three_by_three_grid() {
    let mut cells = LinkedCells::new(3, 3);
    assert_eq!(cells.get_num_x(), 3);
    assert_eq!(cells.get_num_y(), 3);
    cells.add_particle(0, 0, 0);
    cells.add_particle(2, 2, 1);
    assert_eq!(cells.get_cell(0, 0).unwrap().particle_ids, vec![0]);
    assert_eq!(cells.get_cell(2, 2).unwrap().particle_ids, vec![1]);
    assert_eq!(cells.get_cell(1, 1).unwrap().particle_ids, Vec::<usize>::new());
}

#[test]
fn zero_cells_along_an_axis_become_one() {
    let cells = LinkedCells::new(0, 5);
    assert_eq!(cells.get_num_x(), 1);
    assert_eq!(cells.get_num_y(), 5);
    let cells = LinkedCells::new(0, 0);
    assert_eq!(cells.get_num_x(), 1);
    assert_eq!(cells.get_num_y(), 1);
}

#[test]
fn get_cell_outside_grid_is_none() {
    let cells = LinkedCells::new(3, 2);
    assert!(cells.get_cell(2, 1).is_some());
    assert!(cells.get_cell(3, 0).is_none());
    assert!(cells.get_cell(0, 2).is_none());
}

#[test]
fn cell_storage_is_row_by_row() {
    let mut cells = LinkedCells::new(3, 2);
    cells.add_particle(1, 0, 10);
    cells.add_particle(0, 1, 20);
    assert_eq!(cells.get_cell(1, 0).unwrap().particle_ids, vec![10]);
    assert_eq!(cells.get_cell(0, 1).unwrap().particle_ids, vec![20]);
}

#[test]
fn adjusted_cell_does_not_wrap() {
    let mut cells = LinkedCells::new(3, 3);
    cells.add_particle(1, 2, 7);
    assert!(cells.get_adjusted_cell(0, 0, -1, 1).is_none());
    assert!(cells.get_adjusted_cell(2, 0, 1, 1).is_none());
    assert!(cells.get_adjusted_cell(0, 2, 0, 1).is_none());
    assert_eq!(cells.get_adjusted_cell(0, 1, 1, 1).unwrap().particle_ids, vec![7]);
    assert_eq!(cells.get_adjusted_cell(2, 2, -1, 0).unwrap().particle_ids, vec![7]);
    assert!(cells.get_adjusted_cell(usize::MAX, 0, 1, 0).is_none());
    assert!(cells.get_adjusted_cell(0, 0, i32::MIN, 0).is_none());
}

#[test]
fn binning_puts_each_particle_in_one_cell() {
    let mut cells = LinkedCells::new(2, 2);
    let cells_of = vec![(1, 1), (0, 0), (1, 1), (0, 1), (1, 0), (1, 1)];
    cells.bin_particles(&cells_of);
    assert_eq!(cells.get_cell(0, 0).unwrap().particle_ids, vec![1]);
    assert_eq!(cells.get_cell(1, 0).unwrap().particle_ids, vec![4]);
    assert_eq!(cells.get_cell(0, 1).unwrap().particle_ids, vec![3]);
    assert_eq!(cells.get_cell(1, 1).unwrap().particle_ids, vec![0, 2, 5]);

    let mut total = 0;
    let mut seen = vec![0; cells_of.len()];
    for x in 0..2 {
        for y in 0..2 {
            for &id in cells.get_cell(x, y).unwrap().particle_ids.iter() {
                seen[id] += 1;
                total += 1;
            }
        }
    }
    assert_eq!(total, cells_of.len());
    assert!(seen.iter().all(|&n| n == 1));
}

#[test]
fn binning_appends_after_existing_ids() {
    let mut cells = LinkedCells::new(1, 1);
    cells.add_particle(0, 0, 9);
    cells.bin_particles(&vec![(0, 0), (0, 0)]);
    assert_eq!(cells.get_cell(0, 0).unwrap().particle_ids, vec![9, 0, 1]);
}

#[test]
fn mutable_cell_changes_only_that_cell() {
    let mut cells = LinkedCells::new(2, 2);
    cells.get_mut_cell(1, 0).unwrap().particle_ids.push(3);
    assert_eq!(cells.get_cell(1, 0).unwrap().particle_ids, vec![3]);
    assert_eq!(cells.get_cell(0, 0).unwrap().particle_ids, Vec::<usize>::new());
    assert_eq!(cells.get_cell(0, 1).unwrap().particle_ids, Vec::<usize>::new());
    assert!(cells.get_mut_cell(2, 0).is_none());
    assert!(cells.get_mut_cell(0, 2).is_none());
}
