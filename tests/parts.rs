use rs_isl::cadence::Cadence;
use rs_isl::schedule::{Phase, Worker};
use rs_isl::topology::neighbour_list;
use rs_isl::{compute_number_of_block_rows, decompose, Grid, OutputType, WithCall};

#[test]
fn block_rows_are_the_largest_divisor_up_to_the_root() {
    assert_eq!(compute_number_of_block_rows(1), 1);
    assert_eq!(compute_number_of_block_rows(2), 1);
    assert_eq!(compute_number_of_block_rows(4), 2);
    assert_eq!(compute_number_of_block_rows(6), 2);
    assert_eq!(compute_number_of_block_rows(10), 2);
    assert_eq!(compute_number_of_block_rows(12), 3);
    assert_eq!(compute_number_of_block_rows(16), 4);
    assert_eq!(compute_number_of_block_rows(17), 1);
    assert_eq!(compute_number_of_block_rows(100), 10);
}

#[test]
fn decomposition_covers_the_grid_once() {
    let p = decompose(6, 4, 6).unwrap();
    assert_eq!((p.rows, p.cols), (2, 3));
    assert_eq!((p.block_width, p.block_height), (2, 2));
    let mut owners = vec![vec![usize::MAX; 6]; 4];
    for r in 0..6 {
        let (x0, y0) = (p.x0(r), p.y0(r));
        for y in y0..y0 + p.block_height {
            for x in x0..x0 + p.block_width {
                assert_eq!(owners[y][x], usize::MAX);
                owners[y][x] = r;
            }
        }
    }
    assert_eq!(
        owners,
        vec![vec![0, 0, 1, 1, 2, 2], vec![0, 0, 1, 1, 2, 2], vec![3, 3, 4, 4, 5, 5], vec![3, 3, 4, 4, 5, 5]]
    );
}

#[test]
fn decomposition_errors() {
    assert!(decompose(100, 100, 17).is_err());
    assert!(decompose(1, 4, 2).is_err());
    assert!(decompose(4, 1, 2).is_ok());
    assert!(decompose(0, 0, 3).is_ok());
}

#[test]
fn boundary_neighbours_are_absent() {
    let offsets = vec![(-1, 0), (1, 0), (0, -1), (0, 1), (-128, 127)];
    assert_eq!(
        neighbour_list(3, 2, 0, 0, &offsets),
        vec![None, Some(1), None, Some(3), None]
    );
    assert_eq!(
        neighbour_list(3, 2, 2, 1, &offsets),
        vec![Some(4), None, Some(2), None, None]
    );
    assert!(neighbour_list(3, 2, 1, 1, &vec![]).is_empty());
}

#[test]
fn cadence_fires_every_interval() {
    let mut c = Cadence::new(10, 4);
    assert_eq!(c.every, 2);
    let fired: Vec<bool> = (0..10).map(|_| c.tick()).collect();
    assert_eq!(
        fired,
        vec![false, true, false, true, false, true, false, true, false, true]
    );
    let mut never = Cadence::new(2, 5);
    assert!(!never.tick());
    assert!(!never.tick());
}

#[test]
fn concat_joins_rows() {
    let data = vec![
        vec!["a".to_string(), "bc".to_string()],
        vec!["".to_string(), "d".to_string()],
    ];
    assert_eq!(rs_isl::text::concat(data), "a,bc\n,d\n");
    assert_eq!(rs_isl::text::concat(vec![]), "");
    assert_eq!(rs_isl::text::concat(vec![vec![]]), "\n");
}

#[test]
fn grid_cells_are_wired_and_stepped() {
    let op = WithCall::new(|num: &i32, nb: Vec<Option<&i32>>| {
        nb.iter().map(|n| n.copied().unwrap_or(100)).sum::<i32>() + *num
    });
    let mut grid = Grid::new(
        (2, 2),
        op,
        4,
        |x: usize, y: usize| (x + 2 * y) as i32,
        1,
        1,
        vec![(1, 0), (0, 1)],
        OutputType::RawData,
    )
    .ok()
    .unwrap();
    assert_eq!(grid.values, vec![0, 1, 2, 3]);
    assert_eq!(grid.cells.len(), 4);
    for c in &grid.cells {
        assert_eq!(c.neighbours.len(), 2);
    }
    assert_eq!(grid.cells[0].neighbours, vec![Some(1), Some(2)]);
    assert_eq!(grid.cells[3].neighbours, vec![None, None]);
    grid.step();
    assert_eq!(grid.values, vec![0 + 1 + 2, 1 + 100 + 3, 2 + 3 + 100, 3 + 200]);
    assert_eq!(grid.snapshot(), vec![vec![3, 104], vec![105, 203]]);
    assert_eq!(grid.text_snapshot(), "3,104\n105,203\n");
}

#[test]
fn worker_phases_follow_the_barrier_order() {
    // 4 steps, a snapshot every 2 steps
    let mut w0 = Worker::new(0, 4, 2);
    let mut w1 = Worker::new(1, 4, 2);
    let mut seen0 = vec![];
    let mut seen1 = vec![];
    while w0.phase != Phase::Done {
        seen0.push(w0.phase);
        w0.advance();
    }
    while w1.phase != Phase::Done {
        seen1.push(w1.phase);
        w1.advance();
    }
    let round = [
        Phase::AwaitStart,
        Phase::Compute,
        Phase::AwaitSync,
        Phase::Commit,
        Phase::AwaitWrite,
    ];
    let mut expected0 = vec![];
    let mut expected1 = vec![];
    for step in 1..=4 {
        expected0.extend_from_slice(&round);
        expected1.extend_from_slice(&round);
        if step % 2 == 0 {
            expected0.push(Phase::Sample);
        }
    }
    assert_eq!(seen0, expected0);
    assert_eq!(seen1, expected1);
    assert_eq!(w0.step, 4);
    assert_eq!(Worker::new(0, 0, 1).phase, Phase::Done);
}
