use rs_isl::{run_isl, IslOutput, IslParams, OutputType};

#[test]
fn valid_result() {
    let size = (4, 1);
    let neighbours = vec![(-1, 0)];

    let op = |_num: &f64, nb: Vec<Option<&f64>>| {
        if nb.first().unwrap().is_some() {
            let f = *nb[0].unwrap();

            if f != 0.0 {
                return 1.0;
            }
        }
        0.0
    };

    let init = |x: usize, _y: usize| {
        if x == 0 {
            return 1.0;
        }
        0.0
    };

    let params = IslParams::new(size, op, 1, init, 4, 4, neighbours, OutputType::RawData);

    let data = run_isl(params);

    let expected = vec![
        vec![vec![0.0, 1.0, 0.0, 0.0]],
        vec![vec![0.0, 0.0, 1.0, 0.0]],
        vec![vec![0.0, 0.0, 0.0, 1.0]],
        vec![vec![0.0, 0.0, 0.0, 0.0]],
    ];

    match data.unwrap() {
        IslOutput::RawData(vec) => assert_eq!(vec, expected),
        IslOutput::String(_vec) => {
            panic!("wrong data type was returned")
        }
    }
}

#[test]
fn left_to_right_wrong_thread_number_errors() {
    let op = |_num: &f64, _nb: Vec<Option<&f64>>| 0.0;
    let init = |_x: usize, _y: usize| 0.0;

    let params = IslParams::new((100, 100), op, 17, init, 1, 1, vec![], OutputType::RawData);

    let data = run_isl(params);

    assert!(data.is_err());
}

#[test]
fn every_cell_grows_by_one() {
    let op = |num: &f64, _nb: Vec<Option<&f64>>| *num + 1.0;
    let init = |x: usize, y: usize| (x + 10 * y) as f64;
    let params = IslParams::new((2, 2), op, 1, init, 1, 1, vec![], OutputType::RawData);
    match run_isl(params).unwrap() {
        IslOutput::RawData(snaps) => {
            assert_eq!(snaps, vec![vec![vec![1.0, 2.0], vec![11.0, 12.0]]]);
        }
        IslOutput::String(_) => panic!("wrong data type was returned"),
    }
}

#[test]
fn wave_moves_the_same_with_any_worker_count() {
    // a wave travelling right and down on a 12 x 12 grid
    let op = |num: &i64, nb: Vec<Option<&i64>>| {
        let left = nb[0].copied().unwrap_or(0);
        let up = nb[1].copied().unwrap_or(0);
        (left + up + *num) % 1000
    };
    let init = |x: usize, y: usize| if x == 0 && y == 0 { 1i64 } else { 0 };
    let mut results = vec![];
    for runners in [1, 2, 3, 4, 6, 8, 9, 12, 16, 24, 36, 144] {
        let params = IslParams::new(
            (12, 12),
            op,
            runners,
            init,
            9,
            3,
            vec![(-1, 0), (0, -1)],
            OutputType::RawData,
        );
        match run_isl(params).unwrap() {
            IslOutput::RawData(snaps) => results.push(snaps),
            IslOutput::String(_) => panic!("wrong data type was returned"),
        }
    }
    assert_eq!(results[0].len(), 3);
    for r in &results {
        assert_eq!(r, &results[0]);
    }
    // after 3 steps the first snapshot holds the binomial spread
    assert_eq!(results[0][0][0][0], 1);
    assert_eq!(results[0][0][0][1], 3);
    assert_eq!(results[0][0][1][1], 6);
}

#[test]
fn snapshots_as_text() {
    let op = |num: &i32, nb: Vec<Option<&i32>>| match nb[0] {
        Some(v) => *v,
        None => *num,
    };
    let init = |x: usize, y: usize| (x + 3 * y) as i32;
    let params = IslParams::new((3, 2), op, 1, init, 2, 2, vec![(1, 0)], OutputType::String);
    match run_isl(params).unwrap() {
        IslOutput::String(texts) => {
            assert_eq!(texts, vec!["1,2,2\n4,5,5\n".to_string(), "2,2,2\n5,5,5\n".to_string()]);
        }
        IslOutput::RawData(_) => panic!("wrong data type was returned"),
    }
}

#[test]
fn snapshot_count_follows_the_interval() {
    let op = |num: &u32, _nb: Vec<Option<&u32>>| *num + 1;
    let init = |_x: usize, _y: usize| 0u32;
    // every 10 / 4 = 2 steps: five snapshots, after steps 2, 4, 6, 8 and 10
    let params = IslParams::new((2, 1), op, 2, init, 10, 4, vec![], OutputType::RawData);
    match run_isl(params).unwrap() {
        IslOutput::RawData(snaps) => {
            assert_eq!(snaps.len(), 5);
            let firsts: Vec<u32> = snaps.iter().map(|s| s[0][0]).collect();
            assert_eq!(firsts, vec![2, 4, 6, 8, 10]);
        }
        IslOutput::String(_) => panic!("wrong data type was returned"),
    }
    // 10 / 3 = 3 steps apart: three snapshots, the last partial interval is dropped
    let params = IslParams::new((2, 1), op, 1, init, 10, 3, vec![], OutputType::RawData);
    match run_isl(params).unwrap() {
        IslOutput::RawData(snaps) => {
            let firsts: Vec<u32> = snaps.iter().map(|s| s[0][0]).collect();
            assert_eq!(firsts, vec![3, 6, 9]);
        }
        IslOutput::String(_) => panic!("wrong data type was returned"),
    }
    // more snapshots asked for than steps: none
    let params = IslParams::new((2, 1), op, 1, init, 2, 5, vec![], OutputType::RawData);
    match run_isl(params).unwrap() {
        IslOutput::RawData(snaps) => assert!(snaps.is_empty()),
        IslOutput::String(_) => panic!("wrong data type was returned"),
    }
}
