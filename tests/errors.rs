use rs_isl::{run_isl, IslParams, OutputType};

#[test]
fn errors_wrong_thread_number_errors() {
    let op = |_num: &f32, _nb: Vec<Option<&f32>>| 0.0;
    let init = |_x: usize, _y: usize| 0.0;

    let params = IslParams::new(
        (100, 100),
        op,
        17,
        init,
        1,
        1,
        vec![],
        OutputType::RawData,
    );

    let data = run_isl(params);

    assert!(data.is_err());
}

#[test]
fn error_message_names_the_cause() {
    let op = |_num: &f32, _nb: Vec<Option<&f32>>| 0.0;
    let init = |_x: usize, _y: usize| 0.0;
    let params = IslParams::new((100, 100), op, 17, init, 1, 1, vec![], OutputType::String);
    let err = run_isl(params).err().unwrap();
    assert_eq!(
        err.message(),
        "Size of domain (x*y) was not divisible by the number of threads"
    );
}

#[test]
fn blocks_that_do_not_divide_an_axis_are_refused() {
    // 1 x 4 cells split among 2 workers: one block row of two block columns,
    // but a single column cannot be split in two.
    let op = |num: &i64, _nb: Vec<Option<&i64>>| *num;
    let init = |_x: usize, _y: usize| 0i64;
    let params = IslParams::new((1, 4), op, 2, init, 1, 1, vec![], OutputType::RawData);
    assert!(run_isl(params).is_err());
}
