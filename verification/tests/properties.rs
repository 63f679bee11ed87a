use bf::{eval, eval_with_input};

#[test]
fn test_determinism_same_run_twice() {
    let src = "+++++[>+++[>+++<-]<-]";
    let first = eval(src, 3).unwrap();
    let second = eval(src, 3).unwrap();
    assert_eq!(first.cells, second.cells);
    assert_eq!(first.cell_pos, second.cell_pos);
    assert_eq!(first.output, second.output);
}

#[test]
fn test_read_write_round_trip() {
    let actual = eval_with_input(",.", 1, vec![65]).unwrap();
    assert_eq!(actual.output, vec![65]);
    assert_eq!(actual.cells, vec![65]);
}

#[test]
fn test_read_write_round_trip_several_bytes() {
    let actual = eval_with_input(",.,.,.", 1, vec![3, 1, 255]).unwrap();
    assert_eq!(actual.output, vec![3, 1, 255]);
}

#[test]
fn test_output_order_matches_execution_order() {
    let actual = eval("+.+.+.", 1).unwrap();
    assert_eq!(actual.output, vec![1, 2, 3]);
}
