use grid_judge::buffer::Buffer;
use grid_judge::parse::{
    instance_from_table, parse_instance, parse_output, read_table, steps_from_table, Instance,
    MalformedInput,
};
use grid_judge::text::instance_to_string;

fn small() -> Buffer {
    let mut b = Buffer::new();
    b.set_first_state(vec![1, 2, 3, 4], 2);
    b.set_b_state(vec![1, 2, 3, 5]);
    b.set_op(vec![1, 1, 4, 5, 2, 1, 10, 49]);
    b
}

#[test]
fn text_of_a_small_instance() {
    assert_eq!(small().to_string(), "2 2\n1 2 \n3 4 \n1 2 \n3 5 \n1 1 4 5\n2 1 10 49\n");
}

#[test]
fn text_of_a_new_engine() {
    let text = Buffer::new().to_string();
    assert!(text.starts_with("0 3000\n0 0 0 0\n0 0 0 0\n"));
    assert_eq!(text.len(), 7 + 3000 * 8);
    assert_eq!(text.lines().count(), 3001);
}

#[test]
fn text_leaves_out_the_steps() {
    let mut b = small();
    let before = b.to_string();
    b.update_applications(vec![0, 1, 1]);
    assert_eq!(b.to_string(), before);
}

#[test]
fn text_holds_the_first_n_times_n_cells() {
    let text = instance_to_string(1, &[7, 8, 9], &[4, 5], &[]);
    assert_eq!(text, "1 0\n7 \n4 \n");
}

#[test]
fn numbers_are_written_in_full() {
    let text = instance_to_string(1, &[0], &[4294967295], &[10, 100, 1000, 1234567890]);
    assert_eq!(text, "1 1\n0 \n4294967295 \n10 100 1000 1234567890\n");
}

#[test]
fn small_instance_reads_back() {
    let b = small();
    assert_eq!(
        parse_instance(&b.to_string()),
        Ok(Instance {
            n: 2,
            initial: vec![1, 2, 3, 4],
            target: vec![1, 2, 3, 5],
            operations: vec![1, 1, 4, 5, 2, 1, 10, 49],
        })
    );
}

#[test]
fn read_back_keeps_the_first_n_times_n_cells() {
    let mut b = Buffer::new();
    b.set_first_state(vec![1, 2, 3, 4, 5, 6], 2);
    b.set_b_state(vec![9, 8, 7, 6, 5]);
    b.set_op(vec![]);
    let instance = parse_instance(&b.to_string()).unwrap();
    assert_eq!(instance.n, 2);
    assert_eq!(instance.initial, vec![1, 2, 3, 4]);
    assert_eq!(instance.target, vec![9, 8, 7, 6]);
    assert_eq!(instance.operations, Vec::<u32>::new());
}

#[test]
fn instance_without_trailing_blanks() {
    let instance = parse_instance("2 1\n1 2\n3 4\n5 6\n7 8\n1 2 3 4").unwrap();
    assert_eq!(instance.n, 2);
    assert_eq!(instance.initial, vec![1, 2, 3, 4]);
    assert_eq!(instance.target, vec![5, 6, 7, 8]);
    assert_eq!(instance.operations, vec![1, 2, 3, 4]);
}

#[test]
fn blanks_and_blank_lines_are_skipped() {
    let instance = parse_instance("\n  1\t1 \r\n\n 7\r\n\t8\n \n 1  1   7 8 \n\n").unwrap();
    assert_eq!(instance.n, 1);
    assert_eq!(instance.initial, vec![7]);
    assert_eq!(instance.target, vec![8]);
    assert_eq!(instance.operations, vec![1, 1, 7, 8]);
}

#[test]
fn leading_zeros_are_read() {
    let instance = parse_instance("01 0\n007\n0\n").unwrap();
    assert_eq!(instance.initial, vec![7]);
    assert_eq!(instance.target, vec![0]);
}

#[test]
fn instance_of_size_zero() {
    assert_eq!(
        parse_instance("0 0\n"),
        Ok(Instance { n: 0, initial: vec![], target: vec![], operations: vec![] })
    );
    assert_eq!(
        parse_instance("0 1\n3 3 1 2\n"),
        Ok(Instance { n: 0, initial: vec![], target: vec![], operations: vec![3, 3, 1, 2] })
    );
}

#[test]
fn malformed_instances_are_refused() {
    let refused = [
        "",
        "\n",
        "2\n",
        "x",
        "1 0\n7\n",                  // target grid missing
        "1 0\n7\n8\n9\n",            // a line too many
        "1 0 5\n7\n8\n",             // header with three numbers
        "2 0\n1 2\n3\n1 2\n3 4\n",   // short row
        "2 0\n1 2 3\n4\n1 2\n3 4\n", // long row
        "1 1\n7\n8\n1 2 3\n",        // entry with three numbers
        "1 1\n7\n8\n1 2 3 4 5\n",    // entry with five numbers
        "1 1\n7\n8\n",               // entry missing
        "1 0\n-7\n8\n",              // sign
        "1 0\n+7\n8\n",
        "1 0\n7.0\n8\n",
        "1 0\n7,\n8\n",
        "1 0\n4294967296\n8\n",      // above 32 bits
        "1 0\n7\n99999999999999999999999\n",
        "18446744073709551616 0\n",  // above 64 bits
        "18446744073709551615 0\n",
        "1 18446744073709551615\n7\n8\n",
        "1 0\n7\n8\u{a0}\n",         // not ASCII
        "1 0\n7\n\u{0}8\n",
    ];
    for text in refused {
        assert_eq!(parse_instance(text), Err(MalformedInput), "{:?}", text);
    }
}

#[test]
fn largest_cell_value_is_read() {
    let instance = parse_instance("1 0\n4294967295\n0\n").unwrap();
    assert_eq!(instance.initial, vec![u32::MAX]);
}

#[test]
fn answer_with_steps() {
    assert_eq!(parse_output("2\n0 1 1\n5 0 3\n"), Ok(vec![0, 1, 1, 5, 0, 3]));
    assert_eq!(parse_output("2\r\n0 1 1\r\n5 0 3"), Ok(vec![0, 1, 1, 5, 0, 3]));
    assert_eq!(parse_output(" 1 \n\n 2999\t59  59 \n\n"), Ok(vec![2999, 59, 59]));
    assert_eq!(parse_output("1\n4294967295 4294967295 4294967295\n"), Ok(vec![u32::MAX; 3]));
}

#[test]
fn answer_without_steps() {
    assert_eq!(parse_output("0\n"), Ok(vec![]));
    assert_eq!(parse_output("0"), Ok(vec![]));
}

#[test]
fn malformed_answers_are_refused() {
    let refused = [
        "",
        "\n\n",
        "1\n",                  // step missing
        "1\n0 1 1\n0 1 1\n",    // a step too many
        "2\n0 1 1\n",           // a step too few
        "1\n0 1\n",             // two numbers
        "1\n0 1 1 1\n",         // four numbers
        "1 0 1 1\n",            // all on the header line
        "1\n0 1\n1\n",          // a step over two lines
        "1 1\n0 1 1\n",         // header with two numbers
        "one\n",
        "1\n0 1 -1\n",
        "1\n0 1 4294967296\n",
        "1\n0 1 1;\n",
        "18446744073709551616\n",
    ];
    for text in refused {
        assert_eq!(parse_output(text), Err(MalformedInput), "{:?}", text);
    }
}

#[test]
fn parsed_answer_can_be_played() {
    let mut b = small();
    let steps = parse_output("1\n0 1 1\n").unwrap();
    assert!(b.accepts(&steps));
    b.update_applications(steps);
    assert_eq!(b.now_state_ptr(), b.b_state_ptr());
}

#[test]
fn table_of_a_text() {
    assert_eq!(read_table(b""), Some(vec![]));
    assert_eq!(read_table(b" \n\t\n"), Some(vec![]));
    assert_eq!(read_table(b"1 2\n\n3"), Some(vec![vec![1, 2], vec![3]]));
    assert_eq!(read_table(b"12 034\r\n5\x0b6\x0c7\n"), Some(vec![vec![12, 34], vec![5, 6, 7]]));
    assert_eq!(
        read_table(b"18446744073709551615"),
        Some(vec![vec![18_446_744_073_709_551_615]])
    );
    assert_eq!(read_table(b"18446744073709551616"), None);
    assert_eq!(read_table(b"184467440737095516150"), None);
    assert_eq!(read_table(b"1 2\n3 a"), None);
    assert_eq!(read_table(b"1 2\n3 4\x00"), None);
    assert_eq!(read_table(&[49, 200]), None);
}

#[test]
fn tables_of_the_wrong_shape() {
    assert_eq!(instance_from_table(&vec![]), Err(MalformedInput));
    assert_eq!(instance_from_table(&vec![vec![1, 0], vec![1]]), Err(MalformedInput));
    assert_eq!(instance_from_table(&vec![vec![1, 0], vec![1 << 32], vec![2]]), Err(MalformedInput));
    assert_eq!(
        instance_from_table(&vec![vec![1, 0], vec![1], vec![2]]),
        Ok(Instance { n: 1, initial: vec![1], target: vec![2], operations: vec![] })
    );
    assert_eq!(steps_from_table(&vec![]), Err(MalformedInput));
    assert_eq!(steps_from_table(&vec![vec![1], vec![1, 2]]), Err(MalformedInput));
    assert_eq!(steps_from_table(&vec![vec![1], vec![1, 2, 1 << 32]]), Err(MalformedInput));
    assert_eq!(steps_from_table(&vec![vec![1], vec![1, 2, 3]]), Ok(vec![1, 2, 3]));
}
