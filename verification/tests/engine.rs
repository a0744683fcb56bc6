use grid_judge::buffer::Buffer;
use grid_judge::model::ChangeRecord;
use grid_judge::mt::MT;

fn two_by_two() -> Buffer {
    let mut b = Buffer::new();
    b.set_first_state(vec![1, 2, 3, 4], 2);
    b.set_b_state(vec![1, 2, 3, 5]);
    b.set_op(vec![1, 1, 4, 5]);
    b
}

/// Three by three, with a catalog of four entries.
fn three_by_three() -> Buffer {
    let mut b = Buffer::new();
    b.set_first_state(vec![0, 1, 0, 1, 0, 1, 0, 1, 0], 3);
    b.set_b_state(vec![2, 2, 2, 2, 2, 2, 2, 2, 2]);
    b.set_op(vec![
        2, 2, 0, 2, // entry 0: 2 x 2, 0 -> 2
        3, 3, 1, 2, // entry 1: 3 x 3, 1 -> 2
        1, 3, 2, 0, // entry 2: 1 x 3, 2 -> 0
        2, 2, 7, 8, // entry 3: 2 x 2, 7 -> 8
    ]);
    b
}

/// Applies the first `steps` steps to the instance, cell by cell.
fn replay(n: usize, initial: &[u32], catalog: &[u32], applications: &[u32], steps: usize) -> Vec<u32> {
    let mut grid = initial.to_vec();
    for step in applications.chunks(3).take(steps) {
        let entry = &catalog[step[0] as usize * 4..step[0] as usize * 4 + 4];
        for i in 0..entry[0] as usize {
            for j in 0..entry[1] as usize {
                let cell = (step[1] as usize + i) * n + step[2] as usize + j;
                if grid[cell] == entry[2] {
                    grid[cell] = entry[3];
                }
            }
        }
    }
    grid
}

/// A generated instance and `count` steps that fit it.
fn generated_with_steps(seed: u32, count: usize) -> (Buffer, Vec<u32>) {
    let mut b = Buffer::new();
    b.random_gen(seed);
    let n = b.size() as u32;
    let mut mt = MT::new(seed ^ 0x5555_5555);
    let mut applications = Vec::new();
    for _ in 0..count {
        let op = mt.gen_u32() % 3000;
        let height = b.catalog()[op as usize * 4];
        let width = b.catalog()[op as usize * 4 + 1];
        applications.push(op);
        applications.push(mt.gen_u32() % (n - height + 1));
        applications.push(mt.gen_u32() % (n - width + 1));
    }
    (b, applications)
}

#[test]
fn new_engine_is_all_zero() {
    let b = Buffer::new();
    assert_eq!(b.size(), 0);
    assert_eq!(b.first_state_ptr(), &[0u32; 3600][..]);
    assert_eq!(b.now_state_ptr(), &[0u32; 3600][..]);
    assert_eq!(b.b_state_ptr(), &[0u32; 3600][..]);
    assert_eq!(b.catalog(), &[0u32; 12000][..]);
    assert_eq!(b.get_time(), 0);
    assert_eq!(b.change_log().len(), 0);
    assert_eq!(b.revision_boundaries(), &[0usize][..]);
}

#[test]
fn one_step_on_two_by_two() {
    let mut b = two_by_two();
    assert!(b.accepts(&[0, 1, 1]));
    b.update_applications(vec![0, 1, 1]);
    assert_eq!(b.now_state_ptr(), &[1u32, 2, 3, 5][..]);
    assert_eq!(b.first_state_ptr(), &[1u32, 2, 3, 4][..]);
    assert_eq!(b.change_log(), &[ChangeRecord { cell: 3, op: 0 }][..]);
    assert_eq!(b.revision_boundaries(), &[0usize, 1][..]);
    assert_eq!(b.get_time(), 1);
}

#[test]
fn records_come_in_row_major_order() {
    let mut b = three_by_three();
    // Entry 1 on the whole grid rewrites the four cells that hold 1.
    b.update_applications(vec![1, 0, 0]);
    assert_eq!(b.now_state_ptr(), &[0u32, 2, 0, 2, 0, 2, 0, 2, 0][..]);
    assert_eq!(
        b.change_log(),
        &[
            ChangeRecord { cell: 1, op: 1 },
            ChangeRecord { cell: 3, op: 1 },
            ChangeRecord { cell: 5, op: 1 },
            ChangeRecord { cell: 7, op: 1 },
        ][..]
    );
    assert_eq!(b.revision_boundaries(), &[0usize, 4][..]);
}

#[test]
fn several_steps_build_one_log() {
    let mut b = three_by_three();
    let applications = vec![
        0, 0, 0, // cells 0 and 4 become 2
        0, 1, 1, // cell 8 becomes 2; cell 4 already is
        2, 1, 0, // row 1: cell 4 back to 0
        1, 0, 0, // cells 1, 3, 5, 7 become 2
    ];
    assert!(b.accepts(&applications));
    b.update_applications(applications);
    assert_eq!(b.now_state_ptr(), &[2u32, 2, 0, 2, 0, 2, 0, 2, 2][..]);
    assert_eq!(
        b.change_log(),
        &[
            ChangeRecord { cell: 0, op: 0 },
            ChangeRecord { cell: 4, op: 0 },
            ChangeRecord { cell: 8, op: 0 },
            ChangeRecord { cell: 4, op: 2 },
            ChangeRecord { cell: 1, op: 1 },
            ChangeRecord { cell: 3, op: 1 },
            ChangeRecord { cell: 5, op: 1 },
            ChangeRecord { cell: 7, op: 1 },
        ][..]
    );
    assert_eq!(b.revision_boundaries(), &[0usize, 2, 3, 4, 8][..]);
    assert_eq!(b.get_time(), 4);
}

#[test]
fn seek_visits_every_step() {
    let mut b = three_by_three();
    b.update_applications(vec![0, 0, 0, 0, 1, 1, 2, 1, 0, 1, 0, 0]);
    let expected: [[u32; 9]; 5] = [
        [0, 1, 0, 1, 0, 1, 0, 1, 0],
        [2, 1, 0, 1, 2, 1, 0, 1, 0],
        [2, 1, 0, 1, 2, 1, 0, 1, 2],
        [2, 1, 0, 1, 0, 1, 0, 1, 2],
        [2, 2, 0, 2, 0, 2, 0, 2, 2],
    ];
    for time in [4usize, 0, 2, 3, 1, 4, 1, 0, 3, 2] {
        assert!(b.set_time(time));
        assert_eq!(b.get_time(), time);
        assert_eq!(b.now_state_ptr(), &expected[time][..]);
    }
    // The log and the boundaries are not touched by seeking.
    assert_eq!(b.change_log().len(), 8);
    assert_eq!(b.revision_boundaries(), &[0usize, 2, 3, 4, 8][..]);
}

#[test]
fn seek_past_the_end_is_refused() {
    let mut b = two_by_two();
    b.update_applications(vec![0, 1, 1]);
    assert!(!b.set_time(2));
    assert!(!b.set_time(3));
    assert!(!b.set_time(usize::MAX));
    assert_eq!(b.get_time(), 1);
    assert_eq!(b.now_state_ptr(), &[1u32, 2, 3, 5][..]);
    assert!(b.set_time(0));
    assert!(!b.set_time(2));
    assert_eq!(b.get_time(), 0);
    assert_eq!(b.now_state_ptr(), &[1u32, 2, 3, 4][..]);
}

#[test]
fn seek_on_an_unbound_engine() {
    let mut b = two_by_two();
    assert!(b.set_time(0));
    assert!(!b.set_time(1));
    assert_eq!(b.now_state_ptr(), &[1u32, 2, 3, 4][..]);
    let mut fresh = Buffer::new();
    assert!(fresh.set_time(0));
    assert!(!fresh.set_time(1));
}

#[test]
fn seek_there_and_back_and_there() {
    let (mut b, applications) = generated_with_steps(11, 40);
    let (mut direct, _) = generated_with_steps(11, 40);
    assert!(b.accepts(&applications));
    b.update_applications(applications.clone());
    direct.update_applications(applications.clone());
    for s in [0usize, 1, 7, 20, 39, 40] {
        assert!(b.set_time(s));
        assert!(b.set_time(0));
        assert_eq!(b.now_state_ptr(), b.first_state_ptr());
        assert!(b.set_time(s));
        assert!(direct.set_time(s));
        assert_eq!(b.now_state_ptr(), direct.now_state_ptr());
        let expected = replay(b.size(), b.first_state_ptr(), b.catalog(), &applications, s);
        assert_eq!(b.now_state_ptr(), &expected[..]);
    }
}

#[test]
fn seek_twice_changes_nothing() {
    let (mut b, applications) = generated_with_steps(3, 25);
    b.update_applications(applications);
    for s in [25usize, 0, 13] {
        assert!(b.set_time(s));
        let grid = b.now_state_ptr().to_vec();
        assert!(b.set_time(s));
        assert_eq!(b.get_time(), s);
        assert_eq!(b.now_state_ptr(), &grid[..]);
    }
}

#[test]
fn every_prefix_matches_a_plain_replay() {
    for seed in [1u32, 2, 5489] {
        let (mut b, applications) = generated_with_steps(seed, 60);
        assert!(b.accepts(&applications));
        b.update_applications(applications.clone());
        assert_eq!(b.get_time(), 60);
        assert_eq!(b.revision_boundaries().len(), 61);
        assert_eq!(b.revision_boundaries()[0], 0);
        assert_eq!(b.revision_boundaries()[60], b.change_log().len());
        assert!(b.revision_boundaries().windows(2).all(|w| w[0] <= w[1]));
        for s in (0..=60).rev() {
            assert!(b.set_time(s));
            let expected = replay(b.size(), b.first_state_ptr(), b.catalog(), &applications, s);
            assert_eq!(b.now_state_ptr(), &expected[..]);
        }
        // Each record tells a cell that the step really changed.
        for s in 0..60 {
            let before = replay(b.size(), b.first_state_ptr(), b.catalog(), &applications, s);
            let from = b.catalog()[applications[3 * s] as usize * 4 + 2];
            let records = &b.change_log()[b.revision_boundaries()[s]..b.revision_boundaries()[s + 1]];
            for record in records {
                assert_eq!(record.op, applications[3 * s] as usize);
                assert_eq!(before[record.cell], from);
            }
            let hits = before.iter().enumerate().filter(|(cell, value)| {
                let row = cell / b.size();
                let col = cell % b.size();
                let entry = &b.catalog()[applications[3 * s] as usize * 4..];
                **value == from
                    && applications[3 * s + 1] as usize <= row
                    && row < (applications[3 * s + 1] + entry[0]) as usize
                    && applications[3 * s + 2] as usize <= col
                    && col < (applications[3 * s + 2] + entry[1]) as usize
            });
            let cells: Vec<usize> = hits.map(|(cell, _)| cell).collect();
            let logged: Vec<usize> = records.iter().map(|r| r.cell).collect();
            assert_eq!(logged, cells);
        }
    }
}

#[test]
fn idle_step_logs_nothing() {
    let mut b = three_by_three();
    // Entry 3 looks for 7, which no cell holds.
    b.update_applications(vec![0, 0, 0, 3, 1, 1, 3, 0, 0, 0, 1, 1]);
    assert_eq!(b.revision_boundaries(), &[0usize, 2, 2, 2, 3][..]);
    assert_eq!(b.change_log().len(), 3);
    assert!(b.set_time(1));
    let after_first = b.now_state_ptr().to_vec();
    assert!(b.set_time(2));
    assert_eq!(b.now_state_ptr(), &after_first[..]);
    assert!(b.set_time(3));
    assert_eq!(b.now_state_ptr(), &after_first[..]);
}

#[test]
fn only_idle_steps() {
    let mut b = three_by_three();
    b.update_applications(vec![3, 0, 0, 3, 1, 1]);
    assert_eq!(b.revision_boundaries(), &[0usize, 0, 0][..]);
    assert_eq!(b.change_log().len(), 0);
    assert_eq!(b.get_time(), 2);
    assert_eq!(b.now_state_ptr(), b.first_state_ptr());
}

#[test]
fn rewrite_to_the_same_value_is_logged() {
    let mut b = Buffer::new();
    b.set_first_state(vec![5, 5, 1, 5], 2);
    b.set_op(vec![2, 2, 5, 5]);
    b.update_applications(vec![0, 0, 0]);
    assert_eq!(b.now_state_ptr(), &[5u32, 5, 1, 5][..]);
    assert_eq!(b.change_log().len(), 3);
    assert_eq!(b.revision_boundaries(), &[0usize, 3][..]);
    assert!(b.set_time(0));
    assert_eq!(b.now_state_ptr(), &[5u32, 5, 1, 5][..]);
}

#[test]
fn no_steps_at_all() {
    let mut b = two_by_two();
    assert!(b.accepts(&[]));
    b.update_applications(vec![]);
    assert_eq!(b.get_time(), 0);
    assert_eq!(b.revision_boundaries(), &[0usize][..]);
    assert_eq!(b.now_state_ptr(), &[1u32, 2, 3, 4][..]);
}

#[test]
fn empty_rectangle_changes_nothing() {
    let mut b = Buffer::new();
    b.set_first_state(vec![1, 1, 1, 1], 2);
    b.set_op(vec![0, 2, 1, 9, 2, 0, 1, 9]);
    assert!(b.accepts(&[0, 2, 0, 1, 0, 2]));
    b.update_applications(vec![0, 2, 0, 1, 0, 2]);
    assert_eq!(b.now_state_ptr(), &[1u32, 1, 1, 1][..]);
    assert_eq!(b.revision_boundaries(), &[0usize, 0, 0][..]);
}

#[test]
fn binding_again_starts_from_the_initial_grid() {
    let mut b = three_by_three();
    b.update_applications(vec![1, 0, 0]);
    b.update_applications(vec![0, 0, 0]);
    assert_eq!(b.now_state_ptr(), &[2u32, 1, 0, 1, 2, 1, 0, 1, 0][..]);
    assert_eq!(b.change_log().len(), 2);
    assert_eq!(b.revision_boundaries(), &[0usize, 2][..]);
    assert_eq!(b.get_time(), 1);
}

#[test]
fn setters_reset_the_timeline() {
    let mut b = three_by_three();
    b.update_applications(vec![1, 0, 0]);
    b.set_b_state(vec![9; 9]);
    assert_eq!(b.get_time(), 0);
    assert_eq!(b.change_log().len(), 0);
    assert_eq!(b.revision_boundaries(), &[0usize][..]);
    assert_eq!(b.now_state_ptr(), b.first_state_ptr());
    assert_eq!(b.b_state_ptr(), &[9u32; 9][..]);
    assert!(!b.set_time(1));

    b.update_applications(vec![1, 0, 0]);
    b.set_op(vec![1, 1, 0, 1]);
    assert_eq!(b.get_time(), 0);
    assert_eq!(b.change_log().len(), 0);
    assert_eq!(b.now_state_ptr(), b.first_state_ptr());
    assert_eq!(b.catalog(), &[1u32, 1, 0, 1][..]);

    b.update_applications(vec![0, 0, 0]);
    b.set_first_state(vec![4, 4, 4, 4], 2);
    assert_eq!(b.size(), 2);
    assert_eq!(b.get_time(), 0);
    assert_eq!(b.change_log().len(), 0);
    assert_eq!(b.now_state_ptr(), &[4u32, 4, 4, 4][..]);
    assert_eq!(b.first_state_ptr(), &[4u32, 4, 4, 4][..]);
}

#[test]
fn steps_out_of_bounds_are_not_accepted() {
    let b = three_by_three();
    // not a whole number of triples
    assert!(!b.accepts(&[0, 0]));
    assert!(!b.accepts(&[0, 0, 0, 1]));
    // no such entry
    assert!(!b.accepts(&[4, 0, 0]));
    assert!(!b.accepts(&[u32::MAX, 0, 0]));
    // rectangle leaves the grid
    assert!(!b.accepts(&[0, 2, 0]));
    assert!(!b.accepts(&[0, 0, 2]));
    assert!(!b.accepts(&[1, 0, 1]));
    assert!(!b.accepts(&[0, u32::MAX, 0]));
    assert!(!b.accepts(&[0, 0, 0, 0, 1, 1, 0, 1, 2]));
    // at the edge
    assert!(b.accepts(&[0, 1, 1]));
    assert!(b.accepts(&[1, 0, 0]));
    assert!(b.accepts(&[2, 2, 0]));
}

#[test]
fn steps_need_a_grid_of_n_times_n_cells() {
    let mut b = Buffer::new();
    b.set_first_state(vec![1, 2, 3], 2);
    b.set_op(vec![1, 1, 1, 2]);
    assert!(b.accepts(&[]));
    assert!(!b.accepts(&[0, 0, 0]));
    b.set_first_state(vec![1, 2, 3, 4, 5], 2);
    assert!(b.accepts(&[0, 0, 0]));
    b.update_applications(vec![0, 0, 0]);
    assert_eq!(b.now_state_ptr(), &[2u32, 2, 3, 4, 5][..]);
    b.set_first_state(vec![1, 2, 3, 4], usize::MAX);
    assert!(!b.accepts(&[0, 0, 0]));
}

#[test]
fn catalog_with_a_partial_entry() {
    let mut b = Buffer::new();
    b.set_first_state(vec![1, 2, 3, 4], 2);
    b.set_op(vec![1, 1, 1, 2, 1, 1, 2]);
    assert!(b.accepts(&[0, 0, 0]));
    assert!(!b.accepts(&[1, 0, 0]));
}
