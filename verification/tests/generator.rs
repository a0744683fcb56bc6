use grid_judge::buffer::Buffer;
use grid_judge::mt::MT;
use grid_judge::parse::parse_instance;

fn checksum(text: &str) -> u64 {
    text.bytes().map(|b| b as u64).sum::<u64>() % 1_000_003
}

#[test]
fn reference_stream_of_seed_5489() {
    let mut mt = MT::new(5489);
    assert_eq!(mt.gen_u32(), 3499211612);
    assert_eq!(mt.gen_u32(), 581869302);
    assert_eq!(mt.gen_u32(), 3890346734);
}

#[test]
fn stream_of_other_seeds() {
    let mut zero = MT::new(0);
    assert_eq!(zero.gen_u32(), 2357136044);
    assert_eq!(zero.gen_u32(), 2546248239);
    assert_eq!(zero.gen_u32(), 3071714933);
    let mut max = MT::new(0xffff_ffff);
    assert_eq!(max.gen_u32(), 419326371);
    assert_eq!(max.gen_u32(), 479346978);
}

#[test]
fn stream_crosses_batch_boundaries() {
    let mut mt = MT::new(1);
    let mut values = Vec::new();
    for _ in 0..1300 {
        values.push(mt.gen_u32());
    }
    assert_eq!(values[623], 2006116153);
    assert_eq!(values[624], 1104314680);
    assert_eq!(values[1247], 1926754611);
    assert_eq!(values[1248], 3239719367);
}

#[test]
fn ten_thousandth_value_of_seed_5489() {
    let mut mt = MT::new(5489);
    let mut last = 0;
    for _ in 0..10000 {
        last = mt.gen_u32();
    }
    assert_eq!(last, 4123659995);
}

#[test]
fn twist_refreshes_the_batch() {
    // Twisting by hand before the first draw is what the first draw does.
    let mut by_hand = MT::new(5489);
    by_hand.twist();
    assert_eq!(by_hand.gen_u32(), 3499211612);
    assert_eq!(by_hand.gen_u32(), 581869302);
}

#[test]
fn two_generators_agree() {
    for seed in [0u32, 7, 5489, 123456789, 0xffff_ffff] {
        let mut a = MT::new(seed);
        let mut b = MT::new(seed);
        for _ in 0..2000 {
            assert_eq!(a.gen_u32(), b.gen_u32());
        }
    }
}

#[test]
fn instance_of_seed_5489() {
    let mut b = Buffer::new();
    b.random_gen(5489);
    // 3499211612 % 46 + 15
    assert_eq!(b.size(), 45);
    let initial = b.first_state_ptr();
    let target = b.b_state_ptr();
    let catalog = b.catalog();
    assert_eq!(initial.len(), 45 * 45);
    assert_eq!(target.len(), 45 * 45);
    assert_eq!(catalog.len(), 12000);
    // 581869302 % 50
    assert_eq!(initial[0], 2);
    assert_eq!(&initial[..5], &[2, 34, 35, 4, 41]);
    assert_eq!(&initial[45 * 45 - 3..], &[14, 27, 47]);
    assert_eq!(&target[..5], &[30, 5, 35, 41, 6]);
    assert_eq!(&target[45 * 45 - 3..], &[1, 6, 44]);
    assert_eq!(&catalog[..8], &[38, 6, 13, 14, 31, 18, 22, 20]);
    assert_eq!(&catalog[11996..], &[7, 16, 18, 45]);
    assert_eq!(b.now_state_ptr(), b.first_state_ptr());
}

#[test]
fn instances_of_other_seeds() {
    let mut b = Buffer::new();
    b.random_gen(0);
    assert_eq!(b.size(), 57);
    assert_eq!(&b.first_state_ptr()[..5], &[39, 33, 10, 13, 29]);
    assert_eq!(&b.b_state_ptr()[..5], &[42, 24, 26, 31, 11]);
    assert_eq!(&b.catalog()[..8], &[24, 20, 34, 7, 43, 49, 15, 31]);
    b.random_gen(1);
    assert_eq!(b.size(), 24);
    assert_eq!(&b.first_state_ptr()[..5], &[39, 24, 18, 13, 13]);
    assert_eq!(&b.b_state_ptr()[24 * 24 - 3..], &[34, 42, 24]);
    assert_eq!(&b.catalog()[11996..], &[24, 13, 13, 34]);
    b.random_gen(42);
    assert_eq!(b.size(), 31);
    assert_eq!(&b.first_state_ptr()[31 * 31 - 3..], &[38, 18, 16]);
    assert_eq!(&b.catalog()[..8], &[14, 11, 18, 24, 31, 26, 38, 37]);
}

#[test]
fn same_seed_same_instance() {
    let mut a = Buffer::new();
    let mut b = Buffer::new();
    // What an engine held before does not matter.
    b.set_first_state(vec![7, 7, 7, 7], 2);
    b.set_op(vec![1, 1, 7, 8]);
    b.update_applications(vec![0, 0, 0]);
    a.random_gen(42);
    b.random_gen(42);
    assert_eq!(a.size(), b.size());
    assert_eq!(a.first_state_ptr(), b.first_state_ptr());
    assert_eq!(a.b_state_ptr(), b.b_state_ptr());
    assert_eq!(a.catalog(), b.catalog());
    assert_eq!(a.to_string(), b.to_string());
    assert_eq!(b.get_time(), 0);
    assert_eq!(b.change_log().len(), 0);
    assert_eq!(b.revision_boundaries(), &[0usize][..]);
}

#[test]
fn generated_instances_are_in_range() {
    for seed in [0u32, 1, 2, 3, 5489, 99999, 0xffff_ffff] {
        let mut b = Buffer::new();
        b.random_gen(seed);
        let n = b.size();
        assert!((15..=60).contains(&n));
        assert_eq!(b.first_state_ptr().len(), n * n);
        assert_eq!(b.b_state_ptr().len(), n * n);
        assert_eq!(b.catalog().len(), 4 * 3000);
        assert!(b.first_state_ptr().iter().all(|v| *v < 50));
        assert!(b.b_state_ptr().iter().all(|v| *v < 50));
        for entry in b.catalog().chunks(4) {
            assert!(1 <= entry[0] && entry[0] as usize <= n);
            assert!(1 <= entry[1] && entry[1] as usize <= n);
            assert!(entry[2] < 50);
            assert!(entry[3] < 50);
        }
        assert_eq!(b.get_time(), 0);
        assert_eq!(b.change_log().len(), 0);
        assert_eq!(b.revision_boundaries(), &[0usize][..]);
    }
}

#[test]
fn text_of_generated_instances() {
    let mut b = Buffer::new();
    b.random_gen(5489);
    let text = b.to_string();
    assert_eq!(text.len(), 45027);
    assert_eq!(checksum(&text), 937366);
    assert!(text.starts_with("45 3000\n2 34 35 4 41 29 35 4"));
    assert!(text.ends_with("7 16 18 45\n"));
    b.random_gen(0);
    let text = b.to_string();
    assert_eq!(text.len(), 52173);
    assert_eq!(checksum(&text), 260995);
    b.random_gen(1);
    assert_eq!(b.to_string().len(), 35853);
    assert_eq!(checksum(&b.to_string()), 519478);
    b.random_gen(42);
    assert_eq!(b.to_string().len(), 38543);
    assert_eq!(checksum(&b.to_string()), 644012);
}

#[test]
fn generated_instances_read_back() {
    for seed in [0u32, 1, 42, 5489, 0xffff_ffff] {
        let mut b = Buffer::new();
        b.random_gen(seed);
        let instance = parse_instance(&b.to_string()).unwrap();
        assert_eq!(instance.n, b.size());
        assert_eq!(&instance.initial[..], b.first_state_ptr());
        assert_eq!(&instance.target[..], b.b_state_ptr());
        assert_eq!(&instance.operations[..], b.catalog());
    }
}
