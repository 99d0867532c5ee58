use sharded_slab::{Config, Params, Slab};

const MAIN: usize = 0;

#[test]
fn big() {
    let mut slab = Slab::new();

    for i in 0..10000 {
        let k = slab.insert(MAIN, i).expect("insert");
        let g = slab.get(k).expect("get");
        assert_eq!(slab.value(&g), Some(&i));
        slab.release(MAIN, g);
    }
}

struct TinyConfig;

impl Params for TinyConfig {
    fn spec_max_threads() -> usize {
        4096
    }

    fn spec_max_pages() -> usize {
        1
    }

    fn spec_initial_page_size() -> usize {
        4
    }

    fn spec_reserved_bits() -> usize {
        0
    }

    fn max_threads() -> usize {
        4096
    }

    fn max_pages() -> usize {
        1
    }

    fn initial_page_size() -> usize {
        4
    }

    fn reserved_bits() -> usize {
        0
    }
}

// A shard of this configuration has four slots, so each value is taken back
// out once it has been read.
#[test]
fn tests_custom_page_sz() {
    let mut slab = Slab::new_with_config(Config::from_params::<TinyConfig>().unwrap());

    for i in 0..4096 {
        let k = slab.insert(MAIN, i).expect("insert");
        let g = slab.get(k).expect("get");
        assert_eq!(slab.value(&g), Some(&i));
        slab.release(MAIN, g);
        assert_eq!(slab.take(MAIN, k), Some(i));
    }
}

struct CustomConfig;

impl Params for CustomConfig {
    fn spec_max_threads() -> usize {
        256
    }

    fn spec_max_pages() -> usize {
        15
    }

    fn spec_initial_page_size() -> usize {
        32
    }

    fn spec_reserved_bits() -> usize {
        24
    }

    fn max_threads() -> usize {
        256
    }

    fn max_pages() -> usize {
        15
    }

    fn initial_page_size() -> usize {
        32
    }

    fn reserved_bits() -> usize {
        24
    }
}

const ITERS: u64 = 5;

fn slab_eq(lhs: &mut Slab<u64>, rhs: &mut Slab<u64>) {
    let mut lhs_vec: Vec<u64> = lhs.unique_iter().into_iter().copied().collect();
    lhs_vec.sort_unstable();
    let mut rhs_vec: Vec<u64> = rhs.unique_iter().into_iter().copied().collect();
    rhs_vec.sort_unstable();
    assert_eq!(lhs_vec, rhs_vec);
}

#[test]
fn insert_remove() {
    let mut default_slab = Slab::<u64>::new();
    let mut custom_slab = Slab::<u64>::new_with_config(Config::from_params::<CustomConfig>().unwrap());

    for i in 0..=ITERS {
        let idx = default_slab.insert(MAIN, i).unwrap();
        assert!(default_slab.remove(MAIN, idx));

        let idx = custom_slab.insert(MAIN, i).unwrap();
        assert!(custom_slab.remove(MAIN, idx));
    }

    slab_eq(&mut custom_slab, &mut default_slab);
}

#[test]
fn double_get() {
    let mut default_slab = Slab::<u64>::new();
    let mut custom_slab = Slab::<u64>::new_with_config(Config::from_params::<CustomConfig>().unwrap());

    for i in 0..=ITERS {
        let idx = default_slab.insert(MAIN, i).unwrap();
        let g = default_slab.get(idx);
        assert!(g.is_some());
        default_slab.release(MAIN, g.unwrap());
        let g = default_slab.get(idx);
        assert!(g.is_some());
        default_slab.release(MAIN, g.unwrap());
        assert!(default_slab.remove(MAIN, idx));

        let idx = custom_slab.insert(MAIN, i).unwrap();
        let g = custom_slab.get(idx);
        assert!(g.is_some());
        custom_slab.release(MAIN, g.unwrap());
        let g = custom_slab.get(idx);
        assert!(g.is_some());
        custom_slab.release(MAIN, g.unwrap());
        assert!(custom_slab.remove(MAIN, idx));
    }

    slab_eq(&mut custom_slab, &mut default_slab);
}
