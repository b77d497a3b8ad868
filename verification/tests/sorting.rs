use bitonic_sorter::SortOrder::Ascending;
use bitonic_sorter::SortOrder::Descending;
use bitonic_sorter::first;
use bitonic_sorter::second::sort;

#[test]
fn sort_u32_ascending() {
    let mut x: Vec<u32> = vec![10, 30, 11, 20, 4, 330, 21, 110];
    sort(&mut x, &Ascending);
    assert_eq!(x, vec![4, 10, 11, 20, 21, 30, 110, 330]);
}

#[test]
fn sort_u32_descending() {
    let mut x: Vec<u32> = vec![10, 30, 11, 20, 4, 330, 21, 110];
    sort(&mut x, &Descending);
    assert_eq!(x, vec![330, 110, 30, 21, 20, 11, 10, 4]);
}

#[test]
fn sort_str_ascending() {
    let mut x = vec!["Rust", "is", "fast", "and", "memory-efficient", "with", "no", "GC"];
    sort(&mut x, &Ascending);
    assert_eq!(x, vec!["GC", "Rust", "and", "fast", "is", "memory-efficient", "no", "with"]);
}

#[test]
fn sort_str_descending() {
    let mut x = vec!["Rust", "is", "fast", "and", "memory-efficient", "with", "no", "GC"];
    sort(&mut x, &Descending);
    assert_eq!(x, vec!["with", "no", "memory-efficient", "is", "fast", "and", "Rust", "GC"]);
}

#[test]
fn sort_empty() {
    let mut x: Vec<u32> = vec![];
    sort(&mut x, &Ascending);
    assert_eq!(x, Vec::<u32>::new());
    sort(&mut x, &Descending);
    assert_eq!(x, Vec::<u32>::new());
}

#[test]
fn sort_single() {
    let mut x: Vec<u32> = vec![42];
    sort(&mut x, &Ascending);
    assert_eq!(x, vec![42]);
    sort(&mut x, &Descending);
    assert_eq!(x, vec![42]);
}

#[test]
fn sort_u32_flag_entry() {
    let mut x: Vec<u32> = vec![10, 30, 11, 20, 4, 330, 21, 110];
    first::sort(&mut x, true);
    assert_eq!(x, vec![4, 10, 11, 20, 21, 30, 110, 330]);
    let mut y: Vec<u32> = vec![10, 30, 11, 20, 4, 330, 21, 110];
    first::sort(&mut y, false);
    assert_eq!(y, vec![330, 110, 30, 21, 20, 11, 10, 4]);
}

// permutation and length on a length that is not a power of two
#[test]
fn sort_non_power_of_two_is_permutation() {
    let input: Vec<u32> = vec![9, 2, 9, 4, 7];
    let mut x = input.clone();
    sort(&mut x, &Ascending);
    assert_eq!(x.len(), input.len());
    for v in &input {
        let n_in = input.iter().filter(|w| *w == v).count();
        let n_out = x.iter().filter(|w| *w == v).count();
        assert_eq!(n_in, n_out);
    }
}

// monotone output on a power-of-two length, checked pair by pair
#[test]
fn sort_power_of_two_monotone() {
    let mut x: Vec<u32> = vec![8, 3, 5, 5, 1, 9, 0, 2, 7, 7, 4, 6, 2, 8, 1, 3];
    sort(&mut x, &Ascending);
    for i in 0..x.len() - 1 {
        assert!(x[i] <= x[i + 1]);
    }
    let mut y: Vec<u32> = vec![8, 3, 5, 5, 1, 9, 0, 2, 7, 7, 4, 6, 2, 8, 1, 3];
    sort(&mut y, &Descending);
    for i in 0..y.len() - 1 {
        assert!(y[i] >= y[i + 1]);
    }
}

// sorting an already sorted vector leaves it unchanged
#[test]
fn sort_idempotent() {
    let mut x: Vec<u32> = vec![1, 1, 3, 3, 5, 5, 7, 7];
    sort(&mut x, &Ascending);
    assert_eq!(x, vec![1, 1, 3, 3, 5, 5, 7, 7]);
    let mut y: Vec<u32> = vec![7, 7, 5, 5, 3, 3, 1, 1];
    sort(&mut y, &Descending);
    assert_eq!(y, vec![7, 7, 5, 5, 3, 3, 1, 1]);
}

// ascending then reversed equals descending
#[test]
fn sort_direction_duality() {
    let mut asc: Vec<u32> = vec![10, 30, 11, 20, 4, 330, 21, 110];
    let mut desc: Vec<u32> = vec![10, 30, 11, 20, 4, 330, 21, 110];
    sort(&mut asc, &Ascending);
    sort(&mut desc, &Descending);
    asc.reverse();
    assert_eq!(asc, desc);
}

// the generic entry with `Ascending` matches the u32 entry with `true`
#[test]
fn sort_generic_matches_u32() {
    let mut a: Vec<u32> = vec![6, 6, 2, 8, 1, 9, 1, 5];
    let mut b = a.clone();
    sort(&mut a, &Ascending);
    first::sort(&mut b, true);
    assert_eq!(a, b);
    let mut c: Vec<u32> = vec![6, 6, 2, 8, 1, 9, 1, 5];
    let mut d = c.clone();
    sort(&mut c, &Descending);
    first::sort(&mut d, false);
    assert_eq!(c, d);
}

#[test]
fn sort_owned_strings() {
    let mut x: Vec<String> = vec![
        String::from("pear"),
        String::from("apple"),
        String::from("plum"),
        String::from("fig"),
    ];
    sort(&mut x, &Ascending);
    assert_eq!(
        x,
        vec![
            String::from("apple"),
            String::from("fig"),
            String::from("pear"),
            String::from("plum"),
        ]
    );
}

#[test]
fn sort_equal_keys() {
    let mut x: Vec<u32> = vec![5, 5, 5, 5, 5, 5, 5, 5];
    sort(&mut x, &Ascending);
    assert_eq!(x, vec![5, 5, 5, 5, 5, 5, 5, 5]);
}
