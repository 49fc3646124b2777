use logic_toolkit::minimizer::{join_sum, BooleanFunction, Term};

fn names(ns: &[&str]) -> Vec<String> {
    ns.iter().map(|n| n.to_string()).collect()
}

fn bits_of(terms: &[Term]) -> Vec<Vec<i8>> {
    terms.iter().map(|t| t.bits.clone()).collect()
}

#[test]
fn a_term_reads_bytes_as_signed() {
    let t = Term::new(&[0, 1, 255, 127, 128]);
    assert_eq!(t.bits, vec![0, 1, -1, 127, -128]);
    assert!(!t.used);
    assert_eq!(Term::new(&[]).bits, Vec::<i8>::new());
}

#[test]
fn terms_that_differ_in_one_place_merge() {
    let a = Term::new(&[0, 1, 1]);
    let b = Term::new(&[1, 1, 1]);
    let m = a.combine(&b).unwrap();
    assert_eq!(m.bits, vec![-1, 1, 1]);
    assert!(!m.used);
    assert_eq!(b.combine(&a).unwrap().bits, vec![-1, 1, 1]);
}

#[test]
fn terms_that_differ_in_no_or_several_places_do_not_merge() {
    let a = Term::new(&[0, 1, 1]);
    assert!(a.combine(&a.clone()).is_none());
    assert!(a.combine(&Term::new(&[1, 0, 1])).is_none());
    assert!(a.combine(&Term::new(&[1, 0, 0])).is_none());
    assert!(Term::new(&[]).combine(&Term::new(&[])).is_none());
}

#[test]
fn merging_looks_at_the_places_of_the_first_term_only() {
    let short = Term::new(&[0, 1]);
    let long = Term::new(&[1, 1, 0]);
    assert_eq!(short.combine(&long).unwrap().bits, vec![-1, 1]);
}

#[test]
fn a_term_is_written_as_a_product() {
    let ns = names(&["A", "B", "C"]);
    assert_eq!(Term::new(&[0, 255, 1]).to_string(&ns), "!AC");
    assert_eq!(Term::new(&[1, 1, 1]).to_string(&ns), "ABC");
    assert_eq!(Term::new(&[0, 0, 0]).to_string(&ns), "!A!B!C");
    assert_eq!(Term::new(&[255, 255, 0]).to_string(&ns), "!C");
    assert_eq!(Term::new(&[2, 255, 255]).to_string(&ns), "A");
}

#[test]
fn a_term_without_variables_is_true() {
    assert_eq!(Term::new(&[255, 255]).to_string(&names(&["A", "B"])), "1 (TRUE)");
    assert_eq!(Term::new(&[]).to_string(&names(&[])), "1 (TRUE)");
    assert_eq!(Term::new(&[255, 255]).to_string(&names(&[])), "1 (TRUE)");
    assert_eq!(Term::new(&[1]).to_string(&names(&[""])), "1 (TRUE)");
}

#[test]
fn term_equality_and_clone() {
    let a = Term::new(&[0, 1]);
    assert_eq!(a.clone(), a);
    assert_ne!(a, Term::new(&[0, 0]));
    assert_ne!(a, Term::new(&[0, 1, 0]));
    assert_ne!(a, Term { bits: vec![0, 1], used: true });
    assert!(a.same_bits(&Term { bits: vec![0, 1], used: true }));
}

#[test]
fn cells_are_the_rows_read_as_binary_numbers() {
    let f = BooleanFunction::new(names(&["A", "B", "C"]), vec![vec![0, 1, 1], vec![1, 0, 0], vec![0, 1, 1]]);
    assert!(f.is_set(3));
    assert!(f.is_set(4));
    for idx in [0usize, 1, 2, 5, 6, 7, 8] {
        assert!(!f.is_set(idx));
    }
    assert_eq!(f.var_names, names(&["A", "B", "C"]));
    assert_eq!(f.minterms.len(), 3);
}

#[test]
fn cells_of_odd_rows() {
    let f = BooleanFunction::new(names(&["A"]), vec![vec![], vec![1, 1, 1, 1], vec![2, 0]]);
    assert!(f.is_set(0));
    assert!(f.is_set(15));
    assert!(f.is_set(4));
    assert!(!f.is_set(1));
}

#[test]
fn diagram_of_three_variables() {
    let f = BooleanFunction::new(names(&["A", "B", "C"]), vec![vec![0, 1, 1], vec![1, 0, 0]]);
    let d = f.diagram().unwrap();
    assert_eq!(d.rows, vec![0, 1]);
    assert_eq!(d.cols, vec![0, 1, 3, 2]);
    assert_eq!(d.cells, vec![vec![false, false, true, false], vec![true, false, false, false]]);
}

#[test]
fn diagrams_of_one_two_four_and_five_variables() {
    let f = BooleanFunction::new(names(&["A"]), vec![vec![1]]);
    let d = f.diagram().unwrap();
    assert_eq!((d.rows, d.cols, d.cells), (vec![0], vec![0, 1], vec![vec![false, true]]));

    let f = BooleanFunction::new(names(&["A", "B"]), vec![vec![1, 0], vec![0, 1]]);
    let d = f.diagram().unwrap();
    assert_eq!(d.rows, vec![0, 1]);
    assert_eq!(d.cols, vec![0, 1]);
    assert_eq!(d.cells, vec![vec![false, true], vec![true, false]]);

    let f = BooleanFunction::new(names(&["A", "B", "C", "D"]), vec![vec![1, 1, 1, 0], vec![0, 1, 0, 0]]);
    let d = f.diagram().unwrap();
    assert_eq!(d.rows, vec![0, 1, 3, 2]);
    assert_eq!(d.cols, vec![0, 1, 3, 2]);
    let mut expected = vec![vec![false; 4]; 4];
    expected[2][3] = true;
    expected[1][0] = true;
    assert_eq!(d.cells, expected);

    let f = BooleanFunction::new(
        names(&["A", "B", "C", "D", "E"]),
        vec![vec![1, 0, 1, 1, 0], vec![1, 1, 1, 0, 0]],
    );
    let d = f.diagram().unwrap();
    assert_eq!(d.rows, vec![0, 1, 3, 2]);
    assert_eq!(d.cols, vec![0, 1, 3, 2, 6, 7, 5, 4]);
    let mut expected = vec![vec![false; 8]; 4];
    expected[3][4] = true;
    expected[2][7] = true;
    assert_eq!(d.cells, expected);
}

#[test]
fn no_diagram_outside_one_to_five_variables() {
    assert!(BooleanFunction::new(names(&[]), vec![]).diagram().is_none());
    assert!(BooleanFunction::new(names(&["A", "B", "C", "D", "E", "F"]), vec![]).diagram().is_none());
}

#[test]
fn well_formedness_is_checked() {
    assert!(BooleanFunction::new(names(&["A", "B"]), vec![vec![0, 1], vec![1, 1]]).is_well_formed());
    assert!(BooleanFunction::new(names(&["A", "B"]), vec![]).is_well_formed());
    assert!(!BooleanFunction::new(names(&["A", "B"]), vec![vec![0, 1], vec![1]]).is_well_formed());
    assert!(!BooleanFunction::new(names(&["A"]), vec![vec![0, 1]]).is_well_formed());
    assert!(BooleanFunction::new(names(&["A", "B", "C"]), vec![vec![0, 1], vec![1, 1]]).is_well_formed());
}

#[test]
fn rows_may_be_shorter_than_the_list_of_names() {
    let f = BooleanFunction::new(names(&["A", "B", "C"]), vec![vec![0, 1], vec![1, 1]]);
    assert_eq!(bits_of(&f.prime_implicants()), vec![vec![-1, 1]]);
    assert_eq!(f.simplify(), Some(vec!["B".to_string()]));
}

#[test]
fn three_rows_of_two_bits() {
    let f = BooleanFunction::new(names(&["A", "B"]), vec![vec![0, 1], vec![1, 0], vec![1, 1]]);
    assert_eq!(f.simplify(), Some(vec!["A".to_string(), "B".to_string()]));
    let f = BooleanFunction::new(names(&["A", "B"]), vec![vec![1, 0], vec![0, 1]]);
    assert_eq!(f.simplify(), Some(vec!["!AB".to_string(), "A!B".to_string()]));
}

#[test]
fn two_neighbours_merge_into_one_prime() {
    let f = BooleanFunction::new(names(&["A", "B"]), vec![vec![0, 1], vec![1, 1]]);
    assert_eq!(bits_of(&f.prime_implicants()), vec![vec![-1, 1]]);
    assert_eq!(f.simplify(), Some(vec!["B".to_string()]));
}

#[test]
fn primes_of_a_chain_of_neighbours() {
    let f = BooleanFunction::new(
        names(&["A", "B", "C"]),
        vec![vec![0, 0, 0], vec![0, 0, 1], vec![0, 1, 1], vec![1, 1, 1]],
    );
    let mut primes = bits_of(&f.prime_implicants());
    primes.sort();
    assert_eq!(primes, vec![vec![-1, 1, 1], vec![0, -1, 1], vec![0, 0, -1]]);
    assert_eq!(
        f.simplify(),
        Some(vec!["!A!B".to_string(), "!AC".to_string(), "BC".to_string()])
    );
}

#[test]
fn a_full_square_merges_twice() {
    let f = BooleanFunction::new(
        names(&["A", "B", "C"]),
        vec![vec![1, 0, 0], vec![1, 0, 1], vec![1, 1, 0], vec![1, 1, 1], vec![0, 0, 0]],
    );
    let mut primes = bits_of(&f.prime_implicants());
    primes.sort();
    assert_eq!(primes, vec![vec![-1, 0, 0], vec![1, -1, -1]]);
    assert_eq!(f.simplify(), Some(vec!["!B!C".to_string(), "A".to_string()]));
}

#[test]
fn the_function_that_is_always_one() {
    let f = BooleanFunction::new(names(&["A"]), vec![vec![0], vec![1]]);
    assert_eq!(f.simplify(), Some(vec!["1 (TRUE)".to_string()]));
    let f = BooleanFunction::new(
        names(&["A", "B"]),
        vec![vec![0, 0], vec![0, 1], vec![1, 0], vec![1, 1]],
    );
    assert_eq!(bits_of(&f.prime_implicants()), vec![vec![-1, -1]]);
    assert_eq!(f.simplify(), Some(vec!["1 (TRUE)".to_string()]));
}

#[test]
fn the_function_that_is_never_one() {
    let f = BooleanFunction::new(names(&["A", "B"]), vec![]);
    assert_eq!(f.simplify(), None);
    assert!(f.prime_implicants().is_empty());
}

#[test]
fn rows_that_do_not_merge_are_their_own_primes_in_ascending_order() {
    let f = BooleanFunction::new(names(&["A", "B"]), vec![vec![1, 1], vec![0, 0]]);
    assert_eq!(bits_of(&f.prime_implicants()), vec![vec![1, 1], vec![0, 0]]);
    assert_eq!(f.simplify(), Some(vec!["!A!B".to_string(), "AB".to_string()]));
}

#[test]
fn a_repeated_row_counts_once() {
    let f = BooleanFunction::new(names(&["A", "B"]), vec![vec![0, 1], vec![0, 1]]);
    assert_eq!(bits_of(&f.prime_implicants()), vec![vec![0, 1]]);
    assert_eq!(f.simplify(), Some(vec!["!AB".to_string()]));
}

#[test]
fn ascending_order_goes_by_code_point_with_a_prefix_first() {
    let f = BooleanFunction::new(
        names(&["b", "B", "\u{e9}"]),
        vec![vec![1, 0, 0], vec![0, 1, 0], vec![0, 0, 1]],
    );
    assert_eq!(
        f.simplify(),
        Some(vec!["!b!B\u{e9}".to_string(), "!bB!\u{e9}".to_string(), "b!B!\u{e9}".to_string()])
    );
}

#[test]
fn texts_are_joined_into_a_sum() {
    assert_eq!(join_sum(&vec![]), "");
    assert_eq!(join_sum(&names(&["A"])), "A");
    assert_eq!(join_sum(&names(&["!A!B", "!AC", "BC"])), "!A!B v !AC v BC");
}

#[test]
fn the_primes_are_true_on_exactly_the_rows_of_the_function() {
    let rows: Vec<Vec<u8>> = vec![
        vec![0, 0, 0, 1],
        vec![0, 0, 1, 1],
        vec![0, 1, 1, 1],
        vec![1, 1, 1, 1],
        vec![1, 0, 0, 0],
        vec![1, 0, 1, 0],
        vec![1, 0, 1, 1],
        vec![0, 0, 1, 1],
    ];
    let f = BooleanFunction::new(names(&["A", "B", "C", "D"]), rows.clone());
    let primes = f.prime_implicants();
    for n in 0u8..16 {
        let row = vec![(n >> 3) & 1, (n >> 2) & 1, (n >> 1) & 1, n & 1];
        let covered = primes.iter().any(|t| {
            t.bits.iter().zip(row.iter()).all(|(&c, &b)| c == -1 || c == b as i8)
        });
        assert_eq!(covered, rows.contains(&row), "row {:?}", row);
    }
    for t in &primes {
        for u in &primes {
            assert!(t.combine(u).is_none());
        }
    }
}
