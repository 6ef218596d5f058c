use perm_edit::alphabet::extract_sigma;
use perm_edit::alphabet::define_mapping;
use perm_edit::alphabet::map_vec;
use perm_edit::alphabet::CharIndexMap;
use perm_edit::distance::edit_distance_enhanced;
use perm_edit::perm::identity;
use perm_edit::perm::invert;
use perm_edit::search::hill_climbing;
use perm_edit::search::shuffle;
use perm_edit::validity::is_valid;
use perm_edit::MatchingSchema;

fn build_schema(n: usize, m: usize, p1: usize, p2: usize) -> MatchingSchema {
    let mut s = MatchingSchema::new(n, m);
    s.init_general(&p1, &p2);
    s
}

/// The whole pipeline, from two strings and two periods to the minimal
/// distance found by the search.
fn run(s1: &str, s2: &str, p1: usize, p2: usize) -> u32 {
    let c1: Vec<char> = s1.chars().collect();
    let c2: Vec<char> = s2.chars().collect();
    let sigma1 = extract_sigma(&c1);
    let sigma2 = extract_sigma(&c2);
    let mut map1 = CharIndexMap::new();
    let mut map2 = CharIndexMap::new();
    define_mapping(&sigma1, &mut map1);
    define_mapping(&sigma2, &mut map2);
    let mut is1 = vec![0usize; c1.len()];
    let mut is2 = vec![0usize; c2.len()];
    map_vec(&map1, &mut is1, &c1);
    map_vec(&map2, &mut is2, &c2);
    let isigma1 = identity(sigma1.len());
    let isigma2 = identity(sigma2.len());
    let m = build_schema(sigma1.len(), sigma2.len(), p1, p2);
    hill_climbing(&is1, &is2, &isigma1, &isigma2, &p1, &m)
}

#[test]
fn schema_block_pattern() {
    let s = build_schema(4, 4, 2, 2);
    for i in 0..4usize {
        for j in 0..4usize {
            let free = i / 2 == j / 2;
            assert_eq!(s.get(i, j), !free);
        }
    }
}

#[test]
fn schema_rectangular_blocks() {
    // alphabet-1 positions in blocks of size p2 = 3, alphabet-2 in blocks of p1 = 2
    let s = build_schema(6, 4, 2, 3);
    for i in 0..6usize {
        for j in 0..4usize {
            let free = i / 3 == j / 2;
            assert_eq!(s.get(i, j), !free);
        }
    }
}

#[test]
fn schema_zero_period_all_unit() {
    let s = build_schema(3, 5, 0, 2);
    for i in 0..3usize {
        for j in 0..5usize {
            assert!(s.get(i, j));
        }
    }
    let s2 = build_schema(3, 5, 2, 0);
    for i in 0..3usize {
        for j in 0..5usize {
            assert!(s2.get(i, j));
        }
    }
}

#[test]
fn valid_monotone_blocks_accepted() {
    assert!(is_valid(&vec![0, 1, 2, 3], 2));
    assert!(is_valid(&vec![1, 0, 2, 3], 2));
    assert!(is_valid(&vec![0, 1], 2));
}

#[test]
fn valid_decreasing_blocks_rejected() {
    assert!(!is_valid(&vec![2, 3, 0, 1], 2));
    assert!(!is_valid(&vec![1, 2, 0], 1));
}

#[test]
fn valid_zero_period() {
    assert!(is_valid(&Vec::new(), 0));
    assert!(!is_valid(&vec![0], 0));
}

#[test]
fn valid_period_at_least_length() {
    assert!(is_valid(&vec![3, 2, 1, 0], 4));
    assert!(is_valid(&vec![3, 2, 1, 0], 7));
}

#[test]
fn valid_partial_final_block() {
    // blocks [5,0] (min 0) then partial [1]: 1 >= 0 holds
    assert!(is_valid(&vec![5, 0, 1], 2));
    // blocks [0,5] (min 0) then partial [3]: fine; [3,1,0] with p=2: [3,1] min 1, then 0 < 1
    assert!(!is_valid(&vec![3, 1, 0], 2));
}

#[test]
fn distance_identical_under_identity() {
    // matching positions are free when p1 == p2 == 1
    let a = vec![0, 1, 0];
    let m = build_schema(2, 2, 1, 1);
    let id = identity(2);
    let mut matrix = vec![0u32; (a.len() + 1) * (a.len() + 1)];
    let d = edit_distance_enhanced(&a, &a, &id, &id, &mut matrix, &m);
    assert_eq!(d, 0);
}

#[test]
fn distance_all_unit_costs() {
    // either period zero: every substitution costs one, distance is max(|a|, |b|)
    let a = vec![0, 1];
    let b = vec![1, 0];
    let m = build_schema(2, 2, 0, 0);
    let id = identity(2);
    let mut matrix = vec![0u32; 9];
    assert_eq!(edit_distance_enhanced(&a, &b, &id, &id, &mut matrix, &m), 2);
    let c = vec![0, 1, 1, 0];
    let mut matrix2 = vec![0u32; (c.len() + 1) * (b.len() + 1)];
    assert_eq!(edit_distance_enhanced(&c, &b, &id, &id, &mut matrix2, &m), 4);
}

#[test]
fn distance_depends_on_permutation() {
    // p1 == p2 == 1: position pair (i, j) is free exactly when i == j
    let a = vec![0, 1];
    let b = vec![0, 1];
    let m = build_schema(2, 2, 1, 1);
    let id = identity(2);
    let swapped = vec![1usize, 0];
    let mut matrix = vec![0u32; 9];
    assert_eq!(edit_distance_enhanced(&a, &b, &id, &id, &mut matrix, &m), 0);
    assert_eq!(edit_distance_enhanced(&a, &b, &swapped, &id, &mut matrix, &m), 2);
    // the scratch table is fully overwritten: repeating gives the same answers
    assert_eq!(edit_distance_enhanced(&a, &b, &id, &id, &mut matrix, &m), 0);
}

#[test]
fn distance_insertions_and_deletions() {
    let a = vec![0, 1, 0];
    let b = vec![0, 1];
    let m = build_schema(2, 2, 1, 1);
    let id = identity(2);
    let mut matrix = vec![0u32; (a.len() + 1) * (b.len() + 1)];
    assert_eq!(edit_distance_enhanced(&a, &b, &id, &id, &mut matrix, &m), 1);
}

#[test]
fn invert_gives_positions() {
    let p = vec![2usize, 0, 3, 1];
    let q = invert(&p);
    assert_eq!(q, vec![1, 3, 0, 2]);
}

#[test]
fn shuffle_keeps_contents() {
    let mut v = identity(6);
    shuffle(&mut v);
    assert_eq!(v.len(), 6);
    let mut sorted = v.clone();
    sorted.sort();
    assert_eq!(sorted, vec![0, 1, 2, 3, 4, 5]);
}

#[test]
fn sigma_is_sorted_distinct() {
    let chars: Vec<char> = "bcab".chars().collect();
    let sigma = extract_sigma(&chars);
    assert_eq!(sigma, vec!['a', 'b', 'c']);
    let empty: Vec<char> = Vec::new();
    assert_eq!(extract_sigma(&empty), Vec::<char>::new());
}

#[test]
fn mapping_assigns_canonical_indices() {
    let chars: Vec<char> = "abcab".chars().collect();
    let sigma = extract_sigma(&chars);
    let mut map = CharIndexMap::new();
    define_mapping(&sigma, &mut map);
    assert_eq!(map.get('a'), Some(0));
    assert_eq!(map.get('b'), Some(1));
    assert_eq!(map.get('c'), Some(2));
    assert_eq!(map.get('z'), None);
    let mut v = vec![0usize; chars.len()];
    map_vec(&map, &mut v, &chars);
    assert_eq!(v, vec![0, 1, 2, 0, 1]);
}

#[test]
fn scenario_equal_strings() {
    assert_eq!(run("ab", "ab", 1, 1), 0);
}

#[test]
fn scenario_swapped_letters_zero_periods() {
    assert_eq!(run("ab", "ba", 0, 0), 2);
}

#[test]
fn scenario_free_cross_alphabet_block() {
    assert_eq!(run("aa", "bb", 2, 2), 0);
}

#[test]
fn search_never_worse_than_identity_pair() {
    let samples = [("abc", "cab", 1usize, 1usize), ("abcd", "dcba", 2, 2), ("aab", "abb", 1, 2)];
    for (s1, s2, p1, p2) in samples {
        let c1: Vec<char> = s1.chars().collect();
        let c2: Vec<char> = s2.chars().collect();
        let sigma1 = extract_sigma(&c1);
        let sigma2 = extract_sigma(&c2);
        let mut map1 = CharIndexMap::new();
        let mut map2 = CharIndexMap::new();
        define_mapping(&sigma1, &mut map1);
        define_mapping(&sigma2, &mut map2);
        let mut is1 = vec![0usize; c1.len()];
        let mut is2 = vec![0usize; c2.len()];
        map_vec(&map1, &mut is1, &c1);
        map_vec(&map2, &mut is2, &c2);
        let isigma1 = identity(sigma1.len());
        let isigma2 = identity(sigma2.len());
        let m = build_schema(sigma1.len(), sigma2.len(), p1, p2);
        let mut matrix = vec![0u32; (is1.len() + 1) * (is2.len() + 1)];
        let d0 = edit_distance_enhanced(&is1, &is2, &isigma1, &isigma2, &mut matrix, &m);
        let best = hill_climbing(&is1, &is2, &isigma1, &isigma2, &p1, &m);
        assert!(best <= d0);
    }
}
