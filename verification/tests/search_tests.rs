use antisum::base_letter;
use antisum::bfs::build_map;
use antisum::checks::{antisum, check1, check2, parse_word, word_to_string};
use antisum::distmap::DistanceMap;
use antisum::letter::{
    antipode, get_neighbors, is_valid_letter, letter_to_string, map_to_base, parse_letter,
    vec_to_arr,
};
use antisum::score::{antidistance, zarankiewicz_conjecture, zarankiewicz_number};
use antisum::SearchError;

fn letter(digits: [u8; 9]) -> Vec<u8> {
    digits.to_vec()
}

fn oracle() -> DistanceMap {
    build_map()
}

#[test]
fn neighbors_of_base() {
    let base = base_letter();
    let n = get_neighbors(&base);
    assert_eq!(n.len(), 9);
    assert_eq!(n[0], letter([0, 2, 3, 4, 5, 6, 7, 8, 1]));
    assert_eq!(n[1], letter([0, 2, 1, 3, 4, 5, 6, 7, 8]));
    assert_eq!(n[4], letter([0, 1, 2, 3, 5, 4, 6, 7, 8]));
    assert_eq!(n[7], letter([0, 1, 2, 3, 4, 5, 6, 8, 7]));
    assert_eq!(n[8], letter([0, 8, 1, 2, 3, 4, 5, 6, 7]));
}

#[test]
fn antipode_of_base() {
    let base = base_letter();
    assert_eq!(antipode(&base), letter([0, 8, 7, 6, 5, 4, 3, 2, 1]));
}

#[test]
fn antipode_is_involution() {
    let x = letter([0, 1, 2, 4, 3, 5, 6, 7, 8]);
    assert_eq!(antipode(&antipode(&x)), x);
}

#[test]
fn map_to_base_inverts() {
    let x = letter([0, 8, 7, 6, 5, 4, 3, 2, 1]);
    let m = map_to_base(&x);
    for i in 0..9usize {
        assert_eq!(m[x[i] as usize] as usize, i);
    }
}

#[test]
fn vec_to_arr_checks_length() {
    assert_eq!(vec_to_arr(vec![0, 1, 2, 3, 4, 5, 6, 7, 8]), Ok(vec![0, 1, 2, 3, 4, 5, 6, 7, 8]));
    assert_eq!(vec_to_arr(vec![0, 1, 2]), Err(SearchError::InvariantViolation));
}

#[test]
fn letter_validation() {
    assert!(is_valid_letter(&letter([0, 1, 2, 3, 4, 5, 6, 7, 8])));
    assert!(is_valid_letter(&letter([8, 7, 6, 5, 4, 3, 2, 1, 0])));
    assert!(!is_valid_letter(&letter([0, 1, 2, 3, 4, 5, 6, 7, 7])));
    assert!(!is_valid_letter(&letter([0, 1, 2, 3, 4, 5, 6, 7, 9])));
    assert!(!is_valid_letter(&vec![0, 1, 2]));
}

#[test]
fn zarankiewicz_values() {
    assert_eq!(zarankiewicz_number(9), 16);
    assert_eq!(zarankiewicz_number(2), 0);
    assert_eq!(zarankiewicz_conjecture(9, 9), 256);
}

#[test]
fn self_antidistance_is_the_zarankiewicz_number() {
    let dm = oracle();
    let base = base_letter();
    let x = letter([0, 1, 2, 4, 3, 5, 6, 7, 8]);
    assert_eq!(antidistance(&dm, &base, &base), Ok(16));
    assert_eq!(antidistance(&dm, &x, &x), Ok(16));
}

#[test]
fn base_to_antipode_antidistance_is_zero() {
    let dm = oracle();
    let base = base_letter();
    let anti = antipode(&base);
    assert_eq!(antidistance(&dm, &base, &anti), Ok(0));
}

#[test]
fn antidistance_is_symmetric_on_samples() {
    let dm = oracle();
    let base = base_letter();
    let x = letter([0, 1, 2, 4, 3, 5, 6, 7, 8]);
    let y = letter([0, 2, 1, 3, 4, 5, 6, 7, 8]);
    let z = letter([1, 0, 2, 3, 4, 5, 6, 7, 8]);
    for (a, b) in [(&base, &x), (&base, &y), (&x, &y), (&x, &z), (&y, &z)] {
        assert_eq!(antidistance(&dm, a, b), antidistance(&dm, b, a));
    }
}

#[test]
fn antisum_of_single_letter_word_is_zero() {
    let dm = oracle();
    let word = vec![letter([0, 1, 2, 4, 3, 5, 6, 7, 8])];
    assert_eq!(antisum(&dm, &word), Ok(0));
}

#[test]
fn antisum_is_invariant_under_reordering() {
    let dm = oracle();
    let a = base_letter();
    let b = letter([0, 1, 2, 4, 3, 5, 6, 7, 8]);
    let c = letter([0, 2, 1, 3, 4, 5, 6, 7, 8]);
    let w1 = vec![a.clone(), b.clone(), c.clone()];
    let w2 = vec![c, a, b];
    assert_eq!(antisum(&dm, &w1), antisum(&dm, &w2));
}

#[test]
fn check1_rejects_low_antisum_length_four_words() {
    let dm = oracle();
    let base = base_letter();
    let anti = antipode(&base);
    let word = vec![base.clone(), anti.clone(), base.clone(), anti.clone()];
    let s = antisum(&dm, &word).unwrap();
    assert_eq!(s, 32);
    for fifth in [base.clone(), anti.clone(), letter([0, 2, 1, 3, 4, 5, 6, 7, 8])] {
        assert_eq!(check1(&dm, &word, &fifth, s), Ok(false));
    }
}

#[test]
fn check2_on_uniform_word_returns_nothing() {
    let dm = oracle();
    let base = base_letter();
    let word = vec![base.clone(), base.clone(), base.clone(), base.clone()];
    let res = check2(&dm, &word).unwrap();
    assert!(res.is_empty());
}

#[test]
fn check2_reports_equal_antisum_reorderings() {
    let dm = oracle();
    let a = base_letter();
    let b = letter([0, 1, 2, 4, 3, 5, 6, 7, 8]);
    let c = letter([0, 2, 1, 3, 4, 5, 6, 7, 8]);
    let word = vec![a.clone(), b.clone(), c.clone()];
    let orig = antisum(&dm, &word).unwrap();
    let res = check2(&dm, &word).unwrap();
    assert!(!res.is_empty());
    for w in &res {
        assert_ne!(*w, word);
        assert_eq!(antisum(&dm, w), Ok(orig));
    }
    let expected = vec![b.clone(), a.clone(), c.clone()];
    assert!(res.contains(&expected));
}

#[test]
fn antidistance_matches_direct_oracle_lookup() {
    let dm = oracle();
    let base = base_letter();
    let y = letter([0, 1, 2, 4, 3, 5, 6, 7, 8]);
    // By hand: the antipode of the base letter is [0,8,7,6,5,4,3,2,1]; the
    // renaming that carries it to the base letter sends symbol v to (9-v)%9;
    // applied to y that gives [0,8,7,5,6,4,3,2,1], which already starts
    // with 0.
    let canon = letter([0, 8, 7, 5, 6, 4, 3, 2, 1]);
    let direct = dm.get(&canon).expect("canonical form must be recorded");
    assert_eq!(antidistance(&dm, &base, &y), Ok(direct));
    assert_eq!(dm.get(&base_letter()), Some(0));
}

#[test]
fn letter_text_round_trips() {
    let x = letter([0, 8, 7, 5, 6, 4, 3, 2, 1]);
    let s = letter_to_string(&x);
    assert_eq!(s, "087564321");
    assert_eq!(parse_letter(&s), Ok(x));
    assert_eq!(parse_letter("01234567"), Err(SearchError::MalformedSnapshot));
    assert_eq!(parse_letter("01234567a"), Err(SearchError::MalformedSnapshot));
    assert_eq!(parse_letter("012345699"), Err(SearchError::MalformedSnapshot));
}

#[test]
fn word_text_round_trips() {
    let w = vec![letter([0, 1, 2, 3, 4, 5, 6, 7, 8]), letter([0, 1, 2, 3, 4, 5, 6, 8, 7])];
    let s = word_to_string(&w);
    assert_eq!(s, "012345678 012345687");
    assert_eq!(parse_word(&s), Ok(w));
    assert_eq!(parse_word("012345678"), Ok(vec![letter([0, 1, 2, 3, 4, 5, 6, 7, 8])]));
    assert_eq!(parse_word(""), Err(SearchError::MalformedSnapshot));
    assert_eq!(parse_word("012345678,012345687"), Err(SearchError::MalformedSnapshot));
    assert_eq!(parse_word("012345678 01234567"), Err(SearchError::MalformedSnapshot));
}
