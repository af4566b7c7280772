use cozo::data::keyword::Keyword;
use cozo::transact::joiner::{last_position, Joiner};

fn kws(names: &[&str]) -> Vec<Keyword> {
    names.iter().map(|n| Keyword::new(n)).collect()
}

#[test]
fn join_indices_resolves_each_key_pair() {
    let joiner = Joiner { left_keys: kws(&["x"]), right_keys: kws(&["x"]) };
    let (l, r) = joiner.join_indices(&kws(&["a", "x"]), &kws(&["x", "y"]));
    assert_eq!(l, vec![1]);
    assert_eq!(r, vec![0]);
}

#[test]
fn join_indices_keeps_the_order_of_the_pairs() {
    let joiner = Joiner { left_keys: kws(&["c", "a"]), right_keys: kws(&["q", "p"]) };
    let (l, r) = joiner.join_indices(&kws(&["a", "b", "c"]), &kws(&["p", "q"]));
    assert_eq!(l, vec![2, 0]);
    assert_eq!(r, vec![1, 0]);
}

#[test]
fn join_indices_takes_a_repeated_name_at_its_last_place() {
    let joiner = Joiner { left_keys: kws(&["x"]), right_keys: kws(&["x"]) };
    let (l, r) = joiner.join_indices(&kws(&["x", "y", "x", "z"]), &kws(&["x", "x"]));
    assert_eq!(l, vec![2]);
    assert_eq!(r, vec![1]);
}

#[test]
fn join_indices_without_keys_is_empty() {
    let joiner = Joiner { left_keys: vec![], right_keys: vec![] };
    let (l, r) = joiner.join_indices(&kws(&["a"]), &kws(&["b"]));
    assert_eq!(l, Vec::<usize>::new());
    assert_eq!(r, Vec::<usize>::new());
}

#[test]
fn joiner_len_counts_the_pairs() {
    let joiner = Joiner { left_keys: kws(&["a", "b"]), right_keys: kws(&["c", "d"]) };
    assert_eq!(joiner.len(), 2);
    assert_eq!(Joiner { left_keys: vec![], right_keys: vec![] }.len(), 0);
}

#[test]
fn joiner_swap_exchanges_the_sides() {
    let joiner = Joiner { left_keys: kws(&["a", "b"]), right_keys: kws(&["c", "d"]) };
    let swapped = joiner.swap();
    assert_eq!(swapped.left_keys, kws(&["c", "d"]));
    assert_eq!(swapped.right_keys, kws(&["a", "b"]));
    let back = swapped.swap();
    assert_eq!(back, Joiner { left_keys: kws(&["a", "b"]), right_keys: kws(&["c", "d"]) });
}

#[test]
fn swapped_joiner_resolves_the_swapped_positions() {
    let joiner = Joiner { left_keys: kws(&["b"]), right_keys: kws(&["q"]) };
    let left = kws(&["a", "b"]);
    let right = kws(&["p", "q", "r"]);
    let (l, r) = joiner.join_indices(&left, &right);
    let (sl, sr) = joiner.swap().join_indices(&right, &left);
    assert_eq!((l, r), (sr, sl));
}

#[test]
fn last_position_finds_the_last_of_several() {
    let names = kws(&["k", "m", "k", "n"]);
    assert_eq!(last_position(&names, &Keyword::new("k")), 2);
    assert_eq!(last_position(&names, &Keyword::new("n")), 3);
    assert_eq!(last_position(&names, &Keyword::new("m")), 1);
}

#[test]
fn keyword_names_compare_by_text() {
    assert!(Keyword::new("abc").same_name(&Keyword::new("abc")));
    assert!(!Keyword::new("abc").same_name(&Keyword::new("abd")));
    assert!(!Keyword::new("abc").same_name(&Keyword::new("ab")));
    assert_eq!(Keyword::new("x").clone(), Keyword::new("x"));
}
