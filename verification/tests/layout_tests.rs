use pinyin_ime::pagination::{
    arrange_small_input_candidates, arrange_two_char_intent_minimum_page_density,
    arrange_two_char_intent_page_density, small_input_candidate_policy,
};
use pinyin_ime::three_char::{arrange_three_char_intent_page_density, three_char_density_policy};

fn is_permutation(order: &[usize], n: usize) -> bool {
    let mut seen = vec![false; n];
    order.len() == n
        && order.iter().all(|&i| {
            if i >= n || seen[i] {
                false
            } else {
                seen[i] = true;
                true
            }
        })
}

#[test]
fn two_char_page_density_interleaves_singles() {
    let lens = vec![1, 2, 2, 3, 1, 2, 1, 2, 2];
    let order = arrange_two_char_intent_page_density(&lens, 5);
    assert_eq!(order, vec![1, 2, 5, 7, 0, 8, 4, 6, 3]);
    assert!(is_permutation(&order, lens.len()));
}

#[test]
fn two_char_page_density_without_two_char_words() {
    let lens = vec![3, 1, 4, 1];
    assert_eq!(arrange_two_char_intent_page_density(&lens, 9), vec![1, 3, 0, 2]);
    assert_eq!(arrange_two_char_intent_page_density(&vec![4], 9), vec![0]);
    assert!(arrange_two_char_intent_page_density(&vec![], 9).is_empty());
}

#[test]
fn two_char_minimum_density_keeps_a_full_group() {
    let lens = vec![1, 2, 2, 3, 1, 2, 1, 2, 2];
    let order = arrange_two_char_intent_minimum_page_density(&lens, 5);
    assert_eq!(order, vec![1, 2, 5, 7, 8, 3, 0, 4, 6]);
    assert!(is_permutation(&order, lens.len()));
    let lens = vec![2, 1, 1, 1, 1, 2, 3];
    let order = arrange_two_char_intent_minimum_page_density(&lens, 3);
    assert_eq!(order, vec![0, 5, 1, 6, 2, 3, 4]);
}

#[test]
fn small_input_layout_reserves_singles_and_expansions() {
    let pol = small_input_candidate_policy(2, 5).expect("policy");
    let lens = vec![2, 1, 3, 2, 1, 3, 3, 4, 1];
    assert_eq!(arrange_small_input_candidates(&lens, &pol), vec![0, 3, 1, 2, 5, 4, 8]);
    assert!(small_input_candidate_policy(1, 5).is_none());
    assert!(small_input_candidate_policy(9, 5).is_none());
    assert_eq!(small_input_candidate_policy(5, 20).expect("policy").page_size, 9);
}

#[test]
fn three_char_layout_follows_the_policy() {
    let pol = three_char_density_policy(false, false, 0, 0);
    assert_eq!(
        (pol.first_exact_cap, pol.later_exact_cap, pol.first_two_char_quota, pol.later_two_char_quota),
        (3, 4, 3, 2)
    );
    let lens = vec![3, 3, 3, 3, 3, 2, 1, 4];
    let order = arrange_three_char_intent_page_density(&lens, 5, &pol);
    assert_eq!(order, vec![0, 1, 2, 5, 6, 3, 4, 7]);
    assert!(is_permutation(&order, lens.len()));
}

#[test]
fn three_char_policy_by_evidence() {
    let p = three_char_density_policy(true, false, 0, 0);
    assert_eq!((p.first_exact_cap, p.later_exact_cap, p.first_two_char_quota, p.later_two_char_quota), (7, 7, 1, 1));
    let p = three_char_density_policy(false, true, 0, 3);
    assert_eq!((p.first_exact_cap, p.later_exact_cap), (5, 6));
    let p = three_char_density_policy(false, false, 4, 0);
    assert_eq!((p.first_exact_cap, p.later_exact_cap), (7, 7));
}

#[test]
fn three_char_layout_is_a_permutation_for_many_inputs() {
    let pol = three_char_density_policy(false, true, 2, 6);
    for n in 0..24usize {
        let lens: Vec<usize> = (0..n).map(|i| [3, 1, 2, 3, 4, 3, 2][i % 7]).collect();
        for page in [0usize, 3, 5, 9, 12] {
            let order = arrange_three_char_intent_page_density(&lens, page, &pol);
            assert!(is_permutation(&order, n), "n={n} page={page} order={order:?}");
            let order = arrange_two_char_intent_page_density(&lens, page);
            assert!(is_permutation(&order, n));
            let order = arrange_two_char_intent_minimum_page_density(&lens, page);
            assert!(is_permutation(&order, n));
        }
    }
}
