use derangements::cache::{derangements_cached, DerangementCache};
use derangements::evaluator::{derangements_fast, derangements_u};
use num::bigint::BigInt;

fn stored_indices(cache: &DerangementCache) -> Vec<usize> {
    let mut indices = Vec::new();
    for position in 0..cache.len() {
        indices.push(cache.entry(position).unwrap().0);
    }
    indices
}

#[test]
fn test_derangements_cached() {
    let expected = BigInt::from(1334961);
    let mut cache = DerangementCache::new();
    assert_eq!(derangements_cached(&mut cache, 10), expected);
}

#[test]
fn a_new_cache_holds_the_two_base_entries() {
    let cache = DerangementCache::new();
    assert_eq!(cache.len(), 2);
    assert_eq!(cache.entry(0), Some((0, BigInt::from(1))));
    assert_eq!(cache.entry(1), Some((1, BigInt::from(0))));
    assert_eq!(cache.entry(2), None);
}

#[test]
fn base_cases_of_the_cache() {
    let mut cache = DerangementCache::new();
    assert_eq!(cache.query(0), BigInt::from(1));
    assert_eq!(cache.query(1), BigInt::from(0));
    assert_eq!(derangements_cached(&mut cache, 0), BigInt::from(1));
    assert_eq!(derangements_cached(&mut cache, 1), BigInt::from(0));
    assert_eq!(cache.len(), 2);
}

#[test]
fn a_query_below_the_end_leaves_the_cache_alone() {
    let mut cache = DerangementCache::new();
    cache.query(8);
    assert_eq!(cache.len(), 9);
    assert_eq!(cache.query(3), BigInt::from(2));
    assert_eq!(cache.len(), 9);
    assert_eq!(cache.query(8), BigInt::from(14833));
    assert_eq!(cache.len(), 9);
}

#[test]
fn a_query_grows_the_cache_to_its_index_and_no_further() {
    let mut cache = DerangementCache::new();
    assert_eq!(cache.query(2), BigInt::from(1));
    assert_eq!(cache.len(), 3);
    assert_eq!(cache.query(5), BigInt::from(44));
    assert_eq!(cache.len(), 6);
    assert_eq!(cache.entry(6), None);
}

#[test]
fn stored_indices_run_from_zero_to_the_highest_request() {
    let mut cache = DerangementCache::new();
    let requests: [usize; 7] = [3, 0, 7, 7, 2, 12, 5];
    let mut highest = 0;
    for x in requests {
        cache.query(x);
        if x > highest {
            highest = x;
        }
        let want: Vec<usize> = (0..=highest).collect();
        assert_eq!(stored_indices(&cache), want);
    }
    assert_eq!(cache.len(), 13);
}

#[test]
fn asking_only_for_index_zero_keeps_both_base_entries() {
    let mut cache = DerangementCache::new();
    assert_eq!(cache.query(0), BigInt::from(1));
    assert_eq!(stored_indices(&cache), vec![0, 1]);
}

#[test]
fn every_entry_holds_the_count_for_its_index() {
    let mut cache = DerangementCache::new();
    cache.query(40);
    for position in 0..cache.len() {
        let (index, value) = cache.entry(position).unwrap();
        assert_eq!(index, position);
        assert_eq!(value, derangements_fast(index as u32));
    }
}

#[test]
fn neighbouring_entries_obey_the_recurrence() {
    let mut cache = DerangementCache::new();
    cache.query(30);
    for k in 2..cache.len() {
        let (index, value) = cache.entry(k).unwrap();
        let (_, one_back) = cache.entry(k - 1).unwrap();
        let (_, two_back) = cache.entry(k - 2).unwrap();
        assert_eq!(value, BigInt::from(index - 1) * (one_back + two_back));
    }
}

#[test]
fn asking_twice_gives_the_same_answer_and_length() {
    let mut cache = DerangementCache::new();
    let first = derangements_cached(&mut cache, 17);
    let length = cache.len();
    let second = derangements_cached(&mut cache, 17);
    assert_eq!(first, second);
    assert_eq!(cache.len(), length);
    assert_eq!(length, 18);
}

#[test]
fn the_cache_agrees_with_both_evaluators_up_to_two_hundred() {
    let mut growing = DerangementCache::new();
    for n in 0..=200usize {
        let cached = growing.query(n);
        assert_eq!(cached, derangements_fast(n as u32));
        assert_eq!(cached, derangements_u(n as u64));
    }
    let mut at_once = DerangementCache::new();
    at_once.query(200);
    for n in (0..=200usize).rev() {
        assert_eq!(at_once.query(n), derangements_fast(n as u32));
    }
    assert_eq!(at_once.len(), 201);
}

#[test]
fn the_order_of_requests_does_not_change_the_final_cache() {
    let mut rising = DerangementCache::new();
    for x in [1usize, 4, 9, 16] {
        rising.query(x);
    }
    let mut falling = DerangementCache::new();
    for x in [16usize, 9, 4, 1] {
        falling.query(x);
    }
    assert_eq!(rising.len(), 17);
    assert_eq!(falling.len(), 17);
    for position in 0..17 {
        assert_eq!(rising.entry(position), falling.entry(position));
    }
}

#[test]
fn a_cached_value_beyond_a_machine_word_is_exact() {
    let mut cache = DerangementCache::new();
    let want = "5706255282633466762357224".parse::<BigInt>().unwrap();
    assert_eq!(cache.query(25), want);
}

#[test]
fn a_returned_value_is_a_copy() {
    let mut cache = DerangementCache::new();
    let mut taken = cache.query(6);
    taken += 1;
    assert_eq!(taken, BigInt::from(266));
    assert_eq!(cache.query(6), BigInt::from(265));
}
