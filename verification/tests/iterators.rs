use mini_lsm::iterators::merge_iterator::MergeIterator;
use mini_lsm::iterators::two_merge_iterator::TwoMergeIterator;
use mini_lsm::iterators::IterError;
use mini_lsm::iterators::StorageIterator;
use mini_lsm::lsm_iterator::FusedIterator;
use mini_lsm::lsm_iterator::LsmIterator;
use mini_lsm::lsm_iterator::UpperBound;

/// An in-memory source of entries that fails at a chosen step.
struct MockIterator {
    data: Vec<(Vec<u8>, Vec<u8>)>,
    error_when: Option<usize>,
    index: usize,
}

impl MockIterator {
    fn new(data: &[(&str, &str)]) -> Self {
        MockIterator { data: owned(data), error_when: None, index: 0 }
    }

    fn new_with_error(data: &[(&str, &str)], error_when: usize) -> Self {
        MockIterator { data: owned(data), error_when: Some(error_when), index: 0 }
    }
}

impl StorageIterator for MockIterator {
    fn value(&self) -> &[u8] {
        &self.data[self.index].1
    }

    fn key(&self) -> &[u8] {
        &self.data[self.index].0
    }

    fn is_valid(&self) -> bool {
        self.index < self.data.len()
    }

    fn next(&mut self) -> Result<(), IterError> {
        if self.index < self.data.len() {
            self.index += 1;
        }
        if let Some(error_when) = self.error_when {
            if self.index == error_when {
                return Err(IterError::Source(anyhow::Error::msg("fake error")));
            }
        }
        Ok(())
    }

    fn num_active_iterators(&self) -> usize {
        1
    }
}

fn owned(data: &[(&str, &str)]) -> Vec<(Vec<u8>, Vec<u8>)> {
    data.iter().map(|(k, v)| (k.as_bytes().to_vec(), v.as_bytes().to_vec())).collect()
}

fn collect<I: StorageIterator>(iter: &mut I) -> Vec<(Vec<u8>, Vec<u8>)> {
    let mut out = Vec::new();
    while iter.is_valid() {
        out.push((iter.key().to_vec(), iter.value().to_vec()));
        iter.next().unwrap();
    }
    out
}

fn merge_of(sources: &[&[(&str, &str)]]) -> MergeIterator<MockIterator> {
    MergeIterator::create(sources.iter().map(|s| Box::new(MockIterator::new(s))).collect())
}

fn scan_of(
    mem: &[&[(&str, &str)]],
    tables: &[&[(&str, &str)]],
    upper: UpperBound,
) -> LsmIterator<MockIterator, MockIterator> {
    let inner = TwoMergeIterator::create(merge_of(mem), merge_of(tables)).unwrap();
    LsmIterator::new(inner, upper).unwrap()
}

fn bound(key: &str) -> bytes::Bytes {
    bytes::Bytes::copy_from_slice(key.as_bytes())
}

#[test]
fn merge_prefers_lower_index() {
    let mut iter = merge_of(&[&[("k1", "a"), ("k2", "b")], &[("k1", "z")]]);
    assert_eq!(collect(&mut iter), owned(&[("k1", "a"), ("k2", "b")]));
}

#[test]
fn merge_prefers_lower_index_among_three() {
    let mut iter = merge_of(&[
        &[("b", "0b"), ("d", "0d")],
        &[("a", "1a"), ("b", "1b"), ("c", "1c"), ("d", "1d")],
        &[("a", "2a"), ("b", "2b"), ("e", "2e")],
    ]);
    assert_eq!(
        collect(&mut iter),
        owned(&[("a", "1a"), ("b", "0b"), ("c", "1c"), ("d", "0d"), ("e", "2e")])
    );
}

#[test]
fn merge_output_is_ascending_without_duplicates() {
    let first: Vec<(String, String)> =
        (0..60).step_by(2).map(|i| (format!("key{:03}", i), format!("a{}", i))).collect();
    let second: Vec<(String, String)> =
        (0..60).step_by(3).map(|i| (format!("key{:03}", i), format!("b{}", i))).collect();
    let third: Vec<(String, String)> =
        (0..60).step_by(5).map(|i| (format!("key{:03}", i), format!("c{}", i))).collect();
    let sources: Vec<Vec<(&str, &str)>> = [&first, &second, &third]
        .iter()
        .map(|s| s.iter().map(|(k, v)| (k.as_str(), v.as_str())).collect())
        .collect();
    let slices: Vec<&[(&str, &str)]> = sources.iter().map(|s| s.as_slice()).collect();
    let mut iter = merge_of(&slices);
    let out = collect(&mut iter);
    for pair in out.windows(2) {
        assert!(pair[0].0 < pair[1].0);
    }
    let expected: Vec<(Vec<u8>, Vec<u8>)> = (0..60)
        .filter(|i| i % 2 == 0 || i % 3 == 0 || i % 5 == 0)
        .map(|i| {
            let value = if i % 2 == 0 {
                format!("a{}", i)
            } else if i % 3 == 0 {
                format!("b{}", i)
            } else {
                format!("c{}", i)
            };
            (format!("key{:03}", i).into_bytes(), value.into_bytes())
        })
        .collect();
    assert_eq!(out, expected);
}

#[test]
fn merge_of_many_sources_keeps_the_first_of_each_key() {
    // Source `s` holds the keys that a small generator picks for it.
    let mut state: u32 = 12345;
    let mut sources: Vec<Vec<(String, String)>> = Vec::new();
    for s in 0..23 {
        let mut source = Vec::new();
        for k in 0..200 {
            state = state.wrapping_mul(1664525).wrapping_add(1013904223);
            if (state >> 16) % 4 == 0 {
                source.push((format!("key{:04}", k), format!("{}:{}", s, k)));
            }
        }
        sources.push(source);
    }
    let mut expected: Vec<(Vec<u8>, Vec<u8>)> = Vec::new();
    for k in 0..200 {
        let key = format!("key{:04}", k);
        for source in &sources {
            if let Some((_, v)) = source.iter().find(|(sk, _)| *sk == key) {
                expected.push((key.clone().into_bytes(), v.clone().into_bytes()));
                break;
            }
        }
    }
    let borrowed: Vec<Vec<(&str, &str)>> = sources
        .iter()
        .map(|s| s.iter().map(|(k, v)| (k.as_str(), v.as_str())).collect())
        .collect();
    let slices: Vec<&[(&str, &str)]> = borrowed.iter().map(|s| s.as_slice()).collect();
    let mut iter = merge_of(&slices);
    assert_eq!(iter.num_active_iterators(), 23);
    assert_eq!(collect(&mut iter), expected);
    assert!(!iter.is_valid());
}

#[test]
fn merge_of_nothing_is_invalid() {
    let mut iter = merge_of(&[]);
    assert!(!iter.is_valid());
    assert!(iter.next().is_ok());
    assert!(!iter.is_valid());
    assert_eq!(iter.num_active_iterators(), 0);
    let mut iter = merge_of(&[&[], &[]]);
    assert!(!iter.is_valid());
    assert!(iter.next().is_ok());
    assert!(!iter.is_valid());
}

#[test]
fn merge_skips_sources_without_entries() {
    let mut iter = merge_of(&[&[], &[("a", "1")], &[], &[("a", "2"), ("b", "3")]]);
    assert_eq!(iter.num_active_iterators(), 2);
    assert_eq!(collect(&mut iter), owned(&[("a", "1"), ("b", "3")]));
    assert!(iter.next().is_ok());
    assert!(!iter.is_valid());
}

#[test]
fn merge_of_one_source_is_that_source() {
    let mut iter = merge_of(&[&[("a", "1"), ("b", ""), ("c", "3")]]);
    assert_eq!(iter.key(), b"a");
    assert_eq!(iter.value(), b"1");
    assert_eq!(collect(&mut iter), owned(&[("a", "1"), ("b", ""), ("c", "3")]));
}

#[test]
fn merge_passes_on_the_error_of_a_source() {
    let good = MockIterator::new(&[("a", "1"), ("c", "3")]);
    let bad = MockIterator::new_with_error(&[("b", "2"), ("d", "4")], 1);
    let mut iter = MergeIterator::create(vec![Box::new(good), Box::new(bad)]);
    assert_eq!(iter.key(), b"a");
    assert!(iter.next().is_ok());
    assert_eq!(iter.key(), b"b");
    assert!(matches!(iter.next(), Err(IterError::Source(_))));
}

#[test]
fn merge_passes_on_the_error_of_a_shadowed_source() {
    let good = MockIterator::new(&[("a", "1"), ("c", "3")]);
    let bad = MockIterator::new_with_error(&[("a", "2"), ("d", "4")], 1);
    let mut iter = MergeIterator::create(vec![Box::new(good), Box::new(bad)]);
    assert_eq!(iter.value(), b"1");
    match iter.next() {
        Err(IterError::Source(e)) => assert_eq!(e.to_string(), "fake error"),
        _ => panic!("the advance should fail"),
    }
}

#[test]
fn two_merge_prefers_left() {
    let left = MockIterator::new(&[("k1", "x")]);
    let right = MockIterator::new(&[("k1", "y"), ("k2", "z")]);
    let mut iter = TwoMergeIterator::create(left, right).unwrap();
    assert_eq!(iter.num_active_iterators(), 1);
    assert_eq!(collect(&mut iter), owned(&[("k1", "x"), ("k2", "z")]));
}

#[test]
fn two_merge_interleaves() {
    let left = MockIterator::new(&[("a", "la"), ("c", "lc"), ("d", "ld")]);
    let right = MockIterator::new(&[("b", "rb"), ("c", "rc"), ("e", "re"), ("f", "rf")]);
    let mut iter = TwoMergeIterator::create(left, right).unwrap();
    assert_eq!(
        collect(&mut iter),
        owned(&[("a", "la"), ("b", "rb"), ("c", "lc"), ("d", "ld"), ("e", "re"), ("f", "rf")])
    );
    assert!(iter.next().is_ok());
    assert!(!iter.is_valid());
}

#[test]
fn two_merge_goes_back_to_left_when_right_ends() {
    let left = MockIterator::new(&[("b", "lb"), ("c", "lc")]);
    let right = MockIterator::new(&[("a", "ra")]);
    let mut iter = TwoMergeIterator::create(left, right).unwrap();
    assert_eq!(collect(&mut iter), owned(&[("a", "ra"), ("b", "lb"), ("c", "lc")]));
}

#[test]
fn two_merge_with_one_side_empty() {
    let mut iter =
        TwoMergeIterator::create(MockIterator::new(&[]), MockIterator::new(&[("a", "1")])).unwrap();
    assert_eq!(collect(&mut iter), owned(&[("a", "1")]));
    let mut iter =
        TwoMergeIterator::create(MockIterator::new(&[("a", "1")]), MockIterator::new(&[])).unwrap();
    assert_eq!(collect(&mut iter), owned(&[("a", "1")]));
    let mut iter =
        TwoMergeIterator::create(MockIterator::new(&[]), MockIterator::new(&[])).unwrap();
    assert!(!iter.is_valid());
    assert!(iter.next().is_ok());
    assert!(!iter.is_valid());
}

#[test]
fn two_merge_passes_on_the_error_of_a_source() {
    let left = MockIterator::new(&[("a", "1")]);
    let right = MockIterator::new_with_error(&[("a", "2"), ("b", "3")], 1);
    let mut iter = TwoMergeIterator::create(left, right).unwrap();
    assert_eq!(iter.value(), b"1");
    assert!(matches!(iter.next(), Err(IterError::Source(_))));
}

#[test]
fn lsm_iterator_hides_tombstones() {
    let mut iter = scan_of(&[&[("k1", ""), ("k2", "v")]], &[], UpperBound::Unbounded);
    assert_eq!(collect(&mut iter), owned(&[("k2", "v")]));
}

#[test]
fn lsm_iterator_hides_keys_deleted_in_memtable() {
    let mut iter = scan_of(
        &[&[("b", ""), ("d", "new d")], &[("a", "old a"), ("b", "old b")]],
        &[&[("b", "table b"), ("c", "table c"), ("d", "table d")], &[("e", "")]],
        UpperBound::Unbounded,
    );
    assert_eq!(iter.num_active_iterators(), 1);
    assert_eq!(collect(&mut iter), owned(&[("a", "old a"), ("c", "table c"), ("d", "new d")]));
    assert!(iter.next().is_ok());
    assert!(!iter.is_valid());
}

#[test]
fn lsm_iterator_stops_at_included_bound() {
    let stream: &[(&str, &str)] = &[("k1", "1"), ("k2", "2"), ("k3", "3")];
    let mut iter = scan_of(&[stream], &[], UpperBound::Included(bound("k2")));
    assert_eq!(collect(&mut iter), owned(&[("k1", "1"), ("k2", "2")]));
    let mut iter = scan_of(&[], &[stream], UpperBound::Included(bound("k25")));
    assert_eq!(collect(&mut iter), owned(&[("k1", "1"), ("k2", "2")]));
}

#[test]
fn lsm_iterator_stops_before_excluded_bound() {
    let stream: &[(&str, &str)] = &[("k1", "1"), ("k2", "2"), ("k3", "3")];
    let mut iter = scan_of(&[stream], &[], UpperBound::Excluded(bound("k2")));
    assert_eq!(collect(&mut iter), owned(&[("k1", "1")]));
    let mut iter = scan_of(&[stream], &[], UpperBound::Excluded(bound("k1")));
    assert!(!iter.is_valid());
    let mut iter = scan_of(&[stream], &[], UpperBound::Excluded(bound("k9")));
    assert_eq!(collect(&mut iter), owned(stream));
    assert!(iter.next().is_ok());
    assert!(!iter.is_valid());
}

#[test]
fn lsm_iterator_does_not_come_back_to_life() {
    let stream: &[(&str, &str)] = &[("k1", "1"), ("k3", "3"), ("k4", ""), ("k5", "5")];
    let mut iter = scan_of(&[], &[stream], UpperBound::Included(bound("k2")));
    assert_eq!(iter.key(), b"k1");
    assert_eq!(iter.value(), b"1");
    assert!(iter.next().is_ok());
    assert!(!iter.is_valid());
    assert!(iter.next().is_ok());
    assert!(!iter.is_valid());
    assert!(iter.next().is_ok());
    assert!(!iter.is_valid());
}

#[test]
fn lsm_iterator_over_nothing_is_invalid() {
    let mut iter = scan_of(&[], &[], UpperBound::Unbounded);
    assert!(!iter.is_valid());
    assert!(iter.next().is_ok());
    let mut iter = scan_of(&[&[("a", ""), ("b", "")]], &[&[("a", "1")]], UpperBound::Unbounded);
    assert!(!iter.is_valid());
    assert!(iter.next().is_ok());
    assert!(!iter.is_valid());
}

#[test]
fn fused_iterator_stays_tainted() {
    let inner = MockIterator::new_with_error(&[("a", "1"), ("b", "2"), ("c", "3")], 1);
    let mut iter = FusedIterator::new(inner);
    assert!(iter.is_valid());
    assert_eq!(iter.num_active_iterators(), 1);
    assert!(matches!(iter.next(), Err(IterError::Source(_))));
    assert!(!iter.is_valid());
    assert!(matches!(iter.next(), Err(IterError::Tainted)));
    assert!(matches!(iter.next(), Err(IterError::Tainted)));
    assert!(!iter.is_valid());
    assert_eq!(iter.num_active_iterators(), 0);
}

#[test]
fn fused_iterator_passes_entries_through() {
    let mut iter = FusedIterator::new(MockIterator::new(&[("a", "1"), ("b", "2")]));
    assert_eq!(iter.key(), b"a");
    assert_eq!(iter.value(), b"1");
    assert_eq!(collect(&mut iter), owned(&[("a", "1"), ("b", "2")]));
}

#[test]
fn fused_iterator_does_nothing_once_invalid() {
    // The wrapped source would fail at its third advance, which never comes.
    let inner = MockIterator::new_with_error(&[("a", "1"), ("b", "2")], 3);
    let mut iter = FusedIterator::new(inner);
    assert!(iter.next().is_ok());
    assert!(iter.next().is_ok());
    assert!(!iter.is_valid());
    assert!(iter.next().is_ok());
    assert!(iter.next().is_ok());
    assert!(!iter.is_valid());
}

#[test]
fn fused_iterator_taints_a_failed_scan() {
    let good = MockIterator::new(&[("a", "1"), ("b", "2"), ("c", "3")]);
    let bad = MockIterator::new_with_error(&[("b", "x"), ("d", "y")], 1);
    let inner = TwoMergeIterator::create(
        MergeIterator::create(vec![Box::new(good)]),
        MergeIterator::create(vec![Box::new(bad)]),
    )
    .unwrap();
    let mut iter = FusedIterator::new(LsmIterator::new(inner, UpperBound::Unbounded).unwrap());
    assert_eq!(iter.key(), b"a");
    assert!(iter.next().is_ok());
    assert_eq!(iter.value(), b"2");
    assert!(matches!(iter.next(), Err(IterError::Source(_))));
    assert!(!iter.is_valid());
    assert!(matches!(iter.next(), Err(IterError::Tainted)));
}
