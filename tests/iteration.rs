use croaring::iter::BATCH_SIZE;
use croaring::Bitmap;

fn collect_single(bitmap: &Bitmap) -> Vec<u32> {
    let mut out = Vec::new();
    let mut it = bitmap.iter();
    while let Some(v) = it.next() {
        out.push(v);
    }
    out
}

fn collect_batches(bitmap: &Bitmap) -> Vec<Vec<u32>> {
    let mut out = Vec::new();
    let mut it = bitmap.batched_iter();
    while let Some((n, buf)) = it.next() {
        assert_eq!(buf.len(), n as usize);
        out.push(buf.to_vec());
    }
    out
}

#[test]
fn ingestion_then_iteration_yields_distinct_sorted() {
    let bitmap = Bitmap::of(&[4, 3, 2, 4, 2]);
    let mut it = bitmap.iter();
    assert_eq!(it.next(), Some(2));
    assert_eq!(it.next(), Some(3));
    assert_eq!(it.next(), Some(4));
    assert_eq!(it.next(), None);
}

#[test]
fn ingestion_of_a_range() {
    let values: Vec<u32> = (1..3).collect();
    let bitmap = Bitmap::of(&values);
    assert_eq!(collect_single(&bitmap), vec![1, 2]);
}

#[test]
fn empty_set_is_exhausted_at_once() {
    let bitmap = Bitmap::create();
    let mut it = bitmap.iter();
    assert_eq!(it.next(), None);
    let mut batched = bitmap.batched_iter();
    assert!(batched.next().is_none());
    assert!(batched.next().is_none());

    let from_nothing = Bitmap::of(&[]);
    assert_eq!(from_nothing.iter().next(), None);
    assert!(from_nothing.batched_iter().next().is_none());
}

#[test]
fn single_steps_ascend_strictly() {
    let bitmap = Bitmap::of(&[u32::MAX, 70000, 0, 5, 65536, 5, 1 << 20, 0]);
    let got = collect_single(&bitmap);
    assert_eq!(got, vec![0, 5, 65536, 70000, 1 << 20, u32::MAX]);
    for w in got.windows(2) {
        assert!(w[0] < w[1]);
    }
}

#[test]
fn next_after_exhaustion_stays_none() {
    let bitmap = Bitmap::of(&[9]);
    let mut it = bitmap.iter();
    assert_eq!(it.next(), Some(9));
    for _ in 0..5 {
        assert_eq!(it.next(), None);
    }
}

#[test]
fn batches_match_single_steps() {
    let values: Vec<u32> = (0..100u32).rev().map(|i| i * 7 + 3).collect();
    let bitmap = Bitmap::of(&values);
    let batches = collect_batches(&bitmap);
    let sizes: Vec<usize> = batches.iter().map(|b| b.len()).collect();
    assert_eq!(sizes, vec![32, 32, 32, 4]);
    let flat: Vec<u32> = batches.into_iter().flatten().collect();
    assert_eq!(flat, collect_single(&bitmap));
    let mut expected: Vec<u32> = values.clone();
    expected.sort();
    assert_eq!(flat, expected);
}

#[test]
fn short_batch_ends_the_traversal() {
    let bitmap = Bitmap::of(&[10, 30, 20]);
    let mut it = bitmap.batched_iter();
    let (n, buf) = it.next().unwrap();
    assert_eq!(n, 3);
    assert_eq!(buf, &[10, 20, 30]);
    for _ in 0..3 {
        assert!(it.next().is_none());
    }
}

#[test]
fn exact_capacity_batch_is_followed_by_an_empty_fill() {
    let values: Vec<u32> = (0..BATCH_SIZE as u32).collect();
    let bitmap = Bitmap::of(&values);
    let mut it = bitmap.batched_iter();
    let (n, buf) = it.next().unwrap();
    assert_eq!(n, 32);
    assert_eq!(buf.to_vec(), values);
    assert!(it.next().is_none());
    assert!(it.next().is_none());
}

#[test]
fn one_past_capacity_gives_a_second_short_batch() {
    let values: Vec<u32> = (100..133u32).collect();
    let bitmap = Bitmap::of(&values);
    let mut it = bitmap.batched_iter();
    assert_eq!(it.next().map(|(n, _)| n), Some(32));
    let (n, buf) = it.next().unwrap();
    assert_eq!(n, 1);
    assert_eq!(buf, &[132]);
    assert!(it.next().is_none());
}

#[test]
fn duplicates_collapse_to_one_element() {
    let bitmap = Bitmap::of(&[7, 7, 7, 7]);
    assert_eq!(collect_single(&bitmap), vec![7]);
    assert_eq!(collect_batches(&bitmap), vec![vec![7]]);
}

#[test]
fn cursors_over_one_set_are_independent() {
    let bitmap = Bitmap::of(&[1, 2, 3]);
    let mut a = bitmap.iter();
    let mut b = bitmap.iter();
    assert_eq!(a.next(), Some(1));
    assert_eq!(a.next(), Some(2));
    assert_eq!(b.next(), Some(1));
    assert_eq!(a.next(), Some(3));
    assert_eq!(b.next(), Some(2));
}

#[test]
fn later_batches_exceed_earlier_ones() {
    let values: Vec<u32> = (0..80u32).map(|i| (i * 37) % 101).collect();
    let bitmap = Bitmap::of(&values);
    let batches = collect_batches(&bitmap);
    assert_eq!(batches.len(), 3);
    for i in 0..batches.len() {
        for j in i + 1..batches.len() {
            assert!(batches[i].iter().max() < batches[j].iter().min());
        }
    }
}
