use std::cmp::Ordering;

use indexing::algorithms::binary_search;
use indexing::algorithms::binary_search_by;
use indexing::algorithms::binary_search_by_prange;
use indexing::algorithms::binary_search_by_pslice;
use indexing::algorithms::copy;
use indexing::algorithms::copy_prange;
use indexing::algorithms::heapify;
use indexing::algorithms::insertion_sort_i32;
use indexing::algorithms::insertion_sort_indexes;
use indexing::algorithms::insertion_sort_pointerindex;
use indexing::algorithms::insertion_sort_prange_lower;
use indexing::algorithms::insertion_sort_ranges;
use indexing::algorithms::lower_bound;
use indexing::algorithms::lower_bound_prange;
use indexing::algorithms::lower_bound_pslice;
use indexing::algorithms::merge_internal_indices;
use indexing::algorithms::merge_internal_ranges;
use indexing::algorithms::quicksort;
use indexing::algorithms::quicksort_bounds;
use indexing::algorithms::quicksort_prange;
use indexing::algorithms::quicksort_range;
use indexing::algorithms::zip_dot_i32;
use indexing::algorithms::zip_dot_i32_prange;

#[test]
fn test_quicksort() {
    let mut data: Vec<i32> = vec![1, 0];
    quicksort_range(&mut data);
    assert_eq!(data, vec![0, 1]);

    let mut data: Vec<i32> = vec![1, 2, 2, 1, 3, 3, 2, 3];
    quicksort_range(&mut data);
    assert_eq!(data, vec![1, 1, 2, 2, 2, 3, 3, 3]);

    let mut data: Vec<i32> = vec![1, 4, 2, 0, 3];
    quicksort_range(&mut data);
    assert_eq!(data, vec![0, 1, 2, 3, 4]);

    let mut data: Vec<i32> = vec![4, 3, 2, 1, 0];
    quicksort_range(&mut data);
    assert_eq!(data, vec![0, 1, 2, 3, 4]);

    let mut data: Vec<i32> = vec![0, 1, 2, 3, 4];
    quicksort_range(&mut data);
    assert_eq!(data, vec![0, 1, 2, 3, 4]);

    let mut data: Vec<i32> = vec![0, 1, 5, 2, 3, 4];
    quicksort_range(&mut data);
    assert_eq!(data, vec![0, 1, 2, 3, 4, 5]);

    let mut data: Vec<i32> = vec![0, 1, 1, -1, 0, -1];
    quicksort_range(&mut data);
    assert_eq!(data, vec![-1, -1, 0, 0, 1, 1]);
}

fn shuffled(len: usize) -> Vec<i32> {
    let mut data: Vec<i32> = vec![0; len];
    for (index, elt) in data.iter_mut().enumerate() {
        *elt = ((index * 123) % len) as i32;
    }
    data
}

fn sorted_copy(v: &[i32]) -> Vec<i32> {
    let mut w = v.to_vec();
    w.sort();
    w
}

#[test]
fn test_quicksort_long() {
    // Long enough to leave the insertion-sort fallback and exercise the
    // partition loop in all three variants.
    let data = shuffled(100);
    let ans = sorted_copy(&data);

    let mut a = data.clone();
    quicksort_range(&mut a);
    assert_eq!(a, ans);

    let mut b = data.clone();
    quicksort_prange(&mut b);
    assert_eq!(b, ans);

    let mut c = data.clone();
    quicksort_bounds(&mut c);
    assert_eq!(c, ans);

    let mut d = data.clone();
    quicksort(&mut d);
    assert_eq!(d, ans);
}

#[test]
fn test_quicksort_minimum_last() {
    // The unique minimum sitting at the back steers the median-of-three
    // choice to the last cell and leaves the partition scan at the
    // front.
    let mut data: Vec<i32> = vec![5; 30];
    for (index, elt) in data.iter_mut().enumerate() {
        *elt = 6 + (index % 7) as i32;
    }
    let last = data.len() - 1;
    data[last] = 1;
    let ans = sorted_copy(&data);
    quicksort_range(&mut data);
    assert_eq!(data, ans);
}

#[test]
fn test_insertion_sort() {
    let mut data: Vec<i32> = vec![2, 1];
    insertion_sort_indexes(&mut data, |a, b| a < b);
    assert_eq!(data, vec![1, 2]);

    let mut data: Vec<i32> = vec![2, 1, 3];
    insertion_sort_indexes(&mut data, |a, b| a < b);
    assert_eq!(data, vec![1, 2, 3]);

    let mut data: Vec<i32> = vec![2, 0, 2, 3, 4, 1, 0];
    insertion_sort_indexes(&mut data, |a, b| a < b);
    assert_eq!(data, vec![0, 0, 1, 2, 2, 3, 4]);

    let mut data = shuffled(100);
    let data2 = sorted_copy(&data);
    insertion_sort_indexes(&mut data, |a, b| a < b);
    assert_eq!(data, data2);
}

#[test]
fn test_insertion_sort_variants() {
    let data = shuffled(60);
    let ans = sorted_copy(&data);

    let mut a = data.clone();
    insertion_sort_ranges(&mut a, |x, y| x < y);
    assert_eq!(a, ans);

    let mut b = data.clone();
    insertion_sort_pointerindex(&mut b, |x, y| x < y);
    assert_eq!(b, ans);

    let mut c = data.clone();
    insertion_sort_prange_lower(&mut c, |x, y| x < y);
    assert_eq!(c, ans);
}

#[test]
fn test_merge_internal() {
    let mut buffer: Vec<i32> = vec![0; 128];
    let a = (0..15).collect::<Vec<i32>>();
    let b = (1..25).filter(|&x| x % 2 == 0).collect::<Vec<i32>>();
    // data to sort
    let data = [&a[..], &b[..]].concat();
    let mut ans = data.clone();
    ans.sort();

    {
        let mut workspace = data.clone();
        merge_internal_indices(&mut workspace, a.len(), &mut buffer).unwrap();
        assert_eq!(workspace, ans);
        assert!(buffer.iter().all(|x| *x == 0));
    }
    {
        let mut workspace = data.clone();
        merge_internal_ranges(&mut workspace, a.len(), &mut buffer).unwrap();
        assert_eq!(workspace, ans);
        assert!(buffer.iter().all(|x| *x == 0));
    }
}

#[test]
fn test_merge_internal_short_buffer() {
    // Both merge routines refuse a buffer shorter than the left run.
    let mut data: Vec<i32> = vec![1, 3, 2, 4];
    let mut buffer: Vec<i32> = vec![0; 1];
    let r = merge_internal_indices(&mut data, 2, &mut buffer);
    assert!(r.is_err());
    assert_eq!(r.unwrap_err().0, "merge_internal: data or buffer too short");
    assert_eq!(data, vec![1, 3, 2, 4]);
    let r = merge_internal_ranges(&mut data, 2, &mut buffer);
    assert!(r.is_err());
    assert_eq!(data, vec![1, 3, 2, 4]);
}

#[test]
fn test_heapify() {
    let mut data: Vec<i32> = vec![8, 12, 9, 7, 22, 3, 26, 14, 11, 15, 22];
    let heap: Vec<i32> = vec![3, 7, 8, 11, 15, 9, 26, 14, 12, 22, 22];
    heapify(&mut data);
    assert_eq!(data, heap);
}

#[test]
fn test_binary_search() {
    let data: Vec<i32> = vec![3, 7, 8, 11, 15, 22, 26];
    assert_eq!(binary_search(&data, &3), Ok(0));
    assert_eq!(binary_search(&data, &2), Err(0));

    let elts: Vec<i32> = vec![1, 2, 3, 4, 5, 6, 7, 8, 9, 10, 11, 25, 26, 27, 28];

    for elt in &elts {
        assert_eq!(binary_search(&data, elt), data.binary_search(elt));
    }
}

#[test]
fn test_binary_search_by_variants() {
    let data: Vec<i32> = vec![3, 7, 8, 11, 15, 22, 26];
    let elts: Vec<i32> = vec![1, 2, 3, 4, 5, 6, 7, 8, 9, 10, 11, 25, 26, 27, 28];
    for elt in &elts {
        let expected = data.binary_search(elt);
        let find = *elt;
        assert_eq!(binary_search_by(&data, move |x: &i32| x.cmp(&find)), expected);
        assert_eq!(
            binary_search_by_prange(&data, move |x: &i32| x.cmp(&find)),
            expected
        );
        assert_eq!(
            binary_search_by_pslice(&data, move |x: &i32| x.cmp(&find)),
            expected
        );
    }
}

#[test]
fn test_binary_search_by_ordering() {
    // A comparator that never answers Equal always reports a miss.
    let data: Vec<i32> = vec![1, 2, 3];
    let r = binary_search_by(&data, |_x: &i32| Ordering::Greater);
    assert_eq!(r, Err(0));
    let r = binary_search_by(&data, |_x: &i32| Ordering::Less);
    assert_eq!(r, Err(3));
}

#[test]
fn test_lower_bound() {
    let data: Vec<i32> = vec![3, 7, 8, 8, 8, 11, 11, 11, 15, 22, 22, 26];
    assert_eq!(lower_bound(&data, &8), 2);
    assert_eq!(lower_bound(&data, &7), 1);

    let elts: Vec<i32> = vec![1, 2, 3, 4, 5, 6, 7, 8, 9, 10, 11, 25, 26, 27, 28];

    for elt in &elts {
        assert_eq!(
            lower_bound(&data, elt),
            data.binary_search_by(|x| if x >= elt {
                Ordering::Greater
            } else {
                Ordering::Less
            })
            .unwrap_err()
        );
    }
}

#[test]
fn test_lower_bound_pointer() {
    let data: Vec<i32> = vec![3, 7, 8, 8, 8, 11, 11, 11, 15, 22, 22, 26];
    assert_eq!(lower_bound_prange(&data, &8), 2);
    assert_eq!(lower_bound_prange(&data, &7), 1);

    let elts: Vec<i32> = vec![1, 2, 3, 4, 5, 6, 7, 8, 9, 10, 11, 25, 26, 27, 28];

    for elt in &elts {
        assert_eq!(
            lower_bound_prange(&data, elt),
            data.binary_search_by(|x| if x >= elt {
                Ordering::Greater
            } else {
                Ordering::Less
            })
            .unwrap_err()
        );
    }
}

#[test]
fn test_lower_bound_example() {
    // Find the lower bound for 2: the point exactly between the ones
    // and the twos.
    let data: Vec<i32> = vec![0, 1, 1, 2, 2, 2, 3, 4];
    assert_eq!(lower_bound(&data, &2), 3);
    assert_eq!(lower_bound_prange(&data, &2), 3);
    assert_eq!(lower_bound_pslice(&data, |x| *x < 2), 3);
}

#[test]
fn test_lower_bound_pslice_predicate() {
    let data: Vec<i32> = vec![3, 7, 8, 8, 8, 11];
    assert_eq!(lower_bound_pslice(&data, |x| *x < 8), 2);
    assert_eq!(lower_bound_pslice(&data, |x| *x < 3), 0);
    assert_eq!(lower_bound_pslice(&data, |x| *x < 100), 6);
}

#[test]
fn test_zip_dot() {
    let xs: Vec<i32> = vec![1, 2, 3, 4];
    let ys: Vec<i32> = vec![5, 6, 7, 8];
    assert_eq!(zip_dot_i32(&xs, &ys), 5 + 12 + 21 + 32);
    assert_eq!(zip_dot_i32_prange(&xs, &ys), 70);
    // Different lengths stop at the shorter vector.
    let zs: Vec<i32> = vec![5, 6];
    assert_eq!(zip_dot_i32(&xs, &zs), 17);
    assert_eq!(zip_dot_i32_prange(&xs, &zs), 17);
}

#[test]
fn test_copy() {
    let xs: Vec<i32> = vec![1, 2, 3];
    let mut ys: Vec<i32> = vec![0, 0, 0, 9];
    copy(&xs, &mut ys);
    assert_eq!(ys, vec![1, 2, 3, 9]);
    let mut zs: Vec<i32> = vec![0, 0];
    copy_prange(&xs, &mut zs);
    assert_eq!(zs, vec![1, 2]);
    let mut ws: Vec<i32> = vec![7, 7, 7];
    copy_prange(&xs, &mut ws);
    assert_eq!(ws, vec![1, 2, 3]);
}

#[test]
fn algorithms_test_quicksort() {
    let mut data: Vec<i32> = vec![1, 0];
    quicksort(&mut data);
    assert_eq!(data, vec![0, 1]);

    let mut data: Vec<i32> = vec![1, 2, 2, 1, 3, 3, 2, 3];
    quicksort(&mut data);
    assert_eq!(data, vec![1, 1, 2, 2, 2, 3, 3, 3]);

    let mut data: Vec<i32> = vec![1, 4, 2, 0, 3];
    quicksort(&mut data);
    assert_eq!(data, vec![0, 1, 2, 3, 4]);

    let mut data: Vec<i32> = vec![4, 3, 2, 1, 0];
    quicksort(&mut data);
    assert_eq!(data, vec![0, 1, 2, 3, 4]);

    let mut data: Vec<i32> = vec![0, 1, 2, 3, 4];
    quicksort(&mut data);
    assert_eq!(data, vec![0, 1, 2, 3, 4]);

    let mut data: Vec<i32> = vec![0, 1, 5, 2, 3, 4];
    quicksort(&mut data);
    assert_eq!(data, vec![0, 1, 2, 3, 4, 5]);

    let mut data: Vec<i32> = vec![0, 1, 1, -1, 0, -1];
    quicksort(&mut data);
    assert_eq!(data, vec![-1, -1, 0, 0, 1, 1]);
}

#[test]
fn algorithms_test_merge_internal() {
    let mut buffer: Vec<i32> = vec![0; 128];
    let a = (0..15).collect::<Vec<i32>>();
    let b = (1..25).filter(|&x| x % 2 == 0).collect::<Vec<i32>>();
    // data to sort
    let data = [&a[..], &b[..]].concat();
    let mut ans = data.clone();
    ans.sort();

    let mut workspace = data.clone();
    merge_internal_indices(&mut workspace, a.len(), &mut buffer).unwrap();
    assert_eq!(workspace, ans);
    assert!(buffer.iter().all(|x| *x == 0));
}

#[test]
fn algorithms_test_heapify() {
    let mut data: Vec<i32> = vec![8, 12, 9, 7, 22, 3, 26, 14, 11, 15, 22];
    let heap: Vec<i32> = vec![3, 7, 8, 11, 15, 9, 26, 14, 12, 22, 22];
    heapify(&mut data);
    assert_eq!(data, heap);
}

#[test]
fn algorithms_test_binary_search() {
    let data: Vec<i32> = vec![3, 7, 8, 11, 15, 22, 26];
    assert_eq!(binary_search(&data, &3), Ok(0));
    assert_eq!(binary_search(&data, &2), Err(0));

    let elts: Vec<i32> = vec![1, 2, 3, 4, 5, 6, 7, 8, 9, 10, 11, 25, 26, 27, 28];

    for elt in &elts {
        assert_eq!(binary_search(&data, elt), data.binary_search(elt));
    }
}

#[test]
fn test_heapify_property() {
    let mut data = shuffled(50);
    heapify(&mut data);
    for k in 0..data.len() {
        if 2 * k + 1 < data.len() {
            assert!(data[k] <= data[2 * k + 1]);
        }
        if 2 * k + 2 < data.len() {
            assert!(data[k] <= data[2 * k + 2]);
        }
    }
}

#[test]
fn test_insertion_sort_i32() {
    let mut data: Vec<i32> = vec![3, -1, 4, 1, -5, 9, 2, 6];
    insertion_sort_i32(&mut data);
    assert_eq!(data, vec![-5, -1, 1, 2, 3, 4, 6, 9]);
    let mut data = shuffled(80);
    let ans = sorted_copy(&data);
    insertion_sort_i32(&mut data);
    assert_eq!(data, ans);
}

#[test]
fn test_merge_internal_buffer_values() {
    // The buffer is used as swap space and ends up holding exactly its
    // own values again, though possibly reordered.
    let data: Vec<i32> = vec![0, 2, 4, 1, 3, 5];
    let scratch: Vec<i32> = vec![70, 80, 90, 60];

    let mut workspace = data.clone();
    let mut buffer = scratch.clone();
    merge_internal_indices(&mut workspace, 3, &mut buffer).unwrap();
    assert_eq!(workspace, vec![0, 1, 2, 3, 4, 5]);
    let mut back = buffer.clone();
    back.sort();
    assert_eq!(back, vec![60, 70, 80, 90]);

    let mut workspace = data.clone();
    let mut buffer = scratch.clone();
    merge_internal_ranges(&mut workspace, 3, &mut buffer).unwrap();
    assert_eq!(workspace, vec![0, 1, 2, 3, 4, 5]);
    let mut back = buffer.clone();
    back.sort();
    assert_eq!(back, vec![60, 70, 80, 90]);
}
