use indexing::Container;
use indexing::Provable;

#[test]
fn test_pointer_range_basics() {
    let c = Container::new(vec![10, 20, 30, 40]);
    let r = c.pointer_range();
    assert_eq!(r.len(), 4);
    assert!(!r.is_empty());
    let ne = r.nonempty().unwrap();
    assert_eq!(*c.at_ptr(ne.first()), 10);
    assert_eq!(*c.at_ptr(ne.last()), 40);
    assert_eq!(*c.at_ptr(ne.upper_middle()), 30);
    assert_eq!(c.distance_to(r.past_the_end()), 4);
    assert_eq!(ne.tail().len(), 3);
    assert_eq!(ne.init().len(), 3);
    assert!(c.empty_range().is_empty());
    assert!(c.pointer_range_to(ne.first()).is_empty());
    assert_eq!(c.pointer_range_from(ne.first()).len(), 4);
}

#[test]
fn test_pointer_range_split_and_advance() {
    let c = Container::new(vec![0, 1, 2, 3, 4]);
    let r = c.pointer_range();
    let ne = r.nonempty().unwrap();
    let (a, b) = ne.split_in_half();
    assert_eq!(a.len(), 2);
    assert_eq!(b.len(), 3);
    let mut scan = ne;
    assert!(scan.advance());
    assert!(scan.advance_back());
    assert_eq!(scan.len(), 3);
    assert_eq!(c.distance_to(scan.first()), 1);
    // advance on a single-element pointer range refuses to move.
    let single = Container::new(vec![7]);
    let mut s = single.pointer_range().nonempty().unwrap();
    assert!(!s.advance());
    assert!(!s.advance_back());
    assert_eq!(s.len(), 1);
}

#[test]
fn test_pointer_slice_representations() {
    // The end-delimited and length-delimited representations denote the
    // same interval and convert freely.
    let c = Container::new(vec![5, 6, 7, 8, 9]);
    let s = c.pointer_slice();
    assert_eq!(s.len(), 5);
    assert!(!s.is_empty());
    let ne = s.nonempty().unwrap();
    assert_eq!(*c.at_ptr(ne.first()), 5);
    assert_eq!(*c.at_ptr(ne.last()), 9);
    assert_eq!(*c.at_ptr(ne.upper_middle()), 7);
    assert_eq!(c.distance_to(s.past_the_end()), 5);

    let pr = s.as_prange();
    assert_eq!(pr.len(), 5);
    let back = pr.as_pslice();
    assert!(back == s);

    let (a, b) = ne.split_in_half();
    assert_eq!(a.len(), 2);
    assert_eq!(b.len(), 3);
    assert_eq!(ne.tail().len(), 4);
    assert_eq!(ne.init().len(), 4);

    let mut w = ne;
    assert!(w.advance());
    assert_eq!(w.len(), 4);
    assert!(w.advance_back());
    assert_eq!(w.len(), 3);
    let single = Container::new(vec![7]);
    let mut s1 = single.pointer_slice().nonempty().unwrap();
    assert!(!s1.advance());
    assert!(!s1.advance_back());
}

#[test]
fn test_pindex_after_no_proof() {
    let c = Container::new(vec![1, 2]);
    let r = c.pointer_range().nonempty().unwrap();
    let i = r.first();
    assert_eq!(i.offset(), 0);
    assert_eq!(i.after().offset(), 1);
    assert_eq!(i.no_proof().offset(), 0);
    assert!(r.first() == r.init().nonempty().unwrap().last());
}

#[test]
fn test_swap_ptr_and_rotate() {
    let mut c = Container::new(vec![1, 2, 3, 4]);
    let r = c.pointer_range().nonempty().unwrap();
    c.swap_ptr(r.first(), r.last());
    assert_eq!(c.as_slice(), &[4, 2, 3, 1]);
    c.swap_ptr(r.first(), r.last());
    c.swap_ptr(r.first(), r.first());
    assert_eq!(c.as_slice(), &[1, 2, 3, 4]);
    c.rotate1_prange(r);
    assert_eq!(c.as_slice(), &[4, 1, 2, 3]);
}

#[test]
fn test_scan_tail() {
    let c = Container::new(vec![0, 1, 1, 1, 2]);
    let r = c.pointer_range().nonempty().unwrap();
    let mut it = r.iter();
    let mut fourth = it.next().unwrap();
    for _ in 0..3 {
        fourth = it.next().unwrap();
    }
    // scan backward over the ones; the scanned range includes the
    // starting position itself.
    let tail = c.scan_tail_(fourth, |x| *x == 1);
    assert_eq!(tail.len(), 3);
    assert_eq!(c.distance_to(tail.first()), 1);
}

#[test]
fn test_scan_pointer_ranges() {
    let c = Container::new(vec![1, 1, 2, 3, 1]);
    let r = c.pointer_range();
    let (ones, rest) = c.scan_pointer_range(r, |x| *x == 1);
    assert_eq!(ones.len(), 2);
    assert_eq!(rest.len(), 3);
    let (front, suffix) = c.scan_pointer_range_rev(r, |x| *x == 1);
    assert_eq!(front.len(), 4);
    assert_eq!(suffix.len(), 1);
}

#[test]
fn test_split_at_pointer_and_nonempty_range() {
    let c = Container::new(vec![9, 8, 7]);
    let r = c.pointer_range().nonempty().unwrap();
    let mid = r.upper_middle();
    let (a, b) = c.split_at_pointer(mid);
    assert_eq!(a.len(), 1);
    assert_eq!(b.len(), 2);
    let joined = c.nonempty_range(r.first(), r.past_the_end()).unwrap();
    assert_eq!(joined.len(), 3);
    assert!(c.nonempty_range(mid, r.first()).is_err());
    assert!(c.nonempty_range(mid, mid).is_err());
}

#[test]
fn test_prange_iter_both_ends() {
    let c = Container::new(vec![4, 5, 6]);
    let mut it = c.pointer_range().iter();
    assert_eq!(*c.at_ptr(it.next().unwrap()), 4);
    assert_eq!(*c.at_ptr(it.next_back().unwrap()), 6);
    assert_eq!(*c.at_ptr(it.next().unwrap()), 5);
    assert!(it.next().is_none());
    assert!(it.next_back().is_none());
}

#[test]
fn test_slice_prange() {
    let c = Container::new(vec![1, 2, 3, 4, 5]);
    let r = c.pointer_range().nonempty().unwrap();
    assert_eq!(c.slice_prange(r.tail()), &[2, 3, 4, 5]);
    let (a, b) = r.split_in_half();
    assert_eq!(c.slice_prange(a), &[1, 2]);
    assert_eq!(c.slice_prange(b), &[3, 4, 5]);
    assert_eq!(c.slice_pslice(c.pointer_slice()), &[1, 2, 3, 4, 5]);
    assert_eq!(c.slice_pslice(b.as_pslice()), &[3, 4, 5]);
}

#[test]
fn test_split_container_at_pointer() {
    let mut c = Container::new(vec![1, 2, 3, 4, 5]);
    let r = c.pointer_range().nonempty().unwrap();
    let mid = r.upper_middle();
    let total = c.split_container_at_pointer(mid, |mut c1: Container<i32>, r1, mut c2: Container<i32>, r2| {
        // Two independently branded halves, each writable at once.
        let left_len = r1.len();
        let right_len = r2.len();
        if let Ok(ne1) = r1.nonempty() {
            c1.swap_ptr(ne1.first(), ne1.last());
        }
        if let Ok(ne2) = r2.nonempty() {
            c2.swap_ptr(ne2.first(), ne2.last());
        }
        (c1, c2, left_len + right_len)
    });
    assert_eq!(total, 5);
    assert_eq!(c.as_slice(), &[2, 1, 5, 4, 3]);
    // Particles of the outer scope are still usable: the brand survived.
    assert_eq!(*c.at_ptr(r.first()), 2);
}
