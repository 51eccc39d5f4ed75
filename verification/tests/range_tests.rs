use indexing::scope;
use indexing::Container;
use indexing::Provable;

#[test]
fn join_add_proof() {
    let data: Vec<i32> = vec![1, 2, 3];
    scope(data, move |v: Container<i32>| {
        let r = v.range();
        if let Ok(r) = r.nonempty() {
            let (front, back) = r.frontiers();

            r.first();
            // test nonempty range methods
            front.join(r).unwrap().first();
            r.join(back).unwrap().first();
            front.join_cover(r).first();
            r.join_cover(back).first();
            r.join_cover(r).first();

            assert!(front.join(r).unwrap() == r);
            assert!(front.join_cover(back).no_proof() == r.no_proof());
            assert!(back.join_cover(front) == back);

            let (a, b) = r.split_in_half();
            assert!(a.join(b) == Ok(r));
            assert!(a.join_cover(back).no_proof() == r.no_proof());
            assert!(front.join_cover(a) == a);
            assert!(front.join_cover(b).no_proof() == r.no_proof());
        }
    });
}

#[test]
fn range_split_nonempty() {
    let data: Vec<i32> = vec![1, 2, 3, 4, 5];
    scope(data, move |v: Container<i32>| {
        for i in 0..v.len() {
            let r = v.vet_range(0..i).unwrap();
            if let Ok(r) = r.nonempty() {
                let (a, b) = r.split_in_half();
                assert!(b.len() > 0);
                assert_eq!(a.len() + b.len(), r.len());
                assert!(b.first().integer() < r.len());
            } else {
                let (a, b) = r.split_in_half();
                assert_eq!(a.len(), 0);
                assert_eq!(b.len(), 0);
                assert_eq!(a.start(), b.start());
            }
        }
    });
}

#[test]
fn test_split_in_half_rejoins() {
    // The two halves are exactly adjacent and join back to the whole.
    let c = Container::new(vec![0; 7]);
    let r = c.range();
    let (a, b) = r.split_in_half();
    assert_eq!(a.end(), b.start());
    let joined = a.join(b).unwrap();
    assert!(joined == r);
}

#[test]
fn test_split_at_clamps() {
    // Splitting past the end clamps to the end and reports the clamp.
    let c = Container::new(vec![0; 4]);
    let r = c.range();
    let (a, b, exact) = r.split_at(2);
    assert!(exact);
    assert_eq!((a.start(), a.end()), (0, 2));
    assert_eq!((b.start(), b.end()), (2, 4));
    let (a, b, exact) = r.split_at(9);
    assert!(!exact);
    assert_eq!((a.start(), a.end()), (0, 4));
    assert_eq!((b.start(), b.end()), (4, 4));
    let (_, _, exact) = r.split_at(4);
    assert!(exact);
}

#[test]
fn test_advance_single_element() {
    // advance on a single-element nonempty range returns false and
    // leaves the range unchanged.
    let c = Container::new(vec![9]);
    let mut r = c.range().nonempty().unwrap();
    assert!(!r.advance());
    assert_eq!(r.start(), 0);
    assert_eq!(r.end(), 1);
    assert!(!r.advance_back());
    assert_eq!(r.start(), 0);
    assert_eq!(r.end(), 1);
}

#[test]
fn test_advance_family() {
    let c = Container::new(vec![0; 5]);
    let mut r = c.range().nonempty().unwrap();
    assert!(r.advance_by(3));
    assert_eq!(r.start(), 3);
    assert!(!r.advance_by(2));
    assert_eq!(r.start(), 3);
    let next = r.advance_().unwrap();
    assert_eq!(next.start(), 4);
    assert!(next.advance_().is_err());
    assert_eq!(r.tail().as_range(), 4..5);
    assert_eq!(r.init().as_range(), 3..4);
}

#[test]
fn test_increase_decrease() {
    let c = Container::new(vec![0; 6]);
    let mut r = c.range();
    r.increase_start(2);
    assert_eq!(r.as_range(), 2..6);
    r.decrease_end(3);
    assert_eq!(r.as_range(), 2..3);
    r.increase_start(100);
    assert_eq!(r.as_range(), 3..3);
    r.decrease_end(1);
    assert_eq!(r.as_range(), 3..3);
}

#[test]
fn test_join_requires_adjacency() {
    let c = Container::new(vec![0; 6]);
    let a = c.vet_range(0..2).unwrap();
    let b = c.vet_range(3..6).unwrap();
    let d = c.vet_range(2..3).unwrap();
    assert!(a.join(b).is_err());
    let left = a.join(d).unwrap();
    assert_eq!((left.start(), left.end()), (0, 3));
    let whole = left.join(b).unwrap();
    assert!(whole == c.range());
}

#[test]
fn test_subdivide_yields_n_chunks() {
    // subdivide(n) yields exactly n nonempty adjacent chunks covering
    // the range when the range has at least n elements.
    let c = Container::new(vec![0; 10]);
    let r = c.range();
    let mut it = r.subdivide(4);
    let mut count = 0;
    let mut expected_start = 0;
    let mut total = 0;
    while let Some(part) = it.next() {
        assert!(part.len() > 0);
        assert_eq!(part.start(), expected_start);
        expected_start = part.end();
        total += part.len();
        count += 1;
    }
    assert_eq!(count, 4);
    assert_eq!(total, 10);
    assert_eq!(expected_start, 10);
}

#[test]
fn test_subdivide_short_range() {
    // A range shorter than the divisor yields nothing.
    let c = Container::new(vec![0; 7]);
    let r = c.range();
    let mut it = r.subdivide(8);
    assert!(it.next().is_none());
    assert!(it.next().is_none());
}

#[test]
fn test_subdivide_steps() {
    // The exact-fraction stepper: 8 elements in 3 chunks.
    let c = Container::new(vec![0; 8]);
    let mut it = c.range().subdivide(3);
    let a = it.next().unwrap();
    let b = it.next().unwrap();
    let d = it.next().unwrap();
    assert_eq!(a.as_range(), 0..2);
    assert_eq!(b.as_range(), 2..5);
    assert_eq!(d.as_range(), 5..8);
    assert!(it.next().is_none());

    let c = Container::new(vec![0; 3]);
    let mut it = c.range().subdivide(1);
    assert_eq!(it.next().unwrap().as_range(), 0..3);
    assert!(it.next().is_none());
}

#[test]
fn test_range_iter_both_ends() {
    let c = Container::new(vec![0; 3]);
    let mut it = c.range().iter();
    assert_eq!(it.next().unwrap().integer(), 0);
    assert_eq!(it.next_back().unwrap().integer(), 2);
    assert_eq!(it.into_range().as_range(), 1..2);
    assert_eq!(it.next().unwrap().integer(), 1);
    assert!(it.next().is_none());
    assert!(it.next_back().is_none());
}

#[test]
fn test_index_after_and_no_proof() {
    let c = Container::new(vec![4, 5, 6]);
    let i = c.vet(1).unwrap();
    assert_eq!(i.after().integer(), 2);
    assert_eq!(i.no_proof().integer(), 1);
    let r = c.range();
    assert_eq!(r.past_the_end().integer(), 3);
    let ne = r.nonempty().unwrap();
    assert!(ne.no_proof() == r);
}

#[test]
fn test_frontiers_empty() {
    let c = Container::new(vec![0; 5]);
    let (front, back) = c.range().frontiers();
    assert!(front.is_empty());
    assert!(back.is_empty());
    assert_eq!(front.as_range(), 0..0);
    assert_eq!(back.as_range(), 5..5);
    assert!(front.nonempty().is_err());
}

#[test]
fn test_forward_range_by() {
    let c = Container::new(vec![0; 6]);
    let r = c.vet_range(1..3).unwrap();
    let moved = c.forward_range_by(r, 2);
    assert_eq!(moved.as_range(), 3..5);
    let clamped = c.forward_range_by(r, 5);
    assert_eq!(clamped.as_range(), 6..6);
    let inside = c.range();
    let moved2 = inside.forward_range_by(r, 4);
    assert_eq!(moved2.as_range(), 5..6);
}

#[test]
fn test_subdivide_offset_range() {
    // Subdividing a range that does not begin at the container's base:
    // 8 elements starting at offset 1, in 3 chunks.
    let c = Container::new(vec![0; 9]);
    let r = c.vet_range(1..9).unwrap();
    let mut it = r.subdivide(3);
    assert_eq!(it.next().unwrap().as_range(), 1..3);
    assert_eq!(it.next().unwrap().as_range(), 3..6);
    assert_eq!(it.next().unwrap().as_range(), 6..9);
    assert!(it.next().is_none());
}
