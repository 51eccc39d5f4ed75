use indexing::scope;
use indexing::Container;

#[test]
fn test_intervals() {
    let data: Vec<usize> = vec![0; 8];
    let out = scope(data, |mut data: Container<usize>| {
        let r = data.range();
        let mut parts = r.subdivide(3);
        let mut index: usize = 0;
        while let Some(part) = parts.next() {
            let mut it = part.iter();
            while let Some(i) = it.next() {
                *data.at_mut(i) = index;
            }
            index += 1;
        }
        data.into_inner()
    });
    assert_eq!(out, vec![0, 0, 1, 1, 1, 2, 2, 2]);
}

#[test]
fn intervals() {
    let data: Vec<i32> = vec![0; 16];
    let out = scope(data, |mut arr: Container<i32>| {
        let r = arr.range();
        let mut it = r.iter();
        while let Some(i) = it.next() {
            *arr.at_mut(i) += 1;
        }
        arr.into_inner()
    });
    assert_eq!(out, vec![1; 16]);
}

#[test]
fn test_scan() {
    let data: Vec<i32> = vec![0, 0, 0, 1, 2];
    scope(data, |data: Container<i32>| {
        let r = data.range().nonempty().unwrap();
        let range = data.scan_from(r.first(), |elt| *elt == 0);
        assert_eq!(data.slice(range), &[0, 0, 0]);
        let range = data.scan_from(range.last(), |elt| *elt != 0);
        assert_eq!(data.slice(range), &[0, 1, 2]);
    });
}

#[test]
fn test_nonempty() {
    let data: Vec<i32> = vec![0, 1, 2, 3, 4, 5];
    scope(data, |data: Container<i32>| {
        let mut r = data.range().nonempty().unwrap();
        assert_eq!(*data.at(r.first()), 0);
        assert_eq!(*data.at(r.lower_middle()), 2);
        assert_eq!(*data.at(r.upper_middle()), 3);
        assert_eq!(*data.at(r.last()), 5);

        assert!(r.advance());
        assert_eq!(*data.at(r.first()), 1);
        assert_eq!(*data.at(r.lower_middle()), 3);
        assert_eq!(*data.at(r.upper_middle()), 3);
        assert_eq!(*data.at(r.last()), 5);

        assert!(r.advance());
        assert_eq!(*data.at(r.first()), 2);
        assert_eq!(*data.at(r.lower_middle()), 3);
        assert_eq!(*data.at(r.upper_middle()), 4);
        assert_eq!(*data.at(r.last()), 5);

        // skip to end
        while r.advance() {}
        assert_eq!(*data.at(r.first()), 5);
        assert_eq!(*data.at(r.lower_middle()), 5);
        assert_eq!(*data.at(r.upper_middle()), 5);
        assert_eq!(*data.at(r.last()), 5);
    });
}

#[test]
fn test_contains() {
    let data: Vec<i32> = vec![0, 1, 2, 3, 4, 5];
    scope(data, |data: Container<i32>| {
        let r = data.range();
        for i in 0..data.len() {
            assert!(r.contains(i).is_some());
            assert!(r.contains(i).unwrap() == data.vet(i).unwrap());
        }
        assert!(r.contains(r.len()).is_none());
        assert!(data.vet(r.len()).is_err());
    });
}

#[test]
fn test_vec() {
    let v: Vec<i32> = vec![0, 1];
    let out = scope(v, |v: Container<i32>| {
        let mut v = v.only_index();
        v.push(1);
        let end = v.push(2);
        assert_eq!(*v.at(end), 2);
        v.into_inner()
    });
    assert_eq!(out, vec![0, 1, 1, 2]);
}

#[test]
fn test_insert() {
    let v: Vec<i32> = vec![10, 30];
    let c = Container::new(v);
    let at = c.vet(1).unwrap();
    let mut c = c.only_index();
    c.insert(at, 20);
    assert_eq!(c.into_inner(), vec![10, 20, 30]);
}

#[test]
fn test_vet_boundaries() {
    // vet(N) fails; vet(N - 1) succeeds exactly when N >= 1.
    let empty = Container::new(Vec::<i32>::new());
    assert!(empty.vet(0).is_err());

    let c = Container::new(vec![7, 8, 9]);
    assert!(c.vet(3).is_err());
    assert!(c.vet(2).is_ok());
    assert_eq!(c.vet(2).unwrap().integer(), 2);
}

#[test]
fn test_vet_range_boundaries() {
    let c = Container::new(vec![7, 8, 9]);
    assert!(c.vet_range(0..3).is_ok());
    assert!(c.vet_range(1..1).is_ok());
    assert!(c.vet_range(2..1).is_err());
    assert!(c.vet_range(0..4).is_err());
}

#[test]
fn test_swap_involutive() {
    // swap twice restores the container; swap(i, i) is a no-op.
    let mut c = Container::new(vec![1, 2, 3, 4]);
    let i = c.vet(0).unwrap();
    let j = c.vet(3).unwrap();
    c.swap(i, j);
    let snapshot = c.as_slice().to_vec();
    assert_eq!(snapshot, vec![4, 2, 3, 1]);
    c.swap(i, j);
    assert_eq!(c.as_slice(), &[1, 2, 3, 4]);
    c.swap(j, j);
    assert_eq!(c.into_inner(), vec![1, 2, 3, 4]);
}

#[test]
fn test_rotate_roundtrip() {
    // rotate1_up then rotate1_down is the identity on the container.
    let mut c = Container::new(vec![1, 2, 3, 4, 5]);
    let r = c.vet_range(1..4).unwrap();
    c.rotate1_up(r);
    assert_eq!(c.as_slice(), &[1, 4, 2, 3, 5]);
    c.rotate1_down(r);
    assert_eq!(c.as_slice(), &[1, 2, 3, 4, 5]);
    c.rotate1_down(r);
    assert_eq!(c.as_slice(), &[1, 3, 4, 2, 5]);
    c.rotate1_up(r);
    assert_eq!(c.into_inner(), vec![1, 2, 3, 4, 5]);
}

#[test]
fn test_split_operations() {
    let c = Container::new(vec![9, 8, 7, 6]);
    let i = c.vet(1).unwrap();
    let (before, from) = c.split_at(i);
    assert_eq!((before.start(), before.end()), (0, 1));
    assert_eq!((from.start(), from.end()), (1, 4));
    let (through, after) = c.split_after(i);
    assert_eq!((through.start(), through.end()), (0, 2));
    assert_eq!((after.start(), after.end()), (2, 4));
    let (s, t) = c.split_around(from);
    assert_eq!((s.start(), s.end()), (0, 1));
    assert_eq!((t.start(), t.end()), (4, 4));
    assert_eq!(c.before(i).as_range(), 0..1);
    assert_eq!(c.after(i).as_range(), 2..4);
}

#[test]
fn test_before_after_complements() {
    // The two complements of an index are both empty exactly when the
    // container has a single element; they are never exactly adjacent,
    // so join refuses them whenever the index is valid.
    let single = Container::new(vec![42]);
    let i = single.vet(0).unwrap();
    assert!(single.before(i).is_empty());
    assert!(single.after(i).is_empty());
    assert!(single.before(i).join(single.after(i)).is_err());

    let c = Container::new(vec![1, 2]);
    let i = c.vet(0).unwrap();
    assert!(c.before(i).is_empty());
    assert!(!c.after(i).is_empty());
    assert!(c.before(i).join(c.after(i)).is_err());
}

#[test]
fn test_forward_backward() {
    let c = Container::new(vec![5, 6, 7]);
    let mut i = c.vet(0).unwrap();
    assert!(c.forward(&mut i));
    assert_eq!(i.integer(), 1);
    assert!(c.forward(&mut i));
    assert_eq!(i.integer(), 2);
    assert!(!c.forward(&mut i));
    assert_eq!(i.integer(), 2);
    assert!(c.backward(&mut i));
    assert!(c.backward(&mut i));
    assert!(!c.backward(&mut i));
    assert_eq!(i.integer(), 0);
    assert!(c.forward_by(&mut i, 2));
    assert_eq!(i.integer(), 2);
    assert!(!c.forward_by(&mut i, 5));
}

#[test]
fn test_scan_range_partition() {
    let data: Vec<i32> = vec![1, 1, 2, 3];
    let c = Container::new(data);
    let r = c.range();
    let (ones, rest) = c.scan_range(r, |x| *x == 1);
    assert_eq!(c.slice(ones), &[1, 1]);
    assert_eq!(c.slice(rest), &[2, 3]);
}

#[test]
fn test_error_description() {
    let c = Container::new(Vec::<i32>::new());
    let e = match c.vet(0) {
        Ok(_) => panic!("vet accepted an offset in an empty container"),
        Err(e) => e,
    };
    assert_eq!(e.description(), "index error");
    assert_eq!(indexing::index_error(), e);
}

#[test]
fn test_index_twice_disjoint() {
    let mut c = Container::new(vec![1, 2, 3, 4, 5, 6]);
    let r = c.vet_range(0..2).unwrap();
    let s = c.vet_range(3..5).unwrap();
    match c.index_twice(r, s) {
        Ok((a, b)) => {
            assert_eq!(a, &[1, 2]);
            assert_eq!(b, &[4, 5]);
            a[0] = 10;
            b[1] = 50;
        }
        Err(_) => panic!("disjoint ranges were refused"),
    }
    assert_eq!(c.as_slice(), &[10, 2, 3, 4, 50, 6]);
    // Overlapping ranges are refused.
    let t = c.vet_range(1..4).unwrap();
    assert!(c.index_twice(t, s).is_err());
}

#[test]
fn test_slices() {
    let c = Container::new(vec![1, 2, 3, 4]);
    let i = c.vet(2).unwrap();
    assert_eq!(c.slice_to(i), &[1, 2]);
    assert_eq!(c.slice_from(i), &[3, 4]);
    assert_eq!(c.as_slice(), &[1, 2, 3, 4]);
    let r = c.vet_range(1..3).unwrap();
    assert_eq!(c.slice(r), &[2, 3]);
}

#[test]
fn test_scan_from_rev() {
    let data: Vec<i32> = vec![2, 1, 1, 1, 0];
    let c = Container::new(data);
    let i = c.vet(3).unwrap();
    // Scan backward over the ones; the scanned range includes the
    // starting offset itself.
    let range = c.scan_from_rev(i, |x| *x == 1);
    assert_eq!(c.slice(range), &[1, 1, 1]);
    assert_eq!(range.as_range(), 1..4);
}
