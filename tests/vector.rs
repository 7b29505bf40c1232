use xi_text_core::{Height, Vector, VectorBuilder, MAX_LEAF, MIN_LEAF};

fn h(raw: usize) -> Height {
    Height::from_raw_frac(raw)
}

fn numbered(n: usize, height: usize) -> Vector<usize> {
    let mut v = Vector::new();
    for i in 0..n {
        v.push(h(height), i);
    }
    v
}

fn values(v: &Vector<usize>) -> Vec<usize> {
    let mut out = Vec::new();
    for chunk in v.iter_chunks(0, v.len()) {
        for (_, x) in chunk.iter() {
            out.push(*x);
        }
    }
    out
}

fn leaf_sizes_ok(v: &Vector<usize>) -> bool {
    let chunks = v.iter_chunks(0, v.len());
    if chunks.len() <= 1 {
        return chunks.iter().all(|c| c.len() >= 1 && c.len() <= MAX_LEAF);
    }
    chunks.iter().all(|c| c.len() >= MIN_LEAF && c.len() <= MAX_LEAF)
}

#[test]
fn height_raw_round_trip() {
    let x = Height::from_raw_frac(3 * 256 + 128);
    assert_eq!(x.as_raw_frac(), 896);
    assert_eq!(Height::zero().as_raw_frac(), 0);
    assert_eq!(x.add(h(4)).as_raw_frac(), 900);
    let mut y = h(10);
    y.add_assign(h(5));
    assert_eq!(y.as_raw_frac(), 15);
    assert_eq!(y.sub(h(5)).as_raw_frac(), 10);
}

#[test]
fn empty_vector() {
    let v: Vector<usize> = Vector::new();
    assert_eq!(v.len(), 0);
    assert_eq!(v.height().as_raw_frac(), 0);
    assert!(v.get(0).is_none());
    assert_eq!(v.height_of_index(0).as_raw_frac(), 0);
    assert_eq!(v.index_of_height(h(0)), 0);
    assert!(v.iter_chunks(0, 0).is_empty());
}

#[test]
fn singleton_and_get() {
    let v = Vector::singleton(h(7), "a");
    assert_eq!(v.len(), 1);
    assert_eq!(v.height().as_raw_frac(), 7);
    let (height, item) = v.get(0).unwrap();
    assert_eq!(height.as_raw_frac(), 7);
    assert_eq!(*item, "a");
    assert!(v.get(1).is_none());
}

#[test]
fn push_many_keeps_order_and_leaf_sizes() {
    let v = numbered(1000, 3);
    assert_eq!(v.len(), 1000);
    assert_eq!(v.height().as_raw_frac(), 3000);
    assert_eq!(values(&v), (0..1000).collect::<Vec<_>>());
    assert!(leaf_sizes_ok(&v));
    assert_eq!(v.get(517).unwrap().1, 517);
}

#[test]
fn insert_remove_set_keep_leaf_sizes() {
    let mut v = numbered(200, 1);
    let mut model: Vec<usize> = (0..200).collect();
    for k in 0..150 {
        let at = (k * 37) % (model.len() + 1);
        v.insert(at, h(2), 1000 + k);
        model.insert(at, 1000 + k);
        assert!(leaf_sizes_ok(&v));
    }
    for k in 0..300 {
        let at = (k * 53) % model.len();
        v.remove(at);
        model.remove(at);
        assert!(leaf_sizes_ok(&v));
    }
    for k in 0..model.len() {
        v.set(k, h(5), 7 * k);
        model[k] = 7 * k;
    }
    assert!(leaf_sizes_ok(&v));
    assert_eq!(values(&v), model);
    assert_eq!(v.height().as_raw_frac(), 5 * model.len());
}

#[test]
fn remove_down_to_empty() {
    let mut v = numbered(40, 1);
    while v.len() > 0 {
        v.remove(v.len() / 2);
        assert!(leaf_sizes_ok(&v));
    }
    assert_eq!(v.height().as_raw_frac(), 0);
}

#[test]
fn from_vec_splits_into_leaves() {
    for n in [1usize, 16, 32, 33, 47, 48, 64, 65, 100] {
        let items: Vec<(Height, usize)> = (0..n).map(|i| (h(i), i)).collect();
        let v = Vector::from_vec(items);
        assert_eq!(v.len(), n);
        assert!(leaf_sizes_ok(&v));
        assert_eq!(values(&v), (0..n).collect::<Vec<_>>());
        assert_eq!(v.height().as_raw_frac(), n * (n - 1) / 2);
    }
}

#[test]
fn builder_collects_in_order() {
    let mut b = VectorBuilder::new();
    for i in 0..50usize {
        b.push(h(1), i);
    }
    let v = b.build();
    assert_eq!(values(&v), (0..50).collect::<Vec<_>>());
    assert!(leaf_sizes_ok(&v));
}

#[test]
fn height_of_index_is_prefix_sum() {
    let items: Vec<(Height, usize)> = (0..100).map(|i| (h(i % 7), i)).collect();
    let v = Vector::from_vec(items);
    let mut sum = 0;
    for i in 0..=100 {
        assert_eq!(v.height_of_index(i).as_raw_frac(), sum);
        if i < 100 {
            sum += i % 7;
        }
    }
    assert_eq!(v.height().as_raw_frac(), sum);
}

#[test]
fn height_split_is_associative() {
    let items: Vec<(Height, usize)> = (0..90).map(|i| (h(3 * i + 1), i)).collect();
    let v = Vector::from_vec(items);
    let n = v.len();
    for k in 0..=n {
        let mut rest = 0;
        for chunk in v.iter_chunks(k, n) {
            for (height, _) in chunk.iter() {
                rest += height.as_raw_frac();
            }
        }
        assert_eq!(
            v.height_of_index(n).as_raw_frac(),
            v.height_of_index(k).as_raw_frac() + rest
        );
    }
}

#[test]
fn index_of_height_round_trip() {
    let items: Vec<(Height, usize)> = (0..80).map(|i| (h(10 + i % 3), i)).collect();
    let v = Vector::from_vec(items);
    for i in 0..=80 {
        assert_eq!(v.index_of_height(v.height_of_index(i)), i);
    }
}

#[test]
fn index_of_height_inside_an_element() {
    let v = Vector::from_vec(vec![(h(10), 0), (h(10), 1), (h(10), 2)]);
    assert_eq!(v.index_of_height(h(0)), 0);
    assert_eq!(v.index_of_height(h(9)), 0);
    assert_eq!(v.index_of_height(h(10)), 1);
    assert_eq!(v.index_of_height(h(25)), 2);
    assert_eq!(v.index_of_height(h(30)), 3);
}

#[test]
fn index_of_height_zero_height_tie_break() {
    // Elements 1 and 2 have zero height and sit at height 10, like element 3.
    let v = Vector::from_vec(vec![(h(10), 0), (h(0), 1), (h(0), 2), (h(5), 3), (h(0), 4)]);
    assert_eq!(v.height_of_index(1).as_raw_frac(), 10);
    assert_eq!(v.height_of_index(3).as_raw_frac(), 10);
    // The first element at that height wins.
    assert_eq!(v.index_of_height(h(10)), 1);
    assert_eq!(v.index_of_height(v.height_of_index(3)), 1);
    assert_eq!(v.index_of_height(h(12)), 3);
    // The total height reaches the trailing zero-height element.
    assert_eq!(v.index_of_height(h(15)), 4);
}

#[test]
fn index_of_height_across_leaves() {
    let mut items: Vec<(Height, usize)> = (0..70).map(|i| (h(4), i)).collect();
    items[31] = (h(0), 31);
    items[32] = (h(0), 32);
    let v = Vector::from_vec(items);
    let at = v.height_of_index(31);
    assert_eq!(at.as_raw_frac(), 124);
    assert_eq!(v.index_of_height(at), 31);
    assert_eq!(v.index_of_height(h(125)), 33);
    assert_eq!(v.index_of_height(v.height()), 70);
}

#[test]
fn iter_chunks_of_a_range() {
    let v = numbered(100, 1);
    let chunks = v.iter_chunks(10, 75);
    let got: Vec<usize> = chunks.iter().flat_map(|c| c.iter().map(|(_, x)| *x)).collect();
    assert_eq!(got, (10..75).collect::<Vec<_>>());
    assert!(chunks.iter().all(|c| !c.is_empty()));
    assert!(v.iter_chunks(20, 20).is_empty());
}
