use fractal_compression::prelude::{
    domain_block_window, get_domainblock, get_rangeblock, rotate_block, Arr, DomainBlockLocation,
    Mappings, RangeBlockLocation, Rotation,
};
use std::cmp::Ordering;

fn rb(p0: usize, p1: usize, s0: usize, s1: usize) -> RangeBlockLocation {
    RangeBlockLocation { pos: (p0, p1), size: (s0, s1) }
}

fn sample(h: usize, w: usize) -> Arr<u32> {
    Arr::from_shape_vec(h, w, (0..(h * w) as u32).collect())
}

#[test]
fn rotate_block_quarter_turns() {
    let a = sample(2, 3); // 0 1 2 / 3 4 5
    let q = rotate_block(&a, Rotation::Quarter);
    assert_eq!(q.dim(), (3, 2));
    assert_eq!(q.data(), &vec![3, 0, 4, 1, 5, 2]);
    let h = rotate_block(&a, Rotation::Half);
    assert_eq!(h.data(), &vec![5, 4, 3, 2, 1, 0]);
    let t = rotate_block(&a, Rotation::ThreeQuarter);
    assert_eq!(t.data(), &vec![2, 5, 1, 4, 0, 3]);
    let z = rotate_block(&a, Rotation::Zero);
    assert_eq!(z.data(), a.data());
}

#[test]
fn rotations_compose() {
    let a = sample(3, 5);
    let back = rotate_block(&rotate_block(&a, Rotation::Quarter), Rotation::ThreeQuarter);
    assert_eq!(back.dim(), a.dim());
    assert_eq!(back.data(), a.data());
    let back = rotate_block(&rotate_block(&a, Rotation::ThreeQuarter), Rotation::Quarter);
    assert_eq!(back.data(), a.data());
    let back = rotate_block(&rotate_block(&a, Rotation::Half), Rotation::Half);
    assert_eq!(back.data(), a.data());
    let twice = rotate_block(&rotate_block(&a, Rotation::Quarter), Rotation::Quarter);
    assert_eq!(twice.data(), rotate_block(&a, Rotation::Half).data());
}

#[test]
fn blocks_are_cut_out() {
    let a = sample(4, 5);
    let b = get_rangeblock(&a, rb(1, 2, 2, 3));
    assert_eq!(b.dim(), (2, 3));
    assert_eq!(b.data(), &vec![7, 8, 9, 12, 13, 14]);
    assert_eq!(a.get(3, 4), 19);
    let db = DomainBlockLocation { pos: (2, 0), rotation: Rotation::Half, flipped: false, size: (2, 2) };
    assert_eq!(get_domainblock(&a, db).data(), &vec![10, 11, 15, 16]);
}

#[test]
fn windows_in_turned_images() {
    let a = sample(6, 7);
    for rot in [Rotation::Zero, Rotation::Quarter, Rotation::Half, Rotation::ThreeQuarter] {
        let db = DomainBlockLocation { pos: (1, 2), rotation: rot, flipped: false, size: (3, 4) };
        let turned = rotate_block(&a, rot);
        let window = get_rangeblock(&turned, domain_block_window(6, 7, db));
        let expected = rotate_block(&get_domainblock(&a, db), rot);
        assert_eq!(window.dim(), expected.dim());
        assert_eq!(window.data(), expected.data());
    }
    let db = DomainBlockLocation { pos: (1, 2), rotation: Rotation::Quarter, flipped: false, size: (3, 4) };
    assert_eq!(domain_block_window(6, 7, db), rb(2, 2, 4, 3));
}

#[test]
fn mappings_insert_replaces() {
    let mut m = Mappings::new();
    let db = DomainBlockLocation::default();
    assert_eq!(m.len(), 0);
    m.insert(rb(0, 0, 1, 1), (db, 1, 2));
    m.insert(rb(0, 1, 1, 1), (db, 3, 4));
    m.insert(rb(0, 0, 1, 1), (db, 5, 6));
    assert_eq!(m.len(), 2);
    assert_eq!(m.get(&rb(0, 0, 1, 1)), Some(&(db, 5, 6)));
    assert_eq!(m.get(&rb(0, 1, 1, 1)), Some(&(db, 3, 4)));
    assert_eq!(m.get(&rb(1, 1, 1, 1)), None);
    assert_eq!(m.entries().len(), 2);
}

#[test]
fn domain_block_order_ignores_size() {
    let a = DomainBlockLocation { pos: (1, 2), rotation: Rotation::Half, flipped: false, size: (4, 4) };
    let b = DomainBlockLocation { pos: (1, 3), rotation: Rotation::Zero, flipped: false, size: (4, 4) };
    let c = DomainBlockLocation { rotation: Rotation::ThreeQuarter, ..a };
    let d = DomainBlockLocation { flipped: true, ..a };
    let e = DomainBlockLocation { size: (8, 8), ..a };
    assert_eq!(a.partial_cmp(&b), Some(Ordering::Less));
    assert_eq!(b.partial_cmp(&a), Some(Ordering::Greater));
    assert_eq!(a.partial_cmp(&c), Some(Ordering::Less));
    assert_eq!(a.partial_cmp(&d), Some(Ordering::Less));
    assert_eq!(a.partial_cmp(&e), Some(Ordering::Equal));
    assert_ne!(a, e);
}

#[test]
fn defaults() {
    assert_eq!(Rotation::default(), Rotation::Zero);
    assert_eq!(RangeBlockLocation::default(), rb(0, 0, 0, 0));
    let d = DomainBlockLocation::default();
    assert_eq!(d.pos, (0, 0));
    assert_eq!(d.size, (0, 0));
    assert!(!d.flipped);
}
