use fractal_compression::prelude::{DomainBlockLocation, RangeBlockLocation, Rotation, Transformation};
use fractal_compression::quadtree::compression::{
    bl, br, candidate_block, fallback_block, make_quadtree, tl, tr,
};
use fractal_compression::quadtree::io::{
    load_mappings, read_quadtree, save_mappings, write_quadtree,
};
use fractal_compression::quadtree::quadtree::Quadtree;
use fractal_compression::quadtree::{collect_mappings, QuadtreeSettings};
use fractal_compression::naive::io::{BinBufReader, BinBufWriter, StreamError};

#[test]
fn traversal() {
    let t1 = Quadtree::leaf(3);
    let t2 = Quadtree::leaf(69);
    let t3 = Quadtree::node(t1.clone(), t2.clone(), Quadtree::leaf(17), t1.clone());
    let t4 = Quadtree::leaf(861);

    let t = Quadtree::node(t1, t2, t3, t4);

    assert_eq!(t.prefix_leaves(), vec![3, 69, 3, 69, 17, 3, 861]);
}

fn rb(p0: usize, p1: usize, s0: usize, s1: usize) -> RangeBlockLocation {
    RangeBlockLocation { pos: (p0, p1), size: (s0, s1) }
}

#[test]
fn quadrants_of_a_block() {
    let b = rb(10, 20, 8, 6);
    assert_eq!(tl(b), rb(10, 20, 4, 3));
    assert_eq!(tr(b), rb(14, 20, 4, 3));
    assert_eq!(bl(b), rb(10, 23, 4, 3));
    assert_eq!(br(b), rb(14, 23, 4, 3));
}

#[test]
fn leaf_and_node_queries() {
    let l = Quadtree::leaf(1u8);
    assert!(l.is_leaf());
    assert!(!l.is_node());
    let n = Quadtree::node(l.clone(), l.clone(), l.clone(), l);
    assert!(n.is_node());
    assert!(!n.is_leaf());
}

#[test]
fn mapi_labels_leaves_with_their_blocks() {
    let t = Quadtree::node(
        Quadtree::leaf(1u32),
        Quadtree::node(Quadtree::leaf(2), Quadtree::leaf(3), Quadtree::leaf(4), Quadtree::leaf(5)),
        Quadtree::leaf(6),
        Quadtree::leaf(7),
    );
    let m = t.mapi(&|x: u32, b: RangeBlockLocation| (x, b), rb(0, 0, 8, 8));
    assert_eq!(
        m.prefix_leaves(),
        vec![
            (1, rb(0, 0, 4, 4)),
            (2, rb(4, 0, 2, 2)),
            (3, rb(6, 0, 2, 2)),
            (4, rb(4, 2, 2, 2)),
            (5, rb(6, 2, 2, 2)),
            (6, rb(0, 4, 4, 4)),
            (7, rb(4, 4, 4, 4)),
        ]
    );
}

#[test]
fn image_size_doubles_per_level() {
    let t = Quadtree::node(
        Quadtree::node(
            Quadtree::leaf(rb(0, 0, 4, 2)),
            Quadtree::leaf(rb(0, 0, 4, 2)),
            Quadtree::leaf(rb(0, 0, 4, 2)),
            Quadtree::leaf(rb(0, 0, 4, 2)),
        ),
        Quadtree::leaf(rb(0, 0, 1, 1)),
        Quadtree::leaf(rb(0, 0, 1, 1)),
        Quadtree::leaf(rb(0, 0, 1, 1)),
    );
    assert_eq!(t.image_size(), (16, 8));
}

fn settings(min: usize, max: usize) -> QuadtreeSettings {
    QuadtreeSettings {
        max_distance: 0.0861f32.to_bits(),
        minimum_range_splits: min,
        maximum_range_splits: max,
        max_neighbors: 3,
    }
}

#[test]
fn write_quadtree_bits() {
    // a node at depth 0 (not written: depth <= min), then leaves at depth 1
    // (written as `true`) except one node (written as `false`) with four
    // leaves at depth 2 (written as `true`).
    let t = Quadtree::node(
        Quadtree::leaf(rb(0, 0, 2, 2)),
        Quadtree::node(
            Quadtree::leaf(rb(2, 0, 1, 1)),
            Quadtree::leaf(rb(3, 0, 1, 1)),
            Quadtree::leaf(rb(2, 1, 1, 1)),
            Quadtree::leaf(rb(3, 1, 1, 1)),
        ),
        Quadtree::leaf(rb(0, 2, 2, 2)),
        Quadtree::leaf(rb(2, 2, 2, 2)),
    );
    let s = settings(0, 2);
    let mut w = BinBufWriter::new();
    write_quadtree(&mut w, &t, s, 0);
    assert_eq!(w.size_written(), 8);
    // bits: true, false, true, true, true, true, true, true
    assert_eq!(w.finish(), vec![0b1111_1101u8]);
}

#[test]
fn read_quadtree_reads_written_shape() {
    let t = Quadtree::node(
        Quadtree::leaf(rb(0, 0, 2, 2)),
        Quadtree::node(
            Quadtree::leaf(rb(2, 0, 1, 1)),
            Quadtree::leaf(rb(3, 0, 1, 1)),
            Quadtree::leaf(rb(2, 1, 1, 1)),
            Quadtree::leaf(rb(3, 1, 1, 1)),
        ),
        Quadtree::leaf(rb(0, 2, 2, 2)),
        Quadtree::leaf(rb(2, 2, 2, 2)),
    );
    let s = settings(0, 2);
    let mut w = BinBufWriter::new();
    write_quadtree(&mut w, &t, s, 0);
    let mut r = BinBufReader::new(w.finish());
    let back = read_quadtree(&mut r, (4, 4), (0, 0), s, 0).unwrap();
    assert_eq!(back.prefix_leaves(), t.prefix_leaves());
}

#[test]
fn read_quadtree_odd_sizes_and_depth_limits() {
    // below the maximum depth every block is a leaf without reading a bit
    let s = settings(0, 0);
    let mut r = BinBufReader::new(vec![]);
    let t = read_quadtree(&mut r, (5, 3), (1, 1), s, 1).unwrap();
    assert_eq!(t.prefix_leaves(), vec![rb(1, 1, 5, 3)]);
    // up to the minimum depth every block is cut without reading a bit;
    // the second halves take the odd row and column
    let mut r = BinBufReader::new(vec![]);
    let t = read_quadtree(&mut r, (5, 3), (0, 0), s, 0).unwrap();
    assert_eq!(
        t.prefix_leaves(),
        vec![rb(0, 0, 2, 1), rb(2, 0, 3, 1), rb(0, 1, 2, 2), rb(2, 1, 3, 2)]
    );
    // a bit is needed and missing
    let s = settings(0, 3);
    let mut r = BinBufReader::new(vec![]);
    assert!(matches!(
        read_quadtree(&mut r, (8, 8), (0, 0), s, 1),
        Err(StreamError::UnexpectedEof)
    ));
}

/// A small deterministic generator standing in for random images.
struct Lcg(u64);

impl Lcg {
    fn next(&mut self) -> u64 {
        self.0 = self.0.wrapping_mul(6364136223846793005).wrapping_add(1442695040888963407);
        self.0 >> 33
    }
}

fn transformation_for(seed: u64, b: RangeBlockLocation, level: usize) -> (Transformation, bool) {
    let mut g = Lcg(seed ^ ((b.pos.0 as u64) << 20) ^ ((b.pos.1 as u64) << 40) ^ level as u64);
    let far = g.next() % 3 == 0;
    let c = (g.next() % 1000) as f32 / 1000.0 - 0.5;
    let v = (g.next() % 1000) as f32 / 1000.0;
    // a candidate of the index of the level above, or the stand-in block
    let number = 1usize << (level - 1);
    let db = if g.next() % 5 == 0 {
        fallback_block(b)
    } else {
        candidate_block(64, 64, level, g.next() as usize % (number * number))
    };
    ((db, c.to_bits(), v.to_bits()), far)
}

#[test]
fn quadtree_saving() {
    let s = QuadtreeSettings {
        max_distance: 0.0861f32.to_bits(),
        minimum_range_splits: 0,
        maximum_range_splits: 4,
        max_neighbors: 3,
    };

    for seed in 0..5u64 {
        let root = rb(0, 0, 64, 64);
        let evaluate = |b: RangeBlockLocation, level: usize| transformation_for(seed, b, level);
        let qt = make_quadtree(root, s, 0, &evaluate);
        let t = collect_mappings(&qt, root);

        let (buf, size) = save_mappings(&t, s);
        assert_eq!(size, buf.len());

        let (s2, dims, read, tree) = load_mappings(buf).unwrap();
        assert_eq!(dims, (64, 64));
        assert_eq!(s2.minimum_range_splits, 0);
        assert_eq!(s2.maximum_range_splits, 4);
        assert_eq!(s2.max_distance, s.max_distance);
        assert_eq!(tree.prefix_leaves(), t.1.prefix_leaves());
        assert_eq!(tree, t.1);

        assert_eq!(read.len(), t.0.len());
        for (k, v) in read.entries() {
            let actual = t.0.get(&k).unwrap();
            assert_eq!(v.0, actual.0);
            assert_eq!(v.1, actual.1);
            assert_eq!(v.2, actual.2);
        }
        for (k, _) in t.0.entries() {
            assert!(read.get(&k).is_some());
        }
    }
}

#[test]
fn load_mappings_short_file_fails() {
    assert!(matches!(load_mappings(vec![0; 3]), Err(StreamError::UnexpectedEof)));
}

#[test]
fn make_quadtree_respects_split_limits() {
    // always "far": cut down to the maximum depth
    let s = settings(1, 2);
    let all_far = |_b: RangeBlockLocation, l: usize| (l, true);
    let t = make_quadtree(rb(0, 0, 16, 16), s, 0, &all_far);
    // levels 0 and 1 are cut without asking, level 2 is cut since far and
    // 2 - 1 < 2, level 3 leaves: 4^3 leaves labelled 3
    assert_eq!(t.prefix_leaves(), vec![3usize; 64]);
    // never "far": leaves right below the minimum
    let never_far = |_b: RangeBlockLocation, l: usize| (l, false);
    let t = make_quadtree(rb(0, 0, 16, 16), s, 0, &never_far);
    assert_eq!(t.prefix_leaves(), vec![2usize; 16]);
}

#[test]
fn quadtree_saving_keeps_turned_and_flipped_blocks() {
    let s = settings(0, 1);
    let root = rb(0, 0, 8, 8);
    let rotations = [Rotation::Zero, Rotation::Quarter, Rotation::Half, Rotation::ThreeQuarter];
    let evaluate = |b: RangeBlockLocation, _level: usize| {
        let k = b.pos.0 / 4 * 2 + b.pos.1 / 4;
        let db = DomainBlockLocation {
            pos: (b.pos.0 + 3, b.pos.1 + 5),
            rotation: rotations[k % 4],
            flipped: k % 2 == 1,
            size: (7, 3),
        };
        ((db, (k as f32).to_bits(), 0.25f32.to_bits()), false)
    };
    let qt = make_quadtree(root, s, 0, &evaluate);
    let t = collect_mappings(&qt, root);
    let (buf, _) = save_mappings(&t, s);
    let (_, dims, read, tree) = load_mappings(buf).unwrap();
    assert_eq!(dims, (8, 8));
    assert_eq!(tree, t.1);
    assert_eq!(read.len(), 4);
    for (k, v) in t.0.entries() {
        assert_eq!(read.get(&k), Some(&v));
    }
}
