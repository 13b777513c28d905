use fractal_compression::naive::io::{load_mappings, save_mappings, StreamError};
use fractal_compression::naive::{create_images, domain_block_grid, range_block_grid, NaiveCompressionSettings};
use fractal_compression::prelude::{
    Arr, DomainBlockLocation, Mappings, RangeBlockLocation, Rotation,
};

fn rb(p0: usize, p1: usize, s0: usize, s1: usize) -> RangeBlockLocation {
    RangeBlockLocation { pos: (p0, p1), size: (s0, s1) }
}

fn settings() -> NaiveCompressionSettings {
    NaiveCompressionSettings {
        range_block_size: 4,
        domain_block_size: 8,
        domain_block_stepx: 1,
        domain_block_stepy: 1,
        coord_bits: 0,
    }
}

#[test]
fn range_grid_row_by_row() {
    let g = range_block_grid(8, 12, 4);
    assert_eq!(
        g,
        vec![
            rb(0, 0, 4, 4),
            rb(0, 4, 4, 4),
            rb(0, 8, 4, 4),
            rb(4, 0, 4, 4),
            rb(4, 4, 4, 4),
            rb(4, 8, 4, 4)
        ]
    );
    // a partial block at the edge is left out
    assert_eq!(range_block_grid(7, 4, 4), vec![rb(0, 0, 4, 4)]);
    assert_eq!(range_block_grid(3, 4, 4), vec![]);
}

#[test]
fn domain_grid_steps_and_rotations() {
    let p = NaiveCompressionSettings {
        range_block_size: 2,
        domain_block_size: 4,
        domain_block_stepx: 3,
        domain_block_stepy: 2,
        coord_bits: 0,
    };
    let g = domain_block_grid(8, 8, p);
    // rows 0, 2 (below 8 - 4 = 4 in steps of 2); columns 0, 3 (below 4 in steps of 3)
    let corners = [(0, 0), (0, 3), (2, 0), (2, 3)];
    let rots = [Rotation::Zero, Rotation::Quarter, Rotation::Half, Rotation::ThreeQuarter];
    let mut expected = vec![];
    for &(i, j) in corners.iter() {
        for &r in rots.iter() {
            expected.push(DomainBlockLocation { pos: (i, j), rotation: r, flipped: false, size: (4, 4) });
        }
    }
    assert_eq!(g, expected);
    // no room below the last full block
    assert_eq!(domain_block_grid(4, 8, p), vec![]);
}

fn mapping_grid(h: usize, w: usize, s: NaiveCompressionSettings) -> Mappings {
    let mut m = Mappings::new();
    let mut k = 0u32;
    for b in range_block_grid(h, w, s.range_block_size) {
        k += 1;
        let db = DomainBlockLocation {
            pos: (((k as usize) * 3) % h, ((k as usize) * 5) % w),
            rotation: [Rotation::Zero, Rotation::Quarter, Rotation::Half, Rotation::ThreeQuarter]
                [(k % 4) as usize],
            flipped: k % 2 == 0,
            size: (s.domain_block_size, s.domain_block_size),
        };
        m.insert(b, (db, (k as f32 * 0.1).to_bits(), (1.0 - k as f32 * 0.01).to_bits()));
    }
    m
}

#[test]
fn naive_save_load_round_trip() {
    let s = settings();
    let m = mapping_grid(16, 12, s);
    let (bytes, bits) = save_mappings(&m, s);
    // header 207 bits, then 12 records of 2 * 5 + 67 bits (max(16, 12) = 16 needs 5 bits)
    assert_eq!(bits, 207 + 12 * (2 * 5 + 67));
    assert_eq!(bytes.len(), (bits + 7) / 8);
    let (s2, dims, m2) = load_mappings(bytes).unwrap();
    assert_eq!(s2, NaiveCompressionSettings { coord_bits: 5, ..s });
    assert_eq!(dims, (16, 12));
    assert_eq!(m2.len(), m.len());
    for (k, v) in m.entries() {
        // with steps of one the positions come back unchanged
        assert_eq!(m2.get(&k), Some(&v));
    }
}

#[test]
fn naive_positions_come_back_in_steps() {
    let s = NaiveCompressionSettings { domain_block_stepx: 3, domain_block_stepy: 2, ..settings() };
    let mut m = Mappings::new();
    let db = DomainBlockLocation { pos: (7, 10), rotation: Rotation::Half, flipped: true, size: (8, 8) };
    m.insert(rb(0, 0, 4, 4), (db, 1, 2));
    let (bytes, _) = save_mappings(&m, s);
    let (_, dims, m2) = load_mappings(bytes).unwrap();
    assert_eq!(dims, (4, 4));
    let back = m2.get(&rb(0, 0, 4, 4)).unwrap();
    assert_eq!(back.0.pos, (3, 3));
    assert_eq!(back.0.rotation, Rotation::Half);
    assert!(back.0.flipped);
    assert_eq!((back.1, back.2), (1, 2));
}

#[test]
fn naive_load_short_file_fails() {
    assert!(matches!(load_mappings(vec![1; 20]), Err(StreamError::UnexpectedEof)));
    let s = settings();
    let m = mapping_grid(8, 8, s);
    let (mut bytes, _) = save_mappings(&m, s);
    bytes.truncate(bytes.len() - 12);
    assert!(matches!(load_mappings(bytes), Err(StreamError::UnexpectedEof)));
}

#[test]
fn create_images_turns_the_image() {
    let img = Arr::from_shape_vec(2, 3, vec![1, 2, 3, 4, 5, 6]);
    let [a0, a1, a2, a3] = create_images(&img);
    assert_eq!(a0.data(), &vec![1, 2, 3, 4, 5, 6]);
    assert_eq!(a1.dim(), (3, 2));
    assert_eq!(a1.data(), &vec![4, 1, 5, 2, 6, 3]);
    assert_eq!(a2.data(), &vec![6, 5, 4, 3, 2, 1]);
    assert_eq!(a3.data(), &vec![3, 6, 2, 5, 1, 4]);
}
