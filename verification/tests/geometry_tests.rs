use fractal_compression::decompression::{paste_block, pixel_table, source_cell};
use fractal_compression::naive::{compress_blocks, domain_size_matches};
use fractal_compression::naive::io::{can_save as naive_can_save, naive_file_loadable};
use fractal_compression::naive::NaiveCompressionSettings;
use fractal_compression::prelude::{
    scale_windows, Arr, DomainBlockLocation, Mappings, RangeBlockLocation, Rotation,
    Transformation,
};
use fractal_compression::quadtree::compression::{candidate_block, fallback_block, index_blocks};
use fractal_compression::quadtree::io::can_save as quadtree_can_save;
use fractal_compression::quadtree::quadtree::Quadtree;
use fractal_compression::quadtree::{outline_block, outline_fits_in, QuadtreeSettings};
use fractal_compression::smoothen::{bottom_seam, side_seam};
use fractal_compression::worst_case::search_blocks;

fn rb(p0: usize, p1: usize, s0: usize, s1: usize) -> RangeBlockLocation {
    RangeBlockLocation { pos: (p0, p1), size: (s0, s1) }
}

fn db(p0: usize, p1: usize, s: usize, rotation: Rotation) -> DomainBlockLocation {
    DomainBlockLocation { pos: (p0, p1), rotation, flipped: false, size: (s, s) }
}

fn tr(d: DomainBlockLocation, c: f32, b: f32) -> Transformation {
    (d, c.to_bits(), b.to_bits())
}

#[test]
fn seams_of_inner_blocks() {
    let b = rb(8, 16, 8, 8);
    assert_eq!(bottom_seam(b, 64, 64), Some((22, 23, 24, 25)));
    assert_eq!(side_seam(b, 64, 64), Some((14, 15, 16, 17)));
}

#[test]
fn seams_skipped_at_edges_and_for_small_blocks() {
    assert_eq!(bottom_seam(rb(0, 56, 8, 8), 64, 64), None);
    assert_eq!(side_seam(rb(56, 0, 8, 8), 64, 64), None);
    assert_eq!(bottom_seam(rb(0, 0, 5, 8), 64, 64), None);
    assert_eq!(side_seam(rb(0, 0, 8, 5), 64, 64), None);
    assert_eq!(bottom_seam(rb(0, 0, 6, 6), 64, 64), Some((4, 5, 6, 7)));
}

#[test]
fn pixel_table_last_covering_block_wins() {
    let t1 = tr(db(0, 0, 4, Rotation::Zero), 0.5, 0.25);
    let t2 = tr(db(2, 2, 4, Rotation::Half), -0.5, 0.75);
    let entries = vec![(rb(0, 0, 2, 2), t1), (rb(1, 1, 2, 2), t2)];
    let table = pixel_table(&entries, 3, 3);
    assert_eq!(table.len(), 9);
    let empty = (rb(0, 0, 0, 0), tr(db(0, 0, 0, Rotation::Zero), 0.0, 0.0));
    assert_eq!(table[0], entries[0]);
    assert_eq!(table[1], entries[0]);
    assert_eq!(table[2], empty);
    assert_eq!(table[3], entries[0]);
    assert_eq!(table[4], entries[1]);
    assert_eq!(table[5], entries[1]);
    assert_eq!(table[6], empty);
    assert_eq!(table[7], entries[1]);
    assert_eq!(table[8], entries[1]);
}

#[test]
fn paste_block_replaces_only_the_block() {
    let mut img = Arr::from_shape_vec(3, 4, vec![0u32; 12]);
    let block = Arr::from_shape_vec(2, 2, vec![1u32, 2, 3, 4]);
    paste_block(&mut img, rb(1, 2, 2, 2), &block);
    assert_eq!(img.data().clone(), vec![0, 0, 0, 0, 0, 0, 1, 2, 0, 0, 3, 4]);
    assert_eq!(img.dim(), (3, 4));
}

#[test]
fn scale_windows_cover_the_source() {
    let w = scale_windows(5, 4, (2, 2));
    assert_eq!(w, vec![rb(0, 0, 2, 2), rb(0, 2, 2, 2), rb(2, 0, 3, 2), rb(2, 2, 3, 2)]);
    let up = scale_windows(2, 2, (4, 1));
    assert_eq!(up, vec![rb(0, 0, 0, 2), rb(0, 0, 1, 2), rb(1, 0, 0, 2), rb(1, 0, 1, 2)]);
    assert!(scale_windows(4, 4, (0, 3)).is_empty());
}

#[test]
fn naive_compress_blocks_grids() {
    let s = NaiveCompressionSettings {
        range_block_size: 4,
        domain_block_size: 8,
        domain_block_stepx: 8,
        domain_block_stepy: 4,
        coord_bits: 0,
    };
    let (ranges, domains) = compress_blocks(12, 16, s);
    assert_eq!(ranges.len(), 12);
    assert_eq!(ranges[5], rb(4, 4, 4, 4));
    assert_eq!(domains.len(), 4);
    assert_eq!(domains[0], db(0, 0, 8, Rotation::Zero));
    assert_eq!(domains[3], db(0, 0, 8, Rotation::ThreeQuarter));
}

#[test]
fn worst_case_search_blocks() {
    let (ranges, domains) = search_blocks(16, 2);
    assert_eq!(ranges.len(), 16);
    assert_eq!(ranges[0], rb(0, 0, 4, 4));
    assert_eq!(ranges[15], rb(12, 12, 4, 4));
    assert_eq!(domains, vec![db(0, 0, 8, Rotation::Zero)]);
    let (ranges, domains) = search_blocks(32, 3);
    assert_eq!(ranges.len(), 64);
    assert_eq!(domains.len(), 9);
    assert_eq!(domains[4], db(8, 8, 8, Rotation::Zero));
    assert_eq!(domains[8], db(16, 16, 8, Rotation::Zero));
}

#[test]
fn index_blocks_and_candidates_agree() {
    let blocks = index_blocks(16, 8, 1);
    assert_eq!(blocks, vec![rb(0, 0, 8, 4), rb(0, 4, 8, 4), rb(8, 0, 8, 4), rb(8, 4, 8, 4)]);
    for (k, b) in blocks.iter().enumerate() {
        let c = candidate_block(16, 8, 2, k);
        assert_eq!(c.pos, b.pos);
        assert_eq!(c.size, b.size);
        assert_eq!(c.rotation, Rotation::Zero);
        assert!(!c.flipped);
    }
    assert_eq!(candidate_block(64, 64, 1, 0), db(0, 0, 64, Rotation::Zero));
}

fn grid_mappings(h: usize, w: usize, rbs: usize) -> Mappings {
    let mut m = Mappings::new();
    for i in 0..h / rbs {
        for j in 0..w / rbs {
            m.insert(rb(i * rbs, j * rbs, rbs, rbs), tr(db(0, 0, 2 * rbs, Rotation::Zero), 0.5, 0.1));
        }
    }
    m
}

#[test]
fn naive_can_save_checks_grid_and_settings() {
    let s = NaiveCompressionSettings {
        range_block_size: 4,
        domain_block_size: 8,
        domain_block_stepx: 4,
        domain_block_stepy: 4,
        coord_bits: 0,
    };
    let m = grid_mappings(8, 8, 4);
    assert!(naive_can_save(&m, s));
    assert!(!naive_can_save(&Mappings::new(), s));
    let mut holed = Mappings::new();
    holed.insert(rb(4, 4, 4, 4), tr(db(0, 0, 8, Rotation::Zero), 0.5, 0.1));
    assert!(!naive_can_save(&holed, s));
    let zero_step = NaiveCompressionSettings { domain_block_stepx: 0, ..s };
    assert!(!naive_can_save(&m, zero_step));
}

#[test]
fn naive_loadable_headers() {
    assert!(naive_file_loadable(&vec![0u8; 3]));
    assert!(!naive_file_loadable(&vec![0u8; 26]));
    let mut header = vec![0u8; 26];
    header[0] = 4;
    assert!(naive_file_loadable(&header));
}

#[test]
fn quadtree_can_save_checks_leaves() {
    let leaf = |p0, p1| Quadtree::leaf(rb(p0, p1, 4, 4));
    let t = Quadtree::node(leaf(0, 0), leaf(4, 0), leaf(0, 4), leaf(4, 4));
    let s = QuadtreeSettings {
        max_distance: 0.5f32.to_bits(),
        minimum_range_splits: 0,
        maximum_range_splits: 2,
        max_neighbors: 4,
    };
    assert!(quadtree_can_save(&(grid_mappings(8, 8, 4), t.clone()), s));
    let mut m = grid_mappings(8, 8, 4);
    m.insert(rb(4, 4, 4, 4), tr(db(2000, 0, 8, Rotation::Half), 0.5, 0.1));
    assert!(quadtree_can_save(&(m, t.clone()), s));
    let mut m = grid_mappings(8, 8, 4);
    m.insert(rb(4, 4, 4, 4), tr(db(0xFFFF_FFFF, 0, 8, Rotation::Zero), 0.5, 0.1));
    assert!(!quadtree_can_save(&(m, t.clone()), s));
    let partial = grid_mappings(4, 4, 4);
    assert!(!quadtree_can_save(&(partial, t), s));
}

#[test]
fn outlines_are_drawn_on_block_borders() {
    let mut img = Arr::from_shape_vec(4, 5, vec![0u8; 20]);
    let b = rb(0, 1, 3, 3);
    assert!(outline_fits_in(b, 4, 5));
    outline_block(&mut img, b, 255u8);
    assert_eq!(
        img.data().clone(),
        vec![
            0, 255, 255, 255, 0, //
            0, 255, 0, 255, 0, //
            0, 255, 255, 255, 0, //
            0, 0, 0, 0, 0,
        ]
    );
    assert!(!outline_fits_in(rb(2, 0, 3, 3), 4, 5));
    assert!(!outline_fits_in(rb(0, 0, 2, 0), 4, 5));
    assert!(outline_fits_in(rb(0, 0, 0, 0), 4, 5));
}

#[test]
fn quadtree_leaf_blocks_give_each_pixel_its_block() {
    // A partition of an 8 by 8 image into one 4 by 4 block and twelve 2 by 2
    // blocks: every pixel of the pixel table carries the entry of its block.
    let leaf = |p0, p1, s| Quadtree::leaf(rb(p0, p1, s, s));
    let small = |p0: usize, p1: usize| {
        Quadtree::node(leaf(p0, p1, 2), leaf(p0 + 2, p1, 2), leaf(p0, p1 + 2, 2), leaf(p0 + 2, p1 + 2, 2))
    };
    let t = Quadtree::node(leaf(0, 0, 4), small(4, 0), small(0, 4), small(4, 4));
    let blocks = t.prefix_leaves();
    assert_eq!(blocks.len(), 13);
    let entries: Vec<(RangeBlockLocation, Transformation)> = blocks
        .iter()
        .enumerate()
        .map(|(k, &b)| (b, tr(db(0, 0, 2 * b.size.0, Rotation::Zero), k as f32, 0.0)))
        .collect();
    let table = pixel_table(&entries, 8, 8);
    for u in 0..64 {
        let (i, j) = (u / 8, u % 8);
        let owners: Vec<_> = entries
            .iter()
            .filter(|(b, _)| b.pos.0 <= i && i < b.pos.0 + b.size.0 && b.pos.1 <= j && j < b.pos.1 + b.size.1)
            .collect();
        assert_eq!(owners.len(), 1);
        assert_eq!(table[u], *owners[0]);
    }
}

#[test]
fn domain_sizes_compared() {
    assert!(domain_size_matches((8, 8), (4, 4)));
    assert!(domain_size_matches((16, 16), (4, 4)));
    assert!(!domain_size_matches((17, 16), (4, 4)));
    assert!(!domain_size_matches((4, 8), (4, 4)));
    assert!(domain_size_matches((usize::MAX, usize::MAX), (usize::MAX / 2, usize::MAX / 2)));
}

#[test]
fn source_cells_of_pixels() {
    let b = rb(4, 4, 4, 4);
    let d = db(2, 0, 8, Rotation::Zero);
    assert_eq!(source_cell(b, d, 5, 6, 16, 16), Some((4, 4)));
    assert_eq!(source_cell(b, d, 7, 7, 16, 16), Some((8, 6)));
    assert_eq!(source_cell(b, d, 3, 6, 16, 16), None);
    assert_eq!(source_cell(b, d, 7, 7, 9, 16), None);
    assert_eq!(source_cell(b, d, 7, 7, 10, 16), Some((8, 6)));
}

#[test]
fn candidates_and_fallback_stay_within_the_image() {
    for level in 1..4usize {
        let number = 1usize << (level - 1);
        for k in 0..number * number {
            let c = candidate_block(48, 32, level, k);
            assert!(c.pos.0 + c.size.0 <= 48 && c.pos.1 + c.size.1 <= 32);
        }
    }
    assert_eq!(fallback_block(rb(4, 8, 2, 3)), DomainBlockLocation {
        pos: (0, 0),
        rotation: Rotation::Zero,
        flipped: false,
        size: (4, 6),
    });
}
