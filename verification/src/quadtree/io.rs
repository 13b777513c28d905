//! The storage format of a quadtree partition: one bit per decision, "leaf"
//! or "cut", for every node whose shape the settings leave open.
use super::quadtree::Quadtree;
use super::QuadtreeSettings;
use crate::bitseq::{
    bytes_bits, le_value, lemma_le_value_bound, lemma_le_value_roundtrip, nat_bits, zeros,
};
use vstd::arithmetic::power2::*;
use crate::naive::io::{
    float_bits, float_of_bits, law_float_roundtrip, law_rotation_roundtrip, padding,
    rotation_bits, rotation_of_bits, BinBufReader, BinBufWriter, StreamError,
};
use crate::prelude::{DomainBlockLocation, Mappings, RangeBlockLocation, Rotation, Transformation};
use vstd::prelude::*;

verus! {

/// The first of the four parts the reader cuts a block into.
pub open spec fn part_tl(rb: RangeBlockLocation) -> RangeBlockLocation {
    RangeBlockLocation { size: ((rb.size.0 / 2) as usize, (rb.size.1 / 2) as usize), pos: rb.pos }
}

/// The second part: moved by half the first size; it takes the odd row.
pub open spec fn part_tr(rb: RangeBlockLocation) -> RangeBlockLocation {
    RangeBlockLocation {
        size: ((rb.size.0 - rb.size.0 / 2) as usize, (rb.size.1 / 2) as usize),
        pos: ((rb.pos.0 + rb.size.0 / 2) as usize, rb.pos.1),
    }
}

/// The third part: moved by half the second size; it takes the odd column.
pub open spec fn part_bl(rb: RangeBlockLocation) -> RangeBlockLocation {
    RangeBlockLocation {
        size: ((rb.size.0 / 2) as usize, (rb.size.1 - rb.size.1 / 2) as usize),
        pos: (rb.pos.0, (rb.pos.1 + rb.size.1 / 2) as usize),
    }
}

/// The fourth part: moved by half of both sizes; it takes the odd row and
/// column.
pub open spec fn part_br(rb: RangeBlockLocation) -> RangeBlockLocation {
    RangeBlockLocation {
        size: ((rb.size.0 - rb.size.0 / 2) as usize, (rb.size.1 - rb.size.1 / 2) as usize),
        pos: ((rb.pos.0 + rb.size.0 / 2) as usize, (rb.pos.1 + rb.size.1 / 2) as usize),
    }
}

/// The bits that `write_quadtree` writes for `t` at depth `depth`: a `false`
/// for each node deeper than `min`, a `true` for each leaf not deeper than
/// `max`, in prefix order.
pub open spec fn quadtree_bits<T>(t: Quadtree<T>, min: nat, max: nat, depth: nat) -> Seq<bool>
    decreases t,
{
    match t {
        Quadtree::Node(a, b, c, d) => (if depth > min {
            seq![false]
        } else {
            Seq::<bool>::empty()
        }) + quadtree_bits(*a, min, max, depth + 1) + quadtree_bits(*b, min, max, depth + 1)
            + quadtree_bits(*c, min, max, depth + 1) + quadtree_bits(*d, min, max, depth + 1),
        Quadtree::Leaf(_) => if depth <= max {
            seq![true]
        } else {
            Seq::<bool>::empty()
        },
    }
}

/// What `read_quadtree` makes of `bits` for the block `rb` at depth
/// `depth`: the tree and the bits after it, or nothing when the bits run out.
pub open spec fn parse_quadtree(
    bits: Seq<bool>,
    rb: RangeBlockLocation,
    min: nat,
    max: nat,
    depth: nat,
) -> Option<(Quadtree<RangeBlockLocation>, Seq<bool>)>
    decreases max + 1 - depth,
{
    if depth > max {
        Some((Quadtree::Leaf(rb), bits))
    } else if depth > min && bits.len() == 0 {
        None
    } else if depth > min && bits[0] {
        Some((Quadtree::Leaf(rb), bits.drop_first()))
    } else {
        let b0 = if depth > min {
            bits.drop_first()
        } else {
            bits
        };
        match parse_quadtree(b0, part_tl(rb), min, max, depth + 1) {
            None => None,
            Some((t1, r1)) => match parse_quadtree(r1, part_tr(rb), min, max, depth + 1) {
                None => None,
                Some((t2, r2)) => match parse_quadtree(r2, part_bl(rb), min, max, depth + 1) {
                    None => None,
                    Some((t3, r3)) => match parse_quadtree(
                        r3,
                        part_br(rb),
                        min,
                        max,
                        depth + 1,
                    ) {
                        None => None,
                        Some((t4, r4)) => Some(
                            (
                                Quadtree::Node(Box::new(t1), Box::new(t2), Box::new(t3), Box::new(t4)),
                                r4,
                            ),
                        ),
                    },
                },
            },
        }
    }
}

/// A tree that the format can store for the block `rb` at depth `depth`:
/// every node is cut at depths up to `min` and never below `max`, and each
/// leaf is labelled with the block the reader assigns to it.
pub open spec fn is_canonical(
    t: Quadtree<RangeBlockLocation>,
    rb: RangeBlockLocation,
    min: nat,
    max: nat,
    depth: nat,
) -> bool
    decreases t,
{
    match t {
        Quadtree::Leaf(l) => l == rb && (depth > min || depth > max),
        Quadtree::Node(a, b, c, d) => {
            &&& depth <= max
            &&& is_canonical(*a, part_tl(rb), min, max, depth + 1)
            &&& is_canonical(*b, part_tr(rb), min, max, depth + 1)
            &&& is_canonical(*c, part_bl(rb), min, max, depth + 1)
            &&& is_canonical(*d, part_br(rb), min, max, depth + 1)
        },
    }
}

/// Writes the shape of `t`: a `false` bit for each node deeper than
/// `minimum_range_splits`, a `true` bit for each leaf not deeper than
/// `maximum_range_splits`, in prefix order.
pub fn write_quadtree(
    w: &mut BinBufWriter,
    t: &Quadtree<RangeBlockLocation>,
    s: QuadtreeSettings,
    depth: usize,
)
    requires
        old(w).wf(),
        old(w).written() + quadtree_bits(
            *t,
            s.minimum_range_splits as nat,
            s.maximum_range_splits as nat,
            depth as nat,
        ).len() <= usize::MAX,
        depth + t.height() <= usize::MAX,
    ensures
        final(w).wf(),
        final(w).bits() == old(w).bits() + quadtree_bits(
            *t,
            s.minimum_range_splits as nat,
            s.maximum_range_splits as nat,
            depth as nat,
        ),
        final(w).written() == old(w).written() + quadtree_bits(
            *t,
            s.minimum_range_splits as nat,
            s.maximum_range_splits as nat,
            depth as nat,
        ).len(),
        old(w).bytes().is_prefix_of(final(w).bytes()),
    decreases t,
{
    let ghost min = s.minimum_range_splits as nat;
    let ghost max = s.maximum_range_splits as nat;
    match t {
        Quadtree::Node(a, b, c, d) => {
            let ghost head = if depth > s.minimum_range_splits {
                seq![false]
            } else {
                Seq::<bool>::empty()
            };
            let ghost ba = quadtree_bits(**a, min, max, (depth + 1) as nat);
            let ghost bb = quadtree_bits(**b, min, max, (depth + 1) as nat);
            let ghost bc = quadtree_bits(**c, min, max, (depth + 1) as nat);
            let ghost bd = quadtree_bits(**d, min, max, (depth + 1) as nat);
            assert(quadtree_bits(*t, min, max, depth as nat) == head + ba + bb + bc + bd);
            if depth > s.minimum_range_splits {
                w.add_bit(false);
            }
            assert(w.bits() =~= old(w).bits() + head);
            write_quadtree(w, a, s, depth + 1);
            write_quadtree(w, b, s, depth + 1);
            write_quadtree(w, c, s, depth + 1);
            write_quadtree(w, d, s, depth + 1);
            assert(w.bits() =~= old(w).bits() + (head + ba + bb + bc + bd));
        },
        Quadtree::Leaf(_) => {
            if depth <= s.maximum_range_splits {
                w.add_bit(true);
            }
            assert(w.bits() =~= old(w).bits() + quadtree_bits(*t, min, max, depth as nat));
        },
    }
}

/// Reads the shape of a tree written by `write_quadtree` for the block of
/// size `size` at `offset`, and labels each leaf with its block. Nodes up to
/// depth `minimum_range_splits` are cut without reading a bit, and nodes
/// deeper than `maximum_range_splits` are leaves without reading a bit.
pub fn read_quadtree(
    r: &mut BinBufReader,
    size: (usize, usize),
    offset: (usize, usize),
    s: QuadtreeSettings,
    depth: usize,
) -> (res: Result<Quadtree<RangeBlockLocation>, StreamError>)
    requires
        old(r).wf(),
        s.maximum_range_splits < usize::MAX,
        offset.0 + size.0 <= usize::MAX,
        offset.1 + size.1 <= usize::MAX,
    ensures
        final(r).wf(),
        match parse_quadtree(
            old(r).remaining(),
            RangeBlockLocation { size, pos: offset },
            s.minimum_range_splits as nat,
            s.maximum_range_splits as nat,
            depth as nat,
        ) {
            Some((t, rest)) => res == Ok::<Quadtree<RangeBlockLocation>, StreamError>(t)
                && final(r).remaining() == rest,
            None => res == Err::<Quadtree<RangeBlockLocation>, StreamError>(
                StreamError::UnexpectedEof,
            ) && final(r).remaining().len() == 0,
        },
    decreases s.maximum_range_splits + 1 - depth,
{
    let ghost rb = RangeBlockLocation { size, pos: offset };
    let ghost min = s.minimum_range_splits as nat;
    let ghost max = s.maximum_range_splits as nat;
    if depth > s.maximum_range_splits {
        return Ok(Quadtree::leaf(RangeBlockLocation { size, pos: offset }));
    }
    if depth > s.minimum_range_splits {
        let b = match r.read_bit() {
            Ok(b) => b,
            Err(e) => {
                return Err(e);
            },
        };
        if b {
            return Ok(Quadtree::leaf(RangeBlockLocation { size, pos: offset }));
        }
    }
    let c1 = match read_quadtree(r, (size.0 / 2, size.1 / 2), offset, s, depth + 1) {
        Ok(t) => t,
        Err(e) => {
            return Err(e);
        },
    };
    let c2 = match read_quadtree(
        r,
        (size.0 - size.0 / 2, size.1 / 2),
        (offset.0 + size.0 / 2, offset.1),
        s,
        depth + 1,
    ) {
        Ok(t) => t,
        Err(e) => {
            return Err(e);
        },
    };
    let c3 = match read_quadtree(
        r,
        (size.0 / 2, size.1 - size.1 / 2),
        (offset.0, offset.1 + size.1 / 2),
        s,
        depth + 1,
    ) {
        Ok(t) => t,
        Err(e) => {
            return Err(e);
        },
    };
    let c4 = match read_quadtree(
        r,
        (size.0 - size.0 / 2, size.1 - size.1 / 2),
        (offset.0 + size.0 / 2, offset.1 + size.1 / 2),
        s,
        depth + 1,
    ) {
        Ok(t) => t,
        Err(e) => {
            return Err(e);
        },
    };
    Ok(Quadtree::node(c1, c2, c3, c4))
}

/// The bits that `write_quadtree` writes for a tree the format can store are
/// read back by `read_quadtree` as the same tree, and the bits after them
/// are left for the next read.
#[verifier::rlimit(50)]
#[verifier::spinoff_prover]
pub proof fn law_quadtree_roundtrip(
    t: Quadtree<RangeBlockLocation>,
    rb: RangeBlockLocation,
    min: nat,
    max: nat,
    depth: nat,
    rest: Seq<bool>,
)
    requires
        is_canonical(t, rb, min, max, depth),
    ensures
        parse_quadtree(quadtree_bits(t, min, max, depth) + rest, rb, min, max, depth) == Some(
            (t, rest),
        ),
    decreases t,
{
    let bits = quadtree_bits(t, min, max, depth) + rest;
    match t {
        Quadtree::Leaf(l) => {
            if depth > max {
                assert(bits =~= rest);
            } else {
                assert(bits[0]);
                assert(bits.drop_first() =~= rest);
            }
        },
        Quadtree::Node(a, b, c, d) => {
            let bd = quadtree_bits(*d, min, max, depth + 1) + rest;
            let bcd = quadtree_bits(*c, min, max, depth + 1) + bd;
            let bbcd = quadtree_bits(*b, min, max, depth + 1) + bcd;
            let babcd = quadtree_bits(*a, min, max, depth + 1) + bbcd;
            law_quadtree_roundtrip(*d, part_br(rb), min, max, depth + 1, rest);
            law_quadtree_roundtrip(*c, part_bl(rb), min, max, depth + 1, bd);
            law_quadtree_roundtrip(*b, part_tr(rb), min, max, depth + 1, bcd);
            law_quadtree_roundtrip(*a, part_tl(rb), min, max, depth + 1, bbcd);
            let b0 = if depth > min {
                bits.drop_first()
            } else {
                bits
            };
            if depth > min {
                assert(bits =~= seq![false] + babcd);
                assert(!bits[0]);
                assert(bits.drop_first() =~= babcd);
            } else {
                assert(bits =~= babcd);
            }
            assert(b0 == babcd);
            assert(parse_quadtree(b0, part_tl(rb), min, max, depth + 1) == Some((*a, bbcd)));
        },
    }
}

/// The bits that store one transformation: the domain block position and
/// size on 32 bits each, the flip bit, the rotation, then contrast and
/// brightness.
pub open spec fn transformation_bits(t: Transformation) -> Seq<bool> {
    nat_bits(t.0.pos.0 as nat, 32) + nat_bits(t.0.pos.1 as nat, 32) + nat_bits(
        t.0.size.0 as nat,
        32,
    ) + nat_bits(t.0.size.1 as nat, 32) + seq![t.0.flipped] + rotation_bits(t.0.rotation)
        + float_bits(t.1) + float_bits(t.2)
}

/// The four numbers of a domain block fit their 32-bit fields.
pub open spec fn location_fits(d: DomainBlockLocation) -> bool {
    &&& d.pos.0 + 1 < 0x1_0000_0000
    &&& d.pos.1 + 1 < 0x1_0000_0000
    &&& d.size.0 + 1 < 0x1_0000_0000
    &&& d.size.1 + 1 < 0x1_0000_0000
}

/// The bits that store the transformations of the given range blocks, in
/// order.
pub open spec fn transformations_bits(
    m: Map<RangeBlockLocation, Transformation>,
    leaves: Seq<RangeBlockLocation>,
) -> Seq<bool>
    decreases leaves.len(),
{
    if leaves.len() == 0 {
        Seq::empty()
    } else {
        transformations_bits(m, leaves.drop_last()) + transformation_bits(m[leaves.last()])
    }
}

/// The bits that `save_mappings` writes before completing the last byte:
/// the settings, the image size, the shape of the tree, then the
/// transformation of each leaf in prefix order.
pub open spec fn quadtree_file_bits(
    m: Map<RangeBlockLocation, Transformation>,
    t: Quadtree<RangeBlockLocation>,
    s: QuadtreeSettings,
) -> Seq<bool> {
    nat_bits(s.minimum_range_splits as nat, 6) + nat_bits(s.maximum_range_splits as nat, 6)
        + float_bits(s.max_distance) + nat_bits(t.image_size_spec().0, 32) + nat_bits(
        t.image_size_spec().1,
        32,
    ) + quadtree_bits(t, s.minimum_range_splits as nat, s.maximum_range_splits as nat, 0)
        + transformations_bits(m, t.leaves())
}

/// What `save_mappings` needs to store its input: settings and sizes that
/// fit their fields, a transformation for every leaf, and domain blocks
/// that fit theirs.
pub open spec fn quadtree_saveable(
    m: Map<RangeBlockLocation, Transformation>,
    t: Quadtree<RangeBlockLocation>,
    s: QuadtreeSettings,
) -> bool {
    &&& s.minimum_range_splits < 63
    &&& s.maximum_range_splits < 63
    &&& 32 < usize::BITS
    &&& t.image_size_spec().0 + 1 < 0x1_0000_0000
    &&& t.image_size_spec().1 + 1 < 0x1_0000_0000
    &&& forall|k: int|
        0 <= k < t.leaves().len() ==> {
            &&& m.dom().contains(#[trigger] t.leaves()[k])
            &&& location_fits(m[t.leaves()[k]].0)
        }
}

/// The transformation that `load_mappings` decodes from the bits that
/// store it.
pub open spec fn decoded_transformation(bits: Seq<bool>) -> Transformation {
    (
        DomainBlockLocation {
            pos: (le_value(bits.subrange(0, 32)) as usize, le_value(bits.subrange(32, 64)) as usize),
            size: (
                le_value(bits.subrange(64, 96)) as usize,
                le_value(bits.subrange(96, 128)) as usize,
            ),
            flipped: bits[128],
            rotation: rotation_of_bits(bits[129], bits[130]),
        },
        float_of_bits(bits.subrange(131, 163)),
        float_of_bits(bits.subrange(163, 195)),
    )
}

/// The map that `load_mappings` decodes from `bits` for the given range
/// blocks, each taking the next 195 bits, a later block replacing an
/// earlier equal one.
pub open spec fn decoded_transformations(bits: Seq<bool>, leaves: Seq<RangeBlockLocation>) -> Map<
    RangeBlockLocation,
    Transformation,
>
    decreases leaves.len(),
{
    if leaves.len() == 0 {
        Map::empty()
    } else {
        let k = leaves.len() - 1;
        decoded_transformations(bits, leaves.drop_last()).insert(
            leaves.last(),
            decoded_transformation(bits.subrange(195 * k, 195 * k + 195)),
        )
    }
}

/// The map from each of the given range blocks to its transformation in
/// `m`: what `load_mappings` reads back of what `save_mappings` stored.
pub open spec fn restored_transformations(
    m: Map<RangeBlockLocation, Transformation>,
    leaves: Seq<RangeBlockLocation>,
) -> Map<RangeBlockLocation, Transformation>
    decreases leaves.len(),
{
    if leaves.len() == 0 {
        Map::empty()
    } else {
        restored_transformations(m, leaves.drop_last()).insert(
            leaves.last(),
            m[leaves.last()],
        )
    }
}

/// What `load_mappings` makes of the bits of a stored file: the settings
/// (with no neighbour count, which is not stored), the image size, the
/// transformation of each range block, and the tree of range blocks; or
/// nothing when the bits run out.
pub open spec fn parse_quadtree_file(bits: Seq<bool>) -> Option<
    (QuadtreeSettings, (usize, usize), Map<RangeBlockLocation, Transformation>, Quadtree<
        RangeBlockLocation,
    >),
> {
    if bits.len() < 108 {
        None
    } else {
        let min = le_value(bits.subrange(0, 6));
        let max = le_value(bits.subrange(6, 12));
        let s = QuadtreeSettings {
            max_distance: float_of_bits(bits.subrange(12, 44)),
            minimum_range_splits: min as usize,
            maximum_range_splits: max as usize,
            max_neighbors: 0,
        };
        let h = le_value(bits.subrange(44, 76)) as usize;
        let w = le_value(bits.subrange(76, 108)) as usize;
        match parse_quadtree(
            bits.subrange(108, bits.len() as int),
            RangeBlockLocation { size: (h, w), pos: (0, 0) },
            min,
            max,
            0,
        ) {
            None => None,
            Some((t, rest)) => if rest.len() < 195 * t.leaves().len() {
                None
            } else {
                Some((s, (h, w), decoded_transformations(rest, t.leaves()), t))
            },
        }
    }
}

/// The bits for `n` transformations number `195 * n`.
proof fn lemma_transformations_bits_len(
    m: Map<RangeBlockLocation, Transformation>,
    leaves: Seq<RangeBlockLocation>,
)
    ensures
        transformations_bits(m, leaves).len() == 195 * leaves.len(),
    decreases leaves.len(),
{
    if leaves.len() > 0 {
        lemma_transformations_bits_len(m, leaves.drop_last());
    }
}

/// Every leaf that `read_quadtree` makes is no larger than the block it
/// starts from.
proof fn lemma_parse_leaf_sizes(
    bits: Seq<bool>,
    rb: RangeBlockLocation,
    min: nat,
    max: nat,
    depth: nat,
)
    ensures
        parse_quadtree(bits, rb, min, max, depth) matches Some((t, _)) ==> forall|k: int|
            0 <= k < t.leaves().len() ==> (#[trigger] t.leaves()[k]).size.0 <= rb.size.0
                && t.leaves()[k].size.1 <= rb.size.1,
    decreases max + 1 - depth,
{
    if depth > max {
    } else if depth > min && bits.len() == 0 {
    } else if depth > min && bits[0] {
    } else {
        let b0 = if depth > min {
            bits.drop_first()
        } else {
            bits
        };
        lemma_parse_leaf_sizes(b0, part_tl(rb), min, max, depth + 1);
        if let Some((t1, r1)) = parse_quadtree(b0, part_tl(rb), min, max, depth + 1) {
            lemma_parse_leaf_sizes(r1, part_tr(rb), min, max, depth + 1);
            if let Some((t2, r2)) = parse_quadtree(r1, part_tr(rb), min, max, depth + 1) {
                lemma_parse_leaf_sizes(r2, part_bl(rb), min, max, depth + 1);
                if let Some((t3, r3)) = parse_quadtree(r2, part_bl(rb), min, max, depth + 1) {
                    lemma_parse_leaf_sizes(r3, part_br(rb), min, max, depth + 1);
                    if let Some((t4, r4)) = parse_quadtree(r3, part_br(rb), min, max, depth + 1) {
                        let t = Quadtree::Node(
                            Box::new(t1),
                            Box::new(t2),
                            Box::new(t3),
                            Box::new(t4),
                        );
                        assert(t.leaves() == t1.leaves() + t2.leaves() + t3.leaves()
                            + t4.leaves());
                        assert forall|k: int| 0 <= k < t.leaves().len() implies (
                        #[trigger] t.leaves()[k]).size.0 <= rb.size.0 && t.leaves()[k].size.1
                            <= rb.size.1 by {
                            let l1 = t1.leaves().len() as int;
                            let l2 = t2.leaves().len() as int;
                            let l3 = t3.leaves().len() as int;
                            if k < l1 {
                                assert(t.leaves()[k] == t1.leaves()[k]);
                            } else if k < l1 + l2 {
                                assert(t.leaves()[k] == t2.leaves()[k - l1]);
                            } else if k < l1 + l2 + l3 {
                                assert(t.leaves()[k] == t3.leaves()[k - l1 - l2]);
                            } else {
                                assert(t.leaves()[k] == t4.leaves()[k - l1 - l2 - l3]);
                            }
                        }
                    }
                }
            }
        }
    }
}

/// Stores the settings, the image size, the shape of the tree of range
/// blocks, then the transformation of each leaf in prefix order; gives back
/// the bytes and their number.
pub fn save_mappings(
    mappings: &(Mappings, Quadtree<RangeBlockLocation>),
    s: QuadtreeSettings,
) -> (r: (Vec<u8>, usize))
    requires
        quadtree_saveable(mappings.0@, mappings.1, s),
        mappings.1.height() <= usize::MAX,
        quadtree_file_bits(mappings.0@, mappings.1, s).len() <= usize::MAX,
    ensures
        bytes_bits(r.0@) == quadtree_file_bits(mappings.0@, mappings.1, s) + zeros(
            padding(quadtree_file_bits(mappings.0@, mappings.1, s).len()),
        ),
        r.1 == (quadtree_file_bits(mappings.0@, mappings.1, s).len() + 7) / 8,
{
    proof {
        use_type_invariant(&mappings.0);
    }
    let ghost m = mappings.0@;
    let ghost t = mappings.1;
    let ghost total = quadtree_file_bits(m, t, s);
    let ghost min = s.minimum_range_splits as nat;
    let ghost max = s.maximum_range_splits as nat;
    let ghost qbits = quadtree_bits(t, min, max, 0);
    proof {
        lemma2_to64();
        lemma_transformations_bits_len(m, t.leaves());
    }
    let mut writer = BinBufWriter::new();
    writer.write_int(s.minimum_range_splits, 6);
    writer.write_int(s.maximum_range_splits, 6);
    writer.write_float(s.max_distance);
    let (h, w) = mappings.1.image_size();
    writer.write_int(h, 32);
    writer.write_int(w, 32);
    let ghost head = writer.bits();
    assert(head.len() == 108);
    write_quadtree(&mut writer, &mappings.1, s, 0);
    let leaves = mappings.1.prefix_leaves();
    let mut k: usize = 0;
    while k < leaves.len()
        invariant
            writer.wf(),
            mappings.0.wf(),
            quadtree_saveable(m, t, s),
            m == mappings.0@,
            t == mappings.1,
            leaves@ == t.leaves(),
            k <= leaves@.len(),
            total.len() <= usize::MAX,
            total == head + qbits + transformations_bits(m, t.leaves()),
            head.len() == 108,
            transformations_bits(m, t.leaves()).len() == 195 * t.leaves().len(),
            writer.bits() == head + qbits + transformations_bits(m, leaves@.subrange(0, k as int)),
            writer.written() == writer.bits().len(),
        decreases leaves@.len() - k,
    {
        let rb = leaves[k];
        let tr = *mappings.0.get(&rb).unwrap();
        proof {
            lemma2_to64();
            lemma_transformations_bits_len(m, leaves@.subrange(0, k as int));
            assert(leaves@.subrange(0, k + 1).drop_last() =~= leaves@.subrange(0, k as int));
            assert(leaves@.subrange(0, k + 1).last() == rb);
            assert(tr == m[t.leaves()[k as int]]);
        }
        writer.write_int(tr.0.pos.0, 32);
        writer.write_int(tr.0.pos.1, 32);
        writer.write_int(tr.0.size.0, 32);
        writer.write_int(tr.0.size.1, 32);
        writer.add_bit(tr.0.flipped);
        writer.write_rotation(tr.0.rotation);
        writer.write_float(tr.1);
        writer.write_float(tr.2);
        k = k + 1;
        assert(writer.bits() =~= head + qbits + transformations_bits(
            m,
            leaves@.subrange(0, k as int),
        ));
    }
    assert(leaves@.subrange(0, k as int) =~= leaves@);
    assert(writer.bits() =~= total);
    let n = writer.size_written();
    let size = n / 8 + if n % 8 == 0 {
        0
    } else {
        1
    };
    (writer.finish(), size)
}

/// The height of `t`, or `None` when it exceeds `usize::MAX`.
fn checked_height<T>(t: &Quadtree<T>) -> (r: Option<usize>)
    ensures
        r matches Some(h) ==> h == t.height(),
        r is None ==> t.height() > usize::MAX,
    decreases t,
{
    match t {
        Quadtree::Leaf(_) => Some(0),
        Quadtree::Node(a, b, c, d) => {
            let ha = match checked_height(&**a) {
                Some(h) => h,
                None => {
                    return None;
                },
            };
            let hb = match checked_height(&**b) {
                Some(h) => h,
                None => {
                    return None;
                },
            };
            let hc = match checked_height(&**c) {
                Some(h) => h,
                None => {
                    return None;
                },
            };
            let hd = match checked_height(&**d) {
                Some(h) => h,
                None => {
                    return None;
                },
            };
            let m1 = if ha >= hb {
                ha
            } else {
                hb
            };
            let m2 = if hc >= hd {
                hc
            } else {
                hd
            };
            let m = if m1 >= m2 {
                m1
            } else {
                m2
            };
            if m == usize::MAX {
                None
            } else {
                Some(m + 1)
            }
        },
    }
}

/// The number of bits `write_quadtree` writes for `t` at depth `depth`, or
/// `None` when it exceeds `usize::MAX`.
fn checked_bits_len<T>(t: &Quadtree<T>, min: usize, max: usize, depth: usize) -> (r: Option<usize>)
    requires
        depth + t.height() <= usize::MAX,
    ensures
        r matches Some(n) ==> n == quadtree_bits(*t, min as nat, max as nat, depth as nat).len(),
        r is None ==> quadtree_bits(*t, min as nat, max as nat, depth as nat).len() > usize::MAX,
    decreases t,
{
    match t {
        Quadtree::Leaf(_) => {
            if depth <= max {
                Some(1)
            } else {
                Some(0)
            }
        },
        Quadtree::Node(a, b, c, d) => {
            let own: usize = if depth > min {
                1
            } else {
                0
            };
            let la = match checked_bits_len(&**a, min, max, depth + 1) {
                Some(n) => n,
                None => {
                    return None;
                },
            };
            let lb = match checked_bits_len(&**b, min, max, depth + 1) {
                Some(n) => n,
                None => {
                    return None;
                },
            };
            let lc = match checked_bits_len(&**c, min, max, depth + 1) {
                Some(n) => n,
                None => {
                    return None;
                },
            };
            let ld = match checked_bits_len(&**d, min, max, depth + 1) {
                Some(n) => n,
                None => {
                    return None;
                },
            };
            let s1 = match own.checked_add(la) {
                Some(n) => n,
                None => {
                    return None;
                },
            };
            let s2 = match s1.checked_add(lb) {
                Some(n) => n,
                None => {
                    return None;
                },
            };
            let s3 = match s2.checked_add(lc) {
                Some(n) => n,
                None => {
                    return None;
                },
            };
            s3.checked_add(ld)
        },
    }
}

/// The size of the image that `t` partitions, or `None` when a side exceeds
/// `usize::MAX`.
fn checked_image_size(t: &Quadtree<RangeBlockLocation>) -> (r: Option<(usize, usize)>)
    ensures
        r matches Some((h, w)) ==> h == t.image_size_spec().0 && w == t.image_size_spec().1,
        r is None ==> t.image_size_spec().0 > usize::MAX || t.image_size_spec().1 > usize::MAX,
    decreases t,
{
    match t {
        Quadtree::Leaf(b) => Some(b.size),
        Quadtree::Node(a, _, _, _) => {
            match checked_image_size(&**a) {
                None => None,
                Some((h, w)) => {
                    match (h.checked_mul(2), w.checked_mul(2)) {
                        (Some(h2), Some(w2)) => Some((h2, w2)),
                        _ => None,
                    }
                },
            }
        },
    }
}

/// Whether `save_mappings` can store the mappings and the tree with the
/// settings `s`: they meet what the format needs, and the tree's height and
/// the number of stored bits fit in a `usize`.
pub fn can_save(mappings: &(Mappings, Quadtree<RangeBlockLocation>), s: QuadtreeSettings) -> (r:
    bool)
    ensures
        r == (quadtree_saveable(mappings.0@, mappings.1, s) && mappings.1.height() <= usize::MAX
            && quadtree_file_bits(mappings.0@, mappings.1, s).len() <= usize::MAX),
{
    let m = &mappings.0;
    let t = &mappings.1;
    let ghost mv = m@;
    if s.minimum_range_splits >= 63 || s.maximum_range_splits >= 63 || usize::BITS <= 32 {
        return false;
    }
    let size = match checked_image_size(t) {
        Some(v) => v,
        None => {
            return false;
        },
    };
    if size.0 >= 0xFFFF_FFFF || size.1 >= 0xFFFF_FFFF {
        return false;
    }
    let leaves = t.prefix_leaves();
    let mut k: usize = 0;
    while k < leaves.len()
        invariant
            mv == m@,
            mv == mappings.0@,
            *t == mappings.1,
            s.minimum_range_splits < 63,
            s.maximum_range_splits < 63,
            32 < usize::BITS,
            t.image_size_spec().0 + 1 < 0x1_0000_0000,
            t.image_size_spec().1 + 1 < 0x1_0000_0000,
            leaves@ == t.leaves(),
            k <= leaves@.len(),
            forall|q: int|
                0 <= q < k ==> {
                    &&& mv.dom().contains(#[trigger] leaves@[q])
                    &&& location_fits(mv[leaves@[q]].0)
                },
        decreases leaves@.len() - k,
    {
        match m.get(&leaves[k]) {
            None => {
                assert(!mv.dom().contains(t.leaves()[k as int]));
                return false;
            },
            Some(tr) => {
                if tr.0.pos.0 >= 0xFFFF_FFFF || tr.0.pos.1 >= 0xFFFF_FFFF || tr.0.size.0
                    >= 0xFFFF_FFFF || tr.0.size.1 >= 0xFFFF_FFFF {
                    assert(mv[t.leaves()[k as int]] == *tr);
                    return false;
                }
            },
        }
        k = k + 1;
    }
    assert(quadtree_saveable(mv, *t, s));
    let height = match checked_height(t) {
        Some(h) => h,
        None => {
            return false;
        },
    };
    proof {
        lemma_transformations_bits_len(mv, t.leaves());
        assert(quadtree_file_bits(mv, *t, s).len() == 108 + quadtree_bits(
            *t,
            s.minimum_range_splits as nat,
            s.maximum_range_splits as nat,
            0,
        ).len() + 195 * t.leaves().len());
    }
    let qlen = match checked_bits_len(t, s.minimum_range_splits, s.maximum_range_splits, 0) {
        Some(n) => n,
        None => {
            return false;
        },
    };
    let tlen = match leaves.len().checked_mul(195) {
        Some(n) => n,
        None => {
            return false;
        },
    };
    let sum = match qlen.checked_add(tlen) {
        Some(n) => n,
        None => {
            return false;
        },
    };
    sum <= usize::MAX - 108
}

/// Reads back what `save_mappings` stored: the settings (without the
/// neighbour count, which is not stored), the image size, the
/// transformation of each range block, and the tree of range blocks.
pub fn load_mappings(file: Vec<u8>) -> (res: Result<
    (QuadtreeSettings, (usize, usize), Mappings, Quadtree<RangeBlockLocation>),
    StreamError,
>)
    requires
        usize::BITS == 64,
    ensures
        match parse_quadtree_file(bytes_bits(file@)) {
            None => res is Err,
            Some((s, hw, m, t)) => res matches Ok((s2, hw2, m2, t2)) && s2 == s && hw2 == hw
                && m2@ == m && t2 == t && m2.wf(),
        },
{
    let ghost fbits = bytes_bits(file@);
    let mut reader = BinBufReader::new(file);
    let ghost bits = reader.remaining();
    let mut s = QuadtreeSettings::default();
    s.minimum_range_splits = reader.read_int(6)?;
    let ghost r1 = reader.remaining();
    s.maximum_range_splits = reader.read_int(6)?;
    let ghost r2 = reader.remaining();
    s.max_distance = reader.read_float()?;
    let ghost r3 = reader.remaining();
    let h = reader.read_int(32)?;
    let ghost r4 = reader.remaining();
    let w = reader.read_int(32)?;
    let ghost r5 = reader.remaining();
    proof {
        assert(r1 =~= bits.subrange(6, bits.len() as int));
        assert(r2 =~= bits.subrange(12, bits.len() as int));
        assert(r3 =~= bits.subrange(44, bits.len() as int));
        assert(r4 =~= bits.subrange(76, bits.len() as int));
        assert(r5 =~= bits.subrange(108, bits.len() as int));
        assert(bits.subrange(0, 6) =~= bits.subrange(0, 6));
        assert(r1.subrange(0, 6) =~= bits.subrange(6, 12));
        assert(r2.subrange(0, 32) =~= bits.subrange(12, 44));
        assert(r3.subrange(0, 32) =~= bits.subrange(44, 76));
        assert(r4.subrange(0, 32) =~= bits.subrange(76, 108));
        lemma_le_value_bound(r1.subrange(0, 6));
        lemma_le_value_bound(r3.subrange(0, 32));
        lemma_le_value_bound(r4.subrange(0, 32));
        lemma2_to64();
        lemma2_to64_rest();
    }
    let ghost rb0 = RangeBlockLocation { size: (h, w), pos: (0, 0) };
    let qt = read_quadtree(&mut reader, (h, w), (0, 0), s, 0)?;
    let ghost rest = reader.remaining();
    proof {
        lemma_parse_leaf_sizes(
            r5,
            rb0,
            s.minimum_range_splits as nat,
            s.maximum_range_splits as nat,
            0,
        );
    }
    let ghost parsed = parse_quadtree_file(fbits);
    assert(parsed == (if rest.len() < 195 * qt.leaves().len() {
        None
    } else {
        Some((s, (h, w), decoded_transformations(rest, qt.leaves()), qt))
    }));
    let mut mappings = Mappings::new();
    let leaves = qt.prefix_leaves();
    let mut k: usize = 0;
    while k < leaves.len()
        invariant
            reader.wf(),
            mappings.wf(),
            leaves@ == qt.leaves(),
            k <= leaves@.len(),
            195 * k <= rest.len(),
            parsed == parse_quadtree_file(fbits),
            fbits == bytes_bits(file@),
            parsed == (if rest.len() < 195 * qt.leaves().len() {
                None
            } else {
                Some((s, (h, w), decoded_transformations(rest, qt.leaves()), qt))
            }),
            reader.remaining() == rest.subrange(195 * k, rest.len() as int),
            mappings@ == decoded_transformations(rest, leaves@.subrange(0, k as int)),
            h < 0x1_0000_0000,
            w < 0x1_0000_0000,
            usize::BITS == 64,
            forall|j: int|
                0 <= j < qt.leaves().len() ==> (#[trigger] qt.leaves()[j]).size.0 <= h
                    && qt.leaves()[j].size.1 <= w,
        decreases leaves@.len() - k,
    {
        let rb = leaves[k];
        let ghost q0 = reader.remaining();
        let ghost base = 195 * k;
        let p0 = match reader.read_int(32) {
            Ok(v) => v,
            Err(e) => {
                assert(rest.len() < 195 * leaves@.len());
                return Err(e);
            },
        };
        let ghost q1 = reader.remaining();
        assert(q1 =~= rest.subrange(base + 32, rest.len() as int));
        let p1 = match reader.read_int(32) {
            Ok(v) => v,
            Err(e) => {
                assert(rest.len() < 195 * leaves@.len());
                return Err(e);
            },
        };
        let ghost q2 = reader.remaining();
        assert(q2 =~= rest.subrange(base + 64, rest.len() as int));
        let s0 = match reader.read_int(32) {
            Ok(v) => v,
            Err(e) => {
                assert(rest.len() < 195 * leaves@.len());
                return Err(e);
            },
        };
        let ghost q3 = reader.remaining();
        assert(q3 =~= rest.subrange(base + 96, rest.len() as int));
        let s1 = match reader.read_int(32) {
            Ok(v) => v,
            Err(e) => {
                assert(rest.len() < 195 * leaves@.len());
                return Err(e);
            },
        };
        let ghost q4 = reader.remaining();
        assert(q4 =~= rest.subrange(base + 128, rest.len() as int));
        let flipped = match reader.read_bit() {
            Ok(v) => v,
            Err(e) => {
                assert(rest.len() < 195 * leaves@.len());
                return Err(e);
            },
        };
        let ghost q5 = reader.remaining();
        assert(q5 =~= rest.subrange(base + 129, rest.len() as int));
        let rotation = match reader.read_rotation() {
            Ok(v) => v,
            Err(e) => {
                assert(rest.len() < 195 * leaves@.len());
                return Err(e);
            },
        };
        let ghost q6 = reader.remaining();
        assert(q6 =~= rest.subrange(base + 131, rest.len() as int));
        let c = match reader.read_float() {
            Ok(v) => v,
            Err(e) => {
                assert(rest.len() < 195 * leaves@.len());
                return Err(e);
            },
        };
        let ghost q7 = reader.remaining();
        assert(q7 =~= rest.subrange(base + 163, rest.len() as int));
        let b = match reader.read_float() {
            Ok(v) => v,
            Err(e) => {
                assert(rest.len() < 195 * leaves@.len());
                return Err(e);
            },
        };
        let ghost chunk = rest.subrange(base, base + 195);
        proof {
            assert(q0.subrange(0, 32) =~= chunk.subrange(0, 32));
            assert(q1.subrange(0, 32) =~= chunk.subrange(32, 64));
            assert(q2.subrange(0, 32) =~= chunk.subrange(64, 96));
            assert(q3.subrange(0, 32) =~= chunk.subrange(96, 128));
            assert(q4[0] == chunk[128]);
            assert(q5[0] == chunk[129]);
            assert(q5[1] == chunk[130]);
            assert(q6.subrange(0, 32) =~= chunk.subrange(131, 163));
            assert(q7.subrange(0, 32) =~= chunk.subrange(163, 195));
            assert(rb == qt.leaves()[k as int]);
        }
        let tr: Transformation = (
            DomainBlockLocation { pos: (p0, p1), size: (s0, s1), rotation, flipped },
            c,
            b,
        );
        assert(tr == decoded_transformation(chunk));
        mappings.insert(rb, tr);
        proof {
            assert(leaves@.subrange(0, k + 1).drop_last() =~= leaves@.subrange(0, k as int));
            assert(leaves@.subrange(0, k + 1).last() == rb);
        }
        k = k + 1;
        assert(reader.remaining() =~= rest.subrange(195 * k, rest.len() as int));
    }
    assert(leaves@.subrange(0, k as int) =~= leaves@);
    Ok((s, (h, w), mappings, qt))
}

/// The transformations that `save_mappings` stores for a sequence of range
/// blocks are decoded by `load_mappings` as they were, whatever bits follow
/// them.
proof fn lemma_decode_stored_transformations(
    m: Map<RangeBlockLocation, Transformation>,
    leaves: Seq<RangeBlockLocation>,
    extra: Seq<bool>,
)
    requires
        forall|j: int| 0 <= j < leaves.len() ==> location_fits(m[#[trigger] leaves[j]].0),
    ensures
        decoded_transformations(transformations_bits(m, leaves) + extra, leaves)
            == restored_transformations(m, leaves),
    decreases leaves.len(),
{
    if leaves.len() > 0 {
        let k = leaves.len() - 1;
        let l0 = leaves.drop_last();
        let x = leaves.last();
        let tr = m[x];
        let tb = transformation_bits(tr);
        assert(leaves[k] == x);
        lemma_transformations_bits_len(m, l0);
        let bits = transformations_bits(m, leaves) + extra;
        assert(bits =~= transformations_bits(m, l0) + (tb + extra));
        assert forall|j: int| 0 <= j < l0.len() implies location_fits(m[#[trigger] l0[j]].0) by {
            assert(l0[j] == leaves[j]);
        }
        lemma_decode_stored_transformations(m, l0, tb + extra);
        let chunk = bits.subrange(195 * k, 195 * k + 195);
        assert(chunk =~= tb);
        let d = tr.0;
        lemma2_to64();
        assert(chunk.subrange(0, 32) =~= nat_bits(d.pos.0 as nat, 32));
        assert(chunk.subrange(32, 64) =~= nat_bits(d.pos.1 as nat, 32));
        assert(chunk.subrange(64, 96) =~= nat_bits(d.size.0 as nat, 32));
        assert(chunk.subrange(96, 128) =~= nat_bits(d.size.1 as nat, 32));
        lemma_le_value_roundtrip(d.pos.0 as nat, 32);
        lemma_le_value_roundtrip(d.pos.1 as nat, 32);
        lemma_le_value_roundtrip(d.size.0 as nat, 32);
        lemma_le_value_roundtrip(d.size.1 as nat, 32);
        assert(chunk[128] == d.flipped);
        law_rotation_roundtrip(d.rotation, float_bits(tr.1) + float_bits(tr.2));
        assert(chunk[129] == rotation_bits(d.rotation)[0]);
        assert(chunk[130] == rotation_bits(d.rotation)[1]);
        law_float_roundtrip(tr.1, float_bits(tr.2));
        law_float_roundtrip(tr.2, Seq::empty());
        assert(chunk.subrange(131, 163) =~= (float_bits(tr.1) + float_bits(tr.2)).subrange(0, 32));
        assert(chunk.subrange(163, 195) =~= (float_bits(tr.2) + Seq::<bool>::empty()).subrange(
            0,
            32,
        ));
        assert(decoded_transformation(chunk) == tr);
    }
}

/// A stored file is read back whole: `load_mappings` finds in the bytes that
/// `save_mappings` writes the same settings (without the neighbour count,
/// which is not stored), the image size, the same tree of range blocks, and
/// for each range block its transformation, whatever zero bits complete the
/// last byte.
pub proof fn law_quadtree_file_roundtrip(
    m: Map<RangeBlockLocation, Transformation>,
    t: Quadtree<RangeBlockLocation>,
    s: QuadtreeSettings,
    pad: nat,
)
    requires
        quadtree_saveable(m, t, s),
        is_canonical(
            t,
            RangeBlockLocation {
                size: (t.image_size_spec().0 as usize, t.image_size_spec().1 as usize),
                pos: (0, 0),
            },
            s.minimum_range_splits as nat,
            s.maximum_range_splits as nat,
            0,
        ),
    ensures
        parse_quadtree_file(quadtree_file_bits(m, t, s) + zeros(pad)) == Some(
            (
                QuadtreeSettings { max_neighbors: 0, ..s },
                (t.image_size_spec().0 as usize, t.image_size_spec().1 as usize),
                restored_transformations(m, t.leaves()),
                t,
            ),
        ),
{
    let min = s.minimum_range_splits as nat;
    let max = s.maximum_range_splits as nat;
    let h = t.image_size_spec().0;
    let w = t.image_size_spec().1;
    let a = nat_bits(min, 6);
    let b = nat_bits(max, 6);
    let c = float_bits(s.max_distance);
    let d = nat_bits(h, 32);
    let e = nat_bits(w, 32);
    let q = quadtree_bits(t, min, max, 0);
    let tb = transformations_bits(m, t.leaves());
    let z = zeros(pad);
    let bits = quadtree_file_bits(m, t, s) + z;
    assert(bits =~= a + b + c + d + e + (q + (tb + z)));
    lemma2_to64();
    assert(bits.subrange(0, 6) =~= a);
    assert(bits.subrange(6, 12) =~= b);
    assert(bits.subrange(12, 44) =~= (c + Seq::<bool>::empty()).subrange(0, 32));
    assert(bits.subrange(44, 76) =~= d);
    assert(bits.subrange(76, 108) =~= e);
    assert(bits.subrange(108, bits.len() as int) =~= q + (tb + z));
    lemma_le_value_roundtrip(min, 6);
    lemma_le_value_roundtrip(max, 6);
    lemma_le_value_roundtrip(h, 32);
    lemma_le_value_roundtrip(w, 32);
    law_float_roundtrip(s.max_distance, Seq::empty());
    let rb = RangeBlockLocation { size: (h as usize, w as usize), pos: (0, 0) };
    law_quadtree_roundtrip(t, rb, min, max, 0, tb + z);
    lemma_transformations_bits_len(m, t.leaves());
    lemma_decode_stored_transformations(m, t.leaves(), z);
    assert(tb + z =~= transformations_bits(m, t.leaves()) + z);
}

/// The transformations read back for a sequence of range blocks cover
/// exactly those blocks, each with its transformation.
proof fn lemma_restored_transformations(
    m: Map<RangeBlockLocation, Transformation>,
    leaves: Seq<RangeBlockLocation>,
    k: RangeBlockLocation,
)
    ensures
        restored_transformations(m, leaves).dom().contains(k) <==> leaves.contains(k),
        leaves.contains(k) ==> restored_transformations(m, leaves)[k] == m[k],
    decreases leaves.len(),
{
    if leaves.len() > 0 {
        let l0 = leaves.drop_last();
        lemma_restored_transformations(m, l0, k);
        if l0.contains(k) {
            let i = choose|i: int| 0 <= i < l0.len() && l0[i] == k;
            assert(leaves[i] == k);
        }
        if leaves.contains(k) && k != leaves.last() {
            let i = choose|i: int| 0 <= i < leaves.len() && leaves[i] == k;
            assert(l0[i] == k);
        }
        assert(leaves[leaves.len() - 1] == leaves.last());
    }
}

/// When the transformations cover exactly the leaves, reading back what was
/// stored gives the same transformations.
pub proof fn law_restored_transformations_exact(
    m: Map<RangeBlockLocation, Transformation>,
    leaves: Seq<RangeBlockLocation>,
)
    requires
        forall|k: RangeBlockLocation| m.dom().contains(k) <==> leaves.contains(k),
    ensures
        restored_transformations(m, leaves) == m,
{
    assert forall|k: RangeBlockLocation| #[trigger]
        restored_transformations(m, leaves).dom().contains(k) == m.dom().contains(k) by {
        lemma_restored_transformations(m, leaves, k);
    }
    assert forall|k: RangeBlockLocation| #[trigger]
        restored_transformations(m, leaves).dom().contains(k) implies restored_transformations(
        m,
        leaves,
    )[k] == m[k] by {
        lemma_restored_transformations(m, leaves, k);
    }
    assert(restored_transformations(m, leaves) =~= m);
}

} // verus!
