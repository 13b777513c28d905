use fractal_compression::naive::io::{BinBufReader, BinBufWriter, StreamError};
use fractal_compression::naive::NaiveCompressionSettings;
use fractal_compression::prelude::{DomainBlockLocation, RangeBlockLocation, Rotation};

const S: NaiveCompressionSettings = NaiveCompressionSettings {
    domain_block_size: 14,
    range_block_size: 8,
    domain_block_stepx: 9,
    domain_block_stepy: 3,
    coord_bits: 13,
};

#[test]
fn test_io_bit() {
    let mut w = BinBufWriter::new();

    let data = [
        true, true, false, false, true, false, false, false, false, false, false, false, false,
        true, true, false, false, true, false, false, true, false, false, true, true,
    ];

    w.add_bits(&data);

    let buf = w.finish();

    println!("{buf:?}\n");

    let mut r = BinBufReader::new(buf);

    for &expected in data.iter() {
        let b = r.read_bit().unwrap();
        println!("{}", b);
        assert_eq!(b, expected);
    }
}

#[test]
fn tests_structs_io() {
    let mut w = BinBufWriter::new();

    w.add_bit(true);

    let _rb = RangeBlockLocation {
        pos: (18 * S.range_block_size, 33 * S.range_block_size),
        size: (S.range_block_size, S.range_block_size),
    };
    let _db = DomainBlockLocation {
        pos: (7 * S.domain_block_stepy, 36 * S.domain_block_stepx),
        flipped: true,
        rotation: Rotation::ThreeQuarter,
        size: (S.domain_block_size, S.domain_block_size),
    };

    w.write_int(69, 21);
    w.write_float(0.861f32.to_bits());
    w.write_rotation(Rotation::Quarter);
    w.write_rotation(Rotation::Zero);
    w.write_rotation(Rotation::ThreeQuarter);
    w.write_byte(42);
    w.write_rotation(Rotation::Half);

    let buf = w.finish();

    println!("{buf:?}\n");

    let mut r = BinBufReader::new(buf);

    r.read_bit().unwrap();

    println!("int");
    assert_eq!(69, r.read_int(21).unwrap());
    println!("f32_block");
    assert_eq!(f32::from_bits(r.read_float().unwrap()), 0.861);
    println!("rotation 0");
    assert_eq!(r.read_rotation().unwrap(), Rotation::Quarter);
    println!("rotation 0");
    assert_eq!(r.read_rotation().unwrap(), Rotation::Zero);
    println!("rotation 0");
    assert_eq!(r.read_rotation().unwrap(), Rotation::ThreeQuarter);
    println!("byte");
    assert_eq!(42, r.read_byte().unwrap());
    println!("rotation 0");
    assert_eq!(r.read_rotation().unwrap(), Rotation::Half);
}

#[test]
fn writer_packs_low_bit_first() {
    let mut w = BinBufWriter::new();
    w.add_bits(&[true, false, false, false, false, false, false, false, true, true]);
    assert_eq!(w.size_written(), 10);
    assert_eq!(w.finish(), vec![1u8, 3u8]);
}

#[test]
fn write_byte_most_significant_first() {
    let mut w = BinBufWriter::new();
    w.write_byte(0b1000_0010);
    // the first bit written (the high bit) lands in the low bit of the byte
    assert_eq!(w.finish(), vec![0b0100_0001u8]);
}

#[test]
fn write_int_least_significant_first() {
    let mut w = BinBufWriter::new();
    w.write_int(6, 4);
    assert_eq!(w.finish(), vec![6u8]);
}

#[test]
fn close_pads_with_zeros_and_keeps_count() {
    let mut w = BinBufWriter::new();
    w.add_bits(&[true, true, true]);
    w.close();
    assert_eq!(w.size_written(), 3);
    w.close();
    assert_eq!(w.finish(), vec![7u8]);
}

#[test]
fn empty_writer_gives_no_bytes() {
    let w = BinBufWriter::new();
    assert_eq!(w.finish(), Vec::<u8>::new());
}

#[test]
fn read_bit_at_end_is_unexpected_eof() {
    let mut r = BinBufReader::new(vec![]);
    assert_eq!(r.read_bit(), Err(StreamError::UnexpectedEof));
    let mut r = BinBufReader::new(vec![0xff]);
    for _ in 0..8 {
        assert_eq!(r.read_bit(), Ok(true));
    }
    assert_eq!(r.read_bit(), Err(StreamError::UnexpectedEof));
}

#[test]
fn read_byte_int_float_rotation_fail_when_short() {
    let mut r = BinBufReader::new(vec![0x12]);
    assert_eq!(r.read_int(9), Err(StreamError::UnexpectedEof));
    let mut r = BinBufReader::new(vec![0x12]);
    r.read_bit().unwrap();
    assert_eq!(r.read_byte(), Err(StreamError::UnexpectedEof));
    let mut r = BinBufReader::new(vec![1, 2, 3]);
    assert_eq!(r.read_float(), Err(StreamError::UnexpectedEof));
    let mut r = BinBufReader::new(vec![]);
    assert_eq!(r.read_rotation(), Err(StreamError::UnexpectedEof));
}

#[test]
fn read_int_and_byte_values() {
    let mut r = BinBufReader::new(vec![0b1010_0110, 0xff]);
    assert_eq!(r.read_int(4), Ok(6));
    assert_eq!(r.read_int(4), Ok(10));
    assert_eq!(r.read_byte(), Ok(0xff));
    let mut r = BinBufReader::new(vec![0b0000_0001]);
    assert_eq!(r.read_byte(), Ok(0b1000_0000));
}

#[test]
fn float_bits_round_trip() {
    for x in [0.0f32, -1.5, 3.25e-7, f32::MAX, f32::MIN_POSITIVE, 0.0861] {
        let mut w = BinBufWriter::new();
        w.add_bit(false);
        w.write_float(x.to_bits());
        let bytes = w.finish();
        assert_eq!(bytes.len(), 5);
        let mut r = BinBufReader::new(bytes);
        r.read_bit().unwrap();
        assert_eq!(f32::from_bits(r.read_float().unwrap()), x);
    }
}

#[test]
fn rotations_round_trip() {
    for rot in [Rotation::Zero, Rotation::Quarter, Rotation::Half, Rotation::ThreeQuarter] {
        let mut w = BinBufWriter::new();
        w.write_rotation(rot);
        let mut r = BinBufReader::new(w.finish());
        assert_eq!(r.read_rotation(), Ok(rot));
    }
}

#[test]
fn ints_round_trip_at_all_widths() {
    for size in 1..=20usize {
        let n = (1usize << size) - 2;
        let mut w = BinBufWriter::new();
        w.write_int(n, size);
        w.write_int(1, 3);
        let mut r = BinBufReader::new(w.finish());
        assert_eq!(r.read_int(size), Ok(n));
        assert_eq!(r.read_int(3), Ok(1));
    }
}
