use lzw::BitSequence;
use lzw::log_2;

#[test]
fn empty_default() {
    let empty = BitSequence::new();
    assert_eq!(empty.len(), 0);
}

#[test]
fn store_values() {
    let mut bit_sequence = BitSequence::new();
    let mut values = Vec::new();

    for i in 0..1000 {
        values.push(i);
    }

    for value in &values {
        bit_sequence.add_number(*value, 16);
    }

    assert_eq!(bit_sequence.len(), 16 * 1000);
    for i in 0..1000 {
        assert_eq!(bit_sequence.get_number(16, 16 * i), values[i]);
    }
}

#[test]
fn store_different_size_values() {
    let mut bit_sequence = BitSequence::new();
    let mut values = Vec::new();

    for i in 0..1000 {
        values.push(i);
    }

    for i in 0..100 {
        bit_sequence.add_number(values[i], 7);
    }
    for i in 100..500 {
        bit_sequence.add_number(values[i], 9);
    }
    for i in 500..1000 {
        bit_sequence.add_number(values[i], 30);
    }

    assert_eq!(
        bit_sequence.len(),
        100 * 7 + (500 - 100) * 9 + (1000 - 500) * 30,
    );
    for i in 0..100 {
        assert_eq!(bit_sequence.get_number(7, 7 * i), values[i]);
    }
    for i in 100..500 {
        assert_eq!(
            bit_sequence.get_number(9, 7 * 100 + (i - 100) * 9),
            values[i]
        );
    }
    for i in 500..1000 {
        assert_eq!(
            bit_sequence.get_number(30, 7 * 100 + (500 - 100) * 9 + (i - 500) * 30),
            values[i]
        );
    }
}

#[test]
fn dump_byte_divisible() {
    let mut bit_sequence = BitSequence::new();
    let mut values: Vec<u8> = Vec::new();

    for i in 0..1000 {
        values.push((i % 256) as u8);
    }

    for value in &values {
        bit_sequence.add_number(*value as u64, 8);
    }

    let mut dump: Vec<u8> = Vec::new();
    bit_sequence.dump_end(&mut dump);

    assert_eq!(dump, values);
}

#[test]
fn dump_non_byte_divisible() {
    let mut bit_sequence = BitSequence::new();
    // 0b11111, so the bit sequence is filled with ones
    let values: Vec<u8> = std::iter::repeat(0b11111).take(500).collect();

    for value in &values {
        bit_sequence.add_number(*value as u64, 5);
    }

    let mut dump: Vec<u8> = Vec::new();
    bit_sequence.dump_current(&mut dump);

    assert_eq!(dump.len(), (500 * 5) / 8);
    assert_eq!(bit_sequence.len(), (500 * 5) % 8);
    for value in dump {
        assert_eq!(value, 0b11111111);
    }

    // four ones remain, and nine more arrive: one whole byte plus five ones
    bit_sequence.add_number(0b111111111, 9);

    let mut dump: Vec<u8> = Vec::new();
    bit_sequence.dump_end(&mut dump);

    assert_eq!(dump.len(), 2);
    assert_eq!(dump[0], 0b11111111);
    assert_eq!(dump[1], 0b00011111);
}

#[test]
fn drained_bytes_match_pre_drain_reads() {
    let mut bit_sequence = BitSequence::new();
    for i in 0..77u64 {
        bit_sequence.add_number(i % 32, 5);
    }
    let len_before = bit_sequence.len();
    let mut expected: Vec<u8> = Vec::new();
    for k in 0..len_before / 8 {
        expected.push(bit_sequence.get_number(8, 8 * k) as u8);
    }
    let mut dump: Vec<u8> = Vec::new();
    bit_sequence.dump_current(&mut dump);
    assert_eq!(dump, expected);
    assert_eq!(bit_sequence.len(), len_before % 8);
}

#[test]
fn values_survive_a_trip_through_bytes() {
    let widths: [usize; 7] = [3, 11, 1, 16, 7, 24, 5];
    let values: [u64; 7] = [5, 2000, 1, 65535, 100, 12345678, 19];

    let mut bit_sequence = BitSequence::new();
    for i in 0..7 {
        bit_sequence.add_number(values[i], widths[i]);
    }
    let mut dump: Vec<u8> = Vec::new();
    bit_sequence.dump_end(&mut dump);

    let mut rebuilt = BitSequence::new();
    for byte in &dump {
        rebuilt.add_number(*byte as u64, 8);
    }
    let mut position = 0;
    for i in 0..7 {
        assert_eq!(rebuilt.get_number(widths[i], position), values[i]);
        position += widths[i];
    }
}

#[test]
fn cut_shifts_the_tail_down() {
    let mut bit_sequence = BitSequence::new();
    bit_sequence.add_number(0b1011, 4);
    bit_sequence.add_number(0b110010101, 9);
    bit_sequence.cut(4);
    assert_eq!(bit_sequence.len(), 9);
    assert_eq!(bit_sequence.get_number(9, 0), 0b110010101);
}

#[test]
fn log_2_exact_values() {
    assert_eq!(log_2(0), 0);
    assert_eq!(log_2(1), 0);
    assert_eq!(log_2(2), 1);
    assert_eq!(log_2(3), 2);
    assert_eq!(log_2(4), 2);
    assert_eq!(log_2(5), 3);
    assert_eq!(log_2(256), 8);
    assert_eq!(log_2(257), 9);
    assert_eq!(log_2(65535), 16);
    assert_eq!(log_2(65536), 16);
}
