use std::collections::HashMap;
use sudachi_wasm::bytes::{read_i16_le, read_u32_le};
use sudachi_wasm::matrix::{
    apply_matrix_patches, bitpack_connection_matrix, check_blocks, matrix_blocks, packing_plan,
    packing_room, MatrixBlock, PackedBlock,
};
use sudachi_wasm::word_info::{
    parse_record, plan_word_infos, read_string_length, vbyte_encode_word_infos,
    vbyte_reencode_record, Piece,
};

fn matrix_of(start: usize, costs: &[i16]) -> Vec<u8> {
    let mut buf = vec![0xEE; start];
    for cost in costs {
        buf.extend_from_slice(&cost.to_le_bytes());
    }
    buf.push(0xDD);
    buf
}

/// A piece as text, so that pieces can be compared.
fn shown(piece: &Piece) -> String {
    match piece {
        Piece::Raw(bytes) => format!("raw {:?}", bytes),
        Piece::Unsigned(n) => format!("unsigned {}", n),
        Piece::Signed(n) => format!("signed {}", n),
    }
}

fn all_shown(pieces: &[Piece]) -> Vec<String> {
    pieces.iter().map(shown).collect()
}

/// A record with a surface of two units, a long head word, and lists of the given numbers.
fn record(lists: &[&[u32]]) -> Vec<u8> {
    let mut out = vec![2, b'a', 0, b'b', 0];
    out.extend_from_slice(&[0x81, 0x05]);
    out.extend_from_slice(&513u16.to_le_bytes());
    out.extend_from_slice(&[0]);
    out.extend_from_slice(&(-7i32).to_le_bytes());
    out.extend_from_slice(&[1, 0x42, 0x30]);
    for list in lists {
        out.push(list.len() as u8);
        for n in *list {
            out.extend_from_slice(&n.to_le_bytes());
        }
    }
    out
}

fn record_shown(lists: &[&[u32]]) -> Vec<String> {
    let mut out = vec![
        "raw [2, 97, 0, 98, 0]".to_string(),
        "raw [129, 5]".to_string(),
        "unsigned 513".to_string(),
        "raw [0]".to_string(),
        "signed -7".to_string(),
        "raw [1, 66, 48]".to_string(),
    ];
    for list in lists {
        out.push(format!("unsigned {}", list.len()));
        for n in *list {
            out.push(format!("unsigned {}", n));
        }
    }
    out
}

#[test]
fn patches_change_costs_within_sixteen_bits() {
    let mut buf = matrix_of(3, &[1, 2, 3, 4, 32000, -32000]);
    let mut patches = HashMap::new();
    patches.insert(1, 10i16);
    patches.insert(65536, -20);
    patches.insert(2 * 65536, 1000);
    patches.insert(2 * 65536 + 1, -1000);
    patches.insert(2, 5);
    patches.insert(3 * 65536, 5);
    let before = buf.clone();
    let applied = apply_matrix_patches(&mut buf, 3, 2, 3, &patches);
    assert_eq!(applied, 4);
    let costs: Vec<i16> = (0..6).map(|i| read_i16_le(&buf, 3 + 2 * i)).collect();
    assert_eq!(costs, vec![1, 12, -17, 4, 32767, -32768]);
    assert_eq!(buf[..3], before[..3]);
    assert_eq!(buf[15], 0xDD);
    assert_eq!(apply_matrix_patches(&mut buf, 3, 2, 3, &HashMap::new()), 0);
}

#[test]
fn one_block_has_distances_from_its_smallest_cost() {
    let buf = matrix_of(5, &[5, -3, 0, 7, 7, -3]);
    let blocks = matrix_blocks(&buf, 5, 3, 2);
    assert_eq!(blocks.len(), 1);
    assert_eq!(blocks[0].min_val, -3);
    assert_eq!(blocks[0].range, 10);
    assert_eq!(blocks[0].offsets, vec![8, 0, 3, 10, 10, 0]);
    let whole = matrix_blocks(&matrix_of(0, &[i16::MIN, i16::MAX]), 0, 2, 1);
    assert_eq!((whole[0].min_val, whole[0].range), (-32768, 65535));
    assert_eq!(whole[0].offsets, vec![0, 65535]);
    assert!(matrix_blocks(&buf, 5, 0, 9).is_empty());
    assert!(matrix_blocks(&buf, 5, 9, 0).is_empty());
}

#[test]
fn each_cost_is_found_in_its_block() {
    let (num_left, num_right) = (300usize, 257usize);
    let costs: Vec<i16> = (0..num_left * num_right)
        .map(|i| ((i * 7919) % 60000) as i32 - 30000)
        .map(|n| n as i16)
        .collect();
    let buf = matrix_of(1, &costs);
    let blocks = matrix_blocks(&buf, 1, num_left, num_right);
    assert_eq!(blocks.len(), 4);
    assert_eq!(blocks[0].offsets.len(), 256 * 256);
    assert_eq!(blocks[1].offsets.len(), 256 * 44);
    assert_eq!(blocks[2].offsets.len(), 256);
    assert_eq!(blocks[3].offsets.len(), 44);
    for right in 0..num_right {
        for left in 0..num_left {
            let block = &blocks[right / 256 * 2 + left / 256];
            let cols = if left < 256 { 256 } else { 44 };
            let k = right % 256 * cols + left % 256;
            assert_eq!(
                block.min_val as i32 + block.offsets[k] as i32,
                costs[right * num_left + left] as i32
            );
        }
    }
    for block in &blocks {
        assert_eq!(block.offsets.iter().min(), Some(&0));
        assert_eq!(block.offsets.iter().max(), Some(&block.range));
    }
}

#[test]
fn distances_are_packed_bit_after_bit() {
    assert_eq!(packing_room(3, 5), vec![0, 0]);
    assert_eq!(packing_room(8, 1), vec![0]);
    assert_eq!(packing_room(9, 1), vec![0, 0]);
    assert!(packing_room(65536, 0).is_empty());
    assert_eq!(packing_room(65536, 16).len(), 131072);
    assert_eq!(packing_plan(&[7, 8, 9], 5), vec![(0, 7), (5, 8), (10, 9)]);
    assert!(packing_plan(&[], 3).is_empty());
}

#[test]
fn packed_matrix_has_a_table_of_its_blocks() {
    let blocks = vec![
        MatrixBlock { min_val: -2, range: 5, offsets: vec![0, 5, 1] },
        MatrixBlock { min_val: 258, range: 0, offsets: vec![0] },
    ];
    let packed = vec![
        PackedBlock { bit_width: 3, packed: vec![0xAA, 0xBB] },
        PackedBlock { bit_width: 0, packed: vec![] },
    ];
    assert!(check_blocks(&blocks, &packed));
    let out = bitpack_connection_matrix(300, 0x1_0002, &blocks, &packed);
    assert_eq!(
        out,
        vec![
            0x50, 0x42, 0x43, 0x4D, 0x2C, 0x01, 0x02, 0x00, 2, 0, 0, 0, 0, 0, 0, 0, 5, 0, 0, 0, 0xFE,
            0xFF, 3, 0xAA, 0xBB, 2, 1, 0,
        ]
    );
    for (b, block) in packed.iter().enumerate() {
        let place = 12 + 4 * 2 + read_u32_le(&out, 12 + 4 * b) as usize;
        assert_eq!(read_i16_le(&out, place), blocks[b].min_val);
        assert_eq!(out[place + 2], block.bit_width);
        assert_eq!(out[place + 3..place + 3 + block.packed.len()], block.packed);
    }
}

#[test]
fn string_lengths_take_one_or_two_bytes() {
    assert_eq!(read_string_length(&[9, 127], 1), (127, 1));
    assert_eq!(read_string_length(&[0x80, 0x00], 0), (0, 2));
    assert_eq!(read_string_length(&[0x81, 0x02], 0), (258, 2));
    assert_eq!(read_string_length(&[0xFF, 0xFF], 0), (32767, 2));
}

#[test]
fn records_become_pieces() {
    let lists: [&[u32]; 4] = [&[1, 0xFFFF_FFFF], &[], &[300], &[5, 6, 7]];
    let with = record(&lists);
    assert_eq!(all_shown(&vbyte_reencode_record(&with, true)), record_shown(&lists));
    assert_eq!(all_shown(&vbyte_reencode_record(&with, false)), record_shown(&lists[..3]));
    let mut longer = with.clone();
    longer.extend_from_slice(&[9, 9, 9]);
    assert_eq!(all_shown(&vbyte_reencode_record(&longer, true)), record_shown(&lists));
}

#[test]
fn different_records_have_different_pieces() {
    let lists: [&[u32]; 3] = [&[1], &[2, 3], &[]];
    let bytes = record(&lists);
    let pieces = all_shown(&vbyte_reencode_record(&bytes, false));
    for i in [1, 2, 6, 7, 8, 10, 13, 16, 18, 23] {
        let mut other = bytes.clone();
        other[i] ^= 1;
        assert_ne!(all_shown(&vbyte_reencode_record(&other, false)), pieces);
    }
    let moved: [&[u32]; 3] = [&[1, 2], &[3], &[]];
    assert_ne!(all_shown(&vbyte_reencode_record(&record(&moved), false)), pieces);
}

/// The distances of the blocks, which have to be below 256, packed with 8 bits each.
fn packed_in_bytes(blocks: &[MatrixBlock]) -> Vec<PackedBlock> {
    blocks
        .iter()
        .map(|block| {
            let mut packed = packing_room(block.offsets.len(), 8);
            for (bit, offset) in packing_plan(&block.offsets, 8) {
                assert!(offset < 256);
                packed[bit / 8] = offset as u8;
            }
            PackedBlock { bit_width: 8, packed }
        })
        .collect()
}

#[test]
fn shifted_costs_change_the_smallest_costs_only() {
    let (num_left, num_right) = (257usize, 2usize);
    let costs: Vec<i16> = (0..num_left * num_right)
        .map(|i| (i * 31 % 200) as i16 - 100)
        .collect();
    let higher: Vec<i16> = costs.iter().map(|cost| cost + 300).collect();
    let buf = matrix_of(3, &costs);
    let mut other = matrix_of(3, &higher);
    other[0] ^= 0xFF;
    other.push(7);
    let blocks = matrix_blocks(&buf, 3, num_left, num_right);
    let shifted = matrix_blocks(&other, 3, num_left, num_right);
    assert_eq!((blocks.len(), shifted.len()), (2, 2));
    for (block, moved) in blocks.iter().zip(&shifted) {
        assert_eq!(moved.min_val, block.min_val + 300);
        assert_eq!(moved.range, block.range);
        assert_eq!(moved.offsets, block.offsets);
    }
    let packed = packed_in_bytes(&blocks);
    let before = bitpack_connection_matrix(num_left, num_right, &blocks, &packed);
    let after =
        bitpack_connection_matrix(num_left, num_right, &shifted, &packed_in_bytes(&shifted));
    assert_eq!(after.len(), before.len());
    let mut undone = after.clone();
    for b in 0..2 {
        let place = 12 + 4 * 2 + read_u32_le(&before, 12 + 4 * b) as usize;
        assert_eq!(read_i16_le(&after, place), read_i16_le(&before, place) + 300);
        undone[place] = before[place];
        undone[place + 1] = before[place + 1];
    }
    assert_eq!(undone, before);
}

#[test]
fn packed_matrix_depends_on_its_costs_only() {
    let buf = matrix_of(4, &[1, 2, 3, 4]);
    let mut other = buf.clone();
    other[0] = 0x55;
    other[3] = 0x66;
    other.push(9);
    let blocks = matrix_blocks(&buf, 4, 2, 2);
    let others = matrix_blocks(&other, 4, 2, 2);
    assert_eq!(
        bitpack_connection_matrix(2, 2, &others, &packed_in_bytes(&others)),
        bitpack_connection_matrix(2, 2, &blocks, &packed_in_bytes(&blocks))
    );
}

#[test]
fn packed_costs_are_read_without_unpacking() {
    let costs = [5i16, -3, 0, 7, 7, -3];
    let buf = matrix_of(0, &costs);
    let blocks = matrix_blocks(&buf, 0, 3, 2);
    let out = bitpack_connection_matrix(3, 2, &blocks, &packed_in_bytes(&blocks));
    for right in 0..2 {
        for left in 0..3 {
            let place = 12 + 4 + read_u32_le(&out, 12) as usize;
            let k = right * 3 + left;
            let distance = out[place + 3 + k * out[place + 2] as usize / 8];
            assert_eq!(
                read_i16_le(&out, place) as i32 + distance as i32,
                costs[right * 3 + left] as i32
            );
        }
    }
}

#[test]
fn records_are_read_part_by_part() {
    let lists: [&[u32]; 3] = [&[1], &[2, 3], &[]];
    let bytes = record(&lists);
    let info = parse_record(&bytes, false).unwrap();
    assert_eq!(info.surface, vec![2, b'a', 0, b'b', 0]);
    assert_eq!(info.head_word_length, vec![0x81, 0x05]);
    assert_eq!(info.pos_id, 513);
    assert_eq!(info.normalized_form, vec![0]);
    assert_eq!(info.dictionary_form, -7);
    assert_eq!(info.reading_form, vec![1, 0x42, 0x30]);
    assert_eq!(info.lists, vec![vec![1], vec![2, 3], vec![]]);
    for cut in 0..bytes.len() {
        assert!(parse_record(&bytes[..cut], false).is_none());
    }
    assert!(parse_record(&bytes, true).is_none());
}

#[test]
fn records_are_found_by_their_places() {
    let lists: [&[u32]; 3] = [&[1], &[], &[]];
    let other: [&[u32]; 3] = [&[], &[8, 9], &[10]];
    let first = record(&lists);
    let second = record(&other);
    let mut buf = vec![0xCC; 2];
    let place = 2 + 8;
    buf.extend_from_slice(&(place as u32).to_le_bytes());
    buf.extend_from_slice(&((place + first.len()) as u32).to_le_bytes());
    buf.extend_from_slice(&first);
    buf.extend_from_slice(&second);
    let plan = plan_word_infos(&buf, 2, 2, false).unwrap();
    assert_eq!(plan.len(), 2);
    assert_eq!(all_shown(&plan[0]), record_shown(&lists));
    assert_eq!(all_shown(&plan[1]), record_shown(&other));
    assert!(plan_word_infos(&buf, 2, 2, true).is_none());
    assert!(plan_word_infos(&buf, 2, 1_000_000, false).is_none());
    assert!(plan_word_infos(&buf, usize::MAX, 1, false).is_none());
    assert_eq!(plan_word_infos(&buf, usize::MAX, 0, false).unwrap().len(), 0);
    let mut past = buf.clone();
    past[6..10].copy_from_slice(&10_000u32.to_le_bytes());
    assert!(plan_word_infos(&past, 2, 2, false).is_none());
    let mut back = buf.clone();
    back[6..10].copy_from_slice(&1u32.to_le_bytes());
    assert!(plan_word_infos(&back, 2, 2, false).is_none());
}

#[test]
fn word_information_has_a_table_of_its_records() {
    let out = vbyte_encode_word_infos(&vec![vec![1, 2, 3], vec![], vec![4]]);
    assert_eq!(
        out,
        vec![
            0x42, 0x56, 0x57, 0x4D, 3, 0, 0, 0, 4, 0, 0, 0, 0, 0, 0, 0, 3, 0, 0, 0, 3, 0, 0, 0, 1, 2,
            3, 4,
        ]
    );
    for (i, record) in [vec![1, 2, 3], vec![], vec![4]].iter().enumerate() {
        let place = 12 + 4 * 3 + read_u32_le(&out, 12 + 4 * i) as usize;
        assert_eq!(out[place..place + record.len()], record[..]);
    }
    assert_eq!(vbyte_encode_word_infos(&vec![])[4..], [0; 8]);
}
