use rustmine::batch::{decode_batch, encode_batch, BatchError};
use rustmine::chunk::{
    calculate_bits_per_block, calculate_needed_height, encode_chunk_column, encode_empty_subchunk, encode_subchunk,
    is_subchunk_empty, SubChunk,
};
use rustmine::decode::{decode_subchunk, ChunkDecodeError};
use rustmine::nbt::NbtWriter;
use rustmine::interaction::{parse_break_block, parse_place_block, validate_break, validate_place, encode_update_block};
use rustmine::varint::{write_var_i32, write_var_u32};

#[test]
fn empty_batch_roundtrip_is_empty_list() {
    let raw = encode_batch(&[]);
    assert_eq!(raw, vec![0xfe]);
    assert!(decode_batch(&raw).unwrap().is_empty());
}

#[test]
fn batch_roundtrip() {
    let packets = vec![vec![1u8, 2, 3], vec![10, 20], vec![255]];
    let raw = encode_batch(&packets);
    let decoded = decode_batch(&raw).unwrap();
    assert_eq!(decoded.len(), 3);
    assert_eq!(decoded[0], &[1, 2, 3]);
    assert_eq!(decoded[1], &[10, 20]);
    assert_eq!(decoded[2], &[255]);
}

#[test]
fn rejects_bad_magic() {
    assert!(decode_batch(&[0xff]).is_err());
}

#[test]
fn batch_exact_bytes_and_errors() {
    let raw = encode_batch(&[vec![7u8, 8]]);
    assert_eq!(raw, vec![0xfe, 2, 7, 8]);
    assert_eq!(decode_batch(&[]).unwrap_err(), BatchError::Empty);
    assert_eq!(decode_batch(&[0x12]).unwrap_err(), BatchError::BadMagic(0x12));
    assert!(decode_batch(&[0xfe, 5, 1]).is_err());
}

#[test]
fn test_subchunk_new() {
    let subchunk = SubChunk::new();
    assert_eq!(subchunk.palette.len(), 1);
    assert_eq!(subchunk.blocks.len(), 4096);
}

#[test]
fn test_subchunk_filled() {
    let subchunk = SubChunk::filled(5);
    assert_eq!(subchunk.palette.len(), 1);
    assert_eq!(subchunk.palette[0], 5);
}

#[test]
fn test_subchunk_set_block() {
    let mut subchunk = SubChunk::new();
    subchunk.set_block(0, 0, 0, 1);
    assert!(subchunk.palette.contains(&1));
}

#[test]
fn test_encode_empty_subchunk() {
    let subchunk = SubChunk::new();
    let encoded = encode_subchunk(&subchunk);
    assert_eq!(encoded[0], 8);
    assert!(encoded.len() > 500);
}

#[test]
fn test_encode_filled_subchunk() {
    let subchunk = SubChunk::filled(1);
    let encoded = encode_subchunk(&subchunk);
    assert!(!encoded.is_empty());
    assert_eq!(encoded[0], 8);
}

#[test]
fn test_encode_terrain_subchunk() {
    let subchunk = SubChunk::with_terrain(64);
    let encoded = encode_subchunk(&subchunk);
    assert!(!encoded.is_empty());
}

#[test]
fn test_encode_chunk_column() {
    let subchunks = vec![SubChunk::new(); 16];
    let encoded = encode_chunk_column(0, 0, &subchunks, false);
    assert!(encoded.len() > 10);
}

#[test]
fn test_calculate_bits_per_block() {
    assert_eq!(calculate_bits_per_block(1), 1);
    assert_eq!(calculate_bits_per_block(2), 1);
    assert_eq!(calculate_bits_per_block(3), 2);
    assert_eq!(calculate_bits_per_block(16), 4);
    assert_eq!(calculate_bits_per_block(256), 8);
}

#[test]
fn single_palette_subchunk_layout() {
    // One palette entry: 1 bit per block, 4096 / 32 = 128 words of zeros.
    let encoded = encode_subchunk(&SubChunk::new());
    assert_eq!(encoded[0], 8);
    assert_eq!(encoded[1], 1);
    assert_eq!(encoded[2], 1); // bits per block as a VarInt
    assert_eq!(encoded.len(), 3 + 128 * 4 + 1 + 1);
    assert_eq!(encoded_tail(&encoded), [1, 0]); // palette size 1, runtime id 0
}

fn encoded_tail(e: &[u8]) -> [u8; 2] {
    [e[e.len() - 2], e[e.len() - 1]]
}

#[test]
fn empty_subchunk_and_column_sizes() {
    let e = encode_empty_subchunk();
    assert_eq!(e[0], 8);
    let one = encode_chunk_column(0, 0, &[], false);
    // id, x, z, count (4), cache flag, one entry (length + bytes), trailer 13
    assert_eq!(one.len(), 1 + 1 + 1 + 4 + 1 + 4 + e.len() + 13);
}

#[test]
fn test_roundtrip_empty_subchunk() {
    let source = SubChunk::new();
    let encoded = encode_subchunk(&source);
    let decoded = decode_subchunk(&encoded).unwrap();
    assert_eq!(decoded.version, 8);
    assert_eq!(decoded.palette, vec![0]);
    assert_eq!(decoded.blocks.len(), 4096);
}

#[test]
fn test_roundtrip_filled_subchunk() {
    let source = SubChunk::filled(5);
    let encoded = encode_subchunk(&source);
    let decoded = decode_subchunk(&encoded).unwrap();
    assert_eq!(decoded.palette, vec![5]);
    assert_eq!(decoded.get_block(0, 0, 0), 5);
}

#[test]
fn test_roundtrip_terrain_subchunk() {
    let source = SubChunk::with_terrain(64);
    let encoded = encode_subchunk(&source);
    let decoded = decode_subchunk(&encoded).unwrap();
    assert!(!decoded.palette.is_empty());
    assert_eq!(decoded.blocks.len(), 4096);
}

#[test]
fn roundtrip_mixed_subchunk_blocks() {
    let mut s = SubChunk::new();
    s.set_block(1, 2, 3, 7);
    s.set_block(15, 15, 15, 9);
    let decoded = decode_subchunk(&encode_subchunk(&s)).unwrap();
    assert_eq!(decoded.palette, vec![0, 7, 9]);
    assert_eq!(decoded.get_block(1, 2, 3), 7);
    assert_eq!(decoded.get_block(15, 15, 15), 9);
    assert_eq!(decoded.get_block(0, 0, 0), 0);
}

#[test]
fn decode_rejects_short_input() {
    assert!(decode_subchunk(&[]).is_err());
    assert!(decode_subchunk(&[8, 2, 1]).is_err());
}

#[test]
fn test_parse_break_simple() {
    let mut body = Vec::new();
    write_var_i32(&mut body, 10);
    write_var_i32(&mut body, 64);
    write_var_i32(&mut body, -5);

    let info = parse_break_block(&body).expect("should parse");
    assert_eq!(info.x, 10);
    assert_eq!(info.y, 64);
    assert_eq!(info.z, -5);
    assert!(info.face.is_none());
}

#[test]
fn test_parse_break_with_face() {
    let mut body = Vec::new();
    write_var_i32(&mut body, 0);
    write_var_i32(&mut body, 63);
    write_var_i32(&mut body, 0);
    write_var_i32(&mut body, 1);

    let info = parse_break_block(&body).expect("should parse");
    assert_eq!(info.x, 0);
    assert_eq!(info.face, Some(1));
}

#[test]
fn test_parse_place_simple() {
    let mut body = Vec::new();
    write_var_i32(&mut body, 1);
    write_var_i32(&mut body, 65);
    write_var_i32(&mut body, 2);
    write_var_i32(&mut body, 0);
    write_var_u32(&mut body, 2);

    let info = parse_place_block(&body).expect("should parse");
    assert_eq!(info.x, 1);
    assert_eq!(info.y, 65);
    assert_eq!(info.z, 2);
    assert_eq!(info.face, Some(0));
    assert_eq!(info.runtime_id, Some(2));
}

#[test]
fn parse_rejects_truncated_positions() {
    let mut body = Vec::new();
    write_var_i32(&mut body, 1);
    assert!(parse_break_block(&body).is_none());
    assert!(parse_place_block(&body).is_none());
}

#[test]
fn test_validate_break_ok() {
    assert!(validate_break(10, 64, 10, false).is_ok());
}

#[test]
fn test_validate_break_air() {
    assert!(validate_break(0, 64, 0, true).is_err());
}

#[test]
fn test_validate_break_out_of_bounds() {
    assert!(validate_break(0, 300, 0, false).is_err());
}

#[test]
fn test_validate_place_ok() {
    assert!(validate_place(5, 64, 5, true, Some(1)).is_ok());
}

#[test]
fn test_validate_place_occupied() {
    assert!(validate_place(5, 64, 5, false, Some(1)).is_err());
}

#[test]
fn test_validate_place_no_id() {
    assert!(validate_place(5, 64, 5, true, None).is_err());
}

#[test]
fn update_block_packet_starts_with_id() {
    let p = encode_update_block(1, 2, 3, 4);
    assert_eq!(p[0], rustmine::packet_id::UPDATE_BLOCKS);
    assert!(validate_break(0, -1, 0, false).is_err());
    assert!(validate_place(0, 256, 0, true, Some(1)).is_err());
}

fn resolved(s: &SubChunk, i: usize) -> u32 {
    s.palette[s.blocks[i] as usize]
}

#[test]
fn terrain_subchunk_has_surface_at_world_height() {
    // Subchunk 4 holds world y 64..79: grass at local y 0, air above.
    let s = SubChunk::with_terrain(64);
    assert_eq!(resolved(&s, 0), 2);
    for i in 256..4096 {
        assert_eq!(resolved(&s, i), 0);
    }
    // Surface at 70: local y 0..=5 dirt (64 < 65), then grass at 6.
    let s = SubChunk::with_terrain(70);
    assert_eq!(resolved(&s, 0), 1); // world 64 < 65: stone
    assert_eq!(resolved(&s, 256), 3); // world 65: dirt
    assert_eq!(resolved(&s, 6 * 256), 2); // world 70: grass
    assert_eq!(resolved(&s, 7 * 256), 0);
    // Surface at 5: bedrock at world 0, dirt up to 4, grass at 5.
    let s = SubChunk::with_terrain(5);
    assert_eq!(resolved(&s, 0), 10);
    assert_eq!(resolved(&s, 4 * 256), 3);
    assert_eq!(resolved(&s, 5 * 256), 2);
}

#[test]
fn empty_means_every_block_is_air() {
    assert!(is_subchunk_empty(&SubChunk::new()));
    assert!(!is_subchunk_empty(&SubChunk::filled(1)));
    let mut s = SubChunk::new();
    s.set_block(3, 3, 3, 5);
    assert!(!is_subchunk_empty(&s));
    s.set_block(3, 3, 3, 0);
    assert!(is_subchunk_empty(&s));
    let subs = vec![SubChunk::new(), SubChunk::filled(1), SubChunk::new()];
    assert_eq!(calculate_needed_height(&subs), 2);
    assert_eq!(calculate_needed_height(&[SubChunk::new()]), 1);
}

#[test]
fn decode_short_input_is_an_error() {
    assert_eq!(decode_subchunk(&[]).unwrap_err(), ChunkDecodeError::UnexpectedEnd);
    assert_eq!(decode_subchunk(&[8]).unwrap_err(), ChunkDecodeError::UnexpectedEnd);
    assert_eq!(decode_subchunk(&[8, 1]).unwrap_err(), ChunkDecodeError::UnexpectedEnd);
    assert_eq!(decode_subchunk(&[8, 2]).unwrap_err(), ChunkDecodeError::UnsupportedStorageCount(2));
    assert_eq!(decode_subchunk(&[8, 1, 4, 0]).unwrap_err(), ChunkDecodeError::UnexpectedEnd);
}

#[test]
fn decode_wide_bits_is_an_error() {
    let e = decode_subchunk(&[8, 1, 33]).unwrap_err();
    assert_eq!(e, ChunkDecodeError::UnsupportedBitsPerBlock(33));
    assert_eq!(e.message(), "unsupported bits per block: 33");
}

#[test]
fn decode_full_width_words() {
    // 32 bits per block: one block per word, cut to 16 bits.
    let mut data = vec![8u8, 1, 32];
    for i in 0..4096u32 {
        data.extend_from_slice(&(i + 0x10000).to_le_bytes());
    }
    data.push(1);
    data.push(7);
    let d = decode_subchunk(&data).unwrap();
    assert_eq!(d.blocks[0], 0);
    assert_eq!(d.blocks[4095], 4095);
    assert_eq!(d.palette, vec![7]);
}

fn palette_subchunk(n: u32) -> SubChunk {
    let mut s = SubChunk::new();
    for i in 1..n {
        let idx = (i * 37) as usize % 4096;
        s.set_block((idx % 16) as u8, (idx / 256) as u8, ((idx / 16) % 16) as u8, 100 + i);
    }
    s
}

#[test]
fn roundtrip_every_bit_width() {
    for n in [2u32, 3, 5, 8, 9, 17, 33, 65, 129, 257, 300] {
        let s = palette_subchunk(n);
        assert_eq!(s.palette.len(), n as usize);
        let e = encode_subchunk(&s);
        let bits = calculate_bits_per_block(s.palette.len()) as u8;
        assert_eq!(e[2], bits);
        let per_word = 32 / bits as usize;
        let words = (4096 + per_word - 1) / per_word;
        let d = decode_subchunk(&e).unwrap();
        assert_eq!(d.version, 8);
        assert_eq!(d.palette, s.palette);
        assert_eq!(d.blocks, s.blocks);
        assert!(e.len() > 3 + 4 * words);
    }
}

#[test]
fn write_string_wraps_length_to_sixteen_bits() {
    let mut w = NbtWriter::new();
    w.write_string("ab");
    assert_eq!(w.as_bytes(), &[2, 0, b'a', b'b']);
    let long = "x".repeat(65536);
    let mut w = NbtWriter::new();
    w.write_string(&long);
    assert_eq!(w.as_bytes(), &[0, 0]);
    let longer = "y".repeat(65538);
    let mut w = NbtWriter::new();
    w.write_string(&longer);
    assert_eq!(w.as_bytes(), &[2, 0, b'y', b'y']);
}
