use parallel_decompression::chunk::read_chunk;
use parallel_decompression::codec::{decode_frame, decode_frame_with_report, encode_zstd_block, write_indexed_zstd};
use parallel_decompression::table::{aggregate_lists, merge_tables, RecordTable};
use parallel_decompression::{CodecError, FrameMeta, Mode};

/// A small tab-delimited accession table shared by these tests.
fn data() -> Vec<u8> {
    let mut text = String::new();
    text.push_str("WP_413685322.1\t584\nXNR99298.1\t584\nMEX9938374.1\t587\nKJX92028.1\t1047168\n");
    text.push_str("EFG1759503.1\t562\nEGJ4377881.1\t562\nEJZ1046351.1\t562\nEOA4653345.1\t562\nEOP3024222.1\t562\n");
    text.push_str("WP_198835266.1\t2779367\nMBJ2149627.1\t2779367\nMBD3193859.1\t2053489\nMBD3198741.1\t2053489\n");
    text.push_str("MBR5368159.1\t1898203\nMCL6526161.1\t2614257\nUXB85809.1\t2697049\nMDO5780201.1\t1506\n");
    text.push_str("MDP1794720.1\t2201156\nMDE2592313.1\t1911520\nUMM52736.1\t2922427\nMDB4345056.1\t1869227\n");
    text.push_str("XP_035011836.2\t195615\nMDY3279706.1\t2831996\nPYI97175.1\t2026799\nPYJ33862.1\t2026799\n");
    text.push_str("WP_137987990.1\t492670\nTKZ18939.1\t492670\nWP_372757791.1\t1979402\nKLA26572.1\t1396\n");
    text.push_str("GAA1911923.1\t433649\n");
    text.into_bytes()
}

fn chunk_text(input: &[u8], block_size: usize) -> Vec<String> {
    let mut out: Vec<String> = Vec::new();
    let mut start: usize = 0;
    while start < input.len() {
        let end = read_chunk(input, start, block_size);
        out.push(String::from_utf8(input[start..end].to_vec()).unwrap());
        start = end;
    }
    out
}

#[test]
fn test_read_chunk_single() {
    // A block too small for a single line: reading proceeds to the end of
    // the line, never splitting it.
    let input = data();
    let end = read_chunk(input.as_slice(), 0, 5);
    let obs = String::from_utf8(input[..end].to_vec()).unwrap();
    assert_eq!("WP_413685322.1\t584\n", obs);
}

#[test]
fn test_read_chunk_multi() {
    // A block too small for the whole file, but covering several lines.
    let input = data();

    let mut exp_content = String::new();
    exp_content.push_str("WP_413685322.1\t584\nXNR99298.1\t584\nMEX9938374.1\t587\nKJX92028.1\t1047168\n");
    exp_content.push_str("EFG1759503.1\t562\nEGJ4377881.1\t562\nEJZ1046351.1\t562\nEOA4653345.1\t562\n");
    exp_content.push_str("EOP3024222.1\t562\nWP_198835266.1\t2779367\nMBJ2149627.1\t2779367\n");
    exp_content.push_str("MBD3193859.1\t2053489\n");

    let end = read_chunk(input.as_slice(), 0, 200);
    let obs = String::from_utf8(input[..end].to_vec()).unwrap();
    assert_eq!(exp_content, obs);
}

#[test]
fn test_read_chunk_file() {
    // The behaviour over the complete input, chunk by chunk.
    let input = data();

    let exp_content: Vec<String> = vec![
        "WP_413685322.1\t584\nXNR99298.1\t584\nMEX9938374.1\t587\nKJX92028.1\t1047168\n".into(),
        "EFG1759503.1\t562\nEGJ4377881.1\t562\nEJZ1046351.1\t562\nEOA4653345.1\t562\nEOP3024222.1\t562\n".into(),
        "WP_198835266.1\t2779367\nMBJ2149627.1\t2779367\nMBD3193859.1\t2053489\nMBD3198741.1\t2053489\n".into(),
        "MBR5368159.1\t1898203\nMCL6526161.1\t2614257\nUXB85809.1\t2697049\nMDO5780201.1\t1506\n".into(),
        "MDP1794720.1\t2201156\nMDE2592313.1\t1911520\nUMM52736.1\t2922427\nMDB4345056.1\t1869227\n".into(),
        "XP_035011836.2\t195615\nMDY3279706.1\t2831996\nPYI97175.1\t2026799\nPYJ33862.1\t2026799\n".into(),
        "WP_137987990.1\t492670\nTKZ18939.1\t492670\nWP_372757791.1\t1979402\nKLA26572.1\t1396\n".into(),
        "GAA1911923.1\t433649\n".into(),
    ];

    assert_eq!(exp_content, chunk_text(input.as_slice(), 70));
}

#[test]
fn test_encode_zstd_block_single() {
    let mut out: Vec<u8> = Vec::new();
    let content = "test string for compression!";

    let obs_result = encode_zstd_block(&mut out, content.as_bytes(), 0);
    assert!(obs_result.is_ok());

    let (start, stop) = obs_result.unwrap();
    assert_eq!((0, 41), (start, stop));
    assert_eq!(41, out.len());
}

#[test]
fn test_encode_zstd_block_multiple() {
    let mut out: Vec<u8> = Vec::new();

    let full_content: Vec<(String, (u64, u64))> = vec![
        ("first entry!".into(), (0, 25)),
        ("second entry!".into(), (25, 51)),
        ("third entry!".into(), (51, 76)),
    ];

    for (content, (exp_start, exp_stop)) in &full_content {
        let obs_result = encode_zstd_block(&mut out, content.as_bytes(), 0);
        assert!(obs_result.is_ok());

        let exp_values = (*exp_start, *exp_stop);
        assert_eq!(exp_values, obs_result.unwrap());
    }
}

#[test]
fn test_write_indexed_zstd_single_frame() {
    let input = data();
    let (out, index) = write_indexed_zstd(input.as_slice(), 200, 0).unwrap();

    // Decompress only the first frame to check that the blocks are being
    // created correctly.
    let mut exp_zstd_frame = String::new();
    exp_zstd_frame.push_str("WP_413685322.1\t584\nXNR99298.1\t584\nMEX9938374.1\t587\nKJX92028.1\t1047168\n");
    exp_zstd_frame.push_str("EFG1759503.1\t562\nEGJ4377881.1\t562\nEJZ1046351.1\t562\nEOA4653345.1\t562\n");
    exp_zstd_frame.push_str("EOP3024222.1\t562\nWP_198835266.1\t2779367\nMBJ2149627.1\t2779367\n");
    exp_zstd_frame.push_str("MBD3193859.1\t2053489\n");

    let first = &index[0];
    let frame = &out[first.position as usize..(first.position + first.length) as usize];
    let payload = zstd::stream::decode_all(frame).unwrap();
    assert_eq!(exp_zstd_frame.as_bytes(), payload.as_slice());
}

#[test]
fn test_write_indexed_zstd_complete() {
    let input = data();
    let (out, index) = write_indexed_zstd(input.as_slice(), 200, 0).unwrap();

    // Decompressing the whole stream reproduces the input: compression
    // worked and the frames are back to back.
    let payload = zstd::stream::decode_all(out.as_slice()).unwrap();
    assert_eq!(input, payload);

    // The index describes the same blocks a fresh chunking pass yields.
    let chunks = chunk_text(input.as_slice(), 200);
    assert_eq!(chunks.len(), index.len());
    for (k, m) in index.iter().enumerate() {
        assert_eq!(k as u64, m.order);
        let frame = &out[m.position as usize..(m.position + m.length) as usize];
        let one = zstd::stream::decode_all(frame).unwrap();
        assert_eq!(chunks[k].as_bytes(), one.as_slice());
    }
}

#[test]
fn test_frame_contiguity() {
    // Consecutive descriptors tile the stream without gap or overlap, and
    // the last one ends at the stream's total size.
    let input = data();
    let (out, index) = write_indexed_zstd(input.as_slice(), 70, 3).unwrap();
    assert!(index.len() > 1);
    assert_eq!(0, index[0].position);
    for k in 0..index.len() - 1 {
        assert_eq!(index[k].position + index[k].length, index[k + 1].position);
    }
    let last = &index[index.len() - 1];
    assert_eq!(out.len() as u64, last.position + last.length);
}

#[test]
fn test_round_trip_all_frames() {
    // Decompressing every frame in order and concatenating the bytes
    // reproduces the input byte for byte.
    let input = data();
    let (out, index) = write_indexed_zstd(input.as_slice(), 64, 0).unwrap();
    let mut rebuilt: Vec<u8> = Vec::new();
    for m in &index {
        let frame = &out[m.position as usize..(m.position + m.length) as usize];
        rebuilt.extend(zstd::stream::decode_all(frame).unwrap());
    }
    assert_eq!(input, rebuilt);
}

#[test]
fn test_single_frame_isolation() {
    // One frame, located by its own descriptor alone, decodes to exactly
    // the chunk encoded into it.
    let input = data();
    let (out, index) = write_indexed_zstd(input.as_slice(), 70, 0).unwrap();
    let chunks = chunk_text(input.as_slice(), 70);
    let m = &index[3];
    let frame = &out[m.position as usize..(m.position + m.length) as usize];
    let records = decode_frame(frame).unwrap();
    let expected = parallel_decompression::records::parse_lines_to_map(chunks[3].as_bytes());
    assert_eq!(expected, records);
}

#[test]
fn test_map_zstd_frame() {
    // The third frame of a 200-byte-block pass holds the final records of
    // the table.
    let input = data();
    let (out, index) = write_indexed_zstd(input.as_slice(), 200, 0).unwrap();
    let idx_frame = &index[2];
    assert_eq!(2, idx_frame.order);

    let exp_vector: Vec<(String, u64)> = vec![
        ("MDY3279706.1".into(), 2831996),
        ("PYI97175.1".into(), 2026799),
        ("PYJ33862.1".into(), 2026799),
        ("WP_137987990.1".into(), 492670),
        ("TKZ18939.1".into(), 492670),
        ("WP_372757791.1".into(), 1979402),
        ("KLA26572.1".into(), 1396),
        ("GAA1911923.1".into(), 433649),
    ];

    let length = idx_frame.parse_length().unwrap();
    let frame = &out[idx_frame.position as usize..idx_frame.position as usize + length];
    let obs_vector = decode_frame(frame).unwrap();
    assert_eq!(exp_vector, obs_vector);
}

#[test]
fn test_decode_frame_corrupt() {
    let garbage: Vec<u8> = vec![1, 2, 3, 4, 5, 6, 7, 8];
    assert_eq!(Err(CodecError::FrameDecode), decode_frame(garbage.as_slice()));
    assert!(decode_frame_with_report(garbage.as_slice()).is_err());
}

#[test]
fn test_record_table_last_write_wins() {
    let mut t = RecordTable::new();
    t.insert("a".to_string(), 1);
    t.insert("b".to_string(), 2);
    t.insert("a".to_string(), 3);
    assert_eq!(2, t.len());
    assert_eq!(Some(3), t.get(&"a".to_string()));
    assert_eq!(Some(2), t.get(&"b".to_string()));
    assert_eq!(None, t.get(&"c".to_string()));
}

#[test]
fn test_merge_tables_size_biased() {
    // The smaller table's records are folded into the larger one, so on a
    // shared key the smaller side wins.
    let mut big = RecordTable::new();
    big.insert("a".to_string(), 1);
    big.insert("b".to_string(), 2);
    let mut small = RecordTable::new();
    small.insert("a".to_string(), 9);
    let merged = merge_tables(big, small);
    assert_eq!(2, merged.len());
    assert_eq!(Some(9), merged.get(&"a".to_string()));
    assert_eq!(Some(2), merged.get(&"b".to_string()));
}

#[test]
fn test_merge_equivalence() {
    // With no duplicate keys across frames, all three strategies produce
    // mappings with identical keys, values and size.
    let lists: Vec<Vec<(String, u64)>> = vec![
        vec![("a".into(), 1), ("b".into(), 2)],
        vec![("c".into(), 3)],
        vec![],
        vec![("d".into(), 4), ("e".into(), 5), ("f".into(), 6)],
    ];
    let t1 = aggregate_lists(&Mode::DashMap, &lists);
    let t2 = aggregate_lists(&Mode::Vector, &lists);
    let t3 = aggregate_lists(&Mode::Merge, &lists);
    assert_eq!(6, t1.len());
    assert_eq!(6, t2.len());
    assert_eq!(6, t3.len());
    for (k, v) in [("a", 1u64), ("b", 2), ("c", 3), ("d", 4), ("e", 5), ("f", 6)] {
        assert_eq!(Some(v), t1.get(&k.to_string()));
        assert_eq!(Some(v), t2.get(&k.to_string()));
        assert_eq!(Some(v), t3.get(&k.to_string()));
    }
}

#[test]
fn test_scale_invariance() {
    // Frame completion order is not deterministic under concurrency: with
    // distinct keys, folding the per-frame lists in any order gives the
    // same mapping, under every strategy.
    let forward: Vec<Vec<(String, u64)>> = vec![
        vec![("a".into(), 1), ("b".into(), 2)],
        vec![("c".into(), 3)],
        vec![("d".into(), 4), ("e".into(), 5)],
    ];
    let mut reversed = forward.clone();
    reversed.reverse();
    for mode in [Mode::DashMap, Mode::Vector, Mode::Merge] {
        let t1 = aggregate_lists(&mode, &forward);
        let t2 = aggregate_lists(&mode, &reversed);
        assert_eq!(t1.len(), t2.len());
        for (k, v) in [("a", 1u64), ("b", 2), ("c", 3), ("d", 4), ("e", 5)] {
            assert_eq!(Some(v), t1.get(&k.to_string()));
            assert_eq!(Some(v), t2.get(&k.to_string()));
        }
    }
}

#[test]
fn test_aggregate_full_pipeline() {
    // Compress, load every frame through its own descriptor, parse, and
    // aggregate: the final table holds every record of the input.
    let input = data();
    let (out, index) = write_indexed_zstd(input.as_slice(), 70, 0).unwrap();
    let mut lists: Vec<Vec<(String, u64)>> = Vec::new();
    for m in &index {
        let length = m.parse_length().unwrap();
        let frame = &out[m.position as usize..m.position as usize + length];
        lists.push(decode_frame(frame).unwrap());
    }
    let table = aggregate_lists(&Mode::Merge, &lists);
    assert_eq!(30, table.len());
    assert_eq!(Some(584), table.get(&"WP_413685322.1".to_string()));
    assert_eq!(Some(433649), table.get(&"GAA1911923.1".to_string()));
    assert_eq!(Some(195615), table.get(&"XP_035011836.2".to_string()));
}

#[test]
fn test_frame_meta_new() {
    let m = FrameMeta::new(10, 20, 3);
    assert_eq!(10, m.position);
    assert_eq!(20, m.length);
    assert_eq!(3, m.order);
}
