use line_chunker::{encode_chunks, Chunk, ChunkFactory};
use line_chunker::decimal::number_text;

fn run(chunk_size: usize, start: usize, lens: &[usize], force: bool) -> (Vec<Chunk>, Option<Chunk>, String) {
    let mut f = ChunkFactory::new(chunk_size, true, start);
    let mut out = String::new();
    let mut chunks = Vec::new();
    for (i, len) in lens.iter().enumerate() {
        if let Some(c) = f.create_chunk_if_needed(i + 1, *len, &mut out) {
            chunks.push(c);
        }
    }
    let last = f.create_last_chunk(lens.len(), force);
    (chunks, last, out)
}

#[test]
fn example_seven_lines_in_chunks_of_three() {
    let mut f = ChunkFactory::new(3, false, 0);
    let mut out = String::new();
    let lens = [4, 4, 4, 4, 4, 4, 2];
    let mut got = Vec::new();
    for (i, len) in lens.iter().enumerate() {
        got.push(f.create_chunk_if_needed(i + 1, *len, &mut out));
    }
    assert_eq!(got[0], None);
    assert_eq!(got[1], None);
    assert_eq!(got[2], Some(Chunk { r: (0, 2), b: (0, 11) }));
    assert_eq!(got[3], None);
    assert_eq!(got[4], None);
    assert_eq!(got[5], Some(Chunk { r: (3, 5), b: (12, 23) }));
    assert_eq!(got[6], None);
    assert_eq!(f.create_last_chunk(7, false), Some(Chunk { r: (6, 6), b: (24, 25) }));
    assert_eq!(out, "");
    assert_eq!(f.get_current_byte_index(), 26);
    assert_eq!(f.lines_processed(), 7);
}

#[test]
fn records_are_written_as_chunks_complete() {
    let (_, last, out) = run(3, 0, &[4, 4, 4, 4, 4, 4, 2], false);
    assert_eq!(
        out,
        "{\"r\":[0,2],\"b\":[0,11]}\n{\"r\":[3,5],\"b\":[12,23]}\n"
    );
    assert_eq!(last, Some(Chunk { r: (6, 6), b: (24, 25) }));
}

#[test]
fn no_record_is_written_before_a_boundary() {
    let mut f = ChunkFactory::new(2, true, 0);
    let mut out = String::from("x");
    assert_eq!(f.create_chunk_if_needed(1, 5, &mut out), None);
    assert_eq!(out, "x");
    assert_eq!(f.create_chunk_if_needed(2, 5, &mut out), Some(Chunk { r: (0, 1), b: (0, 9) }));
    assert_eq!(out, "x{\"r\":[0,1],\"b\":[0,9]}\n");
}

#[test]
fn empty_stream_gives_nothing() {
    let (chunks, last, out) = run(3, 0, &[], false);
    assert!(chunks.is_empty());
    assert_eq!(last, None);
    assert_eq!(out, "");
    let f = ChunkFactory::new(3, true, 0);
    assert_eq!(f.create_last_chunk(0, true), None);
}

#[test]
fn exact_multiple_leaves_no_trailing_chunk() {
    let (chunks, last, _) = run(3, 0, &[4, 4, 4, 4, 4, 4], false);
    assert_eq!(chunks.len(), 2);
    assert_eq!(last, None);
}

#[test]
fn forced_trailing_chunk_after_exact_multiple_is_empty() {
    let (_, last, _) = run(3, 0, &[4, 4, 4, 4, 4, 4], true);
    assert_eq!(last, Some(Chunk { r: (6, 5), b: (24, 23) }));
}

#[test]
fn short_stream_forced_into_one_chunk() {
    let (chunks, last, out) = run(10, 0, &[3, 1, 7, 2], true);
    assert!(chunks.is_empty());
    assert_eq!(out, "");
    assert_eq!(last, Some(Chunk { r: (0, 3), b: (0, 12) }));
}

#[test]
fn short_stream_without_force_still_flushes_its_lines() {
    let (_, last, _) = run(10, 0, &[3, 1, 7, 2], false);
    assert_eq!(last, Some(Chunk { r: (0, 3), b: (0, 12) }));
}

#[test]
fn trailing_chunk_holds_the_remainder() {
    let (chunks, last, _) = run(4, 0, &[1, 2, 3, 4, 5, 6, 7, 8, 9, 10], false);
    assert_eq!(chunks, vec![Chunk { r: (0, 3), b: (0, 9) }, Chunk { r: (4, 7), b: (10, 35) }]);
    assert_eq!(last, Some(Chunk { r: (8, 9), b: (36, 54) }));
}

#[test]
fn starting_offset_shifts_byte_ranges() {
    let (chunks, last, _) = run(2, 100, &[10, 10, 5], false);
    assert_eq!(chunks, vec![Chunk { r: (0, 1), b: (100, 119) }]);
    assert_eq!(last, Some(Chunk { r: (2, 2), b: (120, 124) }));
}

#[test]
fn resuming_with_the_cursor_continues_the_byte_ranges() {
    let mut f = ChunkFactory::new(2, false, 0);
    let mut out = String::new();
    f.create_chunk_if_needed(1, 3, &mut out);
    f.create_chunk_if_needed(2, 3, &mut out);
    f.create_chunk_if_needed(3, 3, &mut out);
    assert_eq!(f.get_current_byte_index(), 9);
    let mut g = ChunkFactory::new(2, false, f.get_current_byte_index());
    g.create_chunk_if_needed(1, 4, &mut out);
    assert_eq!(g.create_chunk_if_needed(2, 4, &mut out), Some(Chunk { r: (0, 1), b: (9, 16) }));
}

#[test]
fn chunks_cover_lines_and_bytes_without_gaps() {
    let lens = [5, 1, 9, 2, 2, 8, 3, 1, 1, 4, 6, 7, 2];
    let (mut chunks, last, _) = run(3, 7, &lens, false);
    chunks.extend(last);
    let total: usize = lens.iter().sum();
    assert_eq!(chunks[0].r.0, 0);
    assert_eq!(chunks[0].b.0, 7);
    for w in chunks.windows(2) {
        assert_eq!(w[1].r.0, w[0].r.1 + 1);
        assert_eq!(w[1].b.0, w[0].b.1 + 1);
    }
    for c in &chunks[..chunks.len() - 1] {
        assert_eq!(c.r.1 + 1 - c.r.0, 3);
    }
    let end = chunks[chunks.len() - 1];
    assert_eq!(end.r.1, lens.len() - 1);
    assert_eq!(end.b.1, 7 + total - 1);
}

#[test]
fn encode_writes_a_json_record() {
    let c = Chunk { r: (3, 5), b: (12, 23) };
    assert_eq!(c.encode(), "{\"r\":[3,5],\"b\":[12,23]}");
    let z = Chunk { r: (0, 0), b: (0, 0) };
    assert_eq!(z.encode(), "{\"r\":[0,0],\"b\":[0,0]}");
}

#[test]
fn encode_round_trips_through_json() {
    let cases = [
        Chunk { r: (0, 0), b: (0, 0) },
        Chunk { r: (0, 2), b: (0, 11) },
        Chunk { r: (10, 19), b: (1234, 98765) },
        Chunk { r: (usize::MAX - 1, usize::MAX), b: (0, usize::MAX) },
    ];
    for c in cases {
        let v: serde_json::Value = serde_json::from_str(&c.encode()).unwrap();
        let back = Chunk {
            r: (v["r"][0].as_u64().unwrap() as usize, v["r"][1].as_u64().unwrap() as usize),
            b: (v["b"][0].as_u64().unwrap() as usize, v["b"][1].as_u64().unwrap() as usize),
        };
        assert_eq!(back, c);
    }
}

#[test]
fn encode_chunks_writes_a_json_array() {
    assert_eq!(encode_chunks(&[]), "[]");
    let cs = [Chunk { r: (0, 2), b: (0, 11) }, Chunk { r: (3, 5), b: (12, 23) }];
    let text = encode_chunks(&cs);
    assert_eq!(text, "[{\"r\":[0,2],\"b\":[0,11]},{\"r\":[3,5],\"b\":[12,23]}]");
    let v: serde_json::Value = serde_json::from_str(&text).unwrap();
    assert_eq!(v.as_array().unwrap().len(), 2);
}

#[test]
fn chunk_size_one_completes_every_line() {
    let (chunks, last, _) = run(1, 0, &[2, 3], false);
    assert_eq!(chunks, vec![Chunk { r: (0, 0), b: (0, 1) }, Chunk { r: (1, 1), b: (2, 4) }]);
    assert_eq!(last, None);
}

#[test]
fn numbers_are_written_in_decimal() {
    assert_eq!(number_text(0), "0");
    assert_eq!(number_text(7), "7");
    assert_eq!(number_text(10), "10");
    assert_eq!(number_text(1234567890), "1234567890");
    assert_eq!(number_text(usize::MAX), usize::MAX.to_string());
}

#[test]
fn decode_reads_back_encoded_chunks() {
    let cases = [
        Chunk { r: (0, 0), b: (0, 0) },
        Chunk { r: (0, 2), b: (0, 11) },
        Chunk { r: (6, 5), b: (24, 23) },
        Chunk { r: (usize::MAX - 1, usize::MAX), b: (0, usize::MAX) },
    ];
    for c in cases {
        assert_eq!(Chunk::decode(&c.encode()), Some(c));
    }
    assert_eq!(Chunk::decode("{\"r\":[3,5],\"b\":[12,23]}"), Some(Chunk { r: (3, 5), b: (12, 23) }));
}

#[test]
fn decode_rejects_what_is_not_a_record() {
    assert_eq!(Chunk::decode(""), None);
    assert_eq!(Chunk::decode("{\"r\":[01,2],\"b\":[0,11]}"), None);
    assert_eq!(Chunk::decode("{\"r\":[0, 2],\"b\":[0,11]}"), None);
    assert_eq!(Chunk::decode("{\"r\":[0,2],\"b\":[0,11]}\n"), None);
    assert_eq!(Chunk::decode("{\"r\":[0,2],\"b\":[0,]}"), None);
    assert_eq!(Chunk::decode("{\"b\":[0,11],\"r\":[0,2]}"), None);
    assert_eq!(Chunk::decode("{\"r\":[0,18446744073709551616],\"b\":[0,11]}"), None);
    assert_eq!(Chunk::decode("{\"r\":[0,2],\"b\":[0,11]"), None);
}
