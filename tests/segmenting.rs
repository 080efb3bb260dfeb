use multijsonl::{M256RegisterWrapper, MultiJsonl256BitsParser, NewLinePositionIter};

fn records(data: &[u8]) -> Vec<Vec<u8>> {
    let mut parser = MultiJsonl256BitsParser::new(data);
    let mut out = Vec::new();
    while let Some(r) = parser.next() {
        out.push(r.to_vec());
    }
    out
}

fn byte_vec_m256(start: Option<u8>, end: Option<u8>) -> Vec<u8> {
    (start.unwrap_or(0)..end.unwrap_or(64)).collect()
}

#[test]
fn test_get_bytes_with_m256_register_index_32() {
    let bytes = byte_vec_m256(None, None);
    let reg = M256RegisterWrapper::from_bytes(&bytes, 32);
    let actual_slice: [u8; 32] = reg.into();
    assert_eq!(actual_slice.first().unwrap(), &31u8)
}

#[test]
fn test_get_bytes_with_m256_register_index_0() {
    let bytes = byte_vec_m256(None, None);
    let reg = M256RegisterWrapper::from_bytes(&bytes, 0);
    let actual_slice: [u8; 32] = reg.into();
    assert_eq!(&bytes.as_slice()[0..32], &actual_slice[0..actual_slice.len()])
}

#[test]
fn register_load_past_end_reads_zero() {
    let bytes = byte_vec_m256(Some(1), Some(11));
    let reg = M256RegisterWrapper::from_bytes(&bytes, 5);
    let lanes: [u8; 32] = reg.into();
    assert_eq!(&lanes[..6], &[5, 6, 7, 8, 9, 10]);
    assert!(lanes[6..].iter().all(|&b| b == 0));
}

#[test]
fn register_contains_byte_marks_lanes() {
    let mut lanes = [b'x'; 32];
    lanes[3] = b'"';
    lanes[30] = b'"';
    let reg = M256RegisterWrapper(lanes);
    let eq: [u8; 32] = reg.contains_byte_cloned(b'"').into();
    for (i, lane) in eq.iter().enumerate() {
        assert_eq!(*lane, if i == 3 || i == 30 { 0xFF } else { 0 });
    }
    let eq: [u8; 32] = reg.contains_byte(b'x').into();
    assert_eq!(eq[0], 0xFF);
    assert_eq!(eq[3], 0);
}

#[test]
fn register_match_bytes_skips_quoted_newlines() {
    let mut lanes = [b' '; 32];
    lanes[..12].copy_from_slice(b"{\"a\":\"x\ny\"}\n");
    lanes[20] = b'\n';
    let reg = M256RegisterWrapper(lanes);
    assert_eq!(reg.match_bytes(0), vec![11, 20]);
    assert_eq!(reg.match_bytes(1), vec![7]);
}

#[test]
fn test_newline_finder() {
    let exemple = r#"First sentence
            Second sentence
            Third"#
        .as_bytes();
    let mut iter = NewLinePositionIter::new(exemple);
    let mut actual_newlines = Vec::new();
    while let Some(pos) = iter.next() {
        actual_newlines.push(pos);
    }
    for pos in actual_newlines {
        assert_eq!(exemple[pos], b'\n')
    }
}

#[test]
fn newline_positions_are_absolute_and_complete() {
    let mut data = vec![b'.'; 200];
    for p in [0usize, 5, 63, 64, 65, 130, 199] {
        data[p] = b'\n';
    }
    let mut iter = NewLinePositionIter::new(&data);
    let mut got = Vec::new();
    while let Some(pos) = iter.next() {
        got.push(pos);
    }
    assert_eq!(got, vec![0, 5, 63, 64, 65, 130, 199]);
    assert_eq!(iter.next(), None);
}

#[test]
fn newline_finder_over_windows_without_newlines() {
    let mut data = vec![b'.'; 300];
    data[290] = b'\n';
    let mut iter = NewLinePositionIter::new(&data);
    assert_eq!(iter.next(), Some(290));
    assert_eq!(iter.next(), None);
}

#[test]
fn round_trip_two_lines() {
    let data = b"{\"a\":1}\n{\"b\":2}\n";
    let got = records(data);
    assert_eq!(got, vec![b"{\"a\":1}\n".to_vec(), b"{\"b\":2}\n".to_vec()]);
    assert_eq!(got.concat(), data.to_vec());
}

#[test]
fn round_trip_many_lines_across_windows() {
    let mut data = Vec::new();
    let mut lines = Vec::new();
    for i in 0..50 {
        let line = format!("{{\"k\":\"v{}\",\"n\":{}}}\n", "w".repeat(i % 7), i).into_bytes();
        data.extend_from_slice(&line);
        lines.push(line);
    }
    let got = records(&data);
    assert_eq!(got, lines);
    assert_eq!(got.concat(), data);
}

#[test]
fn quoted_newline_is_not_a_delimiter() {
    let data = b"{\"a\":\"x\ny\"}\n{\"b\":2}\n";
    let got = records(data);
    assert_eq!(got, vec![b"{\"a\":\"x\ny\"}\n".to_vec(), b"{\"b\":2}\n".to_vec()]);
}

#[test]
fn escaped_quote_keeps_parity() {
    let data = b"{\"a\":\"x\\\"y\"}\n";
    let got = records(data);
    assert_eq!(got, vec![data.to_vec()]);
}

#[test]
fn missing_trailing_newline_drops_fragment() {
    let data = b"{\"a\":1}\n{\"b\":2}";
    let got = records(data);
    assert_eq!(got, vec![b"{\"a\":1}\n".to_vec()]);
}

#[test]
fn empty_input_has_no_records() {
    assert!(records(b"").is_empty());
    let mut parser = MultiJsonl256BitsParser::new(b"");
    assert_eq!(parser.next(), None);
    assert_eq!(parser.next(), None);
}

#[test]
fn open_quote_at_end_swallows_newlines() {
    let data = b"{\"a\":1}\n{\"b\":\"open\n}\n";
    assert_eq!(records(data), vec![b"{\"a\":1}\n".to_vec()]);
}

#[test]
fn backslash_before_quote_always_escapes() {
    // The escaped backslash is not told apart: the quote after it is taken
    // as escaped, so the string stays open to the end and no newline ends a
    // record.
    let data = b"{\"a\":\"x\\\\\"}\n{\"b\":2}\n";
    assert_eq!(records(data), Vec::<Vec<u8>>::new());
}

fn boundary_input(quote_at: usize, newline_at: usize) -> Vec<u8> {
    let mut data = vec![b'x'; 100];
    data[0] = b'{';
    data[quote_at] = b'"';
    data[quote_at + 2] = b'"';
    data[quote_at + 1] = b'\n';
    data[newline_at] = b'\n';
    data[99] = b'\n';
    data
}

#[test]
fn chunk_boundary_quote_and_newline() {
    for (q, n) in [(31usize, 64usize), (30, 63), (32, 31), (62, 95), (63, 96)] {
        let data = boundary_input(q, n);
        let got = records(&data);
        let mut shifted = vec![b' '];
        shifted.extend_from_slice(&data);
        let got_shifted = records(&shifted);
        assert_eq!(got.len(), got_shifted.len());
        let mut first = vec![b' '];
        first.extend_from_slice(&got[0]);
        assert_eq!(got_shifted[0], first);
        assert_eq!(&got_shifted[1..], &got[1..]);
        assert_eq!(got.concat(), data[..got.concat().len()].to_vec());
    }
}

#[test]
fn chunk_boundary_exact_records() {
    // A newline at offset 31, the last byte of the first window.
    let mut data = vec![b'a'; 31];
    data.push(b'\n');
    data.extend_from_slice(b"\"q\nq\"\n");
    let got = records(&data);
    assert_eq!(got, vec![data[..32].to_vec(), data[32..].to_vec()]);
    // A quote at offset 31 opens a string whose newline lies in the next
    // window.
    let mut data = vec![b'a'; 31];
    data.extend_from_slice(b"\"\n\"\nz\n");
    let got = records(&data);
    assert_eq!(got, vec![data[..35].to_vec(), data[35..].to_vec()]);
}

#[test]
fn register_match_bytes_skips_escaped_quote() {
    let reg = M256RegisterWrapper::from_bytes(b"{\"a\":\"x\\\"y\"}\n", 0);
    assert_eq!(reg.match_bytes(0), vec![12]);
    assert_eq!(reg.match_bytes(1), Vec::<u8>::new());
}

#[test]
fn register_into_signed_lanes() {
    let mut lanes = [0u8; 32];
    lanes[0] = 0xFF;
    lanes[1] = 0x7F;
    lanes[2] = 0x80;
    let signed: [i8; 32] = M256RegisterWrapper(lanes).into();
    assert_eq!(&signed[..4], &[-1, 127, -128, 0]);
    let eq: [i8; 32] = M256RegisterWrapper(lanes).contains_byte(0x7F).into();
    assert!(eq[1] < 0);
    assert_eq!(eq[0], 0);
}
