use multijsonl::{
    find_all_matches_fallback, find_all_matches_m256, find_all_matches_m512, LocationMap,
};

fn offsets<const N: usize>(m: LocationMap<N>) -> Vec<usize> {
    let mut out = Vec::new();
    let mut it = m.into_iter();
    while let Some(o) = it.next() {
        out.push(o);
    }
    out
}

#[test]
fn avx2_test_find_all_matches_new_line_size_16_only_one_match() {
    let s = [
        0, 0, 0, 0, 0, 0, 0, b'\n', 0, 0, 0, 0, 0, 0, 0, 0, 0, 0, 0, 0, 0, 0, 0, 0, 0, 0, 0, 0,
        0, 0, 0, 0,
    ];
    assert!(s.len() == 32);
    let matches = find_all_matches_m256(&s, b'\n');
    let mut inner = [0usize; 32];
    inner[0] = 7;
    let expected = LocationMap { map: inner, len: 1 };
    assert_eq!(matches, expected);
}

#[test]
fn avx2_test_find_all_matches_new_line_size_16_only_one_match_end() {
    let s = [
        0, 0, 0, 0, 0, 0, 0, 0, 0, 0, 0, 0, 0, 0, 0, b'\n', 0, 0, 0, 0, 0, 0, 0, 0, 0, 0, 0, 0,
        0, 0, 0, 0,
    ];
    assert!(s.len() == 32);
    let matches = find_all_matches_m256(&s, b'\n');
    let mut inner = [0usize; 32];
    inner[0] = 15;
    let expected = LocationMap { map: inner, len: 1 };
    assert_eq!(matches, expected);
}

#[test]
fn avx2_test_find_all_matches_new_line_size_16_only_one_match_start() {
    let s = [
        b'\n', 0, 0, 0, 0, 0, 0, 0, 0, 0, 0, 0, 0, 0, 0, 0, 0, 0, 0, 0, 0, 0, 0, 0, 0, 0, 0, 0,
        0, 0, 0, 0,
    ];
    assert!(s.len() == 32);
    let matches = find_all_matches_m256(&s, b'\n');
    let mut inner = [0usize; 32];
    inner[0] = 0;
    let expected = LocationMap { map: inner, len: 1 };
    assert_eq!(matches, expected);
}

#[test]
fn avx512_test_find_all_matches_new_line_size_16_only_one_match() {
    let s = [
        0, 0, 0, 0, 0, 0, 0, b'\n', 0, 0, 0, 0, 0, 0, 0, 0, 0, 0, 0, 0, 0, 0, 0, 0, 0, 0, 0, 0,
        0, 0, 0, 0,
    ];
    assert!(s.len() == 32);
    let matches = find_all_matches_m512(&s, b'\n');
    let mut inner = [0usize; 64];
    inner[0] = 7;
    let expected = LocationMap { map: inner, len: 1 };
    assert_eq!(matches, expected);
}

#[test]
fn avx512_test_find_all_matches_new_line_size_16_only_one_match_end() {
    let s = [
        0, 0, 0, 0, 0, 0, 0, 0, 0, 0, 0, 0, 0, 0, 0, b'\n', 0, 0, 0, 0, 0, 0, 0, 0, 0, 0, 0, 0,
        0, 0, 0, 0,
    ];
    assert!(s.len() == 32);
    let matches = find_all_matches_m512(&s, b'\n');
    let mut inner = [0usize; 64];
    inner[0] = 15;
    let expected = LocationMap { map: inner, len: 1 };
    assert_eq!(matches, expected);
}

#[test]
fn avx512_test_find_all_matches_new_line_size_16_only_one_match_start() {
    let s = [
        b'\n', 0, 0, 0, 0, 0, 0, 0, 0, 0, 0, 0, 0, 0, 0, 0, 0, 0, 0, 0, 0, 0, 0, 0, 0, 0, 0, 0,
        0, 0, 0, 0,
    ];
    assert!(s.len() == 32);
    let matches = find_all_matches_m512(&s, b'\n');
    let mut inner = [0usize; 64];
    inner[0] = 0;
    let expected = LocationMap { map: inner, len: 1 };
    assert_eq!(matches, expected);
}

#[test]
fn utils_test_find_all_matches_new_line_size_16_only_one_match() {
    let s = [0, 0, 0, 0, 0, 0, 0, b'\n', 0, 0, 0, 0, 0, 0, 0, 0];
    assert!(s.len() == 16);
    let matches = find_all_matches_fallback::<16>(&s, b'\n');
    let mut inner = [0usize; 16];
    inner[0] = 7;
    let expected = LocationMap { map: inner, len: 1 };
    assert_eq!(matches, expected);
}

#[test]
fn utils_test_find_all_matches_new_line_size_16_only_one_match_end() {
    let s = [0, 0, 0, 0, 0, 0, 0, 0, 0, 0, 0, 0, 0, 0, 0, b'\n'];
    assert!(s.len() == 16);
    let matches = find_all_matches_fallback::<16>(&s, b'\n');
    let mut inner = [0usize; 16];
    inner[0] = 15;
    let expected = LocationMap { map: inner, len: 1 };
    assert_eq!(matches, expected);
}

#[test]
fn utils_test_find_all_matches_new_line_size_16_only_one_match_start() {
    let s = [b'\n', 0, 0, 0, 0, 0, 0, 0, 0, 0, 0, 0, 0, 0, 0, 0];
    assert!(s.len() == 16);
    let matches = find_all_matches_fallback::<16>(&s, b'\n');
    let mut inner = [0usize; 16];
    inner[0] = 0;
    let expected = LocationMap { map: inner, len: 1 };
    assert_eq!(matches, expected);
}

fn sample_window(len: usize) -> Vec<u8> {
    (0..len).map(|i| b"{\"a\":\"x\ny\"}\n"[i % 12]).collect()
}

#[test]
fn backends_agree_with_fallback_on_full_windows() {
    for target in [b'\n', b'"', b'a', b'z', 0u8] {
        let w32 = sample_window(32);
        let a = offsets(find_all_matches_m256(&w32, target));
        let f32w = offsets(find_all_matches_fallback::<32>(&w32, target));
        assert_eq!(a, f32w);
        let w64 = sample_window(64);
        let b = offsets(find_all_matches_m512(&w64, target));
        let f64w = offsets(find_all_matches_fallback::<64>(&w64, target));
        assert_eq!(b, f64w);
    }
}

#[test]
fn wide_backend_finds_every_lane() {
    let w = [b'\n'; 64];
    let got = offsets(find_all_matches_m512(&w, b'\n'));
    assert_eq!(got, (0..64).collect::<Vec<usize>>());
    let w = [b'"'; 32];
    let got = offsets(find_all_matches_m256(&w, b'"'));
    assert_eq!(got, (0..32).collect::<Vec<usize>>());
}

#[test]
fn matcher_exact_offsets() {
    let w = sample_window(32);
    assert_eq!(offsets(find_all_matches_m256(&w, b'\n')), vec![7, 11, 19, 23, 31]);
    assert_eq!(offsets(find_all_matches_m512(&w, b'"')), vec![1, 3, 5, 9, 13, 15, 17, 21, 25, 27, 29]);
}

#[test]
fn matcher_empty_iff_absent() {
    let w = sample_window(64);
    assert!(find_all_matches_m512(&w, b'q').is_empty());
    assert!(find_all_matches_m256(&w[..32], b'q').is_empty());
    assert!(find_all_matches_fallback::<64>(&w, b'q').is_empty());
    assert!(!find_all_matches_m512(&w, b'y').is_empty());
    assert!(!find_all_matches_fallback::<64>(&w, b'y').is_empty());
}

#[test]
fn location_map_push_and_get() {
    let mut m = LocationMap::<4>::new();
    assert!(m.is_empty());
    m.push(3);
    m.push(9);
    assert_eq!(m.len(), 2);
    assert_eq!(m.get(1), 9);
    assert_eq!(m, LocationMap { map: [3, 9, 0, 0], len: 2 });
}

#[test]
fn location_map_reads_only_used_slots() {
    let m = LocationMap { map: [4, 8, 99], len: 2 };
    assert_eq!(m.get(1), 8);
    assert_eq!(offsets(m), vec![4, 8]);
}
