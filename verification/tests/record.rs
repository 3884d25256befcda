use randomx_pool::PuzzleSolution;
use randomx_pool::parse_solution;
use randomx_pool::solution_json_bytes;
use randomx_pool::u64_to_dec;

fn sample_solution() -> PuzzleSolution {
    PuzzleSolution::new(
        vec![1, 2, 250],
        9_000_000_001,
        vec![0, 17],
        b"worker3".to_vec(),
        1002u64.to_le_bytes().to_vec(),
        vec![0x02, 0x99],
        vec![0x08, 0x00, 0xfe],
        4,
    )
}

#[test]
fn decimal_rendering() {
    assert_eq!(u64_to_dec(0), b"0".to_vec());
    assert_eq!(u64_to_dec(7), b"7".to_vec());
    assert_eq!(u64_to_dec(10), b"10".to_vec());
    assert_eq!(u64_to_dec(90210), b"90210".to_vec());
    assert_eq!(u64_to_dec(u64::MAX), b"18446744073709551615".to_vec());
}

#[test]
fn record_format() {
    let sol = PuzzleSolution::new(
        vec![1, 2],
        42,
        vec![],
        vec![200],
        vec![3],
        vec![4],
        vec![5, 0],
        7,
    );
    let bytes = solution_json_bytes(&sol);
    let text = String::from_utf8(bytes).unwrap();
    assert_eq!(
        text,
        "{\"peer_id\":[1,2],\"key_block\":42,\"signed_context\":[],\"thread_name\":[200],\"nonce\":[3],\"signed_nonce\":[4],\"hash\":[5,0],\"difficulty\":7}"
    );
}

#[test]
fn round_trip() {
    let sol = sample_solution();
    let bytes = solution_json_bytes(&sol);
    let parsed = parse_solution(&bytes).expect("own rendering parses");
    assert_eq!(parsed.peer_id, sol.peer_id);
    assert_eq!(parsed.key_block, sol.key_block);
    assert_eq!(parsed.signed_context, sol.signed_context);
    assert_eq!(parsed.thread_name, sol.thread_name);
    assert_eq!(parsed.nonce, sol.nonce);
    assert_eq!(parsed.signed_nonce, sol.signed_nonce);
    assert_eq!(parsed.hash, sol.hash);
    assert_eq!(parsed.difficulty, sol.difficulty);
}

#[test]
fn round_trip_empty_fields() {
    let sol = PuzzleSolution::new(Vec::new(), 0, Vec::new(), Vec::new(), Vec::new(), Vec::new(), Vec::new(), 0);
    let bytes = solution_json_bytes(&sol);
    let parsed = parse_solution(&bytes).expect("own rendering parses");
    assert_eq!(parsed.peer_id, sol.peer_id);
    assert_eq!(parsed.hash, sol.hash);
    assert_eq!(parsed.key_block, 0);
    assert_eq!(parsed.difficulty, 0);
}

#[test]
fn parse_rejects_tampered_record() {
    let sol = sample_solution();
    let mut bytes = solution_json_bytes(&sol);
    bytes[1] = b'x';
    assert!(parse_solution(&bytes).is_none());
    let mut truncated = solution_json_bytes(&sol);
    truncated.pop();
    assert!(parse_solution(&truncated).is_none());
}

#[test]
fn parse_rejects_out_of_range_byte() {
    // a byte item above 255 cannot come from a byte field
    let text = "{\"peer_id\":[300],\"key_block\":1,\"signed_context\":[],\"thread_name\":[],\"nonce\":[],\"signed_nonce\":[],\"hash\":[],\"difficulty\":1}";
    assert!(parse_solution(&text.as_bytes().to_vec()).is_none());
}

#[test]
fn parse_is_canonical() {
    // whitespace or leading zeros never appear in a written record,
    // and the parser does not accept them
    let spaced = "{\"peer_id\": [1],\"key_block\":1,\"signed_context\":[],\"thread_name\":[],\"nonce\":[],\"signed_nonce\":[],\"hash\":[],\"difficulty\":1}";
    assert!(parse_solution(&spaced.as_bytes().to_vec()).is_none());
    let zero_padded = "{\"peer_id\":[01],\"key_block\":1,\"signed_context\":[],\"thread_name\":[],\"nonce\":[],\"signed_nonce\":[],\"hash\":[],\"difficulty\":1}";
    assert!(parse_solution(&zero_padded.as_bytes().to_vec()).is_none());
}

#[test]
fn solution_path_from_digest() {
    let sol = sample_solution();
    // hex digest, lowercase, two digits per byte, one separator
    assert_eq!(sol.file_path("./puzzle-solutions/"), "./puzzle-solutions/0800fe.json");
    assert_eq!(sol.file_path("./puzzle-solutions"), "./puzzle-solutions/0800fe.json");
    let other = PuzzleSolution::new(
        Vec::new(),
        0,
        Vec::new(),
        Vec::new(),
        Vec::new(),
        Vec::new(),
        vec![0xab, 0x01, 0xff],
        0,
    );
    assert_eq!(other.file_path("out"), "out/ab01ff.json");
}

#[test]
fn distinct_digests_distinct_paths() {
    let a = PuzzleSolution::new(Vec::new(), 0, Vec::new(), Vec::new(), Vec::new(), Vec::new(), vec![0x00, 0x01], 0);
    let b = PuzzleSolution::new(Vec::new(), 0, Vec::new(), Vec::new(), Vec::new(), Vec::new(), vec![0x00, 0x02], 0);
    assert_ne!(a.file_path("out"), b.file_path("out"));
}
