use keyscan::counters::ScanCounters;
use keyscan::engine::bytes_equal;
use keyscan::engine::check_candidate;
use keyscan::engine::scan;
use keyscan::engine::search;
use keyscan::engine::search_stream;

fn derived(pass: &[u8], salt: &[u8], iterations: u32, len: usize) -> Vec<u8> {
    let mut out = vec![0u8; len];
    pbkdf2::pbkdf2_hmac::<sha1::Sha1>(pass, salt, iterations, &mut out);
    out
}

fn words(list: &[&[u8]]) -> Vec<Vec<u8>> {
    list.iter().map(|w| w.to_vec()).collect()
}

#[test]
fn engine_finds_the_single_match() {
    let salt = b"pepper".to_vec();
    let target = derived(b"letmein", &salt, 3, 16);
    let candidates = words(&[b"aaa", b"letmein", b"zzz", b"letmeout"]);
    for workers in [1usize, 2, 8] {
        let pool = rayon::ThreadPoolBuilder::new().num_threads(workers).build().unwrap();
        let mut counters = ScanCounters::new();
        let found = pool.install(|| search(&mut counters, &candidates, &salt, 3, &target));
        assert_eq!(found, Some(b"letmein".to_vec()));
        assert!(counters.total() >= 1);
        assert!(counters.total() <= candidates.len() as u64);
    }
}

#[test]
fn engine_returns_none_and_counts_all_when_nothing_matches() {
    let salt = b"salt".to_vec();
    let target = derived(b"absent", &salt, 2, 16);
    let candidates = words(&[b"one", b"two", b"three", b"four", b"five"]);
    let mut counters = ScanCounters::new();
    let found = search(&mut counters, &candidates, &salt, 2, &target);
    assert_eq!(found, None);
    assert_eq!(counters.total(), candidates.len() as u64);
}

#[test]
fn engine_returns_one_of_several_matches() {
    let salt = b"s".to_vec();
    let target = derived(b"dup", &salt, 1, 16);
    let candidates = words(&[b"x", b"dup", b"y", b"dup", b"z"]);
    let mut counters = ScanCounters::new();
    let found = search(&mut counters, &candidates, &salt, 1, &target).expect("a match exists");
    assert_eq!(found, b"dup".to_vec());
    assert!(counters.total() <= candidates.len() as u64);
    assert!(counters.total() >= 1);
}

#[test]
fn engine_scan_counts_every_candidate_and_every_match() {
    let salt = b"s".to_vec();
    let target = derived(b"dup", &salt, 1, 16);
    let candidates = words(&[b"x", b"dup", b"y", b"dup", b"z"]);
    let mut counters = ScanCounters::new();
    let matches = scan(&mut counters, &candidates, &salt, 1, &target);
    assert_eq!(matches, 2);
    assert_eq!(counters.total(), candidates.len() as u64);
}

#[test]
fn engine_scan_over_nothing_checks_nothing() {
    let salt = Vec::new();
    let target = derived(b"anything", &salt, 1, 16);
    let mut counters = ScanCounters::new();
    let matches = scan(&mut counters, &Vec::new(), &salt, 1, &target);
    assert_eq!(matches, 0);
    assert_eq!(counters.total(), 0);
}

#[test]
fn engine_recovers_hunter2_from_a_stream() {
    // salt empty, one iteration, target derived from the known password
    let salt = Vec::new();
    let target = derived(b"hunter2", &salt, 1, 16);
    let stream = b"hunter1\nhunter2\nhunter3\n".to_vec();
    let mut counters = ScanCounters::new();
    let found = search_stream(&mut counters, &stream, 0x0a, false, &salt, 1, &target);
    assert_eq!(found, Some(b"hunter2".to_vec()));
    assert!(counters.total() >= 1);
    assert!(counters.total() <= 3);
}

#[test]
fn engine_search_over_nothing_finds_nothing() {
    let salt = b"salt".to_vec();
    let target = derived(b"anything", &salt, 1, 16);
    let mut counters = ScanCounters::new();
    let found = search(&mut counters, &Vec::new(), &salt, 1, &target);
    assert_eq!(found, None);
    assert_eq!(counters.total(), 0);
    // a scan over zero candidates finishing in under a millisecond still
    // reports cleanly, with no speed clause
    let line = keyscan::report::format_summary(counters.total(), 0);
    assert_eq!(line, b"Checked 0 total words in 0ms.".to_vec());
}

#[test]
fn engine_finds_the_empty_candidate() {
    let salt = b"s".to_vec();
    let target = derived(b"", &salt, 2, 16);
    let candidates = words(&[b"a", b"", b"b"]);
    let mut counters = ScanCounters::new();
    let found = search(&mut counters, &candidates, &salt, 2, &target);
    assert_eq!(found, Some(Vec::new()));
}

#[test]
fn engine_check_candidate_agrees_with_the_primitive() {
    let salt = b"NaCl".to_vec();
    let target = derived(b"password", &salt, 80000, 16);
    assert!(check_candidate(&b"password".to_vec(), &salt, 80000, &target));
    assert!(!check_candidate(&b"Password".to_vec(), &salt, 80000, &target));
    assert!(!check_candidate(&b"password".to_vec(), &salt, 79999, &target));
}

#[test]
fn engine_derivation_depends_on_every_argument() {
    // distinct inputs give distinct derived keys, so a primitive that handed
    // its argument back unchanged would be caught
    let a = derived(b"a", b"s", 1, 16);
    let b = derived(b"b", b"s", 1, 16);
    let c = derived(b"a", b"t", 1, 16);
    let d = derived(b"a", b"s", 2, 16);
    assert_ne!(a, b);
    assert_ne!(a, c);
    assert_ne!(a, d);
    assert_ne!(a, b"a".to_vec());
}

#[test]
fn engine_bytes_equal_is_exact() {
    assert!(bytes_equal(&b"abc".to_vec(), &b"abc".to_vec()));
    assert!(!bytes_equal(&b"abc".to_vec(), &b"abd".to_vec()));
    assert!(!bytes_equal(&b"abc".to_vec(), &b"abcd".to_vec()));
    assert!(bytes_equal(&Vec::new(), &Vec::new()));
}
