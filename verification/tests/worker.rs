use randomx_pool::ExitReason;
use randomx_pool::WorkerFlags;
use randomx_pool::WorkerState;
use randomx_pool::bytes_eq;
use randomx_pool::context_preimage;
use randomx_pool::exit_decision;
use randomx_pool::leading_zeros_bytes;
use randomx_pool::next_nonce_raw;
use randomx_pool::randomx_verifier;

fn quiet_flags() -> WorkerFlags {
    WorkerFlags { randomx_restart: false, app_exit: false }
}

fn test_worker(difficulty: u32, nonce_raw0: u64) -> WorkerState {
    WorkerState::new(
        vec![1, 2, 3],
        b"worker0".to_vec(),
        42,
        vec![9, 9, 9],
        difficulty,
        nonce_raw0,
        vec![0xaa, 0xbb],
    )
}

#[test]
fn leading_zeros_counts_bits() {
    assert_eq!(leading_zeros_bytes(&vec![]), 0);
    assert_eq!(leading_zeros_bytes(&vec![0x80]), 0);
    assert_eq!(leading_zeros_bytes(&vec![0x08, 0xff]), 4);
    assert_eq!(leading_zeros_bytes(&vec![0x00, 0xff]), 8);
    assert_eq!(leading_zeros_bytes(&vec![0x00, 0x00]), 16);
    assert_eq!(leading_zeros_bytes(&vec![0x00, 0x01, 0xff]), 15);
    assert_eq!(leading_zeros_bytes(&vec![0x01]), 7);
}

#[test]
fn solution_emission_carries_previous_nonce() {
    // the mocked digest stream misses twice, then matches with exactly
    // four leading zero bits on the third report
    let no_match = vec![0xff, 0xff];
    let matching = vec![0x08, 0x00];
    let mut w = test_worker(4, 1000);

    let r1 = w.step(1001, vec![0x01], &no_match, false, quiet_flags());
    assert!(r1.solution.is_none());
    assert!(r1.exit.is_none());
    let r2 = w.step(1002, vec![0x02], &no_match, false, quiet_flags());
    assert!(r2.solution.is_none());
    let r3 = w.step(1003, vec![0x03], &matching, false, quiet_flags());
    let sol = r3.solution.expect("digest met the difficulty");

    // the digest belongs to the previous nonce: the second one
    assert_eq!(sol.nonce, 1002u64.to_le_bytes().to_vec());
    assert_eq!(sol.signed_nonce, vec![0x02]);
    assert_eq!(sol.hash, matching);
    assert_eq!(sol.difficulty, 4);
    assert_eq!(sol.key_block, 42);
    assert_eq!(sol.peer_id, vec![1, 2, 3]);
    assert_eq!(sol.thread_name, b"worker0".to_vec());
}

#[test]
fn emission_needs_exact_difficulty() {
    // five leading zeros is not four: equality is required, not >=
    let too_many = vec![0x04, 0x00];
    let mut w = test_worker(4, 1000);
    let r = w.step(1001, vec![0x01], &too_many, false, quiet_flags());
    assert!(r.solution.is_none());
}

#[test]
fn first_emission_carries_priming_nonce() {
    let matching = vec![0x08];
    let mut w = test_worker(4, 5000);
    let r = w.step(5001, vec![0x10], &matching, false, quiet_flags());
    let sol = r.solution.expect("digest met the difficulty");
    // the very first digest belongs to the nonce the hasher was primed with
    assert_eq!(sol.nonce, 5000u64.to_le_bytes().to_vec());
    assert_eq!(sol.signed_nonce, vec![0xaa, 0xbb]);
}

#[test]
fn exit_ordering() {
    let all = WorkerFlags { randomx_restart: true, app_exit: true };
    // parking wins over restart, restart over shutdown; one reason only
    assert_eq!(exit_decision(true, all), Some(ExitReason::Parked));
    assert_eq!(exit_decision(false, all), Some(ExitReason::Restart));
    assert_eq!(
        exit_decision(false, WorkerFlags { randomx_restart: false, app_exit: true }),
        Some(ExitReason::AppExit)
    );
    assert_eq!(exit_decision(false, quiet_flags()), None);
}

#[test]
fn worker_exits_on_app_exit() {
    let mut w = test_worker(4, 1000);
    let flags = WorkerFlags { randomx_restart: false, app_exit: true };
    let r = w.step(1001, vec![0x01], &vec![0xff], false, flags);
    assert_eq!(r.exit, Some(ExitReason::AppExit));
}

#[test]
fn worker_exits_on_restart() {
    let mut w = test_worker(4, 1000);
    let flags = WorkerFlags { randomx_restart: true, app_exit: false };
    let r = w.step(1001, vec![0x01], &vec![0xff], false, flags);
    assert_eq!(r.exit, Some(ExitReason::Restart));
}

#[test]
fn verifier_decision() {
    let digest = vec![0x08, 0x01];
    // recomputed digest matches the claim and the difficulty
    assert!(randomx_verifier(&digest, &vec![0x08, 0x01], 4));
    // wrong difficulty
    assert!(!randomx_verifier(&digest, &vec![0x08, 0x01], 5));
    // recomputed digest differs from the claim
    assert!(!randomx_verifier(&digest, &vec![0x08, 0x02], 4));
}

#[test]
fn byte_helpers() {
    assert!(bytes_eq(&vec![1, 2], &vec![1, 2]));
    assert!(!bytes_eq(&vec![1, 2], &vec![1, 3]));
    assert!(!bytes_eq(&vec![1, 2], &vec![1, 2, 3]));
    assert_eq!(next_nonce_raw(100, 42), 142);
}

#[test]
fn context_preimage_format() {
    // decimal key block, then the identity bytes
    assert_eq!(context_preimage(1234, &b"abc".to_vec()), b"1234abc".to_vec());
    assert_eq!(context_preimage(0, &b"x".to_vec()), b"0x".to_vec());
    assert_eq!(context_preimage(18446744073709551615, &Vec::new()), b"18446744073709551615".to_vec());
}
