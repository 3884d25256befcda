use vstd::prelude::*;
use vstd::std_specs::bits::u8_leading_zeros;

use crate::codec::dec_of;
use crate::puzzle::PuzzleSolution;

verus! {

/// The number of leading zero bits of a digest, counted from the
/// most significant end of its first byte.
pub open spec fn lz_spec(s: Seq<u8>) -> nat
    decreases s.len(),
{
    if s.len() == 0 {
        0
    } else if s[0] == 0 {
        8 + lz_spec(s.drop_first())
    } else {
        u8_leading_zeros(s[0]) as nat
    }
}

/// Counts the leading zero bits of a digest.
pub fn leading_zeros_bytes(digest: &Vec<u8>) -> (r: u32)
    requires
        8 * digest@.len() <= u32::MAX,
    ensures
        r == lz_spec(digest@),
{
    let mut i: usize = 0;
    proof {
        assert(digest@.skip(0) =~= digest@);
    }
    while i < digest.len()
        invariant
            i <= digest@.len(),
            8 * digest@.len() <= u32::MAX,
            lz_spec(digest@) == 8 * i + lz_spec(digest@.skip(i as int)),
            forall|k: int| 0 <= k < i ==> digest@[k] == 0,
        decreases digest@.len() - i,
    {
        let b = digest[i];
        if b != 0 {
            proof {
                assert(digest@.skip(i as int)[0] == digest@[i as int]);
            }
            return (8 * (i as u32)) + b.leading_zeros();
        }
        proof {
            let t = digest@.skip(i as int);
            assert(t[0] == digest@[i as int]);
            assert(t.drop_first() =~= digest@.skip(i as int + 1));
        }
        i = i + 1;
    }
    proof {
        assert(digest@.skip(i as int) =~= Seq::<u8>::empty());
    }
    8 * (i as u32)
}

/// Compares two byte vectors for equality of contents.
pub fn bytes_eq(a: &Vec<u8>, b: &Vec<u8>) -> (r: bool)
    ensures
        r == (a@ == b@),
{
    if a.len() != b.len() {
        proof {
            assert(a@.len() != b@.len());
        }
        return false;
    }
    let mut i: usize = 0;
    while i < a.len()
        invariant
            i <= a@.len(),
            a@.len() == b@.len(),
            forall|k: int| 0 <= k < i ==> a@[k] == b@[k],
        decreases a@.len() - i,
    {
        if a[i] != b[i] {
            return false;
        }
        i = i + 1;
    }
    proof {
        assert(a@ =~= b@);
    }
    true
}

/// The shared flags a worker polls once per loop iteration.
#[derive(Clone, Copy, Debug)]
pub struct WorkerFlags {
    pub randomx_restart: bool,
    pub app_exit: bool,
}

/// Why a worker leaves its loop. At most one reason applies per exit,
/// and parking takes precedence over a restart, which takes precedence
/// over application shutdown.
#[derive(PartialEq, Eq, Structural, Clone, Copy, Debug)]
pub enum ExitReason {
    Parked,
    Restart,
    AppExit,
}

/// The exit a worker takes after one iteration, given whether it was
/// just selected for parking and the shared flags it observed.
pub open spec fn exit_decision_spec(parked: bool, flags: WorkerFlags) -> Option<ExitReason> {
    if parked {
        Some(ExitReason::Parked)
    } else if flags.randomx_restart {
        Some(ExitReason::Restart)
    } else if flags.app_exit {
        Some(ExitReason::AppExit)
    } else {
        None
    }
}

/// Decides whether a worker exits, and for exactly which one reason.
/// A worker that observes the shutdown flag, the restart flag, or its
/// own parking exits in the same iteration.
pub fn exit_decision(parked: bool, flags: WorkerFlags) -> (r: Option<ExitReason>)
    ensures
        r == exit_decision_spec(parked, flags),
        (parked || flags.randomx_restart || flags.app_exit) <==> r is Some,
{
    if parked {
        Some(ExitReason::Parked)
    } else if flags.randomx_restart {
        Some(ExitReason::Restart)
    } else if flags.app_exit {
        Some(ExitReason::AppExit)
    } else {
        None
    }
}

/// The per-thread state of one hashing worker between loop iterations.
/// The streaming hasher reports the digest for the *previously*
/// submitted nonce, so the worker remembers the previous raw nonce (as
/// little-endian bytes) and its signature: an emitted solution carries
/// those, never the nonce just submitted.
pub struct WorkerState {
    pub peer_id: Vec<u8>,
    pub identity: Vec<u8>,
    pub key_block: u64,
    pub signed_context: Vec<u8>,
    pub difficulty: u32,
    pub prev_nonce: Vec<u8>,
    pub prev_signed_nonce: Vec<u8>,
}

/// What a solution emitted from worker state `st` for digest `d` holds:
/// every field of the record is pinned, and the nonce fields are the
/// *previous* ones remembered in the state.
pub open spec fn solution_matches(st: WorkerState, d: Seq<u8>, sol: PuzzleSolution) -> bool {
    &&& sol.peer_id@ == st.peer_id@
    &&& sol.key_block == st.key_block
    &&& sol.signed_context@ == st.signed_context@
    &&& sol.thread_name@ == st.identity@
    &&& sol.nonce@ == st.prev_nonce@
    &&& sol.signed_nonce@ == st.prev_signed_nonce@
    &&& sol.hash@ == d
    &&& sol.difficulty == st.difficulty
}

/// The outcome of one worker loop iteration.
pub struct StepOutcome {
    pub solution: Option<PuzzleSolution>,
    pub exit: Option<ExitReason>,
}

impl WorkerState {
    /// The state right after a worker primed its hasher with the first
    /// signed nonce, before any digest came back.
    pub fn new(
        peer_id: Vec<u8>,
        identity: Vec<u8>,
        key_block: u64,
        signed_context: Vec<u8>,
        difficulty: u32,
        nonce_raw: u64,
        signed_nonce: Vec<u8>,
    ) -> (r: WorkerState)
        ensures
            r.peer_id == peer_id,
            r.identity == identity,
            r.key_block == key_block,
            r.signed_context == signed_context,
            r.difficulty == difficulty,
            r.prev_nonce@ == vstd::bytes::spec_u64_to_le_bytes(nonce_raw),
            r.prev_signed_nonce == signed_nonce,
    {
        let prev_nonce = vstd::bytes::u64_to_le_bytes(nonce_raw);
        WorkerState {
            peer_id,
            identity,
            key_block,
            signed_context,
            difficulty,
            prev_nonce,
            prev_signed_nonce: signed_nonce,
        }
    }

    /// Builds the solution record for a digest the hasher just
    /// reported, if it meets the difficulty exactly. The digest belongs
    /// to the previous nonce, and the record carries the previous
    /// `(nonce, signed_nonce)` pair. Every emitted solution satisfies
    /// `lz_spec(sol.hash) == sol.difficulty`.
    pub fn check_digest(&self, digest: &Vec<u8>) -> (r: Option<PuzzleSolution>)
        requires
            8 * digest@.len() <= u32::MAX,
        ensures
            r is Some <==> lz_spec(digest@) == self.difficulty,
            (r matches Some(sol) ==> solution_matches(*self, digest@, sol)),
            (r matches Some(sol) ==> lz_spec(sol.hash@) == sol.difficulty),
    {
        let lz = leading_zeros_bytes(digest);
        if lz == self.difficulty {
            Some(
                PuzzleSolution::new(
                    clone_bytes(&self.peer_id),
                    self.key_block,
                    clone_bytes(&self.signed_context),
                    clone_bytes(&self.identity),
                    clone_bytes(&self.prev_nonce),
                    clone_bytes(&self.prev_signed_nonce),
                    clone_bytes(digest),
                    self.difficulty,
                ),
            )
        } else {
            None
        }
    }

    /// One worker loop iteration, after the hasher returned `digest`
    /// for the previous nonce and `next_signed_nonce` was submitted:
    /// emits a solution exactly when the digest meets the difficulty,
    /// shifts the remembered nonce pair to the ones just submitted, and
    /// decides the exit. `parked` reports whether this worker's
    /// `try_park` call just succeeded; the parking check precedes the
    /// restart and shutdown checks, so at most one reason applies.
    pub fn step(
        &mut self,
        next_nonce_raw: u64,
        next_signed_nonce: Vec<u8>,
        digest: &Vec<u8>,
        parked: bool,
        flags: WorkerFlags,
    ) -> (r: StepOutcome)
        requires
            8 * digest@.len() <= u32::MAX,
        ensures
            r.solution is Some <==> lz_spec(digest@) == old(self).difficulty,
            (r.solution matches Some(sol) ==> solution_matches(*old(self), digest@, sol)),
            (r.solution matches Some(sol) ==> lz_spec(sol.hash@) == sol.difficulty),
            r.exit == exit_decision_spec(parked, flags),
            (parked || flags.randomx_restart || flags.app_exit) <==> r.exit is Some,
            final(self).prev_nonce@ == vstd::bytes::spec_u64_to_le_bytes(next_nonce_raw),
            final(self).prev_signed_nonce == next_signed_nonce,
            final(self).peer_id == old(self).peer_id,
            final(self).identity == old(self).identity,
            final(self).key_block == old(self).key_block,
            final(self).signed_context == old(self).signed_context,
            final(self).difficulty == old(self).difficulty,
    {
        let solution = self.check_digest(digest);
        self.prev_nonce = vstd::bytes::u64_to_le_bytes(next_nonce_raw);
        self.prev_signed_nonce = next_signed_nonce;
        let exit = exit_decision(parked, flags);
        StepOutcome { solution, exit }
    }
}

/// Copies a byte vector.
fn clone_bytes(v: &Vec<u8>) -> (r: Vec<u8>)
    ensures
        r@ == v@,
{
    let mut r: Vec<u8> = Vec::new();
    let mut i: usize = 0;
    while i < v.len()
        invariant
            i <= v@.len(),
            r@ =~= v@.take(i as int),
        decreases v@.len() - i,
    {
        r.push(v[i]);
        i = i + 1;
    }
    proof {
        assert(v@.take(v@.len() as int) =~= v@);
    }
    r
}

/// The raw nonce for an iteration: the current wall-clock milliseconds
/// plus the key block.
pub fn next_nonce_raw(now_ms: u64, key_block: u64) -> (r: u64)
    requires
        now_ms + key_block <= u64::MAX,
    ensures
        r == now_ms + key_block,
{
    now_ms + key_block
}

/// The bytes whose keccak digest, signed, seeds a worker's hasher
/// context: the decimal key block followed by the worker identity.
pub fn context_preimage(key_block: u64, identity: &Vec<u8>) -> (r: Vec<u8>)
    ensures
        r@ == dec_of(key_block as nat) + identity@,
{
    let mut r = crate::codec::u64_to_dec(key_block);
    let mut i: usize = 0;
    while i < identity.len()
        invariant
            i <= identity@.len(),
            r@ =~= dec_of(key_block as nat) + identity@.take(i as int),
        decreases identity@.len() - i,
    {
        r.push(identity[i]);
        i = i + 1;
    }
    proof {
        assert(identity@.take(identity@.len() as int) =~= identity@);
    }
    r
}

/// What re-verification of a claimed solution concludes, given the
/// digest `recomputed` by a light-context hasher from the signed nonce:
/// the claim is valid exactly when the recomputed digest meets the
/// difficulty and equals the claimed hash.
pub open spec fn verifier_accepts(recomputed: Seq<u8>, claimed_hash: Seq<u8>, difficulty: u32) -> bool {
    lz_spec(recomputed) == difficulty && recomputed == claimed_hash
}

/// The decision half of solution re-verification: the hasher recomputes
/// the digest of the signed nonce under the solution's context seed,
/// and this check accepts exactly when that digest meets the difficulty
/// and reproduces the claimed hash.
pub fn randomx_verifier(recomputed: &Vec<u8>, claimed_hash: &Vec<u8>, difficulty: u32) -> (r: bool)
    requires
        8 * recomputed@.len() <= u32::MAX,
    ensures
        r == verifier_accepts(recomputed@, claimed_hash@, difficulty),
{
    let lz = leading_zeros_bytes(recomputed);
    let valid = lz == difficulty;
    let verified = bytes_eq(recomputed, claimed_hash);
    valid && verified
}

/// Every solution a worker step emits meets the difficulty exactly and
/// would be accepted by the verifier decision, provided the hasher,
/// which lives outside this library, recomputes from the solution's
/// signed nonce the digest the solution carries. That reproduction is
/// the hasher's own determinism and is not stated here.
pub proof fn lemma_emitted_solution_verifies(st: WorkerState, d: Seq<u8>, sol: PuzzleSolution)
    requires
        solution_matches(st, d, sol),
        lz_spec(sol.hash@) == sol.difficulty,
    ensures
        verifier_accepts(sol.hash@, sol.hash@, sol.difficulty),
{
}

} // verus!
