use vstd::prelude::*;

verus! {

/// Largest bit length the generators accept: every intermediate value then fits in 64 bits.
pub const MAX_BITS: usize = 62;

/// Candidates a generator may try after its latest acceptance before it gives up.
pub const ATTEMPT_LIMIT: u64 = 100000;

/// Random draws one candidate construction or one witness set may take before it gives up.
pub const DRAW_LIMIT: u64 = 10000;

/// Bound of the sieve that yields the pool of small primes.
pub const POOL_BOUND: usize = 500;

/// One accepted prime with its diagnostics.
#[derive(Clone, Copy, Debug, PartialEq, Eq, Structural)]
pub struct PrimeRecord {
    /// The accepted prime.
    pub value: u64,
    /// The verdict of a corroborating Miller-Rabin run; it never decides acceptance.
    pub corroborated: bool,
    /// Rejected candidates counted since the previous acceptance (for the GOST
    /// generator: all rejected candidates so far).
    pub attempts: u64,
}

/// Why a batch could not be produced.
#[derive(Clone, Copy, Debug, PartialEq, Eq, Structural)]
pub enum GenerationError {
    /// `bits` outside `[4, MAX_BITS]`, or zero rounds, or a zero count.
    InvalidParameters,
    /// A search hit its iteration ceiling.
    SearchExhausted,
}

/// The parameters of a batch cannot be served.
pub open spec fn invalid_parameters(bits: int, rounds: int, count: int) -> bool {
    bits < 4 || bits > MAX_BITS || rounds == 0 || count == 0
}

/// No value appears twice.
pub open spec fn distinct(s: Seq<u64>) -> bool {
    forall|i: int, j: int| 0 <= i < s.len() && 0 <= j < s.len() && i != j ==> s[i] != s[j]
}

/// The progress of a batch: records so far, the attempt count reported with the next
/// record, and the failed attempts since the latest acceptance.
pub struct BatchState {
    pub out: Vec<PrimeRecord>,
    pub attempts: u64,
    pub misses: u64,
}

impl BatchState {
    /// An empty batch.
    pub fn new() -> (r: BatchState)
        ensures
            r.out@.len() == 0,
            r.attempts == 0,
            r.misses == 0,
    {
        BatchState { out: Vec::new(), attempts: 0, misses: 0 }
    }
}

/// The attempt count after a failed attempt: one more when the attempt is counted
/// (saturating at `u64::MAX`).
pub open spec fn bumped(attempts: u64, counted: bool) -> u64 {
    if counted && attempts < u64::MAX {
        (attempts + 1) as u64
    } else {
        attempts
    }
}

/// Records the outcome of one attempt. An accepted value is appended with the current
/// attempt count, which then restarts at zero unless `running` keeps it; a failed
/// attempt adds to the misses, bumps the attempt count when `counted`, and ends the
/// batch with `SearchExhausted` when the misses reach `ATTEMPT_LIMIT`.
pub fn record_attempt(
    state: &mut BatchState,
    accepted: bool,
    value: u64,
    corroborated: bool,
    counted: bool,
    running: bool,
) -> (r: Result<(), GenerationError>)
    requires
        old(state).misses < ATTEMPT_LIMIT,
    ensures
        accepted ==> {
            &&& r is Ok
            &&& final(state).out@ == old(state).out@.push(
                PrimeRecord { value, corroborated, attempts: old(state).attempts },
            )
            &&& final(state).attempts == (if running { old(state).attempts } else { 0 })
            &&& final(state).misses == 0
        },
        !accepted ==> {
            &&& final(state).out@ == old(state).out@
            &&& (r == Err::<(), GenerationError>(GenerationError::SearchExhausted) <==> old(state).misses + 1 >= ATTEMPT_LIMIT)
            &&& (r is Ok ==> final(state).misses == old(state).misses + 1)
            &&& final(state).attempts == bumped(old(state).attempts, counted)
        },
        r is Ok ==> final(state).misses < ATTEMPT_LIMIT,
        r is Err ==> r == Err::<(), GenerationError>(GenerationError::SearchExhausted),
{
    if accepted {
        state.out.push(PrimeRecord { value, corroborated, attempts: state.attempts });
        if !running {
            state.attempts = 0;
        }
        state.misses = 0;
        Ok(())
    } else {
        if counted && state.attempts < u64::MAX {
            state.attempts = state.attempts + 1;
        }
        state.misses = state.misses + 1;
        if state.misses >= ATTEMPT_LIMIT {
            Err(GenerationError::SearchExhausted)
        } else {
            Ok(())
        }
    }
}

} // verus!
