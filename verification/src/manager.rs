//! The transmission state manager: one shared state behind a reader-writer
//! lock, a time-checked refresh that decides and mutates in a single exclusive
//! critical section, and the load-or-seed path for the backing store.

use vstd::prelude::*;
use vstd::rwlock::{RwLock, RwLockPredicate};
use crate::codec::{
    decode_state, lemma_refresh_preserves_safe, lemma_seed_safe, models, render_state_spec,
    store_safe,
};
use crate::state::{
    default_transmissions, is_due, maybe_generate_transmission, refresh_spec, seed_spec,
    StateModel, TransmissionEntry, TransmissionState,
};

verus! {

/// What always holds of the shared state: the feed is never empty after
/// initialization, and its text renders verbatim in the store document.
pub open spec fn state_inv(m: StateModel) -> bool {
    m.entries.len() >= 1 && store_safe(m)
}

/// The lock predicate that pins `state_inv` to the shared value.
pub struct StateInvPred {}

impl RwLockPredicate<TransmissionState> for StateInvPred {
    open spec fn inv(self, v: TransmissionState) -> bool {
        state_inv(v@)
    }
}

/// Owns the in-memory state for the process lifetime. Readers snapshot the
/// entries concurrently; refreshers take the lock exclusively, so the due
/// check and the mutation form one atomic step and no two concurrent
/// refreshers can both generate for the same due interval.
pub struct TransmissionManager {
    lock: RwLock<TransmissionState, StateInvPred>,
}

impl TransmissionManager {
    /// Whether the lock was set up with the state invariant.
    pub closed spec fn wf(self) -> bool {
        self.lock.pred() == (StateInvPred {  })
    }

    /// Takes ownership of the loaded or seeded state.
    pub fn new(initial: TransmissionState) -> (m: TransmissionManager)
        requires
            state_inv(initial@),
        ensures
            m.wf(),
    {
        TransmissionManager { lock: RwLock::new(initial, Ghost(StateInvPred {  })) }
    }

    /// Refreshes the shared state if a refresh is due, under exclusive
    /// access. When something was generated, returns a copy of the new state
    /// for the caller to persist outside the lock; the copy is the refresh
    /// of some invariant-satisfying state that was due at `now`.
    pub fn refresh_if_due(&self, now: u64) -> (r: Option<TransmissionState>)
        requires
            self.wf(),
        ensures
            r is Some ==> state_inv(r.unwrap()@) && exists|pre: StateModel|
                state_inv(pre) && #[trigger] is_due(pre, now) && r.unwrap()@ == refresh_spec(
                    pre,
                    now,
                ),
            r is None ==> exists|pre: StateModel| #[trigger] state_inv(pre) && !is_due(pre, now),
    {
        let (mut st, handle) = self.lock.acquire_write();
        let ghost pre = st@;
        let generated = maybe_generate_transmission(&mut st, now);
        proof {
            lemma_refresh_preserves_safe(pre, now);
        }
        let copy = if generated {
            Some(st.clone_state())
        } else {
            None
        };
        handle.release_write(st);
        copy
    }

    /// A copy of the current entries for display, taken under the shared
    /// lock: always the entries of some invariant-satisfying state, never a
    /// state mid-mutation, and never empty.
    pub fn snapshot_entries(&self) -> (v: Vec<TransmissionEntry>)
        requires
            self.wf(),
        ensures
            v@.len() >= 1,
            exists|m: StateModel| #[trigger] state_inv(m) && models(v@) == m.entries,
    {
        let handle = self.lock.acquire_read();
        let copy = handle.borrow().clone_state();
        handle.release_read();
        proof {
            let ghost m = copy@;
            assert(state_inv(m) && models(copy.entries@) == m.entries);
        }
        copy.entries
    }
}

/// Interprets what was read from the durable store: a parse success with a
/// nonempty entry list is used as-is; a missing file, a malformed document
/// or an empty list falls back to the fixed seed anchored at the current
/// time. The flag reports that the seed was taken (and should be persisted).
pub fn resolve_loaded(content: Option<String>) -> (r: (TransmissionState, bool))
    ensures
        state_inv(r.0@),
        !r.1 ==> content is Some && content.unwrap()@ == render_state_spec(r.0@),
        r.1 ==> (exists|n: u64| r.0@ == #[trigger] seed_spec(n)) && r.0@.entries.len() == 3,
        forall|m: StateModel|
            content is Some && store_safe(m) && m.entries.len() >= 1 && content.unwrap()@
                == #[trigger] render_state_spec(m) ==> !r.1 && r.0@ == m,
{
    match content {
        Some(text) => {
            match decode_state(text.as_str()) {
                Ok(st) => {
                    if st.entries.len() > 0 {
                        (st, false)
                    } else {
                        let seeded = default_transmissions();
                        proof {
                            let n = choose|n: u64| seeded@ == seed_spec(n);
                            lemma_seed_safe(n);
                        }
                        (seeded, true)
                    }
                },
                Err(_) => {
                    let seeded = default_transmissions();
                    proof {
                        let n = choose|n: u64| seeded@ == seed_spec(n);
                        lemma_seed_safe(n);
                    }
                    (seeded, true)
                },
            }
        },
        None => {
            let seeded = default_transmissions();
            proof {
                let n = choose|n: u64| seeded@ == seed_spec(n);
                lemma_seed_safe(n);
            }
            (seeded, true)
        },
    }
}

} // verus!
