//! The transmission state: a bounded, newest-first list of entries and the
//! time-checked refresh operation that extends it.

use vstd::prelude::*;
use crate::clock::{clock_label_from_unix, clock_label_spec};
use crate::message::{generate_scifi_message, synthesized_message};

verus! {

/// Seconds that must pass between two generations: three hours.
pub const GENERATION_INTERVAL_SECS: u64 = 10800;

/// The most entries the feed ever keeps.
pub const MAX_TRANSMISSIONS: usize = 12;

/// One broadcast record: when it was generated, its derived display label,
/// and its synthesized text.
pub struct TransmissionEntry {
    pub timestamp: u64,
    pub time_label: String,
    pub message: String,
}

/// The mathematical image of an entry: the label and message as character
/// sequences.
pub ghost struct EntryModel {
    pub timestamp: u64,
    pub time_label: Seq<char>,
    pub message: Seq<char>,
}

impl View for TransmissionEntry {
    type V = EntryModel;

    open spec fn view(&self) -> EntryModel {
        EntryModel {
            timestamp: self.timestamp,
            time_label: self.time_label@,
            message: self.message@,
        }
    }
}

/// The aggregate that is kept in memory and persisted: the time of the last
/// generation and the entries, newest first.
pub struct TransmissionState {
    pub last_generated_at: u64,
    pub entries: Vec<TransmissionEntry>,
}

/// The mathematical image of the aggregate.
pub ghost struct StateModel {
    pub last_generated_at: u64,
    pub entries: Seq<EntryModel>,
}

impl View for TransmissionState {
    type V = StateModel;

    open spec fn view(&self) -> StateModel {
        StateModel {
            last_generated_at: self.last_generated_at,
            entries: self.entries@.map_values(|e: TransmissionEntry| e@),
        }
    }
}

/// `a - b`, stopping at zero instead of wrapping.
pub open spec fn saturating_sub_spec(a: u64, b: u64) -> u64 {
    if a >= b {
        (a - b) as u64
    } else {
        0
    }
}

/// Whether a refresh at `now` is due: at least the generation interval has
/// passed since the last generation. The subtraction saturates, so a clock
/// that jumped backwards keeps refreshes off until real time catches up.
pub open spec fn is_due(s: StateModel, now: u64) -> bool {
    saturating_sub_spec(now, s.last_generated_at) >= GENERATION_INTERVAL_SECS
}

/// The entry a due refresh at `now` prepends, given the entry count before
/// the refresh.
pub open spec fn new_entry_model(now: u64, count: nat) -> EntryModel {
    EntryModel {
        timestamp: now,
        time_label: clock_label_spec(now as int),
        message: synthesized_message(now, count),
    }
}

/// What a refresh at `now` does to the state: nothing when it is not due;
/// otherwise it prepends the new entry, keeps at most the first
/// `MAX_TRANSMISSIONS` entries (dropping exactly the oldest ones), and
/// advances the generation time.
pub open spec fn refresh_spec(s: StateModel, now: u64) -> StateModel {
    if !is_due(s, now) {
        s
    } else {
        StateModel {
            last_generated_at: now,
            entries: seq![new_entry_model(now, s.entries.len())] + s.entries.take(
                if s.entries.len() <= 11 {
                    s.entries.len() as int
                } else {
                    11
                },
            ),
        }
    }
}

impl TransmissionEntry {
    /// A field-for-field copy of the entry.
    pub fn clone_entry(&self) -> (r: TransmissionEntry)
        ensures
            r == *self,
    {
        TransmissionEntry {
            timestamp: self.timestamp,
            time_label: self.time_label.clone(),
            message: self.message.clone(),
        }
    }
}

impl TransmissionState {
    /// A copy of the state with the same model.
    pub fn clone_state(&self) -> (r: TransmissionState)
        ensures
            r@ == self@,
    {
        let mut entries: Vec<TransmissionEntry> = Vec::new();
        let mut i: usize = 0;
        while i < self.entries.len()
            invariant
                i <= self.entries.len(),
                entries@ == self.entries@.subrange(0, i as int),
            decreases self.entries.len() - i,
        {
            entries.push(self.entries[i].clone_entry());
            proof {
                assert(entries@ =~= self.entries@.subrange(0, i + 1));
            }
            i = i + 1;
        }
        proof {
            assert(entries@ =~= self.entries@);
        }
        let r = TransmissionState { last_generated_at: self.last_generated_at, entries };
        proof {
            assert(r@.entries =~= self@.entries);
        }
        r
    }
}

/// Refreshes the state in place if one is due; reports whether anything
/// changed. The generation time never moves backwards.
pub fn maybe_generate_transmission(state: &mut TransmissionState, now: u64) -> (generated: bool)
    ensures
        generated == is_due(old(state)@, now),
        final(state)@ == refresh_spec(old(state)@, now),
        old(state)@.last_generated_at <= final(state)@.last_generated_at,
{
    if now.saturating_sub(state.last_generated_at) < GENERATION_INTERVAL_SECS {
        return false;
    }
    let message = generate_scifi_message(now, state.entries.len());
    let entry = TransmissionEntry {
        timestamp: now,
        time_label: clock_label_from_unix(now),
        message,
    };
    state.entries.insert(0, entry);
    state.entries.truncate(MAX_TRANSMISSIONS);
    state.last_generated_at = now;
    proof {
        assert(state@.entries =~= refresh_spec(old(state)@, now).entries);
    }
    true
}

/// The first seed message.
pub open spec fn seed_message_1() -> Seq<char> {
    "Uplink stabilized. Archive index pushed to public relay."@
}

/// The second seed message.
pub open spec fn seed_message_2() -> Seq<char> {
    "Detected repeating pattern in ambient static. Logged as anomaly A-17."@
}

/// The third seed message.
pub open spec fn seed_message_3() -> Seq<char> {
    "Scheduled new broadcast: Deep Space Transmitter."@
}

/// The model of one seed entry: a fixed message stamped a small offset
/// before `now`.
pub open spec fn seed_entry_model(now: u64, offset: u64, message: Seq<char>) -> EntryModel {
    EntryModel {
        timestamp: saturating_sub_spec(now, offset),
        time_label: clock_label_spec(saturating_sub_spec(now, offset) as int),
        message: message,
    }
}

/// The fixed three-entry fallback state anchored at `now`, newest first.
pub open spec fn seed_spec(now: u64) -> StateModel {
    StateModel {
        last_generated_at: now,
        entries: seq![
            seed_entry_model(now, 1200, seed_message_1()),
            seed_entry_model(now, 3300, seed_message_2()),
            seed_entry_model(now, 5800, seed_message_3()),
        ],
    }
}

/// Builds the seed state anchored at the given instant.
pub fn seed_state(now: u64) -> (r: TransmissionState)
    ensures
        r@ == seed_spec(now),
{
    let t1 = now.saturating_sub(1200);
    let t2 = now.saturating_sub(3300);
    let t3 = now.saturating_sub(5800);
    let mut entries: Vec<TransmissionEntry> = Vec::new();
    entries.push(TransmissionEntry {
        timestamp: t1,
        time_label: clock_label_from_unix(t1),
        message: "Uplink stabilized. Archive index pushed to public relay.".to_owned(),
    });
    entries.push(TransmissionEntry {
        timestamp: t2,
        time_label: clock_label_from_unix(t2),
        message: "Detected repeating pattern in ambient static. Logged as anomaly A-17."
            .to_owned(),
    });
    entries.push(TransmissionEntry {
        timestamp: t3,
        time_label: clock_label_from_unix(t3),
        message: "Scheduled new broadcast: Deep Space Transmitter.".to_owned(),
    });
    let r = TransmissionState { last_generated_at: now, entries };
    proof {
        assert(r@.entries =~= seed_spec(now).entries);
    }
    r
}

/// The seed state anchored at the current wall-clock time.
pub fn default_transmissions() -> (r: TransmissionState)
    ensures
        exists|n: u64| r@ == #[trigger] seed_spec(n),
        r@.entries.len() == 3,
{
    let now = crate::clock::unix_now_secs();
    let r = seed_state(now);
    r
}

/// Refreshing twice within one generation interval mutates the state at most
/// once; and when the first refresh generated, the second is a no-op.
pub proof fn lemma_refresh_within_interval(s: StateModel, now1: u64, now2: u64)
    requires
        now1 < now2,
        now2 - now1 < GENERATION_INTERVAL_SECS,
    ensures
        !(is_due(s, now1) && is_due(refresh_spec(s, now1), now2)),
        is_due(s, now1) ==> refresh_spec(refresh_spec(s, now1), now2) == refresh_spec(s, now1),
{
}

/// Many refresh attempts at one instant generate exactly once: after one
/// refresh at `now`, another refresh at `now` is a no-op, so however many
/// callers race, only the first to run can insert an entry.
pub proof fn lemma_refresh_idempotent_at_instant(s: StateModel, now: u64)
    ensures
        !is_due(refresh_spec(s, now), now),
        refresh_spec(refresh_spec(s, now), now) == refresh_spec(s, now),
{
}

/// What a due refresh leaves behind: the new entry in front with the given
/// timestamp, a length grown by one but capped at `MAX_TRANSMISSIONS`, and
/// below it exactly the newest of the old entries, in their old order.
pub proof fn lemma_refresh_post(s: StateModel, now: u64)
    requires
        is_due(s, now),
    ensures
        ({
            let r = refresh_spec(s, now);
            &&& r.last_generated_at == now
            &&& r.entries.len() == if s.entries.len() + 1 <= 12 {
                s.entries.len() + 1
            } else {
                12nat
            }
            &&& r.entries[0] == new_entry_model(now, s.entries.len())
            &&& r.entries[0].timestamp == now
            &&& forall|i: int| 1 <= i < r.entries.len() ==> r.entries[i] == s.entries[i - 1]
        }),
{
}

} // verus!
