//! Deterministic message synthesis: a short sentence chosen from three fixed
//! word lists, driven only by a timestamp and the current entry count.

use vstd::prelude::*;
use vstd::arithmetic::div_mod::{lemma_add_mod_noop, lemma_mul_mod_noop_left};
use vstd::string::StringExecFns;

verus! {

/// The sentence subject for a list index below 6.
pub open spec fn subject_spec(i: int) -> Seq<char> {
    if i == 0 {
        "Long-range scanner"@
    } else if i == 1 {
        "Relay drone"@
    } else if i == 2 {
        "Pirate beacon"@
    } else if i == 3 {
        "Outer rim array"@
    } else if i == 4 {
        "Subspace receiver"@
    } else {
        "Navigation core"@
    }
}

/// The sentence action for a list index below 6.
pub open spec fn action_spec(i: int) -> Seq<char> {
    if i == 0 {
        "locked onto"@
    } else if i == 1 {
        "decoded"@
    } else if i == 2 {
        "flagged"@
    } else if i == 3 {
        "stabilized"@
    } else if i == 4 {
        "rerouted"@
    } else {
        "intercepted"@
    }
}

/// The sentence object for a list index below 6.
pub open spec fn object_spec(i: int) -> Seq<char> {
    if i == 0 {
        "a drifting colony ping"@
    } else if i == 1 {
        "an encrypted trader channel"@
    } else if i == 2 {
        "a rogue moon telemetry burst"@
    } else if i == 3 {
        "a hidden wormhole marker"@
    } else if i == 4 {
        "an ion storm distress packet"@
    } else {
        "a ghost-fleet handshake"@
    }
}

/// Which subject a timestamp and entry count select.
pub open spec fn subject_index(now: u64, count: nat) -> int {
    (now as int / 7 + count * 3) % 6
}

/// Which action a timestamp and entry count select.
pub open spec fn action_index(now: u64, count: nat) -> int {
    (now as int / 11 + count * 5) % 6
}

/// Which object a timestamp and entry count select.
pub open spec fn object_index(now: u64, count: nat) -> int {
    (now as int / 13 + count * 7) % 6
}

/// The full synthesized sentence for a timestamp and entry count: a pure
/// function of its two arguments.
pub open spec fn synthesized_message(now: u64, count: nat) -> Seq<char> {
    subject_spec(subject_index(now, count)) + " "@ + action_spec(action_index(now, count)) + " "@
        + object_spec(object_index(now, count)) + "."@
}

/// Raising the entry count by one moves every selector: the per-list
/// weights 3, 5 and 7 are all nonzero modulo the list size 6, so with the
/// timestamp fixed, consecutive generations never pick the same three words.
pub proof fn lemma_count_shift_changes_selectors(now: u64, count: nat)
    ensures
        subject_index(now, count + 1) != subject_index(now, count),
        action_index(now, count + 1) != action_index(now, count),
        object_index(now, count + 1) != object_index(now, count),
{
    let a = now as int / 7 + count * 3;
    assert((a + 3) % 6 != a % 6) by (nonlinear_arith);
    let b = now as int / 11 + count * 5;
    assert((b + 5) % 6 != b % 6) by (nonlinear_arith);
    let c = now as int / 13 + count * 7;
    assert((c + 7) % 6 != c % 6) by (nonlinear_arith);
}

/// The subject with the given list index.
fn subject_str(i: u64) -> (r: &'static str)
    requires
        i < 6,
    ensures
        r@ == subject_spec(i as int),
{
    if i == 0 {
        "Long-range scanner"
    } else if i == 1 {
        "Relay drone"
    } else if i == 2 {
        "Pirate beacon"
    } else if i == 3 {
        "Outer rim array"
    } else if i == 4 {
        "Subspace receiver"
    } else {
        "Navigation core"
    }
}

/// The action with the given list index.
fn action_str(i: u64) -> (r: &'static str)
    requires
        i < 6,
    ensures
        r@ == action_spec(i as int),
{
    if i == 0 {
        "locked onto"
    } else if i == 1 {
        "decoded"
    } else if i == 2 {
        "flagged"
    } else if i == 3 {
        "stabilized"
    } else if i == 4 {
        "rerouted"
    } else {
        "intercepted"
    }
}

/// The object with the given list index.
fn object_str(i: u64) -> (r: &'static str)
    requires
        i < 6,
    ensures
        r@ == object_spec(i as int),
{
    if i == 0 {
        "a drifting colony ping"
    } else if i == 1 {
        "an encrypted trader channel"
    } else if i == 2 {
        "a rogue moon telemetry burst"
    } else if i == 3 {
        "a hidden wormhole marker"
    } else if i == 4 {
        "an ion storm distress packet"
    } else {
        "a ghost-fleet handshake"
    }
}

/// One selector of the sentence: `(now / stride + count * weight) mod 6`,
/// computed with the summands reduced first so that it is total on all
/// inputs.
fn select_index(now: u64, entry_count: usize, stride: u64, weight: u64) -> (r: u64)
    requires
        1 <= stride,
        weight <= 7,
    ensures
        r == (now as int / stride as int + entry_count as nat * weight as nat) % 6,
        r < 6,
{
    let c6: u64 = (entry_count as u64) % 6;
    proof {
        assert(c6 * weight <= 35) by (nonlinear_arith)
            requires
                c6 < 6,
                weight <= 7,
        ;
    }
    let r = ((now / stride) % 6 + c6 * weight % 6) % 6;
    proof {
        lemma_mul_mod_noop_left(entry_count as int, weight as int, 6);
        lemma_add_mod_noop(now as int / stride as int, entry_count as int * weight as int, 6);
    }
    r
}

/// The synthesized transmission line: `"{subject} {action} {object}."`,
/// deterministic in `(now, entry_count)`.
pub fn generate_scifi_message(now: u64, entry_count: usize) -> (r: String)
    ensures
        r@ == synthesized_message(now, entry_count as nat),
{
    let s = select_index(now, entry_count, 7, 3);
    let a = select_index(now, entry_count, 11, 5);
    let o = select_index(now, entry_count, 13, 7);
    let mut out = subject_str(s).to_owned();
    out.append(" ");
    out.append(action_str(a));
    out.append(" ");
    out.append(object_str(o));
    out.append(".");
    proof {
        assert(out@ =~= synthesized_message(now, entry_count as nat));
    }
    out
}

} // verus!
