//! The store codec: renders a state to the canonical pretty-printed JSON
//! document and parses such a document back, exactly.

use vstd::prelude::*;
use crate::clock::digit_char;
use crate::state::{EntryModel, StateModel, TransmissionEntry, TransmissionState};
use vstd::string::{StrSliceExecFns, StringExecFns};

verus! {

/// A character that may stand verbatim inside a JSON string literal: not a
/// quote, not a backslash, not a control character.
pub open spec fn json_safe_char(c: char) -> bool {
    c != '"' && c != '\\' && c as int >= 32
}

/// Text made only of characters that render verbatim.
pub open spec fn json_safe_text(s: Seq<char>) -> bool {
    forall|i: int| 0 <= i < s.len() ==> json_safe_char(#[trigger] s[i])
}

/// Whether every label and message of the state renders verbatim.
pub open spec fn store_safe(m: StateModel) -> bool {
    entries_safe(m.entries)
}

/// Whether a character is a decimal digit.
pub open spec fn is_digit(c: char) -> bool {
    48 <= c as int <= 57
}

/// The numeric value of a digit character.
pub open spec fn digit_val(c: char) -> int {
    c as int - 48
}

/// The canonical decimal rendering of a number: no sign, no leading zero.
pub open spec fn dec_rep(n: nat) -> Seq<char>
    decreases n,
{
    if n < 10 {
        seq![digit_char(n as int)]
    } else {
        dec_rep(n / 10).push(digit_char((n % 10) as int))
    }
}

/// The number a digit string denotes.
pub open spec fn val_of(ds: Seq<char>) -> nat
    decreases ds.len(),
{
    if ds.len() == 0 {
        0
    } else {
        (10 * val_of(ds.drop_last()) + if is_digit(ds.last()) {
            digit_val(ds.last())
        } else {
            0
        }) as nat
    }
}

/// The digit characters carry their own values.
pub proof fn lemma_digit_char_val(d: int)
    requires
        0 <= d < 10,
    ensures
        is_digit(digit_char(d)),
        digit_val(digit_char(d)) == d,
{
    assert('0' as int == 48);
    assert('1' as int == 49);
    assert('2' as int == 50);
    assert('3' as int == 51);
    assert('4' as int == 52);
    assert('5' as int == 53);
    assert('6' as int == 54);
    assert('7' as int == 55);
    assert('8' as int == 56);
    assert('9' as int == 57);
}

/// The canonical rendering is a nonempty digit string without a leading
/// zero, and it denotes the number it renders.
pub proof fn lemma_dec_rep_digits(n: nat)
    ensures
        dec_rep(n).len() >= 1,
        forall|i: int| 0 <= i < dec_rep(n).len() ==> is_digit(#[trigger] dec_rep(n)[i]),
        dec_rep(n)[0] != '0' || n < 10,
        n < 10 ==> dec_rep(n).len() == 1,
        val_of(dec_rep(n)) == n,
    decreases n,
{
    assert(val_of(Seq::<char>::empty()) == 0);
    if n < 10 {
        lemma_digit_char_val(n as int);
        assert(dec_rep(n).drop_last() =~= Seq::<char>::empty());
        assert(dec_rep(n).last() == digit_char(n as int));
        assert(val_of(dec_rep(n)) == 10 * val_of(Seq::<char>::empty()) + digit_val(
            digit_char(n as int),
        ));
    } else {
        lemma_dec_rep_digits(n / 10);
        lemma_digit_char_val((n % 10) as int);
        assert(dec_rep(n).drop_last() =~= dec_rep(n / 10));
    }
}

/// A digit string with a nonzero leading digit denotes a positive number.
pub proof fn lemma_val_positive(ds: Seq<char>)
    requires
        ds.len() >= 1,
        forall|i: int| 0 <= i < ds.len() ==> is_digit(#[trigger] ds[i]),
        ds[0] != '0',
    ensures
        val_of(ds) >= 1,
    decreases ds.len(),
{
    if ds.len() > 1 {
        lemma_val_positive(ds.drop_last());
    }
}

/// A nonempty digit string without a leading zero is the canonical rendering
/// of the number it denotes.
pub proof fn lemma_val_canonical(ds: Seq<char>)
    requires
        ds.len() >= 1,
        forall|i: int| 0 <= i < ds.len() ==> is_digit(#[trigger] ds[i]),
        ds[0] != '0' || ds.len() == 1,
    ensures
        ds == dec_rep(val_of(ds)),
    decreases ds.len(),
{
    if ds.len() == 1 {
        let c = ds[0];
        assert(ds.drop_last() =~= Seq::<char>::empty());
        assert(val_of(Seq::<char>::empty()) == 0);
        assert(ds.last() == c);
        assert(val_of(ds) == digit_val(c));
        lemma_digit_char_val(digit_val(c));
        assert(digit_char(digit_val(c)) as int == c as int);
        assert(digit_char(digit_val(c)) == c);
        assert(ds =~= dec_rep(val_of(ds)));
    } else {
        let init = ds.drop_last();
        lemma_val_positive(init);
        lemma_val_canonical(init);
        assert(val_of(ds) >= 10);
        assert(ds =~= dec_rep(val_of(ds)));
    }
}

/// Growing a digit string never shrinks the number it denotes.
pub proof fn lemma_val_prefix(ds: Seq<char>, rest: Seq<char>)
    ensures
        val_of(ds) <= val_of(ds + rest),
    decreases rest.len(),
{
    if rest.len() == 0 {
        assert(ds + rest =~= ds);
    } else {
        lemma_val_prefix(ds, rest.drop_last());
        assert((ds + rest).drop_last() =~= ds + rest.drop_last());
    }
}

/// The canonical rendering of one entry inside the document.
pub open spec fn render_entry_spec(e: EntryModel) -> Seq<char> {
    "    {\n      \"timestamp\": "@ + dec_rep(e.timestamp as nat)
        + ",\n      \"time_label\": \""@ + e.time_label + "\",\n      \"message\": \""@ + e.message
        + "\"\n    }"@
}

/// The canonical rendering of a nonempty entry list, entries separated by
/// `",\n"`.
pub open spec fn render_items_spec(es: Seq<EntryModel>) -> Seq<char>
    decreases es.len(),
{
    if es.len() <= 1 {
        render_entry_spec(es[0])
    } else {
        render_entry_spec(es[0]) + ",\n"@ + render_items_spec(es.skip(1))
    }
}

/// The canonical rendering of a whole state: the pretty-printed JSON
/// document that is persisted.
pub open spec fn render_state_spec(m: StateModel) -> Seq<char> {
    "{\n  \"last_generated_at\": "@ + dec_rep(m.last_generated_at as nat) + ",\n  \"entries\": "@
        + (if m.entries.len() == 0 {
        "[]"@
    } else {
        "[\n"@ + render_items_spec(m.entries) + "\n  ]"@
    }) + "\n}"@
}

/// Appending one more entry extends the rendered list by a separator and the
/// entry's own rendering.
pub proof fn lemma_render_items_snoc(es: Seq<EntryModel>, e: EntryModel)
    requires
        es.len() >= 1,
    ensures
        render_items_spec(es.push(e)) == render_items_spec(es) + ",\n"@ + render_entry_spec(e),
    decreases es.len(),
{
    let p = es.push(e);
    assert(p[0] == es[0]);
    if es.len() == 1 {
        assert(p.skip(1) =~= seq![e]);
        assert(render_items_spec(p.skip(1)) == render_entry_spec(e));
        assert(render_items_spec(p) == render_entry_spec(es[0]) + ",\n"@ + render_entry_spec(e));
    } else {
        lemma_render_items_snoc(es.skip(1), e);
        assert(p.skip(1) =~= es.skip(1).push(e));
        assert(render_items_spec(p) == render_entry_spec(es[0]) + ",\n"@ + (render_items_spec(
            es.skip(1),
        ) + ",\n"@ + render_entry_spec(e)));
        assert(render_items_spec(p) =~= render_items_spec(es) + ",\n"@ + render_entry_spec(e));
    }
}

/// Whether `p` occurs in `t` starting at position `i`.
pub open spec fn text_at(t: Seq<char>, i: int, p: Seq<char>) -> bool {
    0 <= i && i + p.len() <= t.len() && t.subrange(i, i + p.len()) == p
}

/// A piece standing at `i` fixes each character after `i`.
proof fn lemma_text_at_index(t: Seq<char>, i: int, p: Seq<char>, k: int)
    requires
        text_at(t, i, p),
        0 <= k < p.len(),
    ensures
        t[i + k] == p[k],
{
    assert(t.subrange(i, i + p.len())[k] == p[k]);
}

/// A concatenation standing at `i` splits into its two parts.
proof fn lemma_text_at_concat(t: Seq<char>, i: int, a: Seq<char>, b: Seq<char>)
    requires
        text_at(t, i, a + b),
    ensures
        text_at(t, i, a),
        text_at(t, i + a.len(), b),
{
    assert forall|k: int| 0 <= k < a.len() implies t[i + k] == a[k] by {
        lemma_text_at_index(t, i, a + b, k);
    }
    assert(t.subrange(i, i + a.len()) =~= a);
    assert forall|k: int| 0 <= k < b.len() implies t[i + a.len() + k] == b[k] by {
        lemma_text_at_index(t, i, a + b, a.len() + k);
    }
    assert(t.subrange(i + a.len(), i + a.len() + b.len()) =~= b);
}

/// Two adjacent pieces stand together as their concatenation.
proof fn lemma_text_at_join(t: Seq<char>, i: int, a: Seq<char>, b: Seq<char>)
    requires
        text_at(t, i, a),
        text_at(t, i + a.len(), b),
    ensures
        text_at(t, i, a + b),
{
    assert(t.subrange(i, i + a.len() + b.len()) =~= a + b);
}

/// Consumes the exact literal `lit` at position `i`, and succeeds exactly
/// when it stands there.
fn expect_lit(t: &str, tlen: usize, i: usize, lit: &str) -> (r: Option<usize>)
    requires
        tlen == t@.len(),
        i <= tlen,
    ensures
        r is Some ==> r.unwrap() == i + lit@.len() && i + lit@.len() <= tlen,
        r is Some <==> text_at(t@, i as int, lit@),
{
    let llen = lit.unicode_len();
    if tlen - i < llen {
        return None;
    }
    let mut j: usize = 0;
    while j < llen
        invariant
            j <= llen,
            i + llen <= tlen,
            tlen == t@.len(),
            llen == lit@.len(),
            forall|k: int| 0 <= k < j ==> t@[i + k] == lit@[k],
        decreases llen - j,
    {
        if t.get_char(i + j) != lit.get_char(j) {
            proof {
                if text_at(t@, i as int, lit@) {
                    assert(t@.subrange(i as int, i + lit@.len())[j as int] == lit@[j as int]);
                }
            }
            return None;
        }
        j = j + 1;
    }
    proof {
        assert(t@.subrange(i as int, i + lit@.len()) =~= lit@);
    }
    Some(i + llen)
}

/// Parses the canonical decimal rendering of a `u64` at position `i`: a
/// nonempty digit run without a leading zero, not followed by another digit,
/// denoting a value that fits.
fn parse_u64(t: &str, tlen: usize, i: usize) -> (r: Option<(u64, usize)>)
    requires
        tlen == t@.len(),
        i <= tlen,
    ensures
        r is Some ==> ({
            let (v, j) = r.unwrap();
            &&& i < j <= tlen
            &&& t@.subrange(i as int, j as int) == dec_rep(v as nat)
            &&& (j == tlen || !is_digit(t@[j as int]))
        }),
        forall|n: u64|
            #[trigger] text_at(t@, i as int, dec_rep(n as nat)) && (i + dec_rep(n as nat).len()
                == tlen || !is_digit(t@[i + dec_rep(n as nat).len()])) ==> r == Some(
                (n, (i + dec_rep(n as nat).len()) as usize),
            ),
{
    let mut j: usize = i;
    let mut v: u64 = 0;
    while j < tlen
        invariant
            tlen == t@.len(),
            i <= j <= tlen,
            forall|k: int| i <= k < j ==> is_digit(#[trigger] t@[k]),
            v as nat == val_of(t@.subrange(i as int, j as int)),
        ensures
            i <= j <= tlen,
            forall|k: int| i <= k < j ==> is_digit(#[trigger] t@[k]),
            v as nat == val_of(t@.subrange(i as int, j as int)),
            j == tlen || !is_digit(t@[j as int]),
        decreases tlen - j,
    {
        let c = t.get_char(j);
        let cu = c as u32;
        if cu < 48 || cu > 57 {
            break;
        }
        let d: u64 = (cu - 48) as u64;
        proof {
            assert(t@.subrange(i as int, j + 1).drop_last() =~= t@.subrange(i as int, j as int));
            assert(t@.subrange(i as int, j + 1).last() == t@[j as int]);
        }
        if v > (u64::MAX - d) / 10 {
            proof {
                assert(10 * (v as int) + d as int > u64::MAX);
                let pre = t@.subrange(i as int, j + 1);
                assert(c == t@[j as int]);
                assert(c as int == cu as int);
                assert(is_digit(t@[j as int]));
                assert(digit_val(t@[j as int]) == d as int);
                assert(pre.last() == t@[j as int]);
                assert(pre.drop_last() =~= t@.subrange(i as int, j as int));
                assert(val_of(pre) == 10 * (v as nat) + d as nat);
                assert forall|n: u64|
                    text_at(t@, i as int, dec_rep(n as nat)) && (i + dec_rep(n as nat).len()
                        == tlen || !is_digit(t@[i + dec_rep(n as nat).len()])) implies false by {
                    lemma_dec_rep_digits(n as nat);
                    let ll = dec_rep(n as nat).len();
                    if j + 1 <= i + ll {
                        assert forall|k: int| 0 <= k < j + 1 - i implies pre[k] == dec_rep(
                            n as nat,
                        ).subrange(0, j + 1 - i)[k] by {
                            lemma_text_at_index(t@, i as int, dec_rep(n as nat), k);
                        }
                        assert(pre =~= dec_rep(n as nat).subrange(0, j + 1 - i));
                        lemma_val_prefix(pre, dec_rep(n as nat).subrange(j + 1 - i, ll as int));
                        assert(pre + dec_rep(n as nat).subrange(j + 1 - i, ll as int) =~= dec_rep(
                            n as nat,
                        ));
                        assert(val_of(dec_rep(n as nat)) == n);
                    } else if j == i + ll {
                        assert(is_digit(t@[j as int]));
                    } else {
                        assert(is_digit(t@[i + ll]));
                    }
                }
            }
            return None;
        }
        v = v * 10 + d;
        j = j + 1;
    }
    if j == i {
        proof {
            assert forall|n: u64|
                text_at(t@, i as int, dec_rep(n as nat)) && (i + dec_rep(n as nat).len() == tlen
                    || !is_digit(t@[i + dec_rep(n as nat).len()])) implies false by {
                lemma_dec_rep_digits(n as nat);
                lemma_text_at_index(t@, i as int, dec_rep(n as nat), 0);
            }
        }
        return None;
    }
    let first = t.get_char(i);
    if first as u32 == 48 && j > i + 1 {
        proof {
            assert('0' as int == 48);
            assert forall|n: u64|
                text_at(t@, i as int, dec_rep(n as nat)) && (i + dec_rep(n as nat).len() == tlen
                    || !is_digit(t@[i + dec_rep(n as nat).len()])) implies false by {
                lemma_dec_rep_digits(n as nat);
                let ll = dec_rep(n as nat).len();
                lemma_text_at_index(t@, i as int, dec_rep(n as nat), 0);
                assert(dec_rep(n as nat)[0] as int == 48);
                assert(dec_rep(n as nat)[0] == '0');
                assert(ll == 1);
                assert(is_digit(t@[i + 1]));
            }
        }
        return None;
    }
    proof {
        assert('0' as int == 48);
        let ds = t@.subrange(i as int, j as int);
        assert(ds.len() >= 1);
        assert(ds[0] == t@[i as int]);
        if first as u32 != 48 {
            assert(ds[0] != '0');
        } else {
            assert(j == i + 1);
            assert(ds.len() == 1);
        }
        lemma_val_canonical(ds);
        lemma_dec_rep_digits(v as nat);
        assert forall|n: u64|
            text_at(t@, i as int, dec_rep(n as nat)) && (i + dec_rep(n as nat).len() == tlen
                || !is_digit(t@[i + dec_rep(n as nat).len()])) implies Some((v, j)) == Some(
            (n, (i + dec_rep(n as nat).len()) as usize),
        ) by {
            lemma_dec_rep_digits(n as nat);
            let ll = dec_rep(n as nat).len();
            if j < i + ll {
                lemma_text_at_index(t@, i as int, dec_rep(n as nat), j - i);
                assert(is_digit(t@[j as int]));
                assert(false);
            }
            if j > i + ll {
                assert(is_digit(t@[i + ll]));
                assert(false);
            }
            assert forall|k: int| 0 <= k < ll implies ds[k] == dec_rep(n as nat)[k] by {
                lemma_text_at_index(t@, i as int, dec_rep(n as nat), k);
            }
            assert(ds =~= dec_rep(n as nat));
            assert(val_of(dec_rep(n as nat)) == n);
            assert(v == n);
        }
    }
    Some((v, j))
}

/// Scans the body of a JSON string from `i` up to (not consuming) the
/// closing quote, accepting only characters that render verbatim.
fn scan_string_content(t: &str, tlen: usize, i: usize) -> (r: Option<(String, usize)>)
    requires
        tlen == t@.len(),
        i <= tlen,
    ensures
        r is Some ==> ({
            let (s, j) = r.unwrap();
            &&& i <= j < tlen
            &&& s@ == t@.subrange(i as int, j as int)
            &&& json_safe_text(s@)
            &&& t@[j as int] == '"'
        }),
        forall|s: Seq<char>|
            json_safe_text(s) && #[trigger] text_at(t@, i as int, s.push('"')) ==> r is Some
                && r.unwrap().0@ == s && r.unwrap().1 == i + s.len(),
{
    let mut j: usize = i;
    while j < tlen
        invariant
            tlen == t@.len(),
            i <= j <= tlen,
            forall|k: int|
                i <= k < j ==> json_safe_char(#[trigger] t@[k]) && t@[k] != '"',
        decreases tlen - j,
    {
        let c = t.get_char(j);
        if c == '"' {
            let body = t.substring_char(i, j);
            let s = body.to_owned();
            proof {
                assert forall|s2: Seq<char>|
                    json_safe_text(s2) && text_at(t@, i as int, s2.push('"')) implies s@ == s2 && j
                    == i + s2.len() by {
                    let l2 = s2.len() as int;
                    lemma_text_at_index(t@, i as int, s2.push('"'), l2);
                    assert(t@[i + l2] == '"');
                    if j < i + l2 {
                        lemma_text_at_index(t@, i as int, s2.push('"'), j - i);
                        assert(t@[j as int] == s2[j - i]);
                        assert(json_safe_char(s2[j - i]));
                        assert(false);
                    }
                    if j > i + l2 {
                        assert(t@[i + l2] != '"');
                        assert(false);
                    }
                    assert forall|k: int| 0 <= k < l2 implies s@[k] == s2[k] by {
                        lemma_text_at_index(t@, i as int, s2.push('"'), k);
                    }
                    assert(s@ =~= s2);
                }
            }
            return Some((s, j));
        }
        if c == '\\' || (c as u32) < 32 {
            proof {
                assert forall|s2: Seq<char>|
                    json_safe_text(s2) && text_at(t@, i as int, s2.push('"')) implies false by {
                    let l2 = s2.len() as int;
                    lemma_text_at_index(t@, i as int, s2.push('"'), l2);
                    assert(t@[i + l2] == '"');
                    if j < i + l2 {
                        lemma_text_at_index(t@, i as int, s2.push('"'), j - i);
                        assert(t@[j as int] == s2[j - i]);
                        assert(json_safe_char(s2[j - i]));
                    } else if j == i + l2 {
                        assert(t@[j as int] == '"');
                    } else {
                        assert(t@[i + l2] != '"');
                    }
                }
            }
            return None;
        }
        j = j + 1;
    }
    proof {
        assert forall|s2: Seq<char>|
            json_safe_text(s2) && text_at(t@, i as int, s2.push('"')) implies false by {
            let l2 = s2.len() as int;
            lemma_text_at_index(t@, i as int, s2.push('"'), l2);
            assert(t@[i + l2] == '"');
            assert(i + l2 < tlen);
            assert(t@[i + l2] != '"');
        }
    }
    None
}

/// The models of a sequence of entries.
pub open spec fn models(v: Seq<TransmissionEntry>) -> Seq<EntryModel> {
    v.map_values(|e: TransmissionEntry| e@)
}

/// Every label and message in the list renders verbatim.
pub open spec fn entries_safe(es: Seq<EntryModel>) -> bool {
    forall|k: int|
        0 <= k < es.len() ==> {
            &&& json_safe_text((#[trigger] es[k]).time_label)
            &&& json_safe_text(es[k].message)
        }
}

/// A rendered entry decomposes into its pieces, standing one after the
/// other; the character after its timestamp digits is no digit.
proof fn lemma_entry_decompose(t: Seq<char>, i: int, em: EntryModel)
    requires
        text_at(t, i, render_entry_spec(em)),
    ensures
        ({
            let l1 = "    {\n      \"timestamp\": "@;
            let d = dec_rep(em.timestamp as nat);
            let l2 = ",\n      \"time_label\": \""@;
            let l3 = "\",\n      \"message\": \""@;
            let l4 = "\"\n    }"@;
            let i1 = i + l1.len();
            let i2 = i1 + d.len();
            let i3 = i2 + l2.len();
            let i4 = i3 + em.time_label.len();
            let i5 = i4 + l3.len();
            let i6 = i5 + em.message.len();
            &&& text_at(t, i, l1)
            &&& text_at(t, i1, d)
            &&& text_at(t, i2, l2)
            &&& i2 < t.len() && !is_digit(t[i2])
            &&& text_at(t, i3, em.time_label.push('"'))
            &&& text_at(t, i4, l3)
            &&& text_at(t, i5, em.message.push('"'))
            &&& text_at(t, i6, l4)
            &&& i6 + l4.len() == i + render_entry_spec(em).len()
        }),
{
    reveal_strlit("    {\n      \"timestamp\": ");
    reveal_strlit(",\n      \"time_label\": \"");
    reveal_strlit("\",\n      \"message\": \"");
    reveal_strlit("\"\n    }");
    let l1 = "    {\n      \"timestamp\": "@;
    let d = dec_rep(em.timestamp as nat);
    let l2 = ",\n      \"time_label\": \""@;
    let l3 = "\",\n      \"message\": \""@;
    let l4 = "\"\n    }"@;
    let i1 = i + l1.len();
    let i2 = i1 + d.len();
    let i3 = i2 + l2.len();
    let i4 = i3 + em.time_label.len();
    let i5 = i4 + l3.len();
    let i6 = i5 + em.message.len();
    lemma_text_at_concat(t, i, l1 + d + l2 + em.time_label + l3 + em.message, l4);
    lemma_text_at_concat(t, i, l1 + d + l2 + em.time_label + l3, em.message);
    lemma_text_at_concat(t, i, l1 + d + l2 + em.time_label, l3);
    lemma_text_at_concat(t, i, l1 + d + l2, em.time_label);
    lemma_text_at_concat(t, i, l1 + d, l2);
    lemma_text_at_concat(t, i, l1, d);
    lemma_text_at_index(t, i2, l2, 0);
    assert(!is_digit(t[i2]));
    lemma_text_at_index(t, i4, l3, 0);
    assert(t.subrange(i3, i3 + em.time_label.len() + 1) =~= em.time_label.push('"'));
    lemma_text_at_index(t, i6, l4, 0);
    assert(t.subrange(i5, i5 + em.message.len() + 1) =~= em.message.push('"'));
}

/// Parses one rendered entry at position `i`, exactly.
fn parse_entry(t: &str, tlen: usize, i: usize) -> (r: Option<(TransmissionEntry, usize)>)
    requires
        tlen == t@.len(),
        i <= tlen,
    ensures
        r is Some ==> ({
            let (e, j) = r.unwrap();
            &&& i < j <= tlen
            &&& text_at(t@, i as int, render_entry_spec(e@))
            &&& j == i + render_entry_spec(e@).len()
            &&& json_safe_text(e@.time_label)
            &&& json_safe_text(e@.message)
        }),
        forall|em: EntryModel|
            json_safe_text(em.time_label) && json_safe_text(em.message) && #[trigger] text_at(
                t@,
                i as int,
                render_entry_spec(em),
            ) ==> r is Some && r.unwrap().0@ == em && r.unwrap().1 == i + render_entry_spec(
                em,
            ).len(),
{
    let j1 = match expect_lit(t, tlen, i, "    {\n      \"timestamp\": ") {
        Some(j) => j,
        None => {
            proof {
                assert forall|em: EntryModel|
                    json_safe_text(em.time_label) && json_safe_text(em.message) && text_at(
                        t@,
                        i as int,
                        render_entry_spec(em),
                    ) implies false by {
                    lemma_entry_decompose(t@, i as int, em);
                }
            }
            return None;
        },
    };
    let (ts, j2) = match parse_u64(t, tlen, j1) {
        Some(p) => p,
        None => {
            proof {
                assert forall|em: EntryModel|
                    json_safe_text(em.time_label) && json_safe_text(em.message) && text_at(
                        t@,
                        i as int,
                        render_entry_spec(em),
                    ) implies false by {
                    lemma_entry_decompose(t@, i as int, em);
                }
            }
            return None;
        },
    };
    let j3 = match expect_lit(t, tlen, j2, ",\n      \"time_label\": \"") {
        Some(j) => j,
        None => {
            proof {
                assert forall|em: EntryModel|
                    json_safe_text(em.time_label) && json_safe_text(em.message) && text_at(
                        t@,
                        i as int,
                        render_entry_spec(em),
                    ) implies false by {
                    lemma_entry_decompose(t@, i as int, em);
                }
            }
            return None;
        },
    };
    let (label, j4) = match scan_string_content(t, tlen, j3) {
        Some(p) => p,
        None => {
            proof {
                assert forall|em: EntryModel|
                    json_safe_text(em.time_label) && json_safe_text(em.message) && text_at(
                        t@,
                        i as int,
                        render_entry_spec(em),
                    ) implies false by {
                    lemma_entry_decompose(t@, i as int, em);
                }
            }
            return None;
        },
    };
    let j5 = match expect_lit(t, tlen, j4, "\",\n      \"message\": \"") {
        Some(j) => j,
        None => {
            proof {
                assert forall|em: EntryModel|
                    json_safe_text(em.time_label) && json_safe_text(em.message) && text_at(
                        t@,
                        i as int,
                        render_entry_spec(em),
                    ) implies false by {
                    lemma_entry_decompose(t@, i as int, em);
                }
            }
            return None;
        },
    };
    let (msg, j6) = match scan_string_content(t, tlen, j5) {
        Some(p) => p,
        None => {
            proof {
                assert forall|em: EntryModel|
                    json_safe_text(em.time_label) && json_safe_text(em.message) && text_at(
                        t@,
                        i as int,
                        render_entry_spec(em),
                    ) implies false by {
                    lemma_entry_decompose(t@, i as int, em);
                }
            }
            return None;
        },
    };
    let j7 = match expect_lit(t, tlen, j6, "\"\n    }") {
        Some(j) => j,
        None => {
            proof {
                assert forall|em: EntryModel|
                    json_safe_text(em.time_label) && json_safe_text(em.message) && text_at(
                        t@,
                        i as int,
                        render_entry_spec(em),
                    ) implies false by {
                    lemma_entry_decompose(t@, i as int, em);
                }
            }
            return None;
        },
    };
    let e = TransmissionEntry { timestamp: ts, time_label: label, message: msg };
    proof {
        // the pieces just consumed stand together as the entry's rendering
        let l1 = "    {\n      \"timestamp\": "@;
        let d = dec_rep(ts as nat);
        let l2 = ",\n      \"time_label\": \""@;
        let l3 = "\",\n      \"message\": \""@;
        let l4 = "\"\n    }"@;
        assert(text_at(t@, j1 as int, d));
        assert(text_at(t@, j3 as int, e@.time_label)) by {
            assert(t@.subrange(j3 as int, j4 as int) == e@.time_label);
        }
        assert(text_at(t@, j5 as int, e@.message)) by {
            assert(t@.subrange(j5 as int, j6 as int) == e@.message);
        }
        lemma_text_at_join(t@, i as int, l1, d);
        lemma_text_at_join(t@, i as int, l1 + d, l2);
        lemma_text_at_join(t@, i as int, l1 + d + l2, e@.time_label);
        lemma_text_at_join(t@, i as int, l1 + d + l2 + e@.time_label, l3);
        lemma_text_at_join(t@, i as int, l1 + d + l2 + e@.time_label + l3, e@.message);
        lemma_text_at_join(t@, i as int, l1 + d + l2 + e@.time_label + l3 + e@.message, l4);
        assert(text_at(t@, i as int, render_entry_spec(e@)));
        assert(j7 == i + render_entry_spec(e@).len());
        assert forall|em: EntryModel|
            json_safe_text(em.time_label) && json_safe_text(em.message) && text_at(
                t@,
                i as int,
                render_entry_spec(em),
            ) implies e@ == em && j7 == i + render_entry_spec(em).len() by {
            lemma_entry_decompose(t@, i as int, em);
            assert(ts == em.timestamp && j2 == j1 + dec_rep(em.timestamp as nat).len());
            assert(label@ == em.time_label);
            assert(msg@ == em.message);
        }
    }
    Some((e, j7))
}

/// A rendered entry list decomposes into its first entry and, when more
/// follow, a separator and the rendered rest.
proof fn lemma_items_decompose(t: Seq<char>, i: int, es: Seq<EntryModel>)
    requires
        es.len() >= 1,
        text_at(t, i, render_items_spec(es)),
    ensures
        text_at(t, i, render_entry_spec(es[0])),
        es.len() == 1 ==> render_items_spec(es).len() == render_entry_spec(es[0]).len(),
        es.len() >= 2 ==> ({
            let el = render_entry_spec(es[0]).len();
            &&& text_at(t, i + el, ",\n"@)
            &&& t[i + el] == ','
            &&& text_at(t, i + el + 2, render_items_spec(es.skip(1)))
            &&& render_items_spec(es).len() == el + 2 + render_items_spec(es.skip(1)).len()
        }),
{
    if es.len() >= 2 {
        reveal_strlit(",\n");
        let el = render_entry_spec(es[0]).len();
        lemma_text_at_concat(t, i, render_entry_spec(es[0]) + ",\n"@, render_items_spec(es.skip(1)));
        lemma_text_at_concat(t, i, render_entry_spec(es[0]), ",\n"@);
        lemma_text_at_index(t, i + el, ",\n"@, 0);
    }
}

/// Parses a rendered entry list at position `i`: one or more entries
/// separated by `",\n"`, ending where no separator follows.
fn parse_items(t: &str, tlen: usize, i: usize) -> (r: Option<(Vec<TransmissionEntry>, usize)>)
    requires
        tlen == t@.len(),
        i <= tlen,
    ensures
        r is Some ==> ({
            let (v, j) = r.unwrap();
            &&& i < j <= tlen
            &&& v@.len() >= 1
            &&& text_at(t@, i as int, render_items_spec(models(v@)))
            &&& j == i + render_items_spec(models(v@)).len()
            &&& entries_safe(models(v@))
        }),
        forall|es: Seq<EntryModel>|
            es.len() >= 1 && entries_safe(es) && #[trigger] text_at(
                t@,
                i as int,
                render_items_spec(es),
            ) && i + render_items_spec(es).len() < tlen && t@[i + render_items_spec(es).len()]
                != ',' ==> r is Some && models(r.unwrap().0@) == es && r.unwrap().1 == i
                + render_items_spec(es).len(),
    decreases tlen - i,
{
    let (e, j) = match parse_entry(t, tlen, i) {
        Some(p) => p,
        None => {
            proof {
                assert forall|es: Seq<EntryModel>|
                    es.len() >= 1 && entries_safe(es) && text_at(
                        t@,
                        i as int,
                        render_items_spec(es),
                    ) && i + render_items_spec(es).len() < tlen && t@[i + render_items_spec(
                        es,
                    ).len()] != ',' implies false by {
                    lemma_items_decompose(t@, i as int, es);
                    assert(json_safe_text(es[0].time_label) && json_safe_text(es[0].message));
                }
            }
            return None;
        },
    };
    match expect_lit(t, tlen, j, ",\n") {
        Some(j2) => {
            let (rest, k) = match parse_items(t, tlen, j2) {
                Some(p) => p,
                None => {
                    proof {
                        reveal_strlit(",\n");
                        assert forall|es: Seq<EntryModel>|
                            es.len() >= 1 && entries_safe(es) && text_at(
                                t@,
                                i as int,
                                render_items_spec(es),
                            ) && i + render_items_spec(es).len() < tlen && t@[i
                            + render_items_spec(es).len()] != ',' implies false by {
                            lemma_items_decompose(t@, i as int, es);
                            assert(json_safe_text(es[0].time_label) && json_safe_text(
                                es[0].message,
                            ));
                            if es.len() == 1 {
                                lemma_text_at_index(t@, j as int, ",\n"@, 0);
                            } else {
                                assert(entries_safe(es.skip(1))) by {
                                    assert(forall|k2: int|
                                        0 <= k2 < es.skip(1).len() ==> es.skip(1)[k2] == es[k2
                                            + 1]);
                                }
                            }
                        }
                    }
                    return None;
                },
            };
            let mut v = rest;
            v.insert(0, e);
            proof {
                reveal_strlit(",\n");
                assert(v@ =~= seq![e] + rest@);
                assert(models(v@) =~= seq![e@] + models(rest@));
                assert(models(v@).skip(1) =~= models(rest@));
                assert(models(v@)[0] == e@);
                let whole = render_entry_spec(e@) + ",\n"@ + render_items_spec(models(rest@));
                lemma_text_at_join(t@, i as int, render_entry_spec(e@), ",\n"@);
                lemma_text_at_join(
                    t@,
                    i as int,
                    render_entry_spec(e@) + ",\n"@,
                    render_items_spec(models(rest@)),
                );
                assert(render_items_spec(models(v@)) == whole);
                assert(text_at(t@, i as int, render_items_spec(models(v@))));
                assert forall|es: Seq<EntryModel>|
                    es.len() >= 1 && entries_safe(es) && text_at(
                        t@,
                        i as int,
                        render_items_spec(es),
                    ) && i + render_items_spec(es).len() < tlen && t@[i + render_items_spec(
                        es,
                    ).len()] != ',' implies models(v@) == es && k == i + render_items_spec(
                    es,
                ).len() by {
                    lemma_items_decompose(t@, i as int, es);
                    assert(json_safe_text(es[0].time_label) && json_safe_text(es[0].message));
                    if es.len() == 1 {
                        lemma_text_at_index(t@, j as int, ",\n"@, 0);
                        assert(false);
                    } else {
                        assert(e@ == es[0]);
                        assert(entries_safe(es.skip(1))) by {
                            assert(forall|k2: int|
                                0 <= k2 < es.skip(1).len() ==> es.skip(1)[k2] == es[k2 + 1]);
                        }
                        assert(models(rest@) == es.skip(1));
                        assert(models(v@) =~= es);
                    }
                }
            }
            Some((v, k))
        },
        None => {
            let mut v: Vec<TransmissionEntry> = Vec::new();
            v.push(e);
            proof {
                reveal_strlit(",\n");
                assert(models(v@) =~= seq![e@]);
                assert(render_items_spec(models(v@)) == render_entry_spec(e@));
                assert forall|es: Seq<EntryModel>|
                    es.len() >= 1 && entries_safe(es) && text_at(
                        t@,
                        i as int,
                        render_items_spec(es),
                    ) && i + render_items_spec(es).len() < tlen && t@[i + render_items_spec(
                        es,
                    ).len()] != ',' implies models(v@) == es && j == i + render_items_spec(
                    es,
                ).len() by {
                    lemma_items_decompose(t@, i as int, es);
                    assert(json_safe_text(es[0].time_label) && json_safe_text(es[0].message));
                    if es.len() >= 2 {
                        assert(e@ == es[0]);
                        assert(text_at(t@, j as int, ",\n"@));
                        assert(false);
                    }
                    assert(e@ == es[0]);
                    assert(models(v@) =~= es);
                }
            }
            Some((v, j))
        },
    }
}

/// Why a persisted document was rejected.
#[derive(Debug, PartialEq, Eq, Clone, Copy)]
pub enum DecodeError {
    /// The text is not the canonical rendering of any state.
    Malformed,
}

/// Where the array part of the rendered document begins.
pub open spec fn array_pos(m: StateModel) -> int {
    ("{\n  \"last_generated_at\": "@.len() + dec_rep(m.last_generated_at as nat).len()
        + ",\n  \"entries\": "@.len()) as int
}

/// A rendered document decomposes into its pieces, standing one after the
/// other from position 0 to the very end.
proof fn lemma_state_decompose(t: Seq<char>, m: StateModel)
    requires
        t == render_state_spec(m),
    ensures
        "[]"@.len() == 2,
        "[\n"@.len() == 2,
        "\n  ]"@.len() == 4,
        "\n}"@.len() == 2,
        text_at(t, 0, "{\n  \"last_generated_at\": "@),
        text_at(
            t,
            "{\n  \"last_generated_at\": "@.len() as int,
            dec_rep(m.last_generated_at as nat),
        ),
        array_pos(m) - ",\n  \"entries\": "@.len() < t.len(),
        !is_digit(t[array_pos(m) - ",\n  \"entries\": "@.len()]),
        text_at(t, array_pos(m) - ",\n  \"entries\": "@.len(), ",\n  \"entries\": "@),
        m.entries.len() == 0 ==> text_at(t, array_pos(m), "[]"@) && !text_at(
            t,
            array_pos(m),
            "[\n"@,
        ) && text_at(t, array_pos(m) + 2, "\n}"@) && t.len() == array_pos(m) + 4,
        m.entries.len() >= 1 ==> text_at(t, array_pos(m), "[\n"@) && !text_at(
            t,
            array_pos(m),
            "[]"@,
        ) && text_at(t, array_pos(m) + 2, render_items_spec(m.entries)) && array_pos(m) + 2
            + render_items_spec(m.entries).len() < t.len() && t[array_pos(m) + 2
            + render_items_spec(m.entries).len()] != ',' && text_at(
            t,
            array_pos(m) + 2 + render_items_spec(m.entries).len(),
            "\n  ]"@,
        ) && text_at(t, array_pos(m) + 2 + render_items_spec(m.entries).len() + 4, "\n}"@)
            && t.len() == array_pos(m) + 2 + render_items_spec(m.entries).len() + 4 + 2,
{
    reveal_strlit("{\n  \"last_generated_at\": ");
    reveal_strlit(",\n  \"entries\": ");
    reveal_strlit("[]");
    reveal_strlit("[\n");
    reveal_strlit("\n  ]");
    reveal_strlit("\n}");
    let l1 = "{\n  \"last_generated_at\": "@;
    let d = dec_rep(m.last_generated_at as nat);
    let l2 = ",\n  \"entries\": "@;
    let p = l1.len() + d.len() + l2.len();
    let arr = if m.entries.len() == 0 {
        "[]"@
    } else {
        "[\n"@ + render_items_spec(m.entries) + "\n  ]"@
    };
    assert(text_at(t, 0, t)) by {
        assert(t.subrange(0, t.len() as int) =~= t);
    }
    lemma_text_at_concat(t, 0, l1 + d + l2 + arr, "\n}"@);
    lemma_text_at_concat(t, 0, l1 + d + l2, arr);
    lemma_text_at_concat(t, 0, l1 + d, l2);
    lemma_text_at_concat(t, 0, l1, d);
    lemma_text_at_index(t, (l1.len() + d.len()) as int, l2, 0);
    if m.entries.len() == 0 {
        lemma_text_at_index(t, p as int, "[]"@, 1);
        if text_at(t, p as int, "[\n"@) {
            lemma_text_at_index(t, p as int, "[\n"@, 1);
        }
    } else {
        let il = render_items_spec(m.entries).len();
        lemma_text_at_concat(t, p as int, "[\n"@ + render_items_spec(m.entries), "\n  ]"@);
        lemma_text_at_concat(t, p as int, "[\n"@, render_items_spec(m.entries));
        lemma_text_at_index(t, p as int, "[\n"@, 1);
        if text_at(t, p as int, "[]"@) {
            lemma_text_at_index(t, p as int, "[]"@, 1);
        }
        lemma_text_at_index(t, (p + 2 + il) as int, "\n  ]"@, 0);
    }
}

/// Parses the canonical persisted document, exactly: it succeeds if and only
/// if the whole text is the canonical rendering of some state whose strings
/// render verbatim, and then returns that state.
#[verifier::rlimit(100)]
pub fn decode_state(text: &str) -> (r: Result<TransmissionState, DecodeError>)
    ensures
        r is Ok ==> text@ == render_state_spec(r->Ok_0@) && store_safe(r->Ok_0@),
        forall|m: StateModel|
            store_safe(m) && text@ == #[trigger] render_state_spec(m) ==> r is Ok && r->Ok_0@
                == m,
{
    let tlen = text.unicode_len();
    let j1 = match expect_lit(text, tlen, 0, "{\n  \"last_generated_at\": ") {
        Some(j) => j,
        None => {
            proof {
                assert forall|m: StateModel|
                    store_safe(m) && text@ == render_state_spec(m) implies false by {
                    lemma_state_decompose(text@, m);
                }
            }
            return Err(DecodeError::Malformed);
        },
    };
    let (last, j2) = match parse_u64(text, tlen, j1) {
        Some(p) => p,
        None => {
            proof {
                assert forall|m: StateModel|
                    store_safe(m) && text@ == render_state_spec(m) implies false by {
                    lemma_state_decompose(text@, m);
                    let d = dec_rep(m.last_generated_at as nat);
                    assert(text_at(text@, j1 as int, d));
                    assert(!is_digit(text@[j1 + d.len()]));
                }
            }
            return Err(DecodeError::Malformed);
        },
    };
    let j3 = match expect_lit(text, tlen, j2, ",\n  \"entries\": ") {
        Some(j) => j,
        None => {
            proof {
                assert forall|m: StateModel|
                    store_safe(m) && text@ == render_state_spec(m) implies false by {
                    lemma_state_decompose(text@, m);
                    let d = dec_rep(m.last_generated_at as nat);
                    assert(text_at(text@, j1 as int, d));
                    assert(!is_digit(text@[j1 + d.len()]));
                    assert(j2 == j1 + d.len());
                    assert(text_at(text@, j2 as int, ",\n  \"entries\": "@));
                }
            }
            return Err(DecodeError::Malformed);
        },
    };
    match expect_lit(text, tlen, j3, "[]") {
        Some(j4) => {
            let j5 = match expect_lit(text, tlen, j4, "\n}") {
                Some(j) => j,
                None => {
                    proof {
                        assert forall|m: StateModel|
                            store_safe(m) && text@ == render_state_spec(m) implies false by {
                            lemma_state_decompose(text@, m);
                            let d = dec_rep(m.last_generated_at as nat);
                            assert(text_at(text@, j1 as int, d));
                            assert(!is_digit(text@[j1 + d.len()]));
                            assert(j2 == j1 + d.len());
                            assert(text_at(text@, j2 as int, ",\n  \"entries\": "@));
                            assert(j3 == array_pos(m));
                            if m.entries.len() >= 1 {
                                assert(text_at(text@, j3 as int, "[]"@));
                                assert(false);
                            }
                            assert(text_at(text@, j4 as int, "\n}"@));
                        }
                    }
                    return Err(DecodeError::Malformed);
                },
            };
            if j5 != tlen {
                proof {
                    assert forall|m: StateModel|
                        store_safe(m) && text@ == render_state_spec(m) implies false by {
                        lemma_state_decompose(text@, m);
                        let d = dec_rep(m.last_generated_at as nat);
                        assert(text_at(text@, j1 as int, d));
                        assert(!is_digit(text@[j1 + d.len()]));
                        assert(j2 == j1 + d.len());
                        assert(text_at(text@, j2 as int, ",\n  \"entries\": "@));
                        assert(j3 == array_pos(m));
                        if m.entries.len() >= 1 {
                            assert(text_at(text@, j3 as int, "[]"@));
                            assert(false);
                        }
                        assert(text@.len() == j3 + 4);
                    }
                }
                return Err(DecodeError::Malformed);
            }
            let state = TransmissionState { last_generated_at: last, entries: Vec::new() };
            proof {
                assert(state@.entries =~= Seq::<EntryModel>::empty());
                let whole = "{\n  \"last_generated_at\": "@ + dec_rep(last as nat)
                    + ",\n  \"entries\": "@ + "[]"@ + "\n}"@;
                lemma_text_at_join(text@, 0, "{\n  \"last_generated_at\": "@, dec_rep(last as nat));
                lemma_text_at_join(
                    text@,
                    0,
                    "{\n  \"last_generated_at\": "@ + dec_rep(last as nat),
                    ",\n  \"entries\": "@,
                );
                lemma_text_at_join(
                    text@,
                    0,
                    "{\n  \"last_generated_at\": "@ + dec_rep(last as nat) + ",\n  \"entries\": "@,
                    "[]"@,
                );
                lemma_text_at_join(
                    text@,
                    0,
                    "{\n  \"last_generated_at\": "@ + dec_rep(last as nat) + ",\n  \"entries\": "@
                        + "[]"@,
                    "\n}"@,
                );
                assert(text_at(text@, 0, whole));
                assert(render_state_spec(state@) == whole);
                assert(text@ =~= text@.subrange(0, whole.len() as int));
                assert(text@ == render_state_spec(state@));
                assert forall|m: StateModel|
                    store_safe(m) && text@ == render_state_spec(m) implies state@ == m by {
                    lemma_state_decompose(text@, m);
                    let d = dec_rep(m.last_generated_at as nat);
                    assert(text_at(text@, j1 as int, d));
                    assert(!is_digit(text@[j1 + d.len()]));
                    assert(j2 == j1 + d.len());
                    assert(last == m.last_generated_at);
                    assert(text_at(text@, j2 as int, ",\n  \"entries\": "@));
                    assert(j3 == array_pos(m));
                    if m.entries.len() >= 1 {
                        assert(text_at(text@, j3 as int, "[]"@));
                        assert(false);
                    }
                    assert(state@.entries =~= m.entries);
                }
            }
            Ok(state)
        },
        None => {
            let j4 = match expect_lit(text, tlen, j3, "[\n") {
                Some(j) => j,
                None => {
                    proof {
                        assert forall|m: StateModel|
                            store_safe(m) && text@ == render_state_spec(m) implies false by {
                            lemma_state_decompose(text@, m);
                            let d = dec_rep(m.last_generated_at as nat);
                            assert(text_at(text@, j1 as int, d));
                            assert(!is_digit(text@[j1 + d.len()]));
                            assert(j2 == j1 + d.len());
                            assert(text_at(text@, j2 as int, ",\n  \"entries\": "@));
                            assert(j3 == array_pos(m));
                            if m.entries.len() == 0 {
                                assert(text_at(text@, j3 as int, "[]"@));
                                assert(false);
                            }
                            assert(text_at(text@, j3 as int, "[\n"@));
                        }
                    }
                    return Err(DecodeError::Malformed);
                },
            };
            let (items, j5) = match parse_items(text, tlen, j4) {
                Some(p) => p,
                None => {
                    proof {
                        assert forall|m: StateModel|
                            store_safe(m) && text@ == render_state_spec(m) implies false by {
                            lemma_state_decompose(text@, m);
                            let d = dec_rep(m.last_generated_at as nat);
                            assert(text_at(text@, j1 as int, d));
                            assert(!is_digit(text@[j1 + d.len()]));
                            assert(j2 == j1 + d.len());
                            assert(text_at(text@, j2 as int, ",\n  \"entries\": "@));
                            assert(j3 == array_pos(m));
                            if m.entries.len() == 0 {
                                assert(text_at(text@, j3 as int, "[]"@));
                                assert(false);
                            }
                            assert(j4 == j3 + 2);
                            assert(entries_safe(m.entries));
                            assert(text_at(text@, j4 as int, render_items_spec(m.entries)));
                            assert(text@[j4 + render_items_spec(m.entries).len()] != ',');
                        }
                    }
                    return Err(DecodeError::Malformed);
                },
            };
            let j6 = match expect_lit(text, tlen, j5, "\n  ]") {
                Some(j) => j,
                None => {
                    proof {
                        assert forall|m: StateModel|
                            store_safe(m) && text@ == render_state_spec(m) implies false by {
                            lemma_state_decompose(text@, m);
                            let d = dec_rep(m.last_generated_at as nat);
                            assert(text_at(text@, j1 as int, d));
                            assert(!is_digit(text@[j1 + d.len()]));
                            assert(j2 == j1 + d.len());
                            assert(text_at(text@, j2 as int, ",\n  \"entries\": "@));
                            assert(j3 == array_pos(m));
                            if m.entries.len() == 0 {
                                assert(text_at(text@, j3 as int, "[]"@));
                                assert(false);
                            }
                            assert(j4 == j3 + 2);
                            assert(entries_safe(m.entries));
                            assert(text_at(text@, j4 as int, render_items_spec(m.entries)));
                            assert(text@[j4 + render_items_spec(m.entries).len()] != ',');
                            assert(j5 == j4 + render_items_spec(m.entries).len());
                            assert(text_at(text@, j5 as int, "\n  ]"@));
                        }
                    }
                    return Err(DecodeError::Malformed);
                },
            };
            let j7 = match expect_lit(text, tlen, j6, "\n}") {
                Some(j) => j,
                None => {
                    proof {
                        assert forall|m: StateModel|
                            store_safe(m) && text@ == render_state_spec(m) implies false by {
                            lemma_state_decompose(text@, m);
                            let d = dec_rep(m.last_generated_at as nat);
                            assert(text_at(text@, j1 as int, d));
                            assert(!is_digit(text@[j1 + d.len()]));
                            assert(j2 == j1 + d.len());
                            assert(text_at(text@, j2 as int, ",\n  \"entries\": "@));
                            assert(j3 == array_pos(m));
                            if m.entries.len() == 0 {
                                assert(text_at(text@, j3 as int, "[]"@));
                                assert(false);
                            }
                            assert(j4 == j3 + 2);
                            assert(entries_safe(m.entries));
                            assert(text_at(text@, j4 as int, render_items_spec(m.entries)));
                            assert(text@[j4 + render_items_spec(m.entries).len()] != ',');
                            assert(j5 == j4 + render_items_spec(m.entries).len());
                            assert(j6 == j5 + 4);
                            assert(text_at(text@, j6 as int, "\n}"@));
                        }
                    }
                    return Err(DecodeError::Malformed);
                },
            };
            if j7 != tlen {
                proof {
                    assert forall|m: StateModel|
                        store_safe(m) && text@ == render_state_spec(m) implies false by {
                        lemma_state_decompose(text@, m);
                        let d = dec_rep(m.last_generated_at as nat);
                        assert(text_at(text@, j1 as int, d));
                        assert(!is_digit(text@[j1 + d.len()]));
                        assert(j2 == j1 + d.len());
                        assert(text_at(text@, j2 as int, ",\n  \"entries\": "@));
                        assert(j3 == array_pos(m));
                        if m.entries.len() == 0 {
                            assert(text_at(text@, j3 as int, "[]"@));
                            assert(false);
                        }
                        assert(j4 == j3 + 2);
                        assert(entries_safe(m.entries));
                        assert(text_at(text@, j4 as int, render_items_spec(m.entries)));
                        assert(text@[j4 + render_items_spec(m.entries).len()] != ',');
                        assert(j5 == j4 + render_items_spec(m.entries).len());
                        assert(j6 == j5 + 4);
                        assert(text@.len() == j6 + 2);
                    }
                }
                return Err(DecodeError::Malformed);
            }
            let state = TransmissionState { last_generated_at: last, entries: items };
            proof {
                assert(state@.entries =~= models(state.entries@));
                let its = render_items_spec(state@.entries);
                let whole = "{\n  \"last_generated_at\": "@ + dec_rep(last as nat)
                    + ",\n  \"entries\": "@ + ("[\n"@ + its + "\n  ]"@) + "\n}"@;
                lemma_text_at_join(text@, j3 as int, "[\n"@, its);
                lemma_text_at_join(text@, j3 as int, "[\n"@ + its, "\n  ]"@);
                lemma_text_at_join(text@, 0, "{\n  \"last_generated_at\": "@, dec_rep(last as nat));
                lemma_text_at_join(
                    text@,
                    0,
                    "{\n  \"last_generated_at\": "@ + dec_rep(last as nat),
                    ",\n  \"entries\": "@,
                );
                lemma_text_at_join(
                    text@,
                    0,
                    "{\n  \"last_generated_at\": "@ + dec_rep(last as nat) + ",\n  \"entries\": "@,
                    "[\n"@ + its + "\n  ]"@,
                );
                lemma_text_at_join(
                    text@,
                    0,
                    "{\n  \"last_generated_at\": "@ + dec_rep(last as nat) + ",\n  \"entries\": "@
                        + ("[\n"@ + its + "\n  ]"@),
                    "\n}"@,
                );
                assert(text_at(text@, 0, whole));
                assert(render_state_spec(state@) == whole);
                assert(text@ =~= text@.subrange(0, whole.len() as int));
                assert(text@ == render_state_spec(state@));
                assert(store_safe(state@));
                assert forall|m: StateModel|
                    store_safe(m) && text@ == render_state_spec(m) implies state@ == m by {
                    lemma_state_decompose(text@, m);
                    let d = dec_rep(m.last_generated_at as nat);
                    assert(text_at(text@, j1 as int, d));
                    assert(!is_digit(text@[j1 + d.len()]));
                    assert(j2 == j1 + d.len());
                    assert(last == m.last_generated_at);
                    assert(text_at(text@, j2 as int, ",\n  \"entries\": "@));
                    assert(j3 == array_pos(m));
                    if m.entries.len() == 0 {
                        assert(text_at(text@, j3 as int, "[]"@));
                        assert(false);
                    }
                    assert(j4 == j3 + 2);
                    assert(entries_safe(m.entries));
                    assert(text_at(text@, j4 as int, render_items_spec(m.entries)));
                    assert(text@[j4 + render_items_spec(m.entries).len()] != ',');
                    assert(models(items@) == m.entries);
                }
            }
            Ok(state)
        },
    }
}

/// Appends the canonical decimal rendering of a number.
fn push_u64(out: &mut String, n: u64)
    ensures
        final(out)@ == old(out)@ + dec_rep(n as nat),
    decreases n,
{
    if n < 10 {
        out.append(crate::clock::digit_str(n));
    } else {
        push_u64(out, n / 10);
        out.append(crate::clock::digit_str(n % 10));
        proof {
            assert(out@ =~= old(out)@ + dec_rep(n as nat));
        }
    }
}

/// Appends the canonical rendering of one entry.
fn append_entry(out: &mut String, e: &TransmissionEntry)
    ensures
        final(out)@ == old(out)@ + render_entry_spec(e@),
{
    out.append("    {\n      \"timestamp\": ");
    push_u64(out, e.timestamp);
    out.append(",\n      \"time_label\": \"");
    out.append(e.time_label.as_str());
    out.append("\",\n      \"message\": \"");
    out.append(e.message.as_str());
    out.append("\"\n    }");
    proof {
        assert(out@ =~= old(out)@ + render_entry_spec(e@));
    }
}

/// Renders the state to its canonical persisted document.
pub fn encode_state(state: &TransmissionState) -> (r: String)
    ensures
        r@ == render_state_spec(state@),
{
    let ghost m = state@;
    let mut out = "{\n  \"last_generated_at\": ".to_owned();
    push_u64(&mut out, state.last_generated_at);
    out.append(",\n  \"entries\": ");
    if state.entries.len() == 0 {
        out.append("[]");
    } else {
        out.append("[\n");
        let ghost head = out@;
        append_entry(&mut out, &state.entries[0]);
        proof {
            assert(m.entries.take(1) =~= seq![m.entries[0]]);
            assert(out@ == head + render_items_spec(m.entries.take(1)));
        }
        let mut i: usize = 1;
        while i < state.entries.len()
            invariant
                1 <= i <= state.entries.len(),
                m == state@,
                m.entries.len() == state.entries.len(),
                out@ == head + render_items_spec(m.entries.take(i as int)),
            decreases state.entries.len() - i,
        {
            out.append(",\n");
            append_entry(&mut out, &state.entries[i]);
            proof {
                lemma_render_items_snoc(m.entries.take(i as int), m.entries[i as int]);
                assert(m.entries.take(i as int).push(m.entries[i as int]) =~= m.entries.take(
                    i as int + 1,
                ));
                assert(out@ =~= head + render_items_spec(m.entries.take(i as int + 1)));
            }
            i = i + 1;
        }
        proof {
            assert(m.entries.take(m.entries.len() as int) =~= m.entries);
        }
        out.append("\n  ]");
    }
    out.append("\n}");
    proof {
        assert(out@ =~= render_state_spec(m));
    }
    out
}

/// Concatenating safe texts yields safe text.
pub proof fn lemma_safe_concat(a: Seq<char>, b: Seq<char>)
    requires
        json_safe_text(a),
        json_safe_text(b),
    ensures
        json_safe_text(a + b),
{
    assert forall|i: int| 0 <= i < (a + b).len() implies json_safe_char((a + b)[i]) by {
        if i < a.len() {
            assert((a + b)[i] == a[i]);
        } else {
            assert((a + b)[i] == b[i - a.len()]);
        }
    }
}

/// Clock labels hold only digits and colons, which render verbatim.
pub proof fn lemma_clock_label_safe(s: int)
    ensures
        json_safe_text(crate::clock::clock_label_spec(s)),
{
    let l = crate::clock::clock_label_spec(s);
    assert forall|d: int| json_safe_char(crate::clock::digit_char(d)) by {
        assert('0' as int == 48 && '9' as int == 57 && ':' as int == 58);
    }
    assert(json_safe_char(':')) by {
        assert(':' as int == 58);
    }
    assert forall|i: int| 0 <= i < l.len() implies json_safe_char(l[i]) by {
        assert(l.len() == 8);
    }
}

/// Every word of the synthesizer's fixed lists renders verbatim, so every
/// synthesized message does.
pub proof fn lemma_synthesized_safe(now: u64, count: nat)
    ensures
        json_safe_text(crate::message::synthesized_message(now, count)),
{
    reveal_strlit("Long-range scanner");
    reveal_strlit("Relay drone");
    reveal_strlit("Pirate beacon");
    reveal_strlit("Outer rim array");
    reveal_strlit("Subspace receiver");
    reveal_strlit("Navigation core");
    reveal_strlit("locked onto");
    reveal_strlit("decoded");
    reveal_strlit("flagged");
    reveal_strlit("stabilized");
    reveal_strlit("rerouted");
    reveal_strlit("intercepted");
    reveal_strlit("a drifting colony ping");
    reveal_strlit("an encrypted trader channel");
    reveal_strlit("a rogue moon telemetry burst");
    reveal_strlit("a hidden wormhole marker");
    reveal_strlit("an ion storm distress packet");
    reveal_strlit("a ghost-fleet handshake");
    reveal_strlit(" ");
    reveal_strlit(".");
    let si = crate::message::subject_index(now, count);
    let ai = crate::message::action_index(now, count);
    let oi = crate::message::object_index(now, count);
    assert(json_safe_text(crate::message::subject_spec(si)));
    assert(json_safe_text(crate::message::action_spec(ai)));
    assert(json_safe_text(crate::message::object_spec(oi)));
    assert(json_safe_text(" "@));
    assert(json_safe_text("."@));
    lemma_safe_concat(crate::message::subject_spec(si), " "@);
    lemma_safe_concat(crate::message::subject_spec(si) + " "@, crate::message::action_spec(ai));
    lemma_safe_concat(
        crate::message::subject_spec(si) + " "@ + crate::message::action_spec(ai),
        " "@,
    );
    lemma_safe_concat(
        crate::message::subject_spec(si) + " "@ + crate::message::action_spec(ai) + " "@,
        crate::message::object_spec(oi),
    );
    lemma_safe_concat(
        crate::message::subject_spec(si) + " "@ + crate::message::action_spec(ai) + " "@
            + crate::message::object_spec(oi),
        "."@,
    );
}

/// The seed state's labels and messages render verbatim.
pub proof fn lemma_seed_safe(now: u64)
    ensures
        store_safe(crate::state::seed_spec(now)),
{
    reveal_strlit("Uplink stabilized. Archive index pushed to public relay.");
    reveal_strlit("Detected repeating pattern in ambient static. Logged as anomaly A-17.");
    reveal_strlit("Scheduled new broadcast: Deep Space Transmitter.");
    let m = crate::state::seed_spec(now);
    assert(json_safe_text(crate::state::seed_message_1()));
    assert(json_safe_text(crate::state::seed_message_2()));
    assert(json_safe_text(crate::state::seed_message_3()));
    lemma_clock_label_safe(crate::state::saturating_sub_spec(now, 1200) as int);
    lemma_clock_label_safe(crate::state::saturating_sub_spec(now, 3300) as int);
    lemma_clock_label_safe(crate::state::saturating_sub_spec(now, 5800) as int);
    assert forall|i: int| 0 <= i < m.entries.len() implies json_safe_text(
        (#[trigger] m.entries[i]).time_label,
    ) && json_safe_text(m.entries[i].message) by {
        assert(m.entries.len() == 3);
    }
}

/// A refresh keeps the store safe: the new entry's label and message render
/// verbatim, and the kept entries were safe before.
pub proof fn lemma_refresh_preserves_safe(s: StateModel, now: u64)
    requires
        store_safe(s),
    ensures
        store_safe(crate::state::refresh_spec(s, now)),
{
    let r = crate::state::refresh_spec(s, now);
    if crate::state::is_due(s, now) {
        lemma_clock_label_safe(now as int);
        lemma_synthesized_safe(now, s.entries.len());
        assert forall|i: int| 0 <= i < r.entries.len() implies json_safe_text(
            (#[trigger] r.entries[i]).time_label,
        ) && json_safe_text(r.entries[i].message) by {
            if i >= 1 {
                assert(r.entries[i] == s.entries[i - 1]);
            }
        }
    }
}

} // verus!
