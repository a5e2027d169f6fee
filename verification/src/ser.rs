//! A spec-level serializer and the round-trip law.
//!
//! Serialization itself is a host concern and no executable part of this
//! crate; the spec functions here exist to state what "round trip" means:
//! for every value the sink can construct (and a serializer can print
//! without `\u` escapes), decoding its canonical text yields the value
//! back, exactly.

use vstd::prelude::*;

use crate::parser::FrameModel;
use crate::parser::KeyScan;
use crate::parser::RunScan;
use crate::parser::StateModel;
use crate::parser::StepScan;
use crate::parser::StoreScan;
use crate::parser::StringScan;
use crate::parser::ValueScan;
use crate::parser::all_digits;
use crate::parser::digits_value;
use crate::parser::float_lexeme_valid;
use crate::parser::frames_vals_match;
use crate::parser::has_float_marker;
use crate::parser::init_state;
use crate::parser::int_digits;
use crate::parser::int_lexeme_value;
use crate::parser::int_negative;
use crate::parser::int_result;
use crate::parser::is_digit;
use crate::parser::is_float_marker_byte;
use crate::parser::is_number_byte;
use crate::parser::is_ws_byte;
use crate::parser::lemma_float_lexeme_number_bytes;
use crate::parser::lemma_num_end_exact;
use crate::parser::machine_run;
use crate::parser::machine_step;
use crate::parser::machine_step_stored;
use crate::parser::one_value;
use crate::parser::scan_key;
use crate::parser::scan_string;
use crate::parser::state_wf;
use crate::parser::store_step;
use crate::parser::ws_end;
use crate::value::ValueModel;
use crate::value::key_index;
use crate::value::lemma_key_index_char;
use crate::value::object_insert;

verus! {

/// The decimal digits of a non-negative integer, most significant first.
pub open spec fn dec_digits(m: int) -> Seq<u8>
    decreases m when m >= 0
{
    if m < 10 {
        seq![(48 + m) as u8]
    } else {
        dec_digits(m / 10).push((48 + m % 10) as u8)
    }
}

/// The canonical decimal text of an integer.
pub open spec fn int_ser(n: int) -> Seq<u8> {
    if n < 0 {
        seq![45u8] + dec_digits(-n)
    } else {
        dec_digits(n)
    }
}

/// The decimal digits of `m` are digits and denote `m`.
pub proof fn lemma_dec_digits(m: int)
    requires
        m >= 0,
    ensures
        dec_digits(m).len() >= 1,
        all_digits(dec_digits(m)),
        digits_value(dec_digits(m)) == m,
    decreases m,
{
    if m < 10 {
        let one = seq![(48 + m) as u8];
        assert(one.drop_last() =~= Seq::<u8>::empty());
        assert(one.last() == (48 + m) as u8);
        assert(digits_value(one) == digits_value(Seq::<u8>::empty()) * 10 + m);
    } else {
        lemma_dec_digits(m / 10);
        let ds = dec_digits(m / 10);
        let d = (48 + m % 10) as u8;
        assert(ds.push(d).drop_last() =~= ds);
        assert(ds.push(d).last() == d);
        assert(forall|k: int| 0 <= k < ds.len() ==> ds.push(d)[k] == ds[k]);
        assert(digits_value(ds.push(d)) == m / 10 * 10 + m % 10);
    }
}

/// Whether byte `k` of a string body can be printed without a `\u`
/// escape: control characters other than the escapable set cannot, nor
/// DEL, nor a two-byte C1 control sequence.
pub open spec fn str_byte_ok(b: Seq<u8>, k: int) -> bool {
    &&& (b[k] < 32 ==> (b[k] == 8 || b[k] == 9 || b[k] == 10 || b[k] == 12 || b[k] == 13))
    &&& b[k] != 127
    &&& !(b[k] == 194 && k + 1 < b.len() && 128 <= b[k + 1] <= 159)
}

/// Whether a string body can be printed without `\u` escapes.
pub open spec fn str_ser_ok(b: Seq<u8>) -> bool {
    forall|k: int| 0 <= k < b.len() ==> #[trigger] str_byte_ok(b, k)
}

/// The printed form of one string-body byte: an escape pair for the quote,
/// the backslash and the escapable controls, the byte itself otherwise.
pub open spec fn esc1(c: u8) -> Seq<u8> {
    if c == 34 {
        seq![92u8, 34u8]
    } else if c == 92 {
        seq![92u8, 92u8]
    } else if c == 8 {
        seq![92u8, 98u8]
    } else if c == 9 {
        seq![92u8, 116u8]
    } else if c == 10 {
        seq![92u8, 110u8]
    } else if c == 12 {
        seq![92u8, 102u8]
    } else if c == 13 {
        seq![92u8, 114u8]
    } else {
        seq![c]
    }
}

/// The printed form of a string body, escapes substituted.
pub open spec fn str_escape(b: Seq<u8>) -> Seq<u8>
    decreases b.len(),
{
    if b.len() == 0 {
        Seq::empty()
    } else {
        esc1(b[0]) + str_escape(b.drop_first())
    }
}

/// Scanning the printed form of a body, up to its closing quote, yields
/// the body back, appended to whatever was already accumulated.
pub proof fn lemma_scan_escaped(s: Seq<u8>, i: int, b: Seq<u8>, acc: Seq<u8>)
    requires
        0 <= i,
        i + str_escape(b).len() < s.len(),
        s.subrange(i, i + str_escape(b).len()) == str_escape(b),
        s[i + str_escape(b).len()] == 34,
        str_ser_ok(b),
    ensures
        crate::parser::scan_string(s, i, acc) == (crate::parser::StringScan::Found {
            body: acc + b,
            end: i + str_escape(b).len() + 1,
        }),
    decreases b.len(),
{
    let esc = str_escape(b);
    if b.len() == 0 {
        assert(esc =~= Seq::<u8>::empty());
        assert(s[i] == 34);
        assert(acc + b =~= acc);
    } else {
        let c = b[0];
        let rest = b.drop_first();
        assert(str_byte_ok(b, 0));
        assert(str_ser_ok(rest)) by {
            assert forall|k: int| 0 <= k < rest.len() implies #[trigger] str_byte_ok(rest, k) by {
                assert(rest[k] == b[k + 1]);
                if k + 1 < rest.len() {
                    assert(rest[k + 1] == b[k + 2]);
                }
                assert(str_byte_ok(b, k + 1));
            }
        }
        let e1 = esc1(c);
        let erest = str_escape(rest);
        assert(esc == e1 + erest);
        assert forall|t: int| 0 <= t < esc.len() implies s[i + t] == esc[t] by {
            assert(s.subrange(i, i + esc.len())[t] == s[i + t]);
        }
        assert forall|t: int| 0 <= t < e1.len() implies esc[t] == e1[t] by {
            assert((e1 + erest)[t] == e1[t]);
        }
        assert forall|t: int| 0 <= t < erest.len() implies esc[e1.len() + t] == erest[t] by {
            assert((e1 + erest)[e1.len() + t] == erest[t]);
        }
        let i2 = i + e1.len();
        assert forall|t: int| 0 <= t < erest.len() implies s.subrange(i2, i2 + erest.len())[t]
            == erest[t] by {
            assert(s.subrange(i2, i2 + erest.len())[t] == s[i2 + t]);
            assert(s[i + (e1.len() + t)] == esc[e1.len() + t]);
        }
        assert(s.subrange(i2, i2 + erest.len()) =~= erest);
        assert(s[i2 + erest.len()] == 34);
        assert(s[i] == e1[0]) by {
            assert(s[i + 0] == esc[0]);
        }
        if c == 34 || c == 92 || c == 8 || c == 9 || c == 10 || c == 12 || c == 13 {
            assert(s[i] == 92);
            let code = e1[1];
            assert(s[i + 1] == code) by {
                assert(s[i + 1] == esc[1]);
            }
            assert(code != 117);
            assert(crate::parser::escape_byte(code) == Some(c));
            lemma_scan_escaped(s, i + 2, rest, acc.push(c));
            assert(acc.push(c) + rest =~= acc + b);
        } else {
            assert(s[i] == c);
            assert(c != 34 && c != 92);
            assert(!(c < 32) && c != 127);
            assert(!crate::parser::control_at(s, i)) by {
                if c == 194 {
                    if rest.len() == 0 {
                        assert(s[i + 1] == 34);
                    } else {
                        let n1 = esc1(rest[0]);
                        assert(s[i + 1] == n1[0]) by {
                            assert(erest == n1 + str_escape(rest.drop_first()));
                            assert((n1 + str_escape(rest.drop_first()))[0] == n1[0]);
                            assert(s[i + 1] == esc[1]);
                            assert(esc[e1.len() as int + 0] == erest[0]);
                        }
                        if rest[0] == 34 || rest[0] == 92 || rest[0] == 8 || rest[0] == 9
                            || rest[0] == 10 || rest[0] == 12 || rest[0] == 13 {
                            assert(s[i + 1] == 92);
                        } else {
                            assert(s[i + 1] == rest[0]);
                            assert(str_byte_ok(b, 0));
                            assert(!(128 <= b[1] <= 159));
                        }
                    }
                }
            }
            lemma_scan_escaped(s, i + 1, rest, acc.push(c));
            assert(acc.push(c) + rest =~= acc + b);
        }
    }
}

/// Parsing the canonical decimal text of an in-range integer gives it back.
pub proof fn lemma_int_ser_round_trip(n: int)
    requires
        -0x8000000000000000 <= n <= 0x7fffffffffffffff,
    ensures
        int_result(int_ser(n)) == Some(n),
        all_digits(int_ser(n)) || (int_ser(n)[0] == 45 && all_digits(int_ser(n).drop_first())),
        int_ser(n).len() >= 1,
        forall|k: int| 0 <= k < int_ser(n).len() ==> is_number_byte(#[trigger] int_ser(n)[k]),
        int_ser(n)[0] == 45 || is_digit(int_ser(n)[0]),
{
    if n < 0 {
        lemma_dec_digits(-n);
        let lex = seq![45u8] + dec_digits(-n);
        assert(lex.drop_first() =~= dec_digits(-n));
        assert(int_negative(lex));
        assert(int_digits(lex) == dec_digits(-n));
        assert(int_lexeme_value(lex) == n);
    } else {
        lemma_dec_digits(n);
        let lex = dec_digits(n);
        assert(is_digit(lex[0]));
        assert(!(lex[0] == 43 || lex[0] == 45));
        assert(int_digits(lex) == lex);
        assert(!int_negative(lex));
        assert(int_lexeme_value(lex) == n);
    }
}


/// The printed form of an object key: a quoted, escaped string literal.
pub open spec fn key_ser(key: Seq<u8>) -> Seq<u8> {
    seq![34u8] + str_escape(key) + seq![34u8]
}

/// The canonical printed form of a value.
pub open spec fn ser(v: ValueModel) -> Seq<u8>
    decreases v, 0int,
{
    match v {
        ValueModel::Null => seq![110u8, 117u8, 108u8, 108u8],
        ValueModel::Bool(b) => if b {
            seq![116u8, 114u8, 117u8, 101u8]
        } else {
            seq![102u8, 97u8, 108u8, 115u8, 101u8]
        },
        ValueModel::Int(n) => int_ser(n),
        ValueModel::Float(lex) => lex,
        ValueModel::Str(b) => seq![34u8] + str_escape(b) + seq![34u8],
        ValueModel::Arr(items) => if items.len() == 0 {
            seq![91u8, 93u8]
        } else {
            seq![91u8] + ser(items[0]) + ser_arr_tail(items, 1)
        },
        ValueModel::Obj(members) => if members.len() == 0 {
            seq![123u8, 125u8]
        } else {
            seq![123u8] + key_ser(members[0].0) + seq![58u8] + ser(members[0].1) + ser_obj_tail(
                members,
                1,
            )
        },
    }
}

/// The printed form of an array from its element `m` on: `,`-separated
/// elements, then the closing `]`.
pub open spec fn ser_arr_tail(items: Seq<ValueModel>, m: int) -> Seq<u8>
    decreases items, items.len() - m,
{
    if m < 0 || m >= items.len() {
        seq![93u8]
    } else {
        seq![44u8] + ser(items[m]) + ser_arr_tail(items, m + 1)
    }
}

/// The printed form of an object from its member `m` on: `,`-separated
/// `key:value` pairs, then the closing `}`.
pub open spec fn ser_obj_tail(members: Seq<(Seq<u8>, ValueModel)>, m: int) -> Seq<u8>
    decreases members, members.len() - m,
{
    if m < 0 || m >= members.len() {
        seq![125u8]
    } else {
        seq![44u8] + key_ser(members[m].0) + seq![58u8] + ser(members[m].1) + ser_obj_tail(
            members,
            m + 1,
        )
    }
}

/// Whether no two members share a key.
pub open spec fn keys_distinct(members: Seq<(Seq<u8>, ValueModel)>) -> bool {
    forall|j: int, k: int|
        0 <= j < k < members.len() ==> (#[trigger] members[j]).0 != (#[trigger] members[k]).0
}

/// Whether the sink can construct `v` and a serializer can print it
/// without `\u` escapes: integers in 64-bit range, float lexemes as the
/// scanner admits them, string bodies without unprintable controls, and
/// object keys unique.
pub open spec fn ser_ok(v: ValueModel) -> bool
    decreases v, 0int,
{
    match v {
        ValueModel::Null => true,
        ValueModel::Bool(_) => true,
        ValueModel::Int(n) => -0x8000000000000000 <= n <= 0x7fffffffffffffff,
        ValueModel::Float(lex) => float_lexeme_valid(lex) && has_float_marker(lex) && lex.len()
            > 0 && (lex[0] == 45 || is_digit(lex[0])),
        ValueModel::Str(b) => str_ser_ok(b),
        ValueModel::Arr(items) => ser_ok_items(items, 0),
        ValueModel::Obj(members) => keys_distinct(members) && ser_ok_members(members, 0)
            && members_keys_ok(members),
    }
}

/// Whether every element of `items` from `m` on can be printed.
pub open spec fn ser_ok_items(items: Seq<ValueModel>, m: int) -> bool
    decreases items, items.len() - m,
{
    if m < 0 || m >= items.len() {
        true
    } else {
        ser_ok(items[m]) && ser_ok_items(items, m + 1)
    }
}

/// Whether every member value of `members` from `m` on can be printed.
pub open spec fn ser_ok_members(members: Seq<(Seq<u8>, ValueModel)>, m: int) -> bool
    decreases members, members.len() - m,
{
    if m < 0 || m >= members.len() {
        true
    } else {
        ser_ok(members[m].1) && ser_ok_members(members, m + 1)
    }
}

/// Whether every member key can be printed.
pub open spec fn members_keys_ok(members: Seq<(Seq<u8>, ValueModel)>) -> bool {
    forall|k: int| 0 <= k < members.len() ==> str_ser_ok((#[trigger] members[k]).0)
}

/// The first byte of a printed value: never whitespace, never a closing
/// bracket, and always a byte the value dispatch recognizes.
pub proof fn lemma_ser_first_byte(v: ValueModel)
    requires
        ser_ok(v),
    ensures
        ser(v).len() >= 1,
        !is_ws_byte(ser(v)[0]),
        ser(v)[0] != 93 && ser(v)[0] != 125 && ser(v)[0] != 44,
        ser(v)[0] == 110 || ser(v)[0] == 116 || ser(v)[0] == 102 || ser(v)[0] == 34 || ser(v)[0]
            == 91 || ser(v)[0] == 123 || ser(v)[0] == 45 || is_digit(ser(v)[0]),
{
    match v {
        ValueModel::Int(n) => {
            lemma_int_ser_round_trip(n);
        },
        ValueModel::Str(b) => {
            assert(ser(v)[0] == 34) by {
                assert((seq![34u8] + str_escape(b) + seq![34u8])[0] == 34);
            }
        },
        ValueModel::Arr(items) => {
            if items.len() > 0 {
                assert((seq![91u8] + ser(items[0]) + ser_arr_tail(items, 1))[0] == 91);
            }
        },
        ValueModel::Obj(members) => {
            if members.len() > 0 {
                assert((seq![123u8] + key_ser(members[0].0) + seq![58u8] + ser(members[0].1)
                    + ser_obj_tail(members, 1))[0] == 123);
            }
        },
        _ => {},
    }
}

/// Splitting a known slice of `s` at a concatenation boundary.
pub proof fn lemma_subrange_split(s: Seq<u8>, i: int, a: Seq<u8>, b: Seq<u8>)
    requires
        0 <= i,
        i + a.len() + b.len() <= s.len(),
        s.subrange(i, i + a.len() + b.len()) == a + b,
    ensures
        s.subrange(i, i + a.len()) == a,
        s.subrange(i + a.len(), i + a.len() + b.len()) == b,
{
    let ab = a + b;
    assert forall|t: int| 0 <= t < ab.len() implies s[i + t] == ab[t] by {
        assert(s.subrange(i, i + ab.len())[t] == s[i + t]);
    }
    assert forall|t: int| 0 <= t < a.len() implies s.subrange(i, i + a.len())[t] == a[t] by {
        assert(s.subrange(i, i + a.len())[t] == s[i + t]);
        assert(s[i + t] == ab[t]);
        assert((a + b)[t] == a[t]);
    }
    assert(s.subrange(i, i + a.len()) =~= a);
    assert forall|t: int| 0 <= t < b.len() implies s.subrange(
        i + a.len(),
        i + a.len() + b.len(),
    )[t] == b[t] by {
        assert(s.subrange(i + a.len(), i + a.len() + b.len())[t] == s[i + a.len() + t]);
        assert(s[i + (a.len() + t)] == ab[a.len() + t]);
        assert((a + b)[a.len() as int + t] == b[t]);
    }
    assert(s.subrange(i + a.len(), i + a.len() + b.len()) =~= b);
}

/// The byte a known slice of `s` puts at offset `t`.
pub proof fn lemma_prefix_byte(s: Seq<u8>, i: int, p: Seq<u8>, t: int)
    requires
        0 <= i,
        i + p.len() <= s.len(),
        s.subrange(i, i + p.len()) == p,
        0 <= t < p.len(),
    ensures
        s[i + t] == p[t],
{
    assert(s.subrange(i, i + p.len())[t] == s[i + t]);
}

/// Scanning the printed form of a key, colon included, yields it back.
pub proof fn lemma_scan_key_ser(s: Seq<u8>, p: int, kb: Seq<u8>)
    requires
        0 <= p,
        p + key_ser(kb).len() + 1 <= s.len(),
        s.subrange(p, p + key_ser(kb).len()) == key_ser(kb),
        s[p + key_ser(kb).len()] == 58,
        str_ser_ok(kb),
    ensures
        ({
            let e = p + key_ser(kb).len() + 1;
            scan_key(s, p) == (KeyScan::Found { key: kb, end: e })
        }),
{
    let ks = key_ser(kb);
    let esc = str_escape(kb);
    assert(ks == seq![34u8] + esc + seq![34u8]);
    assert(seq![34u8] + esc + seq![34u8] =~= (seq![34u8] + esc) + seq![34u8]);
    lemma_subrange_split(s, p, seq![34u8] + esc, seq![34u8]);
    lemma_subrange_split(s, p, seq![34u8], esc);
    assert(s[p] == 34) by {
        lemma_prefix_byte(s, p, seq![34u8], 0);
    }
    assert(ws_end(s, p) == p);
    let qe = p + 1 + esc.len();
    assert(s[qe] == 34) by {
        lemma_prefix_byte(s, p + (1 + esc.len()), seq![34u8], 0);
    }
    assert(s.subrange(p + 1, p + 1 + esc.len()) == esc);
    lemma_scan_escaped(s, p + 1, kb, Seq::<u8>::empty());
    assert(Seq::<u8>::empty() + kb =~= kb);
    assert(s[qe + 1] == 58);
    assert(ws_end(s, qe + 1) == qe + 1);
}


/// A produced-value outcome, for stating `one_value` results.
spec fn found(pos: int, frames: Seq<FrameModel>, vals: Seq<ValueModel>) -> ValueScan {
    ValueScan::Found { pos, frames, vals }
}

/// A store outcome, for stating `store_step` results.
spec fn stored_scan(
    pos: int,
    frames: Seq<FrameModel>,
    vals: Seq<ValueModel>,
) -> StoreScan {
    StoreScan::Stored { pos, frames, vals }
}

/// What the machine runs to once a value has been produced at `pos`:
/// finish or store, then keep running.
pub open spec fn run_from_stored(
    src: Seq<u8>,
    pos: int,
    frames: Seq<FrameModel>,
    vals: Seq<ValueModel>,
) -> RunScan {
    match machine_step_stored(src, pos, frames, vals) {
        StepScan::Done { pos: _, value } => RunScan::Done(value),
        StepScan::Failed(e) => RunScan::Failed(e),
        StepScan::More(st2) => machine_run(st2),
    }
}

/// When the produced value, position and frames after one `one_value`
/// call are known exactly, the run is the continuation from its storing.
proof fn lemma_step_found(st: StateModel, pos2: int, fr2: Seq<FrameModel>, vl2: Seq<ValueModel>)
    requires
        state_wf(st),
        one_value(st.src, st.pos, st.frames, st.vals) == found(pos2, fr2, vl2),
    ensures
        machine_run(st) == run_from_stored(st.src, pos2, fr2, vl2),
{
    crate::parser::lemma_machine_step(st);
    assert(machine_step(st) == machine_step_stored(st.src, pos2, fr2, vl2));
    assert(machine_run(st) == (match machine_step(st) {
        StepScan::Done { pos: _, value } => RunScan::Done(value),
        StepScan::Failed(err2) => RunScan::Failed(err2),
        StepScan::More(stx) => machine_run(stx),
    }));
}

/// When one produced value is known exactly, the run is the continuation
/// from its storing.
proof fn lemma_step_via_found(st: StateModel, e: int, v: ValueModel)
    requires
        state_wf(st),
        one_value(st.src, st.pos, st.frames, st.vals) == found(e, st.frames, st.vals.push(v)),
    ensures
        machine_run(st) == run_from_stored(st.src, e, st.frames, st.vals.push(v)),
{
    lemma_step_found(st, e, st.frames, st.vals.push(v));
}

/// Two states whose next step agrees run to the same outcome.
proof fn lemma_run_eq(st1: StateModel, st2: StateModel)
    requires
        state_wf(st1),
        state_wf(st2),
        st1.src == st2.src,
        machine_step(st1) == machine_step(st2),
    ensures
        machine_run(st1) == machine_run(st2),
{
}

/// Decoding the printed form of one value from any suspended state
/// produces exactly that value and continues from its end: the inductive
/// heart of the round-trip law.
#[verifier::rlimit(80)]
pub proof fn lemma_run_ser(st: StateModel, v: ValueModel, e: int)
    requires
        0 <= st.pos <= e <= st.src.len(),
        st.vals.len() == st.frames.len(),
        frames_vals_match(st.frames, st.vals),
        st.src.subrange(st.pos, e) == ser(v),
        ser_ok(v),
        (v is Int || v is Float) ==> (e == st.src.len() || !is_number_byte(st.src[e])),
    ensures
        machine_run(st) == run_from_stored(st.src, e, st.frames, st.vals.push(v)),
    decreases v, 0int,
{
    let s = st.src;
    let i = st.pos;
    let fr = st.frames;
    let vl = st.vals;
    assert(state_wf(st));
    lemma_ser_first_byte(v);
    lemma_prefix_byte(s, i, ser(v), 0);
    assert(e - i == ser(v).len());
    assert(ws_end(s, i) == i);
    match v {
        ValueModel::Null => {
            lemma_prefix_byte(s, i, ser(v), 1);
            lemma_prefix_byte(s, i, ser(v), 2);
            lemma_prefix_byte(s, i, ser(v), 3);
            assert(one_value(s, i, fr, vl) == found(e, fr, vl.push(v)));
            lemma_step_via_found(st, e, v);
        },
        ValueModel::Bool(bv) => {
            lemma_prefix_byte(s, i, ser(v), 1);
            lemma_prefix_byte(s, i, ser(v), 2);
            lemma_prefix_byte(s, i, ser(v), 3);
            if !bv {
                lemma_prefix_byte(s, i, ser(v), 4);
            }
            assert(one_value(s, i, fr, vl) == found(e, fr, vl.push(v)));
            lemma_step_via_found(st, e, v);
        },
        ValueModel::Int(n) => {
            lemma_int_ser_round_trip(n);
            let lex = s.subrange(i, e);
            assert(lex == ser(v));
            assert forall|k: int| i <= k < e implies is_number_byte(#[trigger] s[k]) by {
                lemma_prefix_byte(s, i, ser(v), k - i);
            }
            lemma_num_end_exact(s, i, e);
            assert(!has_float_marker(lex)) by {
                assert forall|k: int| 0 <= k < lex.len() implies !is_float_marker_byte(
                    #[trigger] lex[k],
                ) by {
                    if all_digits(lex) {
                        assert(is_digit(lex[k]));
                    } else {
                        if k > 0 {
                            assert(lex.drop_first()[k - 1] == lex[k]);
                            assert(is_digit(lex[k]));
                        }
                    }
                }
            }
            assert(int_result(lex) == Some(n));
            assert(one_value(s, i, fr, vl) == found(e, fr, vl.push(v)));
            lemma_step_via_found(st, e, v);
        },
        ValueModel::Float(lex0) => {
            assert(ser(v) == lex0);
            lemma_float_lexeme_number_bytes(lex0);
            assert forall|k: int| i <= k < e implies is_number_byte(#[trigger] s[k]) by {
                lemma_prefix_byte(s, i, ser(v), k - i);
                assert(lex0[k - i] == s[k]);
            }
            lemma_num_end_exact(s, i, e);
            assert(s.subrange(i, e) == lex0);
            assert(one_value(s, i, fr, vl) == found(e, fr, vl.push(v)));
            lemma_step_via_found(st, e, v);
        },
        ValueModel::Str(b) => {
            let esc = str_escape(b);
            assert(ser(v) == seq![34u8] + esc + seq![34u8]);
            assert(seq![34u8] + esc + seq![34u8] =~= (seq![34u8] + esc) + seq![34u8]);
            lemma_subrange_split(s, i, seq![34u8] + esc, seq![34u8]);
            lemma_subrange_split(s, i, seq![34u8], esc);
            let qe = i + 1 + esc.len();
            assert(s[qe] == 34) by {
                lemma_prefix_byte(s, i + (1 + esc.len()), seq![34u8], 0);
            }
            assert(s[i] == 34);
            lemma_scan_escaped(s, i + 1, b, Seq::<u8>::empty());
            assert(Seq::<u8>::empty() + b =~= b);
            assert(one_value(s, i, fr, vl) == found(e, fr, vl.push(v)));
            lemma_step_via_found(st, e, v);
        },
        ValueModel::Arr(items) => {
            if items.len() == 0 {
                lemma_prefix_byte(s, i, ser(v), 1);
                assert(s[i] == 91 && s[i + 1] == 93);
                assert(ws_end(s, i + 1) == i + 1);
                let inner = one_value(
                    s,
                    i + 1,
                    fr.push(FrameModel::Array),
                    vl.push(ValueModel::Arr(Seq::empty())),
                );
                assert(fr.push(FrameModel::Array).drop_last() =~= fr);
                assert(items =~= Seq::<ValueModel>::empty());
                assert(inner == found(e, fr, vl.push(v)));
                assert(one_value(s, i, fr, vl) == inner);
                lemma_step_via_found(st, e, v);
            } else {
                let sv = ser(items[0]);
                let tl = ser_arr_tail(items, 1);
                assert(ser(v) == seq![91u8] + sv + tl);
                assert(seq![91u8] + sv + tl =~= seq![91u8] + (sv + tl));
                lemma_subrange_split(s, i, seq![91u8], sv + tl);
                assert(s[i] == 91);
                let farr = fr.push(FrameModel::Array);
                let varr = vl.push(ValueModel::Arr(items.take(0)));
                assert(items.take(0) =~= Seq::<ValueModel>::empty());
                let st_in = StateModel { src: s, pos: i + 1, frames: farr, vals: varr };
                assert(one_value(s, i, fr, vl) == one_value(s, i + 1, farr, varr));
                assert(machine_step(st) == machine_step(st_in));
                assert(frames_vals_match(farr, varr)) by {
                    assert(forall|k: int|
                        0 <= k < fr.len() ==> farr[k] == fr[k] && varr[k] == vl[k]);
                }
                assert(state_wf(st_in));
                lemma_run_eq(st, st_in);
                assert(ser_ok_items(items, 0));
                lemma_run_arr_items(s, i + 1, fr, vl, items, 0, e);
            }
        },
        ValueModel::Obj(members) => {
            if members.len() == 0 {
                lemma_prefix_byte(s, i, ser(v), 1);
                assert(s[i] == 123 && s[i + 1] == 125);
                assert(ws_end(s, i + 1) == i + 1);
                assert(members =~= Seq::<(Seq<u8>, ValueModel)>::empty());
                assert(one_value(s, i, fr, vl) == found(e, fr, vl.push(v)));
                lemma_step_via_found(st, e, v);
            } else {
                let ks = key_ser(members[0].0);
                let sv = ser(members[0].1);
                let tl = ser_obj_tail(members, 1);
                assert(ser(v) == seq![123u8] + ks + seq![58u8] + sv + tl);
                assert(seq![123u8] + ks + seq![58u8] + sv + tl =~= seq![123u8] + ((ks
                    + seq![58u8]) + (sv + tl)));
                lemma_subrange_split(s, i, seq![123u8], (ks + seq![58u8]) + (sv + tl));
                lemma_subrange_split(s, i + 1, ks + seq![58u8], sv + tl);
                lemma_subrange_split(s, i + 1, ks, seq![58u8]);
                assert(s[i] == 123);
                assert(s[i + 1 + ks.len()] == 58) by {
                    lemma_prefix_byte(s, i + 1 + ks.len(), seq![58u8], 0);
                }
                assert(str_ser_ok(members[0].0)) by {
                    assert(members_keys_ok(members));
                }
                lemma_scan_key_ser(s, i + 1, members[0].0);
                let kend = i + 1 + ks.len() + 1;
                assert(s[i + 1] == 34) by {
                    lemma_prefix_byte(s, i + 1, ks, 0);
                    assert(ks[0] == 34) by {
                        assert(ks =~= seq![34u8] + (str_escape(members[0].0) + seq![34u8]));
                    }
                }
                assert(ws_end(s, i + 1) == i + 1);
                let fobj = fr.push(FrameModel::Object(Some(members[0].0)));
                let vobj = vl.push(ValueModel::Obj(members.take(0)));
                assert(members.take(0) =~= Seq::<(Seq<u8>, ValueModel)>::empty());
                let st_in = StateModel { src: s, pos: kend, frames: fobj, vals: vobj };
                assert(one_value(s, i, fr, vl) == one_value(s, kend, fobj, vobj));
                assert(machine_step(st) == machine_step(st_in));
                assert(frames_vals_match(fobj, vobj)) by {
                    assert(forall|k: int|
                        0 <= k < fr.len() ==> fobj[k] == fr[k] && vobj[k] == vl[k]);
                }
                assert(state_wf(st_in));
                lemma_run_eq(st, st_in);
                assert(ser_ok_members(members, 0));
                lemma_run_obj_members(s, kend, fr, vl, members, 0, e);
            }
        },
    }
}

/// Decoding an array's remaining elements, from element `m` on, finishes
/// the array and continues from past its `]`.
#[verifier::rlimit(80)]
pub proof fn lemma_run_arr_items(
    s: Seq<u8>,
    pos: int,
    fr: Seq<FrameModel>,
    vl: Seq<ValueModel>,
    items: Seq<ValueModel>,
    m: int,
    e: int,
)
    requires
        0 <= pos,
        e <= s.len(),
        vl.len() == fr.len(),
        frames_vals_match(fr, vl),
        0 <= m < items.len(),
        pos + ser(items[m]).len() + ser_arr_tail(items, m + 1).len() == e,
        s.subrange(pos, e) == ser(items[m]) + ser_arr_tail(items, m + 1),
        ser_ok_items(items, m),
    ensures
        ({
            let stm = StateModel {
                src: s,
                pos,
                frames: fr.push(FrameModel::Array),
                vals: vl.push(ValueModel::Arr(items.take(m))),
            };
            machine_run(stm) == run_from_stored(s, e, fr, vl.push(ValueModel::Arr(items)))
        }),
    decreases items, items.len() - m,
{
    let v_m = items[m];
    let sv = ser(v_m);
    let tl = ser_arr_tail(items, m + 1);
    let e_m = pos + sv.len();
    assert(ser_ok(v_m) && ser_ok_items(items, m + 1));
    lemma_subrange_split(s, pos, sv, tl);
    assert(tl.len() >= 1) by {
        if m + 1 < items.len() {
            assert(tl == seq![44u8] + ser(items[m + 1]) + ser_arr_tail(items, m + 2));
        }
    }
    lemma_prefix_byte(s, e_m, tl, 0);
    let farr = fr.push(FrameModel::Array);
    let varr = vl.push(ValueModel::Arr(items.take(m)));
    let stm = StateModel { src: s, pos, frames: farr, vals: varr };
    assert(frames_vals_match(farr, varr)) by {
        assert(forall|k: int| 0 <= k < fr.len() ==> farr[k] == fr[k] && varr[k] == vl[k]);
    }
    if m + 1 < items.len() {
        assert(tl == seq![44u8] + ser(items[m + 1]) + ser_arr_tail(items, m + 2));
        assert(tl[0] == 44) by {
            assert(tl =~= seq![44u8] + (ser(items[m + 1]) + ser_arr_tail(items, m + 2)));
        }
    } else {
        assert(tl == seq![93u8]);
        assert(tl[0] == 93);
    }
    lemma_run_ser(stm, v_m, e_m);
    let v2 = varr.push(v_m);
    assert(ws_end(s, e_m) == e_m);
    assert(v2[v2.len() - 2] == ValueModel::Arr(items.take(m)));
    assert(v2.take(v2.len() - 2) =~= vl);
    assert(items.take(m).push(v_m) =~= items.take(m + 1));
    let stored = vl.push(ValueModel::Arr(items.take(m + 1)));
    if m + 1 < items.len() {
        let sv2 = ser(items[m + 1]);
        let tl2 = ser_arr_tail(items, m + 2);
        assert(tl =~= seq![44u8] + (sv2 + tl2));
        lemma_subrange_split(s, e_m, seq![44u8], sv2 + tl2);
        lemma_ser_first_byte(items[m + 1]);
        lemma_prefix_byte(s, e_m + 1, sv2 + tl2, 0);
        assert((sv2 + tl2)[0] == sv2[0]);
        assert(ws_end(s, e_m + 1) == e_m + 1);
        assert(s[e_m + 1] != 93);
        assert(store_step(s, e_m, farr, v2) == stored_scan(e_m + 1, farr, stored));
        let st_next = StateModel { src: s, pos: e_m + 1, frames: farr, vals: stored };
        assert(run_from_stored(s, e_m, farr, v2) == machine_run(st_next));
        lemma_run_arr_items(s, e_m + 1, fr, vl, items, m + 1, e);
    } else {
        assert(e == e_m + 1);
        assert(s[e_m] == 93);
        assert(store_step(s, e_m, farr, v2) == stored_scan(e_m, farr, stored));
        let st2 = StateModel { src: s, pos: e_m, frames: farr, vals: stored };
        assert(run_from_stored(s, e_m, farr, v2) == machine_run(st2));
        assert(items.take(m + 1) =~= items);
        assert(farr.drop_last() =~= fr);
        assert(ws_end(s, e_m) == e_m);
        assert(one_value(s, e_m, farr, stored) == found(e, fr, vl.push(
            ValueModel::Arr(items),
        )));
        assert(state_wf(st2));
        lemma_step_found(st2, e, fr, vl.push(ValueModel::Arr(items)));
    }
}

/// Decoding an object's remaining members, from member `m` on, finishes
/// the object and continues from past its `}`.
#[verifier::rlimit(80)]
pub proof fn lemma_run_obj_members(
    s: Seq<u8>,
    pos: int,
    fr: Seq<FrameModel>,
    vl: Seq<ValueModel>,
    members: Seq<(Seq<u8>, ValueModel)>,
    m: int,
    e: int,
)
    requires
        0 <= pos,
        e <= s.len(),
        vl.len() == fr.len(),
        frames_vals_match(fr, vl),
        0 <= m < members.len(),
        pos + ser(members[m].1).len() + ser_obj_tail(members, m + 1).len() == e,
        s.subrange(pos, e) == ser(members[m].1) + ser_obj_tail(members, m + 1),
        ser_ok_members(members, m),
        members_keys_ok(members),
        keys_distinct(members),
    ensures
        ({
            let stm = StateModel {
                src: s,
                pos,
                frames: fr.push(FrameModel::Object(Some(members[m].0))),
                vals: vl.push(ValueModel::Obj(members.take(m))),
            };
            machine_run(stm) == run_from_stored(s, e, fr, vl.push(ValueModel::Obj(members)))
        }),
    decreases members, members.len() - m,
{
    let key_m = members[m].0;
    let v_m = members[m].1;
    let sv = ser(v_m);
    let tl = ser_obj_tail(members, m + 1);
    let e_m = pos + sv.len();
    assert(ser_ok(v_m) && ser_ok_members(members, m + 1));
    lemma_subrange_split(s, pos, sv, tl);
    assert(tl.len() >= 1) by {
        if m + 1 < members.len() {
            assert(tl == seq![44u8] + key_ser(members[m + 1].0) + seq![58u8] + ser(
                members[m + 1].1,
            ) + ser_obj_tail(members, m + 2));
        }
    }
    lemma_prefix_byte(s, e_m, tl, 0);
    let fobj = fr.push(FrameModel::Object(Some(key_m)));
    let vobj = vl.push(ValueModel::Obj(members.take(m)));
    let stm = StateModel { src: s, pos, frames: fobj, vals: vobj };
    assert(frames_vals_match(fobj, vobj)) by {
        assert(forall|k: int| 0 <= k < fr.len() ==> fobj[k] == fr[k] && vobj[k] == vl[k]);
    }
    if m + 1 < members.len() {
        assert(tl == seq![44u8] + key_ser(members[m + 1].0) + seq![58u8] + ser(members[m + 1].1)
            + ser_obj_tail(members, m + 2));
        assert(tl[0] == 44) by {
            assert(tl =~= seq![44u8] + ((key_ser(members[m + 1].0) + seq![58u8]) + (ser(
                members[m + 1].1,
            ) + ser_obj_tail(members, m + 2))));
        }
    } else {
        assert(tl == seq![125u8]);
        assert(tl[0] == 125);
    }
    lemma_run_ser(stm, v_m, e_m);
    let v2 = vobj.push(v_m);
    assert(ws_end(s, e_m) == e_m);
    assert(v2[v2.len() - 2] == ValueModel::Obj(members.take(m)));
    assert(v2.take(v2.len() - 2) =~= vl);
    lemma_key_index_char(members.take(m), key_m);
    assert(key_index(members.take(m), key_m) == -1) by {
        assert forall|t: int| 0 <= t < m implies members.take(m)[t].0 != key_m by {
            assert(members.take(m)[t] == members[t]);
            assert(members[t].0 != members[m].0);
        }
    }
    assert(object_insert(members.take(m), key_m, v_m) =~= members.take(m + 1)) by {
        assert((key_m, v_m) == members[m]);
    }
    let stored = vl.push(ValueModel::Obj(members.take(m + 1)));
    if m + 1 < members.len() {
        let ks2 = key_ser(members[m + 1].0);
        let sv2 = ser(members[m + 1].1);
        let tl2 = ser_obj_tail(members, m + 2);
        assert(tl =~= seq![44u8] + ((ks2 + seq![58u8]) + (sv2 + tl2)));
        lemma_subrange_split(s, e_m, seq![44u8], (ks2 + seq![58u8]) + (sv2 + tl2));
        lemma_subrange_split(s, e_m + 1, ks2 + seq![58u8], sv2 + tl2);
        lemma_subrange_split(s, e_m + 1, ks2, seq![58u8]);
        assert(s[e_m + 1 + ks2.len()] == 58) by {
            lemma_prefix_byte(s, e_m + 1 + ks2.len(), seq![58u8], 0);
        }
        assert(str_ser_ok(members[m + 1].0)) by {
            assert(members_keys_ok(members));
        }
        lemma_scan_key_ser(s, e_m + 1, members[m + 1].0);
        let kend = e_m + 1 + ks2.len() + 1;
        assert(store_step(s, e_m, fobj, v2) == stored_scan(
            kend,
            fobj.update(fobj.len() - 1, FrameModel::Object(Some(members[m + 1].0))),
            stored,
        ));
        assert(fobj.update(fobj.len() - 1, FrameModel::Object(Some(members[m + 1].0))) =~= fr.push(
            FrameModel::Object(Some(members[m + 1].0)),
        ));
        let st_next = StateModel {
            src: s,
            pos: kend,
            frames: fr.push(FrameModel::Object(Some(members[m + 1].0))),
            vals: stored,
        };
        assert(run_from_stored(s, e_m, fobj, v2) == machine_run(st_next));
        lemma_run_obj_members(s, kend, fr, vl, members, m + 1, e);
    } else {
        assert(e == e_m + 1);
        assert(s[e_m] == 125);
        let fnone = fobj.update(fobj.len() - 1, FrameModel::Object(None));
        assert(store_step(s, e_m, fobj, v2) == stored_scan(e_m, fnone, stored));
        let st2 = StateModel { src: s, pos: e_m, frames: fnone, vals: stored };
        assert(run_from_stored(s, e_m, fobj, v2) == machine_run(st2));
        assert(members.take(m + 1) =~= members);
        assert(fnone.last() == FrameModel::Object(None));
        assert(fnone.drop_last() =~= fr);
        assert(ws_end(s, e_m) == e_m);
        assert(frames_vals_match(fnone, stored)) by {
            assert(forall|k: int| 0 <= k < fr.len() ==> fnone[k] == fr[k] && stored[k] == vl[k]);
        }
        assert(one_value(s, e_m, fnone, stored) == found(e, fr, vl.push(
            ValueModel::Obj(members),
        )));
        assert(state_wf(st2));
        lemma_step_found(st2, e, fr, vl.push(ValueModel::Obj(members)));
    }
}

/// Round trip: decoding the canonical printed form of any value the sink
/// can construct (64-bit integers, scanner-valid float lexemes, strings
/// without `\u`-only characters, unique object keys) yields exactly that
/// value.
pub proof fn lemma_round_trip(v: ValueModel)
    requires
        ser_ok(v),
    ensures
        machine_run(init_state(ser(v))) == RunScan::Done(v),
{
    let s = ser(v);
    let st = init_state(s);
    lemma_ser_first_byte(v);
    assert(s.subrange(0, s.len() as int) =~= s);
    lemma_run_ser(st, v, s.len() as int);
    assert(ws_end(s, s.len() as int) == s.len());
    assert(Seq::<ValueModel>::empty().push(v).last() == v);
}

} // verus!
