//! The structural scanner and the frame-stack parsing state machine.
//!
//! The parser owns an immutable source buffer, a byte cursor that never
//! rewinds, and a stack of open-container frames. One *step* of the machine
//! ([`Parser::parse`]) advances by exactly one produced value and then, when
//! a container is still open, stores the value into it. The whole step is
//! specified by the spec-level twin [`machine_step`]; iterating it is
//! [`machine_run`]. Because frame stack, cursor and sink stack are plain
//! data, a decode may stop after any step and resume later with results
//! identical to an uninterrupted run — the laws stated at the end of this
//! module prove that.

use vstd::prelude::*;

use crate::error::Error;
use crate::sink::ValueSink;
use crate::value::JsonValue;
use crate::value::ValueModel;
use crate::value::models_of;
use crate::value::object_insert;

verus! {

/// Spec-level model of one open-container frame.
pub enum FrameModel {
    /// An open array awaiting its next element or `]`.
    Array,
    /// An open object. `Some(key)` means a value for `key` is pending;
    /// `None` means the object awaits `,` or `}`.
    Object(Option<Seq<u8>>),
}

/// One open container on the parser's stack.
#[derive(Debug)]
pub enum Frame {
    /// An open array awaiting its next element or `]`.
    Array,
    /// An open object; see [`FrameModel::Object`] for the meaning of `key`.
    Object { key: Option<Vec<u8>> },
}

impl Frame {
    /// The model of this frame.
    pub open spec fn model(self) -> FrameModel {
        match self {
            Frame::Array => FrameModel::Array,
            Frame::Object { key: Some(k) } => FrameModel::Object(Some(k@)),
            Frame::Object { key: None } => FrameModel::Object(None),
        }
    }
}

/// The models of a stack of frames, element by element.
pub open spec fn frame_models(s: Seq<Frame>) -> Seq<FrameModel> {
    Seq::new(s.len(), |k: int| if 0 <= k < s.len() {
        s[k].model()
    } else {
        FrameModel::Array
    })
}

/// The whitespace bytes the scanner skips: tab, LF, CR and space only.
pub open spec fn is_ws_byte(b: u8) -> bool {
    b == 9 || b == 10 || b == 13 || b == 32
}

/// First position at or after `i` holding a non-whitespace byte, or the
/// buffer length when only whitespace remains.
pub open spec fn ws_end(s: Seq<u8>, i: int) -> int
    decreases s.len() - i when 0 <= i <= s.len()
{
    if i < s.len() && is_ws_byte(s[i]) {
        ws_end(s, i + 1)
    } else {
        i
    }
}

/// `ws_end` stays within the buffer and stops on a non-whitespace byte.
pub proof fn lemma_ws_end(s: Seq<u8>, i: int)
    requires
        0 <= i <= s.len(),
    ensures
        i <= ws_end(s, i) <= s.len(),
        ws_end(s, i) < s.len() ==> !is_ws_byte(s[ws_end(s, i)]),
    decreases s.len() - i,
{
    if i < s.len() && is_ws_byte(s[i]) {
        lemma_ws_end(s, i + 1);
    }
}

/// The bytes a numeric literal is greedily munched from.
pub open spec fn is_number_byte(b: u8) -> bool {
    b == 43 || b == 45 || b == 46 || (48 <= b && b <= 57) || b == 69 || b == 101
}

/// An ASCII decimal digit.
pub open spec fn is_digit(b: u8) -> bool {
    48 <= b && b <= 57
}

/// First position at or after `i` holding a byte outside the numeric set,
/// or the buffer length.
pub open spec fn num_end(s: Seq<u8>, i: int) -> int
    decreases s.len() - i when 0 <= i <= s.len()
{
    if i < s.len() && is_number_byte(s[i]) {
        num_end(s, i + 1)
    } else {
        i
    }
}

/// The greedy munch ends exactly where the numeric bytes do.
pub proof fn lemma_num_end_exact(s: Seq<u8>, i: int, e: int)
    requires
        0 <= i <= e <= s.len(),
        forall|k: int| i <= k < e ==> is_number_byte(#[trigger] s[k]),
        e == s.len() || !is_number_byte(s[e]),
    ensures
        num_end(s, i) == e,
    decreases e - i,
{
    if i < e {
        lemma_num_end_exact(s, i + 1, e);
    }
}

/// Every byte the digit munch covers is a digit.
pub proof fn lemma_digits_end_digits(s: Seq<u8>, i: int)
    requires
        0 <= i <= s.len(),
    ensures
        i <= digits_end(s, i) <= s.len(),
        forall|k: int| i <= k < digits_end(s, i) ==> is_digit(#[trigger] s[k]),
    decreases s.len() - i,
{
    if i < s.len() && is_digit(s[i]) {
        lemma_digits_end_digits(s, i + 1);
    }
}

/// `num_end` stays within the buffer and stops on a non-numeric byte.
pub proof fn lemma_num_end(s: Seq<u8>, i: int)
    requires
        0 <= i <= s.len(),
    ensures
        i <= num_end(s, i) <= s.len(),
        num_end(s, i) < s.len() ==> !is_number_byte(s[num_end(s, i)]),
    decreases s.len() - i,
{
    if i < s.len() && is_number_byte(s[i]) {
        lemma_num_end(s, i + 1);
    }
}

/// Whether every byte of `s` is an ASCII decimal digit.
pub open spec fn all_digits(s: Seq<u8>) -> bool {
    forall|k: int| 0 <= k < s.len() ==> is_digit(#[trigger] s[k])
}

/// The integer a digit string denotes, most significant digit first.
pub open spec fn digits_value(s: Seq<u8>) -> int
    decreases s.len(),
{
    if s.len() == 0 {
        0
    } else {
        digits_value(s.drop_last()) * 10 + (s.last() - 48)
    }
}

/// The digit part of an integer lexeme: everything after an optional sign.
pub open spec fn int_digits(lex: Seq<u8>) -> Seq<u8> {
    if lex.len() > 0 && (lex[0] == 43 || lex[0] == 45) {
        lex.drop_first()
    } else {
        lex
    }
}

/// Whether the lexeme carries a leading minus sign.
pub open spec fn int_negative(lex: Seq<u8>) -> bool {
    lex.len() > 0 && lex[0] == 45
}

/// Whether the lexeme has integer shape: an optional sign, then one or more
/// digits and nothing else.
pub open spec fn int_lexeme_ok(lex: Seq<u8>) -> bool {
    int_digits(lex).len() > 0 && all_digits(int_digits(lex))
}

/// The integer an integer-shaped lexeme denotes.
pub open spec fn int_lexeme_value(lex: Seq<u8>) -> int {
    if int_negative(lex) {
        -digits_value(int_digits(lex))
    } else {
        digits_value(int_digits(lex))
    }
}

/// What parsing a lexeme as a 64-bit signed integer returns: its value when
/// the shape is right and the value fits, `None` otherwise (overflow fails).
pub open spec fn int_result(lex: Seq<u8>) -> Option<int> {
    if int_lexeme_ok(lex) && -0x8000000000000000 <= int_lexeme_value(lex) <= 0x7fffffffffffffff {
        Some(int_lexeme_value(lex))
    } else {
        None
    }
}

/// A digit string denotes a non-negative integer.
pub proof fn lemma_digits_value_nonneg(s: Seq<u8>)
    requires
        all_digits(s),
    ensures
        digits_value(s) >= 0,
    decreases s.len(),
{
    if s.len() > 0 {
        assert(forall|k: int| 0 <= k < s.len() - 1 ==> s.drop_last()[k] == s[k]);
        lemma_digits_value_nonneg(s.drop_last());
    }
}

/// A prefix of a digit string denotes no more than the whole string.
pub proof fn lemma_digits_prefix_le(s: Seq<u8>, m: int)
    requires
        all_digits(s),
        0 <= m <= s.len(),
    ensures
        0 <= digits_value(s.take(m)) <= digits_value(s),
    decreases s.len() - m,
{
    assert(forall|k: int| 0 <= k < m ==> s.take(m)[k] == s[k]);
    lemma_digits_value_nonneg(s.take(m));
    if m == s.len() {
        assert(s.take(m) =~= s);
    } else {
        assert(s.take(m + 1).drop_last() =~= s.take(m));
        assert(s.take(m + 1).last() == s[m]);
        lemma_digits_prefix_le(s, m + 1);
    }
}

/// First position at or after `i` holding a non-digit byte, or the buffer
/// length.
pub open spec fn digits_end(s: Seq<u8>, i: int) -> int
    decreases s.len() - i when 0 <= i <= s.len()
{
    if i < s.len() && is_digit(s[i]) {
        digits_end(s, i + 1)
    } else {
        i
    }
}

/// `digits_end` stays within the buffer.
pub proof fn lemma_digits_end(s: Seq<u8>, i: int)
    requires
        0 <= i <= s.len(),
    ensures
        i <= digits_end(s, i) <= s.len(),
    decreases s.len() - i,
{
    if i < s.len() && is_digit(s[i]) {
        lemma_digits_end(s, i + 1);
    }
}

/// Whether positions `i` onward of `lex` are a valid exponent suffix:
/// either nothing, or `e`/`E`, an optional sign, and one or more digits
/// reaching the end.
pub open spec fn exp_valid_from(lex: Seq<u8>, i: int) -> bool {
    if i == lex.len() {
        true
    } else if lex[i] == 101 || lex[i] == 69 {
        let j = if i + 1 < lex.len() && (lex[i + 1] == 43 || lex[i + 1] == 45) {
            i + 2
        } else {
            i + 1
        };
        digits_end(lex, j) > j && digits_end(lex, j) == lex.len()
    } else {
        false
    }
}

/// Whether the lexeme is a valid floating-point literal: an optional sign,
/// then digits with an optional fraction (`1`, `1.`, `1.5`) or a fraction
/// alone (`.5`), then an optional exponent.
pub open spec fn float_lexeme_valid(lex: Seq<u8>) -> bool {
    let i0: int = if lex.len() > 0 && (lex[0] == 43 || lex[0] == 45) {
        1
    } else {
        0
    };
    let d1 = digits_end(lex, i0);
    if d1 > i0 {
        if d1 < lex.len() && lex[d1] == 46 {
            exp_valid_from(lex, digits_end(lex, d1 + 1))
        } else {
            exp_valid_from(lex, d1)
        }
    } else if i0 < lex.len() && lex[i0] == 46 {
        let d2 = digits_end(lex, i0 + 1);
        d2 > i0 + 1 && exp_valid_from(lex, d2)
    } else {
        false
    }
}

/// Every byte of a valid exponent suffix is in the numeric munch set.
pub proof fn lemma_exp_number_bytes(lex: Seq<u8>, p: int)
    requires
        0 <= p <= lex.len(),
        exp_valid_from(lex, p),
    ensures
        forall|k: int| p <= k < lex.len() ==> is_number_byte(#[trigger] lex[k]),
{
    if p < lex.len() {
        let j: int = if p + 1 < lex.len() && (lex[p + 1] == 43 || lex[p + 1] == 45) {
            p + 2
        } else {
            p + 1
        };
        lemma_digits_end_digits(lex, j);
        assert forall|k: int| p <= k < lex.len() implies is_number_byte(#[trigger] lex[k]) by {
            if k == p {
            } else if k < j {
            } else {
                assert(is_digit(lex[k]));
            }
        }
    }
}

/// Every byte of a valid floating-point lexeme is in the numeric munch
/// set, and there is at least one.
pub proof fn lemma_float_lexeme_number_bytes(lex: Seq<u8>)
    requires
        float_lexeme_valid(lex),
    ensures
        lex.len() >= 1,
        forall|k: int| 0 <= k < lex.len() ==> is_number_byte(#[trigger] lex[k]),
{
    let i0: int = if lex.len() > 0 && (lex[0] == 43 || lex[0] == 45) {
        1
    } else {
        0
    };
    lemma_digits_end_digits(lex, i0);
    let d1 = digits_end(lex, i0);
    if d1 > i0 {
        if d1 < lex.len() && lex[d1] == 46 {
            lemma_digits_end_digits(lex, d1 + 1);
            let d2 = digits_end(lex, d1 + 1);
            lemma_exp_number_bytes(lex, d2);
            assert forall|k: int| 0 <= k < lex.len() implies is_number_byte(
                #[trigger] lex[k],
            ) by {
                if k < i0 {
                } else if k < d1 {
                    assert(is_digit(lex[k]));
                } else if k == d1 {
                } else if k < d2 {
                    assert(is_digit(lex[k]));
                }
            }
        } else {
            lemma_exp_number_bytes(lex, d1);
            assert forall|k: int| 0 <= k < lex.len() implies is_number_byte(
                #[trigger] lex[k],
            ) by {
                if k < i0 {
                } else if k < d1 {
                    assert(is_digit(lex[k]));
                }
            }
        }
    } else {
        lemma_digits_end_digits(lex, i0 + 1);
        let d2 = digits_end(lex, i0 + 1);
        lemma_exp_number_bytes(lex, d2);
        assert forall|k: int| 0 <= k < lex.len() implies is_number_byte(#[trigger] lex[k]) by {
            if k < i0 {
            } else if k == i0 {
            } else if k < d2 {
                assert(is_digit(lex[k]));
            }
        }
    }
}

/// Whether `b` is `.`, `e` or `E`.
pub open spec fn is_float_marker_byte(b: u8) -> bool {
    b == 46 || b == 101 || b == 69
}

/// Whether the lexeme contains `.`, `e` or `E` — what selects the
/// floating-point kind over the integer kind.
pub open spec fn has_float_marker(lex: Seq<u8>) -> bool {
    exists|k: int| 0 <= k < lex.len() && is_float_marker_byte(#[trigger] lex[k])
}

/// The control byte an escape character stands for, or `None` when the
/// character is outside the supported escape set.
pub open spec fn escape_byte(b: u8) -> Option<u8> {
    if b == 34 {
        Some(34u8)  // \" -> quote
    } else if b == 92 {
        Some(92u8)  // \\ -> backslash
    } else if b == 47 {
        Some(47u8)  // \/ -> slash
    } else if b == 98 {
        Some(8u8)  // \b -> backspace
    } else if b == 102 {
        Some(12u8)  // \f -> form feed
    } else if b == 110 {
        Some(10u8)  // \n -> line feed
    } else if b == 114 {
        Some(13u8)  // \r -> carriage return
    } else if b == 116 {
        Some(9u8)  // \t -> tab
    } else {
        None
    }
}

/// Whether a control character starts at position `i`: a C0 control byte,
/// DEL, or the two-byte encoding of a C1 control (the source is assumed
/// valid UTF-8, under which `0xC2 0x80`..`0xC2 0x9F` are exactly those).
pub open spec fn control_at(s: Seq<u8>, i: int) -> bool {
    s[i] < 32 || s[i] == 127 || (s[i] == 194 && i + 1 < s.len() && 128 <= s[i + 1] <= 159)
}

/// Outcome of scanning a string literal's body.
pub enum StringScan {
    /// The body up to a closing quote, escapes substituted; `end` is the
    /// position just past the closing quote.
    Found { body: Seq<u8>, end: int },
    /// The literal is malformed; the state at the failure is discarded.
    Failed(Error),
}

/// Scan a string literal's body from position `i` (just past the opening
/// quote), with `acc` the body bytes already copied. Runs of unescaped
/// bytes are copied verbatim; an escape consumes exactly one character from
/// the fixed set and substitutes its control byte; `\u` escapes are
/// reported as unsupported rather than guessed at.
pub open spec fn scan_string(s: Seq<u8>, i: int, acc: Seq<u8>) -> StringScan
    decreases s.len() - i when 0 <= i <= s.len()
{
    if i >= s.len() {
        StringScan::Failed(Error::UnterminatedString { offset: s.len() as usize })
    } else {
        let b = s[i];
        if b == 34 {
            StringScan::Found { body: acc, end: i + 1 }
        } else if b == 92 {
            if i + 1 >= s.len() {
                StringScan::Failed(Error::UnterminatedString { offset: s.len() as usize })
            } else {
                let e = s[i + 1];
                if e == 117 {
                    StringScan::Failed(Error::UnsupportedEscape { offset: (i + 1) as usize })
                } else {
                    match escape_byte(e) {
                        Some(out) => scan_string(s, i + 2, acc.push(out)),
                        None => StringScan::Failed(
                            Error::InvalidEscapeCharacter { offset: (i + 1) as usize },
                        ),
                    }
                }
            }
        } else if control_at(s, i) {
            StringScan::Failed(Error::UnexpectedControlCharacter { offset: i as usize })
        } else {
            scan_string(s, i + 1, acc.push(b))
        }
    }
}

/// A found string body ends after its opening position and within the
/// buffer.
pub proof fn lemma_scan_string(s: Seq<u8>, i: int, acc: Seq<u8>)
    requires
        0 <= i <= s.len(),
    ensures
        scan_string(s, i, acc) matches StringScan::Found { end, .. } ==> i < end <= s.len(),
    decreases s.len() - i,
{
    if i >= s.len() {
    } else if s[i] == 34 {
    } else if s[i] == 92 {
        if i + 1 < s.len() {
            if escape_byte(s[i + 1]) is Some && s[i + 1] != 117 {
                lemma_scan_string(s, i + 2, acc.push(escape_byte(s[i + 1]).unwrap()));
            }
        }
    } else if !control_at(s, i) {
        lemma_scan_string(s, i + 1, acc.push(s[i]));
    }
}

/// Outcome of scanning an object key and its `:` separator.
pub enum KeyScan {
    /// The key's body; `end` is the position just past the `:`.
    Found { key: Seq<u8>, end: int },
    /// The key or separator is malformed.
    Failed(Error),
}

/// Scan an object key from position `i`: whitespace, a string literal,
/// whitespace, and a `:` separator.
pub open spec fn scan_key(s: Seq<u8>, i: int) -> KeyScan {
    let j = ws_end(s, i);
    if j >= s.len() {
        KeyScan::Failed(Error::UnexpectedEndOfInput { offset: s.len() as usize })
    } else if s[j] != 34 {
        KeyScan::Failed(Error::UnexpectedToken { byte: s[j], offset: j as usize })
    } else {
        match scan_string(s, j + 1, Seq::<u8>::empty()) {
            StringScan::Failed(e) => KeyScan::Failed(e),
            StringScan::Found { body, end } => {
                let k = ws_end(s, end);
                if k >= s.len() {
                    KeyScan::Failed(Error::UnexpectedEndOfInput { offset: s.len() as usize })
                } else if s[k] != 58 {
                    KeyScan::Failed(Error::UnexpectedToken { byte: s[k], offset: k as usize })
                } else {
                    KeyScan::Found { key: body, end: k + 1 }
                }
            },
        }
    }
}

/// A found key ends after its starting position and within the buffer.
pub proof fn lemma_scan_key(s: Seq<u8>, i: int)
    requires
        0 <= i <= s.len(),
    ensures
        scan_key(s, i) matches KeyScan::Found { end, .. } ==> i < end <= s.len(),
{
    lemma_ws_end(s, i);
    let j = ws_end(s, i);
    if j < s.len() && s[j] == 34 {
        lemma_scan_string(s, j + 1, Seq::<u8>::empty());
        match scan_string(s, j + 1, Seq::<u8>::empty()) {
            StringScan::Found { body, end } => {
                lemma_ws_end(s, end);
            },
            StringScan::Failed(_) => {},
        }
    }
}

/// Whether the literal `true` starts at position `i`.
pub open spec fn lit_true_at(s: Seq<u8>, i: int) -> bool {
    i + 4 <= s.len() && s[i] == 116 && s[i + 1] == 114 && s[i + 2] == 117 && s[i + 3] == 101
}

/// Whether the literal `false` starts at position `i`.
pub open spec fn lit_false_at(s: Seq<u8>, i: int) -> bool {
    i + 5 <= s.len() && s[i] == 102 && s[i + 1] == 97 && s[i + 2] == 108 && s[i + 3] == 115 && s[
        i + 4
    ] == 101
}

/// Whether the literal `null` starts at position `i`.
pub open spec fn lit_null_at(s: Seq<u8>, i: int) -> bool {
    i + 4 <= s.len() && s[i] == 110 && s[i + 1] == 117 && s[i + 2] == 108 && s[i + 3] == 108
}

/// Whether a value of frame `f` is a container of the kind frame `f`
/// records: an array frame over an array value, an object frame over an
/// object value.
pub open spec fn frame_matches(f: FrameModel, v: ValueModel) -> bool {
    match f {
        FrameModel::Array => v is Arr,
        FrameModel::Object(_) => v is Obj,
    }
}

/// Whether every open frame sits over a sink value of its kind.
pub open spec fn frames_vals_match(frames: Seq<FrameModel>, vals: Seq<ValueModel>) -> bool {
    forall|k: int|
        0 <= k < frames.len() && k < vals.len() ==> frame_matches(
            #[trigger] frames[k],
            #[trigger] vals[k],
        )
}

/// Outcome of advancing the machine by exactly one produced value.
pub enum ValueScan {
    /// A value was produced and now tops `vals`; `pos` is the cursor after
    /// it, `frames` the open containers still around it.
    Found { pos: int, frames: Seq<FrameModel>, vals: Seq<ValueModel> },
    /// The input is malformed at the cursor.
    Failed(Error),
}

/// Advance the machine from position `i` by exactly one produced value:
/// skip whitespace, dispatch on the next byte, push scalars onto `vals`,
/// open containers onto `frames` (opening consumes no produced-value step
/// of its own: the scan flows into the first member), and close containers
/// by popping their frame, leaving the closed container as the produced
/// value.
pub open spec fn one_value(
    s: Seq<u8>,
    i: int,
    frames: Seq<FrameModel>,
    vals: Seq<ValueModel>,
) -> ValueScan
    decreases s.len() - i when 0 <= i <= s.len() via one_value_decreases
{
    let j = ws_end(s, i);
    if j >= s.len() {
        ValueScan::Failed(Error::UnexpectedEndOfInput { offset: s.len() as usize })
    } else {
        let b = s[j];
        if b == 45 || is_digit(b) {
            let e = num_end(s, j);
            let lex = s.subrange(j, e);
            if has_float_marker(lex) {
                if float_lexeme_valid(lex) {
                    ValueScan::Found { pos: e, frames, vals: vals.push(ValueModel::Float(lex)) }
                } else {
                    ValueScan::Failed(Error::InvalidNumber { offset: e as usize })
                }
            } else {
                match int_result(lex) {
                    Some(v) => ValueScan::Found {
                        pos: e,
                        frames,
                        vals: vals.push(ValueModel::Int(v)),
                    },
                    None => ValueScan::Failed(Error::InvalidNumber { offset: e as usize }),
                }
            }
        } else if b == 34 {
            match scan_string(s, j + 1, Seq::<u8>::empty()) {
                StringScan::Found { body, end } => ValueScan::Found {
                    pos: end,
                    frames,
                    vals: vals.push(ValueModel::Str(body)),
                },
                StringScan::Failed(e) => ValueScan::Failed(e),
            }
        } else if lit_true_at(s, j) {
            ValueScan::Found { pos: j + 4, frames, vals: vals.push(ValueModel::Bool(true)) }
        } else if lit_false_at(s, j) {
            ValueScan::Found { pos: j + 5, frames, vals: vals.push(ValueModel::Bool(false)) }
        } else if lit_null_at(s, j) {
            ValueScan::Found { pos: j + 4, frames, vals: vals.push(ValueModel::Null) }
        } else if b == 123 {
            let k = ws_end(s, j + 1);
            if k < s.len() && s[k] == 125 {
                ValueScan::Found {
                    pos: k + 1,
                    frames,
                    vals: vals.push(ValueModel::Obj(Seq::empty())),
                }
            } else {
                match scan_key(s, j + 1) {
                    KeyScan::Failed(e) => ValueScan::Failed(e),
                    KeyScan::Found { key, end } => one_value(
                        s,
                        end,
                        frames.push(FrameModel::Object(Some(key))),
                        vals.push(ValueModel::Obj(Seq::empty())),
                    ),
                }
            }
        } else if b == 125 {
            if frames.len() > 0 && frames.last() == FrameModel::Object(None) {
                ValueScan::Found { pos: j + 1, frames: frames.drop_last(), vals }
            } else {
                ValueScan::Failed(Error::UnmatchedBrace { offset: j as usize })
            }
        } else if b == 91 {
            one_value(s, j + 1, frames.push(FrameModel::Array), vals.push(ValueModel::Arr(Seq::empty())))
        } else if b == 93 {
            if frames.len() > 0 && frames.last() == FrameModel::Array {
                ValueScan::Found { pos: j + 1, frames: frames.drop_last(), vals }
            } else {
                ValueScan::Failed(Error::UnmatchedBracket { offset: j as usize })
            }
        } else {
            ValueScan::Failed(Error::UnexpectedToken { byte: b, offset: j as usize })
        }
    }
}

#[via_fn]
proof fn one_value_decreases(s: Seq<u8>, i: int, frames: Seq<FrameModel>, vals: Seq<ValueModel>) {
    lemma_ws_end(s, i);
    let j = ws_end(s, i);
    if j < s.len() && s[j] == 123 {
        lemma_scan_key(s, j + 1);
    }
}

/// One produced value advances the cursor, stays within the buffer, and
/// leaves exactly one more sink value than open frames, each open frame
/// over a container of its kind.
pub proof fn lemma_one_value(s: Seq<u8>, i: int, frames: Seq<FrameModel>, vals: Seq<ValueModel>)
    requires
        0 <= i <= s.len(),
        vals.len() == frames.len(),
        frames_vals_match(frames, vals),
    ensures
        match one_value(s, i, frames, vals) {
            ValueScan::Found { pos, frames: f2, vals: v2 } => {
                &&& i < pos <= s.len()
                &&& v2.len() == f2.len() + 1
                &&& frames_vals_match(f2, v2)
            },
            ValueScan::Failed(_) => true,
        },
    decreases s.len() - i,
{
    lemma_ws_end(s, i);
    let j = ws_end(s, i);
    if j < s.len() {
        let b = s[j];
        if b == 45 || is_digit(b) {
            lemma_num_end(s, j);
            assert(j < num_end(s, j)) by {
                assert(is_number_byte(s[j]));
                assert(num_end(s, j) == num_end(s, j + 1));
                lemma_num_end(s, j + 1);
            }
        } else if b == 34 {
            lemma_scan_string(s, j + 1, Seq::<u8>::empty());
        } else if b == 123 {
            lemma_ws_end(s, j + 1);
            let k = ws_end(s, j + 1);
            if !(k < s.len() && s[k] == 125) {
                lemma_scan_key(s, j + 1);
                match scan_key(s, j + 1) {
                    KeyScan::Found { key, end } => {
                        lemma_one_value(
                            s,
                            end,
                            frames.push(FrameModel::Object(Some(key))),
                            vals.push(ValueModel::Obj(Seq::empty())),
                        );
                    },
                    KeyScan::Failed(_) => {},
                }
            }
        } else if b == 91 {
            lemma_one_value(
                s,
                j + 1,
                frames.push(FrameModel::Array),
                vals.push(ValueModel::Arr(Seq::empty())),
            );
        }
    }
}

/// Outcome of the store step that follows a produced value while a
/// container is still open.
pub enum StoreScan {
    /// The value was inserted into its container; the machine is suspended
    /// at `pos` with these frames and sink values.
    Stored { pos: int, frames: Seq<FrameModel>, vals: Seq<ValueModel> },
    /// The byte after the value does not continue its container.
    Failed(Error),
}

/// Store a just-produced value (topping `vals`) into the innermost open
/// container (topping `frames`), then consume `,` and, in an object, the
/// next key — or leave a closing bracket for the next step to see.
/// Meaningful when the frame stack is non-empty, `vals` holds one more
/// entry than `frames`, and each frame sits over a container of its kind.
pub open spec fn store_step(
    s: Seq<u8>,
    i: int,
    frames: Seq<FrameModel>,
    vals: Seq<ValueModel>,
) -> StoreScan {
    let k = ws_end(s, i);
    match frames.last() {
        FrameModel::Object(Some(key)) => {
            let members = vals[vals.len() - 2]->Obj_0;
            let stored = vals.take(vals.len() - 2).push(
                ValueModel::Obj(object_insert(members, key, vals.last())),
            );
            if k >= s.len() {
                StoreScan::Failed(Error::UnexpectedEndOfInput { offset: s.len() as usize })
            } else if s[k] == 44 {
                match scan_key(s, k + 1) {
                    KeyScan::Failed(e) => StoreScan::Failed(e),
                    KeyScan::Found { key: key2, end } => StoreScan::Stored {
                        pos: end,
                        frames: frames.update(
                            frames.len() - 1,
                            FrameModel::Object(Some(key2)),
                        ),
                        vals: stored,
                    },
                }
            } else if s[k] == 125 {
                StoreScan::Stored {
                    pos: k,
                    frames: frames.update(frames.len() - 1, FrameModel::Object(None)),
                    vals: stored,
                }
            } else {
                StoreScan::Failed(Error::ExpectedCommaOrBrace { offset: k as usize })
            }
        },
        // A closed-object frame never tops the stack when a value was just
        // produced (the machine closes it in the next produced-value step);
        // the step is made total by reporting the brace mismatch.
        FrameModel::Object(None) => StoreScan::Failed(
            Error::UnmatchedBrace { offset: k as usize },
        ),
        FrameModel::Array => {
            let items = vals[vals.len() - 2]->Arr_0;
            let stored = vals.take(vals.len() - 2).push(
                ValueModel::Arr(items.push(vals.last())),
            );
            if k >= s.len() {
                StoreScan::Failed(Error::UnexpectedEndOfInput { offset: s.len() as usize })
            } else if s[k] == 44 {
                // no trailing commas: a `]` where the next element is owed
                // is rejected at its own position
                let k2 = ws_end(s, k + 1);
                if k2 < s.len() && s[k2] == 93 {
                    StoreScan::Failed(Error::UnexpectedToken { byte: 93, offset: k2 as usize })
                } else {
                    StoreScan::Stored { pos: k2, frames, vals: stored }
                }
            } else if s[k] == 93 {
                StoreScan::Stored { pos: k, frames, vals: stored }
            } else {
                StoreScan::Failed(Error::ExpectedCommaOrBracket { offset: k as usize })
            }
        },
    }
}

/// Storing a value keeps the cursor monotone and restores the suspended
/// shape: as many sink values as open frames, kinds matching.
pub proof fn lemma_store_step(s: Seq<u8>, i: int, frames: Seq<FrameModel>, vals: Seq<ValueModel>)
    requires
        0 <= i <= s.len(),
        frames.len() > 0,
        vals.len() == frames.len() + 1,
        frames_vals_match(frames, vals),
    ensures
        match store_step(s, i, frames, vals) {
            StoreScan::Stored { pos, frames: f2, vals: v2 } => {
                &&& i <= pos <= s.len()
                &&& f2.len() == frames.len()
                &&& v2.len() == f2.len()
                &&& frames_vals_match(f2, v2)
            },
            StoreScan::Failed(_) => true,
        },
{
    lemma_ws_end(s, i);
    let k = ws_end(s, i);
    match frames.last() {
        FrameModel::Object(Some(key)) => {
            if k < s.len() && s[k] == 44 {
                lemma_scan_key(s, k + 1);
            }
        },
        FrameModel::Object(None) => {},
        FrameModel::Array => {
            if k < s.len() && s[k] == 44 {
                lemma_ws_end(s, k + 1);
            }
        },
    }
}

/// The whole mutable state of a suspended decode: source, cursor, open
/// frames and the sink's stack of partial values — plain data, which is
/// what makes time-sliced resumption possible without recursion.
pub struct StateModel {
    /// The source buffer.
    pub src: Seq<u8>,
    /// The cursor.
    pub pos: int,
    /// The open-container frames, outermost first.
    pub frames: Seq<FrameModel>,
    /// The sink's partial values, bottom first.
    pub vals: Seq<ValueModel>,
}

/// The suspension-point invariant: the cursor is within the buffer, there
/// are exactly as many sink values as open frames, and each frame sits
/// over a container of its kind.
pub open spec fn state_wf(st: StateModel) -> bool {
    &&& 0 <= st.pos <= st.src.len()
    &&& st.vals.len() == st.frames.len()
    &&& frames_vals_match(st.frames, st.vals)
}

/// The machine state a fresh decode of `src` starts from.
pub open spec fn init_state(src: Seq<u8>) -> StateModel {
    StateModel { src, pos: 0, frames: Seq::empty(), vals: Seq::empty() }
}

/// Outcome of one full parser step.
pub enum StepScan {
    /// The top-level value is complete and no data follows it; `pos` is
    /// the buffer length.
    Done { pos: int, value: ValueModel },
    /// One value was produced and stored; the decode may suspend here and
    /// resume from exactly this state.
    More(StateModel),
    /// The input is malformed; the state is discarded.
    Failed(Error),
}

/// The rest of a parser step once a value was produced at `pos`: when no
/// frame stays open, check for trailing data and finish; otherwise store
/// the value into its container.
pub open spec fn machine_step_stored(
    src: Seq<u8>,
    pos: int,
    frames: Seq<FrameModel>,
    vals: Seq<ValueModel>,
) -> StepScan {
    if frames.len() == 0 {
        let k = ws_end(src, pos);
        if k < src.len() {
            StepScan::Failed(Error::TrailingData { offset: k as usize })
        } else {
            StepScan::Done { pos: k, value: vals.last() }
        }
    } else {
        match store_step(src, pos, frames, vals) {
            StoreScan::Failed(e) => StepScan::Failed(e),
            StoreScan::Stored { pos, frames, vals } => StepScan::More(
                StateModel { src, pos, frames, vals },
            ),
        }
    }
}

/// One full parser step: produce one value, then finish or store it.
pub open spec fn machine_step(st: StateModel) -> StepScan {
    match one_value(st.src, st.pos, st.frames, st.vals) {
        ValueScan::Failed(e) => StepScan::Failed(e),
        ValueScan::Found { pos, frames, vals } => machine_step_stored(st.src, pos, frames, vals),
    }
}

/// Each step preserves the suspension invariant, keeps the source, and
/// strictly advances the cursor — so the cursor is monotone across any
/// run, and a run takes at most as many steps as the buffer has bytes.
pub proof fn lemma_machine_step(st: StateModel)
    requires
        state_wf(st),
    ensures
        match machine_step(st) {
            StepScan::More(st2) => state_wf(st2) && st2.src == st.src && st.pos < st2.pos,
            StepScan::Done { pos, value } => st.pos < pos && pos == st.src.len(),
            StepScan::Failed(_) => true,
        },
{
    lemma_one_value(st.src, st.pos, st.frames, st.vals);
    match one_value(st.src, st.pos, st.frames, st.vals) {
        ValueScan::Found { pos, frames, vals } => {
            if frames.len() == 0 {
                lemma_ws_end(st.src, pos);
            } else {
                lemma_store_step(st.src, pos, frames, vals);
            }
        },
        ValueScan::Failed(_) => {},
    }
}

/// Stack-shape invariant: at every suspension point there are exactly as
/// many sink values as open frames; while a just-produced value is in
/// flight there is exactly one more sink value than open frames; and the
/// sink holds exactly one value precisely when no frame stays open — the
/// top-level value is then complete.
pub proof fn lemma_stack_shape(st: StateModel)
    requires
        state_wf(st),
    ensures
        st.vals.len() == st.frames.len(),
        match one_value(st.src, st.pos, st.frames, st.vals) {
            ValueScan::Found { pos, frames, vals } => {
                &&& vals.len() == frames.len() + 1
                &&& (frames.len() == 0 <==> vals.len() == 1)
            },
            ValueScan::Failed(_) => true,
        },
        machine_step(st) matches StepScan::More(st2) ==> state_wf(st2),
{
    lemma_one_value(st.src, st.pos, st.frames, st.vals);
    lemma_machine_step(st);
}

/// Monotonic cursor: across every step the cursor never decreases and
/// never leaves the buffer, whether the step suspends or completes.
pub proof fn lemma_cursor_monotone(st: StateModel)
    requires
        state_wf(st),
    ensures
        match machine_step(st) {
            StepScan::More(st2) => st.pos <= st2.pos && st2.pos <= st2.src.len() && st2.src
                == st.src,
            StepScan::Done { pos, value } => st.pos <= pos <= st.src.len(),
            StepScan::Failed(_) => true,
        },
{
    lemma_machine_step(st);
}

/// Outcome of running the machine to completion.
pub enum RunScan {
    /// The decoded top-level value.
    Done(ValueModel),
    /// The input is malformed.
    Failed(Error),
}

/// Run the machine from `st` until it finishes or fails: the meaning of an
/// unbounded decode, and the reference every budgeted run is held to.
pub open spec fn machine_run(st: StateModel) -> RunScan
    decreases st.src.len() - st.pos when state_wf(st) via machine_run_decreases
{
    match machine_step(st) {
        StepScan::Done { value, .. } => RunScan::Done(value),
        StepScan::Failed(e) => RunScan::Failed(e),
        StepScan::More(st2) => machine_run(st2),
    }
}

#[via_fn]
proof fn machine_run_decreases(st: StateModel) {
    lemma_machine_step(st);
}

/// Run the machine for at most `k` steps: `More` carries the state to
/// resume from when the budget ran out first.
pub open spec fn machine_run_budget(st: StateModel, k: nat) -> StepScan
    decreases k,
{
    if k == 0 {
        StepScan::More(st)
    } else {
        match machine_step(st) {
            StepScan::More(st2) => machine_run_budget(st2, (k - 1) as nat),
            r => r,
        }
    }
}

/// Run the machine under a schedule of budgets, resuming after each
/// exhausted slice from exactly the state it left: `More` carries the
/// state left when the whole schedule ran out first.
pub open spec fn machine_run_schedule(st: StateModel, sched: Seq<nat>) -> StepScan
    decreases sched.len(),
{
    if sched.len() == 0 {
        StepScan::More(st)
    } else {
        match machine_run_budget(st, sched[0]) {
            StepScan::More(st2) => machine_run_schedule(st2, sched.drop_first()),
            r => r,
        }
    }
}

/// A budgeted run agrees with the unbounded run: whatever it finishes or
/// fails with is what the unbounded run gives, and when the budget runs
/// out first the state it suspends in still runs to the same outcome.
pub proof fn lemma_budget_preserves_run(st: StateModel, k: nat)
    requires
        state_wf(st),
    ensures
        match machine_run_budget(st, k) {
            StepScan::More(st2) => state_wf(st2) && st2.src == st.src && st.pos <= st2.pos
                && machine_run(st2) == machine_run(st),
            StepScan::Done { value, .. } => machine_run(st) == RunScan::Done(value),
            StepScan::Failed(e) => machine_run(st) == RunScan::Failed(e),
        },
    decreases k,
{
    if k > 0 {
        lemma_machine_step(st);
        match machine_step(st) {
            StepScan::More(st2) => {
                lemma_budget_preserves_run(st2, (k - 1) as nat);
            },
            _ => {},
        }
    }
}

/// Idempotence of resumption: splitting a decode at any sequence of
/// budget cut-points yields the same result (value or error) as a single
/// unbounded decode, and a schedule that runs out before completion
/// leaves a state from which the rest of the decode still yields it.
pub proof fn lemma_resumption_idempotent(st: StateModel, sched: Seq<nat>)
    requires
        state_wf(st),
    ensures
        match machine_run_schedule(st, sched) {
            StepScan::More(st2) => state_wf(st2) && st2.src == st.src && st.pos <= st2.pos
                && machine_run(st2) == machine_run(st),
            StepScan::Done { value, .. } => machine_run(st) == RunScan::Done(value),
            StepScan::Failed(e) => machine_run(st) == RunScan::Failed(e),
        },
    decreases sched.len(),
{
    if sched.len() > 0 {
        lemma_budget_preserves_run(st, sched[0]);
        match machine_run_budget(st, sched[0]) {
            StepScan::More(st2) => {
                lemma_resumption_idempotent(st2, sched.drop_first());
            },
            _ => {},
        }
    }
}

/// Copy of the bytes of `s` in `[start, end)`.
fn copy_range(s: &Vec<u8>, start: usize, end: usize) -> (r: Vec<u8>)
    requires
        start <= end <= s@.len(),
    ensures
        r@ == s@.subrange(start as int, end as int),
{
    let mut out: Vec<u8> = Vec::new();
    let mut k = start;
    while k < end
        invariant
            start <= k <= end <= s@.len(),
            out@ == s@.subrange(start as int, k as int),
        decreases end - k,
    {
        out.push(s[k]);
        proof {
            assert(s@.subrange(start as int, k + 1) =~= s@.subrange(start as int, k as int).push(
                s@[k as int],
            ));
        }
        k = k + 1;
    }
    out
}

/// Whether the lexeme contains `.`, `e` or `E`.
fn has_float_marker_in(lex: &Vec<u8>) -> (r: bool)
    ensures
        r == has_float_marker(lex@),
{
    let mut k: usize = 0;
    while k < lex.len()
        invariant
            0 <= k <= lex@.len(),
            forall|t: int| 0 <= t < k ==> !is_float_marker_byte(#[trigger] lex@[t]),
        decreases lex@.len() - k,
    {
        let b = lex[k];
        if b == 46 || b == 101 || b == 69 {
            return true;
        }
        k = k + 1;
    }
    false
}

/// First position at or after `i` in `lex` holding a non-digit byte.
fn digits_end_from(lex: &Vec<u8>, i: usize) -> (r: usize)
    requires
        i <= lex@.len(),
    ensures
        r == digits_end(lex@, i as int),
        i <= r <= lex@.len(),
{
    let mut k = i;
    let n = lex.len();
    while k < n && lex[k] >= 48 && lex[k] <= 57
        invariant
            i <= k <= n,
            n == lex@.len(),
            digits_end(lex@, i as int) == digits_end(lex@, k as int),
        decreases n - k,
    {
        proof {
            assert(digits_end(lex@, k as int) == digits_end(lex@, k + 1));
        }
        k = k + 1;
    }
    k
}

/// Whether positions `i` onward of `lex` are a valid exponent suffix, per
/// [`exp_valid_from`].
fn exp_check_from(lex: &Vec<u8>, i: usize) -> (r: bool)
    requires
        i <= lex@.len(),
    ensures
        r == exp_valid_from(lex@, i as int),
{
    let n = lex.len();
    if i == n {
        return true;
    }
    let b = lex[i];
    if b != 101 && b != 69 {
        return false;
    }
    let j: usize = if i + 1 < n && (lex[i + 1] == 43 || lex[i + 1] == 45) {
        i + 2
    } else {
        i + 1
    };
    if j > n {
        return false;
    }
    let d = digits_end_from(lex, j);
    d > j && d == n
}

/// Whether the lexeme is a valid floating-point literal, per
/// [`float_lexeme_valid`].
fn float_lexeme_check(lex: &Vec<u8>) -> (r: bool)
    ensures
        r == float_lexeme_valid(lex@),
{
    let n = lex.len();
    let i0: usize = if n > 0 && (lex[0] == 43 || lex[0] == 45) {
        1
    } else {
        0
    };
    if i0 > n {
        return false;
    }
    let d1 = digits_end_from(lex, i0);
    if d1 > i0 {
        if d1 < n && lex[d1] == 46 {
            let d2 = digits_end_from(lex, d1 + 1);
            exp_check_from(lex, d2)
        } else {
            exp_check_from(lex, d1)
        }
    } else if i0 < n && lex[i0] == 46 {
        let d2 = digits_end_from(lex, i0 + 1);
        if d2 > i0 + 1 {
            exp_check_from(lex, d2)
        } else {
            false
        }
    } else {
        false
    }
}

/// Parse the lexeme as a 64-bit signed integer, per [`int_result`]:
/// `None` on bad shape or overflow.
fn int_from_lexeme(lex: &Vec<u8>) -> (r: Option<i64>)
    ensures
        ({
            match r {
                Some(v) => int_result(lex@) == Some(v as int),
                None => int_result(lex@) is None,
            }
        }),
{
    let n = lex.len();
    let mut k: usize = 0;
    let mut neg = false;
    if n > 0 && (lex[0] == 43 || lex[0] == 45) {
        neg = lex[0] == 45;
        k = 1;
    }
    let ghost ds = k as int;
    let ghost full = lex@.subrange(ds, n as int);
    proof {
        assert(int_digits(lex@) =~= full);
        assert(int_negative(lex@) == neg);
    }
    if k >= n {
        return None;
    }
    let mut mag: u128 = 0;
    while k < n
        invariant
            0 <= ds <= k as int <= n as int,
            n == lex@.len(),
            full == lex@.subrange(ds, n as int),
            full.len() > 0,
            all_digits(lex@.subrange(ds, k as int)),
            mag == digits_value(lex@.subrange(ds, k as int)),
            mag <= 0x8000000000000000u128,
            int_digits(lex@) == full,
            int_negative(lex@) == neg,
        decreases n - k,
    {
        let b = lex[k];
        if b < 48 || b > 57 {
            proof {
                assert(!is_digit(full[k - ds]));
                assert(!int_lexeme_ok(lex@));
            }
            return None;
        }
        proof {
            assert(lex@.subrange(ds, k + 1).drop_last() =~= lex@.subrange(ds, k as int));
            assert(lex@.subrange(ds, k + 1).last() == lex@[k as int]);
        }
        mag = mag * 10 + ((b - 48) as u128);
        let ghost prefix = lex@.subrange(ds, k + 1);
        if mag > 0x8000000000000000u128 {
            proof {
                if all_digits(full) {
                    assert(full.take(k + 1 - ds) =~= prefix);
                    lemma_digits_prefix_le(full, k + 1 - ds);
                }
            }
            return None;
        }
        k = k + 1;
    }
    proof {
        assert(lex@.subrange(ds, k as int) =~= full);
        assert(int_lexeme_ok(lex@));
    }
    if neg {
        if mag == 0x8000000000000000u128 {
            Some(i64::MIN)
        } else {
            Some(-(mag as i64))
        }
    } else {
        if mag > 0x7fffffffffffffffu128 {
            proof {
                lemma_digits_value_nonneg(full);
            }
            None
        } else {
            Some(mag as i64)
        }
    }
}

/// Whether `value` can continue a numeric literal's greedy munch.
fn number_byte(value: u8) -> (r: bool)
    ensures
        r == is_number_byte(value),
{
    value == 43 || value == 45 || value == 46 || (48 <= value && value <= 57) || value == 69
        || value == 101
}

/// Whether `value` is one of the whitespace bytes the scanner skips.
pub fn is_whitespace(value: u8) -> (r: bool)
    ensures
        r == is_ws_byte(value),
{
    value == 9 || value == 10 || value == 13 || value == 32
}

/// The iterative JSON parser: source buffer, cursor and frame stack.
pub struct Parser {
    /// Source bytes being parsed.
    s: Vec<u8>,
    /// Current read position within the source.
    i: usize,
    /// Stack of still-open objects and arrays, outermost first.
    stack: Vec<Frame>,
}

impl Parser {
    /// The source buffer.
    pub closed spec fn src(self) -> Seq<u8> {
        self.s@
    }

    /// The cursor: index of the next unconsumed byte.
    pub closed spec fn pos(self) -> int {
        self.i as int
    }

    /// The models of the open-container frames, outermost first.
    pub closed spec fn frames(self) -> Seq<FrameModel> {
        frame_models(self.stack@)
    }

    /// The cursor never leaves the buffer.
    pub closed spec fn wf(self) -> bool {
        self.i <= self.s@.len()
    }

    /// The machine state this parser is suspended in, over a sink holding
    /// `vals`.
    pub open spec fn state_with(self, vals: Seq<ValueModel>) -> StateModel {
        StateModel { src: self.src(), pos: self.pos(), frames: self.frames(), vals }
    }

    /// A fresh parser over `s`, cursor at the start, no open containers.
    pub fn new(s: Vec<u8>) -> (p: Parser)
        ensures
            p.src() == s@,
            p.pos() == 0,
            p.frames() == Seq::<FrameModel>::empty(),
            p.wf(),
    {
        let p = Parser { s, i: 0, stack: Vec::new() };
        proof {
            assert(p.frames() =~= Seq::<FrameModel>::empty());
        }
        p
    }

    /// Push one frame onto the container stack.
    fn push(&mut self, value: Frame)
        ensures
            final(self).src() == old(self).src(),
            final(self).pos() == old(self).pos(),
            final(self).frames() == old(self).frames().push(value.model()),
            final(self).wf() == old(self).wf(),
    {
        let ghost v0 = self.stack@;
        self.stack.push(value);
        proof {
            assert(frame_models(self.stack@) =~= frame_models(v0).push(value.model()));
        }
    }

    /// Pop the top frame, if any.
    fn pop(&mut self) -> (r: Option<Frame>)
        ensures
            final(self).src() == old(self).src(),
            final(self).pos() == old(self).pos(),
            final(self).wf() == old(self).wf(),
            old(self).frames().len() == 0 ==> r is None && final(self).frames()
                == old(self).frames(),
            old(self).frames().len() > 0 ==> (r matches Some(f) && f.model()
                == old(self).frames().last() && final(self).frames()
                == old(self).frames().drop_last()),
    {
        let ghost v0 = self.stack@;
        let r = self.stack.pop();
        proof {
            if v0.len() > 0 {
                assert(frame_models(self.stack@) =~= frame_models(v0).drop_last());
            } else {
                assert(frame_models(self.stack@) =~= frame_models(v0));
            }
        }
        r
    }

    /// Whether the cursor has reached the end of the buffer.
    pub fn at_end(&self) -> (r: bool)
        ensures
            r == (self.pos() >= self.src().len()),
    {
        self.i >= self.s.len()
    }

    /// The byte at the cursor.
    pub fn peek_next_byte(&self) -> (r: u8)
        requires
            0 <= self.pos() < self.src().len(),
        ensures
            r == self.src()[self.pos()],
    {
        self.s[self.i]
    }

    /// Whether `stack` is the sink stack this parser was suspended with:
    /// one partial value per open frame, kinds matching. A resumption must
    /// hand back exactly the stack it was given; this is the shape check a
    /// caller can make before resuming.
    pub fn stack_compatible(&self, stack: &Vec<JsonValue>) -> (r: bool)
        requires
            self.wf(),
        ensures
            r == state_wf(self.state_with(models_of(stack@))),
    {
        if self.stack.len() != stack.len() {
            return false;
        }
        let mut k: usize = 0;
        while k < stack.len()
            invariant
                0 <= k <= stack@.len(),
                self.stack@.len() == stack@.len(),
                forall|t: int|
                    0 <= t < k ==> frame_matches(
                        #[trigger] frame_models(self.stack@)[t],
                        #[trigger] models_of(stack@)[t],
                    ),
            decreases stack@.len() - k,
        {
            proof {
                assert(models_of(stack@)[k as int] == stack@[k as int].model());
                assert(frame_models(self.stack@)[k as int] == self.stack@[k as int].model());
            }
            match &self.stack[k] {
                Frame::Array => {
                    match &stack[k] {
                        JsonValue::Array(_) => {},
                        _ => {
                            proof {
                                assert(!frame_matches(
                                    frame_models(self.stack@)[k as int],
                                    models_of(stack@)[k as int],
                                ));
                            }
                            return false;
                        },
                    }
                },
                Frame::Object { .. } => {
                    match &stack[k] {
                        JsonValue::Object(_) => {},
                        _ => {
                            proof {
                                assert(!frame_matches(
                                    frame_models(self.stack@)[k as int],
                                    models_of(stack@)[k as int],
                                ));
                            }
                            return false;
                        },
                    }
                },
            }
            k = k + 1;
        }
        true
    }

    /// Advance the cursor past whitespace.
    pub fn skip_ws(&mut self)
        requires
            old(self).wf(),
        ensures
            final(self).src() == old(self).src(),
            final(self).frames() == old(self).frames(),
            final(self).pos() == ws_end(old(self).src(), old(self).pos()),
            final(self).wf(),
    {
        let ghost s0 = self.s@;
        let ghost i0 = self.i as int;
        let ghost st0 = self.stack@;
        let n = self.s.len();
        while self.i < n && is_whitespace(self.s[self.i])
            invariant
                self.s@ == s0,
                self.stack@ == st0,
                n == s0.len(),
                0 <= i0 <= self.i as int <= s0.len(),
                ws_end(s0, i0) == ws_end(s0, self.i as int),
            decreases s0.len() - self.i,
        {
            proof {
                assert(ws_end(s0, self.i as int) == ws_end(s0, self.i + 1));
            }
            self.i = self.i + 1;
        }
    }

    /// Consume one string literal at the cursor (which must be on the
    /// opening quote) and return its body with escapes substituted, per
    /// [`scan_string`].
    pub fn parse_string(&mut self) -> (r: Result<Vec<u8>, Error>)
        requires
            old(self).wf(),
            0 <= old(self).pos() < old(self).src().len(),
            old(self).src()[old(self).pos()] == 34,
        ensures
            final(self).src() == old(self).src(),
            final(self).frames() == old(self).frames(),
            final(self).wf(),
            old(self).pos() <= final(self).pos() <= final(self).src().len(),
            ({
                match scan_string(old(self).src(), old(self).pos() + 1, Seq::<u8>::empty()) {
                    StringScan::Found { body, end } => r matches Ok(sv) && sv@ == body
                        && final(self).pos() == end,
                    StringScan::Failed(e) => r == Err::<Vec<u8>, Error>(e),
                }
            }),
    {
        let n = self.s.len();
        self.i = self.i + 1;
        let ghost s0 = self.s@;
        let ghost base = self.i as int;
        let mut strval: Vec<u8> = Vec::new();
        proof {
            assert(strval@ =~= Seq::<u8>::empty());
        }
        loop
            invariant
                self.s@ == old(self).src(),
                self.s@ == s0,
                self.stack@ == old(self).stack@,
                n == s0.len(),
                base == old(self).pos() + 1,
                0 <= base <= self.i as int <= s0.len(),
                scan_string(s0, base, Seq::<u8>::empty()) == scan_string(
                    s0,
                    self.i as int,
                    strval@,
                ),
            decreases s0.len() - self.i,
        {
            if self.i >= n {
                return Err(Error::UnterminatedString { offset: n });
            }
            let b = self.s[self.i];
            if b == 34 {
                self.i = self.i + 1;
                return Ok(strval);
            } else if b == 92 {
                if self.i + 1 >= n {
                    return Err(Error::UnterminatedString { offset: n });
                }
                let e = self.s[self.i + 1];
                if e == 117 {
                    return Err(Error::UnsupportedEscape { offset: self.i + 1 });
                }
                let out: u8 = if e == 34 {
                    34
                } else if e == 92 {
                    92
                } else if e == 47 {
                    47
                } else if e == 98 {
                    8
                } else if e == 102 {
                    12
                } else if e == 110 {
                    10
                } else if e == 114 {
                    13
                } else if e == 116 {
                    9
                } else {
                    return Err(Error::InvalidEscapeCharacter { offset: self.i + 1 });
                };
                proof {
                    assert(escape_byte(e) == Some(out));
                    assert(scan_string(s0, self.i as int, strval@) == scan_string(
                        s0,
                        self.i + 2,
                        strval@.push(out),
                    ));
                }
                strval.push(out);
                self.i = self.i + 2;
            } else if b < 32 || b == 127 {
                return Err(Error::UnexpectedControlCharacter { offset: self.i });
            } else {
                if b == 194 && self.i + 1 < n {
                    let nb = self.s[self.i + 1];
                    if 128 <= nb && nb <= 159 {
                        return Err(Error::UnexpectedControlCharacter { offset: self.i });
                    }
                }
                proof {
                    assert(!control_at(s0, self.i as int));
                    assert(scan_string(s0, self.i as int, strval@) == scan_string(
                        s0,
                        self.i + 1,
                        strval@.push(b),
                    ));
                }
                strval.push(b);
                self.i = self.i + 1;
            }
        }
    }

    /// Consume one object key at the cursor: whitespace, a quoted key,
    /// whitespace and the `:` separator, per [`scan_key`].
    pub fn parse_key(&mut self) -> (r: Result<Vec<u8>, Error>)
        requires
            old(self).wf(),
        ensures
            final(self).src() == old(self).src(),
            final(self).frames() == old(self).frames(),
            final(self).wf(),
            old(self).pos() <= final(self).pos() <= final(self).src().len(),
            ({
                match scan_key(old(self).src(), old(self).pos()) {
                    KeyScan::Found { key, end } => r matches Ok(kv) && kv@ == key
                        && final(self).pos() == end,
                    KeyScan::Failed(e) => r == Err::<Vec<u8>, Error>(e),
                }
            }),
    {
        proof {
            lemma_ws_end(self.s@, self.i as int);
        }
        self.skip_ws();
        if self.at_end() {
            return Err(Error::UnexpectedEndOfInput { offset: self.s.len() });
        }
        let b = self.peek_next_byte();
        if b != 34 {
            return Err(Error::UnexpectedToken { byte: b, offset: self.i });
        }
        let key = match self.parse_string() {
            Ok(k) => k,
            Err(e) => {
                return Err(e);
            },
        };
        proof {
            lemma_ws_end(self.s@, self.i as int);
        }
        self.skip_ws();
        if self.at_end() {
            return Err(Error::UnexpectedEndOfInput { offset: self.s.len() });
        }
        let c = self.peek_next_byte();
        if c != 58 {
            return Err(Error::UnexpectedToken { byte: c, offset: self.i });
        }
        proof {
            assert(self.s@.len() == self.s.len());
        }
        self.i = self.i + 1;
        Ok(key)
    }

    /// Advance by exactly one produced value, per [`one_value`]: scalars
    /// are pushed onto the sink at once; an opening bracket pushes a frame
    /// and flows into its first member; a closing bracket pops its frame
    /// and produces the finished container. On an error the cursor still
    /// never rewinds; frames and sink are meant to be discarded.
    pub fn parse_one_value<S: ValueSink>(&mut self, sink: &mut S) -> (r: Result<(), Error>)
        requires
            old(self).wf(),
        ensures
            final(self).src() == old(self).src(),
            final(self).wf(),
            old(self).pos() <= final(self).pos() <= final(self).src().len(),
            ({
                match one_value(
                    old(self).src(),
                    old(self).pos(),
                    old(self).frames(),
                    old(sink).stack_model(),
                ) {
                    ValueScan::Found { pos, frames, vals } => r == Ok::<(), Error>(())
                        && final(self).pos() == pos && final(self).frames() == frames
                        && final(sink).stack_model() == vals,
                    ValueScan::Failed(e) => r == Err::<(), Error>(e),
                }
            }),
    {
        let ghost s0 = self.s@;
        let n = self.s.len();
        loop
            invariant
                self.s@ == old(self).src(),
                self.s@ == s0,
                n == s0.len(),
                old(self).pos() <= self.i as int <= s0.len(),
                one_value(s0, old(self).pos(), old(self).frames(), old(sink).stack_model())
                    == one_value(s0, self.i as int, self.frames(), sink.stack_model()),
            decreases s0.len() - self.i,
        {
            let ghost i_iter = self.i as int;
            let ghost fr_iter = self.frames();
            let ghost vl_iter = sink.stack_model();
            self.skip_ws();
            proof {
                lemma_ws_end(s0, i_iter);
                assert(ws_end(s0, self.i as int) == self.i as int);
                assert(one_value(s0, i_iter, fr_iter, vl_iter) == one_value(
                    s0,
                    self.i as int,
                    fr_iter,
                    vl_iter,
                ));
            }
            let ghost j = self.i as int;
            if self.at_end() {
                return Err(Error::UnexpectedEndOfInput { offset: n });
            }
            let b = self.peek_next_byte();
            if b == 45 || (48 <= b && b <= 57) {
                let start = self.i;
                while self.i < n && number_byte(self.s[self.i])
                    invariant
                        self.s@ == s0,
                        frame_models(self.stack@) == fr_iter,
                        n == s0.len(),
                        start <= self.i as int <= s0.len(),
                        num_end(s0, start as int) == num_end(s0, self.i as int),
                    decreases s0.len() - self.i,
                {
                    proof {
                        assert(num_end(s0, self.i as int) == num_end(s0, self.i + 1));
                    }
                    self.i = self.i + 1;
                }
                proof {
                    assert(num_end(s0, j) == self.i as int);
                }
                let lex = copy_range(&self.s, start, self.i);
                if has_float_marker_in(&lex) {
                    if float_lexeme_check(&lex) {
                        sink.push_float(lex);
                        return Ok(());
                    } else {
                        return Err(Error::InvalidNumber { offset: self.i });
                    }
                } else {
                    match int_from_lexeme(&lex) {
                        Some(v) => {
                            sink.push_integer(v);
                            return Ok(());
                        },
                        None => {
                            return Err(Error::InvalidNumber { offset: self.i });
                        },
                    }
                }
            } else if b == 34 {
                match self.parse_string() {
                    Ok(sv) => {
                        sink.push_string(sv);
                        return Ok(());
                    },
                    Err(e) => {
                        return Err(e);
                    },
                }
            } else if b == 116 {
                if n - self.i >= 4 && self.s[self.i + 1] == 114 && self.s[self.i + 2] == 117
                    && self.s[self.i + 3] == 101 {
                    self.i = self.i + 4;
                    sink.push_bool(true);
                    return Ok(());
                } else {
                    return Err(Error::UnexpectedToken { byte: b, offset: self.i });
                }
            } else if b == 102 {
                if n - self.i >= 5 && self.s[self.i + 1] == 97 && self.s[self.i + 2] == 108
                    && self.s[self.i + 3] == 115 && self.s[self.i + 4] == 101 {
                    self.i = self.i + 5;
                    sink.push_bool(false);
                    return Ok(());
                } else {
                    return Err(Error::UnexpectedToken { byte: b, offset: self.i });
                }
            } else if b == 110 {
                if n - self.i >= 4 && self.s[self.i + 1] == 117 && self.s[self.i + 2] == 108
                    && self.s[self.i + 3] == 108 {
                    self.i = self.i + 4;
                    sink.push_nil();
                    return Ok(());
                } else {
                    return Err(Error::UnexpectedToken { byte: b, offset: self.i });
                }
            } else if b == 123 {
                self.i = self.i + 1;
                self.skip_ws();
                proof {
                    lemma_ws_end(s0, j + 1);
                }
                let ghost k = self.i as int;
                if !self.at_end() && self.peek_next_byte() == 125 {
                    self.i = self.i + 1;
                    sink.push_map();
                    return Ok(());
                } else {
                    proof {
                        assert(ws_end(s0, k) == k);
                        assert(scan_key(s0, j + 1) == scan_key(s0, k));
                    }
                    match self.parse_key() {
                        Ok(key) => {
                            sink.push_map();
                            self.push(Frame::Object { key: Some(key) });
                        },
                        Err(e) => {
                            return Err(e);
                        },
                    }
                }
            } else if b == 125 {
                let off = self.i;
                self.i = self.i + 1;
                match self.pop() {
                    Some(Frame::Object { key: None }) => {
                        sink.finalize_map();
                        return Ok(());
                    },
                    Some(other) => {
                        return Err(Error::UnmatchedBrace { offset: off });
                    },
                    None => {
                        return Err(Error::UnmatchedBrace { offset: off });
                    },
                }
            } else if b == 91 {
                self.i = self.i + 1;
                sink.push_array();
                self.push(Frame::Array);
            } else if b == 93 {
                let off = self.i;
                self.i = self.i + 1;
                match self.pop() {
                    Some(Frame::Array) => {
                        sink.finalize_array();
                        return Ok(());
                    },
                    Some(other) => {
                        return Err(Error::UnmatchedBracket { offset: off });
                    },
                    None => {
                        return Err(Error::UnmatchedBracket { offset: off });
                    },
                }
            } else {
                return Err(Error::UnexpectedToken { byte: b, offset: self.i });
            }
        }
    }

    /// Store the just-produced value (topping the sink) into the innermost
    /// open container, per [`store_step`], consuming a `,` and the next key
    /// where one is owed.
    fn store_value<S: ValueSink>(&mut self, sink: &mut S) -> (r: Result<(), Error>)
        requires
            old(self).wf(),
            old(self).frames().len() > 0,
            old(sink).stack_model().len() == old(self).frames().len() + 1,
            frames_vals_match(old(self).frames(), old(sink).stack_model()),
        ensures
            final(self).src() == old(self).src(),
            final(self).wf(),
            old(self).pos() <= final(self).pos() <= final(self).src().len(),
            ({
                match store_step(
                    old(self).src(),
                    old(self).pos(),
                    old(self).frames(),
                    old(sink).stack_model(),
                ) {
                    StoreScan::Stored { pos, frames, vals } => r == Ok::<(), Error>(())
                        && final(self).pos() == pos && final(self).frames() == frames
                        && final(sink).stack_model() == vals,
                    StoreScan::Failed(e) => r == Err::<(), Error>(e),
                }
            }),
    {
        let ghost fr0 = self.frames();
        let ghost vl0 = sink.stack_model();
        let popped = self.pop();
        match popped {
            Some(Frame::Object { key: Some(k) }) => {
                proof {
                    assert(fr0.last() == FrameModel::Object(Some(k@)));
                    assert(frame_matches(fr0[fr0.len() - 1], vl0[fr0.len() - 1]));
                }
                let ghost key_m = k@;
                sink.pop_insert_map(k);
                proof {
                    lemma_ws_end(self.s@, self.i as int);
                }
                self.skip_ws();
                if self.at_end() {
                    return Err(Error::UnexpectedEndOfInput { offset: self.s.len() });
                }
                let c = self.peek_next_byte();
                if c == 44 {
                    proof {
                        assert(self.s@.len() == self.s.len());
                    }
                    self.i = self.i + 1;
                    match self.parse_key() {
                        Ok(k2) => {
                            self.push(Frame::Object { key: Some(k2) });
                            proof {
                                assert(final(self).frames() =~= fr0.update(
                                    fr0.len() - 1,
                                    FrameModel::Object(Some(k2@)),
                                ));
                            }
                            Ok(())
                        },
                        Err(e) => Err(e),
                    }
                } else if c == 125 {
                    self.push(Frame::Object { key: None });
                    proof {
                        assert(final(self).frames() =~= fr0.update(
                            fr0.len() - 1,
                            FrameModel::Object(None),
                        ));
                    }
                    Ok(())
                } else {
                    Err(Error::ExpectedCommaOrBrace { offset: self.i })
                }
            },
            Some(Frame::Object { key: None }) => {
                proof {
                    lemma_ws_end(self.s@, self.i as int);
                }
                self.skip_ws();
                Err(Error::UnmatchedBrace { offset: self.i })
            },
            Some(Frame::Array) => {
                proof {
                    assert(fr0.last() == FrameModel::Array);
                    assert(frame_matches(fr0[fr0.len() - 1], vl0[fr0.len() - 1]));
                }
                sink.pop_insert_array();
                proof {
                    lemma_ws_end(self.s@, self.i as int);
                }
                self.skip_ws();
                if self.at_end() {
                    return Err(Error::UnexpectedEndOfInput { offset: self.s.len() });
                }
                let c = self.peek_next_byte();
                if c == 44 {
                    proof {
                        assert(self.s@.len() == self.s.len());
                    }
                    self.i = self.i + 1;
                    proof {
                        lemma_ws_end(self.s@, self.i as int);
                    }
                    self.skip_ws();
                    if !self.at_end() && self.peek_next_byte() == 93 {
                        return Err(Error::UnexpectedToken { byte: 93, offset: self.i });
                    }
                    proof {
                        assert(ws_end(self.s@, self.i as int) == self.i as int);
                    }
                    self.push(Frame::Array);
                    proof {
                        assert(final(self).frames() =~= fr0);
                    }
                    Ok(())
                } else if c == 93 {
                    self.push(Frame::Array);
                    proof {
                        assert(final(self).frames() =~= fr0);
                    }
                    Ok(())
                } else {
                    Err(Error::ExpectedCommaOrBracket { offset: self.i })
                }
            },
            None => {
                proof {
                    assert(false);
                }
                Err(Error::Busy)
            },
        }
    }

    /// After the top-level value is complete: skip whitespace and demand
    /// the end of the input, rejecting trailing non-whitespace data.
    pub fn finish(&mut self) -> (r: Result<(), Error>)
        requires
            old(self).wf(),
        ensures
            final(self).src() == old(self).src(),
            final(self).frames() == old(self).frames(),
            final(self).wf(),
            old(self).pos() <= final(self).pos() <= final(self).src().len(),
            final(self).pos() == ws_end(old(self).src(), old(self).pos()),
            ({
                let k = ws_end(old(self).src(), old(self).pos());
                if k < old(self).src().len() {
                    r == Err::<(), Error>(Error::TrailingData { offset: k as usize })
                } else {
                    r == Ok::<(), Error>(())
                }
            }),
    {
        proof {
            lemma_ws_end(self.s@, self.i as int);
        }
        self.skip_ws();
        if self.i < self.s.len() {
            return Err(Error::TrailingData { offset: self.i });
        }
        Ok(())
    }

    /// One full parser step, per [`machine_step`]: produce one value; when
    /// no frame stays open the top-level value is complete (`Ok(true)`,
    /// trailing data rejected, the sink holding exactly the result);
    /// otherwise store the value (`Ok(false)`) — the decode may suspend
    /// here and resume from exactly this parser and sink stack.
    pub fn parse<S: ValueSink>(&mut self, sink: &mut S) -> (r: Result<bool, Error>)
        requires
            old(self).wf(),
            old(sink).stack_model().len() == old(self).frames().len(),
            frames_vals_match(old(self).frames(), old(sink).stack_model()),
        ensures
            final(self).src() == old(self).src(),
            final(self).wf(),
            old(self).pos() <= final(self).pos() <= final(self).src().len(),
            ({
                let st = StateModel {
                    src: old(self).src(),
                    pos: old(self).pos(),
                    frames: old(self).frames(),
                    vals: old(sink).stack_model(),
                };
                match machine_step(st) {
                    StepScan::Done { pos, value } => r == Ok::<bool, Error>(true)
                        && final(self).pos() == pos && final(self).frames().len() == 0
                        && final(sink).stack_model() == seq![value],
                    StepScan::More(st2) => r == Ok::<bool, Error>(false)
                        && final(self).pos() == st2.pos && final(self).frames() == st2.frames
                        && final(sink).stack_model() == st2.vals,
                    StepScan::Failed(e) => r == Err::<bool, Error>(e),
                }
            }),
    {
        proof {
            lemma_one_value(
                self.s@,
                self.i as int,
                self.frames(),
                sink.stack_model(),
            );
        }
        match self.parse_one_value(sink) {
            Err(e) => {
                return Err(e);
            },
            Ok(()) => {},
        }
        if self.stack.len() == 0 {
            proof {
                assert(self.frames().len() == 0);
                assert(sink.stack_model() =~= seq![sink.stack_model().last()]);
            }
            match self.finish() {
                Err(e) => Err(e),
                Ok(()) => Ok(true),
            }
        } else {
            proof {
                assert(self.frames().len() > 0);
            }
            match self.store_value(sink) {
                Err(e) => Err(e),
                Ok(()) => Ok(false),
            }
        }
    }
}

} // verus!
