//! The mathematical model of the scanning state machine: the abstract scan
//! state, the one-character transition function, and its fold over an input.
//!
//! Every executable transition of the parser is proved equal to the
//! corresponding function here, so a whole parse is pinned down, character by
//! character, by [`spec_run`].

use vstd::prelude::*;

use crate::error::ParseError;
use crate::object::JsonV;
use crate::value::member_wf;
use crate::value::BoolerV;
use crate::value::Float;
use crate::value::MemberV;
use crate::value::Num;
use crate::value::Number;

verus! {

/// The ASCII whitespace characters: space, tab, line feed, form feed and
/// carriage return.
pub open spec fn is_ws_char(c: char) -> bool {
    c == ' ' || c == '\t' || c == '\n' || c == '\x0c' || c == '\r'
}

/// The decimal digits.
pub open spec fn is_digit_char(c: char) -> bool {
    '0' <= c && c <= '9'
}

/// The value of a decimal digit character.
pub open spec fn digit_val(c: char) -> u32 {
    (c as int - 48) as u32
}

/// The literal a `true` accumulator must match.
pub open spec fn true_lit() -> Seq<char> {
    seq!['t', 'r', 'u', 'e']
}

/// The literal a `false` accumulator must match.
pub open spec fn false_lit() -> Seq<char> {
    seq!['f', 'a', 'l', 's', 'e']
}

/// The view of a pair in progress: the key and value accumulated so far and
/// the mode flags of the scan.
#[verifier::ext_equal]
pub ghost struct PairV {
    pub key: Seq<char>,
    pub value: MemberV,
    pub current_key: bool,
    pub current_value: bool,
    pub is_escaped: bool,
}

/// The view of an array in progress: the finished elements, the element
/// being accumulated, and whether the array is active.
#[verifier::ext_equal]
pub ghost struct ArrayV {
    pub value: Seq<MemberV>,
    pub data: MemberV,
    pub is_array: bool,
    pub is_escaped: bool,
}

/// The whole abstract state of one scan.
#[verifier::ext_equal]
pub ghost struct StateV {
    pub pair: PairV,
    pub json: JsonV,
    pub arr: ArrayV,
}

/// The state a scan starts in: nothing open, nothing accumulated.
pub open spec fn init_state() -> StateV {
    StateV {
        pair: PairV {
            key: Seq::empty(),
            value: MemberV::Empty,
            current_key: false,
            current_value: false,
            is_escaped: false,
        },
        json: JsonV { map: Map::empty(), current_object: false, is_json: false },
        arr: ArrayV {
            value: Seq::empty(),
            data: MemberV::Empty,
            is_array: false,
            is_escaped: false,
        },
    }
}

/// Well-formedness of a scan state: every accumulated value is well formed
/// and the array element in progress is a scalar.
pub open spec fn state_wf(st: StateV) -> bool {
    &&& member_wf(st.pair.value)
    &&& member_wf(st.arr.data)
    &&& !(st.arr.data is Arr)
    &&& forall|i: int|
        0 <= i < st.arr.value.len() ==> member_wf(#[trigger] st.arr.value[i]) && !(st.arr.value[i]
            is Arr)
}

/// One character's effect on a string being decoded.  An unescaped backslash
/// only arms the escape flag; while the flag is armed the next character is
/// decoded (`n`, `t`, `r` become control characters, anything else stands for
/// itself) and the flag is cleared; any other character is appended verbatim.
pub open spec fn spec_append_character(s: Seq<char>, escaped: bool, c: char) -> (Seq<char>, bool) {
    if !escaped {
        if c == '\\' {
            (s, true)
        } else {
            (s.push(c), false)
        }
    } else {
        let d = if c == 'n' {
            '\n'
        } else if c == 't' {
            '\t'
        } else if c == 'r' {
            '\r'
        } else {
            c
        };
        (s.push(d), false)
    }
}

/// A quote's effect on a string accumulator: an existing string decodes the
/// character, anything else becomes a fresh empty string.
pub open spec fn spec_checkset_string(data: MemberV, escaped: bool, c: char) -> (MemberV, bool) {
    match data {
        MemberV::Str(s) => {
            let (s2, e2) = spec_append_character(s, escaped, c);
            (MemberV::Str(s2), e2)
        },
        _ => (MemberV::Str(Seq::empty()), escaped),
    }
}

/// The value started by the first content character: `t`/`f` start a boolean
/// literal, a digit starts an unsigned number, `-` starts a signed number
/// with the sign recorded but not yet applied, and any other character
/// leaves the value unstarted.
pub open spec fn spec_create_value(c: char) -> MemberV {
    if c == 't' {
        MemberV::Bool(BoolerV { value: true, current: seq!['t'], correct: true_lit(), index: 1 })
    } else if c == 'f' {
        MemberV::Bool(BoolerV { value: false, current: seq!['f'], correct: false_lit(), index: 1 })
    } else if c == '-' {
        MemberV::Num(Number { value: Num::Int(0), digit: 0, is_negative: true })
    } else if is_digit_char(c) {
        MemberV::Num(Number { value: Num::Uint(digit_val(c)), digit: 1, is_negative: false })
    } else {
        MemberV::Empty
    }
}

/// A digit counter saturates rather than wrap: it only records how many
/// digits were folded since the kind was chosen.
pub open spec fn inc_digit(d: u32) -> u32 {
    if d < u32::MAX {
        (d + 1) as u32
    } else {
        d
    }
}

/// Fold one decimal digit into a number accumulator by ordinary left-to-right
/// decimal accumulation, or report that the magnitude would no longer fit.
pub open spec fn spec_fold_digit(n: Number, d: u32) -> Option<Number> {
    match n.value {
        Num::Uint(u) => {
            let next = (u as int) * 10 + d;
            if next <= u32::MAX {
                Some(
                    Number {
                        value: Num::Uint(next as u32),
                        digit: inc_digit(n.digit),
                        is_negative: n.is_negative,
                    },
                )
            } else {
                None
            }
        },
        Num::Int(i) => {
            let next = if i >= 0 {
                (i as int) * 10 + d
            } else {
                (i as int) * 10 - d
            };
            if i32::MIN <= next <= i32::MAX {
                Some(
                    Number {
                        value: Num::Int(next as i32),
                        digit: inc_digit(n.digit),
                        is_negative: n.is_negative,
                    },
                )
            } else {
                None
            }
        },
        Num::Flt(f) => {
            let next = (f.mantissa as int) * 10 + d;
            if next <= u64::MAX && f.scale < u32::MAX {
                Some(
                    Number {
                        value: Num::Flt(
                            Float {
                                mantissa: next as u64,
                                scale: (f.scale + 1) as u32,
                                negative: f.negative,
                            },
                        ),
                        digit: inc_digit(n.digit),
                        is_negative: n.is_negative,
                    },
                )
            } else {
                None
            }
        },
        Num::Empty => Some(n),
    }
}

/// Apply the deferred sign once: a pending negative sign negates a signed
/// magnitude or marks a floating value negative, and the flag is cleared so
/// a later boundary cannot apply it again.  Unsigned numbers are unaffected.
pub open spec fn spec_apply_sign(n: Number) -> Number {
    if !n.is_negative {
        n
    } else {
        let v = match n.value {
            Num::Int(i) => Num::Int((-(i as int)) as i32),
            Num::Flt(f) => Num::Flt(
                Float { mantissa: f.mantissa, scale: f.scale, negative: true },
            ),
            _ => n.value,
        };
        Number { value: v, digit: n.digit, is_negative: false }
    }
}

/// Finalize a value at a boundary: numbers get their deferred sign applied,
/// everything else is already final.
pub open spec fn spec_finalize_member(m: MemberV) -> MemberV {
    match m {
        MemberV::Num(n) => MemberV::Num(spec_apply_sign(n)),
        _ => m,
    }
}

/// Convert the number in progress to a floating kind, keeping the magnitude
/// accumulated so far and restarting the digit count so later digits are
/// fractional.  A number already floating (or never started) restarts at
/// zero; anything that is not a number is unaffected.
pub open spec fn spec_make_flt(data: MemberV) -> MemberV {
    match data {
        MemberV::Num(n) => {
            let v = match n.value {
                Num::Uint(u) => Num::Flt(Float { mantissa: u as u64, scale: 0, negative: false }),
                Num::Int(i) => Num::Flt(
                    Float {
                        mantissa: (if i >= 0 {
                            i as int
                        } else {
                            -(i as int)
                        }) as u64,
                        scale: 0,
                        negative: i < 0,
                    },
                ),
                _ => Num::Flt(Float { mantissa: 0, scale: 0, negative: false }),
            };
            MemberV::Num(Number { value: v, digit: 0, is_negative: n.is_negative })
        },
        _ => data,
    }
}

/// One non-structural character's effect on the value in progress.  Strings
/// decode it; numbers fold a digit, finalize in place on whitespace, and
/// reject anything else; booleans skip whitespace and must match the next
/// literal character, with nothing accepted once the whole literal has been
/// matched; an unstarted or already-closed value swallows it.
pub open spec fn spec_fill_value(c: char, data: MemberV, escaped: bool) -> Result<
    (MemberV, bool),
    ParseError,
> {
    match data {
        MemberV::Str(s) => {
            let (s2, e2) = spec_append_character(s, escaped, c);
            Ok((MemberV::Str(s2), e2))
        },
        MemberV::Num(n) => {
            if is_ws_char(c) {
                Ok((MemberV::Num(spec_apply_sign(n)), escaped))
            } else if !is_digit_char(c) {
                Err(ParseError::MalformedNumber)
            } else {
                match spec_fold_digit(n, digit_val(c)) {
                    Some(n2) => Ok((MemberV::Num(n2), escaped)),
                    None => Err(ParseError::NumberTooLarge),
                }
            }
        },
        MemberV::Bool(b) => {
            if is_ws_char(c) {
                Ok((data, escaped))
            } else if b.current.len() >= b.correct.len() {
                Err(ParseError::MalformedBoolean)
            } else if 0 <= b.index < b.correct.len() && c == b.correct[b.index] {
                Ok(
                    (
                        MemberV::Bool(
                            BoolerV {
                                value: b.value,
                                current: b.current.push(c),
                                correct: b.correct,
                                index: if b.index < b.correct.len() - 1 {
                                    b.index + 1
                                } else {
                                    b.index
                                },
                            },
                        ),
                        escaped,
                    ),
                )
            } else {
                Err(ParseError::MalformedBoolean)
            }
        },
        _ => Ok((MemberV::Empty, escaped)),
    }
}

/// Finalize the pair in progress and commit it into the object: the deferred
/// sign is applied, and the pair is stored only if its key is non-empty and
/// its value was started; either way the pair is reset for the next cycle.
pub open spec fn spec_commit_pair(st: StateV) -> StateV {
    let v = spec_finalize_member(st.pair.value);
    let m = if st.pair.key.len() > 0 && !(v is Empty) {
        st.json.map.insert(st.pair.key, v)
    } else {
        st.json.map
    };
    StateV {
        pair: PairV {
            key: Seq::empty(),
            value: MemberV::Empty,
            current_key: st.pair.current_key,
            current_value: false,
            is_escaped: st.pair.is_escaped,
        },
        json: JsonV { map: m, current_object: st.json.current_object, is_json: st.json.is_json },
        arr: st.arr,
    }
}

/// Finalize the array element in progress and append it to the finished
/// elements, unless no element was started.
pub open spec fn spec_commit_element(a: ArrayV) -> ArrayV {
    let d = spec_finalize_member(a.data);
    let elems = if d is Empty {
        a.value
    } else {
        a.value.push(d)
    };
    ArrayV { value: elems, data: MemberV::Empty, is_array: a.is_array, is_escaped: a.is_escaped }
}

/// One character's effect on the whole scan state, or the classified failure
/// that aborts the scan.
pub open spec fn spec_step(st: StateV, c: char) -> Result<StateV, ParseError> {
    if !is_ws_char(c) && !st.json.current_object && c != '{' && c != '}' {
        Err(ParseError::DocumentNotStarted)
    } else if c == '{' {
        Ok(
            StateV {
                pair: st.pair,
                json: JsonV { map: st.json.map, current_object: true, is_json: st.json.is_json },
                arr: st.arr,
            },
        )
    } else if c == '}' {
        if st.json.current_object {
            let st2 = spec_commit_pair(st);
            Ok(
                StateV {
                    pair: st2.pair,
                    json: JsonV { map: st2.json.map, current_object: false, is_json: true },
                    arr: st2.arr,
                },
            )
        } else {
            Err(ParseError::UnmatchedClose)
        }
    } else if c == '[' {
        if st.pair.current_value {
            Ok(
                StateV {
                    pair: st.pair,
                    json: st.json,
                    arr: ArrayV {
                        value: st.arr.value,
                        data: st.arr.data,
                        is_array: true,
                        is_escaped: st.arr.is_escaped,
                    },
                },
            )
        } else {
            Ok(st)
        }
    } else if c == ']' {
        if st.pair.current_value {
            let a = spec_commit_element(st.arr);
            Ok(
                StateV {
                    pair: PairV {
                        key: st.pair.key,
                        value: MemberV::Arr(a.value),
                        current_key: st.pair.current_key,
                        current_value: false,
                        is_escaped: st.pair.is_escaped,
                    },
                    json: st.json,
                    arr: ArrayV {
                        value: Seq::empty(),
                        data: MemberV::Empty,
                        is_array: false,
                        is_escaped: st.arr.is_escaped,
                    },
                },
            )
        } else {
            Ok(st)
        }
    } else if c == '"' {
        if st.arr.is_array {
            match st.arr.data {
                MemberV::Empty => {
                    let (d, e) = spec_checkset_string(st.arr.data, st.arr.is_escaped, c);
                    Ok(
                        StateV {
                            pair: st.pair,
                            json: st.json,
                            arr: ArrayV {
                                value: st.arr.value,
                                data: d,
                                is_array: st.arr.is_array,
                                is_escaped: e,
                            },
                        },
                    )
                },
                MemberV::Str(_) => {
                    if st.arr.is_escaped {
                        let (d, e) = spec_checkset_string(st.arr.data, st.arr.is_escaped, c);
                        Ok(
                            StateV {
                                pair: st.pair,
                                json: st.json,
                                arr: ArrayV {
                                    value: st.arr.value,
                                    data: d,
                                    is_array: st.arr.is_array,
                                    is_escaped: e,
                                },
                            },
                        )
                    } else {
                        Ok(st)
                    }
                },
                _ => Ok(st),
            }
        } else if st.pair.current_value {
            match st.pair.value {
                MemberV::Empty => {
                    let (v, e) = spec_checkset_string(st.pair.value, st.pair.is_escaped, c);
                    Ok(
                        StateV {
                            pair: PairV {
                                key: st.pair.key,
                                value: v,
                                current_key: st.pair.current_key,
                                current_value: st.pair.current_value,
                                is_escaped: e,
                            },
                            json: st.json,
                            arr: st.arr,
                        },
                    )
                },
                MemberV::Str(s) => {
                    if st.pair.is_escaped {
                        let (v, e) = spec_checkset_string(st.pair.value, st.pair.is_escaped, c);
                        Ok(
                            StateV {
                                pair: PairV {
                                    key: st.pair.key,
                                    value: v,
                                    current_key: st.pair.current_key,
                                    current_value: st.pair.current_value,
                                    is_escaped: e,
                                },
                                json: st.json,
                                arr: st.arr,
                            },
                        )
                    } else if s.len() > 0 {
                        Ok(
                            StateV {
                                pair: PairV {
                                    key: st.pair.key,
                                    value: st.pair.value,
                                    current_key: st.pair.current_key,
                                    current_value: false,
                                    is_escaped: st.pair.is_escaped,
                                },
                                json: st.json,
                                arr: st.arr,
                            },
                        )
                    } else {
                        Ok(st)
                    }
                },
                _ => Ok(st),
            }
        } else {
            Ok(
                StateV {
                    pair: PairV {
                        key: st.pair.key,
                        value: st.pair.value,
                        current_key: !st.pair.current_key,
                        current_value: st.pair.current_value,
                        is_escaped: st.pair.is_escaped,
                    },
                    json: st.json,
                    arr: st.arr,
                },
            )
        }
    } else if c == ':' {
        if st.pair.key.len() > 0 {
            Ok(
                StateV {
                    pair: PairV {
                        key: st.pair.key,
                        value: st.pair.value,
                        current_key: st.pair.current_key,
                        current_value: true,
                        is_escaped: st.pair.is_escaped,
                    },
                    json: st.json,
                    arr: st.arr,
                },
            )
        } else {
            Ok(st)
        }
    } else if c == ',' {
        if st.arr.is_array {
            Ok(StateV { pair: st.pair, json: st.json, arr: spec_commit_element(st.arr) })
        } else {
            Ok(spec_commit_pair(st))
        }
    } else if c == '.' {
        if st.arr.is_array {
            Ok(
                StateV {
                    pair: st.pair,
                    json: st.json,
                    arr: ArrayV {
                        value: st.arr.value,
                        data: spec_make_flt(st.arr.data),
                        is_array: st.arr.is_array,
                        is_escaped: st.arr.is_escaped,
                    },
                },
            )
        } else if st.pair.current_value {
            Ok(
                StateV {
                    pair: PairV {
                        key: st.pair.key,
                        value: spec_make_flt(st.pair.value),
                        current_key: st.pair.current_key,
                        current_value: st.pair.current_value,
                        is_escaped: st.pair.is_escaped,
                    },
                    json: st.json,
                    arr: st.arr,
                },
            )
        } else {
            Ok(st)
        }
    } else {
        if is_ws_char(c) && !st.pair.current_value && !st.pair.current_key {
            Ok(st)
        } else if st.json.current_object {
            if st.pair.current_value || st.arr.is_array {
                if st.arr.is_array {
                    if st.arr.data is Empty {
                        Ok(
                            StateV {
                                pair: st.pair,
                                json: st.json,
                                arr: ArrayV {
                                    value: st.arr.value,
                                    data: spec_create_value(c),
                                    is_array: st.arr.is_array,
                                    is_escaped: st.arr.is_escaped,
                                },
                            },
                        )
                    } else {
                        match spec_fill_value(c, st.arr.data, st.arr.is_escaped) {
                            Ok((d, e)) => Ok(
                                StateV {
                                    pair: st.pair,
                                    json: st.json,
                                    arr: ArrayV {
                                        value: st.arr.value,
                                        data: d,
                                        is_array: st.arr.is_array,
                                        is_escaped: e,
                                    },
                                },
                            ),
                            Err(e) => Err(e),
                        }
                    }
                } else {
                    if st.pair.value is Empty {
                        Ok(
                            StateV {
                                pair: PairV {
                                    key: st.pair.key,
                                    value: spec_create_value(c),
                                    current_key: st.pair.current_key,
                                    current_value: st.pair.current_value,
                                    is_escaped: st.pair.is_escaped,
                                },
                                json: st.json,
                                arr: st.arr,
                            },
                        )
                    } else {
                        match spec_fill_value(c, st.pair.value, st.pair.is_escaped) {
                            Ok((v, e)) => Ok(
                                StateV {
                                    pair: PairV {
                                        key: st.pair.key,
                                        value: v,
                                        current_key: st.pair.current_key,
                                        current_value: st.pair.current_value,
                                        is_escaped: e,
                                    },
                                    json: st.json,
                                    arr: st.arr,
                                },
                            ),
                            Err(e) => Err(e),
                        }
                    }
                }
            } else if st.pair.current_key {
                Ok(
                    StateV {
                        pair: PairV {
                            key: st.pair.key.push(c),
                            value: st.pair.value,
                            current_key: st.pair.current_key,
                            current_value: st.pair.current_value,
                            is_escaped: st.pair.is_escaped,
                        },
                        json: st.json,
                        arr: st.arr,
                    },
                )
            } else {
                Err(ParseError::MalformedKey)
            }
        } else {
            Ok(st)
        }
    }
}

/// The fold of [`spec_step`] over an input, aborting on the first failure.
pub open spec fn spec_run(st: StateV, cs: Seq<char>) -> Result<StateV, ParseError>
    decreases cs.len(),
{
    if cs.len() == 0 {
        Ok(st)
    } else {
        match spec_step(st, cs[0]) {
            Ok(st2) => spec_run(st2, cs.drop_first()),
            Err(e) => Err(e),
        }
    }
}

/// What a whole parse returns: the final object of the scan, or the scan's
/// failure, or `NoDocumentFound` when the input ran out without any object
/// having been opened.
pub open spec fn spec_parse(cs: Seq<char>) -> Result<JsonV, ParseError> {
    match spec_run(init_state(), cs) {
        Ok(st) => {
            if st.json.current_object || st.json.is_json {
                Ok(st.json)
            } else {
                Err(ParseError::NoDocumentFound)
            }
        },
        Err(e) => Err(e),
    }
}

/// Running over a concatenation runs over each part in turn.
pub proof fn lemma_run_app(st: StateV, a: Seq<char>, b: Seq<char>)
    ensures
        spec_run(st, a + b) == match spec_run(st, a) {
            Ok(m) => spec_run(m, b),
            Err(e) => Err(e),
        },
    decreases a.len(),
{
    if a.len() == 0 {
        assert(a + b =~= b);
    } else {
        assert((a + b)[0] == a[0]);
        assert((a + b).drop_first() =~= a.drop_first() + b);
        match spec_step(st, a[0]) {
            Ok(st2) => {
                lemma_run_app(st2, a.drop_first(), b);
            },
            Err(_) => {},
        }
    }
}

/// A single character is one step.
pub proof fn lemma_run_one(st: StateV, c: char)
    ensures
        spec_run(st, seq![c]) == spec_step(st, c),
{
    assert(seq![c][0] == c);
    match spec_step(st, c) {
        Ok(st2) => {
            assert(seq![c].drop_first() =~= Seq::<char>::empty());
            assert(spec_run(st2, seq![c].drop_first()) == Ok::<StateV, ParseError>(st2));
        },
        Err(_) => {},
    }
}

/// Running one more character steps the state the run reached.
pub proof fn lemma_run_snoc(st: StateV, s: Seq<char>, c: char)
    ensures
        spec_run(st, s.push(c)) == match spec_run(st, s) {
            Ok(m) => spec_step(m, c),
            Err(e) => Err(e),
        },
{
    assert(s.push(c) =~= s + seq![c]);
    lemma_run_app(st, s, seq![c]);
    match spec_run(st, s) {
        Ok(m) => {
            lemma_run_one(m, c);
        },
        Err(_) => {},
    }
}

} // verus!
