//! The executable scanning state machine.  Each function here is proved to
//! carry out exactly the transition its counterpart in [`crate::model`]
//! describes.

use vstd::prelude::*;
use vstd::string::StrSliceExecFns;
use vstd::string::StringExecFns;

use crate::error::ParseError;
use crate::model::digit_val;
use crate::model::false_lit;
use crate::model::init_state;
use crate::model::is_digit_char;
use crate::model::is_ws_char;
use crate::model::lemma_run_app;
use crate::model::lemma_run_snoc;
use crate::model::spec_append_character;
use crate::model::spec_apply_sign;
use crate::model::spec_checkset_string;
use crate::model::spec_commit_element;
use crate::model::spec_commit_pair;
use crate::model::spec_create_value;
use crate::model::spec_fill_value;
use crate::model::spec_finalize_member;
use crate::model::spec_fold_digit;
use crate::model::spec_make_flt;
use crate::model::spec_parse;
use crate::model::spec_run;
use crate::model::spec_step;
use crate::model::state_wf;
use crate::model::true_lit;
use crate::model::ArrayV;
use crate::model::PairV;
use crate::model::StateV;
use crate::object::ObjectMap;
use crate::object::JSON;
use crate::value::member_view;
use crate::value::member_wf;
use crate::value::number_wf;
use crate::value::scalar_view;
use crate::value::Booler;
use crate::value::Float;
use crate::value::Member;
use crate::value::MemberV;
use crate::value::Num;
use crate::value::Number;

verus! {

/// Relies on std's `String::push`: it appends exactly the one character.
pub assume_specification[ String::push ](s: &mut String, ch: char)
    ensures
        final(s)@ == old(s)@.push(ch),
;

/// The pair currently being accumulated: its key, its value, and the flags
/// that say whether the scan is inside the key or the value.
pub struct JSONPair {
    pub key: String,
    pub value: Member,
    pub current_key: bool,
    pub current_value: bool,
    pub is_escaped: bool,
}

/// The array currently being accumulated: the finished elements, the element
/// in progress, and whether an array is active.
pub struct Array {
    pub value: Vec<Member>,
    pub data: Member,
    pub is_array: bool,
    pub is_escaped: bool,
}

impl View for JSONPair {
    type V = PairV;

    open spec fn view(&self) -> PairV {
        PairV {
            key: self.key@,
            value: member_view(self.value),
            current_key: self.current_key,
            current_value: self.current_value,
            is_escaped: self.is_escaped,
        }
    }
}

impl View for Array {
    type V = ArrayV;

    open spec fn view(&self) -> ArrayV {
        ArrayV {
            value: Seq::new(self.value@.len(), |i: int| scalar_view(self.value@[i])),
            data: member_view(self.data),
            is_array: self.is_array,
            is_escaped: self.is_escaped,
        }
    }
}

/// The abstract state the three mutable pieces of a scan stand for.
pub open spec fn machine_view(p: JSONPair, j: JSON, a: Array) -> StateV {
    StateV { pair: p@, json: j@, arr: a@ }
}

/// The executable invariant of a scan: the abstract state is well formed and
/// the object's entry vector keeps its keys unique.
pub open spec fn machine_wf(p: JSONPair, j: JSON, a: Array) -> bool {
    &&& state_wf(machine_view(p, j, a))
    &&& j.map.wf()
}

/// Whether `c` is an ASCII whitespace character.
fn ws_char(c: char) -> (b: bool)
    ensures
        b == is_ws_char(c),
{
    c == ' ' || c == '\t' || c == '\n' || c == '\x0c' || c == '\r'
}

/// Whether `c` is a decimal digit.
fn digit_char(c: char) -> (b: bool)
    ensures
        b == is_digit_char(c),
{
    c >= '0' && c <= '9'
}

/// The value of a decimal digit character.
fn digit_of(c: char) -> (d: u32)
    requires
        is_digit_char(c),
    ensures
        d == digit_val(c),
{
    (c as u32) - 48
}

/// Move a member out of a mutable slot, leaving the slot empty.
fn take_member(m: &mut Member) -> (r: Member)
    ensures
        r == *old(m),
        *final(m) == Member::Empty,
{
    let mut t = Member::Empty;
    core::mem::swap(m, &mut t);
    t
}

/// The deferred-sign step: negate a signed magnitude or mark a floating
/// value negative, once, at a boundary.
fn apply_sign(n: Number) -> (r: Number)
    requires
        number_wf(n),
    ensures
        r == spec_apply_sign(n),
        number_wf(r),
{
    if !n.is_negative {
        n
    } else {
        let v = match n.value {
            Num::Int(i) => Num::Int(-i),
            Num::Flt(f) => Num::Flt(
                Float { mantissa: f.mantissa, scale: f.scale, negative: true },
            ),
            _ => n.value,
        };
        Number { value: v, digit: n.digit, is_negative: false }
    }
}

/// Finalize a value at a boundary: apply a number's deferred sign.
fn finalize_member(m: Member) -> (r: Member)
    requires
        member_wf(member_view(m)),
    ensures
        member_view(r) == spec_finalize_member(member_view(m)),
        member_wf(member_view(r)),
        (r is Arr) == (m is Arr),
    {
    match m {
        Member::Num(n) => Member::Num(apply_sign(n)),
        _ => m,
    }
}

/// Decode one character of a string: append it, or arm or resolve the
/// escape flag.
pub fn append_character(current_char: char, stringer: &String, is_escaped: bool) -> (r: Result<
    (String, bool),
    ParseError,
>)
    ensures
        r is Ok,
        (r->Ok_0.0@, r->Ok_0.1) == spec_append_character(stringer@, is_escaped, current_char),
{
    let mut out = stringer.clone();
    if !is_escaped {
        if current_char == '\\' {
            return Ok((out, true));
        }
        out.push(current_char);
        return Ok((out, false));
    }
    let decoded = if current_char == 'n' {
        '\n'
    } else if current_char == 't' {
        '\t'
    } else if current_char == 'r' {
        '\r'
    } else {
        current_char
    };
    out.push(decoded);
    Ok((out, false))
}

/// A quote's effect on a string accumulator: decode into an existing string,
/// or start a fresh empty one.
fn checkset_string(data: Member, is_escaped: bool, current_char: char) -> (r: Result<
    (Member, bool),
    ParseError,
>)
    ensures
        r is Ok,
        (member_view(r->Ok_0.0), r->Ok_0.1) == spec_checkset_string(
            member_view(data),
            is_escaped,
            current_char,
        ),
        member_wf(member_view(r->Ok_0.0)),
        !(r->Ok_0.0 is Arr),
{
    match data {
        Member::Str(s) => {
            match append_character(current_char, &s, is_escaped) {
                Ok((s2, e2)) => Ok((Member::Str(s2), e2)),
                Err(e) => Err(e),
            }
        },
        _ => Ok((Member::Str(String::new()), is_escaped)),
    }
}

/// Start a value from its first content character.
fn create_value(current_char: char) -> (r: Result<Member, ParseError>)
    ensures
        r is Ok,
        member_view(r->Ok_0) == spec_create_value(current_char),
        member_wf(member_view(r->Ok_0)),
        !(r->Ok_0 is Arr),
{
    if current_char == 't' {
        let truer = Booler {
            value: true,
            current: String::from_str("t"),
            correct: String::from_str("true"),
            index: 1,
        };
        proof {
            reveal_strlit("t");
            reveal_strlit("true");
            assert("t"@ =~= seq!['t']);
            assert("true"@ =~= true_lit());
            assert(true_lit().take(1) =~= seq!['t']);
        }
        Ok(Member::Bool(truer))
    } else if current_char == 'f' {
        let falser = Booler {
            value: false,
            current: String::from_str("f"),
            correct: String::from_str("false"),
            index: 1,
        };
        proof {
            reveal_strlit("f");
            reveal_strlit("false");
            assert("f"@ =~= seq!['f']);
            assert("false"@ =~= false_lit());
            assert(false_lit().take(1) =~= seq!['f']);
        }
        Ok(Member::Bool(falser))
    } else if current_char == '-' {
        Ok(Member::Num(Number { value: Num::Int(0), digit: 0, is_negative: true }))
    } else if digit_char(current_char) {
        Ok(
            Member::Num(
                Number { value: Num::Uint(digit_of(current_char)), digit: 1, is_negative: false },
            ),
        )
    } else {
        Ok(Member::Empty)
    }
}

/// Convert the number in progress to its floating kind.
fn make_flt(data: Member) -> (r: Result<Member, ParseError>)
    requires
        member_wf(member_view(data)),
    ensures
        r is Ok,
        member_view(r->Ok_0) == spec_make_flt(member_view(data)),
        member_wf(member_view(r->Ok_0)),
        (r->Ok_0 is Arr) == (data is Arr),
{
    match data {
        Member::Num(n) => {
            let v = match n.value {
                Num::Uint(u) => Num::Flt(Float { mantissa: u as u64, scale: 0, negative: false }),
                Num::Int(i) => {
                    if i >= 0 {
                        Num::Flt(Float { mantissa: i as u64, scale: 0, negative: false })
                    } else {
                        Num::Flt(
                            Float { mantissa: (-(i as i64)) as u64, scale: 0, negative: true },
                        )
                    }
                },
                _ => Num::Flt(Float { mantissa: 0, scale: 0, negative: false }),
            };
            Ok(Member::Num(Number { value: v, digit: 0, is_negative: n.is_negative }))
        },
        _ => Ok(data),
    }
}

/// Fold one decimal digit into a number accumulator, or report that the
/// magnitude no longer fits.
fn fold_digit(n: Number, d: u32) -> (r: Option<Number>)
    requires
        d <= 9,
    ensures
        r == spec_fold_digit(n, d),
{
    let digit = if n.digit < u32::MAX {
        n.digit + 1
    } else {
        n.digit
    };
    match n.value {
        Num::Uint(u) => {
            match u.checked_mul(10) {
                Some(m) => match m.checked_add(d) {
                    Some(next) => Some(
                        Number { value: Num::Uint(next), digit, is_negative: n.is_negative },
                    ),
                    None => None,
                },
                None => None,
            }
        },
        Num::Int(i) => {
            match i.checked_mul(10) {
                Some(m) => {
                    let stepped = if i >= 0 {
                        m.checked_add(d as i32)
                    } else {
                        m.checked_sub(d as i32)
                    };
                    match stepped {
                        Some(next) => Some(
                            Number { value: Num::Int(next), digit, is_negative: n.is_negative },
                        ),
                        None => None,
                    }
                },
                None => None,
            }
        },
        Num::Flt(f) => {
            if f.scale == u32::MAX {
                return None;
            }
            match f.mantissa.checked_mul(10) {
                Some(m) => match m.checked_add(d as u64) {
                    Some(next) => Some(
                        Number {
                            value: Num::Flt(
                                Float { mantissa: next, scale: f.scale + 1, negative: f.negative },
                            ),
                            digit,
                            is_negative: n.is_negative,
                        },
                    ),
                    None => None,
                },
                None => None,
            }
        },
        Num::Empty => Some(n),
    }
}

/// One non-structural character's effect on the value in progress.
fn fill_value(current_char: char, data: Member, escaped: bool) -> (r: Result<
    (Member, bool),
    ParseError,
>)
    requires
        member_wf(member_view(data)),
    ensures
        match spec_fill_value(current_char, member_view(data), escaped) {
            Ok(ve) => r is Ok && (member_view(r->Ok_0.0), r->Ok_0.1) == ve && member_wf(
                member_view(r->Ok_0.0),
            ) && !(r->Ok_0.0 is Arr),
            Err(e) => r == Err::<(Member, bool), ParseError>(e),
        },
{
    match data {
        Member::Str(s) => {
            match append_character(current_char, &s, escaped) {
                Ok((s2, e2)) => Ok((Member::Str(s2), e2)),
                Err(e) => Err(e),
            }
        },
        Member::Num(n) => {
            if ws_char(current_char) {
                Ok((Member::Num(apply_sign(n)), escaped))
            } else if !digit_char(current_char) {
                Err(ParseError::MalformedNumber)
            } else {
                match fold_digit(n, digit_of(current_char)) {
                    Some(n2) => Ok((Member::Num(n2), escaped)),
                    None => Err(ParseError::NumberTooLarge),
                }
            }
        },
        Member::Bool(b) => {
            if ws_char(current_char) {
                Ok((Member::Bool(b), escaped))
            } else {
                let len = b.correct.as_str().unicode_len();
                let cur_len = b.current.as_str().unicode_len();
                if cur_len >= len {
                    return Err(ParseError::MalformedBoolean);
                }
                let correct_char = b.correct.as_str().get_char(b.index);
                if current_char == correct_char {
                    let mut current = b.current;
                    current.push(current_char);
                    let index = if b.index < len - 1 {
                        b.index + 1
                    } else {
                        b.index
                    };
                    proof {
                        assert(b@.correct.take(b@.current.len() as int).push(
                            b@.correct[b@.index],
                        ) =~= b@.correct.take(b@.current.len() as int + 1));
                    }
                    Ok(
                        (
                            Member::Bool(
                                Booler { value: b.value, current, correct: b.correct, index },
                            ),
                            escaped,
                        ),
                    )
                } else {
                    Err(ParseError::MalformedBoolean)
                }
            }
        },
        _ => Ok((Member::Empty, escaped)),
    }
}

/// Append one character to the key being accumulated; a character that
/// arrives while no key is being accumulated is a malformed key.
fn fill_key(current_char: char, json_pair: &mut JSONPair) -> (r: Result<(), ParseError>)
    ensures
        old(json_pair).current_key ==> r is Ok && final(json_pair).key@ == old(
            json_pair,
        ).key@.push(current_char),
        !old(json_pair).current_key ==> r == Err::<(), ParseError>(ParseError::MalformedKey)
            && final(json_pair).key@ == old(json_pair).key@,
        final(json_pair).value == old(json_pair).value,
        final(json_pair).current_key == old(json_pair).current_key,
        final(json_pair).current_value == old(json_pair).current_value,
        final(json_pair).is_escaped == old(json_pair).is_escaped,
{
    if json_pair.current_key {
        json_pair.key.push(current_char);
        Ok(())
    } else {
        Err(ParseError::MalformedKey)
    }
}

/// Finalize the pair in progress and commit it into the object, then reset
/// the pair for the next key/value cycle.  A pair with an empty key or an
/// unstarted value is dropped rather than stored.
fn commit_pair(json_pair: &mut JSONPair, json: &mut JSON)
    requires
        member_wf(member_view(old(json_pair).value)),
        old(json).map.wf(),
    ensures
        ({
            let pre = StateV { pair: old(json_pair)@, json: old(json)@, arr: arbitrary() };
            let post = spec_commit_pair(pre);
            final(json_pair)@ == post.pair && final(json)@ == post.json
        }),
        final(json).map.wf(),
{
    let mut key = String::new();
    core::mem::swap(&mut json_pair.key, &mut key);
    let value = take_member(&mut json_pair.value);
    let value = finalize_member(value);
    json_pair.current_value = false;
    let started = !matches!(value, Member::Empty);
    if !key.as_str().is_empty() && started {
        json.map.insert(key, value);
    }
}

/// Finalize the array element in progress and append it to the finished
/// elements, unless no element was started.
fn commit_element(array: &mut Array)
    requires
        member_wf(member_view(old(array).data)),
        !(old(array).data is Arr),
        forall|i: int|
            0 <= i < old(array)@.value.len() ==> member_wf(#[trigger] old(array)@.value[i]) && !(
            old(array)@.value[i] is Arr),
    ensures
        final(array)@ == spec_commit_element(old(array)@),
        forall|i: int|
            0 <= i < final(array)@.value.len() ==> member_wf(#[trigger] final(array)@.value[i])
                && !(final(array)@.value[i] is Arr),
        final(array).data is Empty,
{
    let data = take_member(&mut array.data);
    let data = finalize_member(data);
    match data {
        Member::Empty => {
            proof {
                assert(array@ =~= spec_commit_element(old(array)@));
            }
        },
        _ => {
            let ghost old_elems = array@.value;
            let ghost pushed = member_view(data);
            array.value.push(data);
            proof {
                assert(array@.value =~= old_elems.push(pushed));
                assert(array@ =~= spec_commit_element(old(array)@));
            }
        },
    }
}

/// Toggle key accumulation on a quote seen outside any value.
fn check_key(json_pair: &mut JSONPair) -> (r: Result<(), ParseError>)
    ensures
        r is Ok,
        final(json_pair).current_key == !old(json_pair).current_key,
        final(json_pair).key == old(json_pair).key,
        final(json_pair).value == old(json_pair).value,
        final(json_pair).current_value == old(json_pair).current_value,
        final(json_pair).is_escaped == old(json_pair).is_escaped,
{
    if json_pair.current_key {
        json_pair.current_key = false;
    } else {
        json_pair.current_key = true;
    }
    Ok(())
}

/// Apply one character's state transition, or return the classified failure
/// that aborts the scan.  The effect on the three mutable pieces is exactly
/// the one [`spec_step`] describes.
pub fn parse_character(
    current_char: char,
    json_pair: &mut JSONPair,
    json: &mut JSON,
    array: &mut Array,
) -> (r: Result<(), ParseError>)
    requires
        machine_wf(*old(json_pair), *old(json), *old(array)),
    ensures
        ({
            let pre = machine_view(*old(json_pair), *old(json), *old(array));
            match spec_step(pre, current_char) {
                Ok(post) => r is Ok && machine_view(*final(json_pair), *final(json), *final(array))
                    == post && machine_wf(*final(json_pair), *final(json), *final(array)),
                Err(e) => r == Err::<(), ParseError>(e),
            }
        }),
{
    if !ws_char(current_char) && !json.current_object && current_char != '{' && current_char
        != '}' {
        return Err(ParseError::DocumentNotStarted);
    }
    match current_char {
        '{' => {
            json.current_object = true;
        },
        '}' => {
            if json.current_object {
                commit_pair(json_pair, json);
                json.current_object = false;
                json.is_json = true;
            } else {
                return Err(ParseError::UnmatchedClose);
            }
        },
        '[' => {
            if json_pair.current_value {
                array.is_array = true;
            }
        },
        ']' => {
            if json_pair.current_value {
                commit_element(array);
                array.is_array = false;
                json_pair.current_value = false;
                let mut elems: Vec<Member> = Vec::new();
                core::mem::swap(&mut array.value, &mut elems);
                json_pair.value = Member::Arr(elems);
                proof {
                    assert(array@.value =~= Seq::<MemberV>::empty());
                }
            }
        },
        '"' => {
            if array.is_array {
                let slot_empty = matches!(array.data, Member::Empty);
                let slot_str = matches!(array.data, Member::Str(_));
                if slot_empty || (slot_str && array.is_escaped) {
                    let d = take_member(&mut array.data);
                    match checkset_string(d, array.is_escaped, current_char) {
                        Ok((d2, e2)) => {
                            array.data = d2;
                            array.is_escaped = e2;
                        },
                        Err(e) => {
                            return Err(e);
                        },
                    }
                }
            } else if json_pair.current_value {
                let slot_empty = matches!(json_pair.value, Member::Empty);
                let slot_str = matches!(json_pair.value, Member::Str(_));
                if slot_empty || (slot_str && json_pair.is_escaped) {
                    let v = take_member(&mut json_pair.value);
                    match checkset_string(v, json_pair.is_escaped, current_char) {
                        Ok((v2, e2)) => {
                            json_pair.value = v2;
                            json_pair.is_escaped = e2;
                        },
                        Err(e) => {
                            return Err(e);
                        },
                    }
                } else if slot_str {
                    let close = match &json_pair.value {
                        Member::Str(s) => !s.as_str().is_empty(),
                        _ => false,
                    };
                    if close {
                        json_pair.current_value = false;
                    }
                }
            } else {
                match check_key(json_pair) {
                    Ok(()) => {},
                    Err(e) => {
                        return Err(e);
                    },
                }
            }
        },
        ':' => {
            if !json_pair.key.as_str().is_empty() {
                json_pair.current_value = true;
            }
        },
        ',' => {
            if array.is_array {
                commit_element(array);
            } else {
                commit_pair(json_pair, json);
            }
        },
        '.' => {
            if array.is_array {
                let d = take_member(&mut array.data);
                match make_flt(d) {
                    Ok(d2) => {
                        array.data = d2;
                    },
                    Err(e) => {
                        return Err(e);
                    },
                }
            } else if json_pair.current_value {
                let v = take_member(&mut json_pair.value);
                match make_flt(v) {
                    Ok(v2) => {
                        json_pair.value = v2;
                    },
                    Err(e) => {
                        return Err(e);
                    },
                }
            }
        },
        _ => {
            if ws_char(current_char) && !json_pair.current_value && !json_pair.current_key {
                return Ok(());
            }
            if json.current_object {
                if json_pair.current_value || array.is_array {
                    if array.is_array {
                        if matches!(array.data, Member::Empty) {
                            match create_value(current_char) {
                                Ok(d) => {
                                    array.data = d;
                                },
                                Err(e) => {
                                    return Err(e);
                                },
                            }
                        } else {
                            let d = take_member(&mut array.data);
                            match fill_value(current_char, d, array.is_escaped) {
                                Ok((d2, e2)) => {
                                    array.data = d2;
                                    array.is_escaped = e2;
                                },
                                Err(e) => {
                                    return Err(e);
                                },
                            }
                        }
                    } else {
                        if matches!(json_pair.value, Member::Empty) {
                            match create_value(current_char) {
                                Ok(v) => {
                                    json_pair.value = v;
                                },
                                Err(e) => {
                                    return Err(e);
                                },
                            }
                        } else {
                            let v = take_member(&mut json_pair.value);
                            match fill_value(current_char, v, json_pair.is_escaped) {
                                Ok((v2, e2)) => {
                                    json_pair.value = v2;
                                    json_pair.is_escaped = e2;
                                },
                                Err(e) => {
                                    return Err(e);
                                },
                            }
                        }
                    }
                } else if json_pair.current_key {
                    match fill_key(current_char, json_pair) {
                        Ok(()) => {},
                        Err(e) => {
                            return Err(e);
                        },
                    }
                } else {
                    return Err(ParseError::MalformedKey);
                }
            }
        },
    }
    Ok(())
}

/// Parse a whole document.  On success the returned object holds exactly
/// the committed pairs, with `is_json` true when a matching close was seen;
/// the parse fails with `NoDocumentFound` when the input ran out without an
/// object ever being opened, and with the scan's own failure when a
/// character could not be accepted.
pub fn parse_json(input: &str) -> (r: Result<JSON, ParseError>)
    ensures
        match spec_parse(input@) {
            Ok(jv) => r is Ok && r->Ok_0@ == jv && r->Ok_0.map.wf(),
            Err(e) => r == Err::<JSON, ParseError>(e),
        },
{
    let mut json = JSON { map: ObjectMap::new(), current_object: false, is_json: false };
    let mut json_pair = JSONPair {
        key: String::new(),
        value: Member::Empty,
        current_key: false,
        current_value: false,
        is_escaped: false,
    };
    let mut arr = Array {
        value: Vec::new(),
        data: Member::Empty,
        is_array: false,
        is_escaped: false,
    };
    proof {
        assert(arr@.value =~= Seq::<MemberV>::empty());
        assert(machine_view(json_pair, json, arr) =~= init_state());
        assert(input@.take(0) =~= Seq::<char>::empty());
    }
    let n = input.unicode_len();
    let mut i: usize = 0;
    while i < n
        invariant
            n == input@.len(),
            i <= n,
            machine_wf(json_pair, json, arr),
            spec_run(init_state(), input@.take(i as int)) == Ok::<StateV, ParseError>(
                machine_view(json_pair, json, arr),
            ),
        decreases n - i,
    {
        let c = input.get_char(i);
        let ghost prefix = input@.take(i as int);
        match parse_character(c, &mut json_pair, &mut json, &mut arr) {
            Ok(()) => {
                proof {
                    lemma_run_snoc(init_state(), prefix, c);
                    assert(input@.take(i + 1 as int) =~= prefix.push(c));
                }
            },
            Err(e) => {
                proof {
                    lemma_run_snoc(init_state(), prefix, c);
                    assert(prefix.push(c) =~= input@.take(i + 1 as int));
                    assert(input@ =~= input@.take(i + 1 as int) + input@.skip(i + 1 as int));
                    lemma_run_app(
                        init_state(),
                        input@.take(i + 1 as int),
                        input@.skip(i + 1 as int),
                    );
                }
                return Err(e);
            },
        }
        i += 1;
    }
    proof {
        assert(input@.take(n as int) =~= input@);
    }
    if !json.current_object && !json.is_json {
        return Err(ParseError::NoDocumentFound);
    }
    Ok(json)
}

} // verus!
