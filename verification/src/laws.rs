//! The laws of the library: what rendering and re-parsing guarantee.
//!
//! The central results: scanning the escaped form of a string recovers the
//! string (the string round trip); and parsing the rendered document of any
//! list of renderable key/value pairs succeeds and yields exactly one entry
//! per key, the last written value winning — which gives both the shape of
//! every parsed flat document and the parse-render-parse idempotence.

use vstd::prelude::*;

use crate::error::ParseError;
use crate::model::digit_val;
use crate::model::false_lit;
use crate::model::init_state;
use crate::model::is_digit_char;
use crate::model::is_ws_char;
use crate::model::lemma_run_app;
use crate::model::lemma_run_one;
use crate::model::spec_append_character;
use crate::model::spec_apply_sign;
use crate::model::spec_checkset_string;
use crate::model::spec_commit_element;
use crate::model::spec_commit_pair;
use crate::model::spec_create_value;
use crate::model::spec_fill_value;
use crate::model::spec_finalize_member;
use crate::model::spec_fold_digit;
use crate::model::spec_make_flt;
use crate::model::spec_parse;
use crate::model::spec_run;
use crate::model::spec_step;
use crate::model::true_lit;
use crate::model::ArrayV;
use crate::model::PairV;
use crate::model::StateV;
use crate::object::entries_to_map;
use crate::object::lemma_entries_to_map_contains;
use crate::object::lemma_entries_to_map_last;
use crate::object::JSON;
use crate::object::JsonV;
use crate::render::dec_digits;
use crate::render::digit_char_of;
use crate::render::lemma_pow10_pos;
use crate::render::escape_char;
use crate::render::escape_string;
use crate::render::frac_digits;
use crate::render::pow10;
use crate::render::render_document;
use crate::render::render_elements;
use crate::render::render_entries;
use crate::render::render_num;
use crate::render::render_pair;
use crate::render::render_scalar;
use crate::render::render_value;
use crate::value::BoolerV;
use crate::value::Float;
use crate::value::MemberV;
use crate::value::Num;
use crate::value::Number;

verus! {

/// The characters the dispatcher treats as structure: they never reach a
/// string, key or number untouched.
pub open spec fn structural_char(c: char) -> bool {
    c == '{' || c == '}' || c == '[' || c == ']' || c == '"' || c == ':' || c == ',' || c == '.'
}

/// A character that passes through the scan as itself, inside a key or a
/// string.
pub open spec fn plain_char(c: char) -> bool {
    !structural_char(c) && c != '\\'
}

/// A key that renders faithfully: non-empty, of characters the key
/// accumulator takes verbatim.
pub open spec fn key_ok(k: Seq<char>) -> bool {
    k.len() > 0 && forall|i: int| 0 <= i < k.len() ==> plain_char(#[trigger] k[i])
}

/// A string content character that survives the round trip: either plain,
/// or one of the two characters the renderer escapes as themselves.
pub open spec fn string_char_ok(c: char) -> bool {
    plain_char(c) || c == '"' || c == '\\'
}

/// A string value that renders faithfully: non-empty (an empty string value
/// cannot be closed at the top level), of representable characters.
pub open spec fn str_ok(s: Seq<char>) -> bool {
    s.len() > 0 && forall|i: int| 0 <= i < s.len() ==> string_char_ok(#[trigger] s[i])
}

/// A committed number in the exact form the scan itself produces: sign
/// applied, digit counter matching the digits of its text, and a magnitude
/// whose whole part folds back without overflow.
pub open spec fn num_canon(n: Number) -> bool {
    &&& !n.is_negative
    &&& match n.value {
        Num::Uint(u) => n.digit == dec_digits(u as nat).len(),
        Num::Int(i) => i32::MIN < i < 0 && n.digit == dec_digits((-(i as int)) as nat).len(),
        Num::Flt(f) => n.digit == f.scale && (f.mantissa as nat) / pow10(f.scale as nat) <= (if f.negative {
            i32::MAX as nat
        } else {
            u32::MAX as nat
        }),
        Num::Empty => false,
    }
}

/// A committed boolean in the form the scan produces: the literal fully
/// matched, the index resting on its last character.
pub open spec fn bool_canon(b: BoolerV) -> bool {
    if b.value {
        b.correct == true_lit() && b.current == true_lit() && b.index == 3
    } else {
        b.correct == false_lit() && b.current == false_lit() && b.index == 4
    }
}

/// A scalar that renders faithfully.
pub open spec fn scalar_renderable(m: MemberV) -> bool {
    match m {
        MemberV::Str(s) => str_ok(s),
        MemberV::Num(n) => num_canon(n),
        MemberV::Bool(b) => bool_canon(b),
        _ => false,
    }
}

/// A value that renders faithfully: a renderable scalar, or an array of
/// renderable scalars.
pub open spec fn member_renderable(m: MemberV) -> bool {
    match m {
        MemberV::Arr(es) => forall|i: int|
            0 <= i < es.len() ==> scalar_renderable(#[trigger] es[i]),
        _ => scalar_renderable(m),
    }
}

/// An entry list all of whose keys and values render faithfully.
pub open spec fn entries_renderable(es: Seq<(Seq<char>, MemberV)>) -> bool {
    forall|i: int|
        0 <= i < es.len() ==> key_ok((#[trigger] es[i]).0) && member_renderable(es[i].1)
}

/// The string decoder folded over a whole text.
pub open spec fn append_seq(acc: Seq<char>, escaped: bool, cs: Seq<char>) -> (Seq<char>, bool)
    decreases cs.len(),
{
    if cs.len() == 0 {
        (acc, escaped)
    } else {
        let (acc2, e2) = spec_append_character(acc, escaped, cs[0]);
        append_seq(acc2, e2, cs.drop_first())
    }
}

/// Decoding a concatenation decodes each part in turn.
pub proof fn lemma_append_seq_app(acc: Seq<char>, escaped: bool, a: Seq<char>, b: Seq<char>)
    ensures
        append_seq(acc, escaped, a + b) == {
            let (acc2, e2) = append_seq(acc, escaped, a);
            append_seq(acc2, e2, b)
        },
    decreases a.len(),
{
    if a.len() == 0 {
        assert(a + b =~= b);
    } else {
        assert((a + b)[0] == a[0]);
        assert((a + b).drop_first() =~= a.drop_first() + b);
        let (acc2, e2) = spec_append_character(acc, escaped, a[0]);
        lemma_append_seq_app(acc2, e2, a.drop_first(), b);
    }
}

/// ROUND TRIP OF STRING CONTENT.  Decoding the escaped form of any
/// representable string, from any starting accumulator with no escape
/// pending, appends exactly the original content and leaves no escape
/// pending.
pub proof fn theorem_string_round_trip(acc: Seq<char>, s: Seq<char>)
    requires
        forall|i: int| 0 <= i < s.len() ==> string_char_ok(#[trigger] s[i]),
    ensures
        append_seq(acc, false, escape_string(s)) == (acc + s, false),
    decreases s.len(),
{
    if s.len() == 0 {
        assert(acc + s =~= acc);
    } else {
        let c = s[0];
        let rest = s.drop_first();
        lemma_append_seq_app(acc, false, escape_char(c), escape_string(rest));
        let (acc2, e2) = append_seq(acc, false, escape_char(c));
        if c == '"' || c == '\\' || c == '\n' || c == '\t' || c == '\r' {
            let e1 = escape_char(c);
            let y = e1[1];
            assert(e1.len() == 2 && e1[0] == '\\');
            assert(spec_append_character(acc, false, '\\') == (acc, true));
            assert(append_seq(acc, false, e1) == append_seq(acc, true, e1.drop_first()));
            assert(e1.drop_first()[0] == y);
            assert(spec_append_character(acc, true, y) == (acc.push(c), false));
            assert(e1.drop_first().drop_first() =~= Seq::<char>::empty());
            assert(append_seq(acc, true, e1.drop_first()) == append_seq(
                acc.push(c),
                false,
                e1.drop_first().drop_first(),
            ));
            assert((acc2, e2) == (acc.push(c), false));
        } else {
            assert(escape_char(c) =~= seq![c]);
            assert(spec_append_character(acc, false, c) == (acc.push(c), false));
            assert(seq![c].drop_first() =~= Seq::<char>::empty());
            assert(append_seq(acc, false, seq![c]) == append_seq(
                acc.push(c),
                false,
                seq![c].drop_first(),
            ));
            assert((acc2, e2) == (acc.push(c), false));
        }
        theorem_string_round_trip(acc.push(c), rest);
        assert(acc.push(c) + rest =~= acc + s);
    }
}

/// The value accumulator folded over a whole text.
pub open spec fn fill_seq(data: MemberV, escaped: bool, cs: Seq<char>) -> Result<
    (MemberV, bool),
    ParseError,
>
    decreases cs.len(),
{
    if cs.len() == 0 {
        Ok((data, escaped))
    } else {
        match spec_fill_value(cs[0], data, escaped) {
            Ok(ve) => fill_seq(ve.0, ve.1, cs.drop_first()),
            Err(e) => Err(e),
        }
    }
}

/// Every character of the text is a decimal digit.
pub open spec fn all_digits(ds: Seq<char>) -> bool {
    forall|i: int| 0 <= i < ds.len() ==> is_digit_char(#[trigger] ds[i])
}

/// The number a digit text denotes, read left to right.
pub open spec fn digits_val(ds: Seq<char>) -> nat
    decreases ds.len(),
{
    if ds.len() == 0 {
        0
    } else {
        (digit_val(ds[0]) as nat) * pow10((ds.len() - 1) as nat) + digits_val(ds.drop_first())
    }
}

/// Reading one more digit multiplies by ten and adds it.
pub proof fn lemma_digits_val_push(ds: Seq<char>, c: char)
    ensures
        digits_val(ds.push(c)) == digits_val(ds) * 10 + digit_val(c),
    decreases ds.len(),
{
    reveal_with_fuel(digits_val, 3);
    if ds.len() == 0 {
        assert(ds.push(c)[0] == c);
        assert(ds.push(c).drop_first() =~= Seq::<char>::empty());
        assert(pow10(0) == 1);
        assert((digit_val(c) as nat) * 1 == digit_val(c)) by (nonlinear_arith);
    } else {
        assert(ds.push(c)[0] == ds[0]);
        assert(ds.push(c).drop_first() =~= ds.drop_first().push(c));
        lemma_digits_val_push(ds.drop_first(), c);
        let d0 = digit_val(ds[0]) as nat;
        let l = (ds.len() - 1) as nat;
        let rest = digits_val(ds.drop_first());
        let dc = digit_val(c) as nat;
        assert(pow10((l + 1) as nat) == 10 * pow10(l));
        assert(d0 * (10 * pow10(l)) + (rest * 10 + dc) == (d0 * pow10(l) + rest) * 10 + dc)
            by (nonlinear_arith);
    }
}

/// A digit's character denotes the digit.
pub proof fn lemma_digit_char_val(d: nat)
    requires
        d < 10,
    ensures
        is_digit_char(crate::render::digit_char_of(d)),
        digit_val(crate::render::digit_char_of(d)) == d,
{
}

/// The decimal text of a number is all digits and denotes the number; it is
/// never empty, and it is short.
pub proof fn lemma_dec_digits(u: nat)
    ensures
        all_digits(dec_digits(u)),
        digits_val(dec_digits(u)) == u,
        1 <= dec_digits(u).len(),
        dec_digits(u).len() == 1 || dec_digits(u).len() <= u,
    decreases u,
{
    reveal_with_fuel(digits_val, 3);
    if u < 10 {
        lemma_digit_char_val(u);
        assert(dec_digits(u) =~= seq![digit_char_of(u)]);
        assert(seq![digit_char_of(u)].drop_first() =~= Seq::<char>::empty());
        assert(pow10(0) == 1);
        assert((digit_val(digit_char_of(u)) as nat) * 1 == u) by (nonlinear_arith)
            requires
                digit_val(digit_char_of(u)) == u,
        ;
    } else {
        lemma_dec_digits(u / 10);
        lemma_digit_char_val(u % 10);
        lemma_digits_val_push(dec_digits(u / 10), digit_char_of(u % 10));
        assert(forall|i: int|
            0 <= i < dec_digits(u).len() ==> is_digit_char(#[trigger] dec_digits(u)[i]));
        assert((u / 10) * 10 + u % 10 == u);
        assert(u / 10 + 1 <= u) by (nonlinear_arith)
            requires
                u >= 10,
        ;
    }
}

/// The fractional text of scale `k` has exactly `k` digits and denotes the
/// mantissa's remainder by ten to the `k`.
pub proof fn lemma_frac_digits(m: nat, k: nat)
    ensures
        all_digits(frac_digits(m, k)),
        frac_digits(m, k).len() == k,
        digits_val(frac_digits(m, k)) == m % pow10(k),
    decreases k,
{
    if k == 0 {
        assert(m % pow10(0) == 0) by (nonlinear_arith)
            requires
                pow10(0) == 1,
        ;
    } else {
        lemma_frac_digits(m / 10, (k - 1) as nat);
        lemma_digit_char_val(m % 10);
        lemma_digits_val_push(frac_digits(m / 10, (k - 1) as nat), crate::render::digit_char_of(
            m % 10,
        ));
        assert(forall|i: int|
            0 <= i < frac_digits(m, k).len() ==> is_digit_char(#[trigger] frac_digits(m, k)[i]));
        lemma_pow10_pos((k - 1) as nat);
        assert(pow10(k) == 10 * pow10((k - 1) as nat));
        let p1 = pow10((k - 1) as nat) as int;
        let p = pow10(k) as int;
        let q = (m / 10) as int;
        let r = (m % 10) as int;
        vstd::arithmetic::div_mod::lemma_fundamental_div_mod(q, p1);
        let a = q / p1;
        let b = q % p1;
        assert(q == p1 * a + b);
        assert(m == 10 * q + r);
        assert(10 * (p1 * a + b) == (10 * p1) * a + 10 * b) by (nonlinear_arith);
        assert(0 <= a) by (nonlinear_arith)
            requires
                q >= 0,
                p1 >= 1,
                q == p1 * a + b,
                0 <= b < p1,
        ;
        assert(10 * b + r < p) by (nonlinear_arith)
            requires
                b < p1,
                0 <= r < 10,
                p == 10 * p1,
        ;
        assert(m == a * p + (10 * b + r)) by (nonlinear_arith)
            requires
                m == 10 * q + r,
                q == p1 * a + b,
                p == 10 * p1,
        ;
        vstd::arithmetic::div_mod::lemma_fundamental_div_mod_converse(m as int, p, a, 10 * b + r);
        assert(digits_val(frac_digits(m, k)) == b * 10 + r);
    }
}

/// Folding a digit text into an unsigned accumulator multiplies it up and
/// adds the text's value, counting the digits, as long as the result fits.
pub proof fn lemma_fill_digits_uint(a: u32, dg: u32, ng: bool, esc: bool, ds: Seq<char>)
    requires
        all_digits(ds),
        (a as nat) * pow10(ds.len()) + digits_val(ds) <= u32::MAX,
        dg + ds.len() <= u32::MAX,
    ensures
        fill_seq(
            MemberV::Num(Number { value: Num::Uint(a), digit: dg, is_negative: ng }),
            esc,
            ds,
        ) == Ok::<(MemberV, bool), ParseError>(
            (
                MemberV::Num(
                    Number {
                        value: Num::Uint(((a as nat) * pow10(ds.len()) + digits_val(ds)) as u32),
                        digit: (dg + ds.len()) as u32,
                        is_negative: ng,
                    },
                ),
                esc,
            ),
        ),
    decreases ds.len(),
{
    if ds.len() == 0 {
        assert(digits_val(ds) == 0);
        assert(pow10(ds.len()) == 1);
        assert((a as nat) * pow10(ds.len()) + digits_val(ds) == a) by (nonlinear_arith)
            requires
                pow10(ds.len()) == 1,
                digits_val(ds) == 0,
        ;
    } else {
        let c = ds[0];
        let d = digit_val(c) as nat;
        let rest = ds.drop_first();
        let l = (ds.len() - 1) as nat;
        let restval = digits_val(rest);
        assert(is_digit_char(c));
        assert(!is_ws_char(c));
        assert(digits_val(ds) == d * pow10(l) + restval);
        lemma_pow10_pos(l);
        assert(pow10(ds.len()) == 10 * pow10(l));
        assert(((a as nat) * 10 + d) * pow10(l) + restval == (a as nat) * (10 * pow10(l)) + (d
            * pow10(l) + restval)) by (nonlinear_arith);
        assert((a as nat) * 10 + d <= ((a as nat) * 10 + d) * pow10(l) + restval)
            by (nonlinear_arith)
            requires
                pow10(l) >= 1,
        ;
        let next = ((a as nat) * 10 + d) as u32;
        assert(spec_fold_digit(
            Number { value: Num::Uint(a), digit: dg, is_negative: ng },
            digit_val(c),
        ) == Some(Number { value: Num::Uint(next), digit: (dg + 1) as u32, is_negative: ng }));
        lemma_fill_digits_uint(next, (dg + 1) as u32, ng, esc, rest);
    }
}

/// The signed analogue of [`lemma_fill_digits_uint`]: the magnitude is kept
/// non-negative and bounded by the signed maximum.
pub proof fn lemma_fill_digits_int(a: i32, dg: u32, ng: bool, esc: bool, ds: Seq<char>)
    requires
        all_digits(ds),
        a >= 0,
        (a as nat) * pow10(ds.len()) + digits_val(ds) <= i32::MAX,
        dg + ds.len() <= u32::MAX,
    ensures
        fill_seq(
            MemberV::Num(Number { value: Num::Int(a), digit: dg, is_negative: ng }),
            esc,
            ds,
        ) == Ok::<(MemberV, bool), ParseError>(
            (
                MemberV::Num(
                    Number {
                        value: Num::Int(((a as nat) * pow10(ds.len()) + digits_val(ds)) as i32),
                        digit: (dg + ds.len()) as u32,
                        is_negative: ng,
                    },
                ),
                esc,
            ),
        ),
    decreases ds.len(),
{
    if ds.len() == 0 {
        assert(digits_val(ds) == 0);
        assert(pow10(ds.len()) == 1);
        assert((a as nat) * pow10(ds.len()) + digits_val(ds) == a) by (nonlinear_arith)
            requires
                a >= 0,
                pow10(ds.len()) == 1,
                digits_val(ds) == 0,
        ;
    } else {
        let c = ds[0];
        let d = digit_val(c) as nat;
        let rest = ds.drop_first();
        let l = (ds.len() - 1) as nat;
        let restval = digits_val(rest);
        assert(is_digit_char(c));
        assert(!is_ws_char(c));
        assert(digits_val(ds) == d * pow10(l) + restval);
        lemma_pow10_pos(l);
        assert(pow10(ds.len()) == 10 * pow10(l));
        assert(((a as nat) * 10 + d) * pow10(l) + restval == (a as nat) * (10 * pow10(l)) + (d
            * pow10(l) + restval)) by (nonlinear_arith)
            requires
                a >= 0,
        ;
        assert((a as nat) * 10 + d <= ((a as nat) * 10 + d) * pow10(l) + restval)
            by (nonlinear_arith)
            requires
                pow10(l) >= 1,
        ;
        let next = ((a as nat) * 10 + d) as i32;
        assert(spec_fold_digit(
            Number { value: Num::Int(a), digit: dg, is_negative: ng },
            digit_val(c),
        ) == Some(Number { value: Num::Int(next), digit: (dg + 1) as u32, is_negative: ng }));
        lemma_fill_digits_int(next, (dg + 1) as u32, ng, esc, rest);
    }
}

/// The floating analogue: digits extend the mantissa and deepen the scale.
pub proof fn lemma_fill_digits_flt(f: Float, dg: u32, ng: bool, esc: bool, ds: Seq<char>)
    requires
        all_digits(ds),
        (f.mantissa as nat) * pow10(ds.len()) + digits_val(ds) <= u64::MAX,
        f.scale + ds.len() <= u32::MAX,
        dg + ds.len() <= u32::MAX,
    ensures
        fill_seq(
            MemberV::Num(Number { value: Num::Flt(f), digit: dg, is_negative: ng }),
            esc,
            ds,
        ) == Ok::<(MemberV, bool), ParseError>(
            (
                MemberV::Num(
                    Number {
                        value: Num::Flt(
                            Float {
                                mantissa: ((f.mantissa as nat) * pow10(ds.len()) + digits_val(
                                    ds,
                                )) as u64,
                                scale: (f.scale + ds.len()) as u32,
                                negative: f.negative,
                            },
                        ),
                        digit: (dg + ds.len()) as u32,
                        is_negative: ng,
                    },
                ),
                esc,
            ),
        ),
    decreases ds.len(),
{
    if ds.len() == 0 {
        assert(digits_val(ds) == 0);
        assert(pow10(ds.len()) == 1);
        assert((f.mantissa as nat) * pow10(ds.len()) + digits_val(ds) == f.mantissa)
            by (nonlinear_arith)
            requires
                pow10(ds.len()) == 1,
                digits_val(ds) == 0,
        ;
    } else {
        let c = ds[0];
        let d = digit_val(c) as nat;
        let rest = ds.drop_first();
        let l = (ds.len() - 1) as nat;
        let restval = digits_val(rest);
        assert(is_digit_char(c));
        assert(!is_ws_char(c));
        assert(digits_val(ds) == d * pow10(l) + restval);
        lemma_pow10_pos(l);
        assert(pow10(ds.len()) == 10 * pow10(l));
        assert(((f.mantissa as nat) * 10 + d) * pow10(l) + restval == (f.mantissa as nat) * (10
            * pow10(l)) + (d * pow10(l) + restval)) by (nonlinear_arith);
        assert((f.mantissa as nat) * 10 + d <= ((f.mantissa as nat) * 10 + d) * pow10(l) + restval)
            by (nonlinear_arith)
            requires
                pow10(l) >= 1,
        ;
        let f2 = Float {
            mantissa: ((f.mantissa as nat) * 10 + d) as u64,
            scale: (f.scale + 1) as u32,
            negative: f.negative,
        };
        assert(spec_fold_digit(
            Number { value: Num::Flt(f), digit: dg, is_negative: ng },
            digit_val(c),
        ) == Some(Number { value: Num::Flt(f2), digit: (dg + 1) as u32, is_negative: ng }));
        lemma_fill_digits_flt(f2, (dg + 1) as u32, ng, esc, rest);
    }
}

/// Feeding `rue` to a fresh `true` accumulator matches the literal out.
pub proof fn lemma_fill_true(esc: bool)
    ensures
        fill_seq(
            MemberV::Bool(
                BoolerV { value: true, current: seq!['t'], correct: true_lit(), index: 1 },
            ),
            esc,
            seq!['r', 'u', 'e'],
        ) == Ok::<(MemberV, bool), ParseError>(
            (
                MemberV::Bool(
                    BoolerV { value: true, current: true_lit(), correct: true_lit(), index: 3 },
                ),
                esc,
            ),
        ),
{
    reveal_with_fuel(fill_seq, 5);
    let cs = seq!['r', 'u', 'e'];
    let b1 = BoolerV { value: true, current: seq!['t'], correct: true_lit(), index: 1 };
    let b2 = BoolerV { value: true, current: seq!['t', 'r'], correct: true_lit(), index: 2 };
    let b3 = BoolerV { value: true, current: seq!['t', 'r', 'u'], correct: true_lit(), index: 3 };
    let b4 = BoolerV { value: true, current: true_lit(), correct: true_lit(), index: 3 };
    assert(!is_ws_char('r') && !is_ws_char('u') && !is_ws_char('e'));
    assert(cs[0] == 'r' && true_lit()[1] == 'r');
    assert(seq!['t'].push('r') =~= seq!['t', 'r']);
    assert(spec_fill_value('r', MemberV::Bool(b1), esc) == Ok::<(MemberV, bool), ParseError>(
        (MemberV::Bool(b2), esc),
    ));
    let cs2 = cs.drop_first();
    assert(cs2 =~= seq!['u', 'e']);
    assert(cs2[0] == 'u' && true_lit()[2] == 'u');
    assert(seq!['t', 'r'].push('u') =~= seq!['t', 'r', 'u']);
    assert(spec_fill_value('u', MemberV::Bool(b2), esc) == Ok::<(MemberV, bool), ParseError>(
        (MemberV::Bool(b3), esc),
    ));
    let cs3 = cs2.drop_first();
    assert(cs3 =~= seq!['e']);
    assert(cs3[0] == 'e' && true_lit()[3] == 'e');
    assert(seq!['t', 'r', 'u'].push('e') =~= true_lit());
    assert(spec_fill_value('e', MemberV::Bool(b3), esc) == Ok::<(MemberV, bool), ParseError>(
        (MemberV::Bool(b4), esc),
    ));
    assert(cs3.drop_first() =~= Seq::<char>::empty());
}

/// Feeding `alse` to a fresh `false` accumulator matches the literal out.
pub proof fn lemma_fill_false(esc: bool)
    ensures
        fill_seq(
            MemberV::Bool(
                BoolerV { value: false, current: seq!['f'], correct: false_lit(), index: 1 },
            ),
            esc,
            seq!['a', 'l', 's', 'e'],
        ) == Ok::<(MemberV, bool), ParseError>(
            (
                MemberV::Bool(
                    BoolerV { value: false, current: false_lit(), correct: false_lit(), index: 4 },
                ),
                esc,
            ),
        ),
{
    reveal_with_fuel(fill_seq, 6);
    let cs = seq!['a', 'l', 's', 'e'];
    let b1 = BoolerV { value: false, current: seq!['f'], correct: false_lit(), index: 1 };
    let b2 = BoolerV { value: false, current: seq!['f', 'a'], correct: false_lit(), index: 2 };
    let b3 = BoolerV { value: false, current: seq!['f', 'a', 'l'], correct: false_lit(), index: 3 };
    let b4 = BoolerV {
        value: false,
        current: seq!['f', 'a', 'l', 's'],
        correct: false_lit(),
        index: 4,
    };
    let b5 = BoolerV { value: false, current: false_lit(), correct: false_lit(), index: 4 };
    assert(!is_ws_char('a') && !is_ws_char('l') && !is_ws_char('s') && !is_ws_char('e'));
    assert(cs[0] == 'a' && false_lit()[1] == 'a');
    assert(seq!['f'].push('a') =~= seq!['f', 'a']);
    assert(spec_fill_value('a', MemberV::Bool(b1), esc) == Ok::<(MemberV, bool), ParseError>(
        (MemberV::Bool(b2), esc),
    ));
    let cs2 = cs.drop_first();
    assert(cs2 =~= seq!['l', 's', 'e']);
    assert(cs2[0] == 'l' && false_lit()[2] == 'l');
    assert(seq!['f', 'a'].push('l') =~= seq!['f', 'a', 'l']);
    assert(spec_fill_value('l', MemberV::Bool(b2), esc) == Ok::<(MemberV, bool), ParseError>(
        (MemberV::Bool(b3), esc),
    ));
    let cs3 = cs2.drop_first();
    assert(cs3 =~= seq!['s', 'e']);
    assert(cs3[0] == 's' && false_lit()[3] == 's');
    assert(seq!['f', 'a', 'l'].push('s') =~= seq!['f', 'a', 'l', 's']);
    assert(spec_fill_value('s', MemberV::Bool(b3), esc) == Ok::<(MemberV, bool), ParseError>(
        (MemberV::Bool(b4), esc),
    ));
    let cs4 = cs3.drop_first();
    assert(cs4 =~= seq!['e']);
    assert(cs4[0] == 'e' && false_lit()[4] == 'e');
    assert(seq!['f', 'a', 'l', 's'].push('e') =~= false_lit());
    assert(spec_fill_value('e', MemberV::Bool(b4), esc) == Ok::<(MemberV, bool), ParseError>(
        (MemberV::Bool(b5), esc),
    ));
    assert(cs4.drop_first() =~= Seq::<char>::empty());
}

/// A text of non-structural characters is routed, character by character,
/// to the value accumulator of the pair in progress.
pub proof fn lemma_run_fill_pair(st: StateV, cs: Seq<char>)
    requires
        st.json.current_object,
        st.pair.current_value,
        !st.arr.is_array,
        st.pair.value is Str || st.pair.value is Num || st.pair.value is Bool,
        forall|i: int| 0 <= i < cs.len() ==> !structural_char(#[trigger] cs[i]),
        fill_seq(st.pair.value, st.pair.is_escaped, cs) is Ok,
    ensures
        ({
            let ve = fill_seq(st.pair.value, st.pair.is_escaped, cs)->Ok_0;
            spec_run(st, cs) == Ok::<StateV, ParseError>(
                StateV {
                    pair: PairV {
                        key: st.pair.key,
                        value: ve.0,
                        current_key: st.pair.current_key,
                        current_value: true,
                        is_escaped: ve.1,
                    },
                    json: st.json,
                    arr: st.arr,
                },
            )
        }),
    decreases cs.len(),
{
    if cs.len() == 0 {
        assert(st =~= (StateV {
            pair: PairV {
                key: st.pair.key,
                value: st.pair.value,
                current_key: st.pair.current_key,
                current_value: true,
                is_escaped: st.pair.is_escaped,
            },
            json: st.json,
            arr: st.arr,
        }));
    } else {
        let c = cs[0];
        let r1 = spec_fill_value(c, st.pair.value, st.pair.is_escaped);
        match r1 {
            Ok(ve1) => {
                assert(ve1.0 is Str || ve1.0 is Num || ve1.0 is Bool);
                let st2 = StateV {
                    pair: PairV {
                        key: st.pair.key,
                        value: ve1.0,
                        current_key: st.pair.current_key,
                        current_value: true,
                        is_escaped: ve1.1,
                    },
                    json: st.json,
                    arr: st.arr,
                };
                assert(spec_step(st, c) == Ok::<StateV, ParseError>(st2));
                lemma_run_fill_pair(st2, cs.drop_first());
            },
            Err(_) => {
                assert(false);
            },
        }
    }
}

/// The array-mode analogue of [`lemma_run_fill_pair`]: the characters are
/// routed to the array's element accumulator.
pub proof fn lemma_run_fill_array(st: StateV, cs: Seq<char>)
    requires
        st.json.current_object,
        st.pair.current_value,
        st.arr.is_array,
        st.arr.data is Str || st.arr.data is Num || st.arr.data is Bool,
        forall|i: int| 0 <= i < cs.len() ==> !structural_char(#[trigger] cs[i]),
        fill_seq(st.arr.data, st.arr.is_escaped, cs) is Ok,
    ensures
        ({
            let ve = fill_seq(st.arr.data, st.arr.is_escaped, cs)->Ok_0;
            spec_run(st, cs) == Ok::<StateV, ParseError>(
                StateV {
                    pair: st.pair,
                    json: st.json,
                    arr: ArrayV {
                        value: st.arr.value,
                        data: ve.0,
                        is_array: true,
                        is_escaped: ve.1,
                    },
                },
            )
        }),
    decreases cs.len(),
{
    if cs.len() == 0 {
        assert(st =~= (StateV {
            pair: st.pair,
            json: st.json,
            arr: ArrayV {
                value: st.arr.value,
                data: st.arr.data,
                is_array: true,
                is_escaped: st.arr.is_escaped,
            },
        }));
    } else {
        let c = cs[0];
        let r1 = spec_fill_value(c, st.arr.data, st.arr.is_escaped);
        match r1 {
            Ok(ve1) => {
                assert(ve1.0 is Str || ve1.0 is Num || ve1.0 is Bool);
                let st2 = StateV {
                    pair: st.pair,
                    json: st.json,
                    arr: ArrayV {
                        value: st.arr.value,
                        data: ve1.0,
                        is_array: true,
                        is_escaped: ve1.1,
                    },
                };
                assert(spec_step(st, c) == Ok::<StateV, ParseError>(st2));
                lemma_run_fill_array(st2, cs.drop_first());
            },
            Err(_) => {
                assert(false);
            },
        }
    }
}

/// Scanning the escaped form of a string while a top-level string value is
/// open appends exactly the content and leaves no escape pending.
pub proof fn lemma_run_string_pair(st: StateV, s: Seq<char>)
    requires
        st.json.current_object,
        st.pair.current_value,
        !st.arr.is_array,
        st.pair.value is Str,
        !st.pair.is_escaped,
        forall|i: int| 0 <= i < s.len() ==> string_char_ok(#[trigger] s[i]),
    ensures
        spec_run(st, escape_string(s)) == Ok::<StateV, ParseError>(
            StateV {
                pair: PairV {
                    key: st.pair.key,
                    value: MemberV::Str(st.pair.value->Str_0 + s),
                    current_key: st.pair.current_key,
                    current_value: true,
                    is_escaped: false,
                },
                json: st.json,
                arr: st.arr,
            },
        ),
    decreases s.len(),
{
    let acc = st.pair.value->Str_0;
    if s.len() == 0 {
        assert(acc + s =~= acc);
        assert(st.pair.value == MemberV::Str(acc));
        assert(st =~= (StateV {
            pair: PairV {
                key: st.pair.key,
                value: MemberV::Str(acc + s),
                current_key: st.pair.current_key,
                current_value: true,
                is_escaped: false,
            },
            json: st.json,
            arr: st.arr,
        }));
    } else {
        let c = s[0];
        let rest = s.drop_first();
        lemma_run_app(st, escape_char(c), escape_string(rest));
        let st2 = StateV {
            pair: PairV {
                key: st.pair.key,
                value: MemberV::Str(acc.push(c)),
                current_key: st.pair.current_key,
                current_value: true,
                is_escaped: false,
            },
            json: st.json,
            arr: st.arr,
        };
        if c == '"' || c == '\\' || c == '\n' || c == '\t' || c == '\r' {
            let y = escape_char(c)[1];
            assert(escape_char(c) =~= seq!['\\'] + seq![y]);
            lemma_run_app(st, seq!['\\'], seq![y]);
            let st_a = StateV {
                pair: PairV {
                    key: st.pair.key,
                    value: MemberV::Str(acc),
                    current_key: st.pair.current_key,
                    current_value: true,
                    is_escaped: true,
                },
                json: st.json,
                arr: st.arr,
            };
            lemma_run_one(st, '\\');
            assert(spec_fill_value('\\', st.pair.value, false) == Ok::<
                (MemberV, bool),
                ParseError,
            >((MemberV::Str(acc), true)));
            assert(spec_step(st, '\\') == Ok::<StateV, ParseError>(st_a));
            lemma_run_one(st_a, y);
            if c == '"' {
                assert(spec_checkset_string(MemberV::Str(acc), true, '"') == (
                    MemberV::Str(acc.push('"')),
                    false,
                ));
                assert(spec_step(st_a, '"') == Ok::<StateV, ParseError>(st2));
            } else {
                assert(!structural_char(y));
                assert(spec_fill_value(y, MemberV::Str(acc), true) == Ok::<
                    (MemberV, bool),
                    ParseError,
                >((MemberV::Str(acc.push(c)), false)));
                assert(spec_step(st_a, y) == Ok::<StateV, ParseError>(st2));
            }
        } else {
            assert(escape_char(c) =~= seq![c]);
            lemma_run_one(st, c);
            assert(!structural_char(c));
            assert(spec_fill_value(c, st.pair.value, false) == Ok::<(MemberV, bool), ParseError>(
                (MemberV::Str(acc.push(c)), false),
            ));
            assert(spec_step(st, c) == Ok::<StateV, ParseError>(st2));
        }
        lemma_run_string_pair(st2, rest);
        assert(acc.push(c) + rest =~= acc + s);
    }
}

/// The array-mode analogue of [`lemma_run_string_pair`].
pub proof fn lemma_run_string_array(st: StateV, s: Seq<char>)
    requires
        st.json.current_object,
        st.pair.current_value,
        st.arr.is_array,
        st.arr.data is Str,
        !st.arr.is_escaped,
        forall|i: int| 0 <= i < s.len() ==> string_char_ok(#[trigger] s[i]),
    ensures
        spec_run(st, escape_string(s)) == Ok::<StateV, ParseError>(
            StateV {
                pair: st.pair,
                json: st.json,
                arr: ArrayV {
                    value: st.arr.value,
                    data: MemberV::Str(st.arr.data->Str_0 + s),
                    is_array: true,
                    is_escaped: false,
                },
            },
        ),
    decreases s.len(),
{
    let acc = st.arr.data->Str_0;
    if s.len() == 0 {
        assert(acc + s =~= acc);
        assert(st.arr.data == MemberV::Str(acc));
        assert(st =~= (StateV {
            pair: st.pair,
            json: st.json,
            arr: ArrayV {
                value: st.arr.value,
                data: MemberV::Str(acc + s),
                is_array: true,
                is_escaped: false,
            },
        }));
    } else {
        let c = s[0];
        let rest = s.drop_first();
        lemma_run_app(st, escape_char(c), escape_string(rest));
        let st2 = StateV {
            pair: st.pair,
            json: st.json,
            arr: ArrayV {
                value: st.arr.value,
                data: MemberV::Str(acc.push(c)),
                is_array: true,
                is_escaped: false,
            },
        };
        if c == '"' || c == '\\' || c == '\n' || c == '\t' || c == '\r' {
            let y = escape_char(c)[1];
            assert(escape_char(c) =~= seq!['\\'] + seq![y]);
            lemma_run_app(st, seq!['\\'], seq![y]);
            let st_a = StateV {
                pair: st.pair,
                json: st.json,
                arr: ArrayV {
                    value: st.arr.value,
                    data: MemberV::Str(acc),
                    is_array: true,
                    is_escaped: true,
                },
            };
            lemma_run_one(st, '\\');
            assert(spec_fill_value('\\', st.arr.data, false) == Ok::<
                (MemberV, bool),
                ParseError,
            >((MemberV::Str(acc), true)));
            assert(spec_step(st, '\\') == Ok::<StateV, ParseError>(st_a));
            lemma_run_one(st_a, y);
            if c == '"' {
                assert(spec_checkset_string(MemberV::Str(acc), true, '"') == (
                    MemberV::Str(acc.push('"')),
                    false,
                ));
                assert(spec_step(st_a, '"') == Ok::<StateV, ParseError>(st2));
            } else {
                assert(!structural_char(y));
                assert(spec_fill_value(y, MemberV::Str(acc), true) == Ok::<
                    (MemberV, bool),
                    ParseError,
                >((MemberV::Str(acc.push(c)), false)));
                assert(spec_step(st_a, y) == Ok::<StateV, ParseError>(st2));
            }
        } else {
            assert(escape_char(c) =~= seq![c]);
            lemma_run_one(st, c);
            assert(!structural_char(c));
            assert(spec_fill_value(c, st.arr.data, false) == Ok::<(MemberV, bool), ParseError>(
                (MemberV::Str(acc.push(c)), false),
            ));
            assert(spec_step(st, c) == Ok::<StateV, ParseError>(st2));
        }
        lemma_run_string_array(st2, rest);
        assert(acc.push(c) + rest =~= acc + s);
    }
}

/// Decimal digits are not structural characters.
pub proof fn lemma_digits_not_structural(ds: Seq<char>)
    requires
        all_digits(ds),
    ensures
        forall|i: int| 0 <= i < ds.len() ==> !structural_char(#[trigger] ds[i]),
{
    assert forall|i: int| 0 <= i < ds.len() implies !structural_char(#[trigger] ds[i]) by {
        assert(is_digit_char(ds[i]));
    }
}

/// An idle array accumulator.
pub open spec fn clean_arr() -> ArrayV {
    ArrayV { value: Seq::empty(), data: MemberV::Empty, is_array: false, is_escaped: false }
}

/// The scan state between pairs, inside an open object.
pub open spec fn ready_state(mp: Map<Seq<char>, MemberV>, isj: bool) -> StateV {
    StateV {
        pair: PairV {
            key: Seq::empty(),
            value: MemberV::Empty,
            current_key: false,
            current_value: false,
            is_escaped: false,
        },
        json: JsonV { map: mp, current_object: true, is_json: isj },
        arr: clean_arr(),
    }
}

/// The scan state right after a pair's colon: key accumulated, value not
/// yet begun.
pub open spec fn value_state(mp: Map<Seq<char>, MemberV>, isj: bool, k: Seq<char>) -> StateV {
    StateV {
        pair: PairV {
            key: k,
            value: MemberV::Empty,
            current_key: false,
            current_value: true,
            is_escaped: false,
        },
        json: JsonV { map: mp, current_object: true, is_json: isj },
        arr: clean_arr(),
    }
}

/// The accumulator a renderable value stands in just before its boundary:
/// the value itself, except that a number's deferred sign is still pending.
pub open spec fn pre_value(m: MemberV) -> MemberV {
    match m {
        MemberV::Num(n) => match n.value {
            Num::Int(i) => MemberV::Num(
                Number {
                    value: Num::Int((-(i as int)) as i32),
                    digit: n.digit,
                    is_negative: true,
                },
            ),
            Num::Flt(f) => if f.negative {
                MemberV::Num(
                    Number {
                        value: Num::Flt(
                            Float { mantissa: f.mantissa, scale: f.scale, negative: false },
                        ),
                        digit: n.digit,
                        is_negative: true,
                    },
                )
            } else {
                m
            },
            _ => m,
        },
        _ => m,
    }
}

/// Whether the value-in-progress flag is still set once a value's text has
/// been scanned: a closing quote or bracket clears it, digits and literal
/// characters do not.
pub open spec fn pending_cv(m: MemberV) -> bool {
    !(m is Str || m is Arr)
}

/// The scan state once a pair's whole text has been read, just before the
/// boundary that commits it.
pub open spec fn pending_state(
    mp: Map<Seq<char>, MemberV>,
    isj: bool,
    k: Seq<char>,
    m: MemberV,
) -> StateV {
    StateV {
        pair: PairV {
            key: k,
            value: if m is Arr {
                m
            } else {
                pre_value(m)
            },
            current_key: false,
            current_value: pending_cv(m),
            is_escaped: false,
        },
        json: JsonV { map: mp, current_object: true, is_json: isj },
        arr: clean_arr(),
    }
}

/// Finalizing the pending accumulator of a renderable value yields the
/// value, and the accumulator is never the empty sentinel.
pub proof fn lemma_pre_value(m: MemberV)
    requires
        member_renderable(m),
    ensures
        spec_finalize_member(pre_value(m)) == m,
        !(pre_value(m) is Empty),
{
}

/// Scanning the text of a renderable scalar from a value-expecting state
/// leaves its pending accumulator in the pair.
pub proof fn lemma_scan_scalar_pair(
    mp: Map<Seq<char>, MemberV>,
    isj: bool,
    k: Seq<char>,
    m: MemberV,
)
    requires
        scalar_renderable(m),
    ensures
        spec_run(value_state(mp, isj, k), render_scalar(m)) == Ok::<StateV, ParseError>(
            pending_state(mp, isj, k, m),
        ),
{
    let st0 = value_state(mp, isj, k);
    match m {
        MemberV::Str(s) => {
            let open_st = StateV {
                pair: PairV {
                    key: k,
                    value: MemberV::Str(Seq::empty()),
                    current_key: false,
                    current_value: true,
                    is_escaped: false,
                },
                json: st0.json,
                arr: clean_arr(),
            };
            assert(render_scalar(m) =~= seq!['"'] + (escape_string(s) + seq!['"']));
            lemma_run_app(st0, seq!['"'], escape_string(s) + seq!['"']);
            lemma_run_one(st0, '"');
            assert(spec_checkset_string(MemberV::Empty, false, '"') == (
                MemberV::Str(Seq::<char>::empty()),
                false,
            ));
            assert(spec_step(st0, '"') == Ok::<StateV, ParseError>(open_st));
            lemma_run_app(open_st, escape_string(s), seq!['"']);
            lemma_run_string_pair(open_st, s);
            let full_st = StateV {
                pair: PairV {
                    key: k,
                    value: MemberV::Str(Seq::<char>::empty() + s),
                    current_key: false,
                    current_value: true,
                    is_escaped: false,
                },
                json: st0.json,
                arr: clean_arr(),
            };
            assert(Seq::<char>::empty() + s =~= s);
            lemma_run_one(full_st, '"');
            assert(s.len() > 0);
            assert(spec_step(full_st, '"') == Ok::<StateV, ParseError>(
                pending_state(mp, isj, k, m),
            ));
        },
        MemberV::Bool(b) => {
            let lead = if b.value {
                't'
            } else {
                'f'
            };
            let tail = if b.value {
                seq!['r', 'u', 'e']
            } else {
                seq!['a', 'l', 's', 'e']
            };
            assert(render_scalar(m) =~= seq![lead] + tail);
            lemma_run_app(st0, seq![lead], tail);
            lemma_run_one(st0, lead);
            let started = spec_create_value(lead);
            let st1 = StateV {
                pair: PairV {
                    key: k,
                    value: started,
                    current_key: false,
                    current_value: true,
                    is_escaped: false,
                },
                json: st0.json,
                arr: clean_arr(),
            };
            assert(!structural_char(lead) && !is_ws_char(lead));
            assert(spec_step(st0, lead) == Ok::<StateV, ParseError>(st1));
            if b.value {
                lemma_fill_true(false);
            } else {
                lemma_fill_false(false);
            }
            assert(forall|i: int| 0 <= i < tail.len() ==> !structural_char(#[trigger] tail[i]));
            lemma_run_fill_pair(st1, tail);
            assert(fill_seq(started, false, tail)->Ok_0.0 == MemberV::Bool(b));
        },
        MemberV::Num(n) => {
            lemma_scan_number_pair(mp, isj, k, n);
        },
        _ => {
            assert(false);
        },
    }
}

/// Scanning the decimal text of a canonical number from a value-expecting
/// state leaves its pending accumulator in the pair.
pub proof fn lemma_scan_number_pair(
    mp: Map<Seq<char>, MemberV>,
    isj: bool,
    k: Seq<char>,
    n: Number,
)
    requires
        num_canon(n),
    ensures
        spec_run(value_state(mp, isj, k), render_num(n)) == Ok::<StateV, ParseError>(
            pending_state(mp, isj, k, MemberV::Num(n)),
        ),
{
    let st0 = value_state(mp, isj, k);
    match n.value {
        Num::Uint(u) => {
            let ds = dec_digits(u as nat);
            lemma_dec_digits(u as nat);
            lemma_digits_not_structural(ds);
            let d0 = ds[0];
            let rest = ds.drop_first();
            assert(ds =~= seq![d0] + rest);
            lemma_run_app(st0, seq![d0], rest);
            lemma_run_one(st0, d0);
            assert(is_digit_char(d0));
            assert(!is_ws_char(d0) && !structural_char(d0));
            assert(d0 != 't' && d0 != 'f' && d0 != '-');
            let started = Number { value: Num::Uint(digit_val(d0)), digit: 1, is_negative: false };
            assert(spec_create_value(d0) == MemberV::Num(started));
            let st1 = StateV {
                pair: PairV {
                    key: k,
                    value: MemberV::Num(started),
                    current_key: false,
                    current_value: true,
                    is_escaped: false,
                },
                json: st0.json,
                arr: clean_arr(),
            };
            assert(spec_step(st0, d0) == Ok::<StateV, ParseError>(st1));
            assert(digits_val(ds) == (digit_val(d0) as nat) * pow10(rest.len()) + digits_val(
                rest,
            ));
            assert(ds.len() <= u32::MAX);
            lemma_fill_digits_uint(digit_val(d0), 1, false, false, rest);
            lemma_run_fill_pair(st1, rest);
            assert(((digit_val(d0) as nat) * pow10(rest.len()) + digits_val(rest)) as u32 == u);
            assert((1 + rest.len()) as u32 == n.digit);
        },
        Num::Int(i) => {
            let mag = (-(i as int)) as nat;
            let ds = dec_digits(mag);
            lemma_dec_digits(mag);
            lemma_digits_not_structural(ds);
            assert(render_num(n) =~= seq!['-'] + ds);
            lemma_run_app(st0, seq!['-'], ds);
            lemma_run_one(st0, '-');
            assert(!structural_char('-') && !is_ws_char('-'));
            let started = Number { value: Num::Int(0), digit: 0, is_negative: true };
            assert(spec_create_value('-') == MemberV::Num(started));
            let st1 = StateV {
                pair: PairV {
                    key: k,
                    value: MemberV::Num(started),
                    current_key: false,
                    current_value: true,
                    is_escaped: false,
                },
                json: st0.json,
                arr: clean_arr(),
            };
            assert(spec_step(st0, '-') == Ok::<StateV, ParseError>(st1));
            assert(mag <= i32::MAX);
            assert((0 as nat) * pow10(ds.len()) + digits_val(ds) == mag);
            assert(ds.len() <= u32::MAX);
            lemma_fill_digits_int(0, 0, true, false, ds);
            lemma_run_fill_pair(st1, ds);
            assert(((0 as nat) * pow10(ds.len()) + digits_val(ds)) as i32 == mag as i32);
            assert((0 + ds.len()) as u32 == n.digit);
            assert(pre_value(MemberV::Num(n)) == MemberV::Num(
                Number { value: Num::Int(mag as i32), digit: n.digit, is_negative: true },
            ));
        },
        Num::Flt(f) => {
            let sc = f.scale as nat;
            let whole = (f.mantissa as nat) / pow10(sc);
            let wd = dec_digits(whole);
            let fd = frac_digits(f.mantissa as nat, sc);
            lemma_dec_digits(whole);
            lemma_frac_digits(f.mantissa as nat, sc);
            lemma_digits_not_structural(wd);
            lemma_digits_not_structural(fd);
            lemma_pow10_pos(sc);
            vstd::arithmetic::div_mod::lemma_fundamental_div_mod(
                f.mantissa as int,
                pow10(sc) as int,
            );
            assert(whole * pow10(sc) == pow10(sc) * whole) by (nonlinear_arith);
            assert(whole * pow10(sc) + (f.mantissa as nat) % pow10(sc) == f.mantissa);
            if f.negative {
                assert(render_num(n) =~= seq!['-'] + (wd + (seq!['.'] + fd)));
                lemma_run_app(st0, seq!['-'], wd + (seq!['.'] + fd));
                lemma_run_one(st0, '-');
                assert(!structural_char('-') && !is_ws_char('-'));
                let started = Number { value: Num::Int(0), digit: 0, is_negative: true };
                assert(spec_create_value('-') == MemberV::Num(started));
                let st1 = StateV {
                    pair: PairV {
                        key: k,
                        value: MemberV::Num(started),
                        current_key: false,
                        current_value: true,
                        is_escaped: false,
                    },
                    json: st0.json,
                    arr: clean_arr(),
                };
                assert(spec_step(st0, '-') == Ok::<StateV, ParseError>(st1));
                lemma_run_app(st1, wd, seq!['.'] + fd);
                assert(whole <= i32::MAX);
                assert((0 as nat) * pow10(wd.len()) + digits_val(wd) == whole);
                assert(wd.len() <= u32::MAX);
                lemma_fill_digits_int(0, 0, true, false, wd);
                lemma_run_fill_pair(st1, wd);
                let mid = Number {
                    value: Num::Int(((0 as nat) * pow10(wd.len()) + digits_val(wd)) as i32),
                    digit: (0 + wd.len()) as u32,
                    is_negative: true,
                };
                let st2 = StateV {
                    pair: PairV {
                        key: k,
                        value: MemberV::Num(mid),
                        current_key: false,
                        current_value: true,
                        is_escaped: false,
                    },
                    json: st0.json,
                    arr: clean_arr(),
                };
                lemma_run_app(st2, seq!['.'], fd);
                lemma_run_one(st2, '.');
                let f0 = Float { mantissa: whole as u64, scale: 0, negative: false };
                assert(spec_make_flt(MemberV::Num(mid)) == MemberV::Num(
                    Number { value: Num::Flt(f0), digit: 0, is_negative: true },
                ));
                let st3 = StateV {
                    pair: PairV {
                        key: k,
                        value: MemberV::Num(
                            Number { value: Num::Flt(f0), digit: 0, is_negative: true },
                        ),
                        current_key: false,
                        current_value: true,
                        is_escaped: false,
                    },
                    json: st0.json,
                    arr: clean_arr(),
                };
                assert(spec_step(st2, '.') == Ok::<StateV, ParseError>(st3));
                assert((f0.mantissa as nat) * pow10(fd.len()) + digits_val(fd) == f.mantissa);
                assert(f0.scale + fd.len() <= u32::MAX);
                lemma_fill_digits_flt(f0, 0, true, false, fd);
                lemma_run_fill_pair(st3, fd);
                assert(((f0.mantissa as nat) * pow10(fd.len()) + digits_val(fd)) as u64
                    == f.mantissa);
                assert((0 + fd.len()) as u32 == n.digit);
                assert(pre_value(MemberV::Num(n)) == MemberV::Num(
                    Number {
                        value: Num::Flt(
                            Float { mantissa: f.mantissa, scale: f.scale, negative: false },
                        ),
                        digit: n.digit,
                        is_negative: true,
                    },
                ));
            } else {
                assert(render_num(n) =~= wd + (seq!['.'] + fd));
                let d0 = wd[0];
                let wrest = wd.drop_first();
                assert(wd =~= seq![d0] + wrest);
                assert(wd + (seq!['.'] + fd) =~= seq![d0] + (wrest + (seq!['.'] + fd)));
                lemma_run_app(st0, seq![d0], wrest + (seq!['.'] + fd));
                lemma_run_one(st0, d0);
                assert(is_digit_char(d0));
                assert(!is_ws_char(d0) && !structural_char(d0));
                assert(d0 != 't' && d0 != 'f' && d0 != '-');
                let started = Number {
                    value: Num::Uint(digit_val(d0)),
                    digit: 1,
                    is_negative: false,
                };
                assert(spec_create_value(d0) == MemberV::Num(started));
                let st1 = StateV {
                    pair: PairV {
                        key: k,
                        value: MemberV::Num(started),
                        current_key: false,
                        current_value: true,
                        is_escaped: false,
                    },
                    json: st0.json,
                    arr: clean_arr(),
                };
                assert(spec_step(st0, d0) == Ok::<StateV, ParseError>(st1));
                lemma_run_app(st1, wrest, seq!['.'] + fd);
                assert(digits_val(wd) == (digit_val(d0) as nat) * pow10(wrest.len())
                    + digits_val(wrest));
                assert(whole <= u32::MAX);
                assert(wd.len() <= u32::MAX);
                lemma_fill_digits_uint(digit_val(d0), 1, false, false, wrest);
                lemma_run_fill_pair(st1, wrest);
                let mid = Number {
                    value: Num::Uint(((digit_val(d0) as nat) * pow10(wrest.len()) + digits_val(
                        wrest,
                    )) as u32),
                    digit: (1 + wrest.len()) as u32,
                    is_negative: false,
                };
                assert(mid.value == Num::Uint(whole as u32));
                let st2 = StateV {
                    pair: PairV {
                        key: k,
                        value: MemberV::Num(mid),
                        current_key: false,
                        current_value: true,
                        is_escaped: false,
                    },
                    json: st0.json,
                    arr: clean_arr(),
                };
                lemma_run_app(st2, seq!['.'], fd);
                lemma_run_one(st2, '.');
                let f0 = Float { mantissa: whole as u64, scale: 0, negative: false };
                assert(spec_make_flt(MemberV::Num(mid)) == MemberV::Num(
                    Number { value: Num::Flt(f0), digit: 0, is_negative: false },
                ));
                let st3 = StateV {
                    pair: PairV {
                        key: k,
                        value: MemberV::Num(
                            Number { value: Num::Flt(f0), digit: 0, is_negative: false },
                        ),
                        current_key: false,
                        current_value: true,
                        is_escaped: false,
                    },
                    json: st0.json,
                    arr: clean_arr(),
                };
                assert(spec_step(st2, '.') == Ok::<StateV, ParseError>(st3));
                assert((f0.mantissa as nat) * pow10(fd.len()) + digits_val(fd) == f.mantissa);
                assert(f0.scale + fd.len() <= u32::MAX);
                lemma_fill_digits_flt(f0, 0, false, false, fd);
                lemma_run_fill_pair(st3, fd);
                assert(((f0.mantissa as nat) * pow10(fd.len()) + digits_val(fd)) as u64
                    == f.mantissa);
                assert((0 + fd.len()) as u32 == n.digit);
                assert(pre_value(MemberV::Num(n)) == MemberV::Num(n));
            }
        },
        Num::Empty => {
            assert(false);
        },
    }
}

/// The scan state while an array is being filled: the elements committed so
/// far and the element in progress.
pub open spec fn elem_state(
    mp: Map<Seq<char>, MemberV>,
    isj: bool,
    k: Seq<char>,
    elems: Seq<MemberV>,
    data: MemberV,
    esc: bool,
) -> StateV {
    StateV {
        pair: PairV {
            key: k,
            value: MemberV::Empty,
            current_key: false,
            current_value: true,
            is_escaped: false,
        },
        json: JsonV { map: mp, current_object: true, is_json: isj },
        arr: ArrayV { value: elems, data: data, is_array: true, is_escaped: esc },
    }
}

/// The array-mode analogue of [`lemma_scan_number_pair`].
pub proof fn lemma_scan_number_array(
    mp: Map<Seq<char>, MemberV>,
    isj: bool,
    k: Seq<char>,
    elems: Seq<MemberV>,
    n: Number,
)
    requires
        num_canon(n),
    ensures
        spec_run(elem_state(mp, isj, k, elems, MemberV::Empty, false), render_num(n)) == Ok::<
            StateV,
            ParseError,
        >(elem_state(mp, isj, k, elems, pre_value(MemberV::Num(n)), false)),
{
    let st0 = elem_state(mp, isj, k, elems, MemberV::Empty, false);
    match n.value {
        Num::Uint(u) => {
            let ds = dec_digits(u as nat);
            lemma_dec_digits(u as nat);
            lemma_digits_not_structural(ds);
            let d0 = ds[0];
            let rest = ds.drop_first();
            assert(ds =~= seq![d0] + rest);
            lemma_run_app(st0, seq![d0], rest);
            lemma_run_one(st0, d0);
            assert(is_digit_char(d0));
            assert(!is_ws_char(d0) && !structural_char(d0));
            assert(d0 != 't' && d0 != 'f' && d0 != '-');
            let started = Number { value: Num::Uint(digit_val(d0)), digit: 1, is_negative: false };
            assert(spec_create_value(d0) == MemberV::Num(started));
            let st1 = elem_state(mp, isj, k, elems, MemberV::Num(started), false);
            assert(spec_step(st0, d0) == Ok::<StateV, ParseError>(st1));
            assert(digits_val(ds) == (digit_val(d0) as nat) * pow10(rest.len()) + digits_val(
                rest,
            ));
            assert(ds.len() <= u32::MAX);
            lemma_fill_digits_uint(digit_val(d0), 1, false, false, rest);
            lemma_run_fill_array(st1, rest);
            assert(((digit_val(d0) as nat) * pow10(rest.len()) + digits_val(rest)) as u32 == u);
            assert((1 + rest.len()) as u32 == n.digit);
        },
        Num::Int(i) => {
            let mag = (-(i as int)) as nat;
            let ds = dec_digits(mag);
            lemma_dec_digits(mag);
            lemma_digits_not_structural(ds);
            assert(render_num(n) =~= seq!['-'] + ds);
            lemma_run_app(st0, seq!['-'], ds);
            lemma_run_one(st0, '-');
            assert(!structural_char('-') && !is_ws_char('-'));
            let started = Number { value: Num::Int(0), digit: 0, is_negative: true };
            assert(spec_create_value('-') == MemberV::Num(started));
            let st1 = elem_state(mp, isj, k, elems, MemberV::Num(started), false);
            assert(spec_step(st0, '-') == Ok::<StateV, ParseError>(st1));
            assert(mag <= i32::MAX);
            assert((0 as nat) * pow10(ds.len()) + digits_val(ds) == mag);
            assert(ds.len() <= u32::MAX);
            lemma_fill_digits_int(0, 0, true, false, ds);
            lemma_run_fill_array(st1, ds);
            assert(((0 as nat) * pow10(ds.len()) + digits_val(ds)) as i32 == mag as i32);
            assert((0 + ds.len()) as u32 == n.digit);
            assert(pre_value(MemberV::Num(n)) == MemberV::Num(
                Number { value: Num::Int(mag as i32), digit: n.digit, is_negative: true },
            ));
        },
        Num::Flt(f) => {
            let sc = f.scale as nat;
            let whole = (f.mantissa as nat) / pow10(sc);
            let wd = dec_digits(whole);
            let fd = frac_digits(f.mantissa as nat, sc);
            lemma_dec_digits(whole);
            lemma_frac_digits(f.mantissa as nat, sc);
            lemma_digits_not_structural(wd);
            lemma_digits_not_structural(fd);
            lemma_pow10_pos(sc);
            vstd::arithmetic::div_mod::lemma_fundamental_div_mod(
                f.mantissa as int,
                pow10(sc) as int,
            );
            assert(whole * pow10(sc) == pow10(sc) * whole) by (nonlinear_arith);
            assert(whole * pow10(sc) + (f.mantissa as nat) % pow10(sc) == f.mantissa);
            if f.negative {
                assert(render_num(n) =~= seq!['-'] + (wd + (seq!['.'] + fd)));
                lemma_run_app(st0, seq!['-'], wd + (seq!['.'] + fd));
                lemma_run_one(st0, '-');
                assert(!structural_char('-') && !is_ws_char('-'));
                let started = Number { value: Num::Int(0), digit: 0, is_negative: true };
                assert(spec_create_value('-') == MemberV::Num(started));
                let st1 = elem_state(mp, isj, k, elems, MemberV::Num(started), false);
                assert(spec_step(st0, '-') == Ok::<StateV, ParseError>(st1));
                lemma_run_app(st1, wd, seq!['.'] + fd);
                assert(whole <= i32::MAX);
                assert((0 as nat) * pow10(wd.len()) + digits_val(wd) == whole);
                assert(wd.len() <= u32::MAX);
                lemma_fill_digits_int(0, 0, true, false, wd);
                lemma_run_fill_array(st1, wd);
                let mid = Number {
                    value: Num::Int(((0 as nat) * pow10(wd.len()) + digits_val(wd)) as i32),
                    digit: (0 + wd.len()) as u32,
                    is_negative: true,
                };
                let st2 = elem_state(mp, isj, k, elems, MemberV::Num(mid), false);
                lemma_run_app(st2, seq!['.'], fd);
                lemma_run_one(st2, '.');
                let f0 = Float { mantissa: whole as u64, scale: 0, negative: false };
                assert(spec_make_flt(MemberV::Num(mid)) == MemberV::Num(
                    Number { value: Num::Flt(f0), digit: 0, is_negative: true },
                ));
                let st3 = elem_state(
                    mp,
                    isj,
                    k,
                    elems,
                    MemberV::Num(Number { value: Num::Flt(f0), digit: 0, is_negative: true }),
                    false,
                );
                assert(spec_step(st2, '.') == Ok::<StateV, ParseError>(st3));
                assert((f0.mantissa as nat) * pow10(fd.len()) + digits_val(fd) == f.mantissa);
                assert(f0.scale + fd.len() <= u32::MAX);
                lemma_fill_digits_flt(f0, 0, true, false, fd);
                lemma_run_fill_array(st3, fd);
                assert(((f0.mantissa as nat) * pow10(fd.len()) + digits_val(fd)) as u64
                    == f.mantissa);
                assert((0 + fd.len()) as u32 == n.digit);
                assert(pre_value(MemberV::Num(n)) == MemberV::Num(
                    Number {
                        value: Num::Flt(
                            Float { mantissa: f.mantissa, scale: f.scale, negative: false },
                        ),
                        digit: n.digit,
                        is_negative: true,
                    },
                ));
            } else {
                assert(render_num(n) =~= wd + (seq!['.'] + fd));
                let d0 = wd[0];
                let wrest = wd.drop_first();
                assert(wd =~= seq![d0] + wrest);
                assert(wd + (seq!['.'] + fd) =~= seq![d0] + (wrest + (seq!['.'] + fd)));
                lemma_run_app(st0, seq![d0], wrest + (seq!['.'] + fd));
                lemma_run_one(st0, d0);
                assert(is_digit_char(d0));
                assert(!is_ws_char(d0) && !structural_char(d0));
                assert(d0 != 't' && d0 != 'f' && d0 != '-');
                let started = Number {
                    value: Num::Uint(digit_val(d0)),
                    digit: 1,
                    is_negative: false,
                };
                assert(spec_create_value(d0) == MemberV::Num(started));
                let st1 = elem_state(mp, isj, k, elems, MemberV::Num(started), false);
                assert(spec_step(st0, d0) == Ok::<StateV, ParseError>(st1));
                lemma_run_app(st1, wrest, seq!['.'] + fd);
                assert(digits_val(wd) == (digit_val(d0) as nat) * pow10(wrest.len())
                    + digits_val(wrest));
                assert(whole <= u32::MAX);
                assert(wd.len() <= u32::MAX);
                lemma_fill_digits_uint(digit_val(d0), 1, false, false, wrest);
                lemma_run_fill_array(st1, wrest);
                let mid = Number {
                    value: Num::Uint(((digit_val(d0) as nat) * pow10(wrest.len()) + digits_val(
                        wrest,
                    )) as u32),
                    digit: (1 + wrest.len()) as u32,
                    is_negative: false,
                };
                assert(mid.value == Num::Uint(whole as u32));
                let st2 = elem_state(mp, isj, k, elems, MemberV::Num(mid), false);
                lemma_run_app(st2, seq!['.'], fd);
                lemma_run_one(st2, '.');
                let f0 = Float { mantissa: whole as u64, scale: 0, negative: false };
                assert(spec_make_flt(MemberV::Num(mid)) == MemberV::Num(
                    Number { value: Num::Flt(f0), digit: 0, is_negative: false },
                ));
                let st3 = elem_state(
                    mp,
                    isj,
                    k,
                    elems,
                    MemberV::Num(Number { value: Num::Flt(f0), digit: 0, is_negative: false }),
                    false,
                );
                assert(spec_step(st2, '.') == Ok::<StateV, ParseError>(st3));
                assert((f0.mantissa as nat) * pow10(fd.len()) + digits_val(fd) == f.mantissa);
                assert(f0.scale + fd.len() <= u32::MAX);
                lemma_fill_digits_flt(f0, 0, false, false, fd);
                lemma_run_fill_array(st3, fd);
                assert(((f0.mantissa as nat) * pow10(fd.len()) + digits_val(fd)) as u64
                    == f.mantissa);
                assert((0 + fd.len()) as u32 == n.digit);
                assert(pre_value(MemberV::Num(n)) == MemberV::Num(n));
            }
        },
        Num::Empty => {
            assert(false);
        },
    }
}

/// Scanning the text of one renderable scalar while an array is active
/// leaves its pending accumulator as the element in progress.
pub proof fn lemma_scan_scalar_array(
    mp: Map<Seq<char>, MemberV>,
    isj: bool,
    k: Seq<char>,
    elems: Seq<MemberV>,
    m: MemberV,
)
    requires
        scalar_renderable(m),
    ensures
        spec_run(elem_state(mp, isj, k, elems, MemberV::Empty, false), render_scalar(m)) == Ok::<
            StateV,
            ParseError,
        >(elem_state(mp, isj, k, elems, pre_value(m), false)),
{
    let st0 = elem_state(mp, isj, k, elems, MemberV::Empty, false);
    match m {
        MemberV::Str(s) => {
            let open_st = elem_state(mp, isj, k, elems, MemberV::Str(Seq::empty()), false);
            assert(render_scalar(m) =~= seq!['"'] + (escape_string(s) + seq!['"']));
            lemma_run_app(st0, seq!['"'], escape_string(s) + seq!['"']);
            lemma_run_one(st0, '"');
            assert(spec_checkset_string(MemberV::Empty, false, '"') == (
                MemberV::Str(Seq::<char>::empty()),
                false,
            ));
            assert(spec_step(st0, '"') == Ok::<StateV, ParseError>(open_st));
            lemma_run_app(open_st, escape_string(s), seq!['"']);
            lemma_run_string_array(open_st, s);
            let full_st = elem_state(
                mp,
                isj,
                k,
                elems,
                MemberV::Str(Seq::<char>::empty() + s),
                false,
            );
            assert(Seq::<char>::empty() + s =~= s);
            lemma_run_one(full_st, '"');
            assert(spec_step(full_st, '"') == Ok::<StateV, ParseError>(full_st));
        },
        MemberV::Bool(b) => {
            let lead = if b.value {
                't'
            } else {
                'f'
            };
            let tail = if b.value {
                seq!['r', 'u', 'e']
            } else {
                seq!['a', 'l', 's', 'e']
            };
            assert(render_scalar(m) =~= seq![lead] + tail);
            lemma_run_app(st0, seq![lead], tail);
            lemma_run_one(st0, lead);
            let started = spec_create_value(lead);
            let st1 = elem_state(mp, isj, k, elems, started, false);
            assert(!structural_char(lead) && !is_ws_char(lead));
            assert(spec_step(st0, lead) == Ok::<StateV, ParseError>(st1));
            if b.value {
                lemma_fill_true(false);
            } else {
                lemma_fill_false(false);
            }
            assert(forall|i: int| 0 <= i < tail.len() ==> !structural_char(#[trigger] tail[i]));
            lemma_run_fill_array(st1, tail);
            assert(fill_seq(started, false, tail)->Ok_0.0 == MemberV::Bool(b));
        },
        MemberV::Num(n) => {
            lemma_scan_number_array(mp, isj, k, elems, n);
        },
        _ => {
            assert(false);
        },
    }
}

/// Scanning a comma-separated element list commits every element but the
/// last and leaves the last one pending.
pub proof fn lemma_scan_elements(
    mp: Map<Seq<char>, MemberV>,
    isj: bool,
    k: Seq<char>,
    elems: Seq<MemberV>,
    es: Seq<MemberV>,
)
    requires
        es.len() >= 1,
        forall|i: int| 0 <= i < es.len() ==> scalar_renderable(#[trigger] es[i]),
    ensures
        spec_run(elem_state(mp, isj, k, elems, MemberV::Empty, false), render_elements(es))
            == Ok::<StateV, ParseError>(
            elem_state(
                mp,
                isj,
                k,
                elems + es.take(es.len() - 1),
                pre_value(es.last()),
                false,
            ),
        ),
    decreases es.len(),
{
    let st0 = elem_state(mp, isj, k, elems, MemberV::Empty, false);
    if es.len() == 1 {
        lemma_scan_scalar_array(mp, isj, k, elems, es[0]);
        assert(elems + es.take(0) =~= elems);
    } else {
        let rest = es.drop_first();
        assert(render_elements(es) =~= render_scalar(es[0]) + (seq![','] + render_elements(
            rest,
        )));
        lemma_run_app(st0, render_scalar(es[0]), seq![','] + render_elements(rest));
        lemma_scan_scalar_array(mp, isj, k, elems, es[0]);
        let st1 = elem_state(mp, isj, k, elems, pre_value(es[0]), false);
        lemma_run_app(st1, seq![','], render_elements(rest));
        lemma_run_one(st1, ',');
        assert(member_renderable(es[0]));
        lemma_pre_value(es[0]);
        let st2 = elem_state(mp, isj, k, elems.push(es[0]), MemberV::Empty, false);
        assert(spec_commit_element(st1.arr) =~= st2.arr);
        assert(spec_step(st1, ',') == Ok::<StateV, ParseError>(st2));
        lemma_scan_elements(mp, isj, k, elems.push(es[0]), rest);
        assert(elems.push(es[0]) + rest.take(rest.len() - 1) =~= elems + es.take(es.len() - 1));
        assert(rest.last() == es.last());
    }
}

/// Scanning the text of any renderable value from a value-expecting state
/// reaches the committable state of that value.
pub proof fn lemma_scan_value(mp: Map<Seq<char>, MemberV>, isj: bool, k: Seq<char>, m: MemberV)
    requires
        member_renderable(m),
    ensures
        spec_run(value_state(mp, isj, k), render_value(m)) == Ok::<StateV, ParseError>(
            pending_state(mp, isj, k, m),
        ),
{
    let st0 = value_state(mp, isj, k);
    match m {
        MemberV::Arr(es) => {
            assert(render_value(m) =~= seq!['['] + (render_elements(es) + seq![']']));
            lemma_run_app(st0, seq!['['], render_elements(es) + seq![']']);
            lemma_run_one(st0, '[');
            let st1 = elem_state(mp, isj, k, Seq::empty(), MemberV::Empty, false);
            assert(spec_step(st0, '[') == Ok::<StateV, ParseError>(st1));
            lemma_run_app(st1, render_elements(es), seq![']']);
            if es.len() == 0 {
                assert(render_elements(es) =~= Seq::<char>::empty());
                lemma_run_one(st1, ']');
                assert(spec_commit_element(st1.arr).value =~= Seq::<MemberV>::empty());
                assert(Seq::<MemberV>::empty() =~= es);
                assert(spec_step(st1, ']') == Ok::<StateV, ParseError>(
                    pending_state(mp, isj, k, m),
                ));
            } else {
                lemma_scan_elements(mp, isj, k, Seq::empty(), es);
                let st2 = elem_state(
                    mp,
                    isj,
                    k,
                    Seq::<MemberV>::empty() + es.take(es.len() - 1),
                    pre_value(es.last()),
                    false,
                );
                lemma_run_one(st2, ']');
                assert(scalar_renderable(es.last()));
                assert(member_renderable(es.last()));
                lemma_pre_value(es.last());
                assert(spec_commit_element(st2.arr).value =~= es);
                assert(spec_step(st2, ']') == Ok::<StateV, ParseError>(
                    pending_state(mp, isj, k, m),
                ));
            }
        },
        _ => {
            lemma_scan_scalar_pair(mp, isj, k, m);
        },
    }
}

/// Key characters are appended verbatim while a key is being accumulated.
pub proof fn lemma_run_key_chars(st: StateV, ks: Seq<char>)
    requires
        st.json.current_object,
        st.pair.current_key,
        !st.pair.current_value,
        !st.arr.is_array,
        forall|i: int| 0 <= i < ks.len() ==> plain_char(#[trigger] ks[i]),
    ensures
        spec_run(st, ks) == Ok::<StateV, ParseError>(
            StateV {
                pair: PairV {
                    key: st.pair.key + ks,
                    value: st.pair.value,
                    current_key: true,
                    current_value: false,
                    is_escaped: st.pair.is_escaped,
                },
                json: st.json,
                arr: st.arr,
            },
        ),
    decreases ks.len(),
{
    if ks.len() == 0 {
        assert(st.pair.key + ks =~= st.pair.key);
        assert(st =~= (StateV {
            pair: PairV {
                key: st.pair.key + ks,
                value: st.pair.value,
                current_key: true,
                current_value: false,
                is_escaped: st.pair.is_escaped,
            },
            json: st.json,
            arr: st.arr,
        }));
    } else {
        let c = ks[0];
        assert(!structural_char(c));
        let st2 = StateV {
            pair: PairV {
                key: st.pair.key.push(c),
                value: st.pair.value,
                current_key: true,
                current_value: false,
                is_escaped: st.pair.is_escaped,
            },
            json: st.json,
            arr: st.arr,
        };
        assert(spec_step(st, c) == Ok::<StateV, ParseError>(st2));
        lemma_run_key_chars(st2, ks.drop_first());
        assert(st.pair.key.push(c) + ks.drop_first() =~= st.pair.key + ks);
    }
}

/// The mapping grown by committing the entries left to right.
pub open spec fn insert_entries(
    mp: Map<Seq<char>, MemberV>,
    es: Seq<(Seq<char>, MemberV)>,
) -> Map<Seq<char>, MemberV>
    decreases es.len(),
{
    if es.len() == 0 {
        mp
    } else {
        insert_entries(mp.insert(es[0].0, es[0].1), es.drop_first())
    }
}

/// Committing one more entry inserts its binding.
pub proof fn lemma_insert_entries_push(
    mp: Map<Seq<char>, MemberV>,
    es: Seq<(Seq<char>, MemberV)>,
    e: (Seq<char>, MemberV),
)
    ensures
        insert_entries(mp, es.push(e)) == insert_entries(mp, es).insert(e.0, e.1),
    decreases es.len(),
{
    reveal_with_fuel(insert_entries, 3);
    if es.len() == 0 {
        assert(es.push(e)[0] == e);
        assert(es.push(e).drop_first() =~= Seq::<(Seq<char>, MemberV)>::empty());
    } else {
        assert(es.push(e)[0] == es[0]);
        assert(es.push(e).drop_first() =~= es.drop_first().push(e));
        lemma_insert_entries_push(mp.insert(es[0].0, es[0].1), es.drop_first(), e);
    }
}

/// Committing left to right builds the same mapping as folding from the
/// right: one binding per key, later pairs overwriting earlier ones.
pub proof fn lemma_insert_entries_eq(es: Seq<(Seq<char>, MemberV)>)
    ensures
        insert_entries(Map::empty(), es) == entries_to_map(es),
    decreases es.len(),
{
    if es.len() > 0 {
        lemma_insert_entries_eq(es.drop_last());
        assert(es.drop_last().push(es.last()) =~= es);
        lemma_insert_entries_push(Map::empty(), es.drop_last(), es.last());
    }
}

/// The scan state after the matching close of the object.
pub open spec fn closed_state(mp: Map<Seq<char>, MemberV>) -> StateV {
    StateV {
        pair: PairV {
            key: Seq::empty(),
            value: MemberV::Empty,
            current_key: false,
            current_value: false,
            is_escaped: false,
        },
        json: JsonV { map: mp, current_object: false, is_json: true },
        arr: clean_arr(),
    }
}

/// With empty paddings the padded text is the canonical rendering.
proof fn lemma_padded_entries_unpadded(
    es: Seq<(Seq<char>, MemberV)>,
    ps: Seq<(Seq<char>, Seq<char>, Seq<char>, Seq<char>)>,
)
    requires
        ps.len() == es.len(),
        forall|i: int|
            0 <= i < ps.len() ==> #[trigger] ps[i] == (
                Seq::<char>::empty(),
                Seq::<char>::empty(),
                Seq::<char>::empty(),
                Seq::<char>::empty(),
            ),
    ensures
        padded_entries_text(es, ps) == render_entries(es),
    decreases es.len(),
{
    if es.len() == 1 {
        assert(padded_pair_text(es[0].0, es[0].1, ps[0]) =~= render_pair(es[0].0, es[0].1));
    } else if es.len() > 1 {
        lemma_padded_entries_unpadded(es.drop_first(), ps.drop_first());
        assert(padded_pair_text(es[0].0, es[0].1, ps[0]) =~= render_pair(es[0].0, es[0].1));
        assert(padded_entries_text(es, ps) =~= render_entries(es));
    }
}

/// SHAPE OF EVERY FLAT DOCUMENT.  Parsing the rendered document of any
/// list of renderable key/value pairs succeeds, reports the object
/// complete, and yields a mapping with exactly one entry per key, a later
/// duplicate key overwriting an earlier one.
pub proof fn theorem_flat_document(es: Seq<(Seq<char>, MemberV)>)
    requires
        entries_renderable(es),
    ensures
        spec_parse(render_document(es)) == Ok::<JsonV, ParseError>(
            JsonV { map: entries_to_map(es), current_object: false, is_json: true },
        ),
        forall|key: Seq<char>|
            entries_to_map(es).contains_key(key) <==> exists|i: int|
                0 <= i < es.len() && (#[trigger] es[i]).0 == key,
        forall|i: int|
            0 <= i < es.len() && (forall|j: int|
                i < j < es.len() ==> (#[trigger] es[j]).0 != es[i].0) ==> entries_to_map(
                es,
            )[(#[trigger] es[i]).0] == es[i].1,
{
    let ps = Seq::new(
        es.len(),
        |i: int|
            (
                Seq::<char>::empty(),
                Seq::<char>::empty(),
                Seq::<char>::empty(),
                Seq::<char>::empty(),
            ),
    );
    lemma_padded_entries_unpadded(es, ps);
    assert(padded_document(es, ps, Seq::empty(), Seq::empty(), Seq::empty()) =~= render_document(
        es,
    ));
    theorem_flat_document_padded(es, ps, Seq::empty(), Seq::empty(), Seq::empty());
    assert forall|key: Seq<char>|
        entries_to_map(es).contains_key(key) <==> exists|i: int|
            0 <= i < es.len() && (#[trigger] es[i]).0 == key by {
        lemma_entries_to_map_contains(es, key);
    }
    assert forall|i: int|
        0 <= i < es.len() && (forall|j: int|
            i < j < es.len() ==> (#[trigger] es[j]).0 != es[i].0) implies entries_to_map(
        es,
    )[(es[i]).0] == es[i].1 by {
        lemma_entries_to_map_last(es, i);
    }
}

/// IDEMPOTENCE OF RENDER AND PARSE.  Re-parsing the rendered document of
/// a parsed object yields an object with equal entries, whenever every
/// committed entry renders faithfully.
pub proof fn theorem_reparse_round_trip(j: JSON)
    requires
        j.map.wf(),
        entries_renderable(j.map.entries_view()),
    ensures
        spec_parse(render_document(j.map.entries_view())) == Ok::<JsonV, ParseError>(
            JsonV { map: j@.map, current_object: false, is_json: true },
        ),
{
    theorem_flat_document(j.map.entries_view());
}

/// A text of whitespace only.
pub open spec fn ws_only(w: Seq<char>) -> bool {
    forall|i: int| 0 <= i < w.len() ==> is_ws_char(#[trigger] w[i])
}

/// A value in progress that swallows whitespace unchanged: not yet started,
/// a boolean literal, or a number whose sign is already applied.  (A pending
/// negative number is instead finalized in place by whitespace.)
pub open spec fn ws_neutral_value(m: MemberV) -> bool {
    match m {
        MemberV::Empty => true,
        MemberV::Bool(_) => true,
        MemberV::Num(n) => !n.is_negative,
        _ => false,
    }
}

/// States in which one whitespace character changes nothing: nothing is
/// being accumulated, or the value in progress swallows whitespace.
pub open spec fn ws_transparent(st: StateV) -> bool {
    ||| (!st.pair.current_value && !st.pair.current_key)
    ||| (st.json.current_object && st.pair.current_value && !st.arr.is_array && ws_neutral_value(
        st.pair.value,
    ))
    ||| (st.json.current_object && st.pair.current_value && st.arr.is_array && ws_neutral_value(
        st.arr.data,
    ))
}

/// Whitespace is skipped, character by character, in any transparent state.
pub proof fn lemma_run_ws_transparent(st: StateV, w: Seq<char>)
    requires
        ws_only(w),
        ws_transparent(st),
    ensures
        spec_run(st, w) == Ok::<StateV, ParseError>(st),
    decreases w.len(),
{
    if w.len() > 0 {
        let c = w[0];
        assert(is_ws_char(c));
        assert(!structural_char(c));
        assert(spec_create_value(c) == MemberV::Empty);
        assert(spec_step(st, c) == Ok::<StateV, ParseError>(st));
        lemma_run_ws_transparent(st, w.drop_first());
    }
}

/// From the committable state of a pair, whitespace may precede the
/// boundary: the run stays successful, and the boundary that follows still
/// commits exactly the pair's value — a comma reaching the state between
/// pairs, a closing brace also closing the object.
pub proof fn lemma_pending_ws(
    mp: Map<Seq<char>, MemberV>,
    isj: bool,
    k: Seq<char>,
    m: MemberV,
    w: Seq<char>,
)
    requires
        key_ok(k),
        member_renderable(m),
        ws_only(w),
    ensures
        ({
            let r = spec_run(pending_state(mp, isj, k, m), w);
            &&& r is Ok
            &&& spec_step(r->Ok_0, ',') == Ok::<StateV, ParseError>(
                ready_state(mp.insert(k, m), isj),
            )
            &&& spec_step(r->Ok_0, '}') == Ok::<StateV, ParseError>(
                closed_state(mp.insert(k, m)),
            )
        }),
    decreases w.len(),
{
    let pend = pending_state(mp, isj, k, m);
    lemma_pre_value(m);
    assert(k.len() > 0);
    if ws_transparent(pend) {
        lemma_run_ws_transparent(pend, w);
        assert(spec_commit_pair(pend).json.map == mp.insert(k, m));
        assert(spec_step(pend, ',') == Ok::<StateV, ParseError>(
            ready_state(mp.insert(k, m), isj),
        ));
        assert(spec_step(pend, '}') == Ok::<StateV, ParseError>(closed_state(mp.insert(k, m))));
    } else {
        // the value in progress is a pending negative number: the first
        // whitespace character applies its sign in place
        assert(pending_cv(m));
        let n0 = pre_value(m)->Num_0;
        if w.len() == 0 {
            assert(spec_commit_pair(pend).json.map == mp.insert(k, m));
            assert(spec_step(pend, ',') == Ok::<StateV, ParseError>(
                ready_state(mp.insert(k, m), isj),
            ));
            assert(spec_step(pend, '}') == Ok::<StateV, ParseError>(
                closed_state(mp.insert(k, m)),
            ));
        } else {
            let c = w[0];
            assert(is_ws_char(c));
            assert(!structural_char(c));
            assert(MemberV::Num(spec_apply_sign(n0)) == m);
            let settled = StateV {
                pair: PairV {
                    key: k,
                    value: m,
                    current_key: false,
                    current_value: true,
                    is_escaped: false,
                },
                json: JsonV { map: mp, current_object: true, is_json: isj },
                arr: clean_arr(),
            };
            assert(spec_step(pend, c) == Ok::<StateV, ParseError>(settled));
            assert(ws_transparent(settled));
            lemma_run_ws_transparent(settled, w.drop_first());
            assert(spec_finalize_member(m) == m);
            assert(spec_commit_pair(settled).json.map == mp.insert(k, m));
            assert(spec_step(settled, ',') == Ok::<StateV, ParseError>(
                ready_state(mp.insert(k, m), isj),
            ));
            assert(spec_step(settled, '}') == Ok::<StateV, ParseError>(
                closed_state(mp.insert(k, m)),
            ));
        }
    }
}

/// The four paddings around one pair are all whitespace.
pub open spec fn pad_ok(p: (Seq<char>, Seq<char>, Seq<char>, Seq<char>)) -> bool {
    ws_only(p.0) && ws_only(p.1) && ws_only(p.2) && ws_only(p.3)
}

/// Every pair's paddings are whitespace.
pub open spec fn pads_ok(ps: Seq<(Seq<char>, Seq<char>, Seq<char>, Seq<char>)>) -> bool {
    forall|i: int| 0 <= i < ps.len() ==> pad_ok(#[trigger] ps[i])
}

/// One pair's text up to its value, with padding before the opening quote,
/// before the colon, and after the colon.
pub open spec fn padded_pair_head(
    k: Seq<char>,
    m: MemberV,
    p: (Seq<char>, Seq<char>, Seq<char>, Seq<char>),
) -> Seq<char> {
    p.0 + seq!['"'] + k + seq!['"'] + p.1 + seq![':'] + p.2 + render_value(m)
}

/// One whole padded pair: its head followed by the padding after the value.
pub open spec fn padded_pair_text(
    k: Seq<char>,
    m: MemberV,
    p: (Seq<char>, Seq<char>, Seq<char>, Seq<char>),
) -> Seq<char> {
    padded_pair_head(k, m, p) + p.3
}

/// A comma-separated list of padded pairs.
pub open spec fn padded_entries_text(
    es: Seq<(Seq<char>, MemberV)>,
    ps: Seq<(Seq<char>, Seq<char>, Seq<char>, Seq<char>)>,
) -> Seq<char>
    decreases es.len(),
{
    if es.len() == 0 {
        Seq::empty()
    } else if es.len() == 1 {
        padded_pair_text(es[0].0, es[0].1, ps[0])
    } else {
        padded_pair_text(es[0].0, es[0].1, ps[0]) + seq![','] + padded_entries_text(
            es.drop_first(),
            ps.drop_first(),
        )
    }
}

/// A whole document with whitespace between its tokens: before the brace,
/// after it, around every pair's quotes, colon and boundary, and after the
/// matching close.
pub open spec fn padded_document(
    es: Seq<(Seq<char>, MemberV)>,
    ps: Seq<(Seq<char>, Seq<char>, Seq<char>, Seq<char>)>,
    w0: Seq<char>,
    w1: Seq<char>,
    w2: Seq<char>,
) -> Seq<char> {
    w0 + seq!['{'] + w1 + padded_entries_text(es, ps) + seq!['}'] + w2
}

/// Scanning one padded pair's head from the state between pairs reaches the
/// committable state of its value under its key.
pub proof fn lemma_scan_pair_padded(
    mp: Map<Seq<char>, MemberV>,
    isj: bool,
    k: Seq<char>,
    m: MemberV,
    p: (Seq<char>, Seq<char>, Seq<char>, Seq<char>),
)
    requires
        key_ok(k),
        member_renderable(m),
        pad_ok(p),
    ensures
        spec_run(ready_state(mp, isj), padded_pair_head(k, m, p)) == Ok::<StateV, ParseError>(
            pending_state(mp, isj, k, m),
        ),
{
    let st0 = ready_state(mp, isj);
    assert(padded_pair_head(k, m, p) =~= p.0 + (seq!['"'] + (k + (seq!['"'] + (p.1 + (seq![':']
        + (p.2 + render_value(m))))))));
    lemma_run_app(st0, p.0, seq!['"'] + (k + (seq!['"'] + (p.1 + (seq![':'] + (p.2 + render_value(
        m,
    )))))));
    lemma_run_ws_transparent(st0, p.0);
    lemma_run_app(st0, seq!['"'], k + (seq!['"'] + (p.1 + (seq![':'] + (p.2 + render_value(m))))));
    lemma_run_one(st0, '"');
    let key_st = StateV {
        pair: PairV {
            key: Seq::empty(),
            value: MemberV::Empty,
            current_key: true,
            current_value: false,
            is_escaped: false,
        },
        json: st0.json,
        arr: clean_arr(),
    };
    assert(spec_step(st0, '"') == Ok::<StateV, ParseError>(key_st));
    lemma_run_app(key_st, k, seq!['"'] + (p.1 + (seq![':'] + (p.2 + render_value(m)))));
    lemma_run_key_chars(key_st, k);
    let keyed_st = StateV {
        pair: PairV {
            key: Seq::<char>::empty() + k,
            value: MemberV::Empty,
            current_key: true,
            current_value: false,
            is_escaped: false,
        },
        json: st0.json,
        arr: clean_arr(),
    };
    assert(Seq::<char>::empty() + k =~= k);
    lemma_run_app(keyed_st, seq!['"'], p.1 + (seq![':'] + (p.2 + render_value(m))));
    lemma_run_one(keyed_st, '"');
    let closed_key_st = StateV {
        pair: PairV {
            key: k,
            value: MemberV::Empty,
            current_key: false,
            current_value: false,
            is_escaped: false,
        },
        json: st0.json,
        arr: clean_arr(),
    };
    assert(spec_step(keyed_st, '"') == Ok::<StateV, ParseError>(closed_key_st));
    lemma_run_app(closed_key_st, p.1, seq![':'] + (p.2 + render_value(m)));
    lemma_run_ws_transparent(closed_key_st, p.1);
    lemma_run_app(closed_key_st, seq![':'], p.2 + render_value(m));
    lemma_run_one(closed_key_st, ':');
    assert(k.len() > 0);
    assert(spec_step(closed_key_st, ':') == Ok::<StateV, ParseError>(value_state(mp, isj, k)));
    lemma_run_app(value_state(mp, isj, k), p.2, render_value(m));
    lemma_run_ws_transparent(value_state(mp, isj, k), p.2);
    lemma_scan_value(mp, isj, k, m);
}

/// Scanning a non-empty padded entry list followed by the closing brace
/// commits every entry in order and closes the object.
pub proof fn lemma_scan_entries_padded(
    mp: Map<Seq<char>, MemberV>,
    isj: bool,
    es: Seq<(Seq<char>, MemberV)>,
    ps: Seq<(Seq<char>, Seq<char>, Seq<char>, Seq<char>)>,
)
    requires
        es.len() >= 1,
        entries_renderable(es),
        ps.len() == es.len(),
        pads_ok(ps),
    ensures
        spec_run(ready_state(mp, isj), padded_entries_text(es, ps) + seq!['}']) == Ok::<
            StateV,
            ParseError,
        >(closed_state(insert_entries(mp, es))),
    decreases es.len(),
{
    reveal_with_fuel(insert_entries, 3);
    let st0 = ready_state(mp, isj);
    let head = padded_pair_head(es[0].0, es[0].1, ps[0]);
    let p3 = ps[0].3;
    lemma_scan_pair_padded(mp, isj, es[0].0, es[0].1, ps[0]);
    lemma_pending_ws(mp, isj, es[0].0, es[0].1, p3);
    let pend = pending_state(mp, isj, es[0].0, es[0].1);
    let settled = spec_run(pend, p3)->Ok_0;
    if es.len() == 1 {
        assert(padded_entries_text(es, ps) + seq!['}'] =~= head + (p3 + seq!['}']));
        lemma_run_app(st0, head, p3 + seq!['}']);
        lemma_run_app(pend, p3, seq!['}']);
        lemma_run_one(settled, '}');
        assert(insert_entries(mp, es) =~= mp.insert(es[0].0, es[0].1));
    } else {
        let rest = es.drop_first();
        let prest = ps.drop_first();
        assert(padded_entries_text(es, ps) + seq!['}'] =~= head + (p3 + (seq![',']
            + (padded_entries_text(rest, prest) + seq!['}']))));
        lemma_run_app(st0, head, p3 + (seq![','] + (padded_entries_text(rest, prest)
            + seq!['}'])));
        lemma_run_app(pend, p3, seq![','] + (padded_entries_text(rest, prest) + seq!['}']));
        lemma_run_app(settled, seq![','], padded_entries_text(rest, prest) + seq!['}']);
        lemma_run_one(settled, ',');
        let mp2 = mp.insert(es[0].0, es[0].1);
        assert(entries_renderable(rest));
        assert(pads_ok(prest));
        lemma_scan_entries_padded(mp2, isj, rest, prest);
    }
}

/// SHAPE OF EVERY FLAT DOCUMENT, WHITESPACE INCLUDED.  Parsing a rendered
/// document with any whitespace between its tokens — before and after the
/// braces, around each pair's quotes and colon, and before each boundary —
/// succeeds, reports the object complete, and yields the mapping of its
/// entries, a later duplicate key overwriting an earlier one.
pub proof fn theorem_flat_document_padded(
    es: Seq<(Seq<char>, MemberV)>,
    ps: Seq<(Seq<char>, Seq<char>, Seq<char>, Seq<char>)>,
    w0: Seq<char>,
    w1: Seq<char>,
    w2: Seq<char>,
)
    requires
        entries_renderable(es),
        ps.len() == es.len(),
        pads_ok(ps),
        ws_only(w0),
        ws_only(w1),
        ws_only(w2),
    ensures
        spec_parse(padded_document(es, ps, w0, w1, w2)) == Ok::<JsonV, ParseError>(
            JsonV { map: entries_to_map(es), current_object: false, is_json: true },
        ),
{
    let st0 = init_state();
    let ready = ready_state(Map::empty(), false);
    if es.len() == 0 {
        assert(padded_document(es, ps, w0, w1, w2) =~= w0 + (seq!['{'] + (w1 + (seq!['}']
            + w2))));
        lemma_run_app(st0, w0, seq!['{'] + (w1 + (seq!['}'] + w2)));
        lemma_run_ws_transparent(st0, w0);
        lemma_run_app(st0, seq!['{'], w1 + (seq!['}'] + w2));
        lemma_run_one(st0, '{');
        assert(spec_step(st0, '{') == Ok::<StateV, ParseError>(ready));
        lemma_run_app(ready, w1, seq!['}'] + w2);
        lemma_run_ws_transparent(ready, w1);
        lemma_run_app(ready, seq!['}'], w2);
        lemma_run_one(ready, '}');
        assert(spec_step(ready, '}') == Ok::<StateV, ParseError>(
            closed_state(Map::empty()),
        ));
        lemma_run_ws_transparent(closed_state(Map::empty()), w2);
        assert(entries_to_map(es) =~= Map::<Seq<char>, MemberV>::empty());
    } else {
        assert(padded_document(es, ps, w0, w1, w2) =~= w0 + (seq!['{'] + (w1
            + ((padded_entries_text(es, ps) + seq!['}']) + w2))));
        lemma_run_app(st0, w0, seq!['{'] + (w1 + ((padded_entries_text(es, ps) + seq!['}'])
            + w2)));
        lemma_run_ws_transparent(st0, w0);
        lemma_run_app(st0, seq!['{'], w1 + ((padded_entries_text(es, ps) + seq!['}']) + w2));
        lemma_run_one(st0, '{');
        assert(spec_step(st0, '{') == Ok::<StateV, ParseError>(ready));
        lemma_run_app(ready, w1, (padded_entries_text(es, ps) + seq!['}']) + w2);
        lemma_run_ws_transparent(ready, w1);
        lemma_run_app(ready, padded_entries_text(es, ps) + seq!['}'], w2);
        lemma_scan_entries_padded(Map::empty(), false, es, ps);
        lemma_run_ws_transparent(closed_state(insert_entries(Map::empty(), es)), w2);
        lemma_insert_entries_eq(es);
    }
}

} // verus!
