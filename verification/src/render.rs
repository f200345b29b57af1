//! Rendering: the textual form of values and documents.
//!
//! Two forms exist.  The document form (`render_value`, `render_document`)
//! writes a value as it would stand in a document — strings quoted and
//! escaped — and is the form the round-trip laws re-parse.  The plain form
//! (`Member::render`) is the human-readable collaborator interface: strings
//! verbatim, numbers in decimal, booleans as their literals.

use vstd::prelude::*;
use vstd::string::StringExecFns;

use crate::model::false_lit;
use crate::model::true_lit;
use crate::object::JSON;
use crate::value::member_view;
use crate::value::member_wf;
use crate::value::scalar_view;
use crate::value::Float;
use crate::value::Member;
use crate::value::MemberV;
use crate::value::Num;
use crate::value::Number;

verus! {

broadcast use vstd::std_specs::vec::axiom_vec_index_decreases;

/// Ten to the `k`.
pub open spec fn pow10(k: nat) -> nat
    decreases k,
{
    if k == 0 {
        1
    } else {
        10 * pow10((k - 1) as nat)
    }
}

/// The character of one decimal digit.
pub open spec fn digit_char_of(d: nat) -> char {
    ((d + 48) as u32) as char
}

/// The decimal digits of a number, most significant first, with no leading
/// zeros (zero itself is the single digit `0`).
pub open spec fn dec_digits(n: nat) -> Seq<char>
    decreases n,
{
    if n < 10 {
        seq![digit_char_of(n)]
    } else {
        dec_digits(n / 10).push(digit_char_of(n % 10))
    }
}

/// The last `k` decimal digits of `m`, zero padded, most significant first:
/// the fractional digits of a floating value of scale `k`.
pub open spec fn frac_digits(m: nat, k: nat) -> Seq<char>
    decreases k,
{
    if k == 0 {
        Seq::empty()
    } else {
        frac_digits(m / 10, (k - 1) as nat).push(digit_char_of(m % 10))
    }
}

/// The textual form of a floating value: optional sign, the whole part, a
/// decimal point, and exactly `scale` fractional digits.
pub open spec fn render_float(f: Float) -> Seq<char> {
    let sign: Seq<char> = if f.negative {
        seq!['-']
    } else {
        Seq::empty()
    };
    sign + dec_digits((f.mantissa as nat) / pow10(f.scale as nat)) + seq!['.'] + frac_digits(
        f.mantissa as nat,
        f.scale as nat,
    )
}

/// The textual form of a number.
pub open spec fn render_num(n: Number) -> Seq<char> {
    match n.value {
        Num::Uint(u) => dec_digits(u as nat),
        Num::Int(i) => if i < 0 {
            seq!['-'] + dec_digits((-(i as int)) as nat)
        } else {
            dec_digits(i as nat)
        },
        Num::Flt(f) => render_float(f),
        Num::Empty => Seq::empty(),
    }
}

/// One string character as it stands in a document: the quote, the
/// backslash and the three decoded control characters are escaped, anything
/// else stands for itself.
pub open spec fn escape_char(c: char) -> Seq<char> {
    if c == '"' {
        seq!['\\', '"']
    } else if c == '\\' {
        seq!['\\', '\\']
    } else if c == '\n' {
        seq!['\\', 'n']
    } else if c == '\t' {
        seq!['\\', 't']
    } else if c == '\r' {
        seq!['\\', 'r']
    } else {
        seq![c]
    }
}

/// A string's content as it stands in a document, character by character.
pub open spec fn escape_string(s: Seq<char>) -> Seq<char>
    decreases s.len(),
{
    if s.len() == 0 {
        Seq::empty()
    } else {
        escape_char(s[0]) + escape_string(s.drop_first())
    }
}

/// The document form of a scalar: a quoted, escaped string, a number, or a
/// boolean literal.
pub open spec fn render_scalar(m: MemberV) -> Seq<char> {
    match m {
        MemberV::Str(s) => seq!['"'] + escape_string(s) + seq!['"'],
        MemberV::Num(n) => render_num(n),
        MemberV::Bool(b) => if b.value {
            true_lit()
        } else {
            false_lit()
        },
        _ => Seq::empty(),
    }
}

/// The document form of an array's elements, separated by commas.
pub open spec fn render_elements(es: Seq<MemberV>) -> Seq<char>
    decreases es.len(),
{
    if es.len() == 0 {
        Seq::empty()
    } else if es.len() == 1 {
        render_scalar(es[0])
    } else {
        render_scalar(es[0]) + seq![','] + render_elements(es.drop_first())
    }
}

/// The document form of any value.
pub open spec fn render_value(m: MemberV) -> Seq<char> {
    match m {
        MemberV::Arr(es) => seq!['['] + render_elements(es) + seq![']'],
        _ => render_scalar(m),
    }
}

/// The document form of one key/value pair.
pub open spec fn render_pair(k: Seq<char>, v: MemberV) -> Seq<char> {
    seq!['"'] + k + seq!['"'] + seq![':'] + render_value(v)
}

/// The document form of an entry list, separated by commas.
pub open spec fn render_entries(es: Seq<(Seq<char>, MemberV)>) -> Seq<char>
    decreases es.len(),
{
    if es.len() == 0 {
        Seq::empty()
    } else if es.len() == 1 {
        render_pair(es[0].0, es[0].1)
    } else {
        render_pair(es[0].0, es[0].1) + seq![','] + render_entries(es.drop_first())
    }
}

/// A whole document: the entries between one pair of braces.
pub open spec fn render_document(es: Seq<(Seq<char>, MemberV)>) -> Seq<char> {
    seq!['{'] + render_entries(es) + seq!['}']
}

/// The plain, human-readable form of a value: strings verbatim, numbers in
/// decimal, booleans as their literals, and placeholders for the rest.
pub open spec fn render_plain(m: MemberV) -> Seq<char> {
    match m {
        MemberV::Str(s) => s,
        MemberV::Bool(b) => if b.value {
            true_lit()
        } else {
            false_lit()
        },
        MemberV::Num(n) => if n.value is Empty {
            "Empty number"@
        } else {
            render_num(n)
        },
        MemberV::Arr(_) => "[ Might be something in here ]"@,
        MemberV::Empty => "Not quite done yet"@,
    }
}

/// Appending one pair to a non-empty entry list appends a comma and the
/// pair's text; to an empty list, just the pair's text.
pub proof fn lemma_render_entries_push(es: Seq<(Seq<char>, MemberV)>, e: (Seq<char>, MemberV))
    ensures
        es.len() == 0 ==> render_entries(es.push(e)) == render_pair(e.0, e.1),
        es.len() > 0 ==> render_entries(es.push(e)) == render_entries(es) + seq![',']
            + render_pair(e.0, e.1),
    decreases es.len(),
{
    if es.len() == 0 {
        assert(es.push(e)[0] == e);
    } else {
        lemma_render_entries_push(es.drop_first(), e);
        assert(es.push(e).drop_first() =~= es.drop_first().push(e));
        assert(es.push(e)[0] == es[0]);
        if es.len() == 1 {
            assert(es.drop_first().len() == 0);
        } else {
            assert((render_pair(es[0].0, es[0].1) + seq![','] + (render_entries(es.drop_first())
                + seq![','] + render_pair(e.0, e.1))) =~= ((render_pair(es[0].0, es[0].1)
                + seq![','] + render_entries(es.drop_first())) + seq![','] + render_pair(
                e.0,
                e.1,
            )));
        }
    }
}

/// Ten to the anything is positive.
pub proof fn lemma_pow10_pos(k: nat)
    ensures
        pow10(k) > 0,
    decreases k,
{
    if k > 0 {
        lemma_pow10_pos((k - 1) as nat);
    }
}

/// Escaping one more character appends its escape.
pub proof fn lemma_escape_push(s: Seq<char>, c: char)
    ensures
        escape_string(s.push(c)) == escape_string(s) + escape_char(c),
    decreases s.len(),
{
    if s.len() == 0 {
        assert(s.push(c)[0] == c);
        assert(s.push(c).drop_first() =~= Seq::<char>::empty());
        assert(escape_char(c) + escape_string(Seq::empty()) =~= Seq::<char>::empty()
            + escape_char(c));
    } else {
        assert(s.push(c)[0] == s[0]);
        assert(s.push(c).drop_first() =~= s.drop_first().push(c));
        lemma_escape_push(s.drop_first(), c);
        assert((escape_char(s[0]) + (escape_string(s.drop_first()) + escape_char(c))) =~= ((
        escape_char(s[0]) + escape_string(s.drop_first())) + escape_char(c)));
    }
}

/// The element-list analogue of [`lemma_render_entries_push`].
pub proof fn lemma_render_elements_push(es: Seq<MemberV>, e: MemberV)
    ensures
        es.len() == 0 ==> render_elements(es.push(e)) == render_scalar(e),
        es.len() > 0 ==> render_elements(es.push(e)) == render_elements(es) + seq![',']
            + render_scalar(e),
    decreases es.len(),
{
    if es.len() == 0 {
        assert(es.push(e)[0] == e);
    } else {
        lemma_render_elements_push(es.drop_first(), e);
        assert(es.push(e).drop_first() =~= es.drop_first().push(e));
        assert(es.push(e)[0] == es[0]);
        if es.len() == 1 {
            assert(es.drop_first().len() == 0);
        } else {
            assert((render_scalar(es[0]) + seq![','] + (render_elements(es.drop_first())
                + seq![','] + render_scalar(e))) =~= ((render_scalar(es[0]) + seq![',']
                + render_elements(es.drop_first())) + seq![','] + render_scalar(e)));
        }
    }
}

/// The character of one decimal digit.
fn digit_to_char(d: u64) -> (c: char)
    requires
        d < 10,
    ensures
        c == digit_char_of(d as nat),
{
    ((d as u8) + 48) as char
}

/// Append the decimal digits of `x`.
fn push_digits(out: &mut String, x: u64)
    ensures
        final(out)@ == old(out)@ + dec_digits(x as nat),
    decreases x,
{
    if x < 10 {
        out.push(digit_to_char(x));
        proof {
            assert(old(out)@.push(digit_char_of(x as nat)) =~= old(out)@ + dec_digits(x as nat));
        }
    } else {
        push_digits(out, x / 10);
        out.push(digit_to_char(x % 10));
        proof {
            assert((old(out)@ + dec_digits((x / 10) as nat)).push(digit_char_of((x % 10) as nat))
                =~= old(out)@ + dec_digits(x as nat));
        }
    }
}

/// Append the last `k` decimal digits of `m`, zero padded.
fn push_frac_digits(out: &mut String, m: u64, k: u32)
    ensures
        final(out)@ == old(out)@ + frac_digits(m as nat, k as nat),
    decreases k,
{
    if k == 0 {
        proof {
            assert(old(out)@ + frac_digits(m as nat, 0) =~= old(out)@);
        }
    } else {
        push_frac_digits(out, m / 10, k - 1);
        out.push(digit_to_char(m % 10));
        proof {
            assert((old(out)@ + frac_digits((m / 10) as nat, (k - 1) as nat)).push(
                digit_char_of((m % 10) as nat),
            ) =~= old(out)@ + frac_digits(m as nat, k as nat));
        }
    }
}

/// Divide by ten to the `k`.
fn div_pow10(m: u64, k: u32) -> (r: u64)
    ensures
        r as nat == (m as nat) / pow10(k as nat),
    decreases k,
{
    if k == 0 {
        proof {
            assert((m as nat) / pow10(0) == m as nat) by (nonlinear_arith);
        }
        m
    } else {
        let r = div_pow10(m / 10, k - 1);
        proof {
            lemma_pow10_pos((k - 1) as nat);
            vstd::arithmetic::div_mod::lemma_div_denominator(
                m as int,
                10,
                pow10((k - 1) as nat) as int,
            );
            assert(pow10(k as nat) == 10 * pow10((k - 1) as nat));
        }
        r
    }
}

/// The decimal text of a number: unsigned or signed digits, or the exact
/// decimal form of a floating value.
fn render_number(n: Number) -> (out: String)
    ensures
        out@ == render_num(n),
{
    match n.value {
        Num::Uint(u) => {
            let mut s = String::new();
            push_digits(&mut s, u as u64);
            proof {
                assert(Seq::<char>::empty() + dec_digits(u as nat) =~= dec_digits(u as nat));
            }
            s
        },
        Num::Int(i) => {
            let mut s = String::new();
            if i < 0 {
                s.push('-');
                let mag = (-(i as i64)) as u64;
                push_digits(&mut s, mag);
                proof {
                    assert(Seq::<char>::empty().push('-') =~= seq!['-']);
                    assert(seq!['-'] + dec_digits(mag as nat) =~= render_num(n));
                }
            } else {
                push_digits(&mut s, i as u64);
                proof {
                    assert(Seq::<char>::empty() + dec_digits(i as nat) =~= dec_digits(i as nat));
                }
            }
            s
        },
        Num::Flt(f) => {
            let mut s = String::new();
            if f.negative {
                s.push('-');
            }
            let ghost sign = s@;
            let whole = div_pow10(f.mantissa, f.scale);
            push_digits(&mut s, whole);
            s.push('.');
            push_frac_digits(&mut s, f.mantissa, f.scale);
            proof {
                let wd = dec_digits((f.mantissa as nat) / pow10(f.scale as nat));
                let fd = frac_digits(f.mantissa as nat, f.scale as nat);
                if f.negative {
                    assert(sign =~= seq!['-']);
                } else {
                    assert(sign =~= Seq::<char>::empty());
                }
                assert((sign + wd).push('.') =~= sign + wd + seq!['.']);
                assert(((sign + wd).push('.')) + fd =~= sign + wd + seq!['.'] + fd);
            }
            s
        },
        Num::Empty => String::new(),
    }
}

/// Append a string's content in its document form, escaping as it goes.
fn push_escaped(out: &mut String, s: &str)
    ensures
        final(out)@ == old(out)@ + escape_string(s@),
{
    let n = s.unicode_len();
    let mut i: usize = 0;
    proof {
        assert(s@.take(0) =~= Seq::<char>::empty());
        assert(old(out)@ + escape_string(s@.take(0)) =~= old(out)@);
    }
    while i < n
        invariant
            n == s@.len(),
            i <= n,
            out@ == old(out)@ + escape_string(s@.take(i as int)),
        decreases n - i,
    {
        let c = s.get_char(i);
        let ghost before = out@;
        if c == '"' {
            out.push('\\');
            out.push('"');
        } else if c == '\\' {
            out.push('\\');
            out.push('\\');
        } else if c == '\n' {
            out.push('\\');
            out.push('n');
        } else if c == '\t' {
            out.push('\\');
            out.push('t');
        } else if c == '\r' {
            out.push('\\');
            out.push('r');
        } else {
            out.push(c);
        }
        proof {
            assert(out@ =~= before + escape_char(c));
            lemma_escape_push(s@.take(i as int), c);
            assert(s@.take(i + 1 as int) =~= s@.take(i as int).push(c));
            assert((old(out)@ + escape_string(s@.take(i as int))) + escape_char(c) =~= old(out)@
                + escape_string(s@.take(i + 1 as int)));
        }
        i += 1;
    }
    proof {
        assert(s@.take(n as int) =~= s@);
    }
}

/// The document form of one value.
#[verifier::loop_isolation(false)]
fn value_text(m: &Member) -> (out: String)
    requires
        member_wf(member_view(*m)),
    ensures
        out@ == render_value(member_view(*m)),
    decreases *m,
{
    match m {
        Member::Str(s) => {
            let mut out = String::new();
            out.push('"');
            proof {
                assert(Seq::<char>::empty().push('"') =~= seq!['"']);
            }
            push_escaped(&mut out, s.as_str());
            out.push('"');
            proof {
                assert((seq!['"'] + escape_string(s@)).push('"') =~= seq!['"'] + escape_string(s@)
                    + seq!['"']);
            }
            out
        },
        Member::Num(n) => render_number(*n),
        Member::Bool(b) => {
            if b.value {
                let out = String::from_str("true");
                proof {
                    reveal_strlit("true");
                    assert("true"@ =~= true_lit());
                }
                out
            } else {
                let out = String::from_str("false");
                proof {
                    reveal_strlit("false");
                    assert("false"@ =~= false_lit());
                }
                out
            }
        },
        Member::Arr(es) => {
            let ghost elems = Seq::new(es@.len(), |i: int| scalar_view(es@[i]));
            let mut out = String::new();
            out.push('[');
            proof {
                assert(Seq::<char>::empty().push('[') =~= seq!['[']);
                assert(elems.take(0) =~= Seq::<MemberV>::empty());
                assert(seq!['['] + render_elements(elems.take(0)) =~= seq!['[']);
            }
            proof {
                let elems0 = member_view(*m)->Arr_0;
                assert forall|j: int| 0 <= j < es@.len() implies member_wf(
                    #[trigger] scalar_view(es@[j]),
                ) by {
                    assert(elems0[j] == scalar_view(es@[j]));
                    assert(member_wf(elems0[j]));
                }
            }
            let n = es.len();
            let mut i: usize = 0;
            while i < n
                invariant
                    n == es@.len(),
                    i <= n,
                    elems == Seq::new(es@.len(), |j: int| scalar_view(es@[j])),
                    forall|j: int| 0 <= j < es@.len() ==> member_wf(#[trigger] scalar_view(es@[j])),
                    out@ == seq!['['] + render_elements(elems.take(i as int)),
                decreases n - i,
            {
                let ghost before = out@;
                if i > 0 {
                    out.push(',');
                }
                let ghost mid = out@;
                match &es[i] {
                    Member::Arr(_) => {
                        proof {
                            assert(render_scalar(elems[i as int]) =~= Seq::<char>::empty());
                        }
                    },
                    _ => {
                        proof {
                            assert(member_view(es@[i as int]) == scalar_view(es@[i as int]));
                            assert(*m == Member::Arr(*es));
                            assert(decreases_to!(*m => *es));
                            assert(decreases_to!((*es) => (*es)[i as int]));
                            assert(decreases_to!(*m => (*es)[i as int]));
                        }
                        let t = value_text(&es[i]);
                        out.append(t.as_str());
                        proof {
                            assert(render_value(scalar_view(es@[i as int])) == render_scalar(
                                elems[i as int],
                            ));
                        }
                    },
                }
                proof {
                    assert(out@ =~= mid + render_scalar(elems[i as int]));
                    lemma_render_elements_push(elems.take(i as int), elems[i as int]);
                    assert(elems.take(i + 1 as int) =~= elems.take(i as int).push(
                        elems[i as int],
                    ));
                    assert(out@ =~= seq!['['] + render_elements(elems.take(i + 1 as int)));
                }
                i += 1;
            }
            out.push(']');
            proof {
                assert(elems.take(n as int) =~= elems);
                assert((seq!['['] + render_elements(elems)).push(']') =~= seq!['[']
                    + render_elements(elems) + seq![']']);
            }
            out
        },
        Member::Empty => String::new(),
    }
}

impl Member {
    /// The plain, human-readable text of a value, as a caller would print
    /// it: strings verbatim, numbers in decimal, booleans as `true` or
    /// `false`, placeholders for anything unfinished.
    pub fn render(&self) -> (out: String)
        ensures
            out@ == render_plain(member_view(*self)),
    {
        match self {
            Member::Str(s) => s.clone(),
            Member::Bool(b) => {
                if b.value {
                    let out = String::from_str("true");
                    proof {
                        reveal_strlit("true");
                        assert("true"@ =~= true_lit());
                    }
                    out
                } else {
                    let out = String::from_str("false");
                    proof {
                        reveal_strlit("false");
                        assert("false"@ =~= false_lit());
                    }
                    out
                }
            },
            Member::Num(n) => {
                if matches!(n.value, Num::Empty) {
                    String::from_str("Empty number")
                } else {
                    render_number(*n)
                }
            },
            Member::Arr(_) => String::from_str("[ Might be something in here ]"),
            Member::Empty => String::from_str("Not quite done yet"),
        }
    }
}

impl JSON {
    /// The whole object in document form: the committed entries, in commit
    /// order, between one pair of braces.  Re-parsing this text recovers the
    /// same entries whenever they are renderable (see the round-trip laws).
    pub fn render(&self) -> (out: String)
        requires
            self.map.wf(),
        ensures
            out@ == render_document(self.map.entries_view()),
    {
        let ghost entries = self.map.entries_view();
        let mut out = String::new();
        out.push('{');
        proof {
            assert(Seq::<char>::empty().push('{') =~= seq!['{']);
            assert(entries.take(0) =~= Seq::<(Seq<char>, MemberV)>::empty());
            assert(seq!['{'] + render_entries(entries.take(0)) =~= seq!['{']);
        }
        let n = self.map.entries.len();
        let mut i: usize = 0;
        while i < n
            invariant
                n == self.map.entries@.len(),
                entries == self.map.entries_view(),
                self.map.wf(),
                i <= n,
                out@ == seq!['{'] + render_entries(entries.take(i as int)),
            decreases n - i,
        {
            let ghost before = out@;
            if i > 0 {
                out.push(',');
            }
            out.push('"');
            out.append(self.map.entries[i].key.as_str());
            out.push('"');
            out.push(':');
            proof {
                assert(entries[i as int].1 == member_view(self.map.entries@[i as int].value));
                assert(member_wf(entries[i as int].1));
            }
            let t = value_text(&self.map.entries[i].value);
            out.append(t.as_str());
            proof {
                let e = entries[i as int];
                assert((((before + if i > 0 {
                    seq![',']
                } else {
                    Seq::<char>::empty()
                }).push('"') + e.0).push('"').push(':')) + render_value(e.1) =~= before + (if i
                    > 0 {
                    seq![',']
                } else {
                    Seq::<char>::empty()
                }) + render_pair(e.0, e.1));
                lemma_render_entries_push(entries.take(i as int), e);
                assert(entries.take(i + 1 as int) =~= entries.take(i as int).push(e));
                assert(before + (if i > 0 {
                    seq![',']
                } else {
                    Seq::<char>::empty()
                }) + render_pair(e.0, e.1) =~= seq!['{'] + render_entries(
                    entries.take(i + 1 as int),
                ));
            }
            i += 1;
        }
        out.push('}');
        proof {
            assert(entries.take(n as int) =~= entries);
            assert((seq!['{'] + render_entries(entries)).push('}') =~= render_document(entries));
        }
        out
    }
}

} // verus!
