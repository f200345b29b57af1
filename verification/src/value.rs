//! The value types a pair or array element may hold, together with their
//! mathematical views and well-formedness conditions.

use vstd::prelude::*;

verus! {

broadcast use vstd::std_specs::vec::axiom_vec_index_decreases;

/// The numeric payload of a number accumulator.  A floating value is kept
/// exactly, as a decimal mantissa and a count of fractional digits, so the
/// parser itself never touches machine floating point.
#[derive(Clone, Copy, PartialEq, Eq, Structural, Debug)]
pub struct Float {
    /// All digits of the number, fractional digits included, read as one
    /// decimal integer: `22.1` is held as mantissa `221`.
    pub mantissa: u64,
    /// How many of the mantissa's trailing digits lie right of the decimal
    /// point: `22.1` has scale `1`.
    pub scale: u32,
    /// Whether the finalized number is negative.  The flag is set once, when
    /// the deferred sign is applied at a pair or element boundary.
    pub negative: bool,
}

/// The kind and magnitude of a number in progress: unsigned, signed or
/// floating, or not yet started.
#[derive(Clone, Copy, PartialEq, Eq, Structural, Debug)]
pub enum Num {
    Uint(u32),
    Int(i32),
    Flt(Float),
    Empty,
}

/// A number accumulator.  Digits are folded into `value` left to right;
/// `digit` counts the digits folded since the kind was last chosen, and the
/// sign is recorded in `is_negative` but only applied at a boundary.
#[derive(Clone, Copy, PartialEq, Eq, Structural, Debug)]
pub struct Number {
    pub value: Num,
    pub digit: u32,
    pub is_negative: bool,
}

/// A boolean literal accumulator: the characters matched so far against the
/// expected literal (`true` or `false`), and the index of the character the
/// accumulator expects next.
#[derive(Clone, Debug, PartialEq)]
pub struct Booler {
    pub value: bool,
    pub current: String,
    pub correct: String,
    pub index: usize,
}

/// The mathematical view of a [`Booler`].
pub ghost struct BoolerV {
    pub value: bool,
    pub current: Seq<char>,
    pub correct: Seq<char>,
    pub index: int,
}

/// A value held by a pair or an array element: exactly one variant is active
/// at a time, and `Empty` (no value started yet) is never committed into the
/// final object.
#[derive(Debug, PartialEq)]
pub enum Member {
    Str(String),
    Num(Number),
    Bool(Booler),
    Arr(Vec<Member>),
    Empty,
}

/// The mathematical view of a [`Member`].
#[verifier::ext_equal]
pub ghost enum MemberV {
    Str(Seq<char>),
    Num(Number),
    Bool(BoolerV),
    Arr(Seq<MemberV>),
    Empty,
}

impl View for Booler {
    type V = BoolerV;

    open spec fn view(&self) -> BoolerV {
        BoolerV {
            value: self.value,
            current: self.current@,
            correct: self.correct@,
            index: self.index as int,
        }
    }
}

/// The view of an array element.  Elements are always scalars: the machine
/// never nests an array inside an array, and [`member_wf`] rules it out, so
/// the nested-array case is mapped to `Empty`.
pub open spec fn scalar_view(m: Member) -> MemberV {
    match m {
        Member::Str(s) => MemberV::Str(s@),
        Member::Num(n) => MemberV::Num(n),
        Member::Bool(b) => MemberV::Bool(b@),
        Member::Arr(_) => MemberV::Empty,
        Member::Empty => MemberV::Empty,
    }
}

pub open spec fn member_view(m: Member) -> MemberV {
    match m {
        Member::Str(s) => MemberV::Str(s@),
        Member::Num(n) => MemberV::Num(n),
        Member::Bool(b) => MemberV::Bool(b@),
        Member::Arr(es) => MemberV::Arr(Seq::new(es@.len(), |i: int| scalar_view(es@[i]))),
        Member::Empty => MemberV::Empty,
    }
}

impl View for Member {
    type V = MemberV;

    open spec fn view(&self) -> MemberV {
        member_view(*self)
    }
}

/// The boolean accumulator's invariant: the matched text is always a
/// prefix of the expected literal, and the index rests on the next
/// expected character, capped at the literal's last position once the
/// whole literal has been matched.
pub open spec fn booler_wf(b: BoolerV) -> bool {
    &&& 0 <= b.index < b.correct.len()
    &&& b.current.len() <= b.correct.len()
    &&& b.current == b.correct.take(b.current.len() as int)
    &&& b.index == (if b.current.len() < b.correct.len() {
        b.current.len() as int
    } else {
        b.correct.len() - 1
    })
}

/// While the deferred sign is still pending, the magnitude is non-negative
/// and unsigned, so applying the sign at a boundary cannot overflow.
pub open spec fn number_wf(n: Number) -> bool {
    n.is_negative ==> {
        &&& (n.value matches Num::Int(i) ==> i >= 0)
        &&& (n.value matches Num::Flt(f) ==> !f.negative)
    }
}

/// Well-formedness of a value: boolean accumulators stay inside their
/// literal, pending numbers keep an unsigned magnitude, and arrays are flat
/// sequences of such scalars.
pub open spec fn member_wf(m: MemberV) -> bool
    decreases m,
{
    match m {
        MemberV::Bool(b) => booler_wf(b),
        MemberV::Num(n) => number_wf(n),
        MemberV::Arr(es) => forall|i: int|
            0 <= i < es.len() ==> member_wf(#[trigger] es[i]) && !(es[i] is Arr),
        _ => true,
    }
}

} // verus!
