//! Decimal numerals as they are written: digits with at most one point.

use vstd::prelude::*;
use vstd::string::StringSliceAdditionalSpecFns;

verus! {

/// The decimal point, `.`.
pub const POINT: u8 = 46;

/// The digit `0`.
pub const ZERO: u8 = 48;

/// The digit `9`.
pub const NINE: u8 = 57;

/// `byte` is one of the ASCII digits `0` to `9`.
pub open spec fn is_digit(byte: u8) -> bool {
    ZERO <= byte <= NINE
}

/// `byte` may occur in a numeral: a digit or the point.
pub open spec fn is_numeral_byte(byte: u8) -> bool {
    is_digit(byte) || byte == POINT
}

/// `text` is a numeral: made of digits and points only, with at least one
/// digit and at most one point. `"5"`, `"5."`, `".5"` and `"0.5"` are
/// numerals; `""`, `"."` and `"1.2.3"` are not.
pub open spec fn is_numeral(text: Seq<u8>) -> bool {
    &&& forall|k: int| 0 <= k < text.len() ==> is_numeral_byte(#[trigger] text[k])
    &&& exists|k: int| 0 <= k < text.len() && is_digit(#[trigger] text[k])
    &&& forall|a: int, b: int|
        0 <= a < b < text.len() ==> !(#[trigger] text[a] == POINT && #[trigger] text[b] == POINT)
}

/// Decides whether `byte` is a digit.
pub(crate) fn digit(byte: u8) -> (r: bool)
    ensures
        r == is_digit(byte),
{
    ZERO <= byte && byte <= NINE
}

/// Decides whether `byte` may occur in a numeral.
pub(crate) fn numeral_byte(byte: u8) -> (r: bool)
    ensures
        r == is_numeral_byte(byte),
{
    digit(byte) || byte == POINT
}

/// Decides whether `text[from..to]` is a numeral.
pub(crate) fn numeral(text: &[u8], from: usize, to: usize) -> (r: bool)
    requires
        from <= to <= text@.len(),
    ensures
        r == is_numeral(text@.subrange(from as int, to as int)),
{
    let ghost part = text@.subrange(from as int, to as int);
    let mut points: usize = 0;
    let mut digits: bool = false;
    let mut clean: bool = true;
    let mut at: usize = from;
    let ghost mut first_point: int = -1;
    let ghost mut second_point: int = -1;
    let ghost mut a_digit: int = -1;
    let ghost mut stranger: int = -1;
    while at < to
        invariant
            from <= at <= to <= text@.len(),
            part == text@.subrange(from as int, to as int),
            clean ==> forall|k: int| 0 <= k < at - from ==> is_numeral_byte(#[trigger] part[k]),
            !clean ==> 0 <= stranger < at - from && !is_numeral_byte(part[stranger]),
            digits ==> 0 <= a_digit < at - from && is_digit(part[a_digit]),
            !digits ==> forall|k: int| 0 <= k < at - from ==> !is_digit(#[trigger] part[k]),
            points <= 2,
            points == 0 ==> forall|k: int| 0 <= k < at - from ==> #[trigger] part[k] != POINT,
            points >= 1 ==> 0 <= first_point < at - from && part[first_point] == POINT,
            points == 1 ==> forall|k: int|
                0 <= k < at - from && k != first_point ==> #[trigger] part[k] != POINT,
            points == 2 ==> first_point < second_point < at - from && part[second_point] == POINT,
        decreases to - at,
    {
        let byte = text[at];
        assert(byte == part[at - from]);
        if digit(byte) {
            digits = true;
            proof {
                a_digit = at - from;
            }
        } else if byte == POINT {
            if points == 0 {
                points = 1;
                proof {
                    first_point = at - from;
                }
            } else if points == 1 {
                points = 2;
                proof {
                    second_point = at - from;
                }
            }
        } else {
            clean = false;
            proof {
                stranger = at - from;
            }
        }
        at += 1;
    }
    clean && digits && points <= 1
}

/// A numeral, kept as its text.
#[derive(Debug, PartialEq, Eq)]
pub struct Literal {
    text: Vec<u8>,
}

impl View for Literal {
    type V = Seq<u8>;

    closed spec fn view(&self) -> Seq<u8> {
        self.text@
    }
}

impl Literal {
    #[verifier::type_invariant]
    spec fn well_formed(self) -> bool {
        is_numeral(self.text@)
    }

    /// The numeral written in `text[from..to]`, if that is one.
    pub fn from_bytes(text: &[u8], from: usize, to: usize) -> (r: Option<Literal>)
        requires
            from <= to <= text@.len(),
        ensures
            r is Some <==> is_numeral(text@.subrange(from as int, to as int)),
            r matches Some(literal) ==> literal@ == text@.subrange(from as int, to as int),
    {
        if !numeral(text, from, to) {
            return None;
        }
        let mut copy: Vec<u8> = Vec::new();
        let mut at: usize = from;
        while at < to
            invariant
                from <= at <= to <= text@.len(),
                copy@ == text@.subrange(from as int, at as int),
            decreases to - at,
        {
            copy.push(text[at]);
            at += 1;
        }
        Some(Literal { text: copy })
    }

    /// The numeral written in `text`, if that is one.
    pub fn new(text: &str) -> (r: Option<Literal>)
        ensures
            r is Some <==> is_numeral(text.spec_bytes()),
            r matches Some(literal) ==> literal@ == text.spec_bytes(),
    {
        let bytes = text.as_bytes();
        assert(bytes@.subrange(0, bytes@.len() as int) == bytes@);
        Literal::from_bytes(bytes, 0, bytes.len())
    }

    /// The text of the numeral, which is one for every literal.
    pub fn as_bytes(&self) -> (r: &[u8])
        ensures
            r@ == self@,
            is_numeral(self@),
    {
        proof {
            use_type_invariant(self);
        }
        self.text.as_slice()
    }
}

impl Clone for Literal {
    fn clone(&self) -> (r: Self)
        ensures
            r@ == self@,
    {
        proof {
            use_type_invariant(self);
        }
        Literal { text: self.text.clone() }
    }
}

} // verus!
