//! Decimal number literals.
//!
//! A literal follows the grammar
//!
//! ```text
//! Literal  ::= Sign? Mantissa Exponent?
//! Mantissa ::= Digit+ | Digit+ '.' Digit* | Digit* '.' Digit+
//! Exponent ::= ('e' | 'E') Sign? Digit+
//! Sign     ::= '+' | '-'
//! Digit    ::= '0' ..= '9'
//! ```
//!
//! which is the decimal part of what `str::parse` accepts for a
//! floating-point number, so every [`Number`] can be converted without failure.
use vstd::prelude::*;
use crate::text::chars_of;

verus! {

/// `c` is one of the ten digits.
pub open spec fn is_digit(c: char) -> bool {
    '0' <= c && c <= '9'
}

/// `c` is `+` or `-`.
pub open spec fn is_sign(c: char) -> bool {
    c == '+' || c == '-'
}

/// `c` is `e` or `E`.
pub open spec fn is_exponent_mark(c: char) -> bool {
    c == 'e' || c == 'E'
}

/// Every character of `t[from..to)` is a digit.
pub open spec fn digits_in(t: Seq<char>, from: int, to: int) -> bool {
    forall|i: int| from <= i < to ==> is_digit(#[trigger] t[i])
}

/// `t[from..to)` is a mantissa: digits with at most one `.` among them, and at
/// least one digit.
pub open spec fn mantissa_in(t: Seq<char>, from: int, to: int) -> bool {
    ||| from < to && digits_in(t, from, to)
    ||| exists|dot: int|
        from <= dot < to && #[trigger] t[dot] == '.' && to - from >= 2 && digits_in(t, from, dot)
            && digits_in(t, dot + 1, to)
}

/// `t[from..to)` is what follows an exponent mark: an optional sign and at
/// least one digit.
pub open spec fn exponent_in(t: Seq<char>, from: int, to: int) -> bool {
    let start = if from < to && is_sign(t[from]) {
        from + 1
    } else {
        from
    };
    start < to && digits_in(t, start, to)
}

/// `t[from..to)` is a mantissa, or a mantissa, an exponent mark and an exponent.
pub open spec fn unsigned_in(t: Seq<char>, from: int, to: int) -> bool {
    ||| mantissa_in(t, from, to)
    ||| exists|mark: int|
        from <= mark < to && is_exponent_mark(#[trigger] t[mark]) && mantissa_in(t, from, mark)
            && exponent_in(t, mark + 1, to)
}

/// `t` is a decimal number literal.
pub open spec fn is_number_literal(t: Seq<char>) -> bool {
    let start = if 0 < t.len() && is_sign(t[0]) {
        1int
    } else {
        0int
    };
    unsigned_in(t, start, t.len() as int)
}

/// A decimal number literal, kept as its text.
#[derive(Debug, Eq)]
pub struct Number {
    text: String,
}

impl View for Number {
    type V = Seq<char>;

    /// The characters of the literal.
    closed spec fn view(&self) -> Seq<char> {
        self.text@
    }
}

impl PartialEq for Number {
    /// Two literals are equal where their texts are.
    fn eq(&self, other: &Number) -> (r: bool) {
        self.text == other.text
    }
}

impl vstd::std_specs::cmp::PartialEqSpecImpl for Number {
    open spec fn obeys_eq_spec() -> bool {
        true
    }

    open spec fn eq_spec(&self, other: &Number) -> bool {
        self@ == other@
    }
}

impl Clone for Number {
    /// A literal with the same text.
    fn clone(&self) -> (r: Self)
        ensures
            r@ == self@,
    {
        proof {
            use_type_invariant(self);
        }
        Number { text: self.text.clone() }
    }
}

impl Number {
    #[verifier::type_invariant]
    spec fn well_formed(self) -> bool {
        is_number_literal(self.text@)
    }

    /// Accepts `text` if it is a decimal number literal.
    pub fn from_text(text: String) -> (r: Option<Number>)
        ensures
            r is Some <==> is_number_literal(text@),
            r matches Some(n) ==> n@ == text@,
    {
        let chars = chars_of(text.as_str());
        if number_literal(&chars) {
            Some(Number { text })
        } else {
            None
        }
    }

    /// The text of the literal.
    pub fn as_str(&self) -> (text: &str)
        ensures
            text@ == self@,
            is_number_literal(text@),
    {
        proof {
            use_type_invariant(self);
        }
        self.text.as_str()
    }
}

/// Whether `c` is a digit.
pub fn digit(c: char) -> (r: bool)
    ensures
        r == is_digit(c),
{
    '0' <= c && c <= '9'
}

/// The end of the longest run of digits that starts at `from`.
fn digits_end(t: &Vec<char>, from: usize) -> (end: usize)
    requires
        from <= t.len(),
    ensures
        from <= end <= t.len(),
        digits_in(t@, from as int, end as int),
        end < t.len() ==> !is_digit(t[end as int]),
{
    let mut end = from;
    while end < t.len() && digit(t[end])
        invariant
            from <= end <= t.len(),
            digits_in(t@, from as int, end as int),
        decreases t.len() - end,
    {
        end += 1;
    }
    end
}

/// Whether `t` is a decimal number literal.
pub fn number_literal(t: &Vec<char>) -> (r: bool)
    ensures
        r == is_number_literal(t@),
{
    let n = t.len();
    let start: usize = if n > 0 && (t[0] == '+' || t[0] == '-') {
        1
    } else {
        0
    };
    let whole_end = digits_end(t, start);
    let has_dot = whole_end < n && t[whole_end] == '.';
    let mantissa_end = if has_dot {
        digits_end(t, whole_end + 1)
    } else {
        whole_end
    };
    let digits = if has_dot {
        mantissa_end - start - 1
    } else {
        mantissa_end - start
    };
    if digits == 0 {
        return false;
    }
    if mantissa_end == n {
        return true;
    }
    let mark = t[mantissa_end];
    if !(mark == 'e' || mark == 'E') {
        return false;
    }
    let exponent_start = if mantissa_end + 1 < n && (t[mantissa_end + 1] == '+' || t[mantissa_end
        + 1] == '-') {
        mantissa_end + 2
    } else {
        mantissa_end + 1
    };
    let exponent_end = digits_end(t, exponent_start);
    exponent_end > exponent_start && exponent_end == n
}

} // verus!
