use vstd::prelude::*;

verus! {

/// Why a scale could not be built.
#[derive(Debug)]
pub enum ScaleError {
    /// Fewer than five coordinates were asked for.
    DimensionTooSmall,
    /// A bound of the domain, or its length, lies outside the safe range of
    /// the domain type; `explain` names the bound.
    OutOfRange { explain: String },
    /// The domain's length exceeds what can be represented.
    RangeExceedsMaximum { explain: String },
}

pub type Result<T> = core::result::Result<T, ScaleError>;

/// A scale that maps domain values to coordinates and back.
///
/// Queries never fail: a value outside the domain, or a coordinate at or
/// beyond the dimension, gives `None`.
pub trait DomainScale<DT> {
    spec fn spec_domain_to_coordinate(&self, value: DT) -> Option<usize>;

    spec fn spec_coordinate_to_domain(&self, coordinate: usize) -> Option<DT>;

    fn domain_to_coordinate(&self, value: DT) -> (r: Option<usize>)
        ensures
            r == self.spec_domain_to_coordinate(value),
    ;

    fn coordinate_to_domain(&self, coordinate: usize) -> (r: Option<DT>)
        ensures
            r == self.spec_coordinate_to_domain(coordinate),
    ;
}

/// The character of a decimal digit `d < 10`.
pub open spec fn digit_char(d: nat) -> char {
    if d == 0 {
        '0'
    } else if d == 1 {
        '1'
    } else if d == 2 {
        '2'
    } else if d == 3 {
        '3'
    } else if d == 4 {
        '4'
    } else if d == 5 {
        '5'
    } else if d == 6 {
        '6'
    } else if d == 7 {
        '7'
    } else if d == 8 {
        '8'
    } else {
        '9'
    }
}

/// The decimal digits of `n`, most significant first, without leading zeros.
pub open spec fn digits(n: nat) -> Seq<char>
    decreases n,
{
    if n < 10 {
        seq![digit_char(n)]
    } else {
        digits(n / 10).push(digit_char(n % 10))
    }
}

/// `v` written in decimal, with a leading `-` when it is negative.
pub open spec fn decimal(v: int) -> Seq<char> {
    if v < 0 {
        seq!['-'] + digits((-v) as nat)
    } else {
        digits(v as nat)
    }
}

fn digit_text(d: u128) -> (r: &'static str)
    requires
        d < 10,
    ensures
        r@ == seq![digit_char(d as nat)],
{
    proof {
        reveal_strlit("0");
        reveal_strlit("1");
        reveal_strlit("2");
        reveal_strlit("3");
        reveal_strlit("4");
        reveal_strlit("5");
        reveal_strlit("6");
        reveal_strlit("7");
        reveal_strlit("8");
        reveal_strlit("9");
    }
    if d == 0 {
        "0"
    } else if d == 1 {
        "1"
    } else if d == 2 {
        "2"
    } else if d == 3 {
        "3"
    } else if d == 4 {
        "4"
    } else if d == 5 {
        "5"
    } else if d == 6 {
        "6"
    } else if d == 7 {
        "7"
    } else if d == 8 {
        "8"
    } else {
        "9"
    }
}

fn append_digits(text: &mut String, n: u128)
    ensures
        final(text)@ == old(text)@ + digits(n as nat),
    decreases n,
{
    if n >= 10 {
        append_digits(text, n / 10);
        text.append(digit_text(n % 10));
        assert(final(text)@ =~= old(text)@ + digits(n as nat));
    } else {
        text.append(digit_text(n));
        assert(final(text)@ =~= old(text)@ + digits(n as nat));
    }
}

/// Appends `v` in decimal to `text`.
pub(crate) fn append_decimal(text: &mut String, v: i128)
    ensures
        final(text)@ == old(text)@ + decimal(v as int),
{
    if v < 0 {
        text.append("-");
        proof {
            reveal_strlit("-");
        }
        let magnitude: u128 = if v == i128::MIN {
            0x8000_0000_0000_0000_0000_0000_0000_0000
        } else {
            (-v) as u128
        };
        append_digits(text, magnitude);
        assert(final(text)@ =~= old(text)@ + decimal(v as int));
    } else {
        append_digits(text, v as u128);
    }
}

impl ScaleError {
    /// A sentence that says what went wrong.
    pub fn message(&self) -> (r: String)
        ensures
            r@ == (match self {
                ScaleError::DimensionTooSmall => "Dimension is too small."@,
                ScaleError::OutOfRange { explain } => "Out of range: "@ + explain@,
                ScaleError::RangeExceedsMaximum { explain } => "Range too large "@ + explain@,
            }),
    {
        match self {
            ScaleError::DimensionTooSmall => String::from_str("Dimension is too small."),
            ScaleError::OutOfRange { explain } => {
                let mut text = String::from_str("Out of range: ");
                text.append(explain.as_str());
                text
            },
            ScaleError::RangeExceedsMaximum { explain } => {
                let mut text = String::from_str("Range too large ");
                text.append(explain.as_str());
                text
            },
        }
    }
}

} // verus!
