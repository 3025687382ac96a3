//! Decimal numbers of the ledger, held as the parts of a `rust_decimal`
//! value: a sign, a 96-bit magnitude in three 32-bit words and a scale.
//! Parsing, addition and display are `rust_decimal`'s.
use vstd::prelude::*;

verus! {

/// A decimal number `(-1)^negative * (hi * 2^64 + mid * 2^32 + lo) / 10^scale`,
/// the unpacked form of a `rust_decimal::Decimal`.
#[derive(Debug, Clone, Copy, PartialEq, Eq, Structural)]
pub struct Decimal {
    pub negative: bool,
    pub scale: u32,
    pub hi: u32,
    pub mid: u32,
    pub lo: u32,
}

impl Decimal {
    /// A valid decimal has a scale of at most 28.
    pub open spec fn wf(self) -> bool {
        self.scale <= 28
    }

    /// Whether the magnitude is zero.
    pub open spec fn spec_is_zero(self) -> bool {
        self.hi == 0 && self.mid == 0 && self.lo == 0
    }

    /// Zero, with scale 0 (`Decimal::ZERO`).
    pub open spec fn spec_zero() -> Decimal {
        Decimal { negative: false, scale: 0, hi: 0, mid: 0, lo: 0 }
    }

    /// The number with the sign flipped (`Neg`).
    pub open spec fn spec_neg(self) -> Decimal {
        Decimal { negative: !self.negative, ..self }
    }

    /// Zero, with scale 0 (`Decimal::ZERO`).
    pub fn zero() -> (r: Decimal)
        ensures
            r == Decimal::spec_zero(),
    {
        Decimal { negative: false, scale: 0, hi: 0, mid: 0, lo: 0 }
    }

    /// Whether the number is zero (`Decimal::is_zero`).
    pub fn is_zero(&self) -> (r: bool)
        ensures
            r == self.spec_is_zero(),
    {
        self.hi == 0 && self.mid == 0 && self.lo == 0
    }

    /// The number with the sign flipped (`Neg for Decimal`).
    pub fn neg(self) -> (r: Decimal)
        ensures
            r == self.spec_neg(),
    {
        Decimal { negative: !self.negative, ..self }
    }
}

/// What `<rust_decimal::Decimal as FromStr>::from_str` makes of a text: the
/// unpacked number, or the text of its error.
pub uninterp spec fn decimal_parse(s: Seq<char>) -> Result<Decimal, Seq<char>>;

/// What `rust_decimal::Decimal::checked_add` returns for two numbers
/// (`None` on overflow), unpacked.
pub uninterp spec fn decimal_checked_add(a: Decimal, b: Decimal) -> Option<Decimal>;

/// The `Display` text of a number, as `rust_decimal` writes it.
pub uninterp spec fn decimal_display(d: Decimal) -> Seq<char>;

/// Parses `s` with `rust_decimal::Decimal::from_str` and unpacks the result;
/// an error becomes its `Display` text. The result is the named outcome of
/// the parse, and a parsed number has a scale of at most 28.
#[verifier::external_body]
pub(crate) fn parse_decimal(s: &str) -> (r: Result<Decimal, String>)
    ensures
        match r {
            Ok(d) => decimal_parse(s@) == Ok::<Decimal, Seq<char>>(d) && d.wf(),
            Err(e) => decimal_parse(s@) == Err::<Decimal, Seq<char>>(e@),
        },
{
    match <rust_decimal::Decimal as std::str::FromStr>::from_str(s) {
        Ok(d) => {
            let u = d.unpack();
            Ok(Decimal { negative: u.negative, scale: u.scale, hi: u.hi, mid: u.mid, lo: u.lo })
        },
        Err(e) => Err(e.to_string()),
    }
}

/// Adds two numbers with `rust_decimal::Decimal::checked_add` (after
/// `Decimal::from_parts`); `None` on overflow. The result is the named
/// outcome, and a sum has a scale of at most 28.
#[verifier::external_body]
pub(crate) fn checked_add(a: Decimal, b: Decimal) -> (r: Option<Decimal>)
    requires
        a.wf(),
        b.wf(),
    ensures
        r == decimal_checked_add(a, b),
        r matches Some(d) ==> d.wf(),
{
    let x = rust_decimal::Decimal::from_parts(a.lo, a.mid, a.hi, a.negative, a.scale);
    let y = rust_decimal::Decimal::from_parts(b.lo, b.mid, b.hi, b.negative, b.scale);
    x.checked_add(y).map(|d| {
        let u = d.unpack();
        Decimal { negative: u.negative, scale: u.scale, hi: u.hi, mid: u.mid, lo: u.lo }
    })
}

/// Writes a number with `rust_decimal`'s `Display` (after
/// `Decimal::from_parts`); the text is the named display of the number.
#[verifier::external_body]
pub(crate) fn decimal_to_string(d: Decimal) -> (r: String)
    requires
        d.wf(),
    ensures
        r@ == decimal_display(d),
{
    rust_decimal::Decimal::from_parts(d.lo, d.mid, d.hi, d.negative, d.scale).to_string()
}

} // verus!
