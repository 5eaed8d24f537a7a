//! Error module
use crate::no_std_io::ErrorKind;
use vstd::prelude::*;

verus! {

/// Number of bits needed to retry parsing
#[derive(Debug, Clone, PartialEq, Eq)]
pub struct NeedSize {
    bits: usize,
}

impl NeedSize {
    /// The number of bits needed.
    pub closed spec fn spec_bits(&self) -> usize {
        self.bits
    }

    /// Create new [NeedSize] from bits
    pub fn new(bits: usize) -> (r: Self)
        ensures
            r.spec_bits() == bits,
    {
        Self { bits }
    }

    /// Number of bits needed
    pub fn bit_size(&self) -> (r: usize)
        ensures
            r == self.spec_bits(),
    {
        self.bits
    }

    /// Number of bytes needed: the bits rounded up to whole bytes.
    pub fn byte_size(&self) -> (r: usize)
        ensures
            r as int == (self.spec_bits() + 7) / 8,
    {
        self.bits / 8 + if self.bits % 8 != 0 {
            1
        } else {
            0
        }
    }
}

/// Deku errors
#[derive(Debug, Clone, PartialEq, Eq)]
#[non_exhaustive]
pub enum DekuError {
    /// Parsing error when reading
    Incomplete(NeedSize),
    /// Parsing error when reading
    Parse(String),
    /// Invalid parameter
    InvalidParam(String),
    /// Assertion error from `assert` or `assert_eq` attributes
    Assertion(String),
    /// Assertion error from `assert` or `assert_eq` attributes, without string
    AssertionNoStr,
    /// Could not resolve `id` for variant
    IdVariantNotFound,
    /// IO error while reading or writing
    Io(ErrorKind),
}

/// `e` is an `Incomplete` error asking for `bits` more bits.
pub open spec fn is_incomplete(e: DekuError, bits: int) -> bool {
    e matches DekuError::Incomplete(need) && need.spec_bits() == bits
}

/// The error for `bits` more bits.
pub fn incomplete_error(bits: usize) -> (r: DekuError)
    ensures
        is_incomplete(r, bits as int),
{
    DekuError::Incomplete(NeedSize::new(bits))
}

/// The name of an error kind, as its `Debug` form writes it.
pub open spec fn error_kind_name(k: ErrorKind) -> Seq<char> {
    match k {
        ErrorKind::NotFound => "NotFound"@,
        ErrorKind::InvalidInput => "InvalidInput"@,
        ErrorKind::InvalidData => "InvalidData"@,
        ErrorKind::UnexpectedEof => "UnexpectedEof"@,
        ErrorKind::WriteZero => "WriteZero"@,
        ErrorKind::Other => "Other"@,
    }
}

/// The name of an error kind, as its `Debug` form writes it.
fn kind_name(k: ErrorKind) -> (r: &'static str)
    ensures
        r@ == error_kind_name(k),
{
    match k {
        ErrorKind::NotFound => "NotFound",
        ErrorKind::InvalidInput => "InvalidInput",
        ErrorKind::InvalidData => "InvalidData",
        ErrorKind::UnexpectedEof => "UnexpectedEof",
        ErrorKind::WriteZero => "WriteZero",
        ErrorKind::Other => "Other",
    }
}

impl DekuError {
    /// The text the error is shown as.
    pub open spec fn spec_message(&self) -> Seq<char> {
        match self {
            DekuError::Incomplete(size) => "Not enough data, need "@ + spec_usize_text(
                size.spec_bits(),
            ) + " bits (or "@ + spec_usize_text(((size.spec_bits() + 7) / 8) as usize)
                + " bytes)"@,
            DekuError::Parse(err) => "Parse error: "@ + err@,
            DekuError::InvalidParam(err) => "Invalid param error: "@ + err@,
            DekuError::Assertion(err) => "Assertion error: "@ + err@,
            DekuError::AssertionNoStr => "Assertion error"@,
            DekuError::IdVariantNotFound => "Could not resolve `id` for variant"@,
            DekuError::Io(e) => "io errorr: "@ + error_kind_name(*e),
        }
    }

    /// The text the error is shown as.
    pub fn message(&self) -> (r: String)
        ensures
            r@ == self.spec_message(),
    {
        match self {
            DekuError::Incomplete(size) => {
                let head = sized_text("Not enough data, need ", size.bit_size(), " bits (or ", size.byte_size());
                joined(head.as_str(), " bytes)")
            },
            DekuError::Parse(err) => joined("Parse error: ", err.as_str()),
            DekuError::InvalidParam(err) => joined("Invalid param error: ", err.as_str()),
            DekuError::Assertion(err) => joined("Assertion error: ", err.as_str()),
            DekuError::AssertionNoStr => static_text("Assertion error"),
            DekuError::IdVariantNotFound => static_text("Could not resolve `id` for variant"),
            DekuError::Io(e) => joined("io errorr: ", kind_name(*e)),
        }
    }

    /// The kind of stream error this error becomes.
    pub fn io_kind(&self) -> (r: ErrorKind)
        ensures
            r == match self {
                DekuError::Incomplete(_) => ErrorKind::UnexpectedEof,
                DekuError::Parse(_) => ErrorKind::InvalidData,
                DekuError::InvalidParam(_) => ErrorKind::InvalidInput,
                DekuError::Assertion(_) => ErrorKind::InvalidData,
                DekuError::AssertionNoStr => ErrorKind::InvalidData,
                DekuError::IdVariantNotFound => ErrorKind::NotFound,
                DekuError::Io(e) => *e,
            },
    {
        match self {
            DekuError::Incomplete(_) => ErrorKind::UnexpectedEof,
            DekuError::Parse(_) => ErrorKind::InvalidData,
            DekuError::InvalidParam(_) => ErrorKind::InvalidInput,
            DekuError::Assertion(_) => ErrorKind::InvalidData,
            DekuError::AssertionNoStr => ErrorKind::InvalidData,
            DekuError::IdVariantNotFound => ErrorKind::NotFound,
            DekuError::Io(e) => *e,
        }
    }
}

/// The text `a` followed by the text `b`.
///
/// Trusted: calls `format!` with two `{}` arguments, which writes the two
/// texts one after the other.
#[verifier::external_body]
pub(crate) fn joined(a: &str, b: &str) -> (r: String)
    ensures
        r@ == a@ + b@,
{
    format!("{}{}", a, b)
}

/// The decimal digits of `value`, most significant first, with no leading
/// zeros.
pub open spec fn decimal_text(value: nat) -> Seq<char>
    decreases value,
{
    if value < 10 {
        seq![(48 + value) as char]
    } else {
        decimal_text(value / 10) + seq![(48 + value % 10) as char]
    }
}

/// The text of `value`, as its `to_string` writes it: its decimal digits.
pub open spec fn spec_usize_text(value: usize) -> Seq<char> {
    decimal_text(value as nat)
}

/// Write `value` as decimal text.
///
/// Trusted: calls `usize::to_string`, which writes the number's decimal
/// digits, with no sign, padding or leading zeros.
#[verifier::external_body]
pub(crate) fn usize_text(value: usize) -> (r: String)
    ensures
        r@ == spec_usize_text(value),
{
    value.to_string()
}

/// The text `desc: detail`.
pub open spec fn spec_described(desc: Seq<char>, detail: Seq<char>) -> Seq<char> {
    desc + ": "@ + detail
}

/// Join a description and its detail as `desc: detail`.
pub(crate) fn described(desc: &str, detail: &str) -> (r: String)
    ensures
        r@ == spec_described(desc@, detail@),
{
    let head = joined(desc, ": ");
    joined(head.as_str(), detail)
}

/// The text `a exceeds b`.
pub open spec fn spec_exceeds(a: Seq<char>, b: Seq<char>) -> Seq<char> {
    a + " exceeds "@ + b
}

/// Join two texts as `a exceeds b`.
pub(crate) fn exceeds(a: &str, b: &str) -> (r: String)
    ensures
        r@ == spec_exceeds(a@, b@),
{
    let head = joined(a, " exceeds ");
    joined(head.as_str(), b)
}

/// The text `too much data: container of capacity unit cannot hold
/// requested unit`.
pub open spec fn spec_too_much_data(capacity: usize, requested: usize, unit: Seq<char>) -> Seq<char> {
    "too much data: container of "@ + spec_usize_text(capacity) + " "@ + unit + " cannot hold "@
        + spec_usize_text(requested) + " "@ + unit
}

/// Say that `requested` units do not fit in a container of `capacity`.
pub(crate) fn too_much_data(capacity: usize, requested: usize, unit: &str) -> (r: String)
    ensures
        r@ == spec_too_much_data(capacity, requested, unit@),
{
    let t = joined("too much data: container of ", usize_text(capacity).as_str());
    let t = joined(t.as_str(), " ");
    let t = joined(t.as_str(), unit);
    let t = joined(t.as_str(), " cannot hold ");
    let t = joined(t.as_str(), usize_text(requested).as_str());
    let t = joined(t.as_str(), " ");
    joined(t.as_str(), unit)
}

/// The text `head`, then `a` in decimal, then `mid`, then `b` in decimal.
pub(crate) fn sized_text(head: &str, a: usize, mid: &str, b: usize) -> (r: String)
    ensures
        r@ == head@ + spec_usize_text(a) + mid@ + spec_usize_text(b),
{
    let t = joined(head, usize_text(a).as_str());
    let t = joined(t.as_str(), mid);
    joined(t.as_str(), usize_text(b).as_str())
}

/// The text `s` as an owned string.
pub(crate) fn static_text(s: &str) -> (r: String)
    ensures
        r@ == s@,
{
    s.to_owned()
}

} // verus!
