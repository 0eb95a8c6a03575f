//! Value types, value descriptors with their byte-level match predicate, and
//! the query built from them.
use crate::error::SearchError;
use vstd::prelude::*;

verus! {

/// Width and interpretation of a searched value.
#[derive(Debug, Clone, Copy, PartialEq, Eq, Structural, Hash)]
pub enum ValueType {
    Byte,
    Word,
    Dword,
    Qword,
    Float,
    Double,
}

impl ValueType {
    /// Number of bytes a value of this type occupies in memory.
    pub open spec fn spec_size(&self) -> nat {
        match *self {
            ValueType::Byte => 1,
            ValueType::Word => 2,
            ValueType::Dword => 4,
            ValueType::Qword => 8,
            ValueType::Float => 4,
            ValueType::Double => 8,
        }
    }

    /// The stable integer id of this type.
    pub open spec fn spec_id(self) -> int {
        match self {
            ValueType::Byte => 0,
            ValueType::Word => 1,
            ValueType::Dword => 2,
            ValueType::Qword => 3,
            ValueType::Float => 4,
            ValueType::Double => 5,
        }
    }

    /// The type that carries the given id, if any.
    pub open spec fn spec_from_id(id: int) -> Option<ValueType> {
        if id == 0 {
            Some(ValueType::Byte)
        } else if id == 1 {
            Some(ValueType::Word)
        } else if id == 2 {
            Some(ValueType::Dword)
        } else if id == 3 {
            Some(ValueType::Qword)
        } else if id == 4 {
            Some(ValueType::Float)
        } else if id == 5 {
            Some(ValueType::Double)
        } else {
            None
        }
    }

    /// Whether values of this type are IEEE-754 floating-point numbers.
    pub open spec fn spec_is_float(&self) -> bool {
        *self == ValueType::Float || *self == ValueType::Double
    }

    pub fn size(&self) -> (n: usize)
        ensures
            n == self.spec_size(),
            1 <= n <= 8,
    {
        match self {
            ValueType::Byte => 1,
            ValueType::Word => 2,
            ValueType::Dword => 4,
            ValueType::Qword => 8,
            ValueType::Float => 4,
            ValueType::Double => 8,
        }
    }

    pub fn to_id(&self) -> (id: i32)
        ensures
            id == self.spec_id(),
            ValueType::spec_from_id(id as int) == Some(*self),
    {
        match self {
            ValueType::Byte => 0,
            ValueType::Word => 1,
            ValueType::Dword => 2,
            ValueType::Qword => 3,
            ValueType::Float => 4,
            ValueType::Double => 5,
        }
    }

    pub fn from_id(id: i32) -> (r: Option<ValueType>)
        ensures
            r == ValueType::spec_from_id(id as int),
            r.is_some() <==> 0 <= id <= 5,
            r.is_some() ==> r.unwrap().spec_id() == id,
    {
        match id {
            0 => Some(ValueType::Byte),
            1 => Some(ValueType::Word),
            2 => Some(ValueType::Dword),
            3 => Some(ValueType::Qword),
            4 => Some(ValueType::Float),
            5 => Some(ValueType::Double),
            _ => None,
        }
    }

    #[verifier::when_used_as_spec(spec_is_float)]
    pub fn is_float(&self) -> (b: bool)
        ensures
            b == self.spec_is_float(),
    {
        match self {
            ValueType::Float => true,
            ValueType::Double => true,
            _ => false,
        }
    }
}

/// The ids and the types correspond one to one: converting a type to its id
/// and back gives the type again, ids grow in declaration order, and an id
/// that converts to a type is the id of that type.
pub proof fn lemma_type_id_round_trip(t: ValueType, u: ValueType, id: int)
    ensures
        ValueType::spec_from_id(t.spec_id()) == Some(t),
        t.spec_id() == u.spec_id() ==> t == u,
        ValueType::spec_from_id(id).is_some() ==> ValueType::spec_from_id(id).unwrap().spec_id()
            == id,
{
}

/// The unsigned number that a little-endian byte string of at most eight
/// bytes stands for.
pub open spec fn le_value(bytes: Seq<u8>) -> nat {
    ((if bytes.len() > 0 { bytes[0] as int } else { 0 })
        + (if bytes.len() > 1 { bytes[1] as int * 0x100 } else { 0 })
        + (if bytes.len() > 2 { bytes[2] as int * 0x1_0000 } else { 0 })
        + (if bytes.len() > 3 { bytes[3] as int * 0x100_0000 } else { 0 })
        + (if bytes.len() > 4 { bytes[4] as int * 0x1_0000_0000 } else { 0 })
        + (if bytes.len() > 5 { bytes[5] as int * 0x100_0000_0000 } else { 0 })
        + (if bytes.len() > 6 { bytes[6] as int * 0x1_0000_0000_0000 } else { 0 })
        + (if bytes.len() > 7 { bytes[7] as int * 0x100_0000_0000_0000 } else { 0 })) as nat
}

/// Two to the power of the number of bits in `size` bytes, for the sizes
/// that a value can have.
pub open spec fn modulus_of(size: nat) -> int {
    if size == 1 {
        0x100
    } else if size == 2 {
        0x1_0000
    } else if size == 4 {
        0x1_0000_0000
    } else {
        0x1_0000_0000_0000_0000
    }
}

/// The number that `raw`, read as a two's-complement integer of `size`
/// bytes, stands for.
pub open spec fn signed_value(raw: nat, size: nat) -> int {
    if 2 * raw >= modulus_of(size) {
        raw - modulus_of(size)
    } else {
        raw as int
    }
}

/// Whether `raw`, read as the bit pattern of an IEEE-754 number of `size`
/// bytes (4 or 8), is a NaN: all exponent bits set and a non-zero fraction.
pub open spec fn float_is_nan(raw: nat, size: nat) -> bool {
    if size == 4 {
        raw % 0x8000_0000 > 0x7f80_0000
    } else {
        raw % 0x8000_0000_0000_0000 > 0x7ff0_0000_0000_0000
    }
}

/// An integer key that orders the non-NaN bit patterns of IEEE-754 numbers
/// of `size` bytes (4 or 8) as the numbers themselves are ordered: the
/// magnitude bits, negated when the sign bit is set. Both zeros have key 0.
pub open spec fn float_key(raw: nat, size: nat) -> int {
    if size == 4 {
        if raw >= 0x8000_0000 {
            -(raw % 0x8000_0000)
        } else {
            raw as int
        }
    } else {
        if raw >= 0x8000_0000_0000_0000 {
            -(raw % 0x8000_0000_0000_0000)
        } else {
            raw as int
        }
    }
}

/// The unsigned number whose low 128 bits are the two's-complement
/// representation of `value`.
pub open spec fn twos_complement(value: i128) -> nat {
    if value >= 0 {
        value as nat
    } else {
        (value + 0x1_0000_0000_0000_0000_0000_0000_0000_0000) as nat
    }
}

/// The weight of byte `i` in a little-endian number, for `i` below eight.
pub open spec fn byte_weight(i: int) -> int {
    if i == 0 {
        1
    } else if i == 1 {
        0x100
    } else if i == 2 {
        0x1_0000
    } else if i == 3 {
        0x100_0000
    } else if i == 4 {
        0x1_0000_0000
    } else if i == 5 {
        0x100_0000_0000
    } else if i == 6 {
        0x1_0000_0000_0000
    } else {
        0x100_0000_0000_0000
    }
}

/// The low eight bytes of `raw`, least significant first.
pub open spec fn le_bytes8(raw: nat) -> Seq<u8> {
    Seq::new(8, |i: int| ((raw as int / byte_weight(i)) % 256) as u8)
}

/// Why a value descriptor could not be evaluated on a byte string.
#[derive(Debug, Clone, Copy, PartialEq, Eq, Structural)]
pub enum MatchError {
    /// The byte string is not as long as the descriptor's type.
    LengthMismatch,
    /// A fixed float was declared with an integer type.
    NotAFloatType,
}

/// How the values of a group must be laid out in memory.
#[derive(Debug, Clone, Copy, PartialEq, Eq, Structural)]
pub enum SearchMode {
    /// The values appear in memory in the order of the query.
    Ordered,
    /// The values appear in any order.
    Unordered,
}

/// One searched value.
///
/// Floating-point numbers are held by their bit patterns. A float is
/// compared through `float_key`, which orders bit patterns as the numbers
/// are ordered, so that a tolerance around a number is an interval of keys.
#[derive(Debug, Clone, Copy)]
pub enum SearchValue {
    /// Exact integer match: the first `value_type.size()` bytes of `value`
    /// are the little-endian representation looked for.
    FixedInt { value: [u8; 8], value_type: ValueType },
    /// Float match with a tolerance: memory matches when it holds a number
    /// whose key lies in `min_key ..= max_key`. The first
    /// `value_type.size()` bytes of `pattern` are the little-endian
    /// representation of the number itself, used to seed a scan.
    FixedFloat { pattern: [u8; 8], min_key: i64, max_key: i64, value_type: ValueType },
    /// Inclusive interval match. For an integer type the memory is read as
    /// a signed or unsigned integer and compared with `lo` and `hi`; for a
    /// float type `lo` and `hi` bound the key of the number.
    Range { lo: i128, hi: i128, value_type: ValueType, signed: bool },
    /// Any value of the type's width matches.
    Wildcard { value_type: ValueType },
}

impl SearchValue {
    /// The type of the searched value.
    pub open spec fn spec_value_type(&self) -> ValueType {
        match *self {
            SearchValue::FixedInt { value_type, .. } => value_type,
            SearchValue::FixedFloat { value_type, .. } => value_type,
            SearchValue::Range { value_type, .. } => value_type,
            SearchValue::Wildcard { value_type } => value_type,
        }
    }

    /// Number of bytes the searched value occupies.
    pub open spec fn width(self) -> nat {
        self.spec_value_type().spec_size()
    }

    /// A descriptor is malformed when it is a fixed float of an integer
    /// type.
    pub open spec fn well_formed(self) -> bool {
        match self {
            SearchValue::FixedFloat { value_type, .. } => value_type.spec_is_float(),
            _ => true,
        }
    }

    /// Whether a byte string of the right length satisfies the descriptor.
    pub open spec fn accepts(self, bytes: Seq<u8>) -> bool {
        match self {
            SearchValue::FixedInt { value, value_type } => bytes == value@.take(
                value_type.spec_size() as int,
            ),
            SearchValue::FixedFloat { min_key, max_key, value_type, .. } => {
                &&& !float_is_nan(le_value(bytes), value_type.spec_size())
                &&& min_key <= float_key(le_value(bytes), value_type.spec_size()) <= max_key
            },
            SearchValue::Range { lo, hi, value_type, signed } => {
                if value_type.spec_is_float() {
                    &&& !float_is_nan(le_value(bytes), value_type.spec_size())
                    &&& lo <= float_key(le_value(bytes), value_type.spec_size()) <= hi
                } else if signed {
                    lo <= signed_value(le_value(bytes), value_type.spec_size()) <= hi
                } else {
                    lo <= le_value(bytes) <= hi
                }
            },
            SearchValue::Wildcard { .. } => true,
        }
    }

    /// What `matched` returns.
    pub open spec fn matched_spec(self, bytes: Seq<u8>) -> Result<bool, MatchError> {
        if bytes.len() != self.width() {
            Err(MatchError::LengthMismatch)
        } else if !self.well_formed() {
            Err(MatchError::NotAFloatType)
        } else {
            Ok(self.accepts(bytes))
        }
    }

    /// Whether `bytes` is a match: it has the width of the type and
    /// satisfies a well-formed descriptor.
    pub open spec fn matches(self, bytes: Seq<u8>) -> bool {
        self.matched_spec(bytes) == Ok::<bool, MatchError>(true)
    }

    /// An exact integer match for `value`, held as the low eight bytes of
    /// its two's-complement representation.
    pub fn fixed(value: i128, value_type: ValueType) -> (v: SearchValue)
        ensures
            v matches SearchValue::FixedInt { value: bytes, value_type: t } && t == value_type
                && bytes@ == le_bytes8(twos_complement(value)),
    {
        let raw: u128 = if value >= 0 {
            value as u128
        } else {
            ((value - i128::MIN) as u128) + 0x8000_0000_0000_0000_0000_0000_0000_0000u128
        };
        let bytes: [u8; 8] = [
            (raw % 256) as u8,
            (raw / 0x100 % 256) as u8,
            (raw / 0x1_0000 % 256) as u8,
            (raw / 0x100_0000 % 256) as u8,
            (raw / 0x1_0000_0000 % 256) as u8,
            (raw / 0x100_0000_0000 % 256) as u8,
            (raw / 0x1_0000_0000_0000 % 256) as u8,
            (raw / 0x100_0000_0000_0000 % 256) as u8,
        ];
        assert(bytes@ =~= le_bytes8(twos_complement(value)));
        SearchValue::FixedInt { value: bytes, value_type }
    }

    /// A float match for the number whose bit pattern is `bits` (in the low
    /// four bytes for `Float`), accepting every number whose key lies in
    /// `min_key ..= max_key`.
    pub fn fixed_float(bits: u64, min_key: i64, max_key: i64, value_type: ValueType) -> (v:
        SearchValue)
        ensures
            v matches SearchValue::FixedFloat { pattern, min_key: lo, max_key: hi, value_type: t }
                && t == value_type && lo == min_key && hi == max_key && pattern@ == le_bytes8(
                bits as nat,
            ),
    {
        let pattern: [u8; 8] = [
            (bits % 256) as u8,
            (bits / 0x100 % 256) as u8,
            (bits / 0x1_0000 % 256) as u8,
            (bits / 0x100_0000 % 256) as u8,
            (bits / 0x1_0000_0000 % 256) as u8,
            (bits / 0x100_0000_0000 % 256) as u8,
            (bits / 0x1_0000_0000_0000 % 256) as u8,
            (bits / 0x100_0000_0000_0000 % 256) as u8,
        ];
        assert(pattern@ =~= le_bytes8(bits as nat));
        SearchValue::FixedFloat { pattern, min_key, max_key, value_type }
    }

    /// An inclusive interval match.
    pub fn range(lo: i128, hi: i128, value_type: ValueType, signed: bool) -> (v: SearchValue)
        ensures
            v == (SearchValue::Range { lo, hi, value_type, signed }),
    {
        SearchValue::Range { lo, hi, value_type, signed }
    }

    /// A match for any value of the given type's width.
    pub fn wildcard(value_type: ValueType) -> (v: SearchValue)
        ensures
            v == (SearchValue::Wildcard { value_type }),
    {
        SearchValue::Wildcard { value_type }
    }

    #[verifier::when_used_as_spec(spec_value_type)]
    pub fn value_type(&self) -> (t: ValueType)
        ensures
            t == self.spec_value_type(),
    {
        match self {
            SearchValue::FixedInt { value_type, .. } => *value_type,
            SearchValue::FixedFloat { value_type, .. } => *value_type,
            SearchValue::Range { value_type, .. } => *value_type,
            SearchValue::Wildcard { value_type } => *value_type,
        }
    }

    /// Tests a byte string against the descriptor. Fails on a byte string
    /// of the wrong length and on a malformed descriptor; otherwise tells
    /// whether the bytes satisfy it.
    pub fn matched(&self, bytes: &[u8]) -> (r: Result<bool, MatchError>)
        ensures
            r == self.matched_spec(bytes@),
    {
        let value_type = self.value_type();
        let size = value_type.size();
        if bytes.len() != size {
            return Err(MatchError::LengthMismatch);
        }
        match self {
            SearchValue::FixedInt { value, .. } => Ok(starts_with_bytes(value, bytes)),
            SearchValue::FixedFloat { min_key, max_key, .. } => {
                if !value_type.is_float() {
                    return Err(MatchError::NotAFloatType);
                }
                let raw = decode_le(bytes);
                match float_key_of(raw, size) {
                    None => Ok(false),
                    Some(key) => Ok(*min_key <= key && key <= *max_key),
                }
            },
            SearchValue::Range { lo, hi, signed, .. } => {
                let raw = decode_le(bytes);
                if value_type.is_float() {
                    match float_key_of(raw, size) {
                        None => Ok(false),
                        Some(key) => Ok(*lo <= key as i128 && key as i128 <= *hi),
                    }
                } else if *signed {
                    let number = signed_of(raw, size);
                    Ok(*lo <= number && number <= *hi)
                } else {
                    Ok(*lo <= raw as i128 && raw as i128 <= *hi)
                }
            },
            SearchValue::Wildcard { .. } => Ok(true),
        }
    }
}

/// The summed widths of the first `n` values.
pub open spec fn prefix_width(values: Seq<SearchValue>, n: int) -> nat
    decreases n,
{
    if n <= 0 {
        0
    } else {
        prefix_width(values, n - 1) + values[n - 1].width()
    }
}

/// The smallest width among the first `n` values, and 1 when there is none.
pub open spec fn prefix_min_width(values: Seq<SearchValue>, n: int) -> nat
    decreases n,
{
    if n <= 0 {
        1
    } else if n == 1 {
        values[0].width()
    } else if values[n - 1].width() < prefix_min_width(values, n - 1) {
        values[n - 1].width()
    } else {
        prefix_min_width(values, n - 1)
    }
}

/// The summed widths of the first `n` values grow with `n` by at least one
/// and at most eight bytes a value.
pub proof fn lemma_prefix_width_bounds(values: Seq<SearchValue>, n: int)
    requires
        0 <= n <= values.len(),
    ensures
        n <= prefix_width(values, n) <= 8 * n,
    decreases n,
{
    if n > 0 {
        lemma_prefix_width_bounds(values, n - 1);
    }
}

/// The summed widths do not shrink when more values are counted.
pub proof fn lemma_prefix_width_monotone(values: Seq<SearchValue>, m: int, n: int)
    requires
        0 <= m <= n <= values.len(),
    ensures
        prefix_width(values, m) <= prefix_width(values, n),
    decreases n,
{
    if m < n {
        lemma_prefix_width_monotone(values, m, n - 1);
    }
}

/// The smallest width is the width of one of the values and not above any
/// of them.
pub proof fn lemma_prefix_min_width(values: Seq<SearchValue>, n: int)
    requires
        0 < n <= values.len(),
    ensures
        exists|i: int| 0 <= i < n && #[trigger] values[i].width() == prefix_min_width(values, n),
        forall|i: int| 0 <= i < n ==> prefix_min_width(values, n) <= #[trigger] values[i].width(),
    decreases n,
{
    if n > 1 {
        lemma_prefix_min_width(values, n - 1);
        let i = choose|i: int|
            0 <= i < n - 1 && #[trigger] values[i].width() == prefix_min_width(values, n - 1);
        if values[n - 1].width() < prefix_min_width(values, n - 1) {
            assert(values[n - 1].width() == prefix_min_width(values, n));
        } else {
            assert(values[i].width() == prefix_min_width(values, n));
        }
    } else {
        assert(values[0].width() == prefix_min_width(values, n));
    }
}

/// A query: the values looked for, how they must be laid out, and the
/// number of bytes within which all of them must lie.
#[derive(Debug, Clone)]
pub struct SearchQuery {
    pub values: Vec<SearchValue>,
    pub mode: SearchMode,
    pub range: u32,
}

impl SearchQuery {
    /// The summed widths of all values.
    pub open spec fn total_width(self) -> nat {
        prefix_width(self.values@, self.values@.len() as int)
    }

    /// The smallest width among the values, and 1 for an empty query.
    pub open spec fn min_width(self) -> nat {
        prefix_min_width(self.values@, self.values@.len() as int)
    }

    /// The length of the window that an ordered match is looked for in:
    /// the range, or the summed widths where they are larger.
    pub open spec fn window_len(self) -> nat {
        if self.total_width() > self.range {
            self.total_width()
        } else {
            self.range as nat
        }
    }

    /// Why a search refuses the query, if it does: it has no value, or it
    /// has several and its range is smaller than their widths together.
    pub open spec fn refusal(self) -> Option<SearchError> {
        if self.values@.len() == 0 {
            Some(SearchError::EmptyQuery)
        } else if self.values@.len() > 1 && self.range < self.total_width() {
            Some(SearchError::RangeTooSmall)
        } else {
            None
        }
    }

    /// Tests whether a search takes the query.
    pub fn validate(&self) -> (checked: Result<(), SearchError>)
        ensures
            checked == (match self.refusal() {
                Some(error) => Err::<(), SearchError>(error),
                None => Ok::<(), SearchError>(()),
            }),
            checked.is_ok() && self.values@.len() > 1 ==> self.values@.len() <= self.range,
    {
        let count = self.values.len();
        if count == 0 {
            return Err(SearchError::EmptyQuery);
        }
        if count == 1 {
            return Ok(());
        }
        let mut total: u64 = 0;
        let mut i: usize = 0;
        while i < count
            invariant
                0 <= i <= count,
                count == self.values@.len(),
                count > 1,
                total == prefix_width(self.values@, i as int),
                total <= self.range,
            decreases count - i,
        {
            let size = self.values[i].value_type().size() as u64;
            if total + size > self.range as u64 {
                proof {
                    assert(prefix_width(self.values@, i as int + 1) == total + size);
                    lemma_prefix_width_monotone(self.values@, i as int + 1, count as int);
                    assert(self.total_width() > self.range);
                }
                return Err(SearchError::RangeTooSmall);
            }
            total = total + size;
            i += 1;
        }
        proof {
            lemma_prefix_width_bounds(self.values@, count as int);
        }
        Ok(())
    }

    pub fn new(values: Vec<SearchValue>, mode: SearchMode, range: u32) -> (q: SearchQuery)
        ensures
            q.values == values,
            q.mode == mode,
            q.range == range,
    {
        SearchQuery { values, mode, range }
    }

    /// The summed widths of all values.
    pub fn total_size(&self) -> (n: usize)
        requires
            self.values@.len() <= usize::MAX / 8,
        ensures
            n == self.total_width(),
    {
        let mut total: usize = 0;
        let mut i: usize = 0;
        while i < self.values.len()
            invariant
                0 <= i <= self.values@.len(),
                self.values@.len() <= usize::MAX / 8,
                total == prefix_width(self.values@, i as int),
                total <= 8 * i,
            decreases self.values@.len() - i,
        {
            total = total + self.values[i].value_type().size();
            i += 1;
        }
        total
    }

    /// The smallest width among the values, and 1 for an empty query.
    pub fn min_element_size(&self) -> (n: usize)
        ensures
            n == self.min_width(),
            1 <= n <= 8,
    {
        if self.values.len() == 0 {
            return 1;
        }
        let mut least: usize = self.values[0].value_type().size();
        let mut i: usize = 1;
        while i < self.values.len()
            invariant
                1 <= i <= self.values@.len(),
                least == prefix_min_width(self.values@, i as int),
                1 <= least <= 8,
            decreases self.values@.len() - i,
        {
            let size = self.values[i].value_type().size();
            if size < least {
                least = size;
            }
            i += 1;
        }
        least
    }
}

/// Whether `bytes` equals the first `bytes.len()` bytes of `value`.
fn starts_with_bytes(value: &[u8; 8], bytes: &[u8]) -> (same: bool)
    requires
        bytes@.len() <= 8,
    ensures
        same == (bytes@ == value@.take(bytes@.len() as int)),
{
    let size = bytes.len();
    let mut i: usize = 0;
    while i < size
        invariant
            0 <= i <= size,
            size == bytes@.len(),
            size <= 8,
            forall|j: int| 0 <= j < i ==> bytes@[j] == value@[j],
        decreases size - i,
    {
        if bytes[i] != value[i] {
            assert(value@.take(size as int)[i as int] == value@[i as int]);
            return false;
        }
        i += 1;
    }
    assert(bytes@ =~= value@.take(size as int));
    true
}

/// Decodes at most eight little-endian bytes.
pub fn decode_le(bytes: &[u8]) -> (raw: u64)
    requires
        bytes@.len() <= 8,
    ensures
        raw == le_value(bytes@),
{
    let n = bytes.len();
    let b0: u64 = if n > 0 { bytes[0] as u64 } else { 0 };
    let b1: u64 = if n > 1 { bytes[1] as u64 } else { 0 };
    let b2: u64 = if n > 2 { bytes[2] as u64 } else { 0 };
    let b3: u64 = if n > 3 { bytes[3] as u64 } else { 0 };
    let b4: u64 = if n > 4 { bytes[4] as u64 } else { 0 };
    let b5: u64 = if n > 5 { bytes[5] as u64 } else { 0 };
    let b6: u64 = if n > 6 { bytes[6] as u64 } else { 0 };
    let b7: u64 = if n > 7 { bytes[7] as u64 } else { 0 };
    b0 + b1 * 0x100 + b2 * 0x1_0000 + b3 * 0x100_0000 + b4 * 0x1_0000_0000 + b5
        * 0x100_0000_0000 + b6 * 0x1_0000_0000_0000 + b7 * 0x100_0000_0000_0000
}

/// Reads `raw` as a two's-complement integer of `size` bytes.
fn signed_of(raw: u64, size: usize) -> (number: i128)
    requires
        size == 1 || size == 2 || size == 4 || size == 8,
        raw < modulus_of(size as nat),
    ensures
        number == signed_value(raw as nat, size as nat),
{
    let modulus: i128 = if size == 1 {
        0x100
    } else if size == 2 {
        0x1_0000
    } else if size == 4 {
        0x1_0000_0000
    } else {
        0x1_0000_0000_0000_0000
    };
    let wide: i128 = raw as i128;
    if 2 * wide >= modulus {
        wide - modulus
    } else {
        wide
    }
}

/// The key of the float with bit pattern `raw`, or `None` for a NaN.
fn float_key_of(raw: u64, size: usize) -> (key: Option<i64>)
    requires
        size == 4 || size == 8,
        raw < modulus_of(size as nat),
    ensures
        key.is_none() <==> float_is_nan(raw as nat, size as nat),
        key.is_some() ==> key.unwrap() == float_key(raw as nat, size as nat),
{
    if size == 4 {
        let magnitude: u64 = raw % 0x8000_0000;
        if magnitude > 0x7f80_0000 {
            None
        } else if raw >= 0x8000_0000 {
            Some(-(magnitude as i64))
        } else {
            Some(raw as i64)
        }
    } else {
        let magnitude: u64 = raw % 0x8000_0000_0000_0000;
        if magnitude > 0x7ff0_0000_0000_0000 {
            None
        } else if raw >= 0x8000_0000_0000_0000 {
            Some(-(magnitude as i64))
        } else {
            Some(raw as i64)
        }
    }
}

} // verus!
