//! The head of a CBOR data item (RFC 7049, section 2.1).
//!
//! A data item starts with an initial byte. Its high three bits hold the
//! major type, its low five bits the additional information: either a value
//! from 0 to 23 or a tag that says how many bytes follow (24: one, 25: two,
//! 26: four, 27: eight). The bytes that follow hold the value, big-endian.

use vstd::prelude::*;

verus! {

/// Mask for the high three bits of an initial byte.
pub const FIRST_THREE_BITS: u8 = 0xE0;

/// Mask for the low five bits of an initial byte.
pub const LAST_FIVE_BITS: u8 = 0x1F;

/// Largest value that fits into the initial byte itself.
pub const EMBEDDED_MAX_AS_U64: u64 = 23;

/// Largest value that fits into one following byte.
pub const U8_MAX: u64 = 0xFF;

/// Largest value that fits into two following bytes.
pub const U16_MAX: u64 = 0xFFFF;

/// Largest value that fits into four following bytes.
pub const U32_MAX: u64 = 0xFFFF_FFFF;

/// The major type of a data item: the high three bits of its initial byte.
#[derive(Debug, Clone, Copy, PartialEq, Eq, Structural)]
pub enum MajorType {
    /// Type 0: an unsigned integer.
    UnsignedInteger,
    /// Type 1: a negative integer.
    NegativeInteger,
    /// Type 2: a string of bytes.
    Bytes,
    /// Type 3: a string of UTF-8 text.
    Text,
    /// Type 4: a list of items.
    Array,
    /// Type 5: a list of key/value pairs.
    Object,
    /// Type 6: a semantic tag on another item.
    SemanticTag,
    /// Type 7: floating point numbers and simple values.
    NoContentType,
}

impl MajorType {
    /// The number of the major type, 0 to 7.
    pub open spec fn number(self) -> nat {
        match self {
            MajorType::UnsignedInteger => 0,
            MajorType::NegativeInteger => 1,
            MajorType::Bytes => 2,
            MajorType::Text => 3,
            MajorType::Array => 4,
            MajorType::Object => 5,
            MajorType::SemanticTag => 6,
            MajorType::NoContentType => 7,
        }
    }

    /// The initial byte of this major type with no additional information:
    /// the type's number in the high three bits.
    pub open spec fn bits(self) -> u8 {
        (self.number() * 32) as u8
    }

    /// The major type whose number is `n % 8`.
    pub open spec fn of_number(n: nat) -> MajorType {
        let m = n % 8;
        if m == 0 {
            MajorType::UnsignedInteger
        } else if m == 1 {
            MajorType::NegativeInteger
        } else if m == 2 {
            MajorType::Bytes
        } else if m == 3 {
            MajorType::Text
        } else if m == 4 {
            MajorType::Array
        } else if m == 5 {
            MajorType::Object
        } else if m == 6 {
            MajorType::SemanticTag
        } else {
            MajorType::NoContentType
        }
    }

    /// The high three bits of the initial byte for this major type.
    #[inline]
    pub fn as_u8(&self) -> (r: u8)
        ensures
            r == self.bits(),
            r as nat == self.number() * 32,
    {
        match self {
            MajorType::UnsignedInteger => 0x00,
            MajorType::NegativeInteger => 0x20,
            MajorType::Bytes => 0x40,
            MajorType::Text => 0x60,
            MajorType::Array => 0x80,
            MajorType::Object => 0xA0,
            MajorType::SemanticTag => 0xC0,
            MajorType::NoContentType => 0xE0,
        }
    }

    /// The major type held in the high three bits of `value`. The low five
    /// bits are ignored.
    #[inline]
    pub fn from_u8(value: u8) -> (r: Self)
        ensures
            r == MajorType::of_number(value as nat / 32),
            r.number() == value as nat / 32,
    {
        let high: u8 = value & FIRST_THREE_BITS;
        assert(high == (value / 32) * 32) by (bit_vector)
            requires
                high == value & 0xE0,
        ;
        if high == 0x00 {
            MajorType::UnsignedInteger
        } else if high == 0x20 {
            MajorType::NegativeInteger
        } else if high == 0x40 {
            MajorType::Bytes
        } else if high == 0x60 {
            MajorType::Text
        } else if high == 0x80 {
            MajorType::Array
        } else if high == 0xA0 {
            MajorType::Object
        } else if high == 0xC0 {
            MajorType::SemanticTag
        } else {
            MajorType::NoContentType
        }
    }
}

/// How the value of a head is stored: in the initial byte itself, or in the
/// one, two, four or eight bytes that follow it.
#[derive(Debug, Clone, Copy, PartialEq, Eq, Structural)]
pub enum ExtendedSize {
    /// The value is the low five bits of the initial byte.
    Embedded,
    /// The value is the next byte. Additional information 24.
    U8,
    /// The value is the next two bytes. Additional information 25.
    U16,
    /// The value is the next four bytes. Additional information 26.
    U32,
    /// The value is the next eight bytes. Additional information 27.
    U64,
}

impl ExtendedSize {
    /// The additional information that announces this size; 0 for an
    /// embedded value.
    pub open spec fn tag(self) -> u8 {
        match self {
            ExtendedSize::Embedded => 0,
            ExtendedSize::U8 => 24,
            ExtendedSize::U16 => 25,
            ExtendedSize::U32 => 26,
            ExtendedSize::U64 => 27,
        }
    }

    /// The number of bytes that follow the initial byte.
    pub open spec fn num_bytes(self) -> nat {
        match self {
            ExtendedSize::Embedded => 0,
            ExtendedSize::U8 => 1,
            ExtendedSize::U16 => 2,
            ExtendedSize::U32 => 4,
            ExtendedSize::U64 => 8,
        }
    }

    /// The size that the additional information `info` announces. Anything
    /// but 24 to 27 counts as embedded.
    pub open spec fn of_info(info: nat) -> ExtendedSize {
        if info == 24 {
            ExtendedSize::U8
        } else if info == 25 {
            ExtendedSize::U16
        } else if info == 26 {
            ExtendedSize::U32
        } else if info == 27 {
            ExtendedSize::U64
        } else {
            ExtendedSize::Embedded
        }
    }

    /// The low five bits of the initial byte that announce this size.
    #[inline]
    pub fn as_u8(&self) -> (r: u8)
        ensures
            r == self.tag(),
    {
        match self {
            ExtendedSize::Embedded => 0,
            ExtendedSize::U8 => 0x18,
            ExtendedSize::U16 => 0x19,
            ExtendedSize::U32 => 0x1A,
            ExtendedSize::U64 => 0x1B,
        }
    }

    /// The size announced by the low five bits of `value`. The high three
    /// bits are ignored.
    #[inline]
    pub fn from_u8(value: u8) -> (r: Self)
        ensures
            r == ExtendedSize::of_info(value as nat % 32),
    {
        let info: u8 = get_embedded_value(value);
        if info == 24 {
            ExtendedSize::U8
        } else if info == 25 {
            ExtendedSize::U16
        } else if info == 26 {
            ExtendedSize::U32
        } else if info == 27 {
            ExtendedSize::U64
        } else {
            ExtendedSize::Embedded
        }
    }
}

/// The additional information of an initial byte: its low five bits.
#[inline]
pub fn get_embedded_value(byte: u8) -> (r: u8)
    ensures
        r == byte % 32,
        r < 32,
{
    let r: u8 = byte & LAST_FIVE_BITS;
    assert(r == byte % 32) by (bit_vector)
        requires
            r == byte & 0x1F,
    ;
    r
}

/// The additional information of the shortest head that holds `value`: the
/// value itself up to 23, else the tag of the smallest size that fits.
pub open spec fn embedded_value_for(value: u64) -> u8 {
    if value <= 23 {
        value as u8
    } else if value <= 0xFF {
        24
    } else if value <= 0xFFFF {
        25
    } else if value <= 0xFFFF_FFFF {
        26
    } else {
        27
    }
}

/// The number of bytes that follow the initial byte in the shortest head
/// that holds `value`.
pub open spec fn num_bytes_for(value: u64) -> nat {
    if value <= 23 {
        0
    } else if value <= 0xFF {
        1
    } else if value <= 0xFFFF {
        2
    } else if value <= 0xFFFF_FFFF {
        4
    } else {
        8
    }
}

/// The `n` low-order bytes of `value`, most significant first.
pub open spec fn be_bytes(value: nat, n: nat) -> Seq<u8>
    decreases n,
{
    if n == 0 {
        Seq::empty()
    } else {
        be_bytes(value / 256, (n - 1) as nat).push((value % 256) as u8)
    }
}

/// The number that `bytes` spell, most significant byte first.
pub open spec fn be_value(bytes: Seq<u8>) -> nat
    decreases bytes.len(),
{
    if bytes.len() == 0 {
        0
    } else {
        be_value(bytes.drop_last()) * 256 + bytes.last() as nat
    }
}

/// The shortest head for `value` with the major type bits left at zero.
pub open spec fn value_bytes(value: u64) -> Seq<u8> {
    seq![embedded_value_for(value)] + be_bytes(value as nat, num_bytes_for(value))
}

/// The shortest head that announces `value` under `major_type`: the initial
/// byte, then the value's bytes where it does not fit into the initial byte.
pub open spec fn cbor_head(major_type: MajorType, value: u64) -> Seq<u8> {
    seq![(major_type.bits() + embedded_value_for(value)) as u8] + be_bytes(
        value as nat,
        num_bytes_for(value),
    )
}

/// The additional information of the shortest head that holds `value`.
#[inline]
pub fn get_embedded_value_for_u64(value: u64) -> (r: u8)
    ensures
        r == embedded_value_for(value),
        r <= 27,
{
    if value <= EMBEDDED_MAX_AS_U64 {
        value as u8
    } else if value <= U8_MAX {
        24
    } else if value <= U16_MAX {
        25
    } else if value <= U32_MAX {
        26
    } else {
        27
    }
}

/// The number of bytes needed after the initial byte to hold `value`.
#[inline]
pub fn get_num_bytes_for_u64(value: u64) -> (r: usize)
    ensures
        r == num_bytes_for(value),
{
    if value <= EMBEDDED_MAX_AS_U64 {
        0
    } else if value <= U8_MAX {
        1
    } else if value <= U16_MAX {
        2
    } else if value <= U32_MAX {
        4
    } else {
        8
    }
}

/// Appends the `n` low-order bytes of `value` to `writer`, most significant
/// first.
pub fn push_be_bytes(writer: &mut Vec<u8>, value: u64, n: usize)
    ensures
        final(writer)@ == old(writer)@ + be_bytes(value as nat, n as nat),
    decreases n,
{
    if n > 0 {
        push_be_bytes(writer, value / 256, n - 1);
        writer.push((value % 256) as u8);
        assert(writer@ == old(writer)@ + be_bytes(value as nat, n as nat));
    } else {
        assert(writer@ == old(writer)@ + be_bytes(value as nat, n as nat));
    }
}

/// The shortest head for `value` as bytes of their own, with the major type
/// bits left at zero: the additional information, then the value's bytes.
pub fn get_value_bytes(value: u64) -> (v: Vec<u8>)
    ensures
        v@ == value_bytes(value),
{
    let num_bytes: usize = get_num_bytes_for_u64(value);
    let mut v: Vec<u8> = Vec::with_capacity(1 + num_bytes);
    v.push(get_embedded_value_for_u64(value));
    push_be_bytes(&mut v, value, num_bytes);
    v
}

/// Appends to `writer` the shortest head that announces `value` under
/// `major_type`. A head is one to nine bytes long.
pub fn write_cbor_head(major_type: MajorType, value: u64, writer: &mut Vec<u8>)
    ensures
        final(writer)@ == old(writer)@ + cbor_head(major_type, value),
{
    let high: u8 = major_type.as_u8();
    let low: u8 = get_embedded_value_for_u64(value);
    let initial: u8 = high | low;
    assert(high % 32 == 0);
    assert(initial == high + low) by (bit_vector)
        requires
            initial == high | low,
            high % 32 == 0,
            low <= 27,
    ;
    writer.push(initial);
    push_be_bytes(writer, value, get_num_bytes_for_u64(value));
}

/// 256 to the power of `n`.
pub open spec fn pow256(n: nat) -> nat
    decreases n,
{
    if n == 0 {
        1
    } else {
        256 * pow256((n - 1) as nat)
    }
}

/// `be_bytes` gives as many bytes as it is asked for.
pub proof fn lemma_be_bytes_len(value: nat, n: nat)
    ensures
        be_bytes(value, n).len() == n,
    decreases n,
{
    if n > 0 {
        lemma_be_bytes_len(value / 256, (n - 1) as nat);
    }
}

/// What `n` bytes spell is below 256 to the power of `n`.
pub proof fn lemma_be_value_bound(bytes: Seq<u8>)
    ensures
        be_value(bytes) < pow256(bytes.len()),
    decreases bytes.len(),
{
    if bytes.len() > 0 {
        lemma_be_value_bound(bytes.drop_last());
    }
}

/// The bytes of a value spell that value again, as far as they hold it:
/// `n` bytes keep the value modulo 256 to the power of `n`.
pub proof fn lemma_be_value_of_be_bytes(value: nat, n: nat)
    ensures
        be_value(be_bytes(value, n)) == value % pow256(n),
    decreases n,
{
    if n > 0 {
        let rest = be_bytes(value / 256, (n - 1) as nat);
        let all = be_bytes(value, n);
        assert(all.drop_last() =~= rest);
        lemma_be_value_of_be_bytes(value / 256, (n - 1) as nat);
        let p = pow256((n - 1) as nat);
        lemma_pow256_positive((n - 1) as nat);
        vstd::arithmetic::div_mod::lemma_breakdown(value as int, 256, p as int);
    }
}

/// Every power of 256 is positive.
pub proof fn lemma_pow256_positive(n: nat)
    ensures
        pow256(n) > 0,
    decreases n,
{
    if n > 0 {
        lemma_pow256_positive((n - 1) as nat);
    }
}

/// A higher power of 256 is no smaller.
pub proof fn lemma_pow256_monotonic(a: nat, b: nat)
    requires
        a <= b,
    ensures
        pow256(a) <= pow256(b),
    decreases b,
{
    if a < b {
        lemma_pow256_monotonic(a, (b - 1) as nat);
        lemma_pow256_positive((b - 1) as nat);
    }
}

/// The first powers of 256 that a head can need: those of 1, 2, 4 and 8.
pub proof fn lemma_pow256_of_8()
    ensures
        pow256(1) == 0x100,
        pow256(2) == 0x1_0000,
        pow256(4) == 0x1_0000_0000,
        pow256(8) == 0x1_0000_0000_0000_0000,
{
    assert(pow256(0) == 1);
    assert(pow256(1) == 0x100);
    assert(pow256(2) == 0x1_0000);
    assert(pow256(3) == 0x100_0000);
    assert(pow256(4) == 0x1_0000_0000);
    assert(pow256(5) == 0x100_0000_0000);
    assert(pow256(6) == 0x1_0000_0000_0000);
    assert(pow256(7) == 0x100_0000_0000_0000);
    assert(pow256(8) == 0x1_0000_0000_0000_0000);
}

/// The number that `bytes`, at most eight of them, spell most significant
/// byte first.
pub fn be_to_u64(bytes: &[u8]) -> (r: u64)
    requires
        bytes@.len() <= 8,
    ensures
        r == be_value(bytes@),
{
    let mut acc: u64 = 0;
    let mut i: usize = 0;
    while i < bytes.len()
        invariant
            i <= bytes@.len() <= 8,
            acc == be_value(bytes@.take(i as int)),
        decreases bytes@.len() - i,
    {
        proof {
            let prefix = bytes@.take(i as int);
            let next = bytes@.take(i + 1);
            assert(next.drop_last() =~= prefix);
            lemma_be_value_bound(next);
            lemma_pow256_monotonic(next.len(), 8);
            lemma_pow256_of_8();
        }
        acc = acc * 256 + bytes[i] as u64;
        i += 1;
    }
    assert(bytes@.take(i as int) =~= bytes@);
    acc
}

} // verus!
