//! Plain values as they lie in memory: sizes, alignments and little-endian
//! integers.
use crate::layout::{dword_at, law_stored_bytes_spell_the_number, qword_at, word_at};
use vstd::prelude::*;
use vstd::slice::slice_subrange;

verus! {

/// The number that a byte string spells, least significant byte first.
pub open spec fn le_value(s: Seq<u8>) -> nat
    decreases s.len(),
{
    if s.len() == 0 {
        0
    } else {
        s[0] as nat + 256 * le_value(s.drop_first())
    }
}

/// The low `len` bytes of a number, least significant byte first.
pub open spec fn le_bytes(value: nat, len: nat) -> Seq<u8>
    decreases len,
{
    if len == 0 {
        seq![]
    } else {
        seq![(value % 256) as u8] + le_bytes(value / 256, (len - 1) as nat)
    }
}

/// A byte string comes back from the number that it spells.
pub proof fn law_bytes_come_back(s: Seq<u8>)
    ensures
        le_bytes(le_value(s), s.len()) == s,
    decreases s.len(),
{
    if s.len() > 0 {
        law_bytes_come_back(s.drop_first());
        assert(le_value(s) % 256 == s[0]);
        assert(le_value(s) / 256 == le_value(s.drop_first()));
        assert(seq![s[0]] + s.drop_first() =~= s);
    }
}

/// A number comes back from its bytes, as long as it fits in them.
pub proof fn law_number_comes_back(value: nat, len: nat)
    requires
        value < vstd::arithmetic::power::pow(256, len),
    ensures
        le_bytes(value, len).len() == len,
        le_value(le_bytes(value, len)) == value,
    decreases len,
{
    reveal(vstd::arithmetic::power::pow);
    if len > 0 {
        let rest = (len - 1) as nat;
        let tail = le_bytes(value / 256, rest);
        law_number_comes_back(value / 256, rest);
        assert(le_bytes(value, len).drop_first() =~= tail);
    }
}

proof fn lemma_byte_powers()
    ensures
        vstd::arithmetic::power::pow(256, 2) == 0x1_0000,
        vstd::arithmetic::power::pow(256, 4) == 0x1_0000_0000,
        vstd::arithmetic::power::pow(256, 8) == 0x1_0000_0000_0000_0000,
{
    reveal_with_fuel(vstd::arithmetic::power::pow, 9);
}

/// The `len` bytes of `s` that start at `at`.
pub open spec fn slice_at(s: Seq<u8>, at: int, len: nat) -> Seq<u8> {
    s.subrange(at, at + len)
}

/// Whether `align` is an alignment that a type can have.
pub open spec fn is_align(align: nat) -> bool {
    exists|k: nat| align == #[trigger] vstd::arithmetic::power2::pow2(k)
}

/// A type whose values are laid out in memory in a fixed way, with no
/// invalid bit patterns.
pub trait Plain: Sized {
    /// Number of bytes that a value takes.
    spec fn size() -> nat;

    /// Alignment of a value.
    spec fn align() -> nat;

    /// The value that `size()` bytes stand for.
    spec fn decode(bytes: Seq<u8>) -> Self;

    /// The size fits in memory and is a multiple of the alignment, which is a
    /// power of two.
    proof fn layout_is_valid()
        ensures
            is_align(Self::align()),
            Self::size() % Self::align() == 0,
            Self::size() <= 0x7fff_ffff,
    ;

    /// Number of bytes that a value takes.
    fn size_of() -> (r: usize)
        ensures
            r == Self::size(),
    ;

    /// Alignment of a value.
    fn align_of() -> (r: usize)
        ensures
            r == Self::align(),
    ;

    /// Reads a value out of its bytes.
    fn from_bytes(bytes: &[u8]) -> (r: Self)
        requires
            bytes@.len() == Self::size(),
        ensures
            r == Self::decode(bytes@),
    ;
}

/// A plain value without padding, which can be turned back into its bytes.
pub trait Scalar: Plain {
    /// The bytes of a value.
    spec fn encode(self) -> Seq<u8>;

    /// A value comes back from its bytes.
    proof fn comes_back(self)
        ensures
            self.encode().len() == Self::size(),
            Self::decode(self.encode()) == self,
    ;

    /// The bytes of a value.
    fn to_bytes(self) -> (r: Vec<u8>)
        ensures
            r@ == self.encode(),
    ;
}

proof fn lemma_le_value_1(s: Seq<u8>)
    requires
        s.len() == 1,
    ensures
        le_value(s) == s[0],
{
    reveal_with_fuel(le_value, 2);
}

pub(crate) proof fn lemma_le_value_2(s: Seq<u8>)
    requires
        s.len() == 2,
    ensures
        le_value(s) == s[0] + 0x100 * s[1],
{
    lemma_le_value_1(s.drop_first());
}

pub(crate) proof fn lemma_le_value_4(s: Seq<u8>)
    requires
        s.len() == 4,
    ensures
        le_value(s) == s[0] + 0x100 * s[1] + 0x1_0000 * s[2] + 0x100_0000 * s[3],
{
    let t = s.drop_first();
    let u = t.drop_first();
    lemma_le_value_2(u);
    assert(le_value(t) == t[0] + 256 * le_value(u));
}

pub(crate) proof fn lemma_le_value_8(s: Seq<u8>)
    requires
        s.len() == 8,
    ensures
        le_value(s) == s[0] + 0x100 * s[1] + 0x1_0000 * s[2] + 0x100_0000 * s[3] + 0x1_0000_0000
            * s[4] + 0x100_0000_0000 * s[5] + 0x1_0000_0000_0000 * s[6] + 0x100_0000_0000_0000
            * s[7],
{
    let s1 = s.drop_first();
    let s2 = s1.drop_first();
    let s3 = s2.drop_first();
    let s4 = s3.drop_first();
    lemma_le_value_4(s4);
    assert(le_value(s3) == s3[0] + 256 * le_value(s4));
    assert(le_value(s2) == s2[0] + 256 * le_value(s3));
    assert(le_value(s1) == s1[0] + 256 * le_value(s2));
}

impl Plain for u8 {
    open spec fn size() -> nat {
        1
    }

    open spec fn align() -> nat {
        1
    }

    open spec fn decode(bytes: Seq<u8>) -> u8 {
        bytes[0]
    }

    proof fn layout_is_valid() {
        vstd::arithmetic::power2::lemma2_to64();
    }

    fn size_of() -> (r: usize) {
        1
    }

    fn align_of() -> (r: usize) {
        1
    }

    fn from_bytes(bytes: &[u8]) -> (r: u8) {
        bytes[0]
    }
}

impl Plain for u16 {
    open spec fn size() -> nat {
        2
    }

    open spec fn align() -> nat {
        2
    }

    open spec fn decode(bytes: Seq<u8>) -> u16 {
        le_value(bytes) as u16
    }

    proof fn layout_is_valid() {
        vstd::arithmetic::power2::lemma2_to64();
    }

    fn size_of() -> (r: usize) {
        2
    }

    fn align_of() -> (r: usize) {
        2
    }

    fn from_bytes(bytes: &[u8]) -> (r: u16)
        ensures
            r == word_at(bytes@, 0),
    {
        proof {
            lemma_le_value_2(bytes@);
        }
        bytes[0] as u16 + 0x100 * (bytes[1] as u16)
    }
}

impl Plain for u32 {
    open spec fn size() -> nat {
        4
    }

    open spec fn align() -> nat {
        4
    }

    open spec fn decode(bytes: Seq<u8>) -> u32 {
        le_value(bytes) as u32
    }

    proof fn layout_is_valid() {
        vstd::arithmetic::power2::lemma2_to64();
    }

    fn size_of() -> (r: usize) {
        4
    }

    fn align_of() -> (r: usize) {
        4
    }

    fn from_bytes(bytes: &[u8]) -> (r: u32)
        ensures
            r == dword_at(bytes@, 0),
    {
        proof {
            lemma_le_value_4(bytes@);
        }
        bytes[0] as u32 + 0x100 * (bytes[1] as u32) + 0x1_0000 * (bytes[2] as u32) + 0x100_0000 * (
        bytes[3] as u32)
    }
}

impl Plain for u64 {
    open spec fn size() -> nat {
        8
    }

    open spec fn align() -> nat {
        8
    }

    open spec fn decode(bytes: Seq<u8>) -> u64 {
        le_value(bytes) as u64
    }

    proof fn layout_is_valid() {
        vstd::arithmetic::power2::lemma2_to64();
    }

    fn size_of() -> (r: usize) {
        8
    }

    fn align_of() -> (r: usize) {
        8
    }

    fn from_bytes(bytes: &[u8]) -> (r: u64)
        ensures
            r == qword_at(bytes@, 0),
    {
        proof {
            lemma_le_value_8(bytes@);
        }
        let low: u64 = bytes[0] as u64 + 0x100 * (bytes[1] as u64) + 0x1_0000 * (bytes[2] as u64)
            + 0x100_0000 * (bytes[3] as u64);
        let high: u64 = bytes[4] as u64 + 0x100 * (bytes[5] as u64) + 0x1_0000 * (bytes[6] as u64)
            + 0x100_0000 * (bytes[7] as u64);
        low + 0x1_0000_0000 * high
    }
}

impl Scalar for u8 {
    open spec fn encode(self) -> Seq<u8> {
        seq![self]
    }

    proof fn comes_back(self) {
    }

    fn to_bytes(self) -> (r: Vec<u8>) {
        vec![self]
    }
}

impl Scalar for u16 {
    open spec fn encode(self) -> Seq<u8> {
        le_bytes(self as nat, 2)
    }

    proof fn comes_back(self) {
        lemma_byte_powers();
        law_number_comes_back(self as nat, 2);
    }

    fn to_bytes(self) -> (r: Vec<u8>)
        ensures
            word_at(r@, 0) == self,
    {
        proof {
            law_stored_bytes_spell_the_number(0, self, 0, 0);
        }
        let q1: u16 = self / 256;
        let r: Vec<u8> = vec![
            (self % 256) as u8,
            (q1 % 256) as u8,
        ];
        proof {
            reveal_with_fuel(le_bytes, 3);
            assert(r@ =~= le_bytes(self as nat, 2));
        }
        r
    }
}

impl Scalar for u32 {
    open spec fn encode(self) -> Seq<u8> {
        le_bytes(self as nat, 4)
    }

    proof fn comes_back(self) {
        lemma_byte_powers();
        law_number_comes_back(self as nat, 4);
    }

    fn to_bytes(self) -> (r: Vec<u8>)
        ensures
            dword_at(r@, 0) == self,
    {
        proof {
            law_stored_bytes_spell_the_number(0, 0, self, 0);
        }
        let q1: u32 = self / 256;
        let q2: u32 = q1 / 256;
        let q3: u32 = q2 / 256;
        let r: Vec<u8> = vec![
            (self % 256) as u8,
            (q1 % 256) as u8,
            (q2 % 256) as u8,
            (q3 % 256) as u8,
        ];
        proof {
            reveal_with_fuel(le_bytes, 5);
            assert(r@ =~= le_bytes(self as nat, 4));
        }
        r
    }
}

impl Scalar for u64 {
    open spec fn encode(self) -> Seq<u8> {
        le_bytes(self as nat, 8)
    }

    proof fn comes_back(self) {
        lemma_byte_powers();
        law_number_comes_back(self as nat, 8);
    }

    fn to_bytes(self) -> (r: Vec<u8>)
        ensures
            qword_at(r@, 0) == self,
    {
        proof {
            law_stored_bytes_spell_the_number(0, 0, 0, self);
        }
        let q1: u64 = self / 256;
        let q2: u64 = q1 / 256;
        let q3: u64 = q2 / 256;
        let q4: u64 = q3 / 256;
        let q5: u64 = q4 / 256;
        let q6: u64 = q5 / 256;
        let q7: u64 = q6 / 256;
        let r: Vec<u8> = vec![
            (self % 256) as u8,
            (q1 % 256) as u8,
            (q2 % 256) as u8,
            (q3 % 256) as u8,
            (q4 % 256) as u8,
            (q5 % 256) as u8,
            (q6 % 256) as u8,
            (q7 % 256) as u8,
        ];
        proof {
            reveal_with_fuel(le_bytes, 9);
            assert(r@ =~= le_bytes(self as nat, 8));
        }
        r
    }
}

/// What is read is what was written.
pub proof fn law_read_gives_back_what_was_written<T: Scalar>(value: T)
    ensures
        value.encode().len() == T::size(),
        T::decode(value.encode()) == value,
{
    value.comes_back();
}

/// Reads a plain value that lies at offset `at` of `bytes`.
pub fn field<T: Plain>(bytes: &[u8], at: usize) -> (r: T)
    requires
        at + T::size() <= bytes@.len(),
    ensures
        r == T::decode(slice_at(bytes@, at as int, T::size())),
{
    let len: usize = T::size_of();
    assert(bytes.len() == bytes@.len());
    T::from_bytes(slice_subrange(bytes, at, at + len))
}

} // verus!
