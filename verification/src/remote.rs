//! Values in the address space of another process.
//!
//! Nothing here touches the other process. A `ReadRequest` or `WriteRequest`
//! says what is to be fetched or stored there; the functions that go with it
//! turn fetched bytes into values and values into bytes to store.
use crate::plain::{is_align, slice_at, Plain, Scalar};
use std::ops::Range;
use vstd::prelude::*;
use vstd::slice::slice_subrange;

verus! {

/// Bytes to fetch from the other process: `size` bytes from `addr` on.
pub struct ReadRequest {
    pub addr: u64,
    pub size: u64,
}

/// Bytes to store in the other process, from `addr` on.
pub struct WriteRequest {
    pub addr: u64,
    pub bytes: Vec<u8>,
}

/// Largest number of bytes that one allocation can hold.
pub const MAX_ALLOCATION: u64 = 0x7FFF_FFFF_FFFF_FFFF;

/// Alignment that values inside a `Memory` can rely on.
pub const ALIGN: usize = 16;

/// The `count` values that lie one behind the other in `bytes`.
pub open spec fn decode_array<T: Plain>(bytes: Seq<u8>, count: nat) -> Seq<T> {
    Seq::new(count, |i: int| T::decode(slice_at(bytes, i * T::size(), T::size())))
}

/// What to fetch to read a single value at `addr`.
pub fn read_request<T: Plain>(addr: u64) -> (r: ReadRequest)
    ensures
        r.addr == addr,
        r.size == T::size(),
{
    ReadRequest { addr, size: T::size_of() as u64 }
}

/// Reads a single value from the bytes that were fetched for it.
pub fn read<T: Plain>(bytes: &[u8]) -> (r: T)
    requires
        bytes@.len() == T::size(),
    ensures
        r == T::decode(bytes@),
{
    T::from_bytes(bytes)
}

/// What to fetch to read `count` values from `addr` on.
pub fn read_array_request<T: Plain>(addr: u64, count: usize) -> (r: ReadRequest)
    requires
        count * T::size() <= MAX_ALLOCATION,
    ensures
        r.addr == addr,
        r.size == count * T::size(),
{
    ReadRequest { addr, size: count as u64 * T::size_of() as u64 }
}

/// Reads `count` values from the bytes that were fetched for them.
pub fn read_array<T: Plain>(bytes: &[u8], count: usize) -> (r: Vec<T>)
    requires
        bytes@.len() == count * T::size(),
    ensures
        r@ == decode_array::<T>(bytes@, count as nat),
{
    let size: usize = T::size_of();
    let mut values: Vec<T> = Vec::new();
    let mut i: usize = 0;
    let mut at: usize = 0;
    assert(bytes.len() == bytes@.len());
    while i < count
        invariant
            bytes@.len() == count * T::size(),
            bytes@.len() <= usize::MAX,
            size == T::size(),
            i <= count,
            at == i * T::size(),
            values@ == decode_array::<T>(bytes@, i as nat),
        decreases count - i,
    {
        assert(at + size <= count * T::size()) by (nonlinear_arith)
            requires
                i < count,
                at == i * T::size(),
                size == T::size(),
        ;
        assert(at + size == (i + 1) * T::size()) by (nonlinear_arith)
            requires
                at == i * T::size(),
                size == T::size(),
        ;
        values.push(T::from_bytes(slice_subrange(bytes, at, at + size)));
        at = at + size;
        i = i + 1;
    }
    values
}

/// What to store to write a single value at `addr`.
pub fn write<T: Scalar>(addr: u64, value: T) -> (r: WriteRequest)
    ensures
        r.addr == addr,
        r.bytes@ == value.encode(),
{
    WriteRequest { addr, bytes: value.to_bytes() }
}

/// A large chunk of another process's memory, with what is needed to map
/// addresses between the two processes.
pub struct Memory {
    data: Vec<u8>,
    remote_base: u64,
}

impl Memory {
    /// The bytes of the chunk.
    pub closed spec fn bytes(self) -> Seq<u8> {
        self.data@
    }

    /// Where the chunk lies in the other process.
    pub closed spec fn base(self) -> u64 {
        self.remote_base
    }

    /// The chunk fits in local memory.
    pub proof fn fits_in_memory(self)
        ensures
            self.bytes().len() <= usize::MAX,
    {
        assert(self.data.len() == self.data@.len());
    }

    /// Whether a `T` may start at offset `rva`.
    pub open spec fn starts<T: Plain>(self, rva: u64) -> bool {
        &&& T::align() <= ALIGN
        &&& rva as int % T::align() as int == 0
        &&& rva < self.bytes().len()
    }

    /// Whether `count` instances of `T` lie at offset `rva`.
    pub open spec fn holds<T: Plain>(self, rva: u64, count: usize) -> bool {
        self.starts::<T>(rva) && rva + T::size() * count <= self.bytes().len()
    }

    /// The `T` at offset `rva`, if one lies there.
    pub open spec fn value_at<T: Plain>(self, rva: u64) -> Option<T> {
        if self.holds::<T>(rva, 1) {
            Some(T::decode(slice_at(self.bytes(), rva as int, T::size())))
        } else {
            None
        }
    }

    /// The `count` instances of `T` at offset `rva`, if they lie there.
    pub open spec fn array_at<T: Plain>(self, rva: u64, count: usize) -> Option<Seq<T>> {
        if self.holds::<T>(rva, count) {
            Some(
                decode_array::<T>(
                    slice_at(self.bytes(), rva as int, (T::size() * count) as nat),
                    count as nat,
                ),
            )
        } else {
            None
        }
    }

    /// The offset that belongs to an address of the other process.
    pub open spec fn rva_of(self, remote_addr: u64) -> Option<u64> {
        if remote_addr >= self.base() {
            Some((remote_addr - self.base()) as u64)
        } else {
            None
        }
    }

    /// The `T` at an address of the other process, if it lies in the chunk.
    pub open spec fn remote_value_at<T: Plain>(self, ptr: u64) -> Option<T> {
        match self.rva_of(ptr) {
            Some(rva) => self.value_at::<T>(rva),
            None => None,
        }
    }

    /// The `count` instances of `T` at an address of the other process, if
    /// they lie in the chunk.
    pub open spec fn remote_array_at<T: Plain>(self, ptr: u64, count: usize) -> Option<Seq<T>> {
        match self.rva_of(ptr) {
            Some(rva) => self.array_at::<T>(rva, count),
            None => None,
        }
    }

    /// What to fetch to copy `range` of the other process.
    pub fn request(range: &Range<u64>) -> (r: ReadRequest)
        requires
            range.start <= range.end,
            range.end - range.start <= MAX_ALLOCATION - (ALIGN - 1),
        ensures
            r.addr == range.start,
            r.size == range.end - range.start,
    {
        ReadRequest { addr: range.start, size: range.end - range.start }
    }

    /// Keeps the bytes that were fetched from `range` of the other process.
    pub fn new(range: Range<u64>, data: Vec<u8>) -> (r: Memory)
        requires
            range.start <= range.end,
            data@.len() == range.end - range.start,
        ensures
            r.bytes() == data@,
            r.base() == range.start,
    {
        Memory { data, remote_base: range.start }
    }

    /// The data in the local address space.
    pub fn as_slice(&self) -> (r: &[u8])
        ensures
            r@ == self.bytes(),
    {
        self.data.as_slice()
    }

    /// Whether it's valid to read an array of `count` instances of `T` from
    /// `rva`: the chunk is large enough and `rva` is suitably aligned.
    fn can_read<T: Plain>(&self, rva: u64, count: usize) -> (r: bool)
        ensures
            r == self.holds::<T>(rva, count),
    {
        let align: usize = T::align_of();
        let size: u64 = self.data.len() as u64;
        proof {
            T::layout_is_valid();
            lemma_align_positive(T::align());
            if align <= ALIGN {
                lemma_low_bits(rva, align as u64);
            }
        }
        align <= ALIGN && rva & (align as u64 - 1) == 0 && rva < size && match (
        T::size_of() as u64).checked_mul(count as u64) {
            Some(needed) => size - rva >= needed,
            None => false,
        }
    }

    /// Gets the instance of `T` at offset `rva`.
    pub fn get<T: Plain>(&self, rva: u64) -> (r: Option<T>)
        ensures
            r == self.value_at::<T>(rva),
    {
        proof {
            T::layout_is_valid();
        }
        if self.can_read::<T>(rva, 1) {
            assert(self.data.len() == self.data@.len());
            let at: usize = rva as usize;
            let end: usize = at + T::size_of();
            Some(T::from_bytes(slice_subrange(self.data.as_slice(), at, end)))
        } else {
            None
        }
    }

    /// Gets `count` instances of `T` at offset `rva`.
    pub fn get_array<T: Plain>(&self, rva: u64, count: usize) -> (r: Option<Vec<T>>)
        ensures
            match r {
                Some(values) => self.array_at::<T>(rva, count) == Some(values@),
                None => self.array_at::<T>(rva, count) is None,
            },
    {
        if self.can_read::<T>(rva, count) {
            assert(self.data.len() == self.data@.len());
            let at: usize = rva as usize;
            let end: usize = at + T::size_of() * count;
            proof {
                vstd::arithmetic::mul::lemma_mul_is_commutative(T::size() as int, count as int);
            }
            Some(read_array::<T>(slice_subrange(self.data.as_slice(), at, end), count))
        } else {
            None
        }
    }

    /// Converts an absolute address of the other process to a relative offset.
    pub fn get_rva(&self, remote_addr: u64) -> (r: Option<u64>)
        ensures
            r == self.rva_of(remote_addr),
    {
        remote_addr.checked_sub(self.remote_base)
    }

    /// Gets the value at an address of the other process.
    pub fn from_remote<T: Plain>(&self, ptr: u64) -> (r: Option<T>)
        ensures
            r == self.remote_value_at::<T>(ptr),
    {
        match self.get_rva(ptr) {
            Some(rva) => self.get::<T>(rva),
            None => None,
        }
    }

    /// Gets `count` values from an address of the other process on.
    pub fn from_remote_array<T: Plain>(&self, ptr: u64, count: usize) -> (r: Option<Vec<T>>)
        ensures
            match r {
                Some(values) => self.remote_array_at::<T>(ptr, count) == Some(values@),
                None => self.remote_array_at::<T>(ptr, count) is None,
            },
    {
        match self.get_rva(ptr) {
            Some(rva) => self.get_array::<T>(rva, count),
            None => None,
        }
    }
}

/// The offset of an address of the other process leads to the same value as
/// the address.
pub proof fn law_addresses_and_offsets_agree<T: Plain>(memory: Memory, rva: u64)
    requires
        memory.base() + rva <= u64::MAX,
    ensures
        memory.rva_of((memory.base() + rva) as u64) == Some(rva),
        memory.remote_value_at::<T>((memory.base() + rva) as u64) == memory.value_at::<T>(rva),
{
}

/// An array is made of the values that can be read one by one.
pub proof fn law_array_is_its_values<T: Plain>(memory: Memory, rva: u64, count: usize, i: int)
    requires
        memory.holds::<T>(rva, count),
        0 <= i < count,
    ensures
        memory.value_at::<T>((rva + i * T::size()) as u64) == Some(
            memory.array_at::<T>(rva, count)->0[i],
        ),
{
    T::layout_is_valid();
    lemma_align_positive(T::align());
    memory.fits_in_memory();
    let size = T::size() as int;
    let align = T::align() as int;
    let at = rva + i * size;
    assert(at + size <= rva + size * count) by (nonlinear_arith)
        requires
            at == rva + i * size,
            i + 1 <= count,
            0 <= size,
    ;
    assert(0 <= i * size) by (nonlinear_arith)
        requires
            0 <= i,
            0 <= size,
    ;
    assert(at % align == 0) by {
        vstd::arithmetic::div_mod::lemma_fundamental_div_mod(size, align);
        let q = size / align;
        assert(i * size == (i * q) * align) by (nonlinear_arith)
            requires
                size == align * q,
        ;
        vstd::arithmetic::div_mod::lemma_mod_multiples_vanish(i * q, rva as int, align);
        assert(align * (i * q) == (i * q) * align) by (nonlinear_arith);
    }
    if size == 0 {
        assert(i * size == 0) by (nonlinear_arith)
            requires
                size == 0,
        ;
    }
    let whole = slice_at(memory.bytes(), rva as int, (T::size() * count) as nat);
    assert(slice_at(whole, i * T::size(), T::size()) =~= slice_at(memory.bytes(), at, T::size()));
}

proof fn lemma_align_positive(align: nat)
    requires
        is_align(align),
    ensures
        0 < align,
{
    let k = choose|k: nat| align == #[trigger] vstd::arithmetic::power2::pow2(k);
    vstd::arithmetic::power2::lemma_pow2_pos(k);
}

/// The low bits of a number are its remainder modulo a power of two.
proof fn lemma_low_bits(x: u64, align: u64)
    requires
        is_align(align as nat),
        align <= ALIGN,
    ensures
        0 < align,
        x & ((align - 1) as u64) == x % align,
{
    let k = choose|k: nat| align as nat == #[trigger] vstd::arithmetic::power2::pow2(k);
    vstd::arithmetic::power2::lemma2_to64();
    if k >= 5 {
        if k > 5 {
            vstd::arithmetic::power2::lemma_pow2_strictly_increases(5, k);
        }
        assert(false);
    }
    vstd::bits::lemma_u64_low_bits_mask_is_mod(x, k);
    assert(vstd::bits::low_bits_mask(k) == align - 1);
}

} // verus!
