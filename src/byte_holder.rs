//! Owned byte buffers that carry one value of a plain-data type.
use vstd::prelude::*;

verus! {

/// Whether `a` is a power of two.
pub open spec fn is_power_of_two(a: nat) -> bool
    decreases a,
{
    if a == 1 {
        true
    } else if a == 0 || a % 2 == 1 {
        false
    } else {
        is_power_of_two(a / 2)
    }
}

/// Size and alignment of a memory region.
#[derive(Clone, Copy, Debug, PartialEq, Eq)]
pub struct ByteLayout {
    size: usize,
    align: usize,
}

impl ByteLayout {
    /// The alignment is a power of two and the size, rounded up to it, fits in `isize`.
    pub open spec fn valid_parts(size: nat, align: nat) -> bool {
        &&& is_power_of_two(align)
        &&& size + align <= isize::MAX + 1
    }

    pub closed spec fn spec_size(&self) -> nat {
        self.size as nat
    }

    pub closed spec fn spec_align(&self) -> nat {
        self.align as nat
    }

    pub open spec fn wf(&self) -> bool {
        Self::valid_parts(self.spec_size(), self.spec_align())
    }

    /// A layout of `size` bytes aligned to `align`, when the two make a valid layout.
    pub fn from_size_align(size: usize, align: usize) -> (r: Option<ByteLayout>)
        ensures
            r.is_some() <==> Self::valid_parts(size as nat, align as nat),
            r.is_some() ==> r.unwrap().spec_size() == size && r.unwrap().spec_align() == align,
    {
        let mut a: usize = align;
        while a > 1 && a % 2 == 0
            invariant
                align == 0 ==> a == 0,
                align > 0 ==> a > 0,
                is_power_of_two(a as nat) == is_power_of_two(align as nat),
            decreases a,
        {
            a = a / 2;
        }
        let limit: usize = isize::MAX as usize;
        if a == 1 && align - 1 <= limit && size <= limit - (align - 1) {
            Some(ByteLayout { size, align })
        } else {
            None
        }
    }

    pub fn size(&self) -> (r: usize)
        ensures
            r == self.spec_size(),
    {
        self.size
    }

    pub fn align(&self) -> (r: usize)
        ensures
            r == self.spec_align(),
    {
        self.align
    }
}

/// A type whose values are fully described by a fixed encoding into bytes.
pub trait PlainData: Sized {
    /// The bytes that stand for `self`.
    spec fn spec_encode(&self) -> Seq<u8>;

    /// Whether `b` is the encoding of some value of the type.
    spec fn spec_decodable(b: Seq<u8>) -> bool;

    proof fn lemma_encode_decodable(v: &Self)
        ensures
            Self::spec_decodable(v.spec_encode()),
    ;

    proof fn lemma_encode_injective(a: &Self, b: &Self)
        ensures
            a.spec_encode() == b.spec_encode() ==> a == b,
    ;

    /// The number of bytes that every value of the type encodes to.
    spec fn spec_size() -> nat;

    proof fn lemma_encode_size(v: &Self)
        ensures
            v.spec_encode().len() == Self::spec_size(),
    ;

    /// The alignment that a buffer holding the type asks for.
    spec fn spec_align() -> nat;

    proof fn lemma_layout_valid(v: &Self)
        ensures
            ByteLayout::valid_parts(v.spec_encode().len(), Self::spec_align()),
    ;

    fn encode(&self) -> (r: Vec<u8>)
        ensures
            r@ == self.spec_encode(),
    ;

    fn decode(b: &[u8]) -> (r: Self)
        requires
            Self::spec_decodable(b@),
        ensures
            r.spec_encode() == b@,
    ;

    fn align() -> (r: usize)
        ensures
            r == Self::spec_align(),
    ;

    fn decodable(b: &[u8]) -> (r: bool)
        ensures
            r == Self::spec_decodable(b@),
    ;
}

/// The little-endian bytes of `v`.
pub open spec fn encode_u32(v: u32) -> Seq<u8> {
    seq![(v & 0xff) as u8, ((v >> 8) & 0xff) as u8, ((v >> 16) & 0xff) as u8, ((v >> 24) & 0xff) as u8]
}

impl PlainData for u32 {
    open spec fn spec_encode(&self) -> Seq<u8> {
        encode_u32(*self)
    }

    open spec fn spec_decodable(b: Seq<u8>) -> bool {
        b.len() == 4
    }

    proof fn lemma_encode_decodable(v: &Self) {
    }

    proof fn lemma_encode_injective(a: &Self, b: &Self) {
        let (x, y) = (*a, *b);
        if encode_u32(x) == encode_u32(y) {
            assert(encode_u32(x)[0] == encode_u32(y)[0]);
            assert(encode_u32(x)[1] == encode_u32(y)[1]);
            assert(encode_u32(x)[2] == encode_u32(y)[2]);
            assert(encode_u32(x)[3] == encode_u32(y)[3]);
            assert(x == y) by (bit_vector)
                requires
                    (x & 0xff) as u8 == (y & 0xff) as u8,
                    ((x >> 8) & 0xff) as u8 == ((y >> 8) & 0xff) as u8,
                    ((x >> 16) & 0xff) as u8 == ((y >> 16) & 0xff) as u8,
                    ((x >> 24) & 0xff) as u8 == ((y >> 24) & 0xff) as u8,
            ;
        }
    }

    open spec fn spec_size() -> nat {
        4
    }

    proof fn lemma_encode_size(v: &Self) {
    }

    open spec fn spec_align() -> nat {
        4
    }

    proof fn lemma_layout_valid(v: &Self) {
        lemma_small_powers_of_two();
    }

    fn encode(&self) -> (r: Vec<u8>) {
        let v = *self;
        let r = vec![(v & 0xff) as u8, ((v >> 8) & 0xff) as u8, ((v >> 16) & 0xff) as u8, ((v >> 24) & 0xff) as u8];
        assert(r@ =~= encode_u32(v));
        r
    }

    fn decode(b: &[u8]) -> (r: Self) {
        let (b0, b1, b2, b3) = (b[0], b[1], b[2], b[3]);
        let r: u32 = (b0 as u32) | ((b1 as u32) << 8) | ((b2 as u32) << 16) | ((b3 as u32) << 24);
        assert(
            (r & 0xff) as u8 == b0 && ((r >> 8) & 0xff) as u8 == b1 && ((r >> 16) & 0xff) as u8 == b2
                && ((r >> 24) & 0xff) as u8 == b3) by (bit_vector)
            requires
                r == (b0 as u32) | ((b1 as u32) << 8) | ((b2 as u32) << 16) | ((b3 as u32) << 24),
        ;
        assert(encode_u32(r) =~= b@);
        r
    }

    fn align() -> (r: usize) {
        4
    }

    fn decodable(b: &[u8]) -> (r: bool) {
        b.len() == 4
    }
}

/// The little-endian bytes of `v`.
pub open spec fn encode_u64(v: u64) -> Seq<u8> {
    seq![
        (v & 0xff) as u8,
        ((v >> 8) & 0xff) as u8,
        ((v >> 16) & 0xff) as u8,
        ((v >> 24) & 0xff) as u8,
        ((v >> 32) & 0xff) as u8,
        ((v >> 40) & 0xff) as u8,
        ((v >> 48) & 0xff) as u8,
        ((v >> 56) & 0xff) as u8,
    ]
}

impl PlainData for u64 {
    open spec fn spec_encode(&self) -> Seq<u8> {
        encode_u64(*self)
    }

    open spec fn spec_decodable(b: Seq<u8>) -> bool {
        b.len() == 8
    }

    proof fn lemma_encode_decodable(v: &Self) {
    }

    proof fn lemma_encode_injective(a: &Self, b: &Self) {
        let (x, y) = (*a, *b);
        if encode_u64(x) == encode_u64(y) {
            assert(forall|i: int| 0 <= i < 8 ==> encode_u64(x)[i] == encode_u64(y)[i]);
            assert(x == y) by (bit_vector)
                requires
                    (x & 0xff) as u8 == (y & 0xff) as u8,
                    ((x >> 8) & 0xff) as u8 == ((y >> 8) & 0xff) as u8,
                    ((x >> 16) & 0xff) as u8 == ((y >> 16) & 0xff) as u8,
                    ((x >> 24) & 0xff) as u8 == ((y >> 24) & 0xff) as u8,
                    ((x >> 32) & 0xff) as u8 == ((y >> 32) & 0xff) as u8,
                    ((x >> 40) & 0xff) as u8 == ((y >> 40) & 0xff) as u8,
                    ((x >> 48) & 0xff) as u8 == ((y >> 48) & 0xff) as u8,
                    ((x >> 56) & 0xff) as u8 == ((y >> 56) & 0xff) as u8,
            ;
        }
    }

    open spec fn spec_size() -> nat {
        8
    }

    proof fn lemma_encode_size(v: &Self) {
    }

    open spec fn spec_align() -> nat {
        8
    }

    proof fn lemma_layout_valid(v: &Self) {
        lemma_small_powers_of_two();
    }

    fn encode(&self) -> (r: Vec<u8>) {
        let v = *self;
        let r = vec![
            (v & 0xff) as u8,
            ((v >> 8) & 0xff) as u8,
            ((v >> 16) & 0xff) as u8,
            ((v >> 24) & 0xff) as u8,
            ((v >> 32) & 0xff) as u8,
            ((v >> 40) & 0xff) as u8,
            ((v >> 48) & 0xff) as u8,
            ((v >> 56) & 0xff) as u8,
        ];
        assert(r@ =~= encode_u64(v));
        r
    }

    fn decode(b: &[u8]) -> (r: Self) {
        let (b0, b1, b2, b3) = (b[0], b[1], b[2], b[3]);
        let (b4, b5, b6, b7) = (b[4], b[5], b[6], b[7]);
        let r: u64 = (b0 as u64) | ((b1 as u64) << 8) | ((b2 as u64) << 16) | ((b3 as u64) << 24)
            | ((b4 as u64) << 32) | ((b5 as u64) << 40) | ((b6 as u64) << 48) | ((b7 as u64) << 56);
        assert(
            (r & 0xff) as u8 == b0 && ((r >> 8) & 0xff) as u8 == b1 && ((r >> 16) & 0xff) as u8 == b2
                && ((r >> 24) & 0xff) as u8 == b3 && ((r >> 32) & 0xff) as u8 == b4 && ((r >> 40)
                & 0xff) as u8 == b5 && ((r >> 48) & 0xff) as u8 == b6 && ((r >> 56) & 0xff) as u8
                == b7) by (bit_vector)
            requires
                r == (b0 as u64) | ((b1 as u64) << 8) | ((b2 as u64) << 16) | ((b3 as u64) << 24)
                    | ((b4 as u64) << 32) | ((b5 as u64) << 40) | ((b6 as u64) << 48) | ((b7 as u64)
                    << 56),
        ;
        assert(encode_u64(r) =~= b@);
        r
    }

    fn align() -> (r: usize) {
        8
    }

    fn decodable(b: &[u8]) -> (r: bool) {
        b.len() == 8
    }
}

impl PlainData for u8 {
    open spec fn spec_encode(&self) -> Seq<u8> {
        seq![*self]
    }

    open spec fn spec_decodable(b: Seq<u8>) -> bool {
        b.len() == 1
    }

    proof fn lemma_encode_decodable(v: &Self) {
    }

    proof fn lemma_encode_injective(a: &Self, b: &Self) {
        if seq![*a] == seq![*b] {
            assert(seq![*a][0] == seq![*b][0]);
        }
    }

    open spec fn spec_size() -> nat {
        1
    }

    proof fn lemma_encode_size(v: &Self) {
    }

    open spec fn spec_align() -> nat {
        1
    }

    proof fn lemma_layout_valid(v: &Self) {
        lemma_small_powers_of_two();
    }

    fn encode(&self) -> (r: Vec<u8>) {
        let r = vec![*self];
        assert(r@ =~= seq![*self]);
        r
    }

    fn decode(b: &[u8]) -> (r: Self) {
        let r = b[0];
        assert(seq![r] =~= b@);
        r
    }

    fn align() -> (r: usize) {
        1
    }

    fn decodable(b: &[u8]) -> (r: bool) {
        b.len() == 1
    }
}

/// One value held as an owned buffer of bytes together with its layout.
pub struct ByteHolder {
    pub bytes: Vec<u8>,
    pub layout: ByteLayout,
    /// Whether the holder still owns its buffer; it always does, since handing
    /// the value out consumes the holder.
    pub need_drop: bool,
}

impl ByteHolder {
    /// The buffer matches the layout in length and the layout is valid.
    pub open spec fn wf(&self) -> bool {
        &&& self.layout.wf()
        &&& self.bytes@.len() == self.layout.spec_size()
        &&& self.need_drop
    }

    /// A holder of an independent copy of the bytes of `value`.
    pub fn from_ref<T: PlainData>(value: &T) -> (r: ByteHolder)
        ensures
            r.wf(),
            r.bytes@ == value.spec_encode(),
            r.layout.spec_align() == T::spec_align(),
    {
        proof {
            T::lemma_layout_valid(value);
        }
        let bytes = value.encode();
        let layout = ByteLayout { size: bytes.len(), align: T::align() };
        ByteHolder { bytes, layout, need_drop: true }
    }

    /// A holder of a fresh copy of `bytes`, which fill `layout` exactly.
    pub fn from_slice(bytes: &[u8], layout: ByteLayout) -> (r: ByteHolder)
        requires
            layout.wf(),
            bytes@.len() == layout.spec_size(),
        ensures
            r.wf(),
            r.bytes@ == bytes@,
            r.layout == layout,
    {
        let mut copy: Vec<u8> = Vec::with_capacity(bytes.len());
        let mut i: usize = 0;
        while i < bytes.len()
            invariant
                i <= bytes@.len(),
                copy@ == bytes@.subrange(0, i as int),
            decreases bytes@.len() - i,
        {
            copy.push(bytes[i]);
            i = i + 1;
            assert(copy@ =~= bytes@.subrange(0, i as int));
        }
        assert(copy@ =~= bytes@);
        ByteHolder { bytes: copy, layout, need_drop: true }
    }

    /// The held value read as a `T`; the buffer must be the encoding of one.
    pub fn downcast_ref<T: PlainData>(&self) -> (r: T)
        requires
            T::spec_decodable(self.bytes@),
        ensures
            r.spec_encode() == self.bytes@,
    {
        T::decode(self.bytes.as_slice())
    }

    /// Overwrites the held value, seen as a `T`, with `value`.
    pub fn downcast_mut<T: PlainData>(&mut self, value: &T)
        requires
            value.spec_encode().len() == old(self).bytes@.len(),
        ensures
            final(self).bytes@ == value.spec_encode(),
            final(self).layout == old(self).layout,
            final(self).need_drop == old(self).need_drop,
    {
        self.bytes = value.encode();
    }

    /// Hands the held value out as an owned `T`, consuming the holder.
    pub fn downcast_box<T: PlainData>(self) -> (r: Box<T>)
        requires
            T::spec_decodable(self.bytes@),
        ensures
            (*r).spec_encode() == self.bytes@,
    {
        Box::new(T::decode(self.bytes.as_slice()))
    }
}

impl Clone for ByteHolder {
    /// A deep copy: a new buffer with the same bytes and layout.
    fn clone(&self) -> (r: Self)
        ensures
            r.bytes@ == self.bytes@,
            r.layout == self.layout,
            r.need_drop,
    {
        let mut copy: Vec<u8> = Vec::with_capacity(self.bytes.len());
        let mut i: usize = 0;
        while i < self.bytes.len()
            invariant
                i <= self.bytes@.len(),
                copy@ == self.bytes@.subrange(0, i as int),
            decreases self.bytes@.len() - i,
        {
            copy.push(self.bytes[i]);
            i = i + 1;
            assert(copy@ =~= self.bytes@.subrange(0, i as int));
        }
        assert(copy@ =~= self.bytes@);
        ByteHolder { bytes: copy, layout: self.layout, need_drop: true }
    }
}

/// Storing a value in a holder and reading it back as the same type gives the
/// value back: its encoding can be read, and only the value itself has it.
pub proof fn lemma_round_trip<T: PlainData>(v: T)
    ensures
        T::spec_decodable(v.spec_encode()),
        forall|r: T| #[trigger] r.spec_encode() == v.spec_encode() ==> r == v,
{
    T::lemma_encode_decodable(&v);
    assert forall|r: T| #[trigger] r.spec_encode() == v.spec_encode() implies r == v by {
        T::lemma_encode_injective(&r, &v);
    };
}

/// All values of a type encode to the same length, so a holder of one value
/// can always be overwritten through its typed view with any other.
pub proof fn lemma_same_size<T: PlainData>(v: &T, w: &T)
    ensures
        w.spec_encode().len() == v.spec_encode().len(),
{
    T::lemma_encode_size(v);
    T::lemma_encode_size(w);
}

/// The alignments of the plain-data integer types are powers of two.
pub proof fn lemma_small_powers_of_two()
    ensures
        is_power_of_two(1),
        is_power_of_two(2),
        is_power_of_two(4),
        is_power_of_two(8),
{
    assert(is_power_of_two(1));
    assert(is_power_of_two(2));
    assert(is_power_of_two(4));
    assert(is_power_of_two(8));
}

} // verus!
