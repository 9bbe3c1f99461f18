//! The IDX tensor format: a big-endian header word, the dimension sizes and a
//! row-major payload of fixed-width elements.
use vstd::prelude::*;
use byteorder::{BigEndian, ByteOrder};
use crate::Error;

verus! {

/// One element of a decoded tensor. The two floating-point encodings are kept
/// as their IEEE-754 bit patterns.
#[derive(Debug, Clone, Copy, PartialEq, Eq, Structural)]
pub enum Num {
    Unsigned(u8),
    Signed(i8),
    Short(i16),
    Int(i32),
    Float(u32),
    Double(u64),
}

/// The unsigned value of the two bytes at `at`, most significant first.
pub open spec fn be16(b: Seq<u8>, at: int) -> int {
    b[at] * 0x100 + b[at + 1]
}

/// The unsigned value of the four bytes at `at`, most significant first.
pub open spec fn be32(b: Seq<u8>, at: int) -> int {
    b[at] * 0x100_0000 + b[at + 1] * 0x1_0000 + b[at + 2] * 0x100 + b[at + 3]
}

/// The unsigned value of the eight bytes at `at`, most significant first.
pub open spec fn be64(b: Seq<u8>, at: int) -> int {
    be32(b, at) * 0x1_0000_0000 + be32(b, at + 4)
}

/// Two's complement reading of `v`, an unsigned value below `modulus`.
pub open spec fn signed(v: int, modulus: int) -> int {
    if v >= modulus / 2 {
        v - modulus
    } else {
        v
    }
}

/// Relies on byteorder's `BigEndian::read_i16`: the two bytes at `at` as a
/// big-endian two's complement integer.
#[verifier::external_body]
fn read_i16_at(b: &[u8], at: usize) -> (r: i16)
    requires
        at + 2 <= b@.len(),
    ensures
        r as int == signed(be16(b@, at as int), 0x1_0000),
{
    BigEndian::read_i16(&b[at..])
}

/// Relies on byteorder's `BigEndian::read_i32`: the four bytes at `at` as a
/// big-endian two's complement integer.
#[verifier::external_body]
fn read_i32_at(b: &[u8], at: usize) -> (r: i32)
    requires
        at + 4 <= b@.len(),
    ensures
        r as int == signed(be32(b@, at as int), 0x1_0000_0000),
{
    BigEndian::read_i32(&b[at..])
}

/// Relies on byteorder's `BigEndian::read_u32`: the four bytes at `at` as a
/// big-endian unsigned integer.
#[verifier::external_body]
fn read_u32_at(b: &[u8], at: usize) -> (r: u32)
    requires
        at + 4 <= b@.len(),
    ensures
        r as int == be32(b@, at as int),
{
    BigEndian::read_u32(&b[at..])
}

/// Relies on byteorder's `BigEndian::read_u64`: the eight bytes at `at` as a
/// big-endian unsigned integer.
#[verifier::external_body]
fn read_u64_at(b: &[u8], at: usize) -> (r: u64)
    requires
        at + 8 <= b@.len(),
    ensures
        r as int == be64(b@, at as int),
{
    BigEndian::read_u64(&b[at..])
}


/// Whether `c` is one of the six supported element encodings.
pub open spec fn is_code(c: int) -> bool {
    c == 0x08 || c == 0x09 || c == 0x0B || c == 0x0C || c == 0x0D || c == 0x0E
}

/// The number of bytes that one element of encoding `c` takes.
pub open spec fn width(c: int) -> int {
    if c == 0x08 || c == 0x09 {
        1
    } else if c == 0x0B {
        2
    } else if c == 0x0E {
        8
    } else {
        4
    }
}

/// Whether `n` is of the variant that encoding `c` yields.
pub open spec fn is_kind(c: int, n: Num) -> bool {
    match n {
        Num::Unsigned(_) => c == 0x08,
        Num::Signed(_) => c == 0x09,
        Num::Short(_) => c == 0x0B,
        Num::Int(_) => c == 0x0C,
        Num::Float(_) => c == 0x0D,
        Num::Double(_) => c == 0x0E,
    }
}

/// The element of encoding `c` that starts at byte `at` of `b`.
pub open spec fn elem_at(c: int, b: Seq<u8>, at: int) -> Num {
    if c == 0x08 {
        Num::Unsigned(b[at])
    } else if c == 0x09 {
        Num::Signed(signed(b[at] as int, 0x100) as i8)
    } else if c == 0x0B {
        Num::Short(signed(be16(b, at), 0x1_0000) as i16)
    } else if c == 0x0C {
        Num::Int(signed(be32(b, at), 0x1_0000_0000) as i32)
    } else if c == 0x0D {
        Num::Float(be32(b, at) as u32)
    } else {
        Num::Double(be64(b, at) as u64)
    }
}

/// A sequence of sizes as integers.
pub open spec fn as_ints(s: Seq<usize>) -> Seq<int> {
    s.map_values(|v: usize| v as int)
}

/// The product of all values of `s`; 1 for no values.
pub open spec fn product(s: Seq<int>) -> int
    decreases s.len(),
{
    if s.len() == 0 {
        1
    } else {
        product(s.drop_last()) * s.last()
    }
}

/// The header word of a stream: its first four bytes, signed.
pub open spec fn magic_of(b: Seq<u8>) -> int {
    signed(be32(b, 0), 0x1_0000_0000)
}

/// The element encoding that a header word names.
pub open spec fn code_of(magic: int) -> int {
    magic / 0x100
}

/// The number of dimensions that a header word declares.
pub open spec fn dims_of(magic: int) -> int {
    magic % 0x100
}

/// Where the payload of a stream starts.
pub open spec fn header_len(b: Seq<u8>) -> int {
    4 + 4 * dims_of(magic_of(b))
}

/// The `i`-th declared dimension size of a stream.
pub open spec fn size_at(b: Seq<u8>, i: int) -> int {
    signed(be32(b, 4 + 4 * i), 0x1_0000_0000)
}

/// The declared dimension sizes of a stream, outermost first.
pub open spec fn sizes_of(b: Seq<u8>) -> Seq<int> {
    Seq::new(dims_of(magic_of(b)) as nat, |i: int| size_at(b, i))
}

/// The number of elements that a stream declares.
pub open spec fn total_of(b: Seq<u8>) -> int {
    product(sizes_of(b))
}

/// Why a stream does not decode, or `None` where it does.
pub open spec fn decode_error(b: Seq<u8>) -> Option<Error> {
    if b.len() < 4 {
        Some(Error::Truncated)
    } else if magic_of(b) < 0 || !is_code(code_of(magic_of(b))) {
        Some(Error::UnknownType)
    } else if b.len() < header_len(b) {
        Some(Error::Truncated)
    } else if exists|i: int| 0 <= i < dims_of(magic_of(b)) && size_at(b, i) < 0 {
        Some(Error::NegativeSize)
    } else if b.len() < header_len(b) + total_of(b) * width(code_of(magic_of(b))) {
        Some(Error::Truncated)
    } else {
        None
    }
}

/// The elements of a stream that decodes, in file order.
pub open spec fn payload_of(b: Seq<u8>) -> Seq<Num> {
    let c = code_of(magic_of(b));
    Seq::new(total_of(b) as nat, |i: int| elem_at(c, b, header_len(b) + i * width(c)))
}

/// A decoded tensor: the header word, the dimension sizes, the element count
/// and the elements in row-major order.
#[derive(Debug)]
pub struct IdxData {
    pub path: String,
    pub magic_number: i32,
    pub data: Vec<Num>,
    pub sizes: Vec<usize>,
    pub total_size: u128,
}

/// Whether `t` is what the stream `b` decodes to (its path aside).
pub open spec fn decodes_to(b: Seq<u8>, t: IdxData) -> bool {
    &&& decode_error(b) is None
    &&& t.magic_number as int == magic_of(b)
    &&& t.sizes@.len() == sizes_of(b).len()
    &&& forall|i: int| 0 <= i < t.sizes@.len() ==> t.sizes@[i] as int == #[trigger] sizes_of(b)[i]
    &&& t.total_size as int == total_of(b)
    &&& t.data@ == payload_of(b)
}

impl IdxData {
    /// The dimension sizes as integers.
    pub open spec fn size_seq(&self) -> Seq<int> {
        as_ints(self.sizes@)
    }

    /// The invariant of a decoded tensor: a supported encoding, one size per
    /// declared dimension, each representable in the header, and exactly
    /// `total_size` elements, all of the encoding's variant.
    pub open spec fn wf(&self) -> bool {
        &&& 0 <= self.magic_number
        &&& is_code(code_of(self.magic_number as int))
        &&& self.sizes@.len() == dims_of(self.magic_number as int)
        &&& forall|i: int| 0 <= i < self.sizes@.len() ==> #[trigger] self.sizes@[i] <= i32::MAX
        &&& self.total_size as int == product(self.size_seq())
        &&& self.data@.len() == self.total_size
        &&& forall|i: int| 0 <= i < self.data@.len() ==> is_kind(code_of(self.magic_number as int), #[trigger] self.data@[i])
    }
}


proof fn lemma_product_step(s: Seq<int>, k: int)
    requires
        0 <= k < s.len(),
    ensures
        product(s.take(k + 1)) == product(s.take(k)) * s[k],
{
    assert(s.take(k + 1).drop_last() =~= s.take(k));
}

proof fn lemma_product_zero(s: Seq<int>, z: int)
    requires
        0 <= z < s.len(),
        s[z] == 0,
    ensures
        product(s) == 0,
    decreases s.len(),
{
    if z < s.len() - 1 {
        lemma_product_zero(s.drop_last(), z);
    }
}

/// For sizes of at least one, no prefix has a larger product than the whole.
proof fn lemma_product_prefix(s: Seq<int>, k: int)
    requires
        0 <= k <= s.len(),
        forall|i: int| 0 <= i < s.len() ==> 1 <= #[trigger] s[i],
    ensures
        1 <= product(s.take(k)) <= product(s),
    decreases s.len(),
{
    if k == s.len() {
        assert(s.take(k) =~= s);
        lemma_product_positive(s);
    } else {
        let d = s.drop_last();
        lemma_product_prefix(d, k);
        assert(d.take(k) =~= s.take(k));
        let p = product(d);
        let l = s.last();
        assert(p <= p * l) by (nonlinear_arith)
            requires
                1 <= p,
                1 <= l,
        ;
    }
}

proof fn lemma_product_positive(s: Seq<int>)
    requires
        forall|i: int| 0 <= i < s.len() ==> 1 <= #[trigger] s[i],
    ensures
        1 <= product(s),
    decreases s.len(),
{
    if s.len() > 0 {
        lemma_product_positive(s.drop_last());
        let p = product(s.drop_last());
        let l = s.last();
        assert(1 <= p * l) by (nonlinear_arith)
            requires
                1 <= p,
                1 <= l,
        ;
    }
}

/// The product of `sizes` where it is at most `cap`; `None` where it exceeds it.
fn bounded_product(sizes: &Vec<usize>, cap: usize) -> (r: Option<u128>)
    requires
        forall|i: int| 0 <= i < sizes@.len() ==> #[trigger] sizes@[i] <= i32::MAX,
    ensures
        match r {
            Some(p) => p as int == product(as_ints(sizes@)) && p <= cap,
            None => product(as_ints(sizes@)) > cap,
        },
{
    let ghost s = as_ints(sizes@);
    let mut i: usize = 0;
    while i < sizes.len()
        invariant
            i <= sizes@.len(),
            s == as_ints(sizes@),
            forall|j: int| 0 <= j < i ==> 1 <= #[trigger] s[j],
        decreases sizes@.len() - i,
    {
        if sizes[i] == 0 {
            proof {
                lemma_product_zero(s, i as int);
            }
            return Some(0);
        }
        i += 1;
    }
    if cap == 0 {
        proof {
            lemma_product_positive(s);
        }
        return None;
    }
    assert(s.take(0) =~= Seq::<int>::empty());
    let mut total: u128 = 1;
    i = 0;
    while i < sizes.len()
        invariant
            i <= sizes@.len(),
            s == as_ints(sizes@),
            forall|j: int| 0 <= j < s.len() ==> 1 <= #[trigger] s[j],
            forall|j: int| 0 <= j < sizes@.len() ==> #[trigger] sizes@[j] <= i32::MAX,
            total as int == product(s.take(i as int)),
            total <= cap,
        decreases sizes@.len() - i,
    {
        let f = sizes[i];
        proof {
            lemma_product_step(s, i as int);
            let t = total as int;
            let fi = f as int;
            assert(t * fi <= (cap as int) * 0x8000_0000) by (nonlinear_arith)
                requires
                    0 <= t <= cap,
                    0 <= fi <= 0x8000_0000,
            ;
        }
        total = total * (f as u128);
        if total > cap as u128 {
            proof {
                lemma_product_prefix(s, i + 1);
            }
            return None;
        }
        i += 1;
    }
    assert(s.take(sizes@.len() as int) =~= s);
    Some(total)
}

/// The element of encoding `c` that starts at byte `at` of `b`.
fn read_elem(c: u8, b: &[u8], at: usize) -> (r: Num)
    requires
        is_code(c as int),
        at + width(c as int) <= b@.len(),
    ensures
        r == elem_at(c as int, b@, at as int),
{
    if c == 0x08 {
        Num::Unsigned(b[at])
    } else if c == 0x09 {
        let v = b[at];
        if v >= 0x80 {
            Num::Signed((v as i16 - 0x100) as i8)
        } else {
            Num::Signed(v as i8)
        }
    } else if c == 0x0B {
        Num::Short(read_i16_at(b, at))
    } else if c == 0x0C {
        Num::Int(read_i32_at(b, at))
    } else if c == 0x0D {
        Num::Float(read_u32_at(b, at))
    } else {
        Num::Double(read_u64_at(b, at))
    }
}

impl IdxData {
    /// Decodes the IDX stream `bytes`, read from `path`. Bytes after the
    /// declared payload are ignored.
    #[verifier::rlimit(40)]
    pub fn new(path: String, bytes: &[u8]) -> (r: Result<IdxData, Error>)
        ensures
            r is Ok <==> decode_error(bytes@) is None,
            r matches Err(e) ==> decode_error(bytes@) == Some(e),
            r matches Ok(t) ==> decodes_to(bytes@, t) && t.path == path && t.wf(),
    {
        let ghost b = bytes@;
        if bytes.len() < 4 {
            return Err(Error::Truncated);
        }
        let magic = read_i32_at(bytes, 0);
        if magic < 0 {
            return Err(Error::UnknownType);
        }
        let t = magic / 0x100;
        if !(t == 0x08 || t == 0x09 || t == 0x0B || t == 0x0C || t == 0x0D || t == 0x0E) {
            return Err(Error::UnknownType);
        }
        assert(is_code(code_of(magic_of(b))));
        let c = t as u8;
        let dims = (magic % 0x100) as usize;
        if bytes.len() - 4 < 4 * dims {
            return Err(Error::Truncated);
        }
        let hdr = 4 + 4 * dims;
        let mut sizes: Vec<usize> = Vec::new();
        let mut i: usize = 0;
        while i < dims
            invariant
                b == bytes@,
                b.len() >= 4,
                0 <= magic_of(b),
                is_code(code_of(magic_of(b))),
                magic as int == magic_of(b),
                dims as int == dims_of(magic_of(b)),
                hdr as int == header_len(b),
                hdr <= b.len(),
                i <= dims,
                sizes@.len() == i,
                forall|j: int| 0 <= j < i ==> #[trigger] sizes@[j] as int == size_at(b, j),
                forall|j: int| 0 <= j < i ==> 0 <= #[trigger] size_at(b, j) <= i32::MAX,
            decreases dims - i,
        {
            let s = read_i32_at(bytes, 4 + 4 * i);
            if s < 0 {
                assert(0 <= i < dims_of(magic_of(b)) && size_at(b, i as int) < 0);
                return Err(Error::NegativeSize);
            }
            sizes.push(s as usize);
            i += 1;
        }
        assert(as_ints(sizes@) =~= sizes_of(b));
        assert(!exists|j: int| 0 <= j < dims_of(magic_of(b)) && size_at(b, j) < 0);
        let w: usize = if c == 0x08 || c == 0x09 {
            1
        } else if c == 0x0B {
            2
        } else if c == 0x0E {
            8
        } else {
            4
        };
        let blen = bytes.len();
        let avail = blen - hdr;
        let total = match bounded_product(&sizes, avail) {
            Some(p) => p,
            None => {
                proof {
                    let p = total_of(b);
                    assert(p <= p * w) by (nonlinear_arith)
                        requires
                            0 <= p,
                            1 <= w,
                    ;
                }
                return Err(Error::Truncated);
            },
        };
        if total * (w as u128) > avail as u128 {
            return Err(Error::Truncated);
        }
        let n = total as usize;
        let mut data: Vec<Num> = Vec::new();
        let mut k: usize = 0;
        while k < n
            invariant
                b == bytes@,
                is_code(c as int),
                c as int == code_of(magic_of(b)),
                w as int == width(c as int),
                hdr as int == header_len(b),
                hdr + avail == b.len(),
                b.len() == blen,
                n * w <= avail,
                k <= n,
                data@.len() == k,
                forall|j: int| 0 <= j < k ==> #[trigger] data@[j] == elem_at(c as int, b, hdr + j * w),
            decreases n - k,
        {
            proof {
                assert((k + 1) * w <= n * w) by (nonlinear_arith)
                    requires
                        k + 1 <= n,
                        0 <= w,
                ;
                assert((k + 1) * w == k * w + w) by (nonlinear_arith);
            }
            let e = read_elem(c, bytes, hdr + k * w);
            data.push(e);
            k += 1;
        }
        assert(data@ =~= payload_of(b));
        Ok(IdxData { path, magic_number: magic, data, sizes, total_size: total })
    }
}


/// The two bytes of `v`, most significant first.
pub open spec fn bytes2(v: int) -> Seq<u8> {
    seq![(v / 0x100 % 0x100) as u8, (v % 0x100) as u8]
}

/// The four bytes of `v`, most significant first.
pub open spec fn bytes4(v: int) -> Seq<u8> {
    seq![
        (v / 0x100_0000 % 0x100) as u8,
        (v / 0x1_0000 % 0x100) as u8,
        (v / 0x100 % 0x100) as u8,
        (v % 0x100) as u8,
    ]
}

/// The eight bytes of `v`, most significant first.
pub open spec fn bytes8(v: int) -> Seq<u8> {
    bytes4(v / 0x1_0000_0000) + bytes4(v % 0x1_0000_0000)
}

/// The unsigned value below `modulus` whose two's complement reading is `v`.
pub open spec fn unsigned(v: int, modulus: int) -> int {
    if v < 0 {
        v + modulus
    } else {
        v
    }
}

/// The big-endian encoding of one element.
pub open spec fn num_bytes(n: Num) -> Seq<u8> {
    match n {
        Num::Unsigned(u) => seq![u],
        Num::Signed(v) => seq![unsigned(v as int, 0x100) as u8],
        Num::Short(v) => bytes2(unsigned(v as int, 0x1_0000)),
        Num::Int(v) => bytes4(unsigned(v as int, 0x1_0000_0000)),
        Num::Float(v) => bytes4(v as int),
        Num::Double(v) => bytes8(v as int),
    }
}

/// The byte runs of `s` one after the other.
pub open spec fn join(s: Seq<Seq<u8>>) -> Seq<u8>
    decreases s.len(),
{
    if s.len() == 0 {
        Seq::empty()
    } else {
        join(s.drop_last()) + s.last()
    }
}

/// The IDX stream of a tensor: its header word, its sizes, then its elements.
pub open spec fn encoding_of(t: IdxData) -> Seq<u8> {
    bytes4(t.magic_number as int) + join(t.sizes@.map_values(|v: usize| bytes4(v as int)))
        + join(t.data@.map_values(|n: Num| num_bytes(n)))
}

proof fn lemma_bytes2(v: u16)
    ensures
        be16(bytes2(v as int), 0) == v,
{
    assert(v == (v / 0x100 % 0x100) * 0x100 + v % 0x100) by (bit_vector);
}

proof fn lemma_bytes4(v: u32)
    ensures
        be32(bytes4(v as int), 0) == v,
{
    assert(v == (v / 0x100_0000 % 0x100) * 0x100_0000 + (v / 0x1_0000 % 0x100) * 0x1_0000 + (v
        / 0x100 % 0x100) * 0x100 + v % 0x100) by (bit_vector);
}

proof fn lemma_bytes8(v: u64)
    ensures
        be64(bytes8(v as int), 0) == v,
{
    let hi = v / 0x1_0000_0000;
    let lo = v % 0x1_0000_0000;
    vstd::arithmetic::div_mod::lemma_fundamental_div_mod(v as int, 0x1_0000_0000);
    assert(hi < 0x1_0000_0000 && lo < 0x1_0000_0000);
    lemma_bytes4(hi as u32);
    lemma_bytes4(lo as u32);
    let b = bytes8(v as int);
    assert(be32(b, 0) == be32(bytes4(hi as int), 0));
    assert(be32(b, 4) == be32(bytes4(lo as int), 0));
}

/// An element reads back from the bytes that encode it.
proof fn lemma_elem_round_trip(c: int, b: Seq<u8>, at: int, n: Num)
    requires
        is_kind(c, n),
        0 <= at,
        at + width(c) <= b.len(),
        forall|j: int| 0 <= j < width(c) ==> b[at + j] == #[trigger] num_bytes(n)[j],
    ensures
        elem_at(c, b, at) == n,
{
    let nb = num_bytes(n);
    assert(nb.len() == width(c));
    assert(b[at] == nb[0]);
    match n {
        Num::Unsigned(u) => {},
        Num::Signed(v) => {},
        Num::Short(v) => {
            assert(b[at + 1] == nb[1]);
            lemma_bytes2(unsigned(v as int, 0x1_0000) as u16);
        },
        Num::Int(v) => {
            assert(b[at + 1] == nb[1] && b[at + 2] == nb[2] && b[at + 3] == nb[3]);
            lemma_bytes4(unsigned(v as int, 0x1_0000_0000) as u32);
        },
        Num::Float(v) => {
            assert(b[at + 1] == nb[1] && b[at + 2] == nb[2] && b[at + 3] == nb[3]);
            lemma_bytes4(v);
        },
        Num::Double(v) => {
            assert(b[at + 1] == nb[1] && b[at + 2] == nb[2] && b[at + 3] == nb[3]);
            assert(b[at + 4] == nb[4] && b[at + 5] == nb[5] && b[at + 6] == nb[6] && b[at + 7]
                == nb[7]);
            lemma_bytes8(v);
            assert(be64(b, at) == be64(nb, 0));
        },
    }
}

/// Runs of one length `w` laid end to end: the `j`-th byte of the `i`-th run
/// stands at `i * w + j`.
#[verifier::rlimit(40)]
proof fn lemma_join_uniform(s: Seq<Seq<u8>>, w: int)
    requires
        w >= 1,
        forall|i: int| 0 <= i < s.len() ==> (#[trigger] s[i]).len() == w,
    ensures
        join(s).len() == s.len() * w,
        forall|i: int, j: int|
            0 <= i < s.len() && 0 <= j < w ==> join(s)[i * w + j] == #[trigger] s[i][j],
    decreases s.len(),
{
    if s.len() > 0 {
        let d = s.drop_last();
        let n = s.len() as int;
        lemma_join_uniform(d, w);
        assert(join(s) == join(d) + s.last());
        assert((n - 1) * w + w == n * w) by (nonlinear_arith);
        assert forall|i: int, j: int| 0 <= i < s.len() && 0 <= j < w implies join(s)[i * w + j]
            == #[trigger] s[i][j] by {
            if i < n - 1 {
                assert(i * w + j < (n - 1) * w) by (nonlinear_arith)
                    requires
                        0 <= i < n - 1,
                        0 <= j < w,
                ;
                assert(d[i] == s[i]);
            } else {
                assert(i * w == (n - 1) * w);
            }
        }
    }
}

/// Appends the two bytes of `v`, most significant first.
fn push_u16(out: &mut Vec<u8>, v: u16)
    ensures
        final(out)@ == old(out)@ + bytes2(v as int),
{
    out.push((v / 0x100 % 0x100) as u8);
    out.push((v % 0x100) as u8);
    assert(final(out)@ =~= old(out)@ + bytes2(v as int));
}

/// Appends the four bytes of `v`, most significant first.
fn push_u32(out: &mut Vec<u8>, v: u32)
    ensures
        final(out)@ == old(out)@ + bytes4(v as int),
{
    out.push((v / 0x100_0000 % 0x100) as u8);
    out.push((v / 0x1_0000 % 0x100) as u8);
    out.push((v / 0x100 % 0x100) as u8);
    out.push((v % 0x100) as u8);
    assert(final(out)@ =~= old(out)@ + bytes4(v as int));
}

/// Appends the big-endian encoding of `n`.
fn push_num(out: &mut Vec<u8>, n: Num)
    ensures
        final(out)@ == old(out)@ + num_bytes(n),
{
    match n {
        Num::Unsigned(u) => {
            out.push(u);
            assert(final(out)@ =~= old(out)@ + num_bytes(n));
        },
        Num::Signed(v) => {
            let u: u8 = if v < 0 {
                (v as i16 + 0x100) as u8
            } else {
                v as u8
            };
            out.push(u);
            assert(final(out)@ =~= old(out)@ + num_bytes(n));
        },
        Num::Short(v) => {
            let u: u16 = if v < 0 {
                (v as i32 + 0x1_0000) as u16
            } else {
                v as u16
            };
            push_u16(out, u);
        },
        Num::Int(v) => {
            let u: u32 = if v < 0 {
                (v as i64 + 0x1_0000_0000) as u32
            } else {
                v as u32
            };
            push_u32(out, u);
        },
        Num::Float(v) => {
            push_u32(out, v);
        },
        Num::Double(v) => {
            push_u32(out, (v / 0x1_0000_0000) as u32);
            push_u32(out, (v % 0x1_0000_0000) as u32);
            assert(final(out)@ =~= old(out)@ + num_bytes(n));
        },
    }
}

proof fn lemma_join_push(s: Seq<Seq<u8>>, k: int)
    requires
        0 <= k < s.len(),
    ensures
        join(s.take(k + 1)) == join(s.take(k)) + s[k],
{
    assert(s.take(k + 1).drop_last() =~= s.take(k));
}

impl IdxData {
    /// The IDX stream of a well-formed tensor: the inverse of `new`.
    #[verifier::rlimit(40)]
    pub fn encode(&self) -> (r: Vec<u8>)
        requires
            self.wf(),
        ensures
            r@ == encoding_of(*self),
    {
        let mut out: Vec<u8> = Vec::new();
        push_u32(&mut out, self.magic_number as u32);
        let ghost head = bytes4(self.magic_number as int);
        let ghost ss = self.sizes@.map_values(|v: usize| bytes4(v as int));
        let ghost es = self.data@.map_values(|n: Num| num_bytes(n));
        assert(ss.take(0) =~= Seq::<Seq<u8>>::empty());
        assert(out@ =~= head + join(ss.take(0)));
        let mut i: usize = 0;
        while i < self.sizes.len()
            invariant
                self.wf(),
                ss == self.sizes@.map_values(|v: usize| bytes4(v as int)),
                i <= self.sizes@.len(),
                out@ == head + join(ss.take(i as int)),
            decreases self.sizes@.len() - i,
        {
            assert(self.sizes@[i as int] <= i32::MAX);
            push_u32(&mut out, self.sizes[i] as u32);
            proof {
                lemma_join_push(ss, i as int);
            }
            i += 1;
            assert(out@ =~= head + join(ss.take(i as int)));
        }
        assert(ss.take(i as int) =~= ss);
        let ghost mid = out@;
        assert(es.take(0) =~= Seq::<Seq<u8>>::empty());
        assert(out@ =~= mid + join(es.take(0)));
        let mut k: usize = 0;
        while k < self.data.len()
            invariant
                es == self.data@.map_values(|n: Num| num_bytes(n)),
                k <= self.data@.len(),
                out@ == mid + join(es.take(k as int)),
            decreases self.data@.len() - k,
        {
            push_num(&mut out, self.data[k]);
            proof {
                lemma_join_push(es, k as int);
            }
            k += 1;
            assert(out@ =~= mid + join(es.take(k as int)));
        }
        assert(es.take(k as int) =~= es);
        out
    }
}

/// Where the pieces of an encoding stand, and what its header reads as.
#[verifier::rlimit(40)]
proof fn lemma_encoding_header(t: IdxData)
    requires
        t.wf(),
    ensures
        magic_of(encoding_of(t)) == t.magic_number,
        header_len(encoding_of(t)) == 4 + 4 * t.sizes@.len(),
        sizes_of(encoding_of(t)) =~= t.size_seq(),
        forall|i: int|
            0 <= i < t.sizes@.len() ==> #[trigger] size_at(encoding_of(t), i) == t.sizes@[i] as int,
        encoding_of(t).len() == 4 + 4 * t.sizes@.len() + t.total_size * width(
            code_of(t.magic_number as int),
        ),
{
    let b = encoding_of(t);
    let m = t.magic_number as int;
    let c = code_of(m);
    let w = width(c);
    let ss = t.sizes@.map_values(|v: usize| bytes4(v as int));
    let es = t.data@.map_values(|n: Num| num_bytes(n));
    lemma_bytes4(t.magic_number as u32);
    assert(be32(b, 0) == be32(bytes4(m), 0));
    lemma_join_uniform(ss, 4);
    assert forall|i: int| 0 <= i < t.data@.len() implies (#[trigger] es[i]).len() == w by {
        assert(is_kind(c, t.data@[i]));
    }
    lemma_join_uniform(es, w);
    assert forall|i: int| 0 <= i < t.sizes@.len() implies #[trigger] size_at(b, i) == t.sizes@[i] as int by {
        lemma_encoding_size(t, i);
    }
}

/// The `i`-th size of an encoding reads back as the tensor's `i`-th size.
#[verifier::rlimit(40)]
proof fn lemma_encoding_size(t: IdxData, i: int)
    requires
        t.wf(),
        0 <= i < t.sizes@.len(),
    ensures
        size_at(encoding_of(t), i) == t.sizes@[i] as int,
{
    let b = encoding_of(t);
    let ss = t.sizes@.map_values(|v: usize| bytes4(v as int));
    let sb = join(ss);
    lemma_join_uniform(ss, 4);
    let v = t.sizes@[i];
    assert(t.sizes@[i] <= i32::MAX);
    lemma_bytes4(v as u32);
    assert forall|j: int| 0 <= j < 4 implies b[4 + 4 * i + j] == #[trigger] ss[i][j] by {
        assert(sb[i * 4 + j] == ss[i][j]);
        assert(4 + i * 4 + j == 4 + 4 * i + j);
    }
    assert(ss[i] == bytes4(v as int));
    assert(b[4 + 4 * i] == ss[i][0] && b[4 + 4 * i + 1] == ss[i][1]);
    assert(b[4 + 4 * i + 2] == ss[i][2] && b[4 + 4 * i + 3] == ss[i][3]);
    assert(be32(b, 4 + 4 * i) == be32(bytes4(v as int), 0));
}

/// The elements of an encoding read back as the tensor's elements.
#[verifier::rlimit(40)]
proof fn lemma_encoding_payload(t: IdxData, i: int)
    requires
        t.wf(),
        0 <= i < t.data@.len(),
    ensures
        elem_at(
            code_of(t.magic_number as int),
            encoding_of(t),
            4 + 4 * t.sizes@.len() + i * width(code_of(t.magic_number as int)),
        ) == t.data@[i],
{
    let b = encoding_of(t);
    let c = code_of(t.magic_number as int);
    let w = width(c);
    let ss = t.sizes@.map_values(|v: usize| bytes4(v as int));
    let es = t.data@.map_values(|n: Num| num_bytes(n));
    let eb = join(es);
    let hdr = 4 + 4 * t.sizes@.len();
    lemma_join_uniform(ss, 4);
    assert forall|k: int| 0 <= k < t.data@.len() implies (#[trigger] es[k]).len() == w by {
        assert(is_kind(c, t.data@[k]));
    }
    lemma_join_uniform(es, w);
    let n = t.data@[i];
    assert(is_kind(c, n));
    assert(i * w + w <= t.data@.len() * w) by (nonlinear_arith)
        requires
            0 <= i < t.data@.len(),
            w >= 1,
    ;
    assert forall|j: int| 0 <= j < w implies b[hdr + i * w + j] == #[trigger] num_bytes(n)[j] by {
        assert(eb[i * w + j] == es[i][j]);
    }
    lemma_elem_round_trip(c, b, hdr + i * w, n);
}

/// Decoding the encoding of a well-formed tensor gives back its header word,
/// sizes, element count and elements.
pub proof fn lemma_decode_encode(t: IdxData)
    requires
        t.wf(),
    ensures
        decodes_to(encoding_of(t), t),
{
    let b = encoding_of(t);
    lemma_encoding_header(t);
    assert(total_of(b) == t.total_size);
    assert forall|i: int| 0 <= i < dims_of(magic_of(b)) implies #[trigger] size_at(b, i) >= 0 by {
        assert(t.sizes@[i] >= 0);
    }
    assert forall|i: int| 0 <= i < t.data@.len() implies #[trigger] payload_of(b)[i] == t.data@[i] by {
        lemma_encoding_payload(t, i);
    }
    assert(payload_of(b) =~= t.data@);
}

/// A header word that names no supported encoding makes decoding fail with
/// `UnknownType`.
pub proof fn lemma_unknown_type(b: Seq<u8>)
    requires
        b.len() >= 4,
        !is_code(code_of(magic_of(b))),
    ensures
        decode_error(b) == Some(Error::UnknownType),
{
}

/// A stream whose header declares more payload than follows it fails with
/// `Truncated`, and a tensor that decodes holds exactly the product of its
/// sizes in elements.
pub proof fn lemma_payload_length(b: Seq<u8>, t: IdxData)
    ensures
        b.len() >= 4 && magic_of(b) >= 0 && is_code(code_of(magic_of(b))) && b.len() >= header_len(
            b,
        ) && (forall|i: int| 0 <= i < dims_of(magic_of(b)) ==> size_at(b, i) >= 0) && b.len()
            < header_len(b) + total_of(b) * width(code_of(magic_of(b))) ==> decode_error(b) == Some(
            Error::Truncated,
        ),
        decodes_to(b, t) ==> t.total_size == product(t.size_seq()) && t.data@.len()
            == t.total_size,
{
    if decodes_to(b, t) {
        assert(t.size_seq() =~= sizes_of(b));
    }
}

} // verus!
