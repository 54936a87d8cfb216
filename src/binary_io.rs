use vstd::prelude::*;
use vstd::utf8::{decode_utf8, encode_utf8, encode_utf8_decode_utf8, encode_utf8_valid_utf8, valid_utf8};

verus! {

/// `256` raised to the power `n`.
pub open spec fn pow256(n: nat) -> nat
    decreases n,
{
    if n == 0 {
        1
    } else {
        256 * pow256((n - 1) as nat)
    }
}

/// The low `n` bytes of `v`, most significant first.
pub open spec fn be_bytes(v: nat, n: nat) -> Seq<u8>
    decreases n,
{
    if n == 0 {
        seq![]
    } else {
        be_bytes(v / 256, (n - 1) as nat).push((v % 256) as u8)
    }
}

/// The number whose big-endian bytes are `s`.
pub open spec fn be_value(s: Seq<u8>) -> nat
    decreases s.len(),
{
    if s.len() == 0 {
        0
    } else {
        be_value(s.drop_last()) * 256 + s.last() as nat
    }
}

pub proof fn lemma_pow256_8()
    ensures
        pow256(8) == 0x1_0000_0000_0000_0000,
        pow256(4) == 0x1_0000_0000,
        pow256(2) == 0x1_0000,
        pow256(1) == 256,
{
    reveal_with_fuel(pow256, 9);
}

pub proof fn lemma_pow256_mono(a: nat, b: nat)
    requires
        a <= b,
    ensures
        pow256(a) <= pow256(b),
    decreases b,
{
    if a < b {
        lemma_pow256_mono(a, (b - 1) as nat);
    }
}

pub proof fn lemma_be_bytes_len(v: nat, n: nat)
    ensures
        be_bytes(v, n).len() == n,
    decreases n,
{
    if n > 0 {
        lemma_be_bytes_len(v / 256, (n - 1) as nat);
    }
}

pub proof fn lemma_be_value_bound(s: Seq<u8>)
    ensures
        be_value(s) < pow256(s.len()),
    decreases s.len(),
{
    if s.len() > 0 {
        lemma_be_value_bound(s.drop_last());
        let p = pow256((s.len() - 1) as nat);
        let a = be_value(s.drop_last());
        let b = s.last() as nat;
        assert(a * 256 + b < 256 * p) by (nonlinear_arith)
            requires
                a < p,
                b < 256,
        ;
    }
}

/// Reading back `n` big-endian bytes gives the value they were written from.
pub proof fn lemma_be_round_trip(v: nat, n: nat)
    requires
        v < pow256(n),
    ensures
        be_bytes(v, n).len() == n,
        be_value(be_bytes(v, n)) == v,
    decreases n,
{
    lemma_be_bytes_len(v, n);
    if n > 0 {
        let p = pow256((n - 1) as nat);
        assert(v / 256 < p) by (nonlinear_arith)
            requires
                v < 256 * p,
        ;
        lemma_be_round_trip(v / 256, (n - 1) as nat);
        assert(be_bytes(v, n).drop_last() =~= be_bytes(v / 256, (n - 1) as nat));
    }
}

/// A cursor over bytes still to be decoded; bytes are consumed from the front.
#[derive(Clone)]
pub struct InputStream {
    pub bytes: Vec<u8>,
}

impl InputStream {
    pub fn new(bytes: Vec<u8>) -> (r: Self)
        ensures
            r.bytes@ == bytes@,
    {
        InputStream { bytes }
    }

    /// Removes and returns the first byte, or `None` when nothing is left.
    pub fn read_byte(&mut self) -> (r: Option<u8>)
        ensures
            old(self).bytes@.len() == 0 ==> r is None && final(self).bytes@ == old(self).bytes@,
            old(self).bytes@.len() > 0 ==> r == Some(old(self).bytes@[0])
                && final(self).bytes@ == old(self).bytes@.skip(1),
    {
        if self.bytes.len() == 0 {
            None
        } else {
            Some(self.bytes.remove(0))
        }
    }

    /// Decodes one value of type `T` from the front of the stream.
    pub fn read<T: IOAble>(&mut self) -> (r: Option<T>)
        ensures
            match T::decode(old(self).bytes@) {
                Some((m, n)) => r matches Some(v) && v.model() == m && n <= old(self).bytes@.len()
                    && final(self).bytes@ == old(self).bytes@.skip(n as int),
                None => r is None,
            },
    {
        T::read_from(self)
    }

    /// Consumes `n` bytes and returns their big-endian value; fails, consuming
    /// nothing, when fewer than `n` bytes are left.
    pub fn read_be(&mut self, n: usize) -> (r: Option<u64>)
        requires
            n <= 8,
        ensures
            old(self).bytes@.len() < n ==> r is None && final(self).bytes@ == old(self).bytes@,
            old(self).bytes@.len() >= n ==> r == Some(be_value(old(self).bytes@.take(n as int)) as u64)
                && final(self).bytes@ == old(self).bytes@.skip(n as int),
            r matches Some(v) ==> v < pow256(n as nat),
    {
        if self.bytes.len() < n {
            return None;
        }
        let ghost start = self.bytes@;
        let mut acc: u64 = 0;
        let mut i: usize = 0;
        proof {
            lemma_pow256_8();
            assert(start.take(0) =~= seq![]);
        }
        while i < n
            invariant
                i <= n <= 8,
                n <= start.len(),
                self.bytes@ == start.skip(i as int),
                acc == be_value(start.take(i as int)),
                acc < pow256(i as nat),
                pow256(8) == 0x1_0000_0000_0000_0000,
            decreases n - i,
        {
            let b = self.bytes.remove(0);
            proof {
                let p = pow256(i as nat);
                lemma_pow256_mono((i + 1) as nat, 8);
                assert(acc * 256 + b < 256 * p) by (nonlinear_arith)
                    requires
                        acc < p,
                        b < 256,
                ;
                assert(start.take(i + 1).drop_last() =~= start.take(i as int));
                assert(start.skip(i as int).skip(1) =~= start.skip(i + 1));
            }
            acc = acc * 256 + b as u64;
            i = i + 1;
        }
        proof {
            lemma_be_value_bound(start.take(n as int));
        }
        Some(acc)
    }
}

/// Bytes produced by encoding, growing at the back.
pub struct OutputStream {
    pub bytes: Vec<u8>,
}

impl OutputStream {
    pub fn new() -> (r: Self)
        ensures
            r.bytes@ == Seq::<u8>::empty(),
    {
        OutputStream { bytes: Vec::new() }
    }

    pub fn write_byte(&mut self, byte: u8)
        ensures
            final(self).bytes@ == old(self).bytes@.push(byte),
    {
        self.bytes.push(byte);
    }

    /// Appends the encoding of `stuff`.
    pub fn write<T: IOAble>(&mut self, stuff: T)
        ensures
            final(self).bytes@ == old(self).bytes@ + T::encode(stuff.model()),
    {
        stuff.write_to(self);
    }

    /// Appends the low `n` bytes of `v`, most significant first.
    pub fn write_be(&mut self, v: u64, n: usize)
        ensures
            final(self).bytes@ == old(self).bytes@ + be_bytes(v as nat, n as nat),
        decreases n,
    {
        if n > 0 {
            self.write_be(v / 256, n - 1);
            self.write_byte((v % 256) as u8);
            assert(be_bytes(v as nat, n as nat) == be_bytes((v / 256) as nat, (n - 1) as nat).push(
                (v % 256) as u8,
            ));
        } else {
            assert(old(self).bytes@ + be_bytes(v as nat, 0) =~= old(self).bytes@);
        }
    }
}

/// A type with a binary encoding. Each type states its encoding over a model
/// of its values, and what decoding yields on any byte sequence.
pub trait IOAble: Sized {
    type Model;

    spec fn model(&self) -> Self::Model;

    /// The bytes that encode a value with model `m`.
    spec fn encode(m: Self::Model) -> Seq<u8>;

    /// What decoding the front of `b` yields: the model of the value and the
    /// number of bytes taken, or `None` when `b` does not start with an encoding.
    spec fn decode(b: Seq<u8>) -> Option<(Self::Model, nat)>;

    fn read_from(stream: &mut InputStream) -> (r: Option<Self>)
        ensures
            match Self::decode(old(stream).bytes@) {
                Some((m, n)) => r matches Some(v) && v.model() == m && n <= old(stream).bytes@.len()
                    && final(stream).bytes@ == old(stream).bytes@.skip(n as int),
                None => r is None,
            },
    ;

    fn write_to(&self, stream: &mut OutputStream)
        ensures
            final(stream).bytes@ == old(stream).bytes@ + Self::encode(self.model()),
    ;
}

/// The `n`-byte two's-complement bits of `m`, read as an unsigned number.
pub open spec fn twos_bits(m: int, n: nat) -> nat {
    if m < 0 {
        (m + pow256(n)) as nat
    } else {
        m as nat
    }
}

/// The signed number whose `n`-byte two's-complement bits, read unsigned, are `v`.
pub open spec fn twos_value(v: nat, n: nat) -> int {
    if 2 * v < pow256(n) {
        v as int
    } else {
        v - pow256(n)
    }
}

/// Decoding of a fixed-width big-endian field of `n` bytes.
pub open spec fn decode_be(b: Seq<u8>, n: nat) -> Option<(nat, nat)> {
    if b.len() >= n {
        Some((be_value(b.take(n as int)), n))
    } else {
        None
    }
}

impl IOAble for u8 {
    type Model = u8;

    open spec fn model(&self) -> u8 {
        *self
    }

    open spec fn encode(m: u8) -> Seq<u8> {
        seq![m]
    }

    open spec fn decode(b: Seq<u8>) -> Option<(u8, nat)> {
        if b.len() >= 1 {
            Some((b[0], 1))
        } else {
            None
        }
    }

    fn read_from(stream: &mut InputStream) -> (r: Option<u8>) {
        stream.read_byte()
    }

    fn write_to(&self, stream: &mut OutputStream) {
        stream.write_byte(*self);
    }
}

impl IOAble for i8 {
    type Model = i8;

    open spec fn model(&self) -> i8 {
        *self
    }

    open spec fn encode(m: i8) -> Seq<u8> {
        seq![twos_bits(m as int, 1) as u8]
    }

    open spec fn decode(b: Seq<u8>) -> Option<(i8, nat)> {
        if b.len() >= 1 {
            Some((twos_value(b[0] as nat, 1) as i8, 1))
        } else {
            None
        }
    }

    fn read_from(stream: &mut InputStream) -> (r: Option<i8>) {
        match stream.read_byte() {
            Some(b) => {
                proof {
                    lemma_pow256_8();
                }
                if b < 128 {
                    Some(b as i8)
                } else {
                    Some((b - 128) as i8 + i8::MIN)
                }
            },
            None => None,
        }
    }

    fn write_to(&self, stream: &mut OutputStream) {
        proof {
            lemma_pow256_8();
        }
        if *self >= 0 {
            stream.write_byte(*self as u8);
        } else {
            stream.write_byte((*self as i16 + 256) as u8);
        }
    }
}

impl IOAble for bool {
    type Model = bool;

    open spec fn model(&self) -> bool {
        *self
    }

    open spec fn encode(m: bool) -> Seq<u8> {
        seq![if m { 1u8 } else { 0u8 }]
    }

    /// Any nonzero byte reads as `true`.
    open spec fn decode(b: Seq<u8>) -> Option<(bool, nat)> {
        if b.len() >= 1 {
            Some((b[0] != 0, 1))
        } else {
            None
        }
    }

    fn read_from(stream: &mut InputStream) -> (r: Option<bool>) {
        match stream.read_byte() {
            Some(b) => Some(b != 0),
            None => None,
        }
    }

    fn write_to(&self, stream: &mut OutputStream) {
        stream.write_byte(if *self { 1 } else { 0 });
    }
}

impl IOAble for u16 {
    type Model = u16;

    open spec fn model(&self) -> u16 {
        *self
    }

    open spec fn encode(m: u16) -> Seq<u8> {
        be_bytes(m as nat, 2)
    }

    open spec fn decode(b: Seq<u8>) -> Option<(u16, nat)> {
        match decode_be(b, 2) {
            Some((v, n)) => Some((v as u16, n)),
            None => None,
        }
    }

    fn read_from(stream: &mut InputStream) -> (r: Option<u16>) {
        proof {
            lemma_pow256_8();
            if stream.bytes@.len() >= 2 {
                lemma_be_value_bound(stream.bytes@.take(2));
            }
        }
        match stream.read_be(2) {
            Some(v) => Some(v as u16),
            None => None,
        }
    }

    fn write_to(&self, stream: &mut OutputStream) {
        stream.write_be(*self as u64, 2);
    }
}

impl IOAble for i16 {
    type Model = i16;

    open spec fn model(&self) -> i16 {
        *self
    }

    open spec fn encode(m: i16) -> Seq<u8> {
        be_bytes(twos_bits(m as int, 2), 2)
    }

    open spec fn decode(b: Seq<u8>) -> Option<(i16, nat)> {
        match decode_be(b, 2) {
            Some((v, n)) => Some((twos_value(v, 2) as i16, n)),
            None => None,
        }
    }

    fn read_from(stream: &mut InputStream) -> (r: Option<i16>) {
        proof {
            lemma_pow256_8();
            if stream.bytes@.len() >= 2 {
                lemma_be_value_bound(stream.bytes@.take(2));
            }
        }
        match stream.read_be(2) {
            Some(v) => if v < 0x8000 {
                Some(v as i16)
            } else {
                Some((v - 0x8000) as i16 + i16::MIN)
            },
            None => None,
        }
    }

    fn write_to(&self, stream: &mut OutputStream) {
        proof {
            lemma_pow256_8();
        }
        if *self >= 0 {
            stream.write_be(*self as u64, 2);
        } else {
            stream.write_be((*self as i32 + 0x1_0000) as u64, 2);
        }
    }
}

impl IOAble for u32 {
    type Model = u32;

    open spec fn model(&self) -> u32 {
        *self
    }

    open spec fn encode(m: u32) -> Seq<u8> {
        be_bytes(m as nat, 4)
    }

    open spec fn decode(b: Seq<u8>) -> Option<(u32, nat)> {
        match decode_be(b, 4) {
            Some((v, n)) => Some((v as u32, n)),
            None => None,
        }
    }

    fn read_from(stream: &mut InputStream) -> (r: Option<u32>) {
        proof {
            lemma_pow256_8();
            if stream.bytes@.len() >= 4 {
                lemma_be_value_bound(stream.bytes@.take(4));
            }
        }
        match stream.read_be(4) {
            Some(v) => Some(v as u32),
            None => None,
        }
    }

    fn write_to(&self, stream: &mut OutputStream) {
        stream.write_be(*self as u64, 4);
    }
}

impl IOAble for i32 {
    type Model = i32;

    open spec fn model(&self) -> i32 {
        *self
    }

    open spec fn encode(m: i32) -> Seq<u8> {
        be_bytes(twos_bits(m as int, 4), 4)
    }

    open spec fn decode(b: Seq<u8>) -> Option<(i32, nat)> {
        match decode_be(b, 4) {
            Some((v, n)) => Some((twos_value(v, 4) as i32, n)),
            None => None,
        }
    }

    fn read_from(stream: &mut InputStream) -> (r: Option<i32>) {
        proof {
            lemma_pow256_8();
            if stream.bytes@.len() >= 4 {
                lemma_be_value_bound(stream.bytes@.take(4));
            }
        }
        match stream.read_be(4) {
            Some(v) => if v < 0x8000_0000 {
                Some(v as i32)
            } else {
                Some((v - 0x8000_0000) as i32 + i32::MIN)
            },
            None => None,
        }
    }

    fn write_to(&self, stream: &mut OutputStream) {
        proof {
            lemma_pow256_8();
        }
        if *self >= 0 {
            stream.write_be(*self as u64, 4);
        } else {
            stream.write_be((*self as i64 + 0x1_0000_0000) as u64, 4);
        }
    }
}

impl IOAble for u64 {
    type Model = u64;

    open spec fn model(&self) -> u64 {
        *self
    }

    open spec fn encode(m: u64) -> Seq<u8> {
        be_bytes(m as nat, 8)
    }

    open spec fn decode(b: Seq<u8>) -> Option<(u64, nat)> {
        match decode_be(b, 8) {
            Some((v, n)) => Some((v as u64, n)),
            None => None,
        }
    }

    fn read_from(stream: &mut InputStream) -> (r: Option<u64>) {
        proof {
            lemma_pow256_8();
            if stream.bytes@.len() >= 8 {
                lemma_be_value_bound(stream.bytes@.take(8));
            }
        }
        match stream.read_be(8) {
            Some(v) => Some(v as u64),
            None => None,
        }
    }

    fn write_to(&self, stream: &mut OutputStream) {
        stream.write_be(*self as u64, 8);
    }
}

impl IOAble for i64 {
    type Model = i64;

    open spec fn model(&self) -> i64 {
        *self
    }

    open spec fn encode(m: i64) -> Seq<u8> {
        be_bytes(twos_bits(m as int, 8), 8)
    }

    open spec fn decode(b: Seq<u8>) -> Option<(i64, nat)> {
        match decode_be(b, 8) {
            Some((v, n)) => Some((twos_value(v, 8) as i64, n)),
            None => None,
        }
    }

    fn read_from(stream: &mut InputStream) -> (r: Option<i64>) {
        proof {
            lemma_pow256_8();
            if stream.bytes@.len() >= 8 {
                lemma_be_value_bound(stream.bytes@.take(8));
            }
        }
        match stream.read_be(8) {
            Some(v) => if v < 0x8000_0000_0000_0000 {
                Some(v as i64)
            } else {
                Some((v - 0x8000_0000_0000_0000) as i64 + i64::MIN)
            },
            None => None,
        }
    }

    fn write_to(&self, stream: &mut OutputStream) {
        proof {
            lemma_pow256_8();
        }
        if *self >= 0 {
            stream.write_be(*self as u64, 8);
        } else {
            stream.write_be((*self - i64::MIN) as u64 + 0x8000_0000_0000_0000, 8);
        }
    }
}

/// Relies on `String::from_utf8`: it succeeds exactly when the bytes are valid
/// UTF-8, and the string then holds the characters that the bytes encode.
#[verifier::external_body]
fn string_from_utf8(bytes: Vec<u8>) -> (r: Option<String>)
    ensures
        r is Some <==> valid_utf8(bytes@),
        r matches Some(s) ==> s@ == decode_utf8(bytes@),
{
    String::from_utf8(bytes).ok()
}

/// A string is its UTF-8 byte length as four big-endian bytes, then those bytes.
pub open spec fn string_encode(m: Seq<char>) -> Seq<u8> {
    be_bytes(encode_utf8(m).len(), 4) + encode_utf8(m)
}

pub open spec fn string_decode(b: Seq<u8>) -> Option<(Seq<char>, nat)> {
    match decode_be(b, 4) {
        Some((len, k)) => if b.len() >= 4 + len && valid_utf8(b.subrange(4, 4 + len as int)) {
            Some((decode_utf8(b.subrange(4, 4 + len as int)), 4 + len))
        } else {
            None
        },
        None => None,
    }
}

/// Appends the encoding of the characters of `s`.
fn write_str(s: &str, stream: &mut OutputStream)
    ensures
        final(stream).bytes@ == old(stream).bytes@ + string_encode(s@),
{
    let bytes = s.as_bytes();
    stream.write_be(bytes.len() as u64, 4);
    let ghost head = stream.bytes@;
    let mut i: usize = 0;
    while i < bytes.len()
        invariant
            i <= bytes@.len(),
            bytes@ == encode_utf8(s@),
            stream.bytes@ == head + bytes@.take(i as int),
        decreases bytes@.len() - i,
    {
        stream.write_byte(bytes[i]);
        assert(bytes@.take(i + 1) =~= bytes@.take(i as int).push(bytes@[i as int]));
        i = i + 1;
    }
    assert(bytes@.take(i as int) =~= bytes@);
    assert(stream.bytes@ =~= old(stream).bytes@ + string_encode(s@));
}

impl IOAble for String {
    type Model = Seq<char>;

    open spec fn model(&self) -> Seq<char> {
        self@
    }

    open spec fn encode(m: Seq<char>) -> Seq<u8> {
        string_encode(m)
    }

    /// Fails when the bytes are too few or are not valid UTF-8.
    open spec fn decode(b: Seq<u8>) -> Option<(Seq<char>, nat)> {
        string_decode(b)
    }

    fn read_from(stream: &mut InputStream) -> (r: Option<String>) {
        proof {
            lemma_pow256_8();
        }
        let ghost start = stream.bytes@;
        let len = match stream.read_be(4) {
            Some(len) => len,
            None => return None,
        };
        proof {
            if start.len() >= 4 {
                lemma_be_value_bound(start.take(4));
            }
        }
        if (stream.bytes.len() as u64) < len {
            return None;
        }
        let ghost mid = stream.bytes@;
        let mut bytes: Vec<u8> = Vec::new();
        let mut i: u64 = 0;
        while i < len
            invariant
                i <= len <= mid.len(),
                stream.bytes@ == mid.skip(i as int),
                bytes@ == mid.take(i as int),
            decreases len - i,
        {
            match stream.read_byte() {
                Some(b) => bytes.push(b),
                None => return None,
            }
            assert(mid.take(i + 1) =~= mid.take(i as int).push(mid[i as int]));
            assert(mid.skip(i as int).skip(1) =~= mid.skip(i + 1));
            i = i + 1;
        }
        assert(bytes@ =~= start.subrange(4, 4 + len));
        assert(stream.bytes@ =~= start.skip(4 + len));
        string_from_utf8(bytes)
    }

    fn write_to(&self, stream: &mut OutputStream) {
        write_str(self.as_str(), stream);
    }
}

/// A borrowed string is written as a `String` is; it cannot be produced from a
/// stream, so reading one always fails.
impl<'a> IOAble for &'a str {
    type Model = Seq<char>;

    open spec fn model(&self) -> Seq<char> {
        self@
    }

    open spec fn encode(m: Seq<char>) -> Seq<u8> {
        string_encode(m)
    }

    open spec fn decode(b: Seq<u8>) -> Option<(Seq<char>, nat)> {
        None
    }

    fn read_from(stream: &mut InputStream) -> (r: Option<&'a str>) {
        None
    }

    fn write_to(&self, stream: &mut OutputStream) {
        write_str(*self, stream);
    }
}

/// A reference is written as the value it points to; it cannot be produced
/// from a stream, so reading one always fails.
impl<'a, T: IOAble> IOAble for &'a T {
    type Model = T::Model;

    open spec fn model(&self) -> T::Model {
        (**self).model()
    }

    open spec fn encode(m: T::Model) -> Seq<u8> {
        T::encode(m)
    }

    open spec fn decode(b: Seq<u8>) -> Option<(T::Model, nat)> {
        None
    }

    fn read_from(stream: &mut InputStream) -> (r: Option<&'a T>) {
        None
    }

    fn write_to(&self, stream: &mut OutputStream) {
        (**self).write_to(stream);
    }
}

impl<T: IOAble> IOAble for Option<T> {
    type Model = Option<T::Model>;

    open spec fn model(&self) -> Option<T::Model> {
        match self {
            Some(v) => Some(v.model()),
            None => None,
        }
    }

    /// A flag byte, then the payload only when there is one.
    open spec fn encode(m: Option<T::Model>) -> Seq<u8> {
        match m {
            Some(v) => seq![1u8] + T::encode(v),
            None => seq![0u8],
        }
    }

    open spec fn decode(b: Seq<u8>) -> Option<(Option<T::Model>, nat)> {
        if b.len() == 0 {
            None
        } else if b[0] == 0 {
            Some((None, 1))
        } else {
            match T::decode(b.skip(1)) {
                Some((v, n)) => Some((Some(v), n + 1)),
                None => None,
            }
        }
    }

    fn read_from(stream: &mut InputStream) -> (r: Option<Option<T>>) {
        let ghost start = stream.bytes@;
        match stream.read::<bool>() {
            None => None,
            Some(false) => Some(None),
            Some(true) => match T::read_from(stream) {
                Some(v) => {
                    assert(stream.bytes@ =~= start.skip((T::decode(start.skip(1))->0).1 + 1int));
                    Some(Some(v))
                },
                None => None,
            },
        }
    }

    fn write_to(&self, stream: &mut OutputStream) {
        match self {
            Some(item) => {
                stream.write(true);
                item.write_to(stream);
                assert(stream.bytes@ =~= old(stream).bytes@ + Self::encode(self.model()));
            },
            None => {
                stream.write(false);
            },
        }
    }
}

/// The encodings of `ms`, one after another.
pub open spec fn encode_items<T: IOAble>(ms: Seq<T::Model>) -> Seq<u8>
    decreases ms.len(),
{
    if ms.len() == 0 {
        seq![]
    } else {
        encode_items::<T>(ms.drop_last()) + T::encode(ms.last())
    }
}

/// Decoding `count` values of type `T` one after another from the front of `b`.
pub open spec fn decode_items<T: IOAble>(b: Seq<u8>, count: nat) -> Option<(Seq<T::Model>, nat)>
    decreases count,
{
    if count == 0 {
        Some((seq![], 0))
    } else {
        match T::decode(b) {
            Some((m, n)) => if n <= b.len() {
                match decode_items::<T>(b.skip(n as int), (count - 1) as nat) {
                    Some((ms, k)) => Some((seq![m] + ms, n + k)),
                    None => None,
                }
            } else {
                None
            },
            None => None,
        }
    }
}

pub open spec fn models<T: IOAble>(s: Seq<T>) -> Seq<T::Model> {
    s.map_values(|v: T| v.model())
}

impl<T: IOAble> IOAble for Vec<T> {
    type Model = Seq<T::Model>;

    open spec fn model(&self) -> Seq<T::Model> {
        models(self@)
    }

    /// The element count as four bytes (read back as a signed count), then
    /// each element.
    open spec fn encode(ms: Seq<T::Model>) -> Seq<u8> {
        be_bytes(ms.len(), 4) + encode_items::<T>(ms)
    }

    /// Fails on a negative count or when an element fails.
    open spec fn decode(b: Seq<u8>) -> Option<(Seq<T::Model>, nat)> {
        match <i32 as IOAble>::decode(b) {
            Some((len, k)) => if len < 0 {
                None
            } else {
                match decode_items::<T>(b.skip(k as int), len as nat) {
                    Some((ms, n)) => Some((ms, k + n)),
                    None => None,
                }
            },
            None => None,
        }
    }

    fn read_from(stream: &mut InputStream) -> (r: Option<Vec<T>>) {
        let ghost start = stream.bytes@;
        let length: i32 = match stream.read::<i32>() {
            Some(l) => l,
            None => return None,
        };
        if length < 0 {
            return None;
        }
        let mut array: Vec<T> = Vec::new();
        let mut i: i32 = 0;
        let ghost mut consumed: int = 0;
        assert(models(array@) + seq![] =~= models(array@));
        while i < length
            invariant
                0 <= i <= length,
                start == old(stream).bytes@,
                <i32 as IOAble>::decode(start) == Some((length, 4nat)),
                0 <= consumed,
                4 + consumed <= start.len(),
                stream.bytes@ == start.skip(4 + consumed),
                decode_items::<T>(start.skip(4), length as nat) == match decode_items::<T>(
                    stream.bytes@,
                    (length - i) as nat,
                ) {
                    Some((ms, n)) => Some((models(array@) + ms, (consumed + n) as nat)),
                    None => None,
                },
            decreases length - i,
        {
            let ghost cur = stream.bytes@;
            let ghost before = models(array@);
            match T::read_from(stream) {
                Some(v) => {
                    array.push(v);
                    proof {
                        let n = (T::decode(cur)->0).1;
                        assert(models(array@) =~= before.push(v.model()));
                        assert(cur.skip(n as int) =~= start.skip(4 + consumed + n));
                        match decode_items::<T>(cur.skip(n as int), (length - i - 1) as nat) {
                            Some((ms, k)) => {
                                assert(before + (seq![v.model()] + ms) =~= models(array@) + ms);
                            },
                            None => {},
                        }
                        consumed = consumed + n;
                    }
                },
                None => {
                    assert(decode_items::<T>(cur, (length - i) as nat) is None);
                    return None;
                },
            }
            i = i + 1;
        }
        assert(models(array@) + seq![] =~= models(array@));
        assert(stream.bytes@ =~= start.skip(4 + consumed));
        Some(array)
    }

    fn write_to(&self, stream: &mut OutputStream) {
        stream.write_be(self.len() as u64, 4);
        let ghost head = stream.bytes@;
        let mut i: usize = 0;
        assert(models(self@.take(0)) =~= seq![]);
        while i < self.len()
            invariant
                i <= self@.len(),
                stream.bytes@ == head + encode_items::<T>(models(self@.take(i as int))),
            decreases self@.len() - i,
        {
            self[i].write_to(stream);
            assert(models(self@.take(i + 1)).drop_last() =~= models(self@.take(i as int)));
            i = i + 1;
        }
        assert(self@.take(i as int) =~= self@);
        assert(stream.bytes@ =~= old(stream).bytes@ + Self::encode(self.model()));
    }
}

/// A big-endian field of `n` bytes reads back as its value, whatever follows it.
pub proof fn lemma_be_field(v: nat, n: nat, rest: Seq<u8>)
    requires
        v < pow256(n),
    ensures
        decode_be(be_bytes(v, n) + rest, n) == Some((v, n)),
        (be_bytes(v, n) + rest).skip(n as int) == rest,
{
    lemma_be_round_trip(v, n);
    assert((be_bytes(v, n) + rest).take(n as int) =~= be_bytes(v, n));
    assert((be_bytes(v, n) + rest).skip(n as int) =~= rest);
}

/// The string's UTF-8 length fits its four-byte prefix.
pub open spec fn string_fits(m: Seq<char>) -> bool {
    encode_utf8(m).len() < 0x1_0000_0000
}

/// An encoded string decodes to itself, taking exactly its own bytes.
pub proof fn lemma_string_round_trip(m: Seq<char>, rest: Seq<u8>)
    requires
        string_fits(m),
    ensures
        string_decode(string_encode(m) + rest) == Some((m, string_encode(m).len())),
        string_encode(m).len() == 4 + encode_utf8(m).len(),
{
    let e = encode_utf8(m);
    let len = e.len();
    lemma_pow256_8();
    lemma_be_bytes_len(len, 4);
    let b = string_encode(m) + rest;
    assert(b =~= be_bytes(len, 4) + (e + rest));
    lemma_be_field(len, 4, e + rest);
    assert(b.subrange(4, 4 + len as int) =~= e);
    encode_utf8_valid_utf8(m);
    encode_utf8_decode_utf8(m);
}

/// Every proper prefix of an encoded string fails to decode.
pub proof fn lemma_string_truncated(m: Seq<char>, k: nat)
    requires
        string_fits(m),
        k < string_encode(m).len(),
    ensures
        string_decode(string_encode(m).take(k as int)) is None,
{
    let e = encode_utf8(m);
    let len = e.len();
    lemma_pow256_8();
    lemma_be_round_trip(len, 4);
    let b = string_encode(m).take(k as int);
    if k >= 4 {
        assert(b.take(4) =~= be_bytes(len, 4));
    }
}

} // verus!
