//! Byte-level parsing: the `Parse` trait, the outcome of a parse as a
//! mathematical value, and the little-endian readers and repetition
//! combinators that the file structures are built from.
use vstd::prelude::*;
use vstd::slice::slice_subrange;

verus! {

/// nom's code for the reader that gave up; its variants are read as nom declares them.
#[verifier::external_type_specification]
pub struct ExErrorKind(nom::error::ErrorKind);

/// Why a parser rejected its input.
#[derive(Debug, Clone, Copy, PartialEq, Eq)]
pub enum ParseError {
    /// The input does not hold what the format asks for: too few bytes, or a
    /// value that the format does not allow.
    Invalid,
    /// A reader stopped with the error code `code` at the point of the input
    /// from which `remaining` bytes were left to its end.
    Stopped { code: nom::error::ErrorKind, remaining: usize },
}

/// What a parser makes of a byte sequence.
///
/// `Value(n, v)`: it reads `v` from the first `n` bytes.
/// `Error(e)`: it rejects the input with the error `e`.
/// `Undefined`: the input lies outside the parser's domain; the parser's
/// `requires` excludes such inputs.
pub enum Parsed<V> {
    Value(nat, V),
    Error(ParseError),
    Undefined,
}

impl<V> Parsed<V> {
    pub open spec fn is_defined(self) -> bool {
        !(self is Undefined)
    }
}

/// `r` is the executable result that corresponds to the outcome `p` on `input`:
/// on success the rest of the input follows the `n` consumed bytes and the value
/// read has the model that `p` gives; on failure `p` is that very error.
pub open spec fn parses_as<'a, T: DeepView>(
    p: Parsed<T::V>,
    input: Seq<u8>,
    r: Result<(&'a [u8], T), ParseError>,
) -> bool {
    match r {
        Ok((rest, v)) => p matches Parsed::Value(n, w) && n <= input.len() && rest@ == input.skip(
            n as int,
        ) && v.deep_view() == w,
        Err(e) => p == Parsed::<T::V>::Error(e),
    }
}

/// Types that can be read from a byte slice, little-endian.
pub trait Parse<'a>: Sized + DeepView {
    /// The outcome of parsing `input`.
    spec fn spec_parse(input: Seq<u8>) -> Parsed<<Self as DeepView>::V>;

    fn parse(input: &'a [u8]) -> (r: Result<(&'a [u8], Self), ParseError>)
        requires
            Self::spec_parse(input@).is_defined(),
        ensures
            parses_as(Self::spec_parse(input@), input@, r),
    ;
}

/// Parsers that are defined on every input.
pub trait ParseTotal<'a>: Parse<'a> {
    proof fn lemma_parse_defined(input: Seq<u8>)
        ensures
            Self::spec_parse(input).is_defined(),
    ;
}

// ---------------------------------------------------------------------------
// Little-endian integers
// ---------------------------------------------------------------------------
pub open spec fn u16_le(s: Seq<u8>) -> u16 {
    (s[0] + s[1] * 256) as u16
}

pub open spec fn u32_le(s: Seq<u8>) -> u32 {
    (s[0] + s[1] * 0x100 + s[2] * 0x1_0000 + s[3] * 0x100_0000) as u32
}

/// The two's complement reading of a 16-bit pattern.
pub open spec fn i16_of(u: u16) -> i16 {
    if u < 0x8000 {
        u as i16
    } else {
        (u - 0x1_0000) as i16
    }
}

/// The two's complement reading of a 32-bit pattern.
pub open spec fn i32_of(u: u32) -> i32 {
    if u < 0x8000_0000 {
        u as i32
    } else {
        (u - 0x1_0000_0000) as i32
    }
}

/// A value of `width` bytes; an input shorter than that is rejected.
pub open spec fn fixed<V>(input: Seq<u8>, width: nat, v: V) -> Parsed<V> {
    if input.len() >= width {
        Parsed::Value(width, v)
    } else {
        Parsed::Error(ParseError::Invalid)
    }
}

pub open spec fn spec_le_u8(input: Seq<u8>) -> Parsed<u8> {
    fixed(input, 1, if input.len() >= 1 { input[0] } else { 0 })
}

pub open spec fn spec_le_u16(input: Seq<u8>) -> Parsed<u16> {
    fixed(input, 2, u16_le(input))
}

pub open spec fn spec_le_u32(input: Seq<u8>) -> Parsed<u32> {
    fixed(input, 4, u32_le(input))
}

pub open spec fn spec_le_i16(input: Seq<u8>) -> Parsed<i16> {
    fixed(input, 2, i16_of(u16_le(input)))
}

pub open spec fn spec_le_i32(input: Seq<u8>) -> Parsed<i32> {
    fixed(input, 4, i32_of(u32_le(input)))
}

pub fn le_u8<'a>(input: &'a [u8]) -> (r: Result<(&'a [u8], u8), ParseError>)
    ensures
        parses_as(spec_le_u8(input@), input@, r),
{
    if input.len() < 1 {
        return Err(ParseError::Invalid);
    }
    Ok((slice_subrange(input, 1, input.len()), input[0]))
}

pub fn le_u16<'a>(input: &'a [u8]) -> (r: Result<(&'a [u8], u16), ParseError>)
    ensures
        parses_as(spec_le_u16(input@), input@, r),
{
    if input.len() < 2 {
        return Err(ParseError::Invalid);
    }
    let v: u16 = input[0] as u16 + (input[1] as u16) * 256;
    Ok((slice_subrange(input, 2, input.len()), v))
}

pub fn le_u32<'a>(input: &'a [u8]) -> (r: Result<(&'a [u8], u32), ParseError>)
    ensures
        parses_as(spec_le_u32(input@), input@, r),
{
    if input.len() < 4 {
        return Err(ParseError::Invalid);
    }
    let v: u32 = input[0] as u32 + (input[1] as u32) * 0x100 + (input[2] as u32) * 0x1_0000 + (
    input[3] as u32) * 0x100_0000;
    Ok((slice_subrange(input, 4, input.len()), v))
}

/// The two's complement reading of a 16-bit pattern.
pub fn i16_from_bits(u: u16) -> (r: i16)
    ensures
        r == i16_of(u),
{
    if u < 0x8000 {
        u as i16
    } else {
        (u as i32 - 0x1_0000) as i16
    }
}

/// The two's complement reading of a 32-bit pattern.
pub fn i32_from_bits(u: u32) -> (r: i32)
    ensures
        r == i32_of(u),
{
    if u < 0x8000_0000 {
        u as i32
    } else {
        (u as i64 - 0x1_0000_0000) as i32
    }
}

pub fn le_i16<'a>(input: &'a [u8]) -> (r: Result<(&'a [u8], i16), ParseError>)
    ensures
        parses_as(spec_le_i16(input@), input@, r),
{
    let (rest, u) = le_u16(input)?;
    Ok((rest, i16_from_bits(u)))
}

pub fn le_i32<'a>(input: &'a [u8]) -> (r: Result<(&'a [u8], i32), ParseError>)
    ensures
        parses_as(spec_le_i32(input@), input@, r),
{
    let (rest, u) = le_u32(input)?;
    Ok((rest, i32_from_bits(u)))
}

/// Splits off the first `count` bytes: `(rest, taken)`.
pub fn take<'a>(input: &'a [u8], count: usize) -> (r: Result<(&'a [u8], &'a [u8]), ParseError>)
    ensures
        match r {
            Ok((rest, taken)) => count <= input@.len() && taken@ == input@.take(count as int)
                && rest@ == input@.skip(count as int),
            Err(e) => count > input@.len() && e == ParseError::Invalid,
        },
{
    if count > input.len() {
        return Err(ParseError::Invalid);
    }
    Ok((slice_subrange(input, count, input.len()), slice_subrange(input, 0, count)))
}

impl<'a> Parse<'a> for u8 {
    open spec fn spec_parse(input: Seq<u8>) -> Parsed<u8> {
        spec_le_u8(input)
    }

    fn parse(input: &'a [u8]) -> (r: Result<(&'a [u8], u8), ParseError>) {
        le_u8(input)
    }
}

impl<'a> ParseTotal<'a> for u8 {
    proof fn lemma_parse_defined(input: Seq<u8>) {
    }
}

impl<'a> Parse<'a> for u16 {
    open spec fn spec_parse(input: Seq<u8>) -> Parsed<u16> {
        spec_le_u16(input)
    }

    fn parse(input: &'a [u8]) -> (r: Result<(&'a [u8], u16), ParseError>) {
        le_u16(input)
    }
}

impl<'a> ParseTotal<'a> for u16 {
    proof fn lemma_parse_defined(input: Seq<u8>) {
    }
}

impl<'a> Parse<'a> for u32 {
    open spec fn spec_parse(input: Seq<u8>) -> Parsed<u32> {
        spec_le_u32(input)
    }

    fn parse(input: &'a [u8]) -> (r: Result<(&'a [u8], u32), ParseError>) {
        le_u32(input)
    }
}

impl<'a> ParseTotal<'a> for u32 {
    proof fn lemma_parse_defined(input: Seq<u8>) {
    }
}

impl<'a> Parse<'a> for i16 {
    open spec fn spec_parse(input: Seq<u8>) -> Parsed<i16> {
        spec_le_i16(input)
    }

    fn parse(input: &'a [u8]) -> (r: Result<(&'a [u8], i16), ParseError>) {
        le_i16(input)
    }
}

impl<'a> ParseTotal<'a> for i16 {
    proof fn lemma_parse_defined(input: Seq<u8>) {
    }
}

impl<'a> Parse<'a> for i32 {
    open spec fn spec_parse(input: Seq<u8>) -> Parsed<i32> {
        spec_le_i32(input)
    }

    fn parse(input: &'a [u8]) -> (r: Result<(&'a [u8], i32), ParseError>) {
        le_i32(input)
    }
}

impl<'a> ParseTotal<'a> for i32 {
    proof fn lemma_parse_defined(input: Seq<u8>) {
    }
}

// ---------------------------------------------------------------------------
// Repetition
// ---------------------------------------------------------------------------
/// Puts `items`, read from `consumed` bytes, in front of the outcome of the rest.
pub open spec fn prepend<V>(items: Seq<V>, consumed: nat, rest: Parsed<Seq<V>>) -> Parsed<Seq<V>> {
    match rest {
        Parsed::Value(m, vs) => Parsed::Value(consumed + m, items + vs),
        Parsed::Error(e) => Parsed::Error(e),
        Parsed::Undefined => Parsed::Undefined,
    }
}

/// Zero or more `T`, as many as parse one after the other. The repetition
/// stops at the first rejection, which it does not consume; an item that
/// consumes no bytes is an error with the code `Many0` at that item, since it
/// would repeat forever.
pub open spec fn spec_many0<'a, T: Parse<'a>>(input: Seq<u8>) -> Parsed<Seq<T::V>>
    decreases input.len(),
{
    match T::spec_parse(input) {
        Parsed::Undefined => Parsed::Undefined,
        Parsed::Error(_) => Parsed::Value(0, Seq::empty()),
        Parsed::Value(n, v) => if 0 < n <= input.len() {
            prepend(seq![v], n, spec_many0::<T>(input.skip(n as int)))
        } else {
            Parsed::Error(
                ParseError::Stopped {
                    code: nom::error::ErrorKind::Many0,
                    remaining: input.len() as usize,
                },
            )
        },
    }
}

/// Exactly `count` items of `T`, one after the other.
pub open spec fn spec_count<'a, T: Parse<'a>>(input: Seq<u8>, count: nat) -> Parsed<Seq<T::V>>
    decreases count,
{
    if count == 0 {
        Parsed::Value(0, Seq::empty())
    } else {
        match T::spec_parse(input) {
            Parsed::Undefined => Parsed::Undefined,
            Parsed::Error(e) => Parsed::Error(e),
            Parsed::Value(n, v) => if n <= input.len() {
                prepend(seq![v], n, spec_count::<T>(input.skip(n as int), (count - 1) as nat))
            } else {
                Parsed::Error(ParseError::Invalid)
            },
        }
    }
}

proof fn lemma_prepend_assoc<V>(a: Seq<V>, n: nat, b: Seq<V>, m: nat, p: Parsed<Seq<V>>)
    ensures
        prepend(a, n, prepend(b, m, p)) == prepend(a + b, n + m, p),
{
    if let Parsed::Value(k, vs) = p {
        assert(a + (b + vs) =~= (a + b) + vs);
    }
}

proof fn lemma_vec_push_deep_view<T: DeepView>(old_v: Seq<T>, x: T, new_v: Seq<T>)
    requires
        new_v == old_v.push(x),
    ensures
        Seq::new(new_v.len(), |i: int| new_v[i].deep_view()) =~= Seq::new(
            old_v.len(),
            |i: int| old_v[i].deep_view(),
        ) + seq![x.deep_view()],
{
}

/// Zero or more `T` (see `spec_many0`).
pub fn many0<'a, T: Parse<'a>>(input: &'a [u8]) -> (r: Result<(&'a [u8], Vec<T>), ParseError>)
    requires
        spec_many0::<T>(input@).is_defined(),
    ensures
        parses_as(spec_many0::<T>(input@), input@, r),
{
    let mut acc: Vec<T> = Vec::new();
    let mut cur = input;
    let ghost mut pos: nat = 0;
    assert(input@.skip(0) =~= input@);
    assert(acc.deep_view() =~= Seq::<T::V>::empty());
    assert(spec_many0::<T>(input@) == prepend(acc.deep_view(), pos, spec_many0::<T>(cur@))) by {
        if let Parsed::Value(m, vs) = spec_many0::<T>(input@) {
            assert(Seq::<T::V>::empty() + vs =~= vs);
        }
    }
    loop
        invariant
            pos <= input@.len(),
            cur@ == input@.skip(pos as int),
            spec_many0::<T>(input@) == prepend(acc.deep_view(), pos, spec_many0::<T>(cur@)),
            spec_many0::<T>(input@).is_defined(),
        decreases cur@.len(),
    {
        let ghost step = T::spec_parse(cur@);
        match T::parse(cur) {
            Err(_) => {
                assert(acc.deep_view() + Seq::<T::V>::empty() =~= acc.deep_view());
                assert(input@.skip(pos as int) == input@.skip((pos + 0) as int));
                return Ok((cur, acc));
            },
            Ok((rest, v)) => {
                let ghost n: nat = match step {
                    Parsed::Value(n, _) => n,
                    _ => 0,
                };
                if rest.len() == cur.len() {
                    return Err(
                        ParseError::Stopped {
                            code: nom::error::ErrorKind::Many0,
                            remaining: cur.len(),
                        },
                    );
                }
                let ghost old_acc = acc@;
                let ghost old_dv = acc.deep_view();
                let ghost vdv = v.deep_view();
                proof {
                    lemma_prepend_assoc(old_dv, pos, seq![vdv], n, spec_many0::<T>(cur@.skip(n as int)));
                }
                acc.push(v);
                proof {
                    lemma_vec_push_deep_view(old_acc, v, acc@);
                    assert(input@.skip(pos as int).skip(n as int) =~= input@.skip((pos + n) as int));
                }
                cur = rest;
                proof {
                    pos = pos + n;
                }
            },
        }
    }
}

/// Exactly `count` items of `T` (see `spec_count`).
pub fn count<'a, T: Parse<'a>>(input: &'a [u8], n: usize) -> (r: Result<(&'a [u8], Vec<T>), ParseError>)
    requires
        spec_count::<T>(input@, n as nat).is_defined(),
    ensures
        parses_as(spec_count::<T>(input@, n as nat), input@, r),
{
    let mut acc: Vec<T> = Vec::new();
    let mut cur = input;
    let mut k: usize = 0;
    let ghost mut pos: nat = 0;
    assert(input@.skip(0) =~= input@);
    assert(acc.deep_view() =~= Seq::<T::V>::empty());
    assert(spec_count::<T>(input@, n as nat) == prepend(acc.deep_view(), pos, spec_count::<T>(cur@, n as nat))) by {
        if let Parsed::Value(m, vs) = spec_count::<T>(input@, n as nat) {
            assert(Seq::<T::V>::empty() + vs =~= vs);
        }
    }
    while k < n
        invariant
            k <= n,
            pos <= input@.len(),
            cur@ == input@.skip(pos as int),
            spec_count::<T>(input@, n as nat) == prepend(
                acc.deep_view(),
                pos,
                spec_count::<T>(cur@, (n - k) as nat),
            ),
            spec_count::<T>(input@, n as nat).is_defined(),
        decreases n - k,
    {
        let ghost step = T::spec_parse(cur@);
        assert(spec_count::<T>(cur@, (n - k) as nat) == match step {
            Parsed::Undefined => Parsed::Undefined,
            Parsed::Error(e) => Parsed::Error(e),
            Parsed::Value(m, v) => if m <= cur@.len() {
                prepend(seq![v], m, spec_count::<T>(cur@.skip(m as int), (n - k - 1) as nat))
            } else {
                Parsed::Error(ParseError::Invalid)
            },
        });
        let (rest, v) = T::parse(cur)?;
        let ghost used: nat = match step {
            Parsed::Value(m, _) => m,
            _ => 0,
        };
        let ghost old_acc = acc@;
        let ghost old_dv = acc.deep_view();
        let ghost vdv = v.deep_view();
        proof {
            lemma_prepend_assoc(
                old_dv,
                pos,
                seq![vdv],
                used,
                spec_count::<T>(cur@.skip(used as int), (n - k - 1) as nat),
            );
        }
        acc.push(v);
        proof {
            lemma_vec_push_deep_view(old_acc, v, acc@);
            assert(input@.skip(pos as int).skip(used as int) =~= input@.skip((pos + used) as int));
        }
        cur = rest;
        proof {
            pos = pos + used;
        }
        k = k + 1;
    }
    assert(acc.deep_view() + Seq::<T::V>::empty() =~= acc.deep_view());
    assert(input@.skip(pos as int) == input@.skip((pos + 0) as int));
    Ok((cur, acc))
}

/// A repetition of a parser that is defined everywhere is defined everywhere.
pub proof fn lemma_many0_defined<'a, T: ParseTotal<'a>>(input: Seq<u8>)
    ensures
        spec_many0::<T>(input).is_defined(),
    decreases input.len(),
{
    T::lemma_parse_defined(input);
    if let Parsed::Value(n, v) = T::spec_parse(input) {
        if 0 < n <= input.len() {
            lemma_many0_defined::<T>(input.skip(n as int));
        }
    }
}

/// A fixed count of a parser that is defined everywhere is defined everywhere.
pub proof fn lemma_count_defined<'a, T: ParseTotal<'a>>(input: Seq<u8>, count: nat)
    ensures
        spec_count::<T>(input, count).is_defined(),
    decreases count,
{
    if count > 0 {
        T::lemma_parse_defined(input);
        if let Parsed::Value(n, v) = T::spec_parse(input) {
            if n <= input.len() {
                lemma_count_defined::<T>(input.skip(n as int), (count - 1) as nat);
            }
        }
    }
}

/// Reading bytes one by one takes every byte of the input.
pub proof fn lemma_many0_bytes(input: Seq<u8>)
    ensures
        spec_many0::<u8>(input) == Parsed::Value(input.len(), input),
    decreases input.len(),
{
    if input.len() > 0 {
        lemma_many0_bytes(input.skip(1));
        assert(<u8 as Parse>::spec_parse(input) == Parsed::Value(1, input[0]));
        assert(seq![input[0]] + input.skip(1) =~= input);
    } else {
        assert(input =~= Seq::<u8>::empty());
    }
}

impl<'a, T: Parse<'a>> Parse<'a> for Vec<T> {
    open spec fn spec_parse(input: Seq<u8>) -> Parsed<Seq<T::V>> {
        spec_many0::<T>(input)
    }

    fn parse(input: &'a [u8]) -> (r: Result<(&'a [u8], Vec<T>), ParseError>) {
        many0(input)
    }
}

impl<'a, T: ParseTotal<'a>> ParseTotal<'a> for Vec<T> {
    proof fn lemma_parse_defined(input: Seq<u8>) {
        lemma_many0_defined::<T>(input);
    }
}

} // verus!

verus! {

/// `r` is the executable result that corresponds to the outcome `p` of
/// splitting a header and a body off `input`: on success the header is the
/// one read, the body holds the bytes that `p` gives, and the rest of the
/// input follows the `n` bytes consumed.
pub open spec fn splits_as<'a, H>(
    p: Parsed<(H, Seq<u8>)>,
    input: Seq<u8>,
    r: Result<(&'a [u8], (H, &'a [u8])), ParseError>,
) -> bool {
    match r {
        Ok((rest, (h, body))) => p matches Parsed::Value(n, (sh, sb)) && n <= input.len()
            && rest@ == input.skip(n as int) && h == sh && body@ == sb,
        Err(e) => p == Parsed::<(H, Seq<u8>)>::Error(e),
    }
}

} // verus!

verus! {

/// A little-endian `u32` read inside `a` reads the same in `a + b`.
pub proof fn lemma_u32_le_prefix(a: Seq<u8>, b: Seq<u8>, k: int)
    requires
        0 <= k,
        k + 4 <= a.len(),
    ensures
        u32_le((a + b).skip(k)) == u32_le(a.skip(k)),
{
    assert((a + b).skip(k)[0] == a.skip(k)[0]);
    assert((a + b).skip(k)[1] == a.skip(k)[1]);
    assert((a + b).skip(k)[2] == a.skip(k)[2]);
    assert((a + b).skip(k)[3] == a.skip(k)[3]);
}

/// A little-endian `u16` read inside `a` reads the same in `a + b`.
pub proof fn lemma_u16_le_prefix(a: Seq<u8>, b: Seq<u8>, k: int)
    requires
        0 <= k,
        k + 2 <= a.len(),
    ensures
        u16_le((a + b).skip(k)) == u16_le(a.skip(k)),
{
    assert((a + b).skip(k)[0] == a.skip(k)[0]);
    assert((a + b).skip(k)[1] == a.skip(k)[1]);
}

} // verus!

verus! {

/// The reading of `T` at the start of the `j`-th of `items`, with the items
/// after it following it.
pub open spec fn item_reading<'a, T: Parse<'a>>(items: Seq<Seq<u8>>, j: int) -> T::V {
    T::spec_parse(crate::esm::concat_groups(items.skip(j)))->Value_1
}

/// `T` reads the first `len` bytes of `input`, and at least one byte.
pub open spec fn reads_exactly<'a, T: Parse<'a>>(input: Seq<u8>, len: nat) -> bool {
    T::spec_parse(input) matches Parsed::Value(n, _) && n == len && n > 0
}

/// Where `T` reads each of `items` whole, the items laid one after the other
/// and nothing after them, a repetition of `T` over them reads every item, in
/// order, and uses all the bytes: one value per item, the `j`-th being what `T`
/// reads at the start of the `j`-th item.
pub proof fn lemma_many0_of_items<'a, T: Parse<'a>>(items: Seq<Seq<u8>>)
    requires
        forall|k: int|
            0 <= k < items.len() ==> #[trigger] reads_exactly::<T>(
                crate::esm::concat_groups(items.skip(k)),
                items[k].len(),
            ),
        T::spec_parse(Seq::empty()) is Error,
    ensures
        spec_many0::<T>(crate::esm::concat_groups(items)) == Parsed::Value(
            crate::esm::concat_groups(items).len(),
            Seq::new(items.len(), |j: int| item_reading::<T>(items, j)),
        ),
    decreases items.len(),
{
    let c = crate::esm::concat_groups(items);
    if items.len() == 0 {
        assert(c =~= Seq::<u8>::empty());
        assert(Seq::new(items.len(), |j: int| item_reading::<T>(items, j)) =~= Seq::<T::V>::empty());
    } else {
        let tail = items.drop_first();
        let rest = crate::esm::concat_groups(tail);
        assert(items.skip(0) =~= items);
        assert(reads_exactly::<T>(crate::esm::concat_groups(items.skip(0)), items[0].len()));
        let n = items[0].len();
        assert(c == items[0] + rest);
        assert(c.skip(n as int) =~= rest);
        assert forall|k: int| 0 <= k < tail.len() implies #[trigger] reads_exactly::<T>(
            crate::esm::concat_groups(tail.skip(k)),
            tail[k].len(),
        ) by {
            assert(tail.skip(k) =~= items.skip(k + 1));
            assert(tail[k] == items[k + 1]);
            assert(reads_exactly::<T>(crate::esm::concat_groups(items.skip(k + 1)), items[k + 1].len()));
        }
        lemma_many0_of_items::<T>(tail);
        let v0 = item_reading::<T>(items, 0);
        let st = Seq::new(tail.len(), |j: int| item_reading::<T>(tail, j));
        assert(seq![v0] + st =~= Seq::new(items.len(), |j: int| item_reading::<T>(items, j))) by {
            assert forall|j: int| 0 < j < items.len() implies st[j - 1] == item_reading::<T>(
                items,
                j,
            ) by {
                assert(tail.skip(j - 1) =~= items.skip(j));
            }
        }
    }
}

/// As `lemma_many0_of_items`, where `T` reads at the start of each item what
/// it reads of that item alone: the `j`-th value is the reading of `items[j]`.
pub proof fn lemma_many0_of_whole_items<'a, T: Parse<'a>>(items: Seq<Seq<u8>>)
    requires
        forall|k: int|
            0 <= k < items.len() ==> #[trigger] reads_exactly::<T>(items[k], items[k].len()),
        forall|k: int|
            0 <= k < items.len() ==> #[trigger] T::spec_parse(
                crate::esm::concat_groups(items.skip(k)),
            ) == T::spec_parse(items[k]),
        T::spec_parse(Seq::empty()) is Error,
    ensures
        spec_many0::<T>(crate::esm::concat_groups(items)) == Parsed::Value(
            crate::esm::concat_groups(items).len(),
            Seq::new(items.len(), |j: int| (T::spec_parse(items[j]))->Value_1),
        ),
{
    assert forall|k: int| 0 <= k < items.len() implies #[trigger] reads_exactly::<T>(
        crate::esm::concat_groups(items.skip(k)),
        items[k].len(),
    ) by {
        assert(reads_exactly::<T>(items[k], items[k].len()));
        assert(T::spec_parse(crate::esm::concat_groups(items.skip(k))) == T::spec_parse(items[k]));
    }
    lemma_many0_of_items::<T>(items);
    assert forall|j: int| 0 <= j < items.len() implies item_reading::<T>(items, j) == (T::spec_parse(
        items[j],
    ))->Value_1 by {
        assert(T::spec_parse(crate::esm::concat_groups(items.skip(j))) == T::spec_parse(items[j]));
    }
    assert(Seq::new(items.len(), |j: int| item_reading::<T>(items, j)) =~= Seq::new(
        items.len(),
        |j: int| (T::spec_parse(items[j]))->Value_1,
    ));
}

/// The two's complement value of the 16-bit little-endian pattern `lo, hi`.
pub open spec fn signed16(lo: u8, hi: u8) -> int {
    if hi < 0x80 {
        lo + hi * 0x100
    } else {
        lo + hi * 0x100 - 0x1_0000
    }
}

/// The two's complement value of the 32-bit little-endian pattern `b0..b3`.
pub open spec fn signed32(b0: u8, b1: u8, b2: u8, b3: u8) -> int {
    if b3 < 0x80 {
        b0 + b1 * 0x100 + b2 * 0x1_0000 + b3 * 0x100_0000
    } else {
        b0 + b1 * 0x100 + b2 * 0x1_0000 + b3 * 0x100_0000 - 0x1_0000_0000
    }
}

/// The little-endian readers take the first bytes of the input, least
/// significant first, and reject an input too short for them.
pub proof fn lemma_le_readers_from_bytes(input: Seq<u8>)
    ensures
        input.len() < 1 ==> spec_le_u8(input) is Error,
        input.len() >= 1 ==> spec_le_u8(input) == Parsed::Value(1, input[0]),
        input.len() < 2 ==> spec_le_u16(input) is Error && spec_le_i16(input) is Error,
        input.len() >= 2 ==> (spec_le_u16(input) matches Parsed::Value(n, v) && n == 2 && v
            == input[0] + input[1] * 0x100),
        input.len() >= 2 ==> (spec_le_i16(input) matches Parsed::Value(n, v) && n == 2 && v
            == signed16(input[0], input[1])),
        input.len() < 4 ==> spec_le_u32(input) is Error && spec_le_i32(input) is Error,
        input.len() >= 4 ==> (spec_le_u32(input) matches Parsed::Value(n, v) && n == 4 && v
            == input[0] + input[1] * 0x100 + input[2] * 0x1_0000 + input[3] * 0x100_0000),
        input.len() >= 4 ==> (spec_le_i32(input) matches Parsed::Value(n, v) && n == 4 && v
            == signed32(input[0], input[1], input[2], input[3])),
{
}

/// Exactly `count` items are read where a fixed count of them is read.
pub proof fn lemma_count_len<'a, T: Parse<'a>>(input: Seq<u8>, count: nat)
    ensures
        spec_count::<T>(input, count) matches Parsed::Value(_, vs) ==> vs.len() == count,
    decreases count,
{
    if count > 0 {
        if let Parsed::Value(n, v) = T::spec_parse(input) {
            if n <= input.len() {
                lemma_count_len::<T>(input.skip(n as int), (count - 1) as nat);
            }
        }
    }
}

/// The little-endian `u16` of bytes `k`, `k + 1` of `s`, as a number.
pub open spec fn le16_at(s: Seq<u8>, k: int) -> int {
    s[k] + s[k + 1] * 0x100
}

/// The little-endian `u32` of bytes `k` to `k + 3` of `s`, as a number.
pub open spec fn le32_at(s: Seq<u8>, k: int) -> int {
    s[k] + s[k + 1] * 0x100 + s[k + 2] * 0x1_0000 + s[k + 3] * 0x100_0000
}

/// A fixed count of little-endian `u32` takes four bytes each: where the input
/// holds them all, the `j`-th is the `u32` of bytes `4 * j` to `4 * j + 3`.
pub proof fn lemma_count_u32_from_bytes(input: Seq<u8>, count: nat)
    ensures
        input.len() >= 4 * count ==> (spec_count::<u32>(input, count) matches Parsed::Value(n, vs) && n
            == 4 * count && vs.len() == count && forall|j: int|
            0 <= j < count ==> vs[j] == #[trigger] le32_at(input, 4 * j)),
        input.len() < 4 * count ==> spec_count::<u32>(input, count) is Error,
    decreases count,
{
    if count > 0 {
        lemma_count_u32_from_bytes(input.skip(4), (count - 1) as nat);
        if input.len() >= 4 * count {
            let rest = input.skip(4);
            let vs_rest = (spec_count::<u32>(rest, (count - 1) as nat))->Value_1;
            assert forall|j: int| 1 <= j < count implies vs_rest[j - 1] == #[trigger] le32_at(
                input,
                4 * j,
            ) by {
                assert(le32_at(rest, 4 * (j - 1)) == le32_at(input, 4 * j));
            }
        }
    }
}

} // verus!
