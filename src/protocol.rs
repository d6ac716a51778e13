use vstd::prelude::*;

verus! {

broadcast use vstd::std_specs::vec::axiom_vec_index_decreases;

/// The mathematical model of a protocol value.
pub enum Frame {
    Simple(Seq<u8>),
    Error(Seq<u8>),
    Integer(int),
    Bulk(Seq<u8>),
    Array(Seq<Frame>),
    Null,
}

/// A protocol value. Text payloads are held as the bytes of their UTF-8 text.
#[derive(Debug)]
pub enum RespValue {
    SimpleString(Vec<u8>),
    Error(Vec<u8>),
    Integer(i64),
    BulkString(Vec<u8>),
    Array(Vec<RespValue>),
    Null,
}

pub open spec fn view_all(a: Seq<RespValue>) -> Seq<Frame>
    decreases a,
{
    if a.len() == 0 {
        Seq::empty()
    } else {
        seq![a[0].view()] + view_all(a.subrange(1, a.len() as int))
    }
}

impl RespValue {
    pub open spec fn view(&self) -> Frame
        decreases self,
    {
        match self {
            RespValue::SimpleString(t) => Frame::Simple(t@),
            RespValue::Error(t) => Frame::Error(t@),
            RespValue::Integer(n) => Frame::Integer(*n as int),
            RespValue::BulkString(b) => Frame::Bulk(b@),
            RespValue::Array(a) => Frame::Array(view_all(a@)),
            RespValue::Null => Frame::Null,
        }
    }
}

pub open spec fn crlf() -> Seq<u8> {
    seq![13u8, 10u8]
}

/// Decimal digits of a natural number, most significant first.
pub open spec fn digits(n: nat) -> Seq<u8>
    decreases n,
{
    if n < 10 {
        seq![(48 + n) as u8]
    } else {
        digits(n / 10).push((48 + n % 10) as u8)
    }
}

/// Decimal text of an integer, with a leading `-` when negative.
pub open spec fn decimal(n: int) -> Seq<u8> {
    if n < 0 {
        seq![45u8] + digits((-n) as nat)
    } else {
        digits(n as nat)
    }
}

/// The exact wire form of a value.
pub open spec fn encode(f: Frame) -> Seq<u8>
    decreases f,
{
    match f {
        Frame::Simple(t) => seq![43u8] + t + crlf(),
        Frame::Error(t) => seq![45u8] + t + crlf(),
        Frame::Integer(n) => seq![58u8] + decimal(n) + crlf(),
        Frame::Bulk(b) => seq![36u8] + decimal(b.len() as int) + crlf() + b + crlf(),
        Frame::Array(a) => seq![42u8] + decimal(a.len() as int) + crlf() + encode_all(a),
        Frame::Null => seq![36u8, 45u8, 49u8, 13u8, 10u8],
    }
}

/// The wire forms of a sequence of values, one after another.
pub open spec fn encode_all(a: Seq<Frame>) -> Seq<u8>
    decreases a,
{
    if a.len() == 0 {
        Seq::empty()
    } else {
        encode(a[0]) + encode_all(a.subrange(1, a.len() as int))
    }
}

pub proof fn lemma_view_all_push(a: Seq<RespValue>, x: RespValue)
    ensures
        view_all(a.push(x)) == view_all(a).push(x.view()),
    decreases a.len(),
{
    if a.len() == 0 {
        assert(a.push(x).subrange(1, 1) =~= Seq::<RespValue>::empty());
        assert(view_all(a.push(x).subrange(1, 1)) == Seq::<Frame>::empty());
        assert(view_all(a.push(x)) =~= view_all(a).push(x.view()));
    } else {
        let t = a.subrange(1, a.len() as int);
        lemma_view_all_push(t, x);
        assert(a.push(x).subrange(1, a.len() + 1int) =~= t.push(x));
        assert(view_all(a.push(x)) =~= view_all(a).push(x.view()));
    }
}

pub proof fn lemma_view_all_index(a: Seq<RespValue>)
    ensures
        view_all(a).len() == a.len(),
        forall|i: int| 0 <= i < a.len() ==> #[trigger] view_all(a)[i] == a[i].view(),
    decreases a.len(),
{
    if a.len() > 0 {
        let t = a.subrange(1, a.len() as int);
        lemma_view_all_index(t);
        assert forall|i: int| 0 <= i < a.len() implies #[trigger] view_all(a)[i] == a[i].view() by {
            if i > 0 {
                assert(view_all(a)[i] == view_all(t)[i - 1]);
            }
        }
    }
}

pub proof fn lemma_encode_all_push(a: Seq<Frame>, x: Frame)
    ensures
        encode_all(a.push(x)) == encode_all(a) + encode(x),
    decreases a.len(),
{
    if a.len() == 0 {
        assert(a.push(x).subrange(1, 1) =~= Seq::<Frame>::empty());
        assert(encode_all(a.push(x).subrange(1, 1)) == Seq::<u8>::empty());
        assert(encode_all(a.push(x)) =~= encode_all(a) + encode(x));
    } else {
        let t = a.subrange(1, a.len() as int);
        lemma_encode_all_push(t, x);
        assert(a.push(x).subrange(1, a.len() + 1int) =~= t.push(x));
        assert(encode_all(a.push(x)) =~= encode_all(a) + encode(x));
    }
}

/// Appends the decimal digits of `m`.
fn push_digits(m: u64, out: &mut Vec<u8>)
    ensures
        final(out)@ == old(out)@ + digits(m as nat),
    decreases m,
{
    if m >= 10 {
        push_digits(m / 10, out);
    }
    out.push(48u8 + (m % 10) as u8);
    assert(final(out)@ =~= old(out)@ + digits(m as nat));
}

/// Appends the decimal text of a length.
fn push_len(n: usize, out: &mut Vec<u8>)
    ensures
        final(out)@ == old(out)@ + decimal(n as int),
{
    push_digits(n as u64, out);
}

/// Appends the decimal text of `n`.
fn push_decimal(n: i64, out: &mut Vec<u8>)
    ensures
        final(out)@ == old(out)@ + decimal(n as int),
{
    if n < 0 {
        out.push(45u8);
        let m: u64 = (0i128 - n as i128) as u64;
        push_digits(m, out);
    } else {
        push_digits(n as u64, out);
    }
    assert(final(out)@ =~= old(out)@ + decimal(n as int));
}

fn push_bytes(out: &mut Vec<u8>, src: &[u8])
    ensures
        final(out)@ == old(out)@ + src@,
{
    let mut i: usize = 0;
    while i < src.len()
        invariant
            i <= src@.len(),
            out@ == old(out)@ + src@.subrange(0, i as int),
        decreases src@.len() - i,
    {
        out.push(src[i]);
        i = i + 1;
        assert(out@ =~= old(out)@ + src@.subrange(0, i as int));
    }
    assert(src@.subrange(0, i as int) =~= src@);
}

impl RespValue {
    /// Appends the wire form of this value.
    fn write_to(&self, out: &mut Vec<u8>)
        ensures
            final(out)@ == old(out)@ + encode(self.view()),
        decreases self,
    {
        match self {
            RespValue::SimpleString(t) => {
                out.push(43u8);
                push_bytes(out, t.as_slice());
                out.push(13u8);
                out.push(10u8);
            },
            RespValue::Error(t) => {
                out.push(45u8);
                push_bytes(out, t.as_slice());
                out.push(13u8);
                out.push(10u8);
            },
            RespValue::Integer(n) => {
                out.push(58u8);
                push_decimal(*n, out);
                out.push(13u8);
                out.push(10u8);
            },
            RespValue::BulkString(b) => {
                out.push(36u8);
                push_len(b.len(), out);
                out.push(13u8);
                out.push(10u8);
                push_bytes(out, b.as_slice());
                out.push(13u8);
                out.push(10u8);
            },
            RespValue::Array(a) => {
                out.push(42u8);
                push_len(a.len(), out);
                out.push(13u8);
                out.push(10u8);
                let ghost start = out@;
                let mut i: usize = 0;
                while i < a.len()
                    invariant
                        *self == RespValue::Array(*a),
                        i <= a@.len(),
                        out@ == start + encode_all(view_all(a@.subrange(0, i as int))),
                    decreases a@.len() - i,
                {
                    proof {
                        lemma_view_all_push(a@.subrange(0, i as int), a@[i as int]);
                        lemma_encode_all_push(view_all(a@.subrange(0, i as int)), a@[i as int].view());
                        assert(a@.subrange(0, i as int).push(a@[i as int]) =~= a@.subrange(0, i + 1));
                    }
                    assert(decreases_to!(*a => a[i as int]));
                    assert(decreases_to!(*self => self->Array_0));
                    a[i].write_to(out);
                    i = i + 1;
                }
                assert(a@.subrange(0, i as int) =~= a@);
                proof {
                    lemma_view_all_index(a@);
                }
            },
            RespValue::Null => {
                out.push(36u8);
                out.push(45u8);
                out.push(49u8);
                out.push(13u8);
                out.push(10u8);
            },
        }
        assert(final(out)@ =~= old(out)@ + encode(self.view()));
    }

    /// Serializes this value into its exact wire form.
    pub fn to_bytes(&self) -> (r: Vec<u8>)
        ensures
            r@ == encode(self.view()),
    {
        let mut out: Vec<u8> = Vec::new();
        self.write_to(&mut out);
        assert(out@ =~= encode(self.view()));
        out
    }
}

/// Why a byte stream does not hold a well-formed value.
#[derive(Debug, Clone, Copy, PartialEq, Eq, Structural)]
pub enum DecodeError {
    /// The stream ended inside a value.
    UnexpectedEnd,
    /// A simple string or error line is not valid UTF-8.
    InvalidText,
    /// An integer, length or count line is not a signed 64-bit integer.
    InvalidInteger,
    /// A length or count below -1.
    InvalidLength,
    /// The leading byte names no value type.
    UnknownType(u8),
    /// Arrays nest deeper than `MAX_DEPTH`.
    TooDeep,
}

/// Whether `b` is valid UTF-8, as `std::str::from_utf8` decides it.
pub uninterp spec fn utf8_valid(b: Seq<u8>) -> bool;

pub open spec fn all_ascii(b: Seq<u8>) -> bool {
    forall|i: int| 0 <= i < b.len() ==> #[trigger] b[i] < 128
}

/// Relies on `std::str::from_utf8`: it succeeds exactly on valid UTF-8, and
/// ASCII is valid UTF-8.
#[verifier::external_body]
fn is_utf8(b: &[u8]) -> (r: bool)
    ensures
        r == utf8_valid(b@),
        all_ascii(b@) ==> r,
{
    std::str::from_utf8(b).is_ok()
}

pub open spec fn crlf_at(s: Seq<u8>, j: int) -> bool {
    0 <= j && j + 1 < s.len() && s[j] == 13 && s[j + 1] == 10
}

/// The position of the first `\r\n` at or after `p`.
pub open spec fn find_crlf(s: Seq<u8>, p: int) -> Option<int>
    decreases s.len() - p,
{
    if p < 0 || p + 1 >= s.len() {
        None
    } else if crlf_at(s, p) {
        Some(p)
    } else {
        find_crlf(s, p + 1)
    }
}

pub open spec fn is_digit(b: u8) -> bool {
    48 <= b <= 57
}

pub open spec fn all_digits(t: Seq<u8>) -> bool {
    t.len() > 0 && forall|i: int| 0 <= i < t.len() ==> is_digit(#[trigger] t[i])
}

/// The number that a run of decimal digits denotes.
pub open spec fn digits_value(t: Seq<u8>) -> int
    decreases t.len(),
{
    if t.len() == 0 {
        0
    } else {
        digits_value(t.drop_last()) * 10 + (t.last() - 48)
    }
}

/// The integer a line denotes: an optional sign, then one or more digits.
pub open spec fn signed_value(t: Seq<u8>) -> Option<int> {
    if t.len() > 0 && t[0] == 45 {
        if all_digits(t.drop_first()) {
            Some(-digits_value(t.drop_first()))
        } else {
            None
        }
    } else if t.len() > 0 && t[0] == 43 {
        if all_digits(t.drop_first()) {
            Some(digits_value(t.drop_first()))
        } else {
            None
        }
    } else if all_digits(t) {
        Some(digits_value(t))
    } else {
        None
    }
}

/// The signed 64-bit integer a line denotes, if any.
pub open spec fn parse_i64(t: Seq<u8>) -> Option<int> {
    match signed_value(t) {
        Some(v) => if i64::MIN <= v <= i64::MAX {
            Some(v)
        } else {
            None
        },
        None => None,
    }
}

/// The largest bulk string length accepted: 512 MiB.
pub const MAX_BULK_LEN: i64 = 536870912;

/// The largest array count accepted.
pub const MAX_ARRAY_LEN: i64 = 1048576;

pub open spec fn is_type_byte(tag: u8) -> bool {
    tag == 43 || tag == 45 || tag == 58 || tag == 36 || tag == 42
}

/// The failure for an unknown type byte at `p`: decoding resumes just after
/// its line. While more bytes may come and the line is not complete, the
/// stream has only run out.
pub open spec fn unknown_type_failure(s: Seq<u8>, p: int, end: bool) -> (DecodeError, int) {
    match find_crlf(s, p + 1) {
        Some(j) => if p + 1 <= j && j + 2 <= s.len() {
            (DecodeError::UnknownType(s[p]), j + 2)
        } else {
            (DecodeError::UnexpectedEnd, s.len() as int)
        },
        None => if end {
            (DecodeError::UnknownType(s[p]), s.len() as int)
        } else {
            (DecodeError::UnexpectedEnd, s.len() as int)
        },
    }
}

/// Whether a line may stand as text: ASCII, or else valid UTF-8.
pub open spec fn text_valid(t: Seq<u8>) -> bool {
    all_ascii(t) || utf8_valid(t)
}

/// The value that starts at position `p` of the stream `s`, and where the
/// next one starts; `Ok(None)` when the stream ends at `p`. `end` tells
/// whether `s` is the whole stream or only what has arrived so far. A
/// failure comes with where decoding resumes: just after the line that
/// failed, or the end of `s` when it ran out inside the value.
/// How deeply arrays may nest: an array at this depth is refused.
pub const MAX_DEPTH: usize = 128;

/// The value that starts at position `p` of the stream `s`, as `decode_nested`
/// decodes it at the top level.
pub open spec fn decode_at(s: Seq<u8>, p: int, end: bool) -> Result<Option<(Frame, int)>, (DecodeError, int)> {
    decode_nested(s, p, end, 0)
}

/// Decodes as `decode_at` does, for a value that stands inside `depth` arrays.
pub open spec fn decode_nested(s: Seq<u8>, p: int, end: bool, depth: nat) -> Result<Option<(Frame, int)>, (DecodeError, int)>
    decreases s.len() - p, 0int,
{
    if p < 0 || p >= s.len() {
        Ok(None)
    } else {
        let tag = s[p];
        if !is_type_byte(tag) {
            Err(unknown_type_failure(s, p, end))
        } else {
            match find_crlf(s, p + 1) {
                None => Err((DecodeError::UnexpectedEnd, s.len() as int)),
                Some(j) => if p + 1 <= j && j + 2 <= s.len() {
                    let line = s.subrange(p + 1, j);
                    let q = j + 2;
                    if tag == 43 || tag == 45 {
                        if !text_valid(line) {
                            Err((DecodeError::InvalidText, q))
                        } else if tag == 43 {
                            Ok(Some((Frame::Simple(line), q)))
                        } else {
                            Ok(Some((Frame::Error(line), q)))
                        }
                    } else {
                        match parse_i64(line) {
                            None => Err((DecodeError::InvalidInteger, q)),
                            Some(n) => if tag == 58 {
                                Ok(Some((Frame::Integer(n), q)))
                            } else if n == -1 {
                                Ok(Some((Frame::Null, q)))
                            } else if n < -1 || (tag == 36 && n > MAX_BULK_LEN) || (tag == 42 && n
                                > MAX_ARRAY_LEN) {
                                Err((DecodeError::InvalidLength, q))
                            } else if tag == 36 {
                                if q + n + 2 > s.len() {
                                    Err((DecodeError::UnexpectedEnd, s.len() as int))
                                } else {
                                    Ok(Some((Frame::Bulk(s.subrange(q, q + n)), q + n + 2)))
                                }
                            } else if depth >= MAX_DEPTH {
                                Err((DecodeError::TooDeep, q))
                            } else {
                                match decode_elems(s, q, n as nat, end, depth + 1) {
                                    Ok((fs, e)) => Ok(Some((Frame::Array(fs), e))),
                                    Err(x) => Err(x),
                                }
                            },
                        }
                    }
                } else {
                    Err((DecodeError::UnexpectedEnd, s.len() as int))
                },
            }
        }
    }
}

/// `k` values one after another from position `p`, and where the next one starts.
pub open spec fn decode_elems(s: Seq<u8>, p: int, k: nat, end: bool, depth: nat) -> Result<(Seq<Frame>, int), (DecodeError, int)>
    decreases s.len() - p, 1int,
{
    if k == 0 {
        Ok((Seq::empty(), p))
    } else {
        match decode_nested(s, p, end, depth) {
            Ok(Some((f, q))) => if p < q && q <= s.len() {
                match decode_elems(s, q, (k - 1) as nat, end, depth) {
                    Ok((fs, e)) => Ok((seq![f] + fs, e)),
                    Err(x) => Err(x),
                }
            } else {
                Err((DecodeError::UnexpectedEnd, s.len() as int))
            },
            Ok(None) => Err((DecodeError::UnexpectedEnd, s.len() as int)),
            Err(x) => Err(x),
        }
    }
}

pub proof fn lemma_elems_bounds(s: Seq<u8>, p: int, k: nat, end: bool, depth: nat)
    requires
        0 <= p <= s.len(),
    ensures
        decode_elems(s, p, k, end, depth) matches Ok((_, e)) ==> p <= e <= s.len(),
        decode_elems(s, p, k, end, depth) matches Err((_, e)) ==> p < e <= s.len() || (p == e && e == s.len()),
    decreases s.len() - p, 1int,
{
    if k > 0 {
        lemma_decode_advances(s, p, end, depth);
        if let Ok(Some((f, q))) = decode_nested(s, p, end, depth) {
            if p < q && q <= s.len() {
                lemma_elems_bounds(s, q, (k - 1) as nat, end, depth);
            }
        }
    }
}

/// A decoded value always takes at least one byte, and no more than there
/// are; so does a failure, unless the stream is already at its end.
pub proof fn lemma_decode_advances(s: Seq<u8>, p: int, end: bool, depth: nat)
    ensures
        decode_nested(s, p, end, depth) matches Ok(Some((f, q))) ==> p < q <= s.len(),
        0 <= p <= s.len() ==> (decode_nested(s, p, end, depth) matches Err((_, q)) ==> p < q <= s.len()),
    decreases s.len() - p, 0int,
{
    if 0 <= p < s.len() && is_type_byte(s[p]) {
        if let Some(j) = find_crlf(s, p + 1) {
            if p + 1 <= j && j + 2 <= s.len() {
                if let Some(n) = parse_i64(s.subrange(p + 1, j)) {
                    if n >= 0 {
                        lemma_elems_bounds(s, j + 2, n as nat, end, depth + 1);
                    }
                }
            }
        }
    }
}

pub open spec fn decoded_view(r: Result<Option<(RespValue, usize)>, (DecodeError, usize)>) -> Result<
    Option<(Frame, int)>,
    (DecodeError, int),
> {
    match r {
        Ok(Some((v, n))) => Ok(Some((v.view(), n as int))),
        Ok(None) => Ok(None),
        Err((e, n)) => Err((e, n as int)),
    }
}

pub open spec fn prepend(d: Seq<Frame>, r: Result<(Seq<Frame>, int), (DecodeError, int)>) -> Result<
    (Seq<Frame>, int),
    (DecodeError, int),
> {
    match r {
        Ok((fs, e)) => Ok((d + fs, e)),
        Err(x) => Err(x),
    }
}

fn find_line_end(s: &[u8], p: usize) -> (r: Option<usize>)
    requires
        p <= s@.len(),
    ensures
        r matches Some(j) ==> find_crlf(s@, p as int) == Some(j as int) && p <= j && j + 2 <= s@.len(),
        r is None ==> find_crlf(s@, p as int) is None,
{
    let mut i: usize = p;
    while s.len() - i > 1
        invariant
            p <= i <= s@.len(),
            find_crlf(s@, p as int) == find_crlf(s@, i as int),
        decreases s@.len() - i,
    {
        if s[i] == 13u8 && s[i + 1] == 10u8 {
            return Some(i);
        }
        i = i + 1;
    }
    None
}

pub(crate) fn copy_range(s: &[u8], a: usize, b: usize) -> (r: Vec<u8>)
    requires
        a <= b <= s@.len(),
    ensures
        r@ == s@.subrange(a as int, b as int),
{
    let mut out: Vec<u8> = Vec::new();
    let mut i: usize = a;
    while i < b
        invariant
            a <= i <= b <= s@.len(),
            out@ == s@.subrange(a as int, i as int),
        decreases b - i,
    {
        out.push(s[i]);
        i = i + 1;
        assert(out@ =~= s@.subrange(a as int, i as int));
    }
    out
}

/// Reads the line `s[a..b]` as a signed 64-bit integer.
fn parse_int(s: &[u8], a: usize, b: usize) -> (r: Option<i64>)
    requires
        a <= b <= s@.len(),
    ensures
        r matches Some(v) ==> parse_i64(s@.subrange(a as int, b as int)) == Some(v as int),
        r is None ==> parse_i64(s@.subrange(a as int, b as int)) is None,
{
    let ghost t = s@.subrange(a as int, b as int);
    let mut neg = false;
    let mut start: usize = a;
    if a < b && s[a] == 45u8 {
        neg = true;
        start = a + 1;
    } else if a < b && s[a] == 43u8 {
        start = a + 1;
    }
    let ghost u = s@.subrange(start as int, b as int);
    assert(start > a ==> u =~= t.drop_first());
    assert(start == a ==> u =~= t);
    assert(signed_value(t) == (if all_digits(u) {
        Some(if neg { -digits_value(u) } else { digits_value(u) })
    } else {
        None::<int>
    }));
    if start == b {
        return None;
    }
    let cap: u128 = 9223372036854775809;
    let mut acc: u128 = 0;
    let mut i: usize = start;
    while i < b
        invariant
            a <= start <= i <= b <= s@.len(),
            u == s@.subrange(start as int, b as int),
            t == s@.subrange(a as int, b as int),
            signed_value(t) == (if all_digits(u) {
                Some(if neg { -digits_value(u) } else { digits_value(u) })
            } else {
                None::<int>
            }),
            forall|k: int| start <= k < i ==> is_digit(#[trigger] s@[k]),
            acc <= cap,
            cap == 9223372036854775809,
            acc == (if digits_value(s@.subrange(start as int, i as int)) < cap {
                digits_value(s@.subrange(start as int, i as int))
            } else {
                cap as int
            }),
        decreases b - i,
    {
        let c = s[i];
        if c < 48u8 || c > 57u8 {
            assert(!is_digit(u[i - start]));
            assert(!all_digits(u));
            return None;
        }
        let ghost v = digits_value(s@.subrange(start as int, i as int));
        assert(s@.subrange(start as int, i + 1).drop_last() =~= s@.subrange(start as int, i as int));
        let d: u128 = (c - 48u8) as u128;
        let next: u128 = acc * 10 + d;
        if next > cap {
            acc = cap;
        } else {
            acc = next;
        }
        proof {
            if v >= cap {
                assert(v * 10 + d >= cap) by (nonlinear_arith)
                    requires
                        v >= cap,
                        d >= 0,
                        cap > 0,
                ;
            }
        }
        i = i + 1;
    }
    assert(s@.subrange(start as int, b as int) == u);
    assert(all_digits(u));
    if neg {
        if acc > 9223372036854775808 {
            None
        } else {
            Some((0i128 - acc as i128) as i64)
        }
    } else {
        if acc > 9223372036854775807 {
            None
        } else {
            Some(acc as i64)
        }
    }
}

impl RespValue {
    /// Decodes the value that starts at position `p` of `s`; `end` tells
    /// whether `s` is the whole stream or only what has arrived so far. Gives
    /// the value and the position after it, `None` when `s` ends at `p`, or a
    /// failure with the position where decoding resumes.
    pub fn decode_from(s: &[u8], p: usize, end: bool) -> (r: Result<Option<(RespValue, usize)>, (DecodeError, usize)>)
        requires
            p <= s@.len(),
        ensures
            decoded_view(r) == decode_at(s@, p as int, end),
    {
        RespValue::decode_level(s, p, end, 0)
    }

    fn decode_level(s: &[u8], p: usize, end: bool, depth: usize) -> (r: Result<
        Option<(RespValue, usize)>,
        (DecodeError, usize),
    >)
        requires
            p <= s@.len(),
            depth <= MAX_DEPTH,
        ensures
            decoded_view(r) == decode_nested(s@, p as int, end, depth as nat),
        decreases s@.len() - p,
    {
        if p >= s.len() {
            return Ok(None);
        }
        let tag = s[p];
        let line_end = find_line_end(s, p + 1);
        if !(tag == 43u8 || tag == 45u8 || tag == 58u8 || tag == 36u8 || tag == 42u8) {
            return match line_end {
                Some(j) => Err((DecodeError::UnknownType(tag), j + 2)),
                None => if end {
                    Err((DecodeError::UnknownType(tag), s.len()))
                } else {
                    Err((DecodeError::UnexpectedEnd, s.len()))
                },
            };
        }
        let j = match line_end {
            None => {
                return Err((DecodeError::UnexpectedEnd, s.len()));
            },
            Some(j) => j,
        };
        let q = j + 2;
        if tag == 43u8 || tag == 45u8 {
            let line = copy_range(s, p + 1, j);
            if !is_utf8(line.as_slice()) {
                return Err((DecodeError::InvalidText, q));
            }
            if tag == 43u8 {
                return Ok(Some((RespValue::SimpleString(line), q)));
            } else {
                return Ok(Some((RespValue::Error(line), q)));
            }
        }
        let n = match parse_int(s, p + 1, j) {
            None => {
                return Err((DecodeError::InvalidInteger, q));
            },
            Some(n) => n,
        };
        if tag == 58u8 {
            return Ok(Some((RespValue::Integer(n), q)));
        }
        if n == -1 {
            return Ok(Some((RespValue::Null, q)));
        }
        if n < -1 || (tag == 36u8 && n > MAX_BULK_LEN) || (tag == 42u8 && n > MAX_ARRAY_LEN) {
            return Err((DecodeError::InvalidLength, q));
        }
        let rem: usize = s.len() - q;
        if tag == 36u8 {
            if rem < 2 || n as u64 > (rem - 2) as u64 {
                return Err((DecodeError::UnexpectedEnd, s.len()));
            }
            let data = copy_range(s, q, q + n as usize);
            return Ok(Some((RespValue::BulkString(data), q + n as usize + 2)));
        }
        if depth >= MAX_DEPTH {
            return Err((DecodeError::TooDeep, q));
        }
        let inner: usize = depth + 1;
        let count: u64 = n as u64;
        let mut items: Vec<RespValue> = Vec::new();
        let mut pos: usize = q;
        let mut i: u64 = 0;
        proof {
            assert(view_all(items@) =~= Seq::<Frame>::empty());
            assert(prepend(Seq::empty(), decode_elems(s@, q as int, count as nat, end, inner as nat)) =~= decode_elems(
                s@,
                q as int,
                count as nat, end, inner as nat,
            ));
        }
        while i < count
            invariant
                q <= pos <= s@.len(),
                p < q,
                inner == depth + 1,
                inner <= MAX_DEPTH,
                i <= count,
                decode_nested(s@, p as int, end, depth as nat) == (match decode_elems(s@, q as int, count as nat, end, inner as nat) {
                    Ok((fs, e)) => Ok(Some((Frame::Array(fs), e))),
                    Err(x) => Err(x),
                }),
                decode_elems(s@, q as int, count as nat, end, inner as nat) == prepend(
                    view_all(items@),
                    decode_elems(s@, pos as int, (count - i) as nat, end, inner as nat),
                ),
            decreases count - i,
        {
            let ghost k = (count - i) as nat;
            proof {
                lemma_decode_advances(s@, pos as int, end, inner as nat);
            }
            match RespValue::decode_level(s, pos, end, inner) {
                Ok(Some((v, next))) => {
                    proof {
                        lemma_view_all_push(items@, v);
                        let rest = decode_elems(s@, next as int, (k - 1) as nat, end, inner as nat);
                        assert(decode_elems(s@, pos as int, k, end, inner as nat) == prepend(seq![v.view()], rest));
                        if let Ok((fs, e)) = rest {
                            assert(view_all(items@) + (seq![v.view()] + fs) =~= view_all(items@).push(
                                v.view(),
                            ) + fs);
                        }
                    }
                    items.push(v);
                    pos = next;
                },
                Ok(None) => {
                    return Err((DecodeError::UnexpectedEnd, s.len()));
                },
                Err(x) => {
                    return Err(x);
                },
            }
            i = i + 1;
        }
        proof {
            assert(view_all(items@) + Seq::<Frame>::empty() =~= view_all(items@));
        }
        Ok(Some((RespValue::Array(items), pos)))
    }

    /// Decodes one value from the start of `stream`, where the end of `stream`
    /// is the end of the input. Gives the value and the number of bytes it
    /// took, or `None` when the stream is empty; a failure comes with where
    /// decoding resumes.
    pub fn from_stream(stream: &[u8]) -> (r: Result<Option<(RespValue, usize)>, (DecodeError, usize)>)
        ensures
            decoded_view(r) == decode_at(stream@, 0, true),
    {
        RespValue::decode_from(stream, 0, true)
    }
}

/// Text that a simple string or an error may carry: UTF-8 without CR or LF.
pub open spec fn text_ok(t: Seq<u8>) -> bool {
    text_valid(t) && forall|i: int| 0 <= i < t.len() ==> #[trigger] t[i] != 13 && t[i] != 10
}

/// The values that can be sent inside `depth` arrays: text without line
/// breaks, integers that fit a signed 64-bit integer, lengths and counts
/// within the limits, and arrays nested less than `MAX_DEPTH` deep.
pub open spec fn fits(f: Frame, depth: nat) -> bool
    decreases f,
{
    match f {
        Frame::Simple(t) => text_ok(t),
        Frame::Error(t) => text_ok(t),
        Frame::Integer(n) => i64::MIN <= n <= i64::MAX,
        Frame::Bulk(b) => b.len() <= MAX_BULK_LEN,
        Frame::Array(a) => depth < MAX_DEPTH && a.len() <= MAX_ARRAY_LEN && forall|i: int|
            0 <= i < a.len() ==> fits(#[trigger] a[i], depth + 1),
        Frame::Null => true,
    }
}

/// The values that can be sent.
pub open spec fn well_formed(f: Frame) -> bool {
    fits(f, 0)
}

proof fn lemma_at(s: Seq<u8>, p: int, e: Seq<u8>)
    requires
        0 <= p,
        p + e.len() <= s.len(),
        s.subrange(p, p + e.len()) == e,
    ensures
        forall|k: int| 0 <= k < e.len() ==> s[p + k] == #[trigger] e[k],
{
    assert forall|k: int| 0 <= k < e.len() implies s[p + k] == #[trigger] e[k] by {
        assert(s.subrange(p, p + e.len())[k] == s[p + k]);
    }
}

proof fn lemma_find_crlf(s: Seq<u8>, p: int, j: int)
    requires
        0 <= p <= j,
        crlf_at(s, j),
        forall|k: int| p <= k < j ==> s[k] != 13,
    ensures
        find_crlf(s, p) == Some(j),
    decreases j - p,
{
    if p < j {
        lemma_find_crlf(s, p + 1, j);
    }
}

proof fn lemma_digits(n: nat)
    ensures
        all_digits(digits(n)),
        digits_value(digits(n)) == n,
    decreases n,
{
    if n >= 10 {
        lemma_digits(n / 10);
        assert(digits(n).drop_last() =~= digits(n / 10));
        assert(digits(n).last() - 48 == n % 10);
        assert((n / 10) * 10 + n % 10 == n) by (nonlinear_arith);
    } else {
        assert(digits(n).drop_last() =~= Seq::<u8>::empty());
        assert(digits_value(Seq::<u8>::empty()) == 0);
    }
}

proof fn lemma_parse_decimal(n: int)
    requires
        i64::MIN <= n <= i64::MAX,
    ensures
        parse_i64(decimal(n)) == Some(n),
        forall|k: int| 0 <= k < decimal(n).len() ==> #[trigger] decimal(n)[k] != 13,
{
    if n < 0 {
        lemma_digits((-n) as nat);
        assert(decimal(n).drop_first() =~= digits((-n) as nat));
    } else {
        lemma_digits(n as nat);
        assert(is_digit(decimal(n)[0]));
    }
}

/// A line `tag body \r\n` at `p`, with no CR in `body`, ends right after `body`.
proof fn lemma_line(s: Seq<u8>, p: int, body: Seq<u8>)
    requires
        0 <= p,
        p + body.len() + 3 <= s.len(),
        forall|k: int| 0 <= k < body.len() ==> s[p + 1 + k] == #[trigger] body[k],
        forall|k: int| 0 <= k < body.len() ==> #[trigger] body[k] != 13,
        s[p + 1 + body.len()] == 13,
        s[p + 2 + body.len()] == 10,
    ensures
        find_crlf(s, p + 1) == Some(p + 1 + body.len()),
        s.subrange(p + 1, p + 1 + body.len()) == body,
{
    let j = p + 1 + body.len();
    assert forall|k: int| p + 1 <= k < j implies s[k] != 13 by {
        assert(s[p + 1 + (k - p - 1)] == body[k - p - 1]);
    }
    lemma_find_crlf(s, p + 1, j);
    assert(s.subrange(p + 1, j) =~= body);
}

proof fn lemma_decode_text(s: Seq<u8>, p: int, f: Frame, end: bool, depth: nat)
    requires
        f is Simple || f is Error,
        fits(f, depth),
        0 <= p,
        p + encode(f).len() <= s.len(),
        s.subrange(p, p + encode(f).len()) == encode(f),
    ensures
        decode_nested(s, p, end, depth) == Ok::<Option<(Frame, int)>, (DecodeError, int)>(Some((f, p + encode(f).len()))),
{
    let e = encode(f);
    lemma_at(s, p, e);
    let t = if f is Simple { f->Simple_0 } else { f->Error_0 };
    assert(e =~= seq![e[0]] + t + crlf());
    assert(forall|k: int| 0 <= k < t.len() ==> #[trigger] t[k] == e[1 + k]);
    assert(e[1 + t.len() as int] == 13 && e[2 + t.len() as int] == 10);
    lemma_line(s, p, t);
}

proof fn lemma_decode_number(s: Seq<u8>, p: int, f: Frame, end: bool, depth: nat)
    requires
        f is Integer || f is Bulk,
        fits(f, depth),
        0 <= p,
        p + encode(f).len() <= s.len(),
        s.subrange(p, p + encode(f).len()) == encode(f),
    ensures
        decode_nested(s, p, end, depth) == Ok::<Option<(Frame, int)>, (DecodeError, int)>(Some((f, p + encode(f).len()))),
{
    let e = encode(f);
    lemma_at(s, p, e);
    let n = if f is Integer { f->Integer_0 } else { f->Bulk_0.len() as int };
    let d = decimal(n);
    lemma_parse_decimal(n);
    assert(forall|k: int| 0 <= k < d.len() ==> #[trigger] d[k] == e[1 + k]);
    assert(e[1 + d.len() as int] == 13 && e[2 + d.len() as int] == 10);
    lemma_line(s, p, d);
    assert(s[p + 0] == e[0]);
    if let Frame::Bulk(b) = f {
        let q = p + d.len() + 3;
        assert forall|k: int| 0 <= k < b.len() implies s.subrange(q, q + b.len())[k] == b[k] by {
            assert(e[3 + d.len() as int + k] == b[k]);
        }
        assert(s.subrange(q, q + b.len()) =~= b);
    }
}

proof fn lemma_decode_null(s: Seq<u8>, p: int, end: bool, depth: nat)
    requires
        0 <= p,
        p + 5 <= s.len(),
        s.subrange(p, p + 5) == encode(Frame::Null),
    ensures
        decode_nested(s, p, end, depth) == Ok::<Option<(Frame, int)>, (DecodeError, int)>(Some((Frame::Null, p + 5))),
{
    let e = encode(Frame::Null);
    lemma_at(s, p, e);
    let line = seq![45u8, 49u8];
    assert(forall|k: int| 0 <= k < 2 ==> #[trigger] line[k] == e[1 + k]);
    lemma_line(s, p, line);
    assert(line.drop_first() =~= seq![49u8]);
    assert(seq![49u8].drop_last() =~= Seq::<u8>::empty());
    assert(digits_value(Seq::<u8>::empty()) == 0);
    assert(digits_value(seq![49u8]) == 1);
}

/// The wire form of a well-formed value decodes to that value, wherever it
/// stands in a stream and whatever follows it.
pub proof fn lemma_decode_encoded(s: Seq<u8>, p: int, f: Frame, end: bool, depth: nat)
    requires
        fits(f, depth),
        0 <= p,
        p + encode(f).len() <= s.len(),
        s.subrange(p, p + encode(f).len()) == encode(f),
    ensures
        decode_nested(s, p, end, depth) == Ok::<Option<(Frame, int)>, (DecodeError, int)>(Some((f, p + encode(f).len()))),
    decreases f,
{
    match f {
        Frame::Array(a) => {
            let e = encode(f);
            lemma_at(s, p, e);
            let d = decimal(a.len() as int);
            lemma_parse_decimal(a.len() as int);
            assert(forall|k: int| 0 <= k < d.len() ==> #[trigger] d[k] == e[1 + k]);
            assert(e[1 + d.len() as int] == 13 && e[2 + d.len() as int] == 10);
            lemma_line(s, p, d);
            assert(s[p + 0] == e[0]);
            let q = p + d.len() + 3;
            let ea = encode_all(a);
            assert forall|k: int| 0 <= k < ea.len() implies s.subrange(q, q + ea.len())[k] == ea[k] by {
                assert(e[3 + d.len() as int + k] == ea[k]);
            }
            assert(s.subrange(q, q + ea.len()) =~= ea);
            lemma_decode_encoded_all(s, q, a, end, depth + 1);
        },
        Frame::Null => lemma_decode_null(s, p, end, depth),
        Frame::Simple(_) => lemma_decode_text(s, p, f, end, depth),
        Frame::Error(_) => lemma_decode_text(s, p, f, end, depth),
        _ => lemma_decode_number(s, p, f, end, depth),
    }
}

/// The wire forms of well-formed values, one after another, decode to those values.
pub proof fn lemma_decode_encoded_all(s: Seq<u8>, p: int, a: Seq<Frame>, end: bool, depth: nat)
    requires
        forall|i: int| 0 <= i < a.len() ==> fits(#[trigger] a[i], depth),
        0 <= p,
        p + encode_all(a).len() <= s.len(),
        s.subrange(p, p + encode_all(a).len()) == encode_all(a),
    ensures
        decode_elems(s, p, a.len(), end, depth) == Ok::<(Seq<Frame>, int), (DecodeError, int)>((a, p + encode_all(a).len())),
    decreases a,
{
    if a.len() == 0 {
        assert(a =~= Seq::<Frame>::empty());
    } else {
        let ea = encode_all(a);
        let f = a[0];
        let t = a.subrange(1, a.len() as int);
        let e0 = encode(f);
        let et = encode_all(t);
        lemma_at(s, p, ea);
        assert(s.subrange(p, p + e0.len()) =~= e0) by {
            assert forall|k: int| 0 <= k < e0.len() implies s.subrange(p, p + e0.len())[k] == e0[k] by {
                assert(ea[k] == e0[k]);
            }
        }
        lemma_decode_encoded(s, p, f, end, depth);
        let q = p + e0.len();
        assert(s.subrange(q, q + et.len()) =~= et) by {
            assert forall|k: int| 0 <= k < et.len() implies s.subrange(q, q + et.len())[k] == et[k] by {
                assert(ea[e0.len() as int + k] == et[k]);
            }
        }
        assert forall|i: int| 0 <= i < t.len() implies fits(#[trigger] t[i], depth) by {
            assert(t[i] == a[i + 1]);
        }
        lemma_decode_encoded_all(s, q, t, end, depth);
        assert(e0.len() > 0);
        assert(seq![f] + t =~= a);
    }
}

/// Decoding the wire form of a well-formed value gives back the value, and
/// consumes exactly the wire form.
pub proof fn lemma_round_trip(v: RespValue, end: bool)
    requires
        well_formed(v.view()),
    ensures
        decode_at(encode(v.view()), 0, end) == Ok::<Option<(Frame, int)>, (DecodeError, int)>(
            Some((v.view(), encode(v.view()).len() as int)),
        ),
{
    let e = encode(v.view());
    assert(e.subrange(0, e.len() as int) =~= e);
    lemma_decode_encoded(e, 0, v.view(), end, 0);
}

pub(crate) fn copy_all(v: &Vec<u8>) -> (r: Vec<u8>)
    ensures
        r@ == v@,
{
    let r = copy_range(v.as_slice(), 0, v.len());
    assert(v@.subrange(0, v@.len() as int) =~= v@);
    r
}

fn same_bytes(a: &Vec<u8>, b: &Vec<u8>) -> (r: bool)
    ensures
        r == (a@ == b@),
{
    if a.len() != b.len() {
        return false;
    }
    let mut i: usize = 0;
    while i < a.len()
        invariant
            a@.len() == b@.len(),
            i <= a@.len(),
            forall|j: int| 0 <= j < i ==> a@[j] == b@[j],
        decreases a@.len() - i,
    {
        if a[i] != b[i] {
            return false;
        }
        i = i + 1;
    }
    assert(a@ =~= b@);
    true
}

impl RespValue {
    /// A copy of this value.
    pub fn duplicate(&self) -> (r: RespValue)
        ensures
            r.view() == self.view(),
        decreases self,
    {
        match self {
            RespValue::SimpleString(t) => RespValue::SimpleString(copy_all(t)),
            RespValue::Error(t) => RespValue::Error(copy_all(t)),
            RespValue::Integer(n) => RespValue::Integer(*n),
            RespValue::BulkString(b) => RespValue::BulkString(copy_all(b)),
            RespValue::Array(a) => {
                let mut items: Vec<RespValue> = Vec::new();
                let mut i: usize = 0;
                proof {
                    assert(view_all(items@) =~= view_all(a@.subrange(0, 0)));
                }
                while i < a.len()
                    invariant
                        *self == RespValue::Array(*a),
                        i <= a@.len(),
                        view_all(items@) == view_all(a@.subrange(0, i as int)),
                    decreases a@.len() - i,
                {
                    assert(decreases_to!(*self => self->Array_0));
                    let v = a[i].duplicate();
                    proof {
                        lemma_view_all_push(items@, v);
                        lemma_view_all_push(a@.subrange(0, i as int), a@[i as int]);
                        assert(a@.subrange(0, i as int).push(a@[i as int]) =~= a@.subrange(0, i + 1));
                    }
                    items.push(v);
                    i = i + 1;
                }
                assert(a@.subrange(0, i as int) =~= a@);
                RespValue::Array(items)
            },
            RespValue::Null => RespValue::Null,
        }
    }

    /// Whether two values are the same value.
    pub fn same_as(&self, o: &RespValue) -> (r: bool)
        ensures
            r == (self.view() == o.view()),
        decreases self,
    {
        match (self, o) {
            (RespValue::SimpleString(a), RespValue::SimpleString(b)) => same_bytes(a, b),
            (RespValue::Error(a), RespValue::Error(b)) => same_bytes(a, b),
            (RespValue::Integer(a), RespValue::Integer(b)) => *a == *b,
            (RespValue::BulkString(a), RespValue::BulkString(b)) => same_bytes(a, b),
            (RespValue::Null, RespValue::Null) => true,
            (RespValue::Array(a), RespValue::Array(b)) => {
                proof {
                    lemma_view_all_index(a@);
                    lemma_view_all_index(b@);
                }
                if a.len() != b.len() {
                    return false;
                }
                let mut i: usize = 0;
                while i < a.len()
                    invariant
                        *self == RespValue::Array(*a),
                        *o == RespValue::Array(*b),
                        a@.len() == b@.len(),
                        i <= a@.len(),
                        view_all(a@).len() == a@.len(),
                        view_all(b@).len() == b@.len(),
                        forall|j: int| 0 <= j < a@.len() ==> #[trigger] view_all(a@)[j] == a@[j].view(),
                        forall|j: int| 0 <= j < b@.len() ==> #[trigger] view_all(b@)[j] == b@[j].view(),
                        forall|j: int| 0 <= j < i ==> #[trigger] a@[j].view() == b@[j].view(),
                    decreases a@.len() - i,
                {
                    assert(decreases_to!(*self => self->Array_0));
                    if !a[i].same_as(&b[i]) {
                        assert(view_all(a@)[i as int] != view_all(b@)[i as int]);
                        return false;
                    }
                    i = i + 1;
                }
                assert(view_all(a@) =~= view_all(b@));
                true
            },
            _ => false,
        }
    }
}

impl Clone for RespValue {
    fn clone(&self) -> Self {
        self.duplicate()
    }
}

impl PartialEq for RespValue {
    fn eq(&self, o: &RespValue) -> (r: bool) {
        self.same_as(o)
    }
}

impl vstd::std_specs::cmp::PartialEqSpecImpl for RespValue {
    open spec fn obeys_eq_spec() -> bool {
        true
    }

    open spec fn eq_spec(&self, o: &RespValue) -> bool {
        self.view() == o.view()
    }
}

} // verus!
