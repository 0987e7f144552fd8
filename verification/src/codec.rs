//! OSC wire codec.
//!
//! Encodes an outbound parameter vector as a single OSC message and decodes
//! inbound datagrams. Float-valued arguments are carried as their IEEE 754
//! bit patterns (`u32` / `u64`), so the codec works entirely in integer
//! arithmetic; reinterpreting the bits is left to the caller at the
//! display or socket edge.
//!
//! Wire layout of a message: the address path as an OSC string (its bytes,
//! then one to four null bytes up to a four-byte boundary), the type tag
//! string (a comma, one tag byte per argument, padded the same way), then
//! each argument's payload, four-byte aligned. A packet whose first byte is
//! `#` is a bundle; bundles are recognized by their header and reported as
//! such, never decoded into a message.

use vstd::prelude::*;

verus! {

/// One decoded OSC argument. `Float` and `Double` carry bit patterns.
#[derive(Debug, Clone, PartialEq)]
pub enum OscArg {
    /// Tag `i`: 32-bit signed integer.
    Int(i32),
    /// Tag `f`: 32-bit float, as its bit pattern.
    Float(u32),
    /// Tag `s`: OSC string, the bytes before its terminating null.
    Str(Vec<u8>),
    /// Tag `b`: blob contents.
    Blob(Vec<u8>),
    /// Tag `h`: 64-bit signed integer.
    Long(i64),
    /// Tag `t`: OSC time tag.
    Time(u64),
    /// Tag `d`: 64-bit float, as its bit pattern.
    Double(u64),
    /// Tag `c`: 32-bit character code.
    Char(u32),
    /// Tag `r`: 32-bit RGBA color.
    Color(u32),
    /// Tag `m`: 4-byte MIDI message, packed big-endian.
    Midi(u32),
    /// Tags `T` and `F`: argument-less booleans.
    Bool(bool),
    /// Tag `N`: nil, no payload.
    Nil,
    /// Tag `I`: infinitum, no payload.
    Inf,
}

/// Ghost image of an [`OscArg`]: `Vec` fields become `Seq`.
#[verifier::ext_equal]
pub enum ArgV {
    Int(i32),
    Float(u32),
    Str(Seq<u8>),
    Blob(Seq<u8>),
    Long(i64),
    Time(u64),
    Double(u64),
    Char(u32),
    Color(u32),
    Midi(u32),
    Bool(bool),
    Nil,
    Inf,
}

impl View for OscArg {
    type V = ArgV;

    open spec fn view(&self) -> ArgV {
        match self {
            OscArg::Int(x) => ArgV::Int(*x),
            OscArg::Float(x) => ArgV::Float(*x),
            OscArg::Str(s) => ArgV::Str(s@),
            OscArg::Blob(b) => ArgV::Blob(b@),
            OscArg::Long(x) => ArgV::Long(*x),
            OscArg::Time(x) => ArgV::Time(*x),
            OscArg::Double(x) => ArgV::Double(*x),
            OscArg::Char(x) => ArgV::Char(*x),
            OscArg::Color(x) => ArgV::Color(*x),
            OscArg::Midi(x) => ArgV::Midi(*x),
            OscArg::Bool(x) => ArgV::Bool(*x),
            OscArg::Nil => ArgV::Nil,
            OscArg::Inf => ArgV::Inf,
        }
    }
}

/// The ghost image of a sequence of arguments.
pub open spec fn args_view(s: Seq<OscArg>) -> Seq<ArgV> {
    s.map_values(|a: OscArg| a@)
}

/// A decoded inbound message: address path and arguments, in wire order.
#[derive(Debug, Clone, PartialEq)]
pub struct OscMsg {
    pub addr: Vec<u8>,
    pub args: Vec<OscArg>,
}

/// Ghost image of an [`OscMsg`].
#[verifier::ext_equal]
pub struct MsgV {
    pub addr: Seq<u8>,
    pub args: Seq<ArgV>,
}

impl View for OscMsg {
    type V = MsgV;

    open spec fn view(&self) -> MsgV {
        MsgV { addr: self.addr@, args: args_view(self.args@) }
    }
}

/// What a datagram decodes to: a single message, or a bundle (recognized
/// and discarded, never flattened).
#[derive(Debug, Clone, PartialEq)]
pub enum Packet {
    Message(OscMsg),
    Bundle,
}

/// A malformed or unsupported datagram.
#[derive(Debug, Clone, PartialEq, Eq, Structural)]
pub struct DecodeError;

/// The one way encoding fails: a path that is empty, does not start with
/// `/`, or contains a null byte cannot form an OSC address string.
#[derive(Debug, Clone, PartialEq, Eq, Structural)]
pub struct InvalidPath;

/// Ghost result of parsing a whole datagram.
#[verifier::ext_equal]
pub enum ParseResult {
    Msg(MsgV),
    Bundle,
    Fail,
}

/// A sequence of `n` null bytes.
pub open spec fn zeros(n: nat) -> Seq<u8> {
    Seq::new(n, |i: int| 0u8)
}

/// Padding after a string body of `n` bytes: at least one null byte, up to
/// the next four-byte boundary.
pub open spec fn str_pad(n: nat) -> nat {
    (4 - n % 4) as nat
}

/// Padding after a blob body of `n` bytes: zero to three null bytes, up to
/// the next four-byte boundary.
pub open spec fn blob_pad(n: nat) -> nat {
    ((4 - n % 4) % 4) as nat
}

/// An OSC string on the wire: the body followed by its null padding.
pub open spec fn spec_str_bytes(s: Seq<u8>) -> Seq<u8> {
    s + zeros(str_pad(s.len()))
}

/// A string body may not contain a null byte.
pub open spec fn valid_str(s: Seq<u8>) -> bool {
    forall|i: int| 0 <= i < s.len() ==> s[i] != 0u8
}

/// A usable address path: nonempty, starts with `/` (47), free of nulls.
pub open spec fn valid_path(p: Seq<u8>) -> bool {
    p.len() > 0 && p[0] == 47u8 && valid_str(p)
}

/// Big-endian bytes of a `u32`.
pub open spec fn spec_u32_to_be(x: u32) -> Seq<u8> {
    seq![
        ((x >> 24) & 0xff) as u8,
        ((x >> 16) & 0xff) as u8,
        ((x >> 8) & 0xff) as u8,
        (x & 0xff) as u8,
    ]
}

/// The `u32` read from four big-endian bytes.
pub open spec fn spec_u32_from_be(s: Seq<u8>) -> u32
    recommends
        s.len() == 4,
{
    ((s[0] as u32) << 24) | ((s[1] as u32) << 16) | ((s[2] as u32) << 8) | (s[3] as u32)
}

/// The `u64` read from eight big-endian bytes.
pub open spec fn spec_u64_from_be(s: Seq<u8>) -> u64
    recommends
        s.len() == 8,
{
    ((s[0] as u64) << 56) | ((s[1] as u64) << 48) | ((s[2] as u64) << 40) | ((s[3] as u64) << 32)
        | ((s[4] as u64) << 24) | ((s[5] as u64) << 16) | ((s[6] as u64) << 8) | (s[7] as u64)
}

/// Type tag string body for `n` float arguments: a comma then `n` times `f`.
pub open spec fn float_tags(n: nat) -> Seq<u8> {
    seq![44u8] + Seq::new(n, |i: int| 102u8)
}

/// Argument payload of an all-float message: each value's big-endian bytes.
pub open spec fn float_payload(vals: Seq<u32>) -> Seq<u8>
    decreases vals.len(),
{
    if vals.len() == 0 {
        Seq::<u8>::empty()
    } else {
        spec_u32_to_be(vals[0]) + float_payload(vals.drop_first())
    }
}

/// The encoded form of an outbound message: path `P` with float bit
/// patterns `vals` as its arguments.
pub open spec fn spec_encode_msg(path: Seq<u8>, vals: Seq<u32>) -> Seq<u8> {
    spec_str_bytes(path) + spec_str_bytes(float_tags(vals.len())) + float_payload(vals)
}

/// Index of the first null byte at or after `i`; `s.len()` if there is none.
pub open spec fn first_null(s: Seq<u8>, i: int) -> int
    decreases s.len() - i,
    when 0 <= i <= s.len()
{
    if i >= s.len() {
        s.len() as int
    } else if s[i] == 0u8 {
        i
    } else {
        first_null(s, i + 1)
    }
}

/// Parse an OSC string whose body starts at `i`: the bytes before the first
/// null, and the offset just past the padding. Padding byte values are not
/// inspected; a missing terminator or missing padding fails.
pub open spec fn spec_parse_str(buf: Seq<u8>, i: int) -> Option<(Seq<u8>, int)>
    recommends
        0 <= i <= buf.len(),
{
    let e = first_null(buf, i);
    if e == buf.len() {
        None
    } else {
        let n = (e - i) as nat;
        if e + str_pad(n) <= buf.len() {
            Some((buf.subrange(i, e), e + str_pad(n)))
        } else {
            None
        }
    }
}

/// Parse one argument with type tag `tag`, its payload starting at `i`.
/// An unrecognized tag fails.
pub open spec fn spec_parse_arg(buf: Seq<u8>, i: int, tag: u8) -> Option<(ArgV, int)>
    recommends
        0 <= i <= buf.len(),
{
    if tag == 105u8 {  // 'i'
        if i + 4 <= buf.len() {
            Some((ArgV::Int(spec_u32_from_be(buf.subrange(i, i + 4)) as i32), i + 4))
        } else {
            None
        }
    } else if tag == 102u8 {  // 'f'
        if i + 4 <= buf.len() {
            Some((ArgV::Float(spec_u32_from_be(buf.subrange(i, i + 4))), i + 4))
        } else {
            None
        }
    } else if tag == 115u8 {  // 's'
        match spec_parse_str(buf, i) {
            Some((s, j)) => Some((ArgV::Str(s), j)),
            None => None,
        }
    } else if tag == 98u8 {  // 'b'
        if i + 4 <= buf.len() {
            let n = spec_u32_from_be(buf.subrange(i, i + 4)) as int;
            if i + 4 + n + blob_pad(n as nat) <= buf.len() {
                Some((ArgV::Blob(buf.subrange(i + 4, i + 4 + n)), i + 4 + n + blob_pad(n as nat)))
            } else {
                None
            }
        } else {
            None
        }
    } else if tag == 104u8 {  // 'h'
        if i + 8 <= buf.len() {
            Some((ArgV::Long(spec_u64_from_be(buf.subrange(i, i + 8)) as i64), i + 8))
        } else {
            None
        }
    } else if tag == 116u8 {  // 't'
        if i + 8 <= buf.len() {
            Some((ArgV::Time(spec_u64_from_be(buf.subrange(i, i + 8))), i + 8))
        } else {
            None
        }
    } else if tag == 100u8 {  // 'd'
        if i + 8 <= buf.len() {
            Some((ArgV::Double(spec_u64_from_be(buf.subrange(i, i + 8))), i + 8))
        } else {
            None
        }
    } else if tag == 99u8 {  // 'c'
        if i + 4 <= buf.len() {
            Some((ArgV::Char(spec_u32_from_be(buf.subrange(i, i + 4))), i + 4))
        } else {
            None
        }
    } else if tag == 114u8 {  // 'r'
        if i + 4 <= buf.len() {
            Some((ArgV::Color(spec_u32_from_be(buf.subrange(i, i + 4))), i + 4))
        } else {
            None
        }
    } else if tag == 109u8 {  // 'm'
        if i + 4 <= buf.len() {
            Some((ArgV::Midi(spec_u32_from_be(buf.subrange(i, i + 4))), i + 4))
        } else {
            None
        }
    } else if tag == 84u8 {  // 'T'
        Some((ArgV::Bool(true), i))
    } else if tag == 70u8 {  // 'F'
        Some((ArgV::Bool(false), i))
    } else if tag == 78u8 {  // 'N'
        Some((ArgV::Nil, i))
    } else if tag == 73u8 {  // 'I'
        Some((ArgV::Inf, i))
    } else {
        None
    }
}

/// Parse the arguments for a tag sequence, payloads starting at `i`.
pub open spec fn spec_parse_args(buf: Seq<u8>, i: int, tags: Seq<u8>) -> Option<(Seq<ArgV>, int)>
    decreases tags.len(),
{
    if tags.len() == 0 {
        Some((Seq::<ArgV>::empty(), i))
    } else {
        match spec_parse_arg(buf, i, tags[0]) {
            Some((a, j)) => match spec_parse_args(buf, j, tags.drop_first()) {
                Some((rest, k)) => Some((seq![a] + rest, k)),
                None => None,
            },
            None => None,
        }
    }
}

/// The eight header bytes of a bundle: `#bundle` and a null.
pub open spec fn bundle_header() -> Seq<u8> {
    seq![35u8, 98u8, 117u8, 110u8, 100u8, 108u8, 101u8, 0u8]
}

/// What a whole datagram decodes to. A packet starting with `#` must carry
/// the bundle header and a time tag; its contents are not examined, since
/// bundles are discarded. Anything else must be a complete message with no
/// trailing bytes.
pub open spec fn spec_decode(buf: Seq<u8>) -> ParseResult {
    if buf.len() == 0 {
        ParseResult::Fail
    } else if buf[0] == 35u8 {  // '#'
        if buf.len() >= 16 && buf.subrange(0, 8) == bundle_header() {
            ParseResult::Bundle
        } else {
            ParseResult::Fail
        }
    } else {
        match spec_parse_str(buf, 0) {
            Some((addr, t)) => {
                if addr.len() == 0 || addr[0] != 47u8 {
                    ParseResult::Fail
                } else {
                    match spec_parse_str(buf, t) {
                        Some((tagstr, a0)) => {
                            if tagstr.len() == 0 || tagstr[0] != 44u8 {
                                ParseResult::Fail
                            } else {
                                match spec_parse_args(buf, a0, tagstr.drop_first()) {
                                    Some((args, end)) => {
                                        if end == buf.len() {
                                            ParseResult::Msg(MsgV { addr, args })
                                        } else {
                                            ParseResult::Fail
                                        }
                                    },
                                    None => ParseResult::Fail,
                                }
                            }
                        },
                        None => ParseResult::Fail,
                    }
                }
            },
            None => ParseResult::Fail,
        }
    }
}

/// Index of the first null byte at or after `i`, or the buffer length.
fn find_null(buf: &Vec<u8>, i: usize) -> (r: usize)
    requires
        i <= buf.len(),
    ensures
        r as int == first_null(buf@, i as int),
        i <= r <= buf.len(),
{
    let mut k = i;
    while k < buf.len()
        invariant
            i <= k <= buf.len(),
            first_null(buf@, i as int) == first_null(buf@, k as int),
        decreases buf@.len() - k,
    {
        if buf[k] == 0 {
            return k;
        }
        k = k + 1;
    }
    k
}

/// Read an OSC string whose body starts at `i`.
fn parse_str(buf: &Vec<u8>, i: usize) -> (r: Option<(Vec<u8>, usize)>)
    requires
        i <= buf.len(),
    ensures
        match r {
            Some((s, next)) => {
                &&& spec_parse_str(buf@, i as int) == Some((s@, next as int))
                &&& i <= next <= buf.len()
            },
            None => spec_parse_str(buf@, i as int) is None,
        },
{
    let e = find_null(buf, i);
    if e == buf.len() {
        return None;
    }
    let n = e - i;
    let pad = 4 - n % 4;
    if buf.len() - e < pad {
        return None;
    }
    let next = e + pad;
    let mut s: Vec<u8> = Vec::new();
    let mut k = i;
    while k < e
        invariant
            i <= k <= e < buf.len(),
            s@ == buf@.subrange(i as int, k as int),
        decreases e - k,
    {
        s.push(buf[k]);
        proof {
            assert(s@ =~= buf@.subrange(i as int, k as int + 1));
        }
        k = k + 1;
    }
    Some((s, next))
}

/// Read four big-endian bytes starting at `i`.
fn read_u32_be(buf: &Vec<u8>, i: usize) -> (x: u32)
    requires
        i + 4 <= buf.len(),
    ensures
        x == spec_u32_from_be(buf@.subrange(i as int, i as int + 4)),
{
    let b0 = buf[i] as u32;
    let b1 = buf[i + 1] as u32;
    let b2 = buf[i + 2] as u32;
    let b3 = buf[i + 3] as u32;
    (b0 << 24) | (b1 << 16) | (b2 << 8) | b3
}

/// Read eight big-endian bytes starting at `i`.
fn read_u64_be(buf: &Vec<u8>, i: usize) -> (x: u64)
    requires
        i + 8 <= buf.len(),
    ensures
        x == spec_u64_from_be(buf@.subrange(i as int, i as int + 8)),
{
    let b0 = buf[i] as u64;
    let b1 = buf[i + 1] as u64;
    let b2 = buf[i + 2] as u64;
    let b3 = buf[i + 3] as u64;
    let b4 = buf[i + 4] as u64;
    let b5 = buf[i + 5] as u64;
    let b6 = buf[i + 6] as u64;
    let b7 = buf[i + 7] as u64;
    (b0 << 56) | (b1 << 48) | (b2 << 40) | (b3 << 32) | (b4 << 24) | (b5 << 16) | (b6 << 8) | b7
}

/// Read one argument with type tag `tag`, its payload starting at `i`.
fn parse_arg(buf: &Vec<u8>, i: usize, tag: u8) -> (r: Option<(OscArg, usize)>)
    requires
        i <= buf.len(),
    ensures
        match r {
            Some((a, j)) => {
                &&& spec_parse_arg(buf@, i as int, tag) == Some((a@, j as int))
                &&& i <= j <= buf.len()
            },
            None => spec_parse_arg(buf@, i as int, tag) is None,
        },
{
    let remaining = buf.len() - i;
    if tag == 105u8 {  // 'i'
        if remaining >= 4 {
            Some((OscArg::Int(#[verifier::truncate] (read_u32_be(buf, i) as i32)), i + 4))
        } else {
            None
        }
    } else if tag == 102u8 {  // 'f'
        if remaining >= 4 {
            Some((OscArg::Float(read_u32_be(buf, i)), i + 4))
        } else {
            None
        }
    } else if tag == 115u8 {  // 's'
        match parse_str(buf, i) {
            Some((s, j)) => Some((OscArg::Str(s), j)),
            None => None,
        }
    } else if tag == 98u8 {  // 'b'
        if remaining >= 4 {
            let n = read_u32_be(buf, i) as usize;
            let after_len = buf.len() - (i + 4);
            if n > after_len {
                return None;
            }
            let pad = (4 - n % 4) % 4;
            if pad > after_len - n {
                return None;
            }
            let mut data: Vec<u8> = Vec::new();
            let mut k = i + 4;
            while k < i + 4 + n
                invariant
                    i + 4 <= k <= i + 4 + n <= buf.len(),
                    data@ == buf@.subrange(i as int + 4, k as int),
                decreases i + 4 + n - k,
            {
                data.push(buf[k]);
                proof {
                    assert(data@ =~= buf@.subrange(i as int + 4, k as int + 1));
                }
                k = k + 1;
            }
            Some((OscArg::Blob(data), i + 4 + n + pad))
        } else {
            None
        }
    } else if tag == 104u8 {  // 'h'
        if remaining >= 8 {
            Some((OscArg::Long(#[verifier::truncate] (read_u64_be(buf, i) as i64)), i + 8))
        } else {
            None
        }
    } else if tag == 116u8 {  // 't'
        if remaining >= 8 {
            Some((OscArg::Time(read_u64_be(buf, i)), i + 8))
        } else {
            None
        }
    } else if tag == 100u8 {  // 'd'
        if remaining >= 8 {
            Some((OscArg::Double(read_u64_be(buf, i)), i + 8))
        } else {
            None
        }
    } else if tag == 99u8 {  // 'c'
        if remaining >= 4 {
            Some((OscArg::Char(read_u32_be(buf, i)), i + 4))
        } else {
            None
        }
    } else if tag == 114u8 {  // 'r'
        if remaining >= 4 {
            Some((OscArg::Color(read_u32_be(buf, i)), i + 4))
        } else {
            None
        }
    } else if tag == 109u8 {  // 'm'
        if remaining >= 4 {
            Some((OscArg::Midi(read_u32_be(buf, i)), i + 4))
        } else {
            None
        }
    } else if tag == 84u8 {  // 'T'
        Some((OscArg::Bool(true), i))
    } else if tag == 70u8 {  // 'F'
        Some((OscArg::Bool(false), i))
    } else if tag == 78u8 {  // 'N'
        Some((OscArg::Nil, i))
    } else if tag == 73u8 {  // 'I'
        Some((OscArg::Inf, i))
    } else {
        None
    }
}

/// Read the arguments for the tag bytes from index `j` on.
fn parse_args(buf: &Vec<u8>, i: usize, tags: &Vec<u8>, j: usize) -> (r: Option<(Vec<OscArg>, usize)>)
    requires
        i <= buf.len(),
        j <= tags.len(),
    ensures
        match r {
            Some((args, end)) => {
                &&& spec_parse_args(buf@, i as int, tags@.skip(j as int))
                    == Some((args_view(args@), end as int))
                &&& end <= buf.len()
            },
            None => spec_parse_args(buf@, i as int, tags@.skip(j as int)) is None,
        },
    decreases tags@.len() - j,
{
    if j == tags.len() {
        proof {
            assert(tags@.skip(j as int) =~= Seq::<u8>::empty());
            assert(args_view(Seq::<OscArg>::empty()) =~= Seq::<ArgV>::empty());
        }
        return Some((Vec::new(), i));
    }
    proof {
        assert(tags@.skip(j as int)[0] == tags@[j as int]);
        assert(tags@.skip(j as int).drop_first() =~= tags@.skip(j as int + 1));
    }
    match parse_arg(buf, i, tags[j]) {
        None => None,
        Some((a, k)) => match parse_args(buf, k, tags, j + 1) {
            None => None,
            Some((rest, end)) => {
                let ghost prev = rest@;
                let mut rest = rest;
                rest.insert(0, a);
                proof {
                    assert(args_view(rest@) =~= seq![a@] + args_view(prev));
                }
                Some((rest, end))
            },
        },
    }
}

/// Decode one datagram. Returns the message it carries, reports a bundle
/// as [`Packet::Bundle`] without decoding its contents, and rejects
/// anything malformed, truncated, or carrying an unknown type tag. Decoding
/// never panics, so a corrupt datagram cannot take the receiver down.
pub fn decode(buf: &Vec<u8>) -> (r: Result<Packet, DecodeError>)
    ensures
        match r {
            Ok(Packet::Message(m)) => spec_decode(buf@) == ParseResult::Msg(m@),
            Ok(Packet::Bundle) => spec_decode(buf@) == ParseResult::Bundle,
            Err(_) => spec_decode(buf@) == ParseResult::Fail,
        },
{
    if buf.len() == 0 {
        return Err(DecodeError);
    }
    if buf[0] == 35u8 {  // '#'
        if buf.len() >= 16 && buf[1] == 98u8 && buf[2] == 117u8 && buf[3] == 110u8
            && buf[4] == 100u8 && buf[5] == 108u8 && buf[6] == 101u8 && buf[7] == 0u8 {
            proof {
                assert(buf@.subrange(0, 8) =~= bundle_header());
            }
            return Ok(Packet::Bundle);
        } else {
            proof {
                if buf@.len() >= 16 && buf@.subrange(0, 8) == bundle_header() {
                    assert(buf@[1] == buf@.subrange(0, 8)[1]);
                    assert(buf@[2] == buf@.subrange(0, 8)[2]);
                    assert(buf@[3] == buf@.subrange(0, 8)[3]);
                    assert(buf@[4] == buf@.subrange(0, 8)[4]);
                    assert(buf@[5] == buf@.subrange(0, 8)[5]);
                    assert(buf@[6] == buf@.subrange(0, 8)[6]);
                    assert(buf@[7] == buf@.subrange(0, 8)[7]);
                }
            }
            return Err(DecodeError);
        }
    }
    let (addr, t) = match parse_str(buf, 0) {
        Some(p) => p,
        None => {
            return Err(DecodeError);
        },
    };
    if addr.len() == 0 || addr[0] != 47u8 {
        return Err(DecodeError);
    }
    let (tagstr, a0) = match parse_str(buf, t) {
        Some(p) => p,
        None => {
            return Err(DecodeError);
        },
    };
    if tagstr.len() == 0 || tagstr[0] != 44u8 {
        return Err(DecodeError);
    }
    let (args, end) = match parse_args(buf, a0, &tagstr, 1) {
        Some(p) => p,
        None => {
            proof {
                assert(tagstr@.skip(1) =~= tagstr@.drop_first());
            }
            return Err(DecodeError);
        },
    };
    proof {
        assert(tagstr@.skip(1) =~= tagstr@.drop_first());
    }
    if end != buf.len() {
        return Err(DecodeError);
    }
    let m = OscMsg { addr, args };
    proof {
        assert(spec_decode(buf@) =~= ParseResult::Msg(m@));
    }
    Ok(Packet::Message(m))
}

/// Appending one value extends the payload by that value's bytes.
proof fn lemma_float_payload_snoc(s: Seq<u32>, v: u32)
    ensures
        float_payload(s.push(v)) == float_payload(s) + spec_u32_to_be(v),
    decreases s.len(),
{
    if s.len() == 0 {
        assert(s.push(v).drop_first() =~= Seq::<u32>::empty());
        assert(s.push(v)[0] == v);
        assert(float_payload(Seq::<u32>::empty()) == Seq::<u8>::empty());
        assert(float_payload(s.push(v)) == spec_u32_to_be(v) + float_payload(
            Seq::<u32>::empty(),
        ));
        assert(float_payload(s) == Seq::<u8>::empty());
        assert(float_payload(s.push(v)) =~= float_payload(s) + spec_u32_to_be(v));
    } else {
        assert(s.push(v).drop_first() =~= s.drop_first().push(v));
        lemma_float_payload_snoc(s.drop_first(), v);
        assert(s.push(v)[0] == s[0]);
        assert(float_payload(s.push(v)) == spec_u32_to_be(s[0]) + float_payload(
            s.drop_first().push(v),
        ));
        assert(float_payload(s.push(v)) =~= float_payload(s) + spec_u32_to_be(v));
    }
}

/// Whether `path` can serve as an OSC address string.
pub fn path_is_valid(path: &Vec<u8>) -> (r: bool)
    ensures
        r == valid_path(path@),
{
    if path.len() == 0 {
        return false;
    }
    if path[0] != 47u8 {
        return false;
    }
    let mut k: usize = 0;
    while k < path.len()
        invariant
            k <= path.len(),
            path@.len() > 0 && path@[0] == 47u8,
            forall|i: int| 0 <= i < k ==> path@[i] != 0u8,
        decreases path@.len() - k,
    {
        if path[k] == 0u8 {
            return false;
        }
        k = k + 1;
    }
    true
}

/// Encode an outbound message: address `path`, one 32-bit float argument
/// per entry of `vals`, each given as its bit pattern. Succeeds exactly
/// when the path can form an OSC address string.
pub fn encode_message(path: &Vec<u8>, vals: &Vec<u32>) -> (r: Result<Vec<u8>, InvalidPath>)
    ensures
        match r {
            Ok(buf) => valid_path(path@) && buf@ == spec_encode_msg(path@, vals@),
            Err(_) => !valid_path(path@),
        },
{
    if !path_is_valid(path) {
        return Err(InvalidPath);
    }
    let mut out: Vec<u8> = Vec::new();
    let mut k: usize = 0;
    while k < path.len()
        invariant
            k <= path.len(),
            out@ == path@.subrange(0, k as int),
        decreases path@.len() - k,
    {
        out.push(path[k]);
        proof {
            assert(out@ =~= path@.subrange(0, k as int + 1));
        }
        k = k + 1;
    }
    proof {
        assert(out@ =~= path@);
    }
    let pad1 = 4 - path.len() % 4;
    let mut j: usize = 0;
    while j < pad1
        invariant
            j <= pad1,
            pad1 == str_pad(path@.len()),
            out@ == path@ + zeros(j as nat),
        decreases pad1 - j,
    {
        out.push(0u8);
        proof {
            assert(out@ =~= path@ + zeros(j as nat + 1));
        }
        j = j + 1;
    }
    let ghost seg_a = spec_str_bytes(path@);
    proof {
        assert(out@ =~= seg_a);
    }
    out.push(44u8);
    proof {
        assert(out@ =~= seg_a + seq![44u8] + Seq::new(0, |i: int| 102u8));
    }
    let mut k2: usize = 0;
    while k2 < vals.len()
        invariant
            k2 <= vals.len(),
            out@ == seg_a + seq![44u8] + Seq::new(k2 as nat, |i: int| 102u8),
        decreases vals@.len() - k2,
    {
        out.push(102u8);
        proof {
            assert(out@ =~= seg_a + seq![44u8] + Seq::new(k2 as nat + 1, |i: int| 102u8));
        }
        k2 = k2 + 1;
    }
    proof {
        assert(out@ =~= seg_a + float_tags(vals@.len()));
    }
    let pad2 = 4 - (vals.len() % 4 + 1) % 4;
    proof {
        vstd::arithmetic::div_mod::lemma_add_mod_noop(1, vals@.len() as int, 4);
        assert(pad2 == str_pad(float_tags(vals@.len()).len()));
    }
    let mut j2: usize = 0;
    while j2 < pad2
        invariant
            j2 <= pad2,
            pad2 == str_pad(float_tags(vals@.len()).len()),
            out@ == seg_a + float_tags(vals@.len()) + zeros(j2 as nat),
        decreases pad2 - j2,
    {
        out.push(0u8);
        proof {
            assert(out@ =~= seg_a + float_tags(vals@.len()) + zeros(j2 as nat + 1));
        }
        j2 = j2 + 1;
    }
    let ghost seg_b = spec_str_bytes(float_tags(vals@.len()));
    proof {
        assert(out@ =~= seg_a + seg_b);
        assert(float_payload(vals@.take(0)) =~= Seq::<u8>::empty());
        assert(out@ =~= seg_a + seg_b + float_payload(vals@.take(0)));
    }
    let mut k3: usize = 0;
    while k3 < vals.len()
        invariant
            k3 <= vals.len(),
            out@ == seg_a + seg_b + float_payload(vals@.take(k3 as int)),
        decreases vals@.len() - k3,
    {
        let v = vals[k3];
        out.push(((v >> 24) & 0xff) as u8);
        out.push(((v >> 16) & 0xff) as u8);
        out.push(((v >> 8) & 0xff) as u8);
        out.push((v & 0xff) as u8);
        proof {
            lemma_float_payload_snoc(vals@.take(k3 as int), v);
            assert(vals@.take(k3 as int).push(v) =~= vals@.take(k3 as int + 1));
            assert(out@ =~= seg_a + seg_b + float_payload(vals@.take(k3 as int + 1)));
        }
        k3 = k3 + 1;
    }
    proof {
        assert(vals@.take(vals@.len() as int) =~= vals@);
        assert(out@ =~= spec_encode_msg(path@, vals@));
    }
    Ok(out)
}

/// Between `i` and `e` no byte is null and `s[e]` is, so `e` is the first.
proof fn lemma_first_null_at(s: Seq<u8>, i: int, e: int)
    requires
        0 <= i <= e < s.len(),
        s[e] == 0u8,
        forall|k: int| i <= k < e ==> s[k] != 0u8,
    ensures
        first_null(s, i) == e,
    decreases e - i,
{
    if i < e {
        lemma_first_null_at(s, i + 1, e);
    }
}

/// The payload of `n` floats takes `4 * n` bytes.
proof fn lemma_float_payload_len(vals: Seq<u32>)
    ensures
        float_payload(vals).len() == 4 * vals.len(),
    decreases vals.len(),
{
    if vals.len() > 0 {
        lemma_float_payload_len(vals.drop_first());
    }
}

/// Reading back the big-endian bytes of a `u32` gives the value.
proof fn lemma_u32_be_round(x: u32)
    ensures
        spec_u32_from_be(spec_u32_to_be(x)) == x,
{
    assert((((((x >> 24) & 0xff) as u8) as u32) << 24) | (((((x >> 16) & 0xff) as u8) as u32)
        << 16) | (((((x >> 8) & 0xff) as u8) as u32) << 8) | (((x & 0xff) as u8) as u32) == x)
        by (bit_vector);
}

/// A buffer that holds a null-free body at `i` followed by a null parses
/// back to exactly that body.
proof fn lemma_parse_str_at(buf: Seq<u8>, i: int, body: Seq<u8>)
    requires
        0 <= i,
        i + body.len() < buf.len(),
        valid_str(body),
        buf.subrange(i, i + body.len()) == body,
        buf[i + body.len()] == 0u8,
        i + body.len() + str_pad(body.len()) <= buf.len(),
    ensures
        spec_parse_str(buf, i) == Some((body, i + body.len() + str_pad(body.len()))),
{
    let e = i + body.len() as int;
    assert forall|k: int| i <= k < e implies buf[k] != 0u8 by {
        assert(buf.subrange(i, e)[k - i] == buf[k]);
        assert(body[k - i] != 0u8);
    };
    lemma_first_null_at(buf, i, e);
}

/// Tag bytes of `n` float arguments, after the comma: `n` times `f`.
spec fn fseq(n: nat) -> Seq<u8> {
    Seq::new(n, |i: int| 102u8)
}

/// A buffer that ends in a float payload parses back to the values.
proof fn lemma_parse_float_args(buf: Seq<u8>, i: int, vals: Seq<u32>)
    requires
        0 <= i,
        i + 4 * vals.len() == buf.len(),
        buf.subrange(i, buf.len() as int) == float_payload(vals),
    ensures
        spec_parse_args(buf, i, fseq(vals.len())) == Some(
            (vals.map_values(|v: u32| ArgV::Float(v)), buf.len() as int),
        ),
    decreases vals.len(),
{
    lemma_float_payload_len(vals);
    if vals.len() == 0 {
        assert(fseq(0) =~= Seq::<u8>::empty());
        assert(vals.map_values(|v: u32| ArgV::Float(v)) =~= Seq::<ArgV>::empty());
    } else {
        let tags = fseq(vals.len());
        let rest = vals.drop_first();
        assert(tags[0] == 102u8);
        lemma_float_payload_len(rest);
        assert(float_payload(vals) == spec_u32_to_be(vals[0]) + float_payload(rest));
        assert(buf.subrange(i, i + 4) =~= spec_u32_to_be(vals[0])) by {
            assert forall|k: int| 0 <= k < 4 implies buf[i + k] == spec_u32_to_be(vals[0])[k] by {
                assert(buf.subrange(i, buf.len() as int)[k] == buf[i + k]);
            };
        };
        lemma_u32_be_round(vals[0]);
        assert(spec_parse_arg(buf, i, 102u8) == Some((ArgV::Float(vals[0]), i + 4)));
        assert(buf.subrange(i + 4, buf.len() as int) =~= float_payload(rest)) by {
            assert forall|k: int| 0 <= k < buf.len() - i - 4 implies buf[i + 4 + k]
                == float_payload(rest)[k] by {
                assert(buf.subrange(i, buf.len() as int)[4 + k] == buf[i + 4 + k]);
                assert(float_payload(vals)[4 + k] == float_payload(rest)[k]);
            };
        };
        lemma_parse_float_args(buf, i + 4, rest);
        assert(tags.drop_first() =~= fseq(rest.len()));
        let whole = spec_parse_args(buf, i, tags);
        assert(whole is Some);
        assert(whole->Some_0.0 =~= vals.map_values(|v: u32| ArgV::Float(v))) by {
            assert(whole->Some_0.0 == seq![ArgV::Float(vals[0])] + rest.map_values(
                |v: u32| ArgV::Float(v),
            ));
        };
        assert(whole->Some_0.1 == buf.len() as int);
        assert(whole == Some((vals.map_values(|v: u32| ArgV::Float(v)), buf.len() as int)));
    }
}

/// Bundle rejection: a packet that carries the bundle header and room for
/// a time tag decodes to "no message" — a recognized bundle, not a failure
/// — whatever its contents.
pub proof fn lemma_bundle_rejected(buf: Seq<u8>)
    requires
        buf.len() >= 16,
        buf.subrange(0, 8) == bundle_header(),
    ensures
        spec_decode(buf) == ParseResult::Bundle,
{
    assert(buf[0] == buf.subrange(0, 8)[0]);
}

/// Round trip: the encoded form of path `P` with float bit patterns
/// `[v0..vn]` decodes to a message with address `P` and exactly those
/// float arguments.
pub proof fn lemma_round_trip(path: Seq<u8>, vals: Seq<u32>)
    requires
        valid_path(path),
    ensures
        spec_decode(spec_encode_msg(path, vals)) == ParseResult::Msg(
            MsgV { addr: path, args: vals.map_values(|v: u32| ArgV::Float(v)) },
        ),
{
    let buf = spec_encode_msg(path, vals);
    let seg_a = spec_str_bytes(path);
    let tags_body = float_tags(vals.len());
    let seg_b = spec_str_bytes(tags_body);
    let seg_c = float_payload(vals);
    let la = seg_a.len() as int;
    let lb = seg_b.len() as int;
    lemma_float_payload_len(vals);
    assert(buf.len() == la + lb + seg_c.len());

    // The first byte is the path's leading slash, not a bundle mark.
    assert(buf[0] == path[0]);
    assert(buf[0] != 35u8);

    // The address string parses back to the path.
    assert(buf.subrange(0, path.len() as int) =~= path);
    assert(buf[path.len() as int] == seg_a[path.len() as int]);
    assert(seg_a[path.len() as int] == zeros(str_pad(path.len()))[0]);
    lemma_parse_str_at(buf, 0, path);
    assert(spec_parse_str(buf, 0) == Some((path, la)));

    // The type tag string parses back to a comma and the `f` tags.
    assert(valid_str(tags_body)) by {
        assert forall|k: int| 0 <= k < tags_body.len() implies tags_body[k] != 0u8 by {
            if k > 0 {
                assert(tags_body[k] == 102u8);
            }
        };
    };
    assert(buf.subrange(la, la + tags_body.len()) =~= tags_body) by {
        assert forall|k: int| 0 <= k < tags_body.len() implies buf[la + k] == tags_body[k] by {
            assert(buf[la + k] == seg_b[k]);
        };
    };
    assert(buf[la + tags_body.len()] == seg_b[tags_body.len() as int]);
    assert(seg_b[tags_body.len() as int] == zeros(str_pad(tags_body.len()))[0]);
    lemma_parse_str_at(buf, la, tags_body);
    assert(spec_parse_str(buf, la) == Some((tags_body, la + lb)));
    assert(tags_body[0] == 44u8);

    // The payload parses back to the float arguments.
    assert(buf.subrange(la + lb, buf.len() as int) =~= seg_c) by {
        assert forall|k: int| 0 <= k < seg_c.len() implies buf[la + lb + k] == seg_c[k] by {
            assert(buf[la + lb + k] == (seg_a + seg_b + seg_c)[la + lb + k]);
        };
    };
    assert(tags_body.drop_first() =~= fseq(vals.len()));
    lemma_parse_float_args(buf, la + lb, vals);

    assert(spec_decode(buf) =~= ParseResult::Msg(
        MsgV { addr: path, args: vals.map_values(|v: u32| ArgV::Float(v)) },
    ));
}

} // verus!
