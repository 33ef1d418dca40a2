//! Byte layouts of the binary frames between coordinator, nodes and inference servers.
//!
//! A hidden-state payload is the request id in 36 bytes, cut or padded with zeros,
//! followed by the hidden states. A TCP frame is the length of its payload and the length
//! of its JSON header, both as 32-bit little-endian numbers, then the header, then the
//! binary part.
use vstd::prelude::*;

verus! {

use vstd::string::StringSliceAdditionalSpecFns;
use crate::text::{ends_with, trim_suffix};
use vstd::utf8::{
    encode_scalar,
    encode_utf8,
    encode_utf8_decode_utf8,
    encode_utf8_valid_utf8,
    valid_utf8,
};

/// Bytes that a payload reserves for the request id.
pub const REQUEST_ID_LEN: usize = 36;

/// The text that `String::from_utf8_lossy` makes of bytes.
pub uninterp spec fn lossy_text(bytes: Seq<u8>) -> Seq<char>;

/// `String::from_utf8_lossy`: valid UTF-8 is taken as it is; elsewhere replacement
/// characters stand for what is not.
#[verifier::external_body]
pub(crate) fn from_utf8_lossy(bytes: &[u8]) -> (s: String)
    ensures
        s@ == lossy_text(bytes@),
        valid_utf8(bytes@) ==> encode_utf8(s@) == bytes@,
{
    String::from_utf8_lossy(bytes).into_owned()
}

/// The bytes `id` cut or padded with zeros to the length of a request id.
pub open spec fn padded_id(id: Seq<u8>) -> Seq<u8> {
    Seq::new(
        REQUEST_ID_LEN as nat,
        |i: int|
            if i < id.len() {
                id[i]
            } else {
                0
            },
    )
}

/// The payload that carries `hidden` for request `id`.
pub open spec fn payload_of(id: Seq<char>, hidden: Seq<u8>) -> Seq<u8> {
    padded_id(encode_utf8(id)) + hidden
}

/// Whether `id` and `hidden` are what a payload holds.
pub open spec fn payload_holds(data: Seq<u8>, id: Seq<char>, hidden: Seq<u8>) -> bool {
    &&& data.len() >= REQUEST_ID_LEN
    &&& id == lossy_text(data.subrange(0, REQUEST_ID_LEN as int))
    &&& valid_utf8(data.subrange(0, REQUEST_ID_LEN as int)) ==> encode_utf8(id)
        == data.subrange(0, REQUEST_ID_LEN as int)
    &&& hidden == data.subrange(REQUEST_ID_LEN as int, data.len() as int)
}

fn copy_range(data: &Vec<u8>, from: usize, to: usize) -> (r: Vec<u8>)
    requires
        from <= to <= data@.len(),
    ensures
        r@ == data@.subrange(from as int, to as int),
{
    let mut r: Vec<u8> = Vec::new();
    let mut i: usize = from;
    while i < to
        invariant
            from <= i <= to <= data@.len(),
            r@ == data@.subrange(from as int, i as int),
        decreases to - i,
    {
        r.push(data[i]);
        i = i + 1;
        assert(data@.subrange(from as int, i as int) == data@.subrange(from as int, i - 1).push(
            data@[i - 1],
        ));
    }
    r
}

fn append_all(out: &mut Vec<u8>, data: &Vec<u8>)
    ensures
        final(out)@ == old(out)@ + data@,
{
    let ghost before = out@;
    let mut i: usize = 0;
    while i < data.len()
        invariant
            i <= data@.len(),
            out@ == before + data@.subrange(0, i as int),
        decreases data@.len() - i,
    {
        out.push(data[i]);
        i = i + 1;
        assert(data@.subrange(0, i as int) == data@.subrange(0, i - 1).push(data@[i - 1]));
    }
    assert(data@.subrange(0, data@.len() as int) == data@);
}

/// The payload that carries `hidden` for a request.
pub fn binary_payload(request_id: &str, hidden: &Vec<u8>) -> (data: Vec<u8>)
    ensures
        data@ == payload_of(request_id@, hidden@),
{
    let id = request_id.as_bytes();
    let mut data: Vec<u8> = Vec::new();
    let mut i: usize = 0;
    while i < REQUEST_ID_LEN
        invariant
            i <= REQUEST_ID_LEN,
            id@ == encode_utf8(request_id@),
            data@ == padded_id(id@).subrange(0, i as int),
        decreases REQUEST_ID_LEN - i,
    {
        let b: u8 = if i < id.len() {
            id[i]
        } else {
            0
        };
        data.push(b);
        i = i + 1;
        assert(padded_id(id@).subrange(0, i as int) == padded_id(id@).subrange(0, i - 1).push(b));
    }
    assert(padded_id(id@).subrange(0, REQUEST_ID_LEN as int) == padded_id(id@));
    append_all(&mut data, hidden);
    data
}

/// The request id and the hidden states of a payload; none if it is too short.
pub fn parse_binary_payload(data: &Vec<u8>) -> (r: Option<(String, Vec<u8>)>)
    ensures
        r is Some == (data@.len() >= REQUEST_ID_LEN),
        r is Some ==> payload_holds(data@, (r->0).0@, (r->0).1@),
{
    if data.len() < REQUEST_ID_LEN {
        return None;
    }
    let head = copy_range(data, 0, REQUEST_ID_LEN);
    let id = from_utf8_lossy(head.as_slice());
    let hidden = copy_range(data, REQUEST_ID_LEN, data.len());
    Some((id, hidden))
}

/// What is read from a payload is what was written, for ids of 36 bytes.
pub proof fn law_payload_roundtrip(
    id: Seq<char>,
    hidden: Seq<u8>,
    read_id: Seq<char>,
    read_hidden: Seq<u8>,
)
    requires
        encode_utf8(id).len() == REQUEST_ID_LEN,
        payload_holds(payload_of(id, hidden), read_id, read_hidden),
    ensures
        read_id == id,
        read_hidden == hidden,
{
    let data = payload_of(id, hidden);
    let head = data.subrange(0, REQUEST_ID_LEN as int);
    assert(head == encode_utf8(id));
    encode_utf8_valid_utf8(id);
    encode_utf8_decode_utf8(id);
    encode_utf8_decode_utf8(read_id);
    assert(data.subrange(REQUEST_ID_LEN as int, data.len() as int) == hidden);
}

/// `n` times the character NUL.
pub open spec fn nuls(n: nat) -> Seq<char> {
    Seq::new(n, |i: int| '\0')
}

proof fn lemma_encode_append(a: Seq<char>, b: Seq<char>)
    ensures
        encode_utf8(a + b) == encode_utf8(a) + encode_utf8(b),
    decreases a.len(),
{
    if a.len() == 0 {
        assert(a + b == b);
        assert(encode_utf8(a) + encode_utf8(b) == encode_utf8(b));
    } else {
        lemma_encode_append(a.drop_first(), b);
        assert((a + b).drop_first() == a.drop_first() + b);
        let first = encode_scalar(a[0] as u32);
        assert(first + (encode_utf8(a.drop_first()) + encode_utf8(b)) == first + encode_utf8(
            a.drop_first(),
        ) + encode_utf8(b));
    }
}

proof fn lemma_encode_nuls(n: nat)
    ensures
        encode_utf8(nuls(n)).len() == n,
        forall|i: int| 0 <= i < n ==> #[trigger] encode_utf8(nuls(n))[i] == 0,
    decreases n,
{
    if n > 0 {
        let m = (n - 1) as nat;
        lemma_encode_nuls(m);
        assert(nuls(n).drop_first() == nuls(m));
        assert(nuls(n)[0] as u32 == 0);
        assert((0u32 & 0x7F) as u8 == 0) by (bit_vector);
        assert(encode_scalar(0u32) == seq![0u8]);
        assert(encode_utf8(nuls(n)) == seq![0u8] + encode_utf8(nuls(m)));
        assert forall|i: int| 0 <= i < n implies #[trigger] encode_utf8(nuls(n))[i] == 0 by {
            if i > 0 {
                assert(encode_utf8(nuls(m))[i - 1] == 0);
            }
        }
    }
}

proof fn lemma_trim_nuls(id: Seq<char>, n: nat)
    requires
        id.len() == 0 || id.last() != '\0',
    ensures
        trim_suffix(id + nuls(n), "\0"@) == id,
    decreases n,
{
    reveal_strlit("\0");
    let s = id + nuls(n);
    if n == 0 {
        assert(s == id);
        if ends_with(id, "\0"@) {
            assert(id.subrange(id.len() - 1, id.len() as int)[0] == "\0"@[0]);
        }
    } else {
        assert(s.subrange(s.len() - 1, s.len() as int) == "\0"@);
        assert(s.subrange(0, s.len() - 1) == id + nuls((n - 1) as nat));
        lemma_trim_nuls(id, (n - 1) as nat);
    }
}

/// What is read from a payload, less trailing zeros, is what was written, for ids of at most
/// 36 bytes that do not themselves end in a zero.
pub proof fn law_padded_id_roundtrip(
    id: Seq<char>,
    hidden: Seq<u8>,
    read_id: Seq<char>,
    read_hidden: Seq<u8>,
)
    requires
        encode_utf8(id).len() <= REQUEST_ID_LEN,
        id.len() == 0 || id.last() != '\0',
        payload_holds(payload_of(id, hidden), read_id, read_hidden),
    ensures
        trim_suffix(read_id, "\0"@) == id,
        read_hidden == hidden,
{
    let data = payload_of(id, hidden);
    let head = data.subrange(0, REQUEST_ID_LEN as int);
    let m = (REQUEST_ID_LEN - encode_utf8(id).len()) as nat;
    let padded = id + nuls(m);
    lemma_encode_append(id, nuls(m));
    lemma_encode_nuls(m);
    assert(head == encode_utf8(padded));
    encode_utf8_valid_utf8(padded);
    encode_utf8_decode_utf8(padded);
    encode_utf8_decode_utf8(read_id);
    assert(read_id == padded);
    lemma_trim_nuls(id, m);
    assert(data.subrange(REQUEST_ID_LEN as int, data.len() as int) == hidden);
}

// ── TCP frames ───────────────────────────────────────────────────────────────

/// The four bytes of `n`, least significant first.
pub open spec fn le_bytes(n: int) -> Seq<u8> {
    seq![
        (n % 256) as u8,
        (n / 256 % 256) as u8,
        (n / 65536 % 256) as u8,
        (n / 16777216 % 256) as u8,
    ]
}

/// The number whose bytes, least significant first, stand at `i`.
pub open spec fn le_value(s: Seq<u8>, i: int) -> int {
    s[i] + s[i + 1] * 256 + s[i + 2] * 65536 + s[i + 3] * 16777216
}

/// The frame of a JSON header and a binary part; lengths beyond 32 bits wrap around.
pub open spec fn frame_of(json: Seq<u8>, bin: Seq<u8>) -> Seq<u8> {
    le_bytes((json.len() + bin.len()) as int) + le_bytes(json.len() as int) + json + bin
}

/// Appends a 32-bit number, its lowest byte first.
pub fn push_le(out: &mut Vec<u8>, n: u64)
    ensures
        final(out)@ == old(out)@ + le_bytes(n as int),
{
    out.push((n % 256) as u8);
    out.push((n / 256 % 256) as u8);
    out.push((n / 65536 % 256) as u8);
    out.push((n / 16777216 % 256) as u8);
    assert(out@ == old(out)@ + le_bytes(n as int));
}

/// The frame of a JSON header and a binary part.
pub fn encode_frame(json: &Vec<u8>, bin: &Vec<u8>) -> (frame: Vec<u8>)
    requires
        json@.len() + bin@.len() <= usize::MAX,
    ensures
        frame@ == frame_of(json@, bin@),
{
    let total: usize = json.len() + bin.len();
    let mut frame: Vec<u8> = Vec::new();
    push_le(&mut frame, total as u64);
    push_le(&mut frame, json.len() as u64);
    append_all(&mut frame, json);
    append_all(&mut frame, bin);
    assert(frame@ == frame_of(json@, bin@));
    frame
}

fn read_le(header: &Vec<u8>, at: usize) -> (n: u32)
    requires
        at + 4 <= header@.len(),
    ensures
        n == le_value(header@, at as int),
{
    let end: usize = header.len();
    header[at] as u32 + header[at + 1] as u32 * 256 + header[at + 2] as u32 * 65536 + header[at + 3]
        as u32 * 16777216
}

/// The lengths of the JSON header and of the binary part that the first eight bytes of a
/// frame announce.
pub fn frame_lengths(header: &Vec<u8>) -> (r: (usize, usize))
    requires
        header@.len() == 8,
    ensures
        r.0 == le_value(header@, 4),
        r.1 == if le_value(header@, 0) >= le_value(header@, 4) {
            le_value(header@, 0) - le_value(header@, 4)
        } else {
            0
        },
{
    let total: u32 = read_le(header, 0);
    let json_len: u32 = read_le(header, 4);
    (json_len as usize, total.saturating_sub(json_len) as usize)
}

proof fn lemma_le_value(n: int)
    requires
        0 <= n <= u32::MAX,
    ensures
        n % 256 + (n / 256 % 256) * 256 + (n / 65536 % 256) * 65536 + (n / 16777216 % 256) * 16777216
            == n,
{
    let a = n / 256;
    let b = n / 65536;
    let c = n / 16777216;
    assert(a == b * 256 + a % 256);
    assert(b == c * 256 + b % 256);
    assert(c % 256 == c);
}

/// A reader of a frame finds the header and the binary part that the writer put there.
pub proof fn law_frame_roundtrip(json: Seq<u8>, bin: Seq<u8>)
    requires
        json.len() + bin.len() <= u32::MAX,
    ensures
        frame_of(json, bin).len() == 8 + json.len() + bin.len(),
        le_value(frame_of(json, bin), 0) == json.len() + bin.len(),
        le_value(frame_of(json, bin), 4) == json.len(),
        frame_of(json, bin).subrange(8, 8 + json.len() as int) == json,
        frame_of(json, bin).subrange(8 + json.len() as int, frame_of(json, bin).len() as int) == bin,
{
    let f = frame_of(json, bin);
    let t = (json.len() + bin.len()) as int;
    let j = json.len() as int;
    assert(f[0] == le_bytes(t)[0] && f[1] == le_bytes(t)[1] && f[2] == le_bytes(t)[2] && f[3]
        == le_bytes(t)[3]);
    assert(f[4] == le_bytes(j)[0] && f[5] == le_bytes(j)[1] && f[6] == le_bytes(j)[2] && f[7]
        == le_bytes(j)[3]);
    lemma_le_value(t);
    lemma_le_value(j);
}

/// A number is written with its lowest byte first.
pub proof fn law_lowest_byte_comes_first(a: u8, b: u8, c: u8, d: u8)
    ensures
        le_bytes(a + 256 * b + 65536 * c + 16777216 * d) == seq![a, b, c, d],
        le_value(seq![a, b, c, d], 0) == a + 256 * b + 65536 * c + 16777216 * d,
{
    let n = a + 256 * b + 65536 * c + 16777216 * d;
    assert(n % 256 == a);
    assert(n / 256 == b + 256 * c + 65536 * d);
    assert(n / 65536 == c + 256 * d);
    assert(n / 16777216 == d);
    assert(le_bytes(n) =~= seq![a, b, c, d]);
}

/// A payload is the bytes of the id, zeros up to 36 bytes, and the hidden states; of a longer id
/// it holds the first 36 bytes.
pub proof fn law_payload_layout(id: Seq<char>, hidden: Seq<u8>, i: int)
    ensures
        payload_of(id, hidden).len() == 36 + hidden.len(),
        0 <= i < 36 && i < encode_utf8(id).len() ==> payload_of(id, hidden)[i] == encode_utf8(id)[i],
        0 <= i < 36 && i >= encode_utf8(id).len() ==> payload_of(id, hidden)[i] == 0,
        0 <= i < hidden.len() ==> payload_of(id, hidden)[36 + i] == hidden[i],
{
}

} // verus!
