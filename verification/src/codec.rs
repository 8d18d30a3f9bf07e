//! The stable, versioned binary record format that posts are persisted in.
//!
//! A record is a version byte followed by the fields of the post, each one
//! length-prefixed (little-endian, eight bytes); optional fields carry a
//! one-byte presence tag. The current version appends the bump timestamp;
//! records of the earlier version lack it and decode with a timestamp of
//! zero, so pre-timestamp stores keep reading cleanly. A record that does
//! not parse yields `None` and is skipped by the scan queries rather than
//! surfaced as an error.

use vstd::prelude::*;
use vstd::arithmetic::div_mod::{lemma_fundamental_div_mod, lemma_div_denominator};
use crate::post::{Post, PostView};

verus! {

/// The version byte of records written today: fields plus bump timestamp.
pub open spec fn version_current() -> u8 {
    2
}

/// The version byte of records from before the bump timestamp existed.
pub open spec fn version_legacy() -> u8 {
    1
}

/// The eight little-endian bytes of `n`.
pub open spec fn le64(n: u64) -> Seq<u8> {
    seq![
        (n % 0x100) as u8,
        ((n / 0x100) % 0x100) as u8,
        ((n / 0x1_0000) % 0x100) as u8,
        ((n / 0x100_0000) % 0x100) as u8,
        ((n / 0x1_0000_0000) % 0x100) as u8,
        ((n / 0x100_0000_0000) % 0x100) as u8,
        ((n / 0x1_0000_0000_0000) % 0x100) as u8,
        ((n / 0x100_0000_0000_0000) % 0x100) as u8,
    ]
}

/// The value of the eight little-endian bytes of `s` starting at `pos`.
#[verifier::opaque]
pub open spec fn le_val(s: Seq<u8>, pos: int) -> int
    recommends
        0 <= pos,
        pos + 8 <= s.len(),
{
    (s[pos] as int) + 0x100 * (s[pos + 1] as int) + 0x1_0000 * (s[pos + 2] as int) + 0x100_0000
        * (s[pos + 3] as int) + 0x1_0000_0000 * (s[pos + 4] as int) + 0x100_0000_0000 * (s[pos + 5]
        as int) + 0x1_0000_0000_0000 * (s[pos + 6] as int) + 0x100_0000_0000_0000 * (s[pos + 7]
        as int)
}

/// A length-prefixed field: eight length bytes, then the bytes themselves.
pub open spec fn enc_bytes(b: Seq<u8>) -> Seq<u8> {
    le64(b.len() as u64) + b
}

/// An optional field: a presence byte, then the field when present.
pub open spec fn enc_opt(o: Option<Seq<u8>>) -> Seq<u8> {
    match o {
        None => seq![0u8],
        Some(b) => seq![1u8] + enc_bytes(b),
    }
}

pub open spec fn encodable_field(b: Seq<u8>) -> bool {
    b.len() <= u64::MAX
}

pub open spec fn encodable_opt(o: Option<Seq<u8>>) -> bool {
    match o {
        None => true,
        Some(b) => encodable_field(b),
    }
}

/// Every field short enough for its length to fit the length prefix.
/// Any post held in memory satisfies this.
pub open spec fn encodable(p: PostView) -> bool {
    &&& encodable_field(p.id)
    &&& encodable_opt(p.parent_id)
    &&& encodable_field(p.title)
    &&& encodable_field(p.message)
    &&& encodable_opt(p.file)
}

/// The bytes a post is persisted as, in the current version.
pub open spec fn encode_spec(p: PostView) -> Seq<u8> {
    seq![version_current()] + enc_bytes(p.id) + enc_opt(p.parent_id) + enc_bytes(p.title)
        + enc_bytes(p.message) + enc_opt(p.file) + le64(p.timestamp)
}

/// The bytes a post was persisted as before the timestamp field existed.
pub open spec fn encode_legacy_spec(p: PostView) -> Seq<u8> {
    seq![version_legacy()] + enc_bytes(p.id) + enc_opt(p.parent_id) + enc_bytes(p.title)
        + enc_bytes(p.message) + enc_opt(p.file)
}

/// Parse a length-prefixed field at `pos`: the field and the position
/// after it, or `None` when the record is too short.
#[verifier::opaque]
pub open spec fn parse_bytes(s: Seq<u8>, pos: int) -> Option<(Seq<u8>, int)> {
    if 0 <= pos && pos + 8 <= s.len() {
        let n = le_val(s, pos);
        if pos + 8 + n <= s.len() {
            Some((s.subrange(pos + 8, pos + 8 + n), pos + 8 + n))
        } else {
            None
        }
    } else {
        None
    }
}

/// Parse an optional field at `pos`.
#[verifier::opaque]
pub open spec fn parse_opt(s: Seq<u8>, pos: int) -> Option<(Option<Seq<u8>>, int)> {
    if 0 <= pos && pos + 1 <= s.len() {
        if s[pos] == 0u8 {
            Some((None, pos + 1))
        } else if s[pos] == 1u8 {
            match parse_bytes(s, pos + 1) {
                Some((b, q)) => Some((Some(b), q)),
                None => None,
            }
        } else {
            None
        }
    } else {
        None
    }
}

/// The post a record holds, or `None` when the record does not parse.
/// Records of the legacy version decode with a timestamp of zero.
pub open spec fn decode_spec(s: Seq<u8>) -> Option<PostView> {
    if s.len() < 1 {
        None
    } else if s[0] == version_current() || s[0] == version_legacy() {
        match parse_bytes(s, 1) {
            Some((id, p1)) => match parse_opt(s, p1) {
                Some((parent_id, p2)) => match parse_bytes(s, p2) {
                    Some((title, p3)) => match parse_bytes(s, p3) {
                        Some((message, p4)) => match parse_opt(s, p4) {
                            Some((file, p5)) => if s[0] == version_current() {
                                if p5 + 8 == s.len() {
                                    Some(
                                        PostView {
                                            id,
                                            parent_id,
                                            title,
                                            message,
                                            file,
                                            timestamp: le_val(s, p5) as u64,
                                        },
                                    )
                                } else {
                                    None
                                }
                            } else {
                                if p5 == s.len() {
                                    Some(
                                        PostView { id, parent_id, title, message, file, timestamp: 0 },
                                    )
                                } else {
                                    None
                                }
                            },
                            None => None,
                        },
                        None => None,
                    },
                    None => None,
                },
                None => None,
            },
            None => None,
        }
    } else {
        None
    }
}

/// The little-endian bytes of `n` evaluate back to `n`.
proof fn lemma_le64_val(n: u64)
    ensures
        le_val(le64(n), 0) == n,
{
    reveal(le_val);
    let ni = n as int;
    let c1: int = 0x100;
    let c2: int = 0x1_0000;
    let c3: int = 0x100_0000;
    let c4: int = 0x1_0000_0000;
    let c5: int = 0x100_0000_0000;
    let c6: int = 0x1_0000_0000_0000;
    let c7: int = 0x100_0000_0000_0000;
    lemma_div_denominator(ni, c1, c1);
    lemma_div_denominator(ni, c2, c1);
    lemma_div_denominator(ni, c3, c1);
    lemma_div_denominator(ni, c4, c1);
    lemma_div_denominator(ni, c5, c1);
    lemma_div_denominator(ni, c6, c1);
    let q1 = ni / c1;
    let q2 = ni / c2;
    let q3 = ni / c3;
    let q4 = ni / c4;
    let q5 = ni / c5;
    let q6 = ni / c6;
    let q7 = ni / c7;
    lemma_fundamental_div_mod(ni, c1);
    lemma_fundamental_div_mod(q1, c1);
    lemma_fundamental_div_mod(q2, c1);
    lemma_fundamental_div_mod(q3, c1);
    lemma_fundamental_div_mod(q4, c1);
    lemma_fundamental_div_mod(q5, c1);
    lemma_fundamental_div_mod(q6, c1);
    assert(q7 < 0x100) by {
        assert(ni < 0x1_0000_0000_0000_0000);
    }
    lemma_fundamental_div_mod(q7, c1);
    assert(q7 % c1 == q7);
}

/// The value read from eight little-endian bytes is below 2^64.
proof fn lemma_le_val_bound(s: Seq<u8>, pos: int)
    requires
        0 <= pos,
        pos + 8 <= s.len(),
    ensures
        0 <= le_val(s, pos) < 0x1_0000_0000_0000_0000,
{
    reveal(le_val);
}

/// Parsing at a position where an encoded field sits returns that field.
proof fn lemma_parse_bytes_at(s: Seq<u8>, pos: int, b: Seq<u8>)
    requires
        0 <= pos,
        b.len() <= u64::MAX,
        pos + 8 + b.len() <= s.len(),
        s.subrange(pos, pos + 8 + b.len()) == enc_bytes(b),
    ensures
        parse_bytes(s, pos) == Some((b, pos + 8 + b.len())),
{
    reveal(parse_bytes);
    reveal(le_val);
    let n = b.len() as u64;
    let eb = enc_bytes(b);
    lemma_le64_val(n);
    assert forall|j: int| 0 <= j < 8 implies s[pos + j] == le64(n)[j] by {
        assert(s.subrange(pos, pos + 8 + b.len())[j] == s[pos + j]);
        assert(eb[j] == le64(n)[j]);
    }
    assert(le_val(s, pos) == le_val(le64(n), 0));
    assert(s.subrange(pos + 8, pos + 8 + b.len()) =~= b) by {
        assert forall|j: int| 0 <= j < b.len() implies s[pos + 8 + j] == b[j] by {
            assert(s.subrange(pos, pos + 8 + b.len())[8 + j] == s[pos + 8 + j]);
            assert(eb[8 + j] == b[j]);
        }
    }
}

/// Parsing at a position where an encoded optional field sits returns it.
proof fn lemma_parse_opt_at(s: Seq<u8>, pos: int, o: Option<Seq<u8>>)
    requires
        0 <= pos,
        encodable_opt(o),
        pos + enc_opt(o).len() <= s.len(),
        s.subrange(pos, pos + enc_opt(o).len()) == enc_opt(o),
    ensures
        parse_opt(s, pos) == Some((o, pos + enc_opt(o).len())),
{
    reveal(parse_opt);
    let eo = enc_opt(o);
    assert(s[pos] == eo[0]) by {
        assert(s.subrange(pos, pos + eo.len())[0] == s[pos]);
    }
    match o {
        None => {
            assert(eo[0] == 0u8);
        },
        Some(b) => {
            assert(eo[0] == 1u8);
            assert(s.subrange(pos + 1, pos + 1 + 8 + b.len()) =~= enc_bytes(b)) by {
                assert forall|j: int| 0 <= j < 8 + b.len() implies s[pos + 1 + j] == enc_bytes(b)[j]
                by {
                    assert(s.subrange(pos, pos + eo.len())[1 + j] == s[pos + 1 + j]);
                    assert(eo[1 + j] == enc_bytes(b)[j]);
                }
            }
            lemma_parse_bytes_at(s, pos + 1, b);
        },
    }
}

/// A subrange within the left half of a concatenation ignores the right.
proof fn lemma_subrange_of_prefix<A>(x: Seq<A>, y: Seq<A>, i: int, j: int)
    requires
        0 <= i <= j <= x.len(),
    ensures
        (x + y).subrange(i, j) == x.subrange(i, j),
{
    assert((x + y).subrange(i, j) =~= x.subrange(i, j));
}

/// The right half of a concatenation is the subrange after the left.
proof fn lemma_subrange_of_suffix<A>(x: Seq<A>, y: Seq<A>)
    ensures
        (x + y).subrange(x.len() as int, x.len() + y.len() as int) == y,
{
    assert((x + y).subrange(x.len() as int, x.len() + y.len() as int) =~= y);
}

/// The subranges of a record laid out as a version byte, five encoded
/// fields, and a tail.
proof fn lemma_record_parts(v: u8, e1: Seq<u8>, e2: Seq<u8>, e3: Seq<u8>, e4: Seq<u8>, e5: Seq<u8>, e6: Seq<u8>)
    ensures
        ({
            let s = seq![v] + e1 + e2 + e3 + e4 + e5 + e6;
            let p1 = 1 + e1.len() as int;
            let p2 = p1 + e2.len();
            let p3 = p2 + e3.len();
            let p4 = p3 + e4.len();
            let p5 = p4 + e5.len();
            &&& s.len() == p5 + e6.len()
            &&& s[0] == v
            &&& s.subrange(1, p1) == e1
            &&& s.subrange(p1, p2) == e2
            &&& s.subrange(p2, p3) == e3
            &&& s.subrange(p3, p4) == e4
            &&& s.subrange(p4, p5) == e5
            &&& s.subrange(p5, p5 + e6.len() as int) == e6
        }),
{
    let a1 = seq![v];
    let a2 = a1 + e1;
    let a3 = a2 + e2;
    let a4 = a3 + e3;
    let a5 = a4 + e4;
    let a6 = a5 + e5;
    let s = a6 + e6;
    let p1 = 1 + e1.len() as int;
    let p2 = p1 + e2.len();
    let p3 = p2 + e3.len();
    let p4 = p3 + e4.len();
    let p5 = p4 + e5.len();
    lemma_subrange_of_suffix(a1, e1);
    lemma_subrange_of_prefix(a2, e2, 1, p1);
    lemma_subrange_of_prefix(a3, e3, 1, p1);
    lemma_subrange_of_prefix(a4, e4, 1, p1);
    lemma_subrange_of_prefix(a5, e5, 1, p1);
    lemma_subrange_of_prefix(a6, e6, 1, p1);
    assert(s.subrange(1, p1) == e1);
    lemma_subrange_of_suffix(a2, e2);
    lemma_subrange_of_prefix(a3, e3, p1, p2);
    lemma_subrange_of_prefix(a4, e4, p1, p2);
    lemma_subrange_of_prefix(a5, e5, p1, p2);
    lemma_subrange_of_prefix(a6, e6, p1, p2);
    assert(s.subrange(p1, p2) == e2);
    lemma_subrange_of_suffix(a3, e3);
    lemma_subrange_of_prefix(a4, e4, p2, p3);
    lemma_subrange_of_prefix(a5, e5, p2, p3);
    lemma_subrange_of_prefix(a6, e6, p2, p3);
    assert(s.subrange(p2, p3) == e3);
    lemma_subrange_of_suffix(a4, e4);
    lemma_subrange_of_prefix(a5, e5, p3, p4);
    lemma_subrange_of_prefix(a6, e6, p3, p4);
    assert(s.subrange(p3, p4) == e4);
    lemma_subrange_of_suffix(a5, e5);
    lemma_subrange_of_prefix(a6, e6, p4, p5);
    assert(s.subrange(p4, p5) == e5);
    lemma_subrange_of_suffix(a6, e6);
    assert(s.subrange(p5, p5 + e6.len() as int) == e6);
}

/// Eight equal bytes read as the same little-endian value.
proof fn lemma_le_val_of_subrange(s: Seq<u8>, pos: int, t: Seq<u8>)
    requires
        0 <= pos,
        pos + 8 <= s.len(),
        t.len() == 8,
        s.subrange(pos, pos + 8) == t,
    ensures
        le_val(s, pos) == le_val(t, 0),
{
    reveal(le_val);
    assert forall|j: int| 0 <= j < 8 implies s[pos + j] == t[j] by {
        assert(s.subrange(pos, pos + 8)[j] == s[pos + j]);
    }
}

/// A record whose pieces parse as the fields of `p` decodes to `p`.
proof fn lemma_decode_from_parses(s: Seq<u8>, p: PostView, p1: int, p2: int, p3: int, p4: int, p5: int)
    requires
        s.len() >= 1,
        parse_bytes(s, 1) == Some((p.id, p1)),
        parse_opt(s, p1) == Some((p.parent_id, p2)),
        parse_bytes(s, p2) == Some((p.title, p3)),
        parse_bytes(s, p3) == Some((p.message, p4)),
        parse_opt(s, p4) == Some((p.file, p5)),
        s[0] == version_current() ==> p5 + 8 == s.len() && le_val(s, p5) == p.timestamp,
        s[0] == version_legacy() ==> p5 == s.len() && p.timestamp == 0,
        s[0] == version_current() || s[0] == version_legacy(),
    ensures
        decode_spec(s) == Some(p),
{
    reveal(parse_bytes);
    reveal(parse_opt);
    reveal(le_val);
}

/// Decoding inverts encoding: a post written in the current format reads
/// back field for field.
pub proof fn lemma_round_trip(p: PostView)
    requires
        encodable(p),
    ensures
        decode_spec(encode_spec(p)) == Some(p),
{
    let e1 = enc_bytes(p.id);
    let e2 = enc_opt(p.parent_id);
    let e3 = enc_bytes(p.title);
    let e4 = enc_bytes(p.message);
    let e5 = enc_opt(p.file);
    let e6 = le64(p.timestamp);
    let s = encode_spec(p);
    lemma_record_parts(version_current(), e1, e2, e3, e4, e5, e6);
    assert(s == seq![version_current()] + e1 + e2 + e3 + e4 + e5 + e6);
    let p1: int = 1 + e1.len() as int;
    let p2: int = p1 + e2.len();
    let p3: int = p2 + e3.len();
    let p4: int = p3 + e4.len();
    let p5: int = p4 + e5.len();
    lemma_parse_bytes_at(s, 1, p.id);
    lemma_parse_opt_at(s, p1, p.parent_id);
    lemma_parse_bytes_at(s, p2, p.title);
    lemma_parse_bytes_at(s, p3, p.message);
    lemma_parse_opt_at(s, p4, p.file);
    lemma_le_val_of_subrange(s, p5, e6);
    lemma_le64_val(p.timestamp);
    assert(s[0] == version_current() && s.len() == p5 + 8);
    lemma_decode_from_parses(s, p, p1, p2, p3, p4, p5);
}

/// A record of the legacy version reads back field for field, with the
/// bump timestamp defaulting to zero.
pub proof fn lemma_legacy_round_trip(p: PostView)
    requires
        encodable(p),
    ensures
        decode_spec(encode_legacy_spec(p)) == Some(
            PostView {
                id: p.id,
                parent_id: p.parent_id,
                title: p.title,
                message: p.message,
                file: p.file,
                timestamp: 0,
            },
        ),
{
    let e1 = enc_bytes(p.id);
    let e2 = enc_opt(p.parent_id);
    let e3 = enc_bytes(p.title);
    let e4 = enc_bytes(p.message);
    let e5 = enc_opt(p.file);
    let e6 = Seq::<u8>::empty();
    let s = encode_legacy_spec(p);
    lemma_record_parts(version_legacy(), e1, e2, e3, e4, e5, e6);
    assert(s =~= seq![version_legacy()] + e1 + e2 + e3 + e4 + e5 + e6);
    let p1: int = 1 + e1.len() as int;
    let p2: int = p1 + e2.len();
    let p3: int = p2 + e3.len();
    let p4: int = p3 + e4.len();
    let p5: int = p4 + e5.len();
    lemma_parse_bytes_at(s, 1, p.id);
    lemma_parse_opt_at(s, p1, p.parent_id);
    lemma_parse_bytes_at(s, p2, p.title);
    lemma_parse_bytes_at(s, p3, p.message);
    lemma_parse_opt_at(s, p4, p.file);
    let q = PostView {
        id: p.id,
        parent_id: p.parent_id,
        title: p.title,
        message: p.message,
        file: p.file,
        timestamp: 0,
    };
    assert(s[0] == version_legacy() && s.len() == p5);
    lemma_decode_from_parses(s, q, p1, p2, p3, p4, p5);
}

/// Append the eight little-endian bytes of `n`.
fn push_le64(out: &mut Vec<u8>, n: u64)
    ensures
        final(out)@ == old(out)@ + le64(n),
{
    out.push((n % 0x100) as u8);
    out.push(((n / 0x100) % 0x100) as u8);
    out.push(((n / 0x1_0000) % 0x100) as u8);
    out.push(((n / 0x100_0000) % 0x100) as u8);
    out.push(((n / 0x1_0000_0000) % 0x100) as u8);
    out.push(((n / 0x100_0000_0000) % 0x100) as u8);
    out.push(((n / 0x1_0000_0000_0000) % 0x100) as u8);
    out.push(((n / 0x100_0000_0000_0000) % 0x100) as u8);
    proof {
        assert(out@ =~= old(out)@ + le64(n));
    }
}

/// Append a length-prefixed field.
fn push_bytes(out: &mut Vec<u8>, b: &Vec<u8>)
    ensures
        final(out)@ == old(out)@ + enc_bytes(b@),
{
    push_le64(out, b.len() as u64);
    out.extend_from_slice(b.as_slice());
    proof {
        assert(out@ =~= old(out)@ + enc_bytes(b@));
    }
}

/// Append an optional field: a presence byte, then the field when present.
fn push_opt(out: &mut Vec<u8>, o: &Option<Vec<u8>>)
    ensures
        final(out)@ == old(out)@ + enc_opt(crate::post::opt_bytes_view(*o)),
{
    match o {
        None => {
            out.push(0u8);
            proof {
                assert(out@ =~= old(out)@ + enc_opt(None));
            }
        },
        Some(b) => {
            out.push(1u8);
            push_bytes(out, b);
            proof {
                assert(out@ =~= old(out)@ + enc_opt(Some(b@)));
            }
        },
    }
}

/// Encode a post in the current record format.
pub fn encode_post(p: &Post) -> (out: Vec<u8>)
    ensures
        out@ == encode_spec(p@),
{
    let mut out: Vec<u8> = Vec::new();
    out.push(2u8);
    proof {
        assert(out@ =~= seq![version_current()]);
    }
    push_bytes(&mut out, &p.id);
    push_opt(&mut out, &p.parent_id);
    push_bytes(&mut out, &p.title);
    push_bytes(&mut out, &p.message);
    push_opt(&mut out, &p.file);
    push_le64(&mut out, p.timestamp);
    out
}

/// Read the eight little-endian bytes at `pos` as a value.
fn read_le64(bytes: &Vec<u8>, pos: usize) -> (n: u64)
    requires
        pos + 8 <= bytes@.len(),
    ensures
        n == le_val(bytes@, pos as int),
{
    let len = bytes.len();
    let b0 = bytes[pos] as u64;
    let b1 = bytes[pos + 1] as u64;
    let b2 = bytes[pos + 2] as u64;
    let b3 = bytes[pos + 3] as u64;
    let b4 = bytes[pos + 4] as u64;
    let b5 = bytes[pos + 5] as u64;
    let b6 = bytes[pos + 6] as u64;
    let b7 = bytes[pos + 7] as u64;
    let n = b0 + 0x100 * b1 + 0x1_0000 * b2 + 0x100_0000 * b3 + 0x1_0000_0000 * b4
        + 0x100_0000_0000 * b5 + 0x1_0000_0000_0000 * b6 + 0x100_0000_0000_0000 * b7;
    proof {
        reveal(le_val);
    }
    n
}

/// Read a length-prefixed field at `pos`, as `parse_bytes` describes.
fn read_field(bytes: &Vec<u8>, pos: usize) -> (r: Option<(Vec<u8>, usize)>)
    ensures
        match r {
            Some(f) => {
                &&& parse_bytes(bytes@, pos as int) == Some((f.0@, f.1 as int))
                &&& f.1 <= bytes@.len()
            },
            None => parse_bytes(bytes@, pos as int) is None,
        },
{
    if bytes.len() < 8 || pos > bytes.len() - 8 {
        proof {
            reveal(parse_bytes);
        }
        return None;
    }
    let n = read_le64(bytes, pos);
    let avail = bytes.len() - pos - 8;
    if n > avail as u64 {
        proof {
            reveal(parse_bytes);
        }
        return None;
    }
    let flen = n as usize;
    let start = pos + 8;
    let end = start + flen;
    let field = vstd::slice::slice_to_vec(vstd::slice::slice_subrange(bytes.as_slice(), start, end));
    proof {
        reveal(parse_bytes);
    }
    Some((field, end))
}

/// Read an optional field at `pos`, as `parse_opt` describes.
fn read_opt_field(bytes: &Vec<u8>, pos: usize) -> (r: Option<(Option<Vec<u8>>, usize)>)
    ensures
        match r {
            Some(f) => {
                &&& parse_opt(bytes@, pos as int) == Some(
                    (crate::post::opt_bytes_view(f.0), f.1 as int),
                )
                &&& f.1 <= bytes@.len()
            },
            None => parse_opt(bytes@, pos as int) is None,
        },
{
    if pos >= bytes.len() {
        proof {
            reveal(parse_opt);
        }
        return None;
    }
    let tag = bytes[pos];
    proof {
        reveal(parse_opt);
    }
    if tag == 0u8 {
        Some((None, pos + 1))
    } else if tag == 1u8 {
        match read_field(bytes, pos + 1) {
            Some((b, q)) => Some((Some(b), q)),
            None => None,
        }
    } else {
        None
    }
}

/// Decode a stored record into a post. Records of the legacy version get
/// a timestamp of zero; a record that does not parse yields `None`.
pub fn decode_post(bytes: &Vec<u8>) -> (r: Option<Post>)
    ensures
        match r {
            Some(p) => decode_spec(bytes@) == Some(p@),
            None => decode_spec(bytes@) is None,
        },
{
    if bytes.len() < 1 {
        return None;
    }
    let ver = bytes[0];
    if ver != 2u8 && ver != 1u8 {
        return None;
    }
    let (id, q1) = match read_field(bytes, 1) {
        Some(f) => f,
        None => {
            return None;
        },
    };
    let (parent_id, q2) = match read_opt_field(bytes, q1) {
        Some(f) => f,
        None => {
            return None;
        },
    };
    let (title, q3) = match read_field(bytes, q2) {
        Some(f) => f,
        None => {
            return None;
        },
    };
    let (message, q4) = match read_field(bytes, q3) {
        Some(f) => f,
        None => {
            return None;
        },
    };
    let (file, q5) = match read_opt_field(bytes, q4) {
        Some(f) => f,
        None => {
            return None;
        },
    };
    if ver == 2u8 {
        if bytes.len() - q5 == 8 {
            let timestamp = read_le64(bytes, q5);
            let p = Post { id, parent_id, title, message, file, timestamp };
            proof {
                lemma_le_val_bound(bytes@, q5 as int);
                lemma_decode_from_parses(
                    bytes@,
                    p@,
                    q1 as int,
                    q2 as int,
                    q3 as int,
                    q4 as int,
                    q5 as int,
                );
            }
            Some(p)
        } else {
            None
        }
    } else {
        if q5 == bytes.len() {
            let p = Post { id, parent_id, title, message, file, timestamp: 0 };
            proof {
                lemma_decode_from_parses(
                    bytes@,
                    p@,
                    q1 as int,
                    q2 as int,
                    q3 as int,
                    q4 as int,
                    q5 as int,
                );
            }
            Some(p)
        } else {
            None
        }
    }
}

} // verus!
