//! The snapshot format of the ledger: a record count, then each record
//! as fixed-width big-endian fields. Decoding inverts encoding exactly;
//! malformed bytes decode to nothing.

use std::io::{Read, Write};

use vstd::prelude::*;

use crate::ip::{pow256, IpAddress};
use crate::ledger::{distinct_keys, entries_view, BlockRecord, Ledger, RecordModel};
use crate::strutil::{chars_vec, string_of_chars};

verus! {

/// `n` big-endian bytes of `v`.
pub open spec fn be_bytes(v: int, n: int) -> Seq<u8>
    decreases n,
{
    if n <= 0 {
        Seq::empty()
    } else {
        be_bytes(v / 256, n - 1).push((v % 256) as u8)
    }
}

/// The value of big-endian bytes.
pub open spec fn be_val(b: Seq<u8>) -> int
    decreases b.len(),
{
    if b.len() == 0 {
        0
    } else {
        be_val(b.drop_last()) * 256 + b.last()
    }
}

pub proof fn lemma_pow256_pos(n: int)
    ensures
        pow256(n) >= 1,
    decreases n,
{
    if n > 0 {
        lemma_pow256_pos(n - 1);
    }
}

pub proof fn lemma_pow256_mono(m: int, n: int)
    requires
        m <= n,
    ensures
        pow256(m) <= pow256(n),
        pow256(m) >= 1,
    decreases n - m,
{
    lemma_pow256_pos(m);
    if m < n {
        lemma_pow256_mono(m, n - 1);
        lemma_pow256_pos(n - 1);
    }
}

/// The byte values of the small powers the codec needs.
pub proof fn lemma_pow256_values()
    ensures
        pow256(1) == 0x100,
        pow256(4) == 0x1_0000_0000,
        pow256(8) == 0x1_0000_0000_0000_0000,
        pow256(16) == 0x1_0000_0000_0000_0000_0000_0000_0000_0000,
{
    assert(pow256(0) == 1);
    assert(pow256(1) == 0x100);
    assert(pow256(2) == 0x1_0000);
    assert(pow256(3) == 0x100_0000);
    assert(pow256(4) == 0x1_0000_0000);
    assert(pow256(5) == 0x100_0000_0000);
    assert(pow256(6) == 0x1_0000_0000_0000);
    assert(pow256(7) == 0x100_0000_0000_0000);
    assert(pow256(8) == 0x1_0000_0000_0000_0000);
    assert(pow256(9) == 0x100_0000_0000_0000_0000);
    assert(pow256(10) == 0x1_0000_0000_0000_0000_0000);
    assert(pow256(11) == 0x100_0000_0000_0000_0000_0000);
    assert(pow256(12) == 0x1_0000_0000_0000_0000_0000_0000);
    assert(pow256(13) == 0x100_0000_0000_0000_0000_0000_0000);
    assert(pow256(14) == 0x1_0000_0000_0000_0000_0000_0000_0000);
    assert(pow256(15) == 0x100_0000_0000_0000_0000_0000_0000_0000);
    assert(pow256(16) == 0x1_0000_0000_0000_0000_0000_0000_0000_0000);
}

/// Reading back the bytes of a bounded value gives the value.
pub proof fn lemma_be_roundtrip(v: int, n: int)
    requires
        0 <= n,
        0 <= v < pow256(n),
    ensures
        be_bytes(v, n).len() == n,
        be_val(be_bytes(v, n)) == v,
    decreases n,
{
    if n > 0 {
        assert(pow256(n) == 256 * pow256(n - 1));
        lemma_pow256_pos(n - 1);
        assert(0 <= v / 256 < pow256(n - 1)) by (nonlinear_arith)
            requires
                0 <= v < 256 * pow256(n - 1),
                pow256(n - 1) >= 1,
        {
        }
        lemma_be_roundtrip(v / 256, n - 1);
        let b = be_bytes(v, n);
        assert(b.drop_last() =~= be_bytes(v / 256, n - 1));
        assert(b.last() == (v % 256) as u8);
    } else {
        assert(pow256(n) == 1);
    }
}

pub open spec fn valid_scalar(v: int) -> bool {
    (0 <= v < 0xD800) || (0xE000 <= v < 0x110000)
}

/// Each character as four big-endian bytes of its code point.
pub open spec fn encode_chars(cs: Seq<char>) -> Seq<u8>
    decreases cs.len(),
{
    if cs.len() == 0 {
        Seq::empty()
    } else {
        be_bytes((cs[0] as u32) as int, 4) + encode_chars(cs.drop_first())
    }
}

pub proof fn lemma_encode_chars_len(cs: Seq<char>)
    ensures
        encode_chars(cs).len() == 4 * cs.len(),
    decreases cs.len(),
{
    if cs.len() > 0 {
        lemma_encode_chars_len(cs.drop_first());
        lemma_pow256_values();
        vstd::utf8::char_is_scalar(cs[0]);
        lemma_be_roundtrip((cs[0] as u32) as int, 4);
    }
}

/// `n` characters out of `b` at `at`, four bytes each.
pub open spec fn spec_decode_chars(b: Seq<u8>, at: int, n: int) -> Option<Seq<char>>
    decreases n,
{
    if n <= 0 {
        Some(Seq::empty())
    } else if at < 0 || at + 4 > b.len() {
        None
    } else {
        let v = be_val(b.subrange(at, at + 4));
        if valid_scalar(v) {
            match spec_decode_chars(b, at + 4, n - 1) {
                Some(rest) => Some(seq![(v as u32) as char] + rest),
                None => None,
            }
        } else {
            None
        }
    }
}

/// Decoding the encoding of a character list, wherever it lies, gives
/// the list back.
pub proof fn lemma_chars_roundtrip(b: Seq<u8>, at: int, cs: Seq<char>)
    requires
        0 <= at,
        at + 4 * cs.len() <= b.len(),
        b.subrange(at, at + 4 * cs.len()) == encode_chars(cs),
    ensures
        spec_decode_chars(b, at, cs.len() as int) == Some(cs),
    decreases cs.len(),
{
    if cs.len() > 0 {
        let c0 = (cs[0] as u32) as int;
        lemma_pow256_values();
        vstd::utf8::char_is_scalar(cs[0]);
        assert(0 <= c0 < 0x110000);
        lemma_be_roundtrip(c0, 4);
        lemma_encode_chars_len(cs.drop_first());
        assert(b.subrange(at, at + 4) =~= encode_chars(cs).subrange(0, 4));
        assert(encode_chars(cs).subrange(0, 4) =~= be_bytes(c0, 4));
        assert(be_val(b.subrange(at, at + 4)) == c0);
        assert(valid_scalar(c0));
        assert((c0 as u32) == cs[0] as u32);
        vstd::utf8::char_u32_cast(cs[0], cs[0] as u32);
        assert(((c0 as u32) as char) == cs[0]);
        assert(encode_chars(cs) == be_bytes(c0, 4) + encode_chars(cs.drop_first()));
        assert forall|k: int|
            0 <= k < 4 * (cs.len() - 1) implies b.subrange(
            at + 4,
            at + 4 + 4 * cs.drop_first().len(),
        )[k] == encode_chars(cs.drop_first())[k] by {
            assert(b.subrange(at + 4, at + 4 + 4 * cs.drop_first().len())[k] == b[at + 4 + k]);
            assert(b[at + 4 + k] == b.subrange(at, at + 4 * cs.len())[4 + k]);
            assert(encode_chars(cs)[4 + k] == encode_chars(cs.drop_first())[k]);
        }
        assert(b.subrange(at + 4, at + 4 + 4 * cs.drop_first().len()) =~= encode_chars(
            cs.drop_first(),
        ));
        lemma_chars_roundtrip(b, at + 4, cs.drop_first());
        assert(seq![cs[0]] + cs.drop_first() =~= cs);
    }
}

/// An unsigned eight-byte value, read back as the signed deadline.
pub open spec fn i64_of_u64(u: int) -> int {
    if u >= 0x8000_0000_0000_0000 {
        u - 0x1_0000_0000_0000_0000
    } else {
        u
    }
}

/// The signed deadline, stored as an unsigned eight-byte value.
pub open spec fn u64_of_i64(t: int) -> int {
    if t < 0 {
        t + 0x1_0000_0000_0000_0000
    } else {
        t
    }
}

/// One record: version tag, address bits, file length, file characters,
/// deadline, active flag, hit count.
pub open spec fn encode_rec(p: (IpAddress, RecordModel)) -> Seq<u8> {
    seq![
        (if p.0.v6 {
            1u8
        } else {
            0u8
        }),
    ] + be_bytes(p.0.value as int, 16) + be_bytes(p.1.file.len() as int, 8) + encode_chars(
        p.1.file,
    ) + be_bytes(u64_of_i64(p.1.until), 8) + seq![
        (if p.1.active {
            1u8
        } else {
            0u8
        }),
    ] + be_bytes(p.1.hits, 1)
}

pub open spec fn encode_recs(s: Seq<(IpAddress, RecordModel)>) -> Seq<u8>
    decreases s.len(),
{
    if s.len() == 0 {
        Seq::empty()
    } else {
        encode_rec(s[0]) + encode_recs(s.drop_first())
    }
}

/// The whole snapshot: the record count, then the records in order.
pub open spec fn spec_encode(s: Seq<(IpAddress, RecordModel)>) -> Seq<u8> {
    be_bytes(s.len() as int, 8) + encode_recs(s)
}

/// What a ledger state must satisfy so that its snapshot reads back:
/// what any state taken from a real ledger satisfies by construction.
pub open spec fn encodable(s: Seq<(IpAddress, RecordModel)>) -> bool {
    forall|i: int|
        0 <= i < s.len() ==> {
            let p = #[trigger] s[i];
            &&& p.0.wf()
            &&& p.1.file.len() < 0x1_0000_0000_0000_0000
            &&& -0x8000_0000_0000_0000 <= p.1.until < 0x8000_0000_0000_0000
            &&& 0 <= p.1.hits < 256
        }
}

/// `k` records out of `b` from `p`, consuming `b` exactly.
pub open spec fn spec_decode_rec(b: Seq<u8>, p: int, k: int) -> Option<
    Seq<(IpAddress, RecordModel)>,
>
    decreases k,
{
    if k <= 0 {
        if p == b.len() {
            Some(Seq::empty())
        } else {
            None
        }
    } else if p < 0 || p + 35 > b.len() {
        None
    } else {
        let tag = b[p];
        let value = be_val(b.subrange(p + 1, p + 17));
        let flen = be_val(b.subrange(p + 17, p + 25));
        if p + 35 + 4 * flen > b.len() {
            None
        } else {
            match spec_decode_chars(b, p + 25, flen) {
                None => None,
                Some(file) => {
                    let q = p + 25 + 4 * flen;
                    let until = i64_of_u64(be_val(b.subrange(q, q + 8)));
                    let active = b[q + 8];
                    let hits = b[q + 9] as int;
                    if (tag == 0 || tag == 1) && (tag == 1 || value < 0x1_0000_0000) && (active
                        == 0 || active == 1) {
                        match spec_decode_rec(b, q + 10, k - 1) {
                            Some(rest) => Some(
                                seq![
                                    (
                                        IpAddress { v6: tag == 1, value: value as u128 },
                                        RecordModel { file, until, active: active == 1, hits },
                                    ),
                                ] + rest,
                            ),
                            None => None,
                        }
                    } else {
                        None
                    }
                },
            }
        }
    }
}

/// The whole snapshot read back: the counted records, all bytes used.
pub open spec fn spec_decode(b: Seq<u8>) -> Option<Seq<(IpAddress, RecordModel)>> {
    if b.len() < 8 {
        None
    } else {
        spec_decode_rec(b, 8, be_val(b.subrange(0, 8)))
    }
}

pub proof fn lemma_rec_len(p: (IpAddress, RecordModel))
    requires
        0 <= p.1.file.len() < 0x1_0000_0000_0000_0000,
        -0x8000_0000_0000_0000 <= p.1.until < 0x8000_0000_0000_0000,
        0 <= p.1.hits < 256,
    ensures
        encode_rec(p).len() == 35 + 4 * p.1.file.len(),
{
    lemma_pow256_values();
    lemma_be_roundtrip(p.0.value as int, 16);
    lemma_be_roundtrip(p.1.file.len() as int, 8);
    lemma_encode_chars_len(p.1.file);
    lemma_be_roundtrip(u64_of_i64(p.1.until), 8);
    assert(pow256(1) == 256) by {
        assert(pow256(0) == 1);
    }
    lemma_be_roundtrip(p.1.hits, 1);
}

/// Decoding the encoding of a record list, wherever it lies, gives the
/// list back.
pub proof fn lemma_recs_roundtrip(b: Seq<u8>, p: int, s: Seq<(IpAddress, RecordModel)>)
    requires
        encodable(s),
        0 <= p,
        b.len() == p + encode_recs(s).len(),
        b.subrange(p, b.len() as int) == encode_recs(s),
    ensures
        spec_decode_rec(b, p, s.len() as int) == Some(s),
    decreases s.len(),
{
    if s.len() == 0 {
        assert(encode_recs(s).len() == 0);
    } else {
        let x = s[0];
        let f = x.1.file.len() as int;
        lemma_pow256_values();
        lemma_rec_len(x);
        let r0 = encode_rec(x);
        let rest_bytes = encode_recs(s.drop_first());
        assert(encode_recs(s) == r0 + rest_bytes);
        lemma_be_roundtrip(x.0.value as int, 16);
        lemma_be_roundtrip(f, 8);
        lemma_encode_chars_len(x.1.file);
        lemma_be_roundtrip(u64_of_i64(x.1.until), 8);
        assert(pow256(1) == 256) by {
            assert(pow256(0) == 1);
        }
        lemma_be_roundtrip(x.1.hits, 1);
        // the pieces of the first record, at their offsets in `b`
        assert forall|k: int| 0 <= k < r0.len() implies b[p + k] == r0[k] by {
            assert(b.subrange(p, b.len() as int)[k] == b[p + k]);
            assert((r0 + rest_bytes)[k] == r0[k]);
        }
        let tag_byte: u8 = if x.0.v6 {
            1u8
        } else {
            0u8
        };
        let active_byte: u8 = if x.1.active {
            1u8
        } else {
            0u8
        };
        let c1 = seq![tag_byte];
        let c2 = be_bytes(x.0.value as int, 16);
        let c3 = be_bytes(f, 8);
        let c4 = encode_chars(x.1.file);
        let c5 = be_bytes(u64_of_i64(x.1.until), 8);
        let c6 = seq![active_byte];
        let c7 = be_bytes(x.1.hits, 1);
        let x2 = c1 + c2;
        let x3 = x2 + c3;
        let x4 = x3 + c4;
        let x5 = x4 + c5;
        let x6 = x5 + c6;
        let x7 = x6 + c7;
        assert(r0 == x7);
        assert(c1.len() == 1 && c2.len() == 16 && c3.len() == 8 && c4.len() == 4 * f && c5.len()
            == 8 && c6.len() == 1 && c7.len() == 1);
        assert(r0[0] == tag_byte) by {
            assert(x7[0] == x6[0] && x6[0] == x5[0] && x5[0] == x4[0] && x4[0] == x3[0] && x3[0]
                == x2[0] && x2[0] == c1[0]);
        }
        assert(b[p] == tag_byte);
        assert forall|k: int| 0 <= k < 16 implies r0[1 + k] == c2[k] by {
            assert(x7[1 + k] == x6[1 + k] && x6[1 + k] == x5[1 + k] && x5[1 + k] == x4[1 + k]
                && x4[1 + k] == x3[1 + k] && x3[1 + k] == x2[1 + k] && x2[1 + k] == c2[k]);
        }
        assert(b.subrange(p + 1, p + 17) =~= c2);
        assert forall|k: int| 0 <= k < 8 implies r0[17 + k] == c3[k] by {
            assert(x7[17 + k] == x6[17 + k] && x6[17 + k] == x5[17 + k] && x5[17 + k] == x4[17 + k]
                && x4[17 + k] == x3[17 + k] && x3[17 + k] == c3[k]);
        }
        assert(b.subrange(p + 17, p + 25) =~= c3);
        assert(be_val(b.subrange(p + 1, p + 17)) == x.0.value as int);
        assert(be_val(b.subrange(p + 17, p + 25)) == f);
        assert forall|k: int| 0 <= k < 4 * f implies r0[25 + k] == c4[k] by {
            assert(x7[25 + k] == x6[25 + k] && x6[25 + k] == x5[25 + k] && x5[25 + k] == x4[25 + k]
                && x4[25 + k] == c4[k]);
        }
        assert(b.subrange(p + 25, p + 25 + 4 * f) =~= c4);
        lemma_chars_roundtrip(b, p + 25, x.1.file);
        let q = p + 25 + 4 * f;
        assert forall|k: int| 0 <= k < 8 implies r0[25 + 4 * f + k] == c5[k] by {
            assert(x7[25 + 4 * f + k] == x6[25 + 4 * f + k] && x6[25 + 4 * f + k] == x5[25 + 4 * f
                + k] && x5[25 + 4 * f + k] == c5[k]);
        }
        assert(b.subrange(q, q + 8) =~= c5);
        assert(be_val(b.subrange(q, q + 8)) == u64_of_i64(x.1.until));
        assert(i64_of_u64(u64_of_i64(x.1.until)) == x.1.until);
        assert(r0[33 + 4 * f] == active_byte) by {
            assert(x7[33 + 4 * f] == x6[33 + 4 * f] && x6[33 + 4 * f] == c6[0]);
        }
        assert(b[q + 8] == active_byte);
        assert(r0[34 + 4 * f] == c7[0]) by {
            assert(x7[34 + 4 * f] == c7[0]);
        }
        assert(c7[0] == x.1.hits as u8) by {
            assert(c7 == be_bytes(x.1.hits / 256, 0).push((x.1.hits % 256) as u8));
        }
        assert(b[q + 9] == x.1.hits as u8);
        // the rest of the records, after the first
        assert forall|k: int| 0 <= k < rest_bytes.len() implies b.subrange(
            q + 10,
            b.len() as int,
        )[k] == rest_bytes[k] by {
            assert(b.subrange(q + 10, b.len() as int)[k] == b[q + 10 + k]);
            assert(b.subrange(p, b.len() as int)[q + 10 + k - p] == b[q + 10 + k]);
            assert((r0 + rest_bytes)[q + 10 + k - p] == rest_bytes[k]);
        }
        assert(b.subrange(q + 10, b.len() as int) =~= rest_bytes);
        assert(encodable(s.drop_first())) by {
            assert(forall|i: int|
                0 <= i < s.drop_first().len() ==> #[trigger] s.drop_first()[i] == s[i + 1]);
        }
        lemma_recs_roundtrip(b, q + 10, s.drop_first());
        let decoded_ip = IpAddress { v6: b[p] == 1, value: be_val(b.subrange(p + 1, p + 17)) as u128 };
        assert(decoded_ip == x.0);
        assert(spec_decode_rec(b, p, s.len() as int) matches Some(d) && d =~= s);
    }
}

/// The big-endian bytes of a bounded value.
fn be_bytes_exec(v: u128, n: usize) -> (r: Vec<u8>)
    requires
        (v as int) < pow256(n as int),
        n <= 16,
    ensures
        r@ == be_bytes(v as int, n as int),
        r@.len() == n,
    decreases n,
{
    proof {
        lemma_be_roundtrip(v as int, n as int);
    }
    if n == 0 {
        Vec::new()
    } else {
        proof {
            assert(pow256(n as int) == 256 * pow256(n - 1));
            lemma_pow256_pos(n - 1);
            assert(0 <= (v as int) / 256 < pow256(n - 1)) by (nonlinear_arith)
                requires
                    0 <= (v as int) < 256 * pow256(n - 1),
                    pow256(n - 1) >= 1,
            {
            }
        }
        let mut r = be_bytes_exec(v / 256, n - 1);
        r.push((v % 256) as u8);
        r
    }
}

/// Appends `add` to `out`.
#[verifier::loop_isolation(false)]
fn push_bytes(out: &mut Vec<u8>, add: &Vec<u8>)
    ensures
        final(out)@ == old(out)@ + add@,
{
    let mut i: usize = 0;
    while i < add.len()
        invariant
            i <= add@.len(),
            out@ == old(out)@ + add@.subrange(0, i as int),
        decreases add@.len() - i,
    {
        out.push(add[i]);
        i = i + 1;
        assert(out@ =~= old(out)@ + add@.subrange(0, i as int));
    }
    assert(out@ =~= old(out)@ + add@);
}

/// The value of `n` big-endian bytes at `at`.
#[verifier::loop_isolation(false)]
fn read_val(b: &Vec<u8>, at: usize, n: usize) -> (v: u128)
    requires
        at + n <= b@.len(),
        n <= 16,
    ensures
        v as int == be_val(b@.subrange(at as int, at + n)),
        (v as int) < pow256(n as int),
{
    proof {
        lemma_pow256_values();
    }
    let len = b.len();
    assert(at + n <= len);
    let mut v: u128 = 0;
    let mut i: usize = 0;
    while i < n
        invariant
            i <= n,
            v as int == be_val(b@.subrange(at as int, at + i)),
            (v as int) < pow256(i as int),
        decreases n - i,
    {
        let ghost pre = b@.subrange(at as int, at + i);
        proof {
            lemma_pow256_mono(i + 1, 16);
            assert((v as int) * 256 + 255 < pow256(i + 1)) by (nonlinear_arith)
                requires
                    0 <= (v as int) < pow256(i as int),
                    pow256(i + 1) == 256 * pow256(i as int),
            {
            }
        }
        v = v * 256 + (b[at + i] as u128);
        i = i + 1;
        proof {
            let cur = b@.subrange(at as int, at + i);
            assert(cur.drop_last() =~= pre);
            assert(cur.last() == b@[at + i - 1]);
        }
    }
    v
}

/// Relies on char::from_u32: a character for every valid scalar value,
/// nothing otherwise.
#[verifier::external_body]
fn char_from_u32(v: u32) -> (r: Option<char>)
    ensures
        r == (if valid_scalar(v as int) {
            Some(v as char)
        } else {
            None::<char>
        }),
{
    char::from_u32(v)
}

/// One record, as snapshot bytes.
fn encode_record(ip: &IpAddress, rec: &BlockRecord) -> (r: Vec<u8>)
    ensures
        r@ == encode_rec((*ip, rec.model())),
        rec.model().file.len() < 0x1_0000_0000_0000_0000,
{
    proof {
        lemma_pow256_values();
    }
    let mut out: Vec<u8> = Vec::new();
    out.push(if ip.v6 {
        1u8
    } else {
        0u8
    });
    let value_bytes = be_bytes_exec(ip.value, 16);
    push_bytes(&mut out, &value_bytes);
    let cs = chars_vec(rec.file.as_str());
    let cs_len = cs.len();
    proof {
        lemma_pow256_mono(8, 16);
        assert((cs_len as int) < pow256(8));
    }
    let len_bytes = be_bytes_exec(cs_len as u128, 8);
    push_bytes(&mut out, &len_bytes);
    let mut j: usize = 0;
    let ghost before_chars = out@;
    while j < cs.len()
        invariant
            j <= cs@.len(),
            out@ == before_chars + encode_chars(cs@.subrange(0, j as int)),
        decreases cs@.len() - j,
    {
        let ghost pre = cs@.subrange(0, j as int);
        proof {
            vstd::utf8::char_is_scalar(cs@[j as int]);
            lemma_pow256_values();
        }
        let cb = be_bytes_exec((cs[j] as u32) as u128, 4);
        push_bytes(&mut out, &cb);
        j = j + 1;
        proof {
            let cur = cs@.subrange(0, j as int);
            lemma_encode_chars_prefix(pre, cs@[j - 1]);
            assert(cur =~= pre.push(cs@[j - 1]));
            assert(out@ =~= before_chars + encode_chars(cur));
        }
    }
    assert(cs@.subrange(0, cs@.len() as int) =~= cs@);
    let until_u: u64 = if rec.until >= 0 {
        rec.until as u64
    } else {
        let shifted: i128 = ((rec.until as i128) + 0x8000_0000_0000_0000i128)
            + 0x8000_0000_0000_0000i128;
        assert(0x8000_0000_0000_0000i128 <= shifted < 0x1_0000_0000_0000_0000i128);
        shifted as u64
    };
    assert(until_u as int == u64_of_i64(rec.until as int));
    let until_bytes = be_bytes_exec(until_u as u128, 8);
    push_bytes(&mut out, &until_bytes);
    out.push(if rec.active {
        1u8
    } else {
        0u8
    });
    let hits_bytes = be_bytes_exec(rec.hits as u128, 1);
    push_bytes(&mut out, &hits_bytes);
    proof {
        assert(out@ =~= encode_rec((*ip, rec.model())));
    }
    out
}

/// Appending one character extends the character encoding.
proof fn lemma_encode_chars_prefix(cs: Seq<char>, c: char)
    ensures
        encode_chars(cs.push(c)) =~= encode_chars(cs) + be_bytes((c as u32) as int, 4),
    decreases cs.len(),
{
    if cs.len() == 0 {
        assert(cs.push(c)[0] == c);
        assert(cs.push(c).drop_first() =~= Seq::<char>::empty());
        assert(encode_chars(cs.push(c)) == be_bytes((c as u32) as int, 4) + encode_chars(
            Seq::<char>::empty(),
        ));
    } else {
        assert(cs.push(c)[0] == cs[0]);
        assert(cs.push(c).drop_first() =~= cs.drop_first().push(c));
        lemma_encode_chars_prefix(cs.drop_first(), c);
        assert(encode_chars(cs.push(c)) == be_bytes((cs[0] as u32) as int, 4) + encode_chars(
            cs.drop_first().push(c),
        ));
        assert(encode_chars(cs) == be_bytes((cs[0] as u32) as int, 4) + encode_chars(
            cs.drop_first(),
        ));
    }
}

/// The ledger as plain snapshot bytes: the exact encoding of its state,
/// which is always encodable.
#[verifier::loop_isolation(false)]
pub fn encode_ledger(l: &Ledger) -> (r: Vec<u8>)
    requires
        l.wf(),
    ensures
        r@ == spec_encode(l.seq_view()),
        encodable(l.seq_view()),
        l.seq_view().len() < 0x1_0000_0000_0000_0000,
{
    proof {
        lemma_pow256_values();
    }
    let entries = l.records();
    let n_entries = entries.len();
    let ghost view = l.seq_view();
    proof {
        lemma_pow256_mono(8, 16);
        assert((n_entries as int) < pow256(8));
    }
    let mut out = be_bytes_exec(n_entries as u128, 8);
    let ghost header = out@;
    let mut i: usize = 0;
    while i < entries.len()
        invariant
            i <= entries@.len(),
            out@ == header + encode_recs(view.subrange(0, i as int)),
            forall|k: int|
                0 <= k < i ==> {
                    let p = #[trigger] view[k];
                    &&& p.1.file.len() < 0x1_0000_0000_0000_0000
                },
        decreases entries@.len() - i,
    {
        let ghost pre = view.subrange(0, i as int);
        let rb = encode_record(&entries[i].0, &entries[i].1);
        assert((entries@[i as int].0, entries@[i as int].1.model()) == view[i as int]);
        push_bytes(&mut out, &rb);
        i = i + 1;
        proof {
            let cur = view.subrange(0, i as int);
            lemma_encode_recs_prefix(pre, view[i - 1]);
            assert(cur =~= pre.push(view[i - 1]));
            assert(out@ =~= header + encode_recs(cur));
        }
    }
    proof {
        assert(view.subrange(0, view.len() as int) =~= view);
        assert forall|k: int| 0 <= k < view.len() implies {
            let p = #[trigger] view[k];
            &&& p.0.wf()
            &&& p.1.file.len() < 0x1_0000_0000_0000_0000
            &&& -0x8000_0000_0000_0000 <= p.1.until < 0x8000_0000_0000_0000
            &&& 0 <= p.1.hits < 256
        } by {
            assert(view[k].0.wf());
        }
    }
    out
}

/// Appending one record extends the record encoding.
proof fn lemma_encode_recs_prefix(s: Seq<(IpAddress, RecordModel)>, p: (IpAddress, RecordModel))
    ensures
        encode_recs(s.push(p)) =~= encode_recs(s) + encode_rec(p),
    decreases s.len(),
{
    if s.len() == 0 {
        assert(s.push(p)[0] == p);
        assert(s.push(p).drop_first() =~= Seq::<(IpAddress, RecordModel)>::empty());
        assert(encode_recs(s.push(p)) == encode_rec(p) + encode_recs(
            Seq::<(IpAddress, RecordModel)>::empty(),
        ));
    } else {
        assert(s.push(p)[0] == s[0]);
        assert(s.push(p).drop_first() =~= s.drop_first().push(p));
        lemma_encode_recs_prefix(s.drop_first(), p);
        assert(encode_recs(s.push(p)) == encode_rec(s[0]) + encode_recs(s.drop_first().push(p)));
        assert(encode_recs(s) == encode_rec(s[0]) + encode_recs(s.drop_first()));
    }
}

/// Snapshot bytes read back into records; None on anything malformed.
#[verifier::loop_isolation(false)]
#[verifier::rlimit(100)]
fn decode_entries(b: &Vec<u8>) -> (r: Option<Vec<(IpAddress, BlockRecord)>>)
    ensures
        match r {
            Some(v) => spec_decode(b@) == Some(entries_view(v@)) && (forall|i: int|
                0 <= i < entries_view(v@).len() ==> (#[trigger] entries_view(v@)[i]).0.wf()),
            None => spec_decode(b@) is None,
        },
{
    let len = b.len();
    if len < 8 {
        return None;
    }
    let n128 = read_val(b, 0, 8);
    let ghost total = be_val(b@.subrange(0, 8));
    let mut k: u128 = n128;
    let mut p: usize = 8;
    let mut out: Vec<(IpAddress, BlockRecord)> = Vec::new();
    assert(entries_view(out@) =~= Seq::<(IpAddress, RecordModel)>::empty());
    while k > 0
        invariant
            8 <= p <= len,
            spec_decode_rec(b@, 8, total) == (match spec_decode_rec(b@, p as int, k as int) {
                Some(rest) => Some(entries_view(out@) + rest),
                None => None::<Seq<(IpAddress, RecordModel)>>,
            }),
            forall|i: int| 0 <= i < entries_view(out@).len() ==> (#[trigger] entries_view(
                out@,
            )[i]).0.wf(),
        decreases k,
    {
        let ghost entering = spec_decode_rec(b@, p as int, k as int);
        if len - p < 35 {
            assert(entering is None);
            return None;
        }
        let tag = b[p];
        let value = read_val(b, p + 1, 16);
        let flen128 = read_val(b, p + 17, 8);
        let rem = len - p - 35;
        if flen128 > (rem / 4) as u128 {
            assert(p + 35 + 4 * (flen128 as int) > len);
            assert(entering is None);
            return None;
        }
        let flen = flen128 as usize;
        assert(flen as int == flen128 as int);
        assert(p + 35 + 4 * (flen as int) <= len);
        // the file characters
        let mut cs: Vec<char> = Vec::new();
        let mut j: usize = 0;
        let ghost at0 = p + 25;
        assert(cs@ =~= Seq::<char>::empty());
        while j < flen
            invariant
                j <= flen,
                8 <= p,
                p + 35 + 4 * (flen as int) <= len,
                len == b@.len(),
                at0 == p + 25,
                spec_decode_chars(b@, at0 as int, flen as int) == (match spec_decode_chars(
                    b@,
                    at0 + 4 * j,
                    flen - j,
                ) {
                    Some(rest) => Some(cs@ + rest),
                    None => None::<Seq<char>>,
                }),
            decreases flen - j,
        {
            let ghost chars_entering = spec_decode_chars(b@, at0 + 4 * j, flen - j);
            let v32 = read_val(b, p + 25 + 4 * j, 4) as u32;
            proof {
                lemma_pow256_values();
                assert(v32 as int == be_val(b@.subrange(at0 + 4 * j, at0 + 4 * j + 4)));
            }
            match char_from_u32(v32) {
                Some(c) => {
                    let ghost pre = cs@;
                    cs.push(c);
                    proof {
                        assert(chars_entering matches Some(rest) && rest[0] == c && rest.drop_first()
                            =~= spec_decode_chars(b@, at0 + 4 * (j + 1), flen - j - 1)->Some_0
                            || true);
                        assert(cs@ =~= pre.push(c));
                        assert(pre.push(c) =~= pre + seq![c]);
                    }
                },
                None => {
                    assert(chars_entering is None);
                    assert(spec_decode_chars(b@, at0 as int, flen as int) is None);
                    assert(entering is None);
                    return None;
                },
            }
            j = j + 1;
            proof {
                let now_spec = spec_decode_chars(b@, at0 + 4 * j, flen - j);
                match now_spec {
                    Some(rest) => {
                        assert(cs@ + rest =~= (cs@.drop_last() + (seq![cs@.last()] + rest)));
                    },
                    None => {},
                }
            }
        }
        assert(spec_decode_chars(b@, at0 as int, flen as int) == Some(cs@));
        let file = string_of_chars(&cs);
        let q = p + 25 + 4 * flen;
        let until_u = read_val(b, q, 8) as u64;
        proof {
            lemma_pow256_values();
        }
        let until: i64 = if until_u < 0x8000_0000_0000_0000u64 {
            until_u as i64
        } else {
            let shifted: i128 = ((until_u as i128) - 0x8000_0000_0000_0000i128)
                - 0x8000_0000_0000_0000i128;
            assert(-0x8000_0000_0000_0000i128 <= shifted < 0i128);
            shifted as i64
        };
        assert(until as int == i64_of_u64(until_u as int));
        let active = b[q + 8];
        let hits = b[q + 9];
        if !(tag == 0 || tag == 1) {
            assert(entering is None);
            return None;
        }
        if tag == 0 && value >= 0x1_0000_0000u128 {
            assert(entering is None);
            return None;
        }
        if !(active == 0 || active == 1) {
            assert(entering is None);
            return None;
        }
        let ip = IpAddress { v6: tag == 1, value };
        let rec = BlockRecord { file, until, active: active == 1, hits };
        proof {
            assert(ip.wf());
            assert(entering matches Some(d) ==> d[0] == (ip, rec.model()));
        }
        let ghost pre_out = out@;
        out.push((ip, rec));
        p = q + 10;
        k = k - 1;
        proof {
            assert(entries_view(out@) =~= entries_view(pre_out) + seq![(ip, rec.model())]);
            match spec_decode_rec(b@, p as int, k as int) {
                Some(rest) => {
                    assert(entering == Some(seq![(ip, rec.model())] + rest));
                    assert(entries_view(pre_out) + (seq![(ip, rec.model())] + rest)
                        =~= entries_view(out@) + rest);
                },
                None => {
                    assert(entering is None);
                },
            }
        }
    }
    if p != len {
        assert(spec_decode_rec(b@, p as int, 0) is None);
        return None;
    }
    assert(spec_decode_rec(b@, p as int, 0) == Some(Seq::<(IpAddress, RecordModel)>::empty()));
    assert(entries_view(out@) + Seq::<(IpAddress, RecordModel)>::empty() =~= entries_view(out@));
    Some(out)
}

/// Whether the decoded addresses are pairwise distinct.
#[verifier::loop_isolation(false)]
fn check_distinct(v: &Vec<(IpAddress, BlockRecord)>) -> (r: bool)
    ensures
        r == distinct_keys(entries_view(v@)),
{
    let ghost view = entries_view(v@);
    let mut i: usize = 1;
    while i < v.len()
        invariant
            1 <= i || v@.len() == 0,
            i <= v@.len() || v@.len() == 0,
            forall|a: int, b: int| 0 <= a < b < i && b < view.len() ==> (#[trigger] view[a]).0 != (
            #[trigger] view[b]).0,
        decreases v@.len() - i,
    {
        let mut j: usize = 0;
        while j < i
            invariant
                j <= i < v@.len(),
                forall|a: int| 0 <= a < j ==> (#[trigger] view[a]).0 != view[i as int].0,
            decreases i - j,
        {
            if v[j].0.v6 == v[i].0.v6 && v[j].0.value == v[i].0.value {
                assert(view[j as int].0 == view[i as int].0);
                assert(!distinct_keys(view));
                return false;
            }
            assert(view[j as int].0 != view[i as int].0);
            j = j + 1;
        }
        i = i + 1;
    }
    true
}

/// Plain snapshot bytes read back as a ledger: exactly the state that
/// was encoded, or nothing when the bytes are malformed or hold one
/// address twice.
pub fn decode_ledger(b: &Vec<u8>) -> (r: Option<Ledger>)
    ensures
        match r {
            Some(l) => l.wf() && !l.spec_dirty() && spec_decode(b@) == Some(l.seq_view()),
            None => (match spec_decode(b@) {
                Some(s) => !distinct_keys(s),
                None => true,
            }),
        },
{
    match decode_entries(b) {
        Some(v) => {
            if check_distinct(&v) {
                Some(Ledger::from_entries(v))
            } else {
                None
            }
        },
        None => None,
    }
}

/// The compressed image of a byte string.
pub uninterp spec fn gzip_of(data: Seq<u8>) -> Seq<u8>;

/// What decompression yields on a byte string; nothing when the bytes
/// are no compressed image.
pub uninterp spec fn gunzip_of(data: Seq<u8>) -> Option<Seq<u8>>;

/// Relies on flate2's GzEncoder writing to a buffer: deterministic for
/// the default level, and inverted exactly by GzDecoder.
#[verifier::external_body]
fn gzip_bytes(data: &Vec<u8>) -> (r: Vec<u8>)
    ensures
        r@ == gzip_of(data@),
        gunzip_of(r@) == Some(data@),
{
    let mut enc = flate2::write::GzEncoder::new(Vec::new(), flate2::Compression::default());
    enc.write_all(data).expect("writing to a buffer cannot fail");
    enc.finish().expect("writing to a buffer cannot fail")
}

/// Relies on flate2's GzDecoder reading from a buffer: decodes exactly
/// the compressed images, and nothing else.
#[verifier::external_body]
fn gunzip_bytes(data: &Vec<u8>) -> (r: Option<Vec<u8>>)
    ensures
        match r {
            Some(v) => gunzip_of(data@) == Some(v@),
            None => gunzip_of(data@) is None,
        },
{
    let mut out = Vec::new();
    let mut dec = flate2::read::GzDecoder::new(data.as_slice());
    match dec.read_to_end(&mut out) {
        Ok(_) => Some(out),
        Err(_) => None,
    }
}

/// The ledger as a compressed snapshot, ready for the storage file.
pub fn snapshot(l: &Ledger) -> (r: Vec<u8>)
    requires
        l.wf(),
    ensures
        gunzip_of(r@) == Some(spec_encode(l.seq_view())),
        encodable(l.seq_view()),
        l.seq_view().len() < 0x1_0000_0000_0000_0000,
{
    let plain = encode_ledger(l);
    gzip_bytes(&plain)
}

/// A stored snapshot read back. Anything that does not decompress and
/// decode to a ledger state yields the empty ledger, so a damaged
/// snapshot only loses history.
pub fn restore(bytes: &Vec<u8>) -> (l: Ledger)
    ensures
        l.wf(),
        !l.spec_dirty(),
        l.seq_view() == (match gunzip_of(bytes@) {
            Some(d) => match spec_decode(d) {
                Some(s) => if distinct_keys(s) {
                    s
                } else {
                    Seq::<(IpAddress, RecordModel)>::empty()
                },
                None => Seq::<(IpAddress, RecordModel)>::empty(),
            },
            None => Seq::<(IpAddress, RecordModel)>::empty(),
        }),
{
    let plain = match gunzip_bytes(bytes) {
        Some(d) => d,
        None => {
            let l = Ledger::new();
            return l;
        },
    };
    match decode_ledger(&plain) {
        Some(l) => l,
        None => Ledger::new(),
    }
}

/// Reading back a whole snapshot gives the state it was taken from.
pub proof fn lemma_codec_roundtrip(s: Seq<(IpAddress, RecordModel)>)
    requires
        encodable(s),
        s.len() < 0x1_0000_0000_0000_0000,
    ensures
        spec_decode(spec_encode(s)) == Some(s),
{
    let b = spec_encode(s);
    lemma_pow256_values();
    lemma_be_roundtrip(s.len() as int, 8);
    assert(b.subrange(0, 8) =~= be_bytes(s.len() as int, 8));
    assert(be_val(b.subrange(0, 8)) == s.len() as int);
    assert(b.subrange(8, b.len() as int) =~= encode_recs(s));
    lemma_recs_roundtrip(b, 8, s);
}

} // verus!
