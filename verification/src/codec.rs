//! The wire format of the control channel. Requests are one fixed-size
//! frame; answers are a tag byte followed by length-prefixed strings and
//! lists. Both directions are specified byte for byte, and decoding is
//! proved to invert encoding.

use crate::{Answer, AnswerModel, Request};
use vstd::arithmetic::div_mod::{lemma_div_denominator, lemma_fundamental_div_mod};
use vstd::prelude::*;

verus! {

/// Number of bytes in every request frame.
pub const REQUEST_FRAME_LEN: usize = 4;

/// 256 to the power `e`.
pub open spec fn pow256(e: nat) -> int
    decreases e,
{
    if e == 0 {
        1
    } else {
        256 * pow256((e - 1) as nat)
    }
}

pub proof fn lemma_pow256_pos(e: nat)
    ensures
        pow256(e) >= 1,
    decreases e,
{
    if e > 0 {
        lemma_pow256_pos((e - 1) as nat);
    }
}

/// The `len` little-endian base-256 digits of `n` modulo `256^len`.
pub open spec fn enc_le(n: int, len: nat) -> Seq<u8>
    recommends
        n >= 0,
    decreases len,
{
    if len == 0 {
        Seq::empty()
    } else {
        seq![(n % 256) as u8] + enc_le(n / 256, (len - 1) as nat)
    }
}

/// The value read from little-endian base-256 digits.
pub open spec fn dec_le(b: Seq<u8>) -> int
    decreases b.len(),
{
    if b.len() == 0 {
        0
    } else {
        b[0] + 256 * dec_le(b.drop_first())
    }
}

pub proof fn lemma_enc_le_len(n: int, len: nat)
    ensures
        enc_le(n, len).len() == len,
    decreases len,
{
    if len > 0 {
        lemma_enc_le_len(n / 256, (len - 1) as nat);
    }
}

pub proof fn lemma_dec_le_bound(b: Seq<u8>)
    ensures
        0 <= dec_le(b) < pow256(b.len() as nat),
    decreases b.len(),
{
    if b.len() > 0 {
        lemma_dec_le_bound(b.drop_first());
    }
}

/// Decoding the digits of `n` gives `n` back.
pub proof fn lemma_dec_enc_le(n: int, len: nat)
    requires
        0 <= n < pow256(len),
    ensures
        dec_le(enc_le(n, len)) == n,
    decreases len,
{
    if len == 0 {
    } else {
        let tail = enc_le(n / 256, (len - 1) as nat);
        assert((seq![(n % 256) as u8] + tail).drop_first() =~= tail);
        lemma_fundamental_div_mod(n, 256);
        lemma_dec_enc_le(n / 256, (len - 1) as nat);
        lemma_enc_le_len(n / 256, (len - 1) as nat);
    }
}

/// Writing one more digit appends the next base-256 digit of `n`.
proof fn lemma_enc_le_snoc(n: int, len: nat)
    requires
        n >= 0,
    ensures
        enc_le(n, (len + 1) as nat) =~= enc_le(n, len).push(((n / pow256(len)) % 256) as u8),
    decreases len,
{
    if len == 0 {
        assert(n / 1 == n) by (nonlinear_arith);
        assert(pow256(0) == 1);
        let x = ((n / pow256(0)) % 256) as u8;
        assert(x == (n % 256) as u8);
        assert(enc_le(n, 0).push(x) =~= seq![(n % 256) as u8]);
        assert(enc_le(n, 1) =~= seq![(n % 256) as u8] + enc_le(n / 256, 0));
        assert(enc_le(n, 1) =~= seq![(n % 256) as u8]);
    } else {
        lemma_enc_le_snoc(n / 256, (len - 1) as nat);
        lemma_pow256_pos((len - 1) as nat);
        lemma_div_denominator(n, 256, pow256((len - 1) as nat));
        assert(256 * pow256((len - 1) as nat) == pow256(len));
        let x = ((n / pow256(len)) % 256) as u8;
        let head = seq![(n % 256) as u8];
        let small = enc_le(n / 256, (len - 1) as nat);
        assert(enc_le(n / 256, len) =~= small.push(x));
        assert(enc_le(n, (len + 1) as nat) =~= head + small.push(x));
        assert(enc_le(n, len).push(x) =~= head + small.push(x));
    }
}

/// Appends the `len`-byte little-endian form of `n`.
fn push_le(out: &mut Vec<u8>, n: u64, len: usize)
    ensures
        final(out)@ == old(out)@ + enc_le(n as int, len as nat),
{
    let mut k: u64 = n;
    let mut i: usize = 0;
    proof {
        assert(n as int / pow256(0) == n as int) by (nonlinear_arith);
        assert(out@ =~= old(out)@ + enc_le(n as int, 0));
    }
    while i < len
        invariant
            i <= len,
            k as int == n as int / pow256(i as nat),
            out@ == old(out)@ + enc_le(n as int, i as nat),
        decreases len - i,
    {
        let b = (k % 256) as u8;
        out.push(b);
        proof {
            lemma_pow256_pos(i as nat);
            lemma_enc_le_snoc(n as int, i as nat);
            assert(out@ =~= old(out)@ + enc_le(n as int, (i + 1) as nat));
            lemma_div_denominator(n as int, pow256(i as nat), 256);
            assert(pow256(i as nat) * 256 == pow256((i + 1) as nat));
        }
        k = k / 256;
        i = i + 1;
    }
}

/// Reads `len <= 8` little-endian bytes at `pos`; `None` when the input is
/// too short.
fn read_le(b: &[u8], pos: usize, len: usize) -> (r: Option<(u64, usize)>)
    requires
        pos <= b@.len(),
        len <= 8,
    ensures
        match r {
            Some(v) => pos + len <= b@.len() && v.0 as int == dec_le(
                b@.subrange(pos as int, pos as int + len),
            ) && v.1 == pos + len,
            None => pos + len > b@.len(),
        },
{
    if b.len() - pos < len {
        return None;
    }
    let mut n: u64 = 0;
    let mut i: usize = len;
    proof {
        assert(b@.subrange(pos as int + len, pos as int + len) =~= Seq::<u8>::empty());
    }
    while i > 0
        invariant
            i <= len,
            len <= 8,
            pos + len <= b@.len(),
            b@.len() <= usize::MAX,
            n as int == dec_le(b@.subrange(pos as int + i, pos as int + len)),
            (n as int) < pow256((len - i) as nat),
        decreases i,
    {
        i = i - 1;
        let c = b[pos + i];
        proof {
            let s = b@.subrange(pos as int + i, pos as int + len);
            assert(s.drop_first() =~= b@.subrange(pos as int + i + 1, pos as int + len));
            lemma_pow256_pos((len - i - 1) as nat);
            assert(pow256((len - i) as nat) <= pow256(8)) by {
                lemma_pow256_increases((len - i) as nat, 8);
            }
            assert(pow256(8) == 0x1_0000_0000_0000_0000) by {
                reveal_with_fuel(pow256, 9);
            }
        }
        n = n * 256 + (c as u64);
    }
    proof {
        assert(b@.subrange(pos as int, pos as int + len) =~= b@.subrange(
            pos as int + 0,
            pos as int + len,
        ));
    }
    Some((n, pos + len))
}

proof fn lemma_pow256_increases(a: nat, b: nat)
    requires
        a <= b,
    ensures
        pow256(a) <= pow256(b),
    decreases b,
{
    if a < b && b > 0 {
        lemma_pow256_increases(a, (b - 1) as nat);
        lemma_pow256_pos((b - 1) as nat);
    }
}

/// The tag byte of a request.
pub open spec fn request_tag(r: Request) -> u8 {
    match r {
        Request::Kill => 0,
        Request::Ping => 1,
        Request::Next => 2,
        Request::Waybar => 3,
        Request::All => 4,
    }
}

/// The fixed-size frame of a request: its tag padded to four bytes.
pub open spec fn enc_request(r: Request) -> Seq<u8> {
    seq![request_tag(r), 0u8, 0u8, 0u8]
}

/// The request a four-byte frame denotes, if any.
pub open spec fn dec_request(b: Seq<u8>) -> Option<Request> {
    if b.len() == 4 && b[1] == 0 && b[2] == 0 && b[3] == 0 {
        if b[0] == 0 {
            Some(Request::Kill)
        } else if b[0] == 1 {
            Some(Request::Ping)
        } else if b[0] == 2 {
            Some(Request::Next)
        } else if b[0] == 3 {
            Some(Request::Waybar)
        } else if b[0] == 4 {
            Some(Request::All)
        } else {
            None
        }
    } else {
        None
    }
}

/// Encodes a request as its fixed-size frame.
pub fn encode_request(r: &Request) -> (out: Vec<u8>)
    ensures
        out@ == enc_request(*r),
        out@.len() == REQUEST_FRAME_LEN,
{
    let tag: u8 = match r {
        Request::Kill => 0,
        Request::Ping => 1,
        Request::Next => 2,
        Request::Waybar => 3,
        Request::All => 4,
    };
    let mut out: Vec<u8> = Vec::new();
    out.push(tag);
    out.push(0);
    out.push(0);
    out.push(0);
    proof {
        assert(out@ =~= enc_request(*r));
    }
    out
}

/// Decodes a request frame.
pub fn decode_request(b: &[u8]) -> (r: Option<Request>)
    ensures
        r == dec_request(b@),
{
    if b.len() != 4 {
        return None;
    }
    if b[1] != 0 || b[2] != 0 || b[3] != 0 {
        return None;
    }
    match b[0] {
        0 => Some(Request::Kill),
        1 => Some(Request::Ping),
        2 => Some(Request::Next),
        3 => Some(Request::Waybar),
        4 => Some(Request::All),
        _ => None,
    }
}

/// Decoding a request frame yields the request that was encoded.
pub proof fn lemma_request_round_trip(r: Request)
    ensures
        dec_request(enc_request(r)) == Some(r),
{
}

/// Integer values that denote a Unicode scalar value.
pub open spec fn valid_char_code(v: int) -> bool {
    (0 <= v <= 0xD7FF) || (0xE000 <= v <= 0x10FFFF)
}

/// The characters of `s`, four little-endian bytes each.
pub open spec fn enc_chars(s: Seq<char>) -> Seq<u8>
    decreases s.len(),
{
    if s.len() == 0 {
        Seq::empty()
    } else {
        enc_le(s[0] as int, 4) + enc_chars(s.drop_first())
    }
}

/// A length-prefixed string: the character count, then the characters.
pub open spec fn enc_str(s: Seq<char>) -> Seq<u8> {
    enc_le(s.len() as int, 8) + enc_chars(s)
}

/// Two strings in sequence.
pub open spec fn enc_pair(p: (Seq<char>, Seq<char>)) -> Seq<u8> {
    enc_str(p.0) + enc_str(p.1)
}

/// The elements of a list of string pairs.
pub open spec fn enc_pairs(l: Seq<(Seq<char>, Seq<char>)>) -> Seq<u8>
    decreases l.len(),
{
    if l.len() == 0 {
        Seq::empty()
    } else {
        enc_pair(l[0]) + enc_pairs(l.drop_first())
    }
}

/// A length-prefixed list of string pairs.
pub open spec fn enc_list(l: Seq<(Seq<char>, Seq<char>)>) -> Seq<u8> {
    enc_le(l.len() as int, 8) + enc_pairs(l)
}

/// The bytes of an answer: a tag byte, then the variant's payload.
pub open spec fn enc_answer(m: AnswerModel) -> Seq<u8> {
    match m {
        AnswerModel::Ping => seq![0u8],
        AnswerModel::Next(a, b, c) => seq![1u8] + enc_str(a) + enc_str(b) + enc_str(c),
        AnswerModel::Waybar(a, b, c, l) => seq![2u8] + enc_str(a) + enc_str(b) + enc_str(c)
            + enc_list(l),
        AnswerModel::All(l) => seq![3u8] + enc_list(l),
    }
}

/// Reads an eight-byte length prefix; the value and the rest.
pub open spec fn dec_len(b: Seq<u8>) -> Option<(int, Seq<u8>)> {
    if b.len() >= 8 {
        Some((dec_le(b.take(8)), b.skip(8)))
    } else {
        None
    }
}

/// Reads `n` characters; the string and the rest.
pub open spec fn dec_chars(b: Seq<u8>, n: int) -> Option<(Seq<char>, Seq<u8>)>
    decreases n,
{
    if n <= 0 {
        Some((Seq::empty(), b))
    } else if b.len() < 4 {
        None
    } else {
        let v = dec_le(b.take(4));
        if valid_char_code(v) {
            match dec_chars(b.skip(4), n - 1) {
                Some(p) => Some((seq![v as char] + p.0, p.1)),
                None => None,
            }
        } else {
            None
        }
    }
}

/// Reads one length-prefixed string; the string and the rest.
pub open spec fn dec_str(b: Seq<u8>) -> Option<(Seq<char>, Seq<u8>)> {
    match dec_len(b) {
        Some(p) => dec_chars(p.1, p.0),
        None => None,
    }
}

/// Reads `n` string pairs; the list and the rest.
pub open spec fn dec_pairs(b: Seq<u8>, n: int) -> Option<(Seq<(Seq<char>, Seq<char>)>, Seq<u8>)>
    decreases n,
{
    if n <= 0 {
        Some((Seq::empty(), b))
    } else {
        match dec_str(b) {
            Some(p1) => match dec_str(p1.1) {
                Some(p2) => match dec_pairs(p2.1, n - 1) {
                    Some(pr) => Some((seq![(p1.0, p2.0)] + pr.0, pr.1)),
                    None => None,
                },
                None => None,
            },
            None => None,
        }
    }
}

/// Reads one length-prefixed list of string pairs; the list and the rest.
pub open spec fn dec_list(b: Seq<u8>) -> Option<(Seq<(Seq<char>, Seq<char>)>, Seq<u8>)> {
    match dec_len(b) {
        Some(p) => dec_pairs(p.1, p.0),
        None => None,
    }
}

/// The answer a byte sequence denotes, if any; the whole input must be
/// consumed.
pub open spec fn dec_answer(b: Seq<u8>) -> Option<AnswerModel> {
    if b.len() == 0 {
        None
    } else {
        let t = b[0];
        let r = b.drop_first();
        if t == 0 {
            if r.len() == 0 {
                Some(AnswerModel::Ping)
            } else {
                None
            }
        } else if t == 1 {
            match dec_str(r) {
                Some(p1) => match dec_str(p1.1) {
                    Some(p2) => match dec_str(p2.1) {
                        Some(p3) => if p3.1.len() == 0 {
                            Some(AnswerModel::Next(p1.0, p2.0, p3.0))
                        } else {
                            None
                        },
                        None => None,
                    },
                    None => None,
                },
                None => None,
            }
        } else if t == 2 {
            match dec_str(r) {
                Some(p1) => match dec_str(p1.1) {
                    Some(p2) => match dec_str(p2.1) {
                        Some(p3) => match dec_list(p3.1) {
                            Some(p4) => if p4.1.len() == 0 {
                                Some(AnswerModel::Waybar(p1.0, p2.0, p3.0, p4.0))
                            } else {
                                None
                            },
                            None => None,
                        },
                        None => None,
                    },
                    None => None,
                },
                None => None,
            }
        } else if t == 3 {
            match dec_list(r) {
                Some(p) => if p.1.len() == 0 {
                    Some(AnswerModel::All(p.0))
                } else {
                    None
                },
                None => None,
            }
        } else {
            None
        }
    }
}

proof fn lemma_dec_len_enc(n: int, rest: Seq<u8>)
    requires
        0 <= n < pow256(8),
    ensures
        dec_len(enc_le(n, 8) + rest) == Some((n, rest)),
{
    lemma_enc_le_len(n, 8);
    assert((enc_le(n, 8) + rest).take(8) =~= enc_le(n, 8));
    assert((enc_le(n, 8) + rest).skip(8) =~= rest);
    lemma_dec_enc_le(n, 8);
}

proof fn lemma_dec_chars_enc(s: Seq<char>, rest: Seq<u8>)
    ensures
        dec_chars(enc_chars(s) + rest, s.len() as int) == Some((s, rest)),
    decreases s.len(),
{
    if s.len() == 0 {
        assert(enc_chars(s) + rest =~= rest);
    } else {
        let v = s[0] as int;
        vstd::utf8::char_is_scalar(s[0]);
        vstd::utf8::char_u32_cast(s[0], s[0] as u32);
        assert(s[0] as u32 == v);
        assert(valid_char_code(v));
        assert(pow256(4) == 0x1_0000_0000) by {
            reveal_with_fuel(pow256, 5);
        }
        lemma_enc_le_len(v, 4);
        let b = enc_chars(s) + rest;
        let tail = enc_chars(s.drop_first()) + rest;
        assert(b =~= enc_le(v, 4) + tail);
        assert(b.take(4) =~= enc_le(v, 4));
        assert(b.skip(4) =~= tail);
        lemma_dec_enc_le(v, 4);
        lemma_dec_chars_enc(s.drop_first(), rest);
        assert((v as char) == s[0]);
        assert(seq![s[0]] + s.drop_first() =~= s);
        assert(b.len() >= 4);
    }
}

proof fn lemma_dec_str_enc(s: Seq<char>, rest: Seq<u8>)
    requires
        s.len() < pow256(8),
    ensures
        dec_str(enc_str(s) + rest) == Some((s, rest)),
{
    assert(enc_str(s) + rest =~= enc_le(s.len() as int, 8) + (enc_chars(s) + rest));
    lemma_dec_len_enc(s.len() as int, enc_chars(s) + rest);
    lemma_dec_chars_enc(s, rest);
}

/// Every length that the encoding writes fits its eight-byte prefix.
pub open spec fn list_bounded(l: Seq<(Seq<char>, Seq<char>)>) -> bool {
    &&& l.len() < pow256(8)
    &&& forall|i: int|
        0 <= i < l.len() ==> (#[trigger] l[i]).0.len() < pow256(8) && l[i].1.len() < pow256(8)
}

proof fn lemma_dec_pairs_enc(l: Seq<(Seq<char>, Seq<char>)>, rest: Seq<u8>)
    requires
        list_bounded(l),
    ensures
        dec_pairs(enc_pairs(l) + rest, l.len() as int) == Some((l, rest)),
    decreases l.len(),
{
    if l.len() == 0 {
        assert(enc_pairs(l) + rest =~= rest);
    } else {
        let b = enc_pairs(l) + rest;
        let after0 = enc_str(l[0].1) + (enc_pairs(l.drop_first()) + rest);
        assert(b =~= enc_str(l[0].0) + after0);
        lemma_dec_str_enc(l[0].0, after0);
        lemma_dec_str_enc(l[0].1, enc_pairs(l.drop_first()) + rest);
        assert(list_bounded(l.drop_first())) by {
            assert(forall|i: int|
                0 <= i < l.drop_first().len() ==> #[trigger] l.drop_first()[i] == l[i + 1]);
        }
        lemma_dec_pairs_enc(l.drop_first(), rest);
        assert(seq![(l[0].0, l[0].1)] + l.drop_first() =~= l);
    }
}

proof fn lemma_dec_list_enc(l: Seq<(Seq<char>, Seq<char>)>, rest: Seq<u8>)
    requires
        list_bounded(l),
    ensures
        dec_list(enc_list(l) + rest) == Some((l, rest)),
{
    assert(enc_list(l) + rest =~= enc_le(l.len() as int, 8) + (enc_pairs(l) + rest));
    lemma_dec_len_enc(l.len() as int, enc_pairs(l) + rest);
    lemma_dec_pairs_enc(l, rest);
}

/// Every length in the answer fits its eight-byte prefix. Anything that fits
/// in memory does.
pub open spec fn answer_bounded(m: AnswerModel) -> bool {
    match m {
        AnswerModel::Ping => true,
        AnswerModel::Next(a, b, c) => a.len() < pow256(8) && b.len() < pow256(8) && c.len()
            < pow256(8),
        AnswerModel::Waybar(a, b, c, l) => a.len() < pow256(8) && b.len() < pow256(8) && c.len()
            < pow256(8) && list_bounded(l),
        AnswerModel::All(l) => list_bounded(l),
    }
}

/// Decoding the bytes of an answer yields the answer that was encoded.
#[verifier::rlimit(60)]
pub proof fn lemma_answer_round_trip(m: AnswerModel)
    requires
        answer_bounded(m),
    ensures
        dec_answer(enc_answer(m)) == Some(m),
{
    let e = enc_answer(m);
    match m {
        AnswerModel::Ping => {
            assert(e.drop_first() =~= Seq::<u8>::empty());
        },
        AnswerModel::Next(a, b, c) => {
            let after_a = enc_str(b) + (enc_str(c) + Seq::<u8>::empty());
            assert(e.drop_first() =~= enc_str(a) + after_a);
            lemma_dec_str_enc(a, after_a);
            lemma_dec_str_enc(b, enc_str(c) + Seq::<u8>::empty());
            lemma_dec_str_enc(c, Seq::<u8>::empty());
            assert(e[0] == 1);
        },
        AnswerModel::Waybar(a, b, c, l) => {
            let after_c = enc_list(l) + Seq::<u8>::empty();
            let after_b = enc_str(c) + after_c;
            let after_a = enc_str(b) + after_b;
            assert(e.drop_first() =~= enc_str(a) + after_a);
            lemma_dec_str_enc(a, after_a);
            lemma_dec_str_enc(b, after_b);
            lemma_dec_str_enc(c, after_c);
            lemma_dec_list_enc(l, Seq::<u8>::empty());
            assert(e[0] == 2);
        },
        AnswerModel::All(l) => {
            assert(e.drop_first() =~= enc_list(l) + Seq::<u8>::empty());
            lemma_dec_list_enc(l, Seq::<u8>::empty());
            assert(e[0] == 3);
        },
    }
}

proof fn lemma_enc_chars_snoc(s: Seq<char>, i: int)
    requires
        0 <= i < s.len(),
    ensures
        enc_chars(s.take(i + 1)) =~= enc_chars(s.take(i)) + enc_le(s[i] as int, 4),
    decreases i,
{
    if i == 0 {
        let t1 = s.take(1);
        assert(t1.len() == 1);
        assert(t1[0] == s[0]);
        assert(t1.drop_first() =~= Seq::<char>::empty());
        assert(enc_chars(t1.drop_first()) =~= Seq::<u8>::empty());
        assert(enc_chars(t1) == enc_le(t1[0] as int, 4) + enc_chars(t1.drop_first()));
        assert(enc_chars(t1) =~= enc_le(s[0] as int, 4) + Seq::<u8>::empty());
        assert(s.take(0) =~= Seq::<char>::empty());
        assert(enc_chars(s.take(0)) + enc_le(s[0] as int, 4) =~= enc_le(s[0] as int, 4));
    } else {
        let tail = s.drop_first();
        lemma_enc_chars_snoc(tail, i - 1);
        assert(s.take(i + 1).drop_first() =~= tail.take(i));
        assert(s.take(i).drop_first() =~= tail.take(i - 1));
        assert(s.take(i + 1)[0] == s[0]);
        assert(s.take(i)[0] == s[0]);
        assert(tail[i - 1] == s[i]);
        assert(enc_chars(s.take(i + 1)) =~= enc_le(s[0] as int, 4) + (enc_chars(tail.take(i - 1))
            + enc_le(s[i] as int, 4)));
        assert(enc_chars(s.take(i)) + enc_le(s[i] as int, 4) =~= (enc_le(s[0] as int, 4)
            + enc_chars(tail.take(i - 1))) + enc_le(s[i] as int, 4));
    }
}

/// Appends the length-prefixed bytes of `s`.
fn push_str_bytes(out: &mut Vec<u8>, s: &str)
    ensures
        final(out)@ == old(out)@ + enc_str(s@),
{
    let len = s.unicode_len();
    push_le(out, len as u64, 8);
    let mut i: usize = 0;
    proof {
        assert(s@.take(0) =~= Seq::<char>::empty());
        assert(out@ =~= old(out)@ + enc_le(s@.len() as int, 8) + enc_chars(s@.take(0)));
    }
    while i < len
        invariant
            i <= len,
            len == s@.len(),
            out@ == old(out)@ + enc_le(s@.len() as int, 8) + enc_chars(s@.take(i as int)),
        decreases len - i,
    {
        let c = s.get_char(i);
        push_le(out, c as u64, 4);
        proof {
            lemma_enc_chars_snoc(s@, i as int);
            vstd::utf8::char_is_scalar(c);
            assert(c as u64 as int == s@[i as int] as int);
            assert(out@ =~= old(out)@ + enc_le(s@.len() as int, 8) + enc_chars(
                s@.take(i as int + 1),
            ));
        }
        i = i + 1;
    }
    proof {
        assert(s@.take(len as int) =~= s@);
        assert(out@ =~= old(out)@ + enc_str(s@));
    }
}

proof fn lemma_enc_pairs_snoc(l: Seq<(Seq<char>, Seq<char>)>, i: int)
    requires
        0 <= i < l.len(),
    ensures
        enc_pairs(l.take(i + 1)) =~= enc_pairs(l.take(i)) + enc_pair(l[i]),
    decreases i,
{
    if i == 0 {
        let t1 = l.take(1);
        assert(t1.len() == 1);
        assert(t1[0] == l[0]);
        assert(t1.drop_first() =~= Seq::<(Seq<char>, Seq<char>)>::empty());
        assert(enc_pairs(t1.drop_first()) =~= Seq::<u8>::empty());
        assert(enc_pairs(t1) == enc_pair(t1[0]) + enc_pairs(t1.drop_first()));
        assert(enc_pairs(t1) =~= enc_pair(l[0]) + Seq::<u8>::empty());
        assert(l.take(0) =~= Seq::<(Seq<char>, Seq<char>)>::empty());
        assert(enc_pairs(l.take(0)) + enc_pair(l[0]) =~= enc_pair(l[0]));
    } else {
        let tail = l.drop_first();
        lemma_enc_pairs_snoc(tail, i - 1);
        assert(l.take(i + 1).drop_first() =~= tail.take(i));
        assert(l.take(i).drop_first() =~= tail.take(i - 1));
        assert(l.take(i + 1)[0] == l[0]);
        assert(l.take(i)[0] == l[0]);
        assert(tail[i - 1] == l[i]);
        assert(enc_pairs(l.take(i + 1)) =~= enc_pair(l[0]) + (enc_pairs(tail.take(i - 1))
            + enc_pair(l[i])));
        assert(enc_pairs(l.take(i)) + enc_pair(l[i]) =~= (enc_pair(l[0]) + enc_pairs(
            tail.take(i - 1),
        )) + enc_pair(l[i]));
    }
}

/// Appends the length-prefixed bytes of a list of string pairs.
fn push_list(out: &mut Vec<u8>, l: &Vec<(String, String)>)
    ensures
        final(out)@ == old(out)@ + enc_list(l.deep_view()),
{
    let dv = Ghost(l.deep_view());
    proof {
        assert(dv@.len() == l@.len());
    }
    push_le(out, l.len() as u64, 8);
    let mut i: usize = 0;
    proof {
        assert(dv@.take(0) =~= Seq::<(Seq<char>, Seq<char>)>::empty());
        assert(out@ =~= old(out)@ + enc_le(dv@.len() as int, 8) + enc_pairs(dv@.take(0)));
    }
    while i < l.len()
        invariant
            i <= l@.len(),
            dv@ == l.deep_view(),
            dv@.len() == l@.len(),
            out@ == old(out)@ + enc_le(dv@.len() as int, 8) + enc_pairs(dv@.take(i as int)),
        decreases l@.len() - i,
    {
        let pair = &l[i];
        push_str_bytes(out, pair.0.as_str());
        push_str_bytes(out, pair.1.as_str());
        proof {
            lemma_enc_pairs_snoc(dv@, i as int);
            assert(dv@[i as int] == (l@[i as int].0@, l@[i as int].1@));
            assert(out@ =~= old(out)@ + enc_le(dv@.len() as int, 8) + enc_pairs(
                dv@.take(i as int + 1),
            ));
        }
        i = i + 1;
    }
    proof {
        assert(dv@.take(l@.len() as int) =~= dv@);
        assert(out@ =~= old(out)@ + enc_list(dv@));
    }
}

/// Encodes an answer as its byte frame.
pub fn encode_answer(a: &Answer) -> (out: Vec<u8>)
    ensures
        out@ == enc_answer(a@),
{
    let mut out: Vec<u8> = Vec::new();
    match a {
        Answer::Ping => {
            out.push(0);
            proof {
                assert(out@ =~= enc_answer(a@));
            }
        },
        Answer::Next(x, y, z) => {
            out.push(1);
            push_str_bytes(&mut out, x.as_str());
            push_str_bytes(&mut out, y.as_str());
            push_str_bytes(&mut out, z.as_str());
            proof {
                assert(out@ =~= enc_answer(a@));
            }
        },
        Answer::Waybar(x, y, z, l) => {
            out.push(2);
            push_str_bytes(&mut out, x.as_str());
            push_str_bytes(&mut out, y.as_str());
            push_str_bytes(&mut out, z.as_str());
            push_list(&mut out, l);
            proof {
                assert(out@ =~= enc_answer(a@));
            }
        },
        Answer::All(l) => {
            out.push(3);
            push_list(&mut out, l);
            proof {
                assert(out@ =~= enc_answer(a@));
            }
        },
    }
    out
}

/// Relies on char::from_u32: a character for every value except surrogates
/// and values above the highest code point, as its documentation states.
pub assume_specification [ char::from_u32 ](i: u32) -> (r: Option<char>)
    ensures
        r == if valid_char_code(i as int) {
            Some(i as char)
        } else {
            None::<char>
        },
;

/// Relies on String::push: appends one character to the string.
#[verifier::external_body]
fn push_char(s: &mut String, c: char)
    ensures
        final(s)@ == old(s)@.push(c),
{
    s.push(c);
}

/// Reads one length-prefixed string at `pos`.
fn read_str(b: &[u8], pos: usize) -> (r: Option<(String, usize)>)
    requires
        pos <= b@.len(),
    ensures
        match r {
            Some(v) => v.1 <= b@.len() && dec_str(b@.skip(pos as int)) == Some(
                (v.0@, b@.skip(v.1 as int)),
            ),
            None => dec_str(b@.skip(pos as int)) is None,
        },
{
    let (count, first) = match read_le(b, pos, 8) {
        Some(x) => x,
        None => {
            proof {
                assert(b@.skip(pos as int).len() < 8);
            }
            return None;
        },
    };
    proof {
        assert(b@.skip(pos as int).take(8) =~= b@.subrange(pos as int, pos as int + 8));
        assert(b@.skip(pos as int).skip(8) =~= b@.skip(pos as int + 8));
        assert(dec_len(b@.skip(pos as int)) == Some((count as int, b@.skip(pos as int + 8))));
    }
    let mut acc = String::new();
    let mut p: usize = first;
    let mut i: u64 = 0;
    while i < count
        invariant
            i <= count,
            p <= b@.len(),
            dec_str(b@.skip(pos as int)) == dec_chars(b@.skip(pos as int + 8), count as int),
            dec_chars(b@.skip(pos as int + 8), count as int) == (match dec_chars(
                b@.skip(p as int),
                count as int - i as int,
            ) {
                Some(q) => Some((acc@ + q.0, q.1)),
                None => None::<(Seq<char>, Seq<u8>)>,
            }),
        decreases count - i,
    {
        let (cv, p2) = match read_le(b, p, 4) {
            Some(x) => x,
            None => {
                proof {
                    assert(b@.skip(p as int).len() < 4);
                }
                return None;
            },
        };
        proof {
            assert(b@.skip(p as int).take(4) =~= b@.subrange(p as int, p as int + 4));
            assert(b@.skip(p as int).skip(4) =~= b@.skip(p as int + 4));
            lemma_dec_le_bound(b@.subrange(p as int, p as int + 4));
            assert(pow256(4) == 0x1_0000_0000) by {
                reveal_with_fuel(pow256, 5);
            }
            assert(cv as u32 as int == cv as int);
        }
        let c = match char::from_u32(cv as u32) {
            Some(c) => c,
            None => {
                proof {
                    assert(dec_chars(b@.skip(p as int), count as int - i as int) is None);
                }
                return None;
            },
        };
        let ghost acc_pre = acc@;
        push_char(&mut acc, c);
        proof {
            assert(forall|q0: Seq<char>| acc_pre + (seq![c] + q0) =~= acc@ + q0);
        }
        p = p2;
        i = i + 1;
    }
    proof {
        assert(dec_chars(b@.skip(p as int), 0) == Some((Seq::<char>::empty(), b@.skip(p as int))));
        assert(acc@ + Seq::<char>::empty() =~= acc@);
    }
    Some((acc, p))
}

/// Reads one length-prefixed list of string pairs at `pos`.
fn read_list(b: &[u8], pos: usize) -> (r: Option<(Vec<(String, String)>, usize)>)
    requires
        pos <= b@.len(),
    ensures
        match r {
            Some(v) => v.1 <= b@.len() && dec_list(b@.skip(pos as int)) == Some(
                (v.0.deep_view(), b@.skip(v.1 as int)),
            ),
            None => dec_list(b@.skip(pos as int)) is None,
        },
{
    let (count, first) = match read_le(b, pos, 8) {
        Some(x) => x,
        None => {
            proof {
                assert(b@.skip(pos as int).len() < 8);
            }
            return None;
        },
    };
    proof {
        assert(b@.skip(pos as int).take(8) =~= b@.subrange(pos as int, pos as int + 8));
        assert(b@.skip(pos as int).skip(8) =~= b@.skip(pos as int + 8));
        assert(dec_len(b@.skip(pos as int)) == Some((count as int, b@.skip(pos as int + 8))));
    }
    let mut acc: Vec<(String, String)> = Vec::new();
    let mut p: usize = first;
    let mut i: u64 = 0;
    proof {
        assert(acc.deep_view() =~= Seq::<(Seq<char>, Seq<char>)>::empty());
    }
    while i < count
        invariant
            i <= count,
            p <= b@.len(),
            dec_list(b@.skip(pos as int)) == dec_pairs(b@.skip(pos as int + 8), count as int),
            dec_pairs(b@.skip(pos as int + 8), count as int) == (match dec_pairs(
                b@.skip(p as int),
                count as int - i as int,
            ) {
                Some(q) => Some((acc.deep_view() + q.0, q.1)),
                None => None::<(Seq<(Seq<char>, Seq<char>)>, Seq<u8>)>,
            }),
        decreases count - i,
    {
        let (s1, p1) = match read_str(b, p) {
            Some(x) => x,
            None => {
                return None;
            },
        };
        let (s2, p2) = match read_str(b, p1) {
            Some(x) => x,
            None => {
                return None;
            },
        };
        let ghost acc_pre = acc.deep_view();
        let ghost m1 = s1@;
        let ghost m2 = s2@;
        acc.push((s1, s2));
        proof {
            assert(acc.deep_view() =~= acc_pre.push((m1, m2)));
            assert(forall|q0: Seq<(Seq<char>, Seq<char>)>|
                acc_pre + (seq![(m1, m2)] + q0) =~= acc.deep_view() + q0);
        }
        p = p2;
        i = i + 1;
    }
    proof {
        assert(dec_pairs(b@.skip(p as int), 0) == Some(
            (Seq::<(Seq<char>, Seq<char>)>::empty(), b@.skip(p as int)),
        ));
        assert(acc.deep_view() + Seq::<(Seq<char>, Seq<char>)>::empty() =~= acc.deep_view());
    }
    Some((acc, p))
}

/// Decodes an answer frame; the whole input must be one answer.
pub fn decode_answer(b: &[u8]) -> (r: Option<Answer>)
    ensures
        match r {
            Some(a) => dec_answer(b@) == Some(a@),
            None => dec_answer(b@) is None,
        },
{
    if b.len() == 0 {
        return None;
    }
    let tag = b[0];
    proof {
        assert(b@.skip(1) =~= b@.drop_first());
    }
    if tag == 0 {
        if b.len() == 1 {
            Some(Answer::Ping)
        } else {
            None
        }
    } else if tag == 1 {
        let (s1, p1) = match read_str(b, 1) {
            Some(x) => x,
            None => {
                return None;
            },
        };
        let (s2, p2) = match read_str(b, p1) {
            Some(x) => x,
            None => {
                return None;
            },
        };
        let (s3, p3) = match read_str(b, p2) {
            Some(x) => x,
            None => {
                return None;
            },
        };
        if p3 == b.len() {
            proof {
                assert(b@.skip(p3 as int).len() == 0);
            }
            Some(Answer::Next(s1, s2, s3))
        } else {
            proof {
                assert(b@.skip(p3 as int).len() > 0);
            }
            None
        }
    } else if tag == 2 {
        let (s1, p1) = match read_str(b, 1) {
            Some(x) => x,
            None => {
                return None;
            },
        };
        let (s2, p2) = match read_str(b, p1) {
            Some(x) => x,
            None => {
                return None;
            },
        };
        let (s3, p3) = match read_str(b, p2) {
            Some(x) => x,
            None => {
                return None;
            },
        };
        let (l, p4) = match read_list(b, p3) {
            Some(x) => x,
            None => {
                return None;
            },
        };
        if p4 == b.len() {
            proof {
                assert(b@.skip(p4 as int).len() == 0);
            }
            Some(Answer::Waybar(s1, s2, s3, l))
        } else {
            proof {
                assert(b@.skip(p4 as int).len() > 0);
            }
            None
        }
    } else if tag == 3 {
        let (l, p1) = match read_list(b, 1) {
            Some(x) => x,
            None => {
                return None;
            },
        };
        if p1 == b.len() {
            proof {
                assert(b@.skip(p1 as int).len() == 0);
            }
            Some(Answer::All(l))
        } else {
            proof {
                assert(b@.skip(p1 as int).len() > 0);
            }
            None
        }
    } else {
        None
    }
}

} // verus!
