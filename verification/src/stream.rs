//! The compressed stream format and its specification decoder.
//!
//! A compressed stream is a sequence of op-codes, terminated by a one-byte
//! end-of-stream marker:
//!
//! * `0x00` — end of stream; it must be the last byte of the stream.
//! * `0x01 ..= 0x7F` (value `l`) — a literal run: the next `l` bytes of the
//!   stream are copied to the output verbatim.
//! * `0x80 ..= 0xBF` (value `t`), then one byte `d` — a short match: copy
//!   `3 + (t - 0x80)` bytes starting `d + 1` bytes behind the end of the
//!   output produced so far (lengths 3..=66, distances 1..=256).
//! * `0xC0 ..= 0xFF` (value `t`), then two bytes `d0`, `d1` — a long match:
//!   copy `4 + (t - 0xC0)` bytes starting `d0 + 256 * d1 + 1` bytes behind
//!   the end of the output produced so far (lengths 4..=67, distances
//!   1..=65536).
//!
//! Matches may overlap the bytes they produce: the copy is byte-by-byte, so
//! a distance of 1 repeats the last output byte. [`spec_decode`] gives every
//! stream its meaning: the decoded bytes, or the error that classifies why
//! the stream is malformed or does not fit the output capacity.

use vstd::prelude::*;
use crate::error_code::ErrorCode;

verus! {

/// The longest encodable literal run.
pub const MAX_LITERAL_RUN: usize = 127;

/// The farthest lookbehind distance the compressor will use.
pub const MAX_DISTANCE: usize = 49152;

/// The bytes produced by copying `len` bytes from `dist` bytes behind the
/// end of `acc`, byte by byte, so that the copy may overlap its own output.
pub open spec fn match_seq(acc: Seq<u8>, dist: nat, len: nat) -> Seq<u8>
    decreases len,
{
    if len == 0 {
        Seq::empty()
    } else {
        let prev = match_seq(acc, dist, (len - 1) as nat);
        prev.push((acc + prev)[acc.len() - dist + len - 1])
    }
}

/// A copy of `len` bytes is `len` bytes long.
pub proof fn lemma_match_seq_len(acc: Seq<u8>, dist: nat, len: nat)
    ensures
        match_seq(acc, dist, len).len() == len,
    decreases len,
{
    if len > 0 {
        lemma_match_seq_len(acc, dist, (len - 1) as nat);
    }
}

/// The meaning of a compressed stream: reading op-codes from `s` after the
/// bytes `acc` have already been produced, with `cap` bytes of output
/// capacity in all, either the whole decoded output or the first error.
pub open spec fn spec_decode(s: Seq<u8>, acc: Seq<u8>, cap: nat) -> Result<Seq<u8>, ErrorCode>
    decreases s.len(),
{
    if s.len() == 0 {
        Err(ErrorCode::EofNotFound)
    } else {
        let t = s[0];
        if t == 0 {
            if s.len() == 1 {
                Ok(acc)
            } else {
                Err(ErrorCode::InputNotConsumed)
            }
        } else if t < 0x80 {
            let l = t as int;
            if s.len() < 1 + l {
                Err(ErrorCode::InputOverrun)
            } else if acc.len() + l > cap {
                Err(ErrorCode::OutputOverrun)
            } else {
                spec_decode(s.skip(1 + l), acc + s.subrange(1, 1 + l), cap)
            }
        } else if t < 0xC0 {
            if s.len() < 2 {
                Err(ErrorCode::InputOverrun)
            } else {
                let len = t - 0x80 + 3;
                let dist = s[1] + 1;
                if dist > acc.len() {
                    Err(ErrorCode::LookbehindOverrun)
                } else if acc.len() + len > cap {
                    Err(ErrorCode::OutputOverrun)
                } else {
                    spec_decode(s.skip(2), acc + match_seq(acc, dist as nat, len as nat), cap)
                }
            }
        } else {
            if s.len() < 3 {
                Err(ErrorCode::InputOverrun)
            } else {
                let len = t - 0xC0 + 4;
                let dist = s[1] + 256 * (s[2] as int) + 1;
                if dist > acc.len() {
                    Err(ErrorCode::LookbehindOverrun)
                } else if acc.len() + len > cap {
                    Err(ErrorCode::OutputOverrun)
                } else {
                    spec_decode(s.skip(3), acc + match_seq(acc, dist as nat, len as nat), cap)
                }
            }
        }
    }
}

/// `packed` is a compressed stream that decodes to exactly `src` whenever
/// the output capacity admits `src` at all.
pub open spec fn compresses_to(src: Seq<u8>, packed: Seq<u8>) -> bool {
    forall|cap: nat| cap >= src.len() ==> spec_decode(packed, Seq::empty(), cap)
        == Result::<Seq<u8>, ErrorCode>::Ok(src)
}

/// The worst-case compressed size for `n` input bytes.
pub open spec fn max_compressed_len(n: int) -> int {
    n + n / 16 + 64 + 3
}

/// A specification-level op: a literal run or a back-reference.
pub enum Tok {
    /// Emit these bytes verbatim.
    Lit { bytes: Seq<u8> },
    /// Copy `len` bytes from `dist` bytes behind the end of the output.
    Back { dist: nat, len: nat },
}

/// Whether `t` is encodable after the bytes `acc` have been produced.
pub open spec fn tok_ok(acc: Seq<u8>, t: Tok) -> bool {
    match t {
        Tok::Lit { bytes } => 1 <= bytes.len() <= 127,
        Tok::Back { dist, len } => {
            &&& 1 <= dist <= acc.len()
            &&& dist <= 65536
            &&& if dist <= 256 {
                3 <= len <= 66
            } else {
                4 <= len <= 67
            }
        },
    }
}

/// The bytes that `t` appends to the output `acc`.
pub open spec fn tok_app(acc: Seq<u8>, t: Tok) -> Seq<u8> {
    match t {
        Tok::Lit { bytes } => acc + bytes,
        Tok::Back { dist, len } => acc + match_seq(acc, dist, len),
    }
}

/// The encoding of `t` in the compressed stream.
pub open spec fn tok_enc(t: Tok) -> Seq<u8> {
    match t {
        Tok::Lit { bytes } => seq![bytes.len() as u8] + bytes,
        Tok::Back { dist, len } => if dist <= 256 {
            seq![(0x80 + (len - 3)) as u8, (dist - 1) as u8]
        } else {
            seq![
                (0xC0 + (len - 4)) as u8,
                ((dist - 1) % 256) as u8,
                ((dist - 1) / 256) as u8,
            ]
        },
    }
}

/// Whether every op of `ts` is encodable, each after the output the previous
/// ops have produced from `acc`.
pub open spec fn toks_ok(acc: Seq<u8>, ts: Seq<Tok>) -> bool
    decreases ts.len(),
{
    ts.len() == 0 || (tok_ok(acc, ts[0]) && toks_ok(tok_app(acc, ts[0]), ts.skip(1)))
}

/// The output after applying every op of `ts` to `acc` in order.
pub open spec fn app_toks(acc: Seq<u8>, ts: Seq<Tok>) -> Seq<u8>
    decreases ts.len(),
{
    if ts.len() == 0 {
        acc
    } else {
        app_toks(tok_app(acc, ts[0]), ts.skip(1))
    }
}

/// The concatenated encodings of the ops of `ts`.
pub open spec fn enc_toks(ts: Seq<Tok>) -> Seq<u8>
    decreases ts.len(),
{
    if ts.len() == 0 {
        Seq::empty()
    } else {
        tok_enc(ts[0]) + enc_toks(ts.skip(1))
    }
}

/// Applying ops never shortens the output.
pub proof fn lemma_app_toks_len(acc: Seq<u8>, ts: Seq<Tok>)
    ensures
        app_toks(acc, ts).len() >= acc.len(),
    decreases ts.len(),
{
    if ts.len() > 0 {
        match ts[0] {
            Tok::Lit { bytes } => {},
            Tok::Back { dist, len } => {
                lemma_match_seq_len(acc, dist, len);
            },
        }
        lemma_app_toks_len(tok_app(acc, ts[0]), ts.skip(1));
    }
}

/// Appending an op to a sequence of ops appends its encoding.
pub proof fn lemma_enc_toks_push(ts: Seq<Tok>, t: Tok)
    ensures
        enc_toks(ts.push(t)) == enc_toks(ts) + tok_enc(t),
    decreases ts.len(),
{
    if ts.len() == 0 {
        let e = Seq::<Tok>::empty();
        assert(ts.push(t)[0] == t);
        assert(ts.push(t).skip(1) =~= e);
        assert(enc_toks(e) == Seq::<u8>::empty());
        assert(enc_toks(ts.push(t)) == tok_enc(t) + enc_toks(e));
        assert(enc_toks(ts) == Seq::<u8>::empty());
        assert(enc_toks(ts.push(t)) =~= enc_toks(ts) + tok_enc(t));
    } else {
        assert(ts.push(t)[0] == ts[0]);
        assert(ts.push(t).skip(1) =~= ts.skip(1).push(t));
        assert(enc_toks(ts.push(t)) == tok_enc(ts[0]) + enc_toks(ts.skip(1).push(t)));
        lemma_enc_toks_push(ts.skip(1), t);
        assert(enc_toks(ts) == tok_enc(ts[0]) + enc_toks(ts.skip(1)));
        assert(enc_toks(ts.push(t)) =~= enc_toks(ts) + tok_enc(t));
    }
}

/// Appending an op to a sequence of ops applies it after the others.
pub proof fn lemma_app_toks_push(acc: Seq<u8>, ts: Seq<Tok>, t: Tok)
    ensures
        app_toks(acc, ts.push(t)) == tok_app(app_toks(acc, ts), t),
    decreases ts.len(),
{
    if ts.len() == 0 {
        let e = Seq::<Tok>::empty();
        assert(ts.push(t)[0] == t);
        assert(ts.push(t).skip(1) =~= e);
        assert(app_toks(acc, ts.push(t)) == app_toks(tok_app(acc, t), e));
        assert(app_toks(tok_app(acc, t), e) == tok_app(acc, t));
        assert(app_toks(acc, ts) == acc);
    } else {
        assert(ts.push(t)[0] == ts[0]);
        assert(ts.push(t).skip(1) =~= ts.skip(1).push(t));
        assert(app_toks(acc, ts.push(t)) == app_toks(tok_app(acc, ts[0]), ts.skip(1).push(t)));
        lemma_app_toks_push(tok_app(acc, ts[0]), ts.skip(1), t);
        assert(app_toks(acc, ts) == app_toks(tok_app(acc, ts[0]), ts.skip(1)));
    }
}

/// An encodable op may be appended to a sequence of encodable ops.
pub proof fn lemma_toks_ok_push(acc: Seq<u8>, ts: Seq<Tok>, t: Tok)
    requires
        toks_ok(acc, ts),
        tok_ok(app_toks(acc, ts), t),
    ensures
        toks_ok(acc, ts.push(t)),
    decreases ts.len(),
{
    if ts.len() == 0 {
        let e = Seq::<Tok>::empty();
        assert(ts.push(t)[0] == t);
        assert(ts.push(t).skip(1) =~= e);
        assert(app_toks(acc, ts) == acc);
        assert(toks_ok(tok_app(acc, t), e));
        assert(toks_ok(acc, ts.push(t)));
    } else {
        assert(ts.push(t)[0] == ts[0]);
        assert(ts.push(t).skip(1) =~= ts.skip(1).push(t));
        assert(app_toks(acc, ts) == app_toks(tok_app(acc, ts[0]), ts.skip(1)));
        lemma_toks_ok_push(tok_app(acc, ts[0]), ts.skip(1), t);
        assert(toks_ok(acc, ts.push(t)));
    }
}

/// Decoding the encoding of one encodable op applies the op and goes on with
/// the rest of the stream.
pub proof fn lemma_tok_decode(t: Tok, acc: Seq<u8>, rest: Seq<u8>, cap: nat)
    requires
        tok_ok(acc, t),
        tok_app(acc, t).len() <= cap,
    ensures
        spec_decode(tok_enc(t) + rest, acc, cap) == spec_decode(rest, tok_app(acc, t), cap),
{
    let s = tok_enc(t) + rest;
    match t {
        Tok::Lit { bytes } => {
            let l = bytes.len() as int;
            assert(s[0] == (bytes.len() as u8));
            assert(s[0] as int == l);
            assert(s.len() == 1 + l + rest.len());
            assert(s.subrange(1, 1 + l) =~= bytes);
            assert(s.skip(1 + l) =~= rest);
        },
        Tok::Back { dist, len } => {
            lemma_match_seq_len(acc, dist, len);
            if dist <= 256 {
                assert(s[0] == ((0x80 + (len - 3)) as u8));
                assert(s[1] == ((dist - 1) as u8));
                assert(s[0] as int == 0x80 + (len - 3));
                assert(s[1] as int == dist - 1);
                assert(s.skip(2) =~= rest);
            } else {
                let d = dist - 1;
                vstd::arithmetic::div_mod::lemma_fundamental_div_mod(d as int, 256);
                vstd::arithmetic::div_mod::lemma_mod_pos_bound(d as int, 256);
                assert(256 * (d as int / 256) <= d as int);
                assert(d as int / 256 <= 255);
                assert(d as int / 256 >= 0) by {
                    vstd::arithmetic::div_mod::lemma_div_pos_is_pos(d as int, 256);
                }
                assert(s[0] == ((0xC0 + (len - 4)) as u8));
                assert(s[1] == ((d % 256) as u8));
                assert(s[2] == ((d / 256) as u8));
                assert(s[0] as int == 0xC0 + (len - 4));
                assert(s[1] as int + 256 * (s[2] as int) + 1 == dist);
                assert(s.skip(3) =~= rest);
            }
        },
    }
}

/// A stream that is exactly the end-of-stream marker decodes to the output
/// produced so far.
pub proof fn lemma_eos_decode(acc: Seq<u8>, cap: nat)
    ensures
        spec_decode(seq![0u8], acc, cap) == Result::<Seq<u8>, ErrorCode>::Ok(acc),
{
    assert(seq![0u8].len() == 1);
    assert(seq![0u8][0] == 0u8);
}

/// Decoding the encoding of a sequence of encodable ops applies them all and
/// goes on with the rest of the stream.
pub proof fn lemma_toks_decode(ts: Seq<Tok>, acc: Seq<u8>, rest: Seq<u8>, cap: nat)
    requires
        toks_ok(acc, ts),
        app_toks(acc, ts).len() <= cap,
    ensures
        spec_decode(enc_toks(ts) + rest, acc, cap) == spec_decode(rest, app_toks(acc, ts), cap),
    decreases ts.len(),
{
    if ts.len() == 0 {
        assert(enc_toks(ts) + rest =~= rest);
    } else {
        let t = ts[0];
        let acc2 = tok_app(acc, t);
        lemma_app_toks_len(acc2, ts.skip(1));
        lemma_tok_decode(t, acc, enc_toks(ts.skip(1)) + rest, cap);
        assert(enc_toks(ts) + rest =~= tok_enc(t) + (enc_toks(ts.skip(1)) + rest));
        lemma_toks_decode(ts.skip(1), acc2, rest, cap);
    }
}

/// The match the compressor found in the input is exactly the overlap copy
/// the decompressor will perform: if the `len` bytes at `pos` repeat the
/// bytes `dist` back, the copy from the first `pos` bytes reproduces them.
pub proof fn lemma_match_from_input(input: Seq<u8>, pos: int, dist: int, len: int)
    requires
        1 <= dist <= pos,
        0 <= len,
        pos + len <= input.len(),
        forall|j: int| 0 <= j < len ==> input[pos + j] == #[trigger] input[pos - dist + j],
    ensures
        match_seq(input.take(pos), dist as nat, len as nat) == input.subrange(pos, pos + len),
    decreases len,
{
    let acc = input.take(pos);
    if len == 0 {
        assert(match_seq(acc, dist as nat, 0) =~= input.subrange(pos, pos));
    } else {
        lemma_match_from_input(input, pos, dist, len - 1);
        let prev = match_seq(acc, dist as nat, (len - 1) as nat);
        lemma_match_seq_len(acc, dist as nat, (len - 1) as nat);
        assert(acc + prev =~= input.take(pos + len - 1));
        assert((acc + prev)[pos - dist + len - 1] == input[pos + len - 1]);
        assert(match_seq(acc, dist as nat, len as nat)
            == prev.push((acc + prev)[acc.len() - dist + len - 1]));
        assert(prev.push(input[pos + len - 1]) =~= input.subrange(pos, pos + len));
    }
}

/// Round trip: a stream the compressor produced for `src` decodes to
/// exactly `src` under any output capacity that admits `src`, so
/// decompressing what `compress` wrote returns the original bytes.
pub proof fn lemma_round_trip(src: Seq<u8>, packed: Seq<u8>, cap: nat)
    requires
        compresses_to(src, packed),
        cap >= src.len(),
    ensures
        spec_decode(packed, Seq::empty(), cap) == Result::<Seq<u8>, ErrorCode>::Ok(src),
{
}

/// Whatever decodes at all stays within the given capacity.
pub proof fn lemma_decoded_fits(s: Seq<u8>, acc: Seq<u8>, cap: nat)
    requires
        spec_decode(s, acc, cap) matches Ok(_),
        acc.len() <= cap,
    ensures
        spec_decode(s, acc, cap)->Ok_0.len() <= cap,
    decreases s.len(),
{
    if s.len() > 0 {
        let t = s[0];
        if t == 0 {
        } else if t < 0x80 {
            let l = t as int;
            lemma_decoded_fits(s.skip(1 + l), acc + s.subrange(1, 1 + l), cap);
        } else if t < 0xC0 {
            let len = (t - 0x80 + 3) as nat;
            let dist = (s[1] + 1) as nat;
            lemma_match_seq_len(acc, dist, len);
            lemma_decoded_fits(s.skip(2), acc + match_seq(acc, dist, len), cap);
        } else {
            let len = (t - 0xC0 + 4) as nat;
            let dist = (s[1] + 256 * (s[2] as int) + 1) as nat;
            lemma_match_seq_len(acc, dist, len);
            lemma_decoded_fits(s.skip(3), acc + match_seq(acc, dist, len), cap);
        }
    }
}

/// Overrun detection: a stream that decodes successfully under some
/// capacity, decoded again under a capacity smaller than its decoded
/// length, fails with `OutputOverrun` — never with silent truncation.
pub proof fn lemma_output_overrun_detected(s: Seq<u8>, cap: nat, cap2: nat)
    requires
        spec_decode(s, Seq::empty(), cap) matches Ok(x) && cap2 < x.len(),
    ensures
        spec_decode(s, Seq::empty(), cap2)
            == Result::<Seq<u8>, ErrorCode>::Err(ErrorCode::OutputOverrun),
{
    lemma_cap_short(s, Seq::empty(), cap, cap2);
}

proof fn lemma_cap_short(s: Seq<u8>, acc: Seq<u8>, cap: nat, cap2: nat)
    requires
        spec_decode(s, acc, cap) matches Ok(_),
        acc.len() <= cap2,
        cap2 < spec_decode(s, acc, cap)->Ok_0.len(),
    ensures
        spec_decode(s, acc, cap2)
            == Result::<Seq<u8>, ErrorCode>::Err(ErrorCode::OutputOverrun),
    decreases s.len(),
{
    let x = spec_decode(s, acc, cap)->Ok_0;
    let t = s[0];
    if t == 0 {
        assert(x == acc);
        assert(false);
    } else if t < 0x80 {
        let l = t as int;
        let acc2 = acc + s.subrange(1, 1 + l);
        if acc2.len() > cap2 {
        } else {
            lemma_cap_short(s.skip(1 + l), acc2, cap, cap2);
        }
    } else if t < 0xC0 {
        let len = (t - 0x80 + 3) as nat;
        let dist = (s[1] + 1) as nat;
        lemma_match_seq_len(acc, dist, len);
        let acc2 = acc + match_seq(acc, dist, len);
        if acc2.len() > cap2 {
        } else {
            lemma_cap_short(s.skip(2), acc2, cap, cap2);
        }
    } else {
        let len = (t - 0xC0 + 4) as nat;
        let dist = (s[1] + 256 * (s[2] as int) + 1) as nat;
        lemma_match_seq_len(acc, dist, len);
        let acc2 = acc + match_seq(acc, dist, len);
        if acc2.len() > cap2 {
        } else {
            lemma_cap_short(s.skip(3), acc2, cap, cap2);
        }
    }
}

/// Truncation detection: every strict prefix of a stream that decodes
/// successfully fails with `InputOverrun` or `EofNotFound` — never with a
/// wrong but successful result.
pub proof fn lemma_truncated_input_detected(s: Seq<u8>, cap: nat, k: int)
    requires
        spec_decode(s, Seq::empty(), cap) matches Ok(_),
        0 <= k < s.len(),
    ensures
        spec_decode(s.take(k), Seq::empty(), cap)
            == Result::<Seq<u8>, ErrorCode>::Err(ErrorCode::InputOverrun)
        || spec_decode(s.take(k), Seq::empty(), cap)
            == Result::<Seq<u8>, ErrorCode>::Err(ErrorCode::EofNotFound),
{
    lemma_take_short(s, Seq::empty(), cap, k);
}

proof fn lemma_take_short(s: Seq<u8>, acc: Seq<u8>, cap: nat, k: int)
    requires
        spec_decode(s, acc, cap) matches Ok(_),
        0 <= k < s.len(),
    ensures
        spec_decode(s.take(k), acc, cap)
            == Result::<Seq<u8>, ErrorCode>::Err(ErrorCode::InputOverrun)
        || spec_decode(s.take(k), acc, cap)
            == Result::<Seq<u8>, ErrorCode>::Err(ErrorCode::EofNotFound),
    decreases s.len(),
{
    let p = s.take(k);
    if k == 0 {
        assert(p.len() == 0);
    } else {
        let t = s[0];
        assert(p[0] == t);
        if t == 0 {
            assert(s.len() == 1);
            assert(false);
        } else if t < 0x80 {
            let l = t as int;
            let acc2 = acc + s.subrange(1, 1 + l);
            if k < 1 + l {
                assert(p.len() < 1 + l);
            } else {
                assert(p.subrange(1, 1 + l) =~= s.subrange(1, 1 + l));
                assert(p.skip(1 + l) =~= s.skip(1 + l).take(k - (1 + l)));
                lemma_take_short(s.skip(1 + l), acc2, cap, k - (1 + l));
            }
        } else if t < 0xC0 {
            if k < 2 {
                assert(p.len() < 2);
            } else {
                assert(p[1] == s[1]);
                let len = (t - 0x80 + 3) as nat;
                let dist = (s[1] + 1) as nat;
                let acc2 = acc + match_seq(acc, dist, len);
                assert(p.skip(2) =~= s.skip(2).take(k - 2));
                lemma_take_short(s.skip(2), acc2, cap, k - 2);
            }
        } else {
            if k < 3 {
                assert(p.len() < 3);
            } else {
                assert(p[1] == s[1]);
                assert(p[2] == s[2]);
                let len = (t - 0xC0 + 4) as nat;
                let dist = (s[1] + 256 * (s[2] as int) + 1) as nat;
                let acc2 = acc + match_seq(acc, dist, len);
                assert(p.skip(3) =~= s.skip(3).take(k - 3));
                lemma_take_short(s.skip(3), acc2, cap, k - 3);
            }
        }
    }
}

} // verus!
