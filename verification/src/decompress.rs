//! The safe decompressor: reads op-codes sequentially, bounds-checking every
//! read and write, and returns exactly what the specification decoder gives
//! the stream.

use vstd::prelude::*;
use vstd::pervasive::VecAdditionalExecFns;
use crate::context::Context;
use crate::error_code::ErrorCode;
use crate::stream::{spec_decode, match_seq, lemma_match_seq_len};

verus! {

impl Context {
    /// Decompress `input` into `output`, whose length is the output
    /// capacity, and return the number of bytes written.
    ///
    /// The result is exactly what [`spec_decode`] gives the stream: on
    /// success the first `n` bytes of `output` are the decoded data; on
    /// failure the error classifies the first fault (truncated input,
    /// undersized output, a lookbehind before the start of the output, a
    /// missing end-of-stream marker, or trailing input), and the content of
    /// `output` is unspecified. No byte outside `output` is ever written and
    /// no byte outside `input` is ever read.
    #[verifier::rlimit(30)]
    pub fn decompress(&self, input: &[u8], output: &mut Vec<u8>) -> (r: Result<usize, ErrorCode>)
        ensures
            final(output)@.len() == old(output)@.len(),
            match spec_decode(input@, Seq::<u8>::empty(), old(output)@.len() as nat) {
                Ok(x) => r matches Ok(n) && n == x.len() && n <= old(output)@.len()
                    && final(output)@.take(n as int) == x,
                Err(e) => r == Result::<usize, ErrorCode>::Err(e),
            },
    {
        let n = input.len();
        let cap = output.len();
        let mut ip: usize = 0;
        let mut op: usize = 0;

        proof {
            assert(input@.skip(0) =~= input@);
            assert(output@.take(0) =~= Seq::<u8>::empty());
        }

        loop
            invariant
                n == input@.len(),
                cap == output@.len(),
                cap == old(output)@.len(),
                ip <= n,
                op <= cap,
                spec_decode(input@, Seq::<u8>::empty(), cap as nat)
                    == spec_decode(input@.skip(ip as int), output@.take(op as int), cap as nat),
            decreases n - ip,
        {
            let ghost s0 = input@.skip(ip as int);
            let ghost acc0 = output@.take(op as int);

            if ip >= n {
                proof {
                    assert(s0.len() == 0);
                }
                return Err(ErrorCode::EofNotFound);
            }
            let t = input[ip];
            proof {
                assert(s0[0] == input@[ip as int]);
            }
            if t == 0 {
                if ip + 1 == n {
                    proof {
                        assert(s0.len() == 1);
                        assert(spec_decode(input@, Seq::<u8>::empty(), cap as nat)
                            == Result::<Seq<u8>, ErrorCode>::Ok(acc0));
                    }
                    return Ok(op);
                } else {
                    proof {
                        assert(s0.len() > 1);
                    }
                    return Err(ErrorCode::InputNotConsumed);
                }
            } else if t < 0x80 {
                // A literal run of t bytes follows the op-code.
                let l = t as usize;
                if n - ip < l + 1 {
                    proof {
                        assert(s0.len() < 1 + l);
                    }
                    return Err(ErrorCode::InputOverrun);
                }
                if cap - op < l {
                    proof {
                        assert(acc0.len() + l > cap);
                    }
                    return Err(ErrorCode::OutputOverrun);
                }
                let ghost out0 = output@;
                let mut k: usize = 0;
                while k < l
                    invariant
                        k <= l,
                        l <= 127,
                        ip + 1 + l <= n,
                        op + l <= cap,
                        n == input@.len(),
                        cap == output@.len(),
                        output@.take(op as int) == out0.take(op as int),
                        output@.subrange(op as int, op + k)
                            == input@.subrange(ip + 1, ip + 1 + k),
                    decreases l - k,
                {
                    output.set(op + k, input[ip + 1 + k]);
                    k += 1;
                    proof {
                        assert(output@.take(op as int) =~= out0.take(op as int));
                        assert(output@.subrange(op as int, op + k)
                            =~= input@.subrange(ip + 1, ip + 1 + k));
                    }
                }
                proof {
                    assert(s0.subrange(1, 1 + l) =~= input@.subrange(ip + 1, ip + 1 + l));
                    assert(s0.skip(1 + l) =~= input@.skip(ip + 1 + l));
                    assert(output@.take(op + l)
                        =~= acc0 + s0.subrange(1, 1 + l));
                    assert(spec_decode(s0, acc0, cap as nat)
                        == spec_decode(s0.skip(1 + l), acc0 + s0.subrange(1, 1 + l), cap as nat));
                }
                ip = ip + 1 + l;
                op = op + l;
            } else {
                // A match: copy `len` bytes from `dist` behind the output end.
                let hdr: usize;
                let len: usize;
                let dist: usize;
                if t < 0xC0 {
                    if n - ip < 2 {
                        proof {
                            assert(s0.len() < 2);
                        }
                        return Err(ErrorCode::InputOverrun);
                    }
                    hdr = 2;
                    len = (t - 0x80) as usize + 3;
                    dist = input[ip + 1] as usize + 1;
                    proof {
                        assert(s0[1] == input@[ip + 1]);
                    }
                } else {
                    if n - ip < 3 {
                        proof {
                            assert(s0.len() < 3);
                        }
                        return Err(ErrorCode::InputOverrun);
                    }
                    hdr = 3;
                    len = (t - 0xC0) as usize + 4;
                    dist = input[ip + 1] as usize + 256 * (input[ip + 2] as usize) + 1;
                    proof {
                        assert(s0[1] == input@[ip + 1]);
                        assert(s0[2] == input@[ip + 2]);
                    }
                }
                if dist > op {
                    return Err(ErrorCode::LookbehindOverrun);
                }
                if cap - op < len {
                    proof {
                        assert(acc0.len() + len > cap);
                    }
                    return Err(ErrorCode::OutputOverrun);
                }
                let ghost out0 = output@;
                let ghost ms = match_seq(acc0, dist as nat, len as nat);
                let mut k: usize = 0;
                while k < len
                    invariant
                        k <= len,
                        1 <= dist <= op,
                        op + len <= cap,
                        cap == output@.len(),
                        output@.take(op as int) == out0.take(op as int),
                        output@.subrange(op as int, op + k)
                            == match_seq(acc0, dist as nat, k as nat),
                        acc0 == out0.take(op as int),
                        acc0.len() == op,
                    decreases len - k,
                {
                    proof {
                        lemma_match_seq_len(acc0, dist as nat, k as nat);
                    }
                    let b = output[op + k - dist];
                    proof {
                        let msk = match_seq(acc0, dist as nat, k as nat);
                        let j = op + k - dist;
                        assert((acc0 + msk).len() == op + k);
                        if j < op {
                            assert(output@[j as int] == acc0[j as int]);
                            assert((acc0 + msk)[j as int] == acc0[j as int]);
                        } else {
                            assert(output@[j as int] == msk[j - op]);
                            assert((acc0 + msk)[j as int] == msk[j - op]);
                        }
                        assert(b == (acc0 + msk)[acc0.len() - dist + k]);
                        assert(match_seq(acc0, dist as nat, (k + 1) as nat)
                            == msk.push((acc0 + msk)[acc0.len() - dist + (k + 1) - 1]));
                    }
                    output.set(op + k, b);
                    k += 1;
                    proof {
                        assert(output@.take(op as int) =~= out0.take(op as int));
                        lemma_match_seq_len(acc0, dist as nat, k as nat);
                        assert(output@.subrange(op as int, op + k)
                            =~= match_seq(acc0, dist as nat, k as nat));
                    }
                }
                proof {
                    lemma_match_seq_len(acc0, dist as nat, len as nat);
                    assert(s0.skip(hdr as int) =~= input@.skip(ip + hdr));
                    assert(output@.take(op + len) =~= acc0 + ms);
                    assert(spec_decode(s0, acc0, cap as nat)
                        == spec_decode(s0.skip(hdr as int), acc0 + ms, cap as nat));
                }
                ip = ip + hdr;
                op = op + len;
            }
        }
    }
}

} // verus!
