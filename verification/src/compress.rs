//! The greedy compressor: single-pass LZ77 match finding over a
//! caller-supplied hash workspace, with byte-granular literal and match
//! op-codes and a proved worst-case output bound.

use vstd::prelude::*;
use vstd::pervasive::VecAdditionalExecFns;
use vstd::arithmetic::div_mod::lemma_div_is_ordered;
use vstd::arithmetic::div_mod::lemma_div_is_ordered_by_denominator;
use vstd::arithmetic::div_mod::lemma_div_multiples_vanish;
use vstd::arithmetic::div_mod::lemma_div_pos_is_pos;
use crate::context::Context;
use crate::error_code::ErrorCode;
use crate::stream::{
    Tok, tok_ok, tok_app, tok_enc, toks_ok, app_toks, enc_toks,
    lemma_toks_ok_push, lemma_app_toks_push, lemma_enc_toks_push,
    lemma_toks_decode, lemma_eos_decode, lemma_match_from_input,
    compresses_to, max_compressed_len, spec_decode, MAX_DISTANCE, MAX_LITERAL_RUN,
};

verus! {

/// The number of hash-table entries the compressor needs in its workspace.
pub const WORKSPACE_ENTRIES: usize = 16384;

/// Caller-owned scratch memory for the compressor's match-finding hash
/// table.
///
/// Its content never affects correctness — every candidate the table yields
/// is re-checked against the input before it is used — so a workspace may be
/// reused across sequential calls, and a fresh one need not be cleared for
/// the output to be valid.
pub struct Workspace {
    table: Vec<usize>,
}

impl Workspace {
    /// A workspace of exactly the size the compressor needs.
    pub fn new() -> (w: Workspace)
        ensures
            w.entries() == WORKSPACE_ENTRIES,
            w.contents() == fresh_table(WORKSPACE_ENTRIES as nat),
    {
        Workspace::with_entries(WORKSPACE_ENTRIES)
    }

    /// A workspace with `n` entries; the compressor rejects one with fewer
    /// than [`WORKSPACE_ENTRIES`].
    pub fn with_entries(n: usize) -> (w: Workspace)
        ensures
            w.entries() == n,
            w.contents() == fresh_table(n as nat),
    {
        let table = vec![0usize; n];
        proof {
            assert forall|i: int| 0 <= i < n implies table@[i] == 0usize by {
                assert(vstd::pervasive::cloned(0usize, table@[i]));
            }
            assert(table@ =~= fresh_table(n as nat));
        }
        Workspace { table }
    }

    /// The table this workspace holds, as a specification value.
    pub closed spec fn contents(&self) -> Seq<usize> {
        self.table@
    }

    /// How many entries this workspace holds.
    pub open spec fn entries(&self) -> nat {
        self.contents().len()
    }
}

/// The contents of a fresh workspace table of `n` entries.
pub open spec fn fresh_table(n: nat) -> Seq<usize> {
    Seq::new(n, |i: int| 0usize)
}

/// The hash bucket for a three-byte prefix.
pub open spec fn spec_hash3(b0: u8, b1: u8, b2: u8) -> int {
    (b0 * 5381 + b1 * 67 + b2) % (WORKSPACE_ENTRIES as int)
}

/// The hash bucket for a three-byte prefix; always within the table.
fn hash3(b0: u8, b1: u8, b2: u8) -> (h: usize)
    ensures
        h < WORKSPACE_ENTRIES,
        h as int == spec_hash3(b0, b1, b2),
{
    ((b0 as usize) * 5381 + (b1 as usize) * 67 + (b2 as usize)) % WORKSPACE_ENTRIES
}

/// How far the match of `input[c..]` against `input[ip..]` extends, probing
/// from `len` up to at most `maxl` matching bytes.
pub open spec fn spec_ext(input: Seq<u8>, c: int, ip: int, len: int, maxl: int) -> int
    decreases maxl - len,
{
    if len < maxl && input[c + len] == input[ip + len] {
        spec_ext(input, c, ip, len + 1, maxl)
    } else {
        len
    }
}

/// The extension never leaves the probed range.
proof fn lemma_spec_ext_bounds(input: Seq<u8>, c: int, ip: int, len: int, maxl: int)
    requires
        len <= maxl,
    ensures
        len <= spec_ext(input, c, ip, len, maxl) <= maxl,
    decreases maxl - len,
{
    if len < maxl && input[c + len] == input[ip + len] {
        lemma_spec_ext_bounds(input, c, ip, len + 1, maxl);
    }
}

/// The match the greedy scan finds at `ip`, as `(distance, length)`;
/// `(0, 0)` when the hash table offers no profitable candidate.
pub open spec fn spec_find(input: Seq<u8>, tbl: Seq<usize>, ip: int) -> (int, int) {
    let n = input.len() as int;
    if n - ip >= 3 {
        let h = spec_hash3(input[ip], input[ip + 1], input[ip + 2]);
        let cand = tbl[h] as int;
        if cand > 0 {
            let c = cand - 1;
            if c < ip && ip - c <= MAX_DISTANCE {
                if input[c] == input[ip] && input[c + 1] == input[ip + 1]
                    && input[c + 2] == input[ip + 2] {
                    let dist = ip - c;
                    let maxl = if n - ip < 66 { n - ip } else { 66 };
                    let len = spec_ext(input, c, ip, 3, maxl);
                    if dist <= 256 || len >= 4 {
                        (dist, len)
                    } else {
                        (0, 0)
                    }
                } else {
                    (0, 0)
                }
            } else {
                (0, 0)
            }
        } else {
            (0, 0)
        }
    } else {
        (0, 0)
    }
}

/// A found match stays within the remaining input.
proof fn lemma_spec_find_len(input: Seq<u8>, tbl: Seq<usize>, ip: int)
    ensures
        spec_find(input, tbl, ip).1 > 0 ==> 3 <= spec_find(input, tbl, ip).1
            <= input.len() - ip,
{
    let n = input.len() as int;
    if n - ip >= 3 {
        let h = spec_hash3(input[ip], input[ip + 1], input[ip + 2]);
        let cand = tbl[h] as int;
        if cand > 0 {
            let c = cand - 1;
            let maxl = if n - ip < 66 { n - ip } else { 66 };
            lemma_spec_ext_bounds(input, c, ip, 3, maxl);
        }
    }
}

/// The hash table after the scan has visited position `ip`.
pub open spec fn spec_tbl_after(input: Seq<u8>, tbl: Seq<usize>, ip: int) -> Seq<usize> {
    if input.len() - ip >= 3 {
        tbl.update(spec_hash3(input[ip], input[ip + 1], input[ip + 2]), (ip + 1) as usize)
    } else {
        tbl
    }
}

/// The encoding of the literal run `input[a..b]`; empty when the run is.
pub open spec fn lit_run_enc(input: Seq<u8>, a: int, b: int) -> Seq<u8> {
    if a < b {
        tok_enc(Tok::Lit { bytes: input.subrange(a, b) })
    } else {
        Seq::empty()
    }
}

/// The rest of the compressed stream, scanning from position `ip` with a
/// pending literal run starting at `ls` and the hash table `tbl`.
pub open spec fn spec_rest(input: Seq<u8>, tbl: Seq<usize>, ip: int, ls: int) -> Seq<u8>
    decreases input.len() - ip,
    when 0 <= ip
    via spec_rest_decreases
{
    let n = input.len() as int;
    if ip >= n {
        lit_run_enc(input, ls, n) + seq![0u8]
    } else {
        let f = spec_find(input, tbl, ip);
        let tbl2 = spec_tbl_after(input, tbl, ip);
        if f.1 > 0 {
            lit_run_enc(input, ls, ip) + tok_enc(Tok::Back { dist: f.0 as nat, len: f.1 as nat })
                + spec_rest(input, tbl2, ip + f.1, ip + f.1)
        } else {
            if ip + 1 - ls == 127 {
                lit_run_enc(input, ls, ip + 1) + spec_rest(input, tbl2, ip + 1, ip + 1)
            } else {
                spec_rest(input, tbl2, ip + 1, ls)
            }
        }
    }
}

#[via_fn]
proof fn spec_rest_decreases(input: Seq<u8>, tbl: Seq<usize>, ip: int, ls: int) {
    lemma_spec_find_len(input, tbl, ip);
}

/// The whole compressed stream for `input`, given the initial hash table:
/// compression is a function of the input bytes and the workspace contents
/// alone, so equal inputs and equal initial workspaces give byte-identical
/// output.
pub open spec fn spec_compress(input: Seq<u8>, tbl: Seq<usize>) -> Seq<u8> {
    spec_rest(input, tbl, 0, 0)
}

/// Emit the pending literal run `input[ls..ip]`, if any, at `op`; `None`
/// when the output cannot hold it.
fn flush_literals(input: &[u8], ls: usize, ip: usize, output: &mut Vec<u8>, op: usize)
    -> (r: Option<usize>)
    requires
        ls <= ip <= input@.len(),
        ip - ls <= MAX_LITERAL_RUN,
        op <= old(output)@.len(),
    ensures
        final(output)@.len() == old(output)@.len(),
        match r {
            Some(op2) => {
                &&& op <= op2 <= final(output)@.len()
                &&& (ls == ip ==> op2 == op
                        && final(output)@.take(op2 as int) == old(output)@.take(op as int))
                &&& (ls < ip ==> op2 == op + (ip - ls) + 1
                        && final(output)@.take(op2 as int) == old(output)@.take(op as int)
                            + tok_enc(Tok::Lit { bytes: input@.subrange(ls as int, ip as int) }))
            },
            None => old(output)@.len() < op + (ip - ls) + 1,
        },
{
    let l = ip - ls;
    if l == 0 {
        return Some(op);
    }
    if output.len() - op < l + 1 {
        return None;
    }
    let ghost out0 = output@;
    let olen = output.len();
    output.set(op, l as u8);
    let mut k: usize = 0;
    while k < l
        invariant
            k <= l,
            1 <= l <= 127,
            ls + l == ip,
            ip <= input@.len(),
            op + l + 1 <= olen,
            olen == output@.len(),
            output@.len() == out0.len(),
            output@.take(op as int) == out0.take(op as int),
            output@[op as int] == l as u8,
            output@.subrange(op + 1, op + 1 + k) == input@.subrange(ls as int, ls + k),
        decreases l - k,
    {
        output.set(op + 1 + k, input[ls + k]);
        k += 1;
        proof {
            assert(output@.take(op as int) =~= out0.take(op as int));
            assert(output@.subrange(op + 1, op + 1 + k) =~= input@.subrange(ls as int, ls + k));
        }
    }
    proof {
        let bytes = input@.subrange(ls as int, ip as int);
        assert(output@.take(op + l + 1)
            =~= out0.take(op as int) + tok_enc(Tok::Lit { bytes }));
    }
    Some(op + l + 1)
}

/// Emit a match op-code for `len` bytes at lookbehind `dist`, at `op`;
/// `None` when the output cannot hold it.
fn emit_match(dist: usize, len: usize, output: &mut Vec<u8>, op: usize) -> (r: Option<usize>)
    requires
        op <= old(output)@.len(),
        1 <= dist <= 65536,
        dist <= 256 ==> 3 <= len && len <= 66,
        dist > 256 ==> 4 <= len && len <= 66,
    ensures
        final(output)@.len() == old(output)@.len(),
        match r {
            Some(op2) => {
                &&& op <= op2 <= final(output)@.len()
                &&& op2 == op + (if dist <= 256 { 2int } else { 3int })
                &&& final(output)@.take(op2 as int) == old(output)@.take(op as int)
                    + tok_enc(Tok::Back { dist: dist as nat, len: len as nat })
            },
            None => old(output)@.len()
                < op + (if dist <= 256 { 2int } else { 3int }),
        },
{
    let ghost back = Tok::Back { dist: dist as nat, len: len as nat };
    let ghost out0 = output@;
    if dist <= 256 {
        if output.len() - op < 2 {
            return None;
        }
        let t0: u8 = 0x80 + ((len - 3) as u8);
        let d0: u8 = (dist - 1) as u8;
        output.set(op, t0);
        output.set(op + 1, d0);
        proof {
            assert(tok_enc(back) =~= seq![t0, d0]);
            assert(output@.take(op + 2) =~= out0.take(op as int) + tok_enc(back));
        }
        Some(op + 2)
    } else {
        if output.len() - op < 3 {
            return None;
        }
        let t0: u8 = 0xC0 + ((len - 4) as u8);
        let d = dist - 1;
        let d0: u8 = (d % 256) as u8;
        let d1: u8 = (d / 256) as u8;
        output.set(op, t0);
        output.set(op + 1, d0);
        output.set(op + 2, d1);
        proof {
            assert(tok_enc(back) =~= seq![t0, d0, d1]);
            assert(output@.take(op + 3) =~= out0.take(op as int) + tok_enc(back));
        }
        Some(op + 3)
    }
}

/// Probe the hash table for a profitable match at `ip`, record `ip` in the
/// table, and return the match as `(distance, length)`, or `(0, 0)` when
/// there is none; exactly what [`spec_find`] and [`spec_tbl_after`] say.
fn find_match(input: &[u8], workspace: &mut Workspace, ip: usize) -> (r: (usize, usize))
    requires
        ip < input@.len(),
        old(workspace).table@.len() >= WORKSPACE_ENTRIES,
    ensures
        final(workspace).table@ == spec_tbl_after(input@, old(workspace).table@, ip as int),
        r.0 as int == spec_find(input@, old(workspace).table@, ip as int).0,
        r.1 as int == spec_find(input@, old(workspace).table@, ip as int).1,
        r.1 > 0 ==> {
            &&& 1 <= r.0 <= ip
            &&& r.0 <= MAX_DISTANCE
            &&& 3 <= r.1 <= 66
            &&& (r.0 <= 256 || r.1 >= 4)
            &&& ip + r.1 <= input@.len()
            &&& forall|j: int| 0 <= j < r.1
                ==> input@[ip + j] == #[trigger] input@[ip - r.0 + j]
        },
{
    let n = input.len();
    let ghost tbl = workspace.table@;
    if n - ip < 3 {
        return (0, 0);
    }
    let h = hash3(input[ip], input[ip + 1], input[ip + 2]);
    let cand = workspace.table[h];
    workspace.table.set(h, ip + 1);
    if cand > 0 {
        let c = cand - 1;
        if c < ip && ip - c <= MAX_DISTANCE {
            if input[c] == input[ip] && input[c + 1] == input[ip + 1]
                && input[c + 2] == input[ip + 2] {
                let dist = ip - c;
                let maxl: usize = if n - ip < 66 { n - ip } else { 66 };
                let mut len: usize = 3;
                while len < maxl && input[c + len] == input[ip + len]
                    invariant
                        3 <= len <= maxl,
                        maxl <= 66,
                        ip + maxl <= n,
                        c < ip,
                        n == input@.len(),
                        forall|j: int| 0 <= j < len
                            ==> #[trigger] input@[c + j] == input@[ip + j],
                        spec_ext(input@, c as int, ip as int, len as int, maxl as int)
                            == spec_ext(input@, c as int, ip as int, 3, maxl as int),
                    decreases maxl - len,
                {
                    len += 1;
                }
                proof {
                    assert(len as int == spec_ext(input@, c as int, ip as int, 3, maxl as int));
                }
                if dist <= 256 || len >= 4 {
                    proof {
                        assert(spec_find(input@, tbl, ip as int)
                            == (dist as int, len as int));
                        assert forall|j: int| 0 <= j < len
                            implies input@[ip + j] == #[trigger] input@[ip - dist + j] by {
                            assert(input@[c as int + j] == input@[ip as int + j]);
                        }
                    }
                    return (dist, len);
                }
                proof {
                    assert(spec_find(input@, tbl, ip as int).1 == 0);
                }
                return (0, 0);
            }
        }
    }
    proof {
        assert(spec_find(input@, tbl, ip as int).1 == 0);
    }
    (0, 0)
}

/// The bytes emitted so far never exceed the consumed input by more than
/// its sixteenth: the multiplicative ledger `127 * op <= 128 * ls` bounds
/// `op` by `ls + n / 16` for any `n >= ls`.
proof fn lemma_emitted_bound(op: int, ls: int, n: int)
    requires
        0 <= op,
        0 <= ls <= n,
        127 * op <= 128 * ls,
    ensures
        op <= ls + n / 16,
{
    if op > ls {
        assert(127 * (op - ls) <= ls);
        lemma_div_is_ordered(127 * (op - ls), ls, 127);
        lemma_div_multiples_vanish(op - ls, 127);
        assert(op - ls <= ls / 127);
    }
    lemma_div_pos_is_pos(ls, 127);
    lemma_div_is_ordered(ls, n, 127);
    lemma_div_is_ordered_by_denominator(n, 16, 127);
    assert(ls / 127 <= n / 16);
}

impl Context {
    /// Compress `input` into `output`, whose length is the output capacity,
    /// using `workspace` for match finding, and return the number of bytes
    /// written.
    ///
    /// Compression is total: every input, including the empty and the
    /// incompressible one, has a compressed form, and the result never
    /// exceeds `input.len() + input.len() / 16 + 64 + 3` bytes. On success
    /// the emitted stream decodes back to exactly `input` under
    /// [`spec_decode`] whenever the decode capacity admits it. The call
    /// fails only with `InvalidArgument`, when the workspace is smaller than
    /// [`WORKSPACE_ENTRIES`], or with `OutputOverrun`, and then only when
    /// `output` is smaller than the worst-case bound; an `output` at least
    /// the bound always succeeds.
    pub fn compress(
        &self,
        input: &[u8],
        output: &mut Vec<u8>,
        workspace: &mut Workspace,
    ) -> (r: Result<usize, ErrorCode>)
        ensures
            final(output)@.len() == old(output)@.len(),
            final(workspace).entries() == old(workspace).entries(),
            old(workspace).entries() >= WORKSPACE_ENTRIES
                && old(output)@.len()
                    >= spec_compress(input@, old(workspace).contents()).len()
                ==> r matches Ok(_),
            match r {
                Ok(n) => {
                    &&& old(workspace).entries() >= WORKSPACE_ENTRIES
                    &&& n <= old(output)@.len()
                    &&& n as int <= max_compressed_len(input@.len() as int)
                    &&& compresses_to(input@, final(output)@.take(n as int))
                    &&& final(output)@.take(n as int)
                        == spec_compress(input@, old(workspace).contents())
                },
                Err(e) => {
                    &&& (e == ErrorCode::InvalidArgument
                            <==> old(workspace).entries() < WORKSPACE_ENTRIES)
                    &&& (e == ErrorCode::InvalidArgument || e == ErrorCode::OutputOverrun)
                    &&& (e == ErrorCode::OutputOverrun
                            ==> old(output)@.len() < max_compressed_len(input@.len() as int))
                    &&& (e == ErrorCode::OutputOverrun
                            ==> old(output)@.len()
                                < spec_compress(input@, old(workspace).contents()).len())
                },
            },
    {
        if workspace.table.len() < WORKSPACE_ENTRIES {
            return Err(ErrorCode::InvalidArgument);
        }
        let n = input.len();
        let cap = output.len();
        let mut ip: usize = 0;
        let mut ls: usize = 0;
        let mut op: usize = 0;
        let ghost mut toks: Seq<Tok> = Seq::empty();

        proof {
            assert(input@.take(0) =~= Seq::<u8>::empty());
            assert(output@.take(0) =~= Seq::<u8>::empty());
            assert(Seq::<u8>::empty() + spec_rest(input@, workspace.table@, 0, 0)
                =~= spec_rest(input@, workspace.table@, 0, 0));
        }

        while ip < n
            invariant
                n == input@.len(),
                cap == output@.len(),
                output@.len() == old(output)@.len(),
                workspace.table@.len() == old(workspace).entries(),
                workspace.table@.len() >= WORKSPACE_ENTRIES,
                ls <= ip <= n,
                ip - ls <= 126,
                op <= cap,
                127 * (op as int) <= 128 * (ls as int),
                toks_ok(Seq::empty(), toks),
                app_toks(Seq::empty(), toks) == input@.take(ls as int),
                enc_toks(toks) == output@.take(op as int),
                output@.take(op as int)
                    + spec_rest(input@, workspace.table@, ip as int, ls as int)
                    == spec_compress(input@, old(workspace).contents()),
            decreases n - ip,
        {
            let ghost tbl = workspace.table@;
            let ghost ip0 = ip as int;
            let ghost ls0 = ls as int;
            let ghost op0 = op as int;
            let ghost out_pre = output@;
            let (mdist, mlen) = find_match(input, workspace, ip);
            let ghost f = spec_find(input@, tbl, ip0);
            if mlen > 0 {
                // A profitable match: flush the pending literals, then the
                // match op-code.
                let op2 = match flush_literals(input, ls, ip, output, op) {
                    Some(op2) => op2,
                    None => {
                        proof {
                            lemma_emitted_bound(op as int, ls as int, n as int);
                            let back = Tok::Back { dist: f.0 as nat, len: f.1 as nat };
                            assert(spec_rest(input@, tbl, ip0, ls0)
                                == lit_run_enc(input@, ls0, ip0) + tok_enc(back)
                                    + spec_rest(input@, workspace.table@,
                                        ip0 + f.1, ip0 + f.1));
                            assert(spec_compress(input@, old(workspace).contents()).len()
                                == op0 + spec_rest(input@, tbl, ip0, ls0).len());
                        }
                        return Err(ErrorCode::OutputOverrun);
                    },
                };
                proof {
                    if ls < ip {
                        let lit = Tok::Lit { bytes: input@.subrange(ls as int, ip as int) };
                        lemma_toks_ok_push(Seq::empty(), toks, lit);
                        lemma_app_toks_push(Seq::empty(), toks, lit);
                        lemma_enc_toks_push(toks, lit);
                        toks = toks.push(lit);
                        assert(app_toks(Seq::empty(), toks) =~= input@.take(ip as int));
                    } else {
                        assert(app_toks(Seq::empty(), toks) =~= input@.take(ip as int));
                    }
                    assert(enc_toks(toks) == output@.take(op2 as int));
                    assert(output@.take(op2 as int)
                        =~= out_pre.take(op0) + lit_run_enc(input@, ls0, ip0));
                }
                let op3 = match emit_match(mdist, mlen, output, op2) {
                    Some(op3) => op3,
                    None => {
                        proof {
                            lemma_emitted_bound(op as int, ls as int, n as int);
                            let back = Tok::Back { dist: f.0 as nat, len: f.1 as nat };
                            assert(spec_rest(input@, tbl, ip0, ls0)
                                == lit_run_enc(input@, ls0, ip0) + tok_enc(back)
                                    + spec_rest(input@, workspace.table@,
                                        ip0 + f.1, ip0 + f.1));
                            assert(spec_compress(input@, old(workspace).contents()).len()
                                == op0 + spec_rest(input@, tbl, ip0, ls0).len());
                            assert(op2 == op0 + lit_run_enc(input@, ls0, ip0).len());
                        }
                        return Err(ErrorCode::OutputOverrun);
                    },
                };
                proof {
                    let di = mdist as int;
                    let li = mlen as int;
                    let ipi = ip as int;
                    lemma_match_from_input(input@, ipi, di, li);
                    let back = Tok::Back { dist: mdist as nat, len: mlen as nat };
                    assert(tok_ok(input@.take(ipi), back));
                    lemma_toks_ok_push(Seq::empty(), toks, back);
                    lemma_app_toks_push(Seq::empty(), toks, back);
                    lemma_enc_toks_push(toks, back);
                    toks = toks.push(back);
                    assert(app_toks(Seq::empty(), toks) =~= input@.take(ipi + li));
                    assert(enc_toks(toks) == output@.take(op3 as int));
                    // The ledger: a match op-code never costs more than the
                    // input it covers, beyond the one-byte literal prefix.
                    assert(127 * (op3 as int) <= 128 * ((ip + mlen) as int));
                    // The emitted bytes are the next piece of the mirrored
                    // stream.
                    let emitted = lit_run_enc(input@, ls0, ip0) + tok_enc(back);
                    assert(output@.take(op3 as int) =~= out_pre.take(op0) + emitted);
                    assert(f.0 == di && f.1 == li);
                    assert(spec_rest(input@, tbl, ip0, ls0)
                        == emitted + spec_rest(input@, workspace.table@, ip0 + li, ip0 + li));
                    assert(output@.take(op3 as int)
                        + spec_rest(input@, workspace.table@, ip0 + li, ip0 + li)
                        =~= out_pre.take(op0) + spec_rest(input@, tbl, ip0, ls0));
                }
                op = op3;
                ip = ip + mlen;
                ls = ip;
            } else {
                ip = ip + 1;
                if ip - ls == 127 {
                    let op2 = match flush_literals(input, ls, ip, output, op) {
                        Some(op2) => op2,
                        None => {
                            proof {
                                lemma_emitted_bound(op as int, ls as int, n as int);
                                assert(spec_rest(input@, tbl, ip0, ls0)
                                    == lit_run_enc(input@, ls0, ip0 + 1)
                                        + spec_rest(input@, workspace.table@,
                                            ip0 + 1, ip0 + 1));
                                assert(spec_compress(input@, old(workspace).contents()).len()
                                    == op0 + spec_rest(input@, tbl, ip0, ls0).len());
                            }
                            return Err(ErrorCode::OutputOverrun);
                        },
                    };
                    proof {
                        let lit = Tok::Lit { bytes: input@.subrange(ls as int, ip as int) };
                        lemma_toks_ok_push(Seq::empty(), toks, lit);
                        lemma_app_toks_push(Seq::empty(), toks, lit);
                        lemma_enc_toks_push(toks, lit);
                        toks = toks.push(lit);
                        assert(app_toks(Seq::empty(), toks) =~= input@.take(ip as int));
                        assert(enc_toks(toks) == output@.take(op2 as int));
                        assert(output@.take(op2 as int)
                            =~= out_pre.take(op0) + lit_run_enc(input@, ls0, ip0 + 1));
                        assert(spec_rest(input@, tbl, ip0, ls0)
                            == lit_run_enc(input@, ls0, ip0 + 1)
                                + spec_rest(input@, workspace.table@, ip0 + 1, ip0 + 1));
                        assert(output@.take(op2 as int)
                            + spec_rest(input@, workspace.table@, ip0 + 1, ip0 + 1)
                            =~= out_pre.take(op0) + spec_rest(input@, tbl, ip0, ls0));
                    }
                    op = op2;
                    ls = ip;
                } else {
                    proof {
                        assert(spec_rest(input@, tbl, ip0, ls0)
                            == spec_rest(input@, workspace.table@, ip0 + 1, ls0));
                    }
                }
            }
        }

        // Flush the trailing literal run and emit the end-of-stream marker.
        let ghost out_end = output@;
        let ghost op_end = op as int;
        let ghost ls_end = ls as int;
        let ghost tbl_end = workspace.table@;
        let op2 = match flush_literals(input, ls, n, output, op) {
            Some(op2) => op2,
            None => {
                proof {
                    lemma_emitted_bound(op as int, ls as int, n as int);
                    assert(spec_rest(input@, tbl_end, n as int, ls_end)
                        == lit_run_enc(input@, ls_end, n as int) + seq![0u8]);
                    assert(spec_compress(input@, old(workspace).contents()).len()
                        == op_end + spec_rest(input@, tbl_end, n as int, ls_end).len());
                }
                return Err(ErrorCode::OutputOverrun);
            },
        };
        proof {
            if ls < n {
                let lit = Tok::Lit { bytes: input@.subrange(ls as int, n as int) };
                lemma_toks_ok_push(Seq::empty(), toks, lit);
                lemma_app_toks_push(Seq::empty(), toks, lit);
                lemma_enc_toks_push(toks, lit);
                toks = toks.push(lit);
            }
            assert(app_toks(Seq::empty(), toks) =~= input@);
            assert(enc_toks(toks) == output@.take(op2 as int));
        }
        if output.len() - op2 < 1 {
            proof {
                lemma_emitted_bound(op as int, ls as int, n as int);
                assert(spec_rest(input@, tbl_end, n as int, ls_end)
                    == lit_run_enc(input@, ls_end, n as int) + seq![0u8]);
                assert(spec_compress(input@, old(workspace).contents()).len()
                    == op_end + spec_rest(input@, tbl_end, n as int, ls_end).len());
                assert(op2 == op_end + lit_run_enc(input@, ls_end, n as int).len());
            }
            return Err(ErrorCode::OutputOverrun);
        }
        output.set(op2, 0u8);
        proof {
            lemma_emitted_bound(op as int, ls as int, n as int);
            assert(output@.take(op2 as int) =~= enc_toks(toks));
            let packed = output@.take(op2 + 1);
            assert(packed =~= enc_toks(toks) + seq![0u8]);
            assert forall|c2: nat| c2 >= input@.len()
                implies spec_decode(packed, Seq::empty(), c2)
                    == Result::<Seq<u8>, ErrorCode>::Ok(input@) by {
                lemma_toks_decode(toks, Seq::empty(), seq![0u8], c2);
                lemma_eos_decode(input@, c2);
            }
            assert(compresses_to(input@, packed));
            // The finished stream is exactly the mirrored one.
            assert(output@.take(op2 as int)
                =~= out_end.take(op_end) + lit_run_enc(input@, ls_end, n as int));
            assert(packed
                =~= out_end.take(op_end)
                    + (lit_run_enc(input@, ls_end, n as int) + seq![0u8]));
            assert(spec_rest(input@, tbl_end, n as int, ls_end)
                == lit_run_enc(input@, ls_end, n as int) + seq![0u8]);
            assert(packed == spec_compress(input@, old(workspace).contents()));
        }
        Ok(op2 + 1)
    }
}

} // verus!
