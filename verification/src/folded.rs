//! The folded-stack text format: one line per call path that counted
//! instructions, root first, `frame0; frame1; ...; frameN <count>`.
//!
//! The format is directly consumable by flamegraph tools such as
//! `inferno-flamegraph`.

use vstd::prelude::*;
use vstd::utf8::encode_utf8;

use crate::profile::{path_of, FuncInfo, ProfileView};

verus! {

/// The bytes `"; "` that separate two frames.
pub open spec fn frame_separator() -> Seq<u8> {
    seq![59u8, 32u8]
}

/// The UTF-8 bytes of function `f`'s label.
pub open spec fn label_bytes(funcs: Seq<FuncInfo>, f: usize) -> Seq<u8> {
    encode_utf8(funcs[f as int].label)
}

/// The labels of the functions on a path, joined by `"; "`.
pub open spec fn frames_text(funcs: Seq<FuncInfo>, path: Seq<usize>) -> Seq<u8>
    decreases path.len(),
{
    if path.len() == 0 {
        Seq::empty()
    } else if path.len() == 1 {
        label_bytes(funcs, path[0])
    } else {
        frames_text(funcs, path.drop_last()) + frame_separator() + label_bytes(funcs, path.last())
    }
}

/// The decimal digits of `n`, most significant first, without leading zeros.
pub open spec fn decimal(n: nat) -> Seq<u8>
    decreases n,
{
    if n < 10 {
        seq![(48 + n) as u8]
    } else {
        decimal(n / 10).push((48 + n % 10) as u8)
    }
}

/// The line of node `n`: its call path, a space, its count and a newline;
/// nothing where the node counted no instruction.
pub open spec fn folded_line(v: ProfileView, n: int) -> Seq<u8> {
    if v.nodes[n].2 == 0 {
        Seq::empty()
    } else {
        frames_text(v.funcs, path_of(v.nodes, n)) + seq![32u8] + decimal(v.nodes[n].2 as nat)
            + seq![10u8]
    }
}

/// The lines of the function nodes before node `k`, in node order.
pub open spec fn folded_lines(v: ProfileView, k: int) -> Seq<u8>
    decreases k,
{
    if k <= 1 {
        Seq::empty()
    } else {
        folded_lines(v, k - 1) + folded_line(v, k - 1)
    }
}

/// The whole folded profile: the line of every function node, in the order
/// in which the nodes entered the trie. The root has no line.
pub open spec fn folded_text(v: ProfileView) -> Seq<u8> {
    folded_lines(v, v.nodes.len() as int)
}

/// Appends `bytes` to `out`.
pub fn push_bytes(out: &mut Vec<u8>, bytes: &[u8])
    ensures
        final(out)@ == old(out)@ + bytes@,
{
    let ghost base = out@;
    let mut i: usize = 0;
    while i < bytes.len()
        invariant
            i <= bytes.len(),
            out@ == base + bytes@.take(i as int),
        decreases bytes.len() - i,
    {
        out.push(bytes[i]);
        assert(bytes@.take(i + 1) =~= bytes@.take(i as int).push(bytes@[i as int]));
        i += 1;
    }
    assert(bytes@.take(bytes.len() as int) =~= bytes@);
}

/// Appends the decimal digits of `n` to `out`.
pub fn push_decimal(out: &mut Vec<u8>, n: u64)
    ensures
        final(out)@ == old(out)@ + decimal(n as nat),
    decreases n,
{
    let ghost base = out@;
    if n >= 10 {
        push_decimal(out, n / 10);
    }
    let digit = (n % 10) as u8;
    out.push(48 + digit);
    if n >= 10 {
        assert(out@ =~= base + decimal(n as nat));
    } else {
        assert(out@ =~= base + decimal(n as nat));
    }
}

} // verus!
