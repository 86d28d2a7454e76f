//! The trace commitment: a canonical byte encoding of a trace — fixed field
//! order, heap entries in ascending address order, every length in-band —
//! reduced to a 32-byte digest. Equal traces always produce equal digests.

use vstd::prelude::*;

use sha2::Digest;

use crate::program::Instruction;
use crate::vm::ProvableState;
use crate::vm::ProvableVM;
use crate::vm::Snap;
use crate::vm::run_from;
use crate::vm::trace_snaps;

verus! {

/// Little-endian 4-byte encoding of one 32-bit word.
pub open spec fn le4(n: u32) -> Seq<u8> {
    seq![
        (n & 0xff) as u8,
        ((n >> 8) & 0xff) as u8,
        ((n >> 16) & 0xff) as u8,
        ((n >> 24) & 0xff) as u8,
    ]
}

/// Little-endian 8-byte encoding of one length.
pub open spec fn le8(n: u64) -> Seq<u8> {
    seq![
        (n & 0xff) as u8,
        ((n >> 8) & 0xff) as u8,
        ((n >> 16) & 0xff) as u8,
        ((n >> 24) & 0xff) as u8,
        ((n >> 32) & 0xff) as u8,
        ((n >> 40) & 0xff) as u8,
        ((n >> 48) & 0xff) as u8,
        ((n >> 56) & 0xff) as u8,
    ]
}

/// The stack, each word as 4 bytes, bottom first.
pub open spec fn words_bytes(s: Seq<u32>) -> Seq<u8>
    decreases s.len(),
{
    if s.len() == 0 {
        Seq::empty()
    } else {
        le4(s[0]) + words_bytes(s.skip(1))
    }
}

/// The heap entries, each pair as address then value, in entry order.
pub open spec fn pairs_bytes(s: Seq<(u32, u32)>) -> Seq<u8>
    decreases s.len(),
{
    if s.len() == 0 {
        Seq::empty()
    } else {
        le4(s[0].0) + le4(s[0].1) + pairs_bytes(s.skip(1))
    }
}

/// Canonical encoding of one snapshot: pc, stack length, the stack in
/// order, heap length, the heap entries in ascending address order, flags.
pub open spec fn snap_bytes(s: Snap) -> Seq<u8> {
    le4(s.pc as u32) + le8(s.stack.len() as u64) + words_bytes(s.stack) + le8(
        s.heap.len() as u64,
    ) + pairs_bytes(s.heap) + seq![s.flags]
}

/// Concatenated snapshot encodings.
pub open spec fn snaps_bytes(t: Seq<Snap>) -> Seq<u8>
    decreases t.len(),
{
    if t.len() == 0 {
        Seq::empty()
    } else {
        snap_bytes(t[0]) + snaps_bytes(t.skip(1))
    }
}

/// Canonical encoding of a whole trace: its length, then each snapshot.
pub open spec fn trace_bytes(t: Seq<Snap>) -> Seq<u8> {
    le8(t.len() as u64) + snaps_bytes(t)
}

/// The 256-bit digest of a byte string, as sha2 computes it: a pure
/// function of the input bytes alone.
pub uninterp spec fn sha256_of(b: Seq<u8>) -> Seq<u8>;

/// The commitment to a trace: the digest of its canonical encoding.
pub open spec fn trace_commitment_of(t: Seq<Snap>) -> Seq<u8> {
    sha256_of(trace_bytes(t))
}

/// Relies on sha2's Sha256 (a Digest implementation): the digest is a
/// deterministic function of the fed bytes alone and is 32 bytes long.
#[verifier::external_body]
fn sha256(bytes: &Vec<u8>) -> (r: Vec<u8>)
    ensures
        r@ == sha256_of(bytes@),
        r@.len() == 32,
{
    let mut hasher = sha2::Sha256::new();
    hasher.update(bytes.as_slice());
    hasher.finalize().to_vec()
}

/// The sixteen lowercase hexadecimal digits, in value order.
pub open spec fn hex_digits() -> Seq<char> {
    seq!['0', '1', '2', '3', '4', '5', '6', '7', '8', '9', 'a', 'b', 'c', 'd', 'e', 'f']
}

/// One byte as two lowercase hexadecimal digits, high digit first.
pub open spec fn hex_of_byte(b: u8) -> Seq<char> {
    seq![hex_digits()[b as int / 16], hex_digits()[b as int % 16]]
}

/// A byte string as lowercase hexadecimal, bytes in order.
pub open spec fn hex_str(bs: Seq<u8>) -> Seq<char>
    decreases bs.len(),
{
    if bs.len() == 0 {
        Seq::empty()
    } else {
        hex_of_byte(bs[0]) + hex_str(bs.skip(1))
    }
}

/// Relies on hex::encode: two lowercase hexadecimal digits per input byte,
/// high digit first, bytes in input order.
#[verifier::external_body]
fn hex_encode(bytes: &Vec<u8>) -> (r: String)
    ensures
        r@ == hex_str(bytes@),
{
    hex::encode(bytes.as_slice())
}

/// Append the 4-byte little-endian encoding of `n`.
fn push_le4(out: &mut Vec<u8>, n: u32)
    ensures
        final(out)@ =~= old(out)@ + le4(n),
{
    proof {
        assert((n & 0xff) < 256 && ((n >> 8) & 0xff) < 256 && ((n >> 16) & 0xff) < 256 && ((n
            >> 24) & 0xff) < 256) by (bit_vector);
    }
    out.push((n & 0xff) as u8);
    out.push(((n >> 8) & 0xff) as u8);
    out.push(((n >> 16) & 0xff) as u8);
    out.push(((n >> 24) & 0xff) as u8);
}

/// Append the 8-byte little-endian encoding of `n`.
fn push_le8(out: &mut Vec<u8>, n: u64)
    ensures
        final(out)@ =~= old(out)@ + le8(n),
{
    proof {
        assert((n & 0xff) < 256 && ((n >> 8) & 0xff) < 256 && ((n >> 16) & 0xff) < 256 && ((n
            >> 24) & 0xff) < 256 && ((n >> 32) & 0xff) < 256 && ((n >> 40) & 0xff) < 256 && ((n
            >> 48) & 0xff) < 256 && ((n >> 56) & 0xff) < 256) by (bit_vector);
    }
    out.push((n & 0xff) as u8);
    out.push(((n >> 8) & 0xff) as u8);
    out.push(((n >> 16) & 0xff) as u8);
    out.push(((n >> 24) & 0xff) as u8);
    out.push(((n >> 32) & 0xff) as u8);
    out.push(((n >> 40) & 0xff) as u8);
    out.push(((n >> 48) & 0xff) as u8);
    out.push(((n >> 56) & 0xff) as u8);
}

/// Extending a word prefix by one word extends its encoding by 4 bytes.
proof fn lemma_words_take(s: Seq<u32>, i: int)
    requires
        0 <= i < s.len(),
    ensures
        words_bytes(s.take(i + 1)) =~= words_bytes(s.take(i)) + le4(s[i]),
    decreases i,
{
    if i == 0 {
        assert(s.take(1) =~= seq![s[0]]);
        assert(s.take(1).skip(1) =~= Seq::<u32>::empty());
        assert(s.take(0) =~= Seq::<u32>::empty());
    } else {
        let t = s.skip(1);
        lemma_words_take(t, i - 1);
        assert(s.take(i + 1).skip(1) =~= t.take(i));
        assert(s.take(i).skip(1) =~= t.take(i - 1));
        assert(t[i - 1] == s[i]);
        assert(words_bytes(s.take(i + 1)) =~= le4(s[0]) + words_bytes(t.take(i)));
        assert(words_bytes(s.take(i)) =~= le4(s[0]) + words_bytes(t.take(i - 1)));
    }
}

/// Extending an entry prefix by one entry extends its encoding by 8 bytes.
proof fn lemma_pairs_take(s: Seq<(u32, u32)>, i: int)
    requires
        0 <= i < s.len(),
    ensures
        pairs_bytes(s.take(i + 1)) =~= pairs_bytes(s.take(i)) + le4(s[i].0) + le4(s[i].1),
    decreases i,
{
    if i == 0 {
        assert(s.take(1) =~= seq![s[0]]);
        assert(s.take(1).skip(1) =~= Seq::<(u32, u32)>::empty());
        assert(s.take(0) =~= Seq::<(u32, u32)>::empty());
    } else {
        let t = s.skip(1);
        lemma_pairs_take(t, i - 1);
        assert(s.take(i + 1).skip(1) =~= t.take(i));
        assert(s.take(i).skip(1) =~= t.take(i - 1));
        assert(t[i - 1] == s[i]);
        assert(pairs_bytes(s.take(i + 1)) =~= le4(s[0].0) + le4(s[0].1) + pairs_bytes(t.take(i)));
        assert(pairs_bytes(s.take(i)) =~= le4(s[0].0) + le4(s[0].1) + pairs_bytes(t.take(i - 1)));
    }
}

/// Extending a snapshot prefix by one snapshot extends the encoding by it.
proof fn lemma_snaps_take(t: Seq<Snap>, i: int)
    requires
        0 <= i < t.len(),
    ensures
        snaps_bytes(t.take(i + 1)) =~= snaps_bytes(t.take(i)) + snap_bytes(t[i]),
    decreases i,
{
    if i == 0 {
        assert(t.take(1) =~= seq![t[0]]);
        assert(t.take(1).skip(1) =~= Seq::<Snap>::empty());
        assert(t.take(0) =~= Seq::<Snap>::empty());
    } else {
        let s = t.skip(1);
        lemma_snaps_take(s, i - 1);
        assert(t.take(i + 1).skip(1) =~= s.take(i));
        assert(t.take(i).skip(1) =~= s.take(i - 1));
        assert(s[i - 1] == t[i]);
        assert(snaps_bytes(t.take(i + 1)) =~= snap_bytes(t[0]) + snaps_bytes(s.take(i)));
        assert(snaps_bytes(t.take(i)) =~= snap_bytes(t[0]) + snaps_bytes(s.take(i - 1)));
    }
}

/// The canonical byte encoding of one captured state.
#[verifier::loop_isolation(false)]
pub fn encode_state(st: &ProvableState) -> (r: Vec<u8>)
    ensures
        r@ =~= snap_bytes(st@),
{
    let mut out: Vec<u8> = Vec::new();
    push_le4(&mut out, st.pc);
    let sn = st.stack.len();
    push_le8(&mut out, sn as u64);
    let ghost head = le4(st.pc) + le8(st@.stack.len() as u64);
    let mut i: usize = 0;
    while i < sn
        invariant
            i <= sn,
            sn == st@.stack.len(),
            out@ =~= head + words_bytes(st@.stack.take(i as int)),
        decreases sn - i,
    {
        push_le4(&mut out, st.stack[i]);
        proof {
            lemma_words_take(st@.stack, i as int);
        }
        i = i + 1;
    }
    assert(st@.stack.take(sn as int) =~= st@.stack);
    let hn = st.heap.len();
    push_le8(&mut out, hn as u64);
    let ghost mid = head + words_bytes(st@.stack) + le8(st@.heap.len() as u64);
    let mut j: usize = 0;
    while j < hn
        invariant
            j <= hn,
            hn == st@.heap.len(),
            out@ =~= mid + pairs_bytes(st@.heap.take(j as int)),
        decreases hn - j,
    {
        let (addr, value) = st.heap.entry_at(j);
        push_le4(&mut out, addr);
        push_le4(&mut out, value);
        proof {
            lemma_pairs_take(st@.heap, j as int);
        }
        j = j + 1;
    }
    assert(st@.heap.take(hn as int) =~= st@.heap);
    out.push(st.flags);
    out
}

/// The canonical byte encoding of a whole captured trace.
#[verifier::loop_isolation(false)]
pub fn encode_trace(trace: &Vec<ProvableState>) -> (r: Vec<u8>)
    ensures
        r@ =~= trace_bytes(trace_snaps(trace@)),
{
    let mut out: Vec<u8> = Vec::new();
    let n = trace.len();
    push_le8(&mut out, n as u64);
    let ghost snaps = trace_snaps(trace@);
    let ghost head = le8(snaps.len() as u64);
    let mut i: usize = 0;
    while i < n
        invariant
            i <= n,
            n == trace@.len(),
            out@ =~= head + snaps_bytes(snaps.take(i as int)),
        decreases n - i,
    {
        let mut piece = encode_state(&trace[i]);
        assert(piece@ =~= snap_bytes(snaps[i as int]));
        out.append(&mut piece);
        proof {
            lemma_snaps_take(snaps, i as int);
        }
        i = i + 1;
    }
    assert(snaps.take(n as int) =~= snaps);
    out
}

/// The 32-byte commitment to a captured trace.
pub fn digest_trace(trace: &Vec<ProvableState>) -> (r: Vec<u8>)
    ensures
        r@ == trace_commitment_of(trace_snaps(trace@)),
        r@.len() == 32,
{
    let bytes = encode_trace(trace);
    sha256(&bytes)
}

/// The commitment as a lowercase hexadecimal string, for inspection and
/// for the trace artifact a caller persists.
pub fn digest_trace_hex(trace: &Vec<ProvableState>) -> (r: String)
    ensures
        r@ == hex_str(trace_commitment_of(trace_snaps(trace@))),
{
    let digest = digest_trace(trace);
    hex_encode(&digest)
}

/// Determinism: equal programs and equal initial snapshots give equal run
/// outcomes and equal trace commitments — the commitment is a function of
/// the program and the initial state alone.
pub proof fn lemma_run_commitment_deterministic(
    p1: Seq<Instruction>,
    p2: Seq<Instruction>,
    s1: Snap,
    s2: Snap,
)
    requires
        p1 =~= p2,
        s1 =~= s2,
    ensures
        run_from(p1, s1) =~= run_from(p2, s2),
        trace_commitment_of(run_from(p1, s1).trace) == trace_commitment_of(
            run_from(p2, s2).trace,
        ),
{
    assert(p1 == p2);
    assert(s1 == s2);
}

/// Two words with the same 4-byte encoding are the same word.
proof fn lemma_le4_inj(x: u32, y: u32)
    requires
        le4(x) == le4(y),
    ensures
        x == y,
{
    assert(le4(x)[0] == le4(y)[0] && le4(x)[1] == le4(y)[1] && le4(x)[2] == le4(y)[2] && le4(x)[3]
        == le4(y)[3]);
    assert(((x & 0xff) as u8 == (y & 0xff) as u8 && ((x >> 8) & 0xff) as u8 == ((y >> 8)
        & 0xff) as u8 && ((x >> 16) & 0xff) as u8 == ((y >> 16) & 0xff) as u8 && ((x >> 24)
        & 0xff) as u8 == ((y >> 24) & 0xff) as u8) ==> x == y) by (bit_vector);
}

/// Two lengths with the same 8-byte encoding are the same length.
proof fn lemma_le8_inj(x: u64, y: u64)
    requires
        le8(x) == le8(y),
    ensures
        x == y,
{
    assert(le8(x)[0] == le8(y)[0] && le8(x)[1] == le8(y)[1] && le8(x)[2] == le8(y)[2] && le8(x)[3]
        == le8(y)[3] && le8(x)[4] == le8(y)[4] && le8(x)[5] == le8(y)[5] && le8(x)[6] == le8(y)[6]
        && le8(x)[7] == le8(y)[7]);
    assert(((x & 0xff) as u8 == (y & 0xff) as u8 && ((x >> 8) & 0xff) as u8 == ((y >> 8)
        & 0xff) as u8 && ((x >> 16) & 0xff) as u8 == ((y >> 16) & 0xff) as u8 && ((x >> 24)
        & 0xff) as u8 == ((y >> 24) & 0xff) as u8 && ((x >> 32) & 0xff) as u8 == ((y >> 32)
        & 0xff) as u8 && ((x >> 40) & 0xff) as u8 == ((y >> 40) & 0xff) as u8 && ((x >> 48)
        & 0xff) as u8 == ((y >> 48) & 0xff) as u8 && ((x >> 56) & 0xff) as u8 == ((y >> 56)
        & 0xff) as u8) ==> x == y) by (bit_vector);
}

/// A word sequence encodes to exactly 4 bytes per word.
proof fn lemma_words_len(s: Seq<u32>)
    ensures
        words_bytes(s).len() == 4 * s.len(),
    decreases s.len(),
{
    if s.len() > 0 {
        lemma_words_len(s.skip(1));
    }
}

/// An entry sequence encodes to exactly 8 bytes per entry.
proof fn lemma_pairs_len(s: Seq<(u32, u32)>)
    ensures
        pairs_bytes(s).len() == 8 * s.len(),
    decreases s.len(),
{
    if s.len() > 0 {
        lemma_pairs_len(s.skip(1));
    }
}

/// Word sequences of one length with equal encodings are equal.
proof fn lemma_words_inj(s1: Seq<u32>, s2: Seq<u32>)
    requires
        s1.len() == s2.len(),
        words_bytes(s1) == words_bytes(s2),
    ensures
        s1 =~= s2,
    decreases s1.len(),
{
    if s1.len() > 0 {
        assert(words_bytes(s1).take(4) =~= le4(s1[0]));
        assert(words_bytes(s2).take(4) =~= le4(s2[0]));
        lemma_le4_inj(s1[0], s2[0]);
        assert(words_bytes(s1).skip(4) =~= words_bytes(s1.skip(1)));
        assert(words_bytes(s2).skip(4) =~= words_bytes(s2.skip(1)));
        lemma_words_inj(s1.skip(1), s2.skip(1));
        assert forall|k: int| 0 <= k < s1.len() implies s1[k] == s2[k] by {
            if k > 0 {
                assert(s1[k] == s1.skip(1)[k - 1]);
                assert(s2[k] == s2.skip(1)[k - 1]);
            }
        }
    }
}

/// Entry sequences of one length with equal encodings are equal.
proof fn lemma_pairs_inj(s1: Seq<(u32, u32)>, s2: Seq<(u32, u32)>)
    requires
        s1.len() == s2.len(),
        pairs_bytes(s1) == pairs_bytes(s2),
    ensures
        s1 =~= s2,
    decreases s1.len(),
{
    if s1.len() > 0 {
        assert(pairs_bytes(s1).take(4) =~= le4(s1[0].0));
        assert(pairs_bytes(s2).take(4) =~= le4(s2[0].0));
        assert(pairs_bytes(s1).subrange(4, 8) =~= le4(s1[0].1));
        assert(pairs_bytes(s2).subrange(4, 8) =~= le4(s2[0].1));
        lemma_le4_inj(s1[0].0, s2[0].0);
        lemma_le4_inj(s1[0].1, s2[0].1);
        assert(pairs_bytes(s1).skip(8) =~= pairs_bytes(s1.skip(1)));
        assert(pairs_bytes(s2).skip(8) =~= pairs_bytes(s2.skip(1)));
        lemma_pairs_inj(s1.skip(1), s2.skip(1));
        assert forall|k: int| 0 <= k < s1.len() implies s1[k] == s2[k] by {
            if k > 0 {
                assert(s1[k] == s1.skip(1)[k - 1]);
                assert(s2[k] == s2.skip(1)[k - 1]);
            }
        }
    }
}

/// The bounds under which a snapshot's encoding is faithful: every length
/// field fits the width it is encoded in. Snapshots captured by the
/// machine always satisfy them.
pub open spec fn snap_enc_wf(s: Snap) -> bool {
    s.pc <= u32::MAX && s.stack.len() <= u64::MAX && s.heap.len() <= u64::MAX
}

/// A snapshot encoding determines the snapshot and whatever follows it:
/// the encoding is a prefix code.
#[verifier::rlimit(100)]
proof fn lemma_snap_prefix(s1: Snap, s2: Snap, x: Seq<u8>, y: Seq<u8>)
    requires
        snap_enc_wf(s1),
        snap_enc_wf(s2),
        snap_bytes(s1) + x == snap_bytes(s2) + y,
    ensures
        s1 =~= s2,
        x == y,
{
    lemma_words_len(s1.stack);
    lemma_words_len(s2.stack);
    lemma_pairs_len(s1.heap);
    lemma_pairs_len(s2.heap);
    let e1 = snap_bytes(s1) + x;
    let e2 = snap_bytes(s2) + y;
    assert(e1.subrange(0, 4) =~= le4(s1.pc as u32));
    assert(e2.subrange(0, 4) =~= le4(s2.pc as u32));
    lemma_le4_inj(s1.pc as u32, s2.pc as u32);
    assert(s1.pc == s2.pc);
    assert(e1.subrange(4, 12) =~= le8(s1.stack.len() as u64));
    assert(e2.subrange(4, 12) =~= le8(s2.stack.len() as u64));
    lemma_le8_inj(s1.stack.len() as u64, s2.stack.len() as u64);
    assert(s1.stack.len() == s2.stack.len());
    let m = s1.stack.len() as int;
    assert(e1.subrange(12, 12 + 4 * m) =~= words_bytes(s1.stack));
    assert(e2.subrange(12, 12 + 4 * m) =~= words_bytes(s2.stack));
    lemma_words_inj(s1.stack, s2.stack);
    let o = 12 + 4 * m;
    assert(e1.subrange(o, o + 8) =~= le8(s1.heap.len() as u64));
    assert(e2.subrange(o, o + 8) =~= le8(s2.heap.len() as u64));
    lemma_le8_inj(s1.heap.len() as u64, s2.heap.len() as u64);
    assert(s1.heap.len() == s2.heap.len());
    let h = s1.heap.len() as int;
    assert(e1.subrange(o + 8, o + 8 + 8 * h) =~= pairs_bytes(s1.heap));
    assert(e2.subrange(o + 8, o + 8 + 8 * h) =~= pairs_bytes(s2.heap));
    lemma_pairs_inj(s1.heap, s2.heap);
    assert(e1[o + 8 + 8 * h] == s1.flags);
    assert(e2[o + 8 + 8 * h] == s2.flags);
    assert(s1.flags == s2.flags);
    assert(snap_bytes(s1).len() == snap_bytes(s2).len());
    assert(x =~= e1.skip(snap_bytes(s1).len() as int));
    assert(y =~= e2.skip(snap_bytes(s2).len() as int));
}

/// Snapshot sequences of one length with equal encodings are equal.
proof fn lemma_snaps_inj(t1: Seq<Snap>, t2: Seq<Snap>)
    requires
        t1.len() == t2.len(),
        snaps_bytes(t1) == snaps_bytes(t2),
        forall|k: int| 0 <= k < t1.len() ==> snap_enc_wf(#[trigger] t1[k]),
        forall|k: int| 0 <= k < t2.len() ==> snap_enc_wf(#[trigger] t2[k]),
    ensures
        t1 =~~= t2,
    decreases t1.len(),
{
    if t1.len() > 0 {
        assert(snaps_bytes(t1) == snap_bytes(t1[0]) + snaps_bytes(t1.skip(1)));
        assert(snaps_bytes(t2) == snap_bytes(t2[0]) + snaps_bytes(t2.skip(1)));
        lemma_snap_prefix(t1[0], t2[0], snaps_bytes(t1.skip(1)), snaps_bytes(t2.skip(1)));
        lemma_snaps_inj(t1.skip(1), t2.skip(1));
        assert(t1[0] =~~= t2[0]);
        assert(t1 =~~= seq![t1[0]] + t1.skip(1));
        assert(t2 =~~= seq![t2[0]] + t2.skip(1));
    }
}

/// Commitment sensitivity, stated of the canonical encoding: two traces
/// within the encoding's bounds that encode to the same bytes are the same
/// trace — so changing any field of any entry changes the bytes the digest
/// is computed over. The digest itself inherits this up to collisions of
/// the underlying hash.
pub proof fn lemma_trace_encoding_injective(t1: Seq<Snap>, t2: Seq<Snap>)
    requires
        t1.len() <= u64::MAX,
        t2.len() <= u64::MAX,
        forall|k: int| 0 <= k < t1.len() ==> snap_enc_wf(#[trigger] t1[k]),
        forall|k: int| 0 <= k < t2.len() ==> snap_enc_wf(#[trigger] t2[k]),
        trace_bytes(t1) == trace_bytes(t2),
    ensures
        t1 =~~= t2,
{
    assert(trace_bytes(t1).subrange(0, 8) =~= le8(t1.len() as u64));
    assert(trace_bytes(t2).subrange(0, 8) =~= le8(t2.len() as u64));
    lemma_le8_inj(t1.len() as u64, t2.len() as u64);
    assert(trace_bytes(t1).skip(8) =~= snaps_bytes(t1));
    assert(trace_bytes(t2).skip(8) =~= snaps_bytes(t2));
    lemma_snaps_inj(t1, t2);
}

impl ProvableVM {
    /// Commit to the captured trace: the 32-byte digest of its canonical
    /// encoding.
    pub fn generate_trace_commitment(&self) -> (r: Vec<u8>)
        ensures
            r@ == trace_commitment_of(trace_snaps(self.trace@)),
            r@.len() == 32,
    {
        digest_trace(&self.trace)
    }

    /// The commitment as a lowercase hexadecimal line for external storage.
    pub fn trace_commitment_hex(&self) -> (r: String)
        ensures
            r@ == hex_str(trace_commitment_of(trace_snaps(self.trace@))),
    {
        digest_trace_hex(&self.trace)
    }
}

} // verus!
