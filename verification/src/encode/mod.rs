//! Encoder parameters and output, and the splitting of encoder output into
//! NAL units: Annex B byte streams (start codes) and AVCC buffers (length
//! prefixes).

pub mod software;

use vstd::prelude::*;
use vstd::slice::slice_to_vec;

verus! {

#[derive(Debug, Clone, Copy, PartialEq, Eq, Structural)]
pub struct EncoderConfig {
    pub width: u32,
    pub height: u32,
    pub fps: u32,
    pub bitrate: u32,
}

pub struct EncodedPacket {
    pub data: Vec<u8>,
    pub is_keyframe: bool,
    pub timestamp: u64,
    pub nal_units: Vec<Vec<u8>>,
}

/// The byte views of a sequence of byte vectors.
pub open spec fn byte_views(v: Seq<Vec<u8>>) -> Seq<Seq<u8>> {
    v.map_values(|x: Vec<u8>| x@)
}

// ── Annex B ─────────────────────────────────────────────────────────────────

/// A start code (`00 00 01`, or `00 00 00 01`) begins at `e`, as the end
/// of a NAL unit is searched for.
pub open spec fn start_code_at(d: Seq<u8>, e: int) -> bool {
    e + 2 < d.len() && d[e] == 0 && d[e + 1] == 0 && (d[e + 2] == 1 || (e + 3 < d.len() && d[e
        + 2] == 0 && d[e + 3] == 1))
}

/// Where the NAL unit that begins at `s` ends: at the first start code from
/// `s` on, or at the end of the data.
pub open spec fn nal_end(d: Seq<u8>, s: int) -> int
    decreases d.len() - s,
{
    if s < 0 || s + 2 >= d.len() {
        d.len() as int
    } else if start_code_at(d, s) {
        s
    } else {
        nal_end(d, s + 1)
    }
}

/// Where the NAL unit after a start code at `i` begins, if one is
/// recognised there: after `00 00 01` (with at least one byte following it),
/// or after `00 00 00 01` (likewise).
pub open spec fn nal_start(d: Seq<u8>, i: int) -> Option<int> {
    if i + 3 < d.len() && d[i] == 0 && d[i + 1] == 0 {
        if d[i + 2] == 1 {
            Some(i + 3)
        } else if i + 4 < d.len() && d[i + 2] == 0 && d[i + 3] == 1 {
            Some(i + 4)
        } else {
            None
        }
    } else {
        None
    }
}

/// The NAL units of an Annex B stream, from position `i` on: each starts
/// after a start code and runs to the next start code or the end; empty
/// units are dropped.
pub open spec fn annex_b_nals(d: Seq<u8>, i: int) -> Seq<Seq<u8>>
    decreases d.len() - i,
{
    if i < 0 || i >= d.len() {
        Seq::empty()
    } else {
        match nal_start(d, i) {
            None => annex_b_nals(d, i + 1),
            Some(s) => {
                let e = nal_end(d, s);
                if e <= i || e > d.len() {
                    Seq::empty()
                } else {
                    let rest = annex_b_nals(d, e);
                    if e > s {
                        seq![d.subrange(s, e)] + rest
                    } else {
                        rest
                    }
                }
            },
        }
    }
}

proof fn lemma_nal_end_bounds(d: Seq<u8>, s: int)
    requires
        0 <= s <= d.len(),
    ensures
        s <= nal_end(d, s) <= d.len(),
    decreases d.len() - s,
{
    if s + 2 < d.len() && !start_code_at(d, s) {
        lemma_nal_end_bounds(d, s + 1);
    }
}

/// Splits an Annex B byte stream into its NAL units, start codes removed.
pub fn parse_annex_b_nals(data: &[u8]) -> (nals: Vec<Vec<u8>>)
    requires
        data@.len() + 4 <= usize::MAX,
    ensures
        byte_views(nals@) == annex_b_nals(data@, 0),
{
    let ghost d = data@;
    let mut nals: Vec<Vec<u8>> = Vec::new();
    let mut i: usize = 0;
    while i < data.len()
        invariant
            d == data@,
            d.len() + 4 <= usize::MAX,
            i <= d.len(),
            byte_views(nals@) + annex_b_nals(d, i as int) == annex_b_nals(d, 0),
        decreases d.len() - i,
    {
        let start: usize = if i + 3 < data.len() && data[i] == 0 && data[i + 1] == 0 {
            if data[i + 2] == 1 {
                i + 3
            } else if i + 4 < data.len() && data[i + 2] == 0 && data[i + 3] == 1 {
                i + 4
            } else {
                assert(annex_b_nals(d, i as int) == annex_b_nals(d, i + 1));
                i = i + 1;
                continue ;
            }
        } else {
            assert(annex_b_nals(d, i as int) == annex_b_nals(d, i + 1));
            i = i + 1;
            continue ;
        };
        assert(nal_start(d, i as int) == Some(start as int));
        let mut end: usize = start;
        while end + 2 < data.len()
            invariant
                d == data@,
                d.len() + 4 <= usize::MAX,
                start <= end <= d.len(),
                nal_end(d, end as int) == nal_end(d, start as int),
            ensures
                start <= end <= d.len(),
                nal_end(d, end as int) == nal_end(d, start as int),
                end + 2 >= d.len() || start_code_at(d, end as int),
            decreases d.len() - end,
        {
            if data[end] == 0 && data[end + 1] == 0 && (data[end + 2] == 1 || (end + 3
                < data.len() && data[end + 2] == 0 && data[end + 3] == 1)) {
                break ;
            }
            end = end + 1;
        }
        if end + 2 >= data.len() {
            end = data.len();
        }
        proof {
            lemma_nal_end_bounds(d, start as int);
        }
        assert(end == nal_end(d, start as int));
        let ghost before = nals@;
        if end > start {
            nals.push(slice_to_vec(&data[start..end]));
            assert(byte_views(nals@) =~= byte_views(before).push(d.subrange(
                start as int,
                end as int,
            )));
            assert(byte_views(before) + annex_b_nals(d, i as int) =~= byte_views(nals@)
                + annex_b_nals(d, end as int));
        }
        i = end;
    }
    assert(byte_views(nals@) + annex_b_nals(d, i as int) =~= byte_views(nals@));
    nals
}

/// The Annex B stream of `nals`: each unit after a 4-byte start code.
pub open spec fn annex_b_frame(nals: Seq<Seq<u8>>) -> Seq<u8>
    decreases nals.len(),
{
    if nals.len() == 0 {
        Seq::empty()
    } else {
        seq![0u8, 0u8, 0u8, 1u8] + nals[0] + annex_b_frame(nals.drop_first())
    }
}

/// A NAL unit free of start-code emulation: it holds no `00 00 00` and no
/// `00 00 01`.
pub open spec fn emulation_free(n: Seq<u8>) -> bool {
    forall|k: int| 0 <= k && k + 2 < n.len() ==> !(#[trigger] n[k] == 0 && n[k + 1] == 0 && n[k + 2] <= 1)
}

/// Parsing undoes framing: non-empty NAL units free of start-code emulation,
/// each written after a 4-byte start code, parse back to the same units in
/// the same order.
pub proof fn annex_b_roundtrip(nals: Seq<Seq<u8>>)
    requires
        forall|k: int| 0 <= k < nals.len() ==> (#[trigger] nals[k]).len() > 0 && emulation_free(nals[k]),
    ensures
        annex_b_nals(annex_b_frame(nals), 0) == nals,
{
    lemma_annex_b_after(Seq::empty(), nals);
    assert(Seq::<u8>::empty() + annex_b_frame(nals) =~= annex_b_frame(nals));
}

proof fn lemma_annex_b_after(pre: Seq<u8>, nals: Seq<Seq<u8>>)
    requires
        forall|k: int| 0 <= k < nals.len() ==> (#[trigger] nals[k]).len() > 0 && emulation_free(nals[k]),
    ensures
        annex_b_nals(pre + annex_b_frame(nals), pre.len() as int) == nals,
    decreases nals.len(),
{
    let d = pre + annex_b_frame(nals);
    let i = pre.len() as int;
    if nals.len() == 0 {
        assert(d =~= pre);
        assert(nals =~= Seq::<Seq<u8>>::empty());
    } else {
        let n0 = nals[0];
        let rest = nals.drop_first();
        assert(n0.len() > 0 && emulation_free(n0));
        let pre1 = pre + seq![0u8, 0u8, 0u8, 1u8] + n0;
        assert(d =~= pre1 + annex_b_frame(rest));
        let s = i + 4;
        let e = pre1.len() as int;
        assert(e == s + n0.len());
        assert(d[i] == 0 && d[i + 1] == 0 && d[i + 2] == 0 && d[i + 3] == 1);
        assert(nal_start(d, i) == Some(s));
        assert forall|k: int| 0 <= k < n0.len() implies d[s + k] == #[trigger] n0[k] by {}
        if rest.len() > 0 {
            let f = annex_b_frame(rest);
            assert(f =~= seq![0u8, 0u8, 0u8, 1u8] + rest[0] + annex_b_frame(rest.drop_first()));
            assert(d[e] == 0 && d[e + 1] == 0 && d[e + 2] == 0 && d[e + 3] == 1);
            assert(start_code_at(d, e));
        } else {
            assert(annex_b_frame(rest) =~= Seq::<u8>::empty());
            assert(d.len() == e);
        }
        assert(nal_end(d, e) == e);
        assert forall|j: int| s <= j < e && j + 2 < d.len() implies !start_code_at(d, j) by {
            if j + 2 < e {
                let k = j - s;
                assert(d[j] == n0[k] && d[j + 1] == n0[k + 1] && d[j + 2] == n0[k + 2]);
            } else {
                assert(rest.len() > 0);
            }
        }
        lemma_nal_end_scan(d, s, e);
        assert(d.subrange(s, e) =~= n0);
        assert forall|k: int| 0 <= k < rest.len() implies (#[trigger] rest[k]).len() > 0
            && emulation_free(rest[k]) by {
            assert(rest[k] == nals[k + 1]);
        }
        lemma_annex_b_after(pre1, rest);
        assert(annex_b_nals(d, e) == rest);
        assert(seq![n0] + rest =~= nals);
    }
}

proof fn lemma_nal_end_scan(d: Seq<u8>, s: int, e: int)
    requires
        0 <= s <= e <= d.len(),
        nal_end(d, e) == e,
        forall|j: int| s <= j < e && j + 2 < d.len() ==> !start_code_at(d, j),
    ensures
        nal_end(d, s) == e,
    decreases e - s,
{
    if s < e {
        if e < d.len() {
            assert(e + 2 < d.len());
        }
        if s + 2 < d.len() {
            lemma_nal_end_scan(d, s + 1, e);
        }
    }
}

// ── AVCC ────────────────────────────────────────────────────────────────────

/// Big-endian value of the `n` bytes of `d` at `off`.
pub open spec fn be_value(d: Seq<u8>, off: int, n: int) -> nat
    decreases n,
{
    if n <= 0 {
        0
    } else {
        be_value(d, off, n - 1) * 256 + d[off + n - 1] as nat
    }
}

/// The NAL units of an AVCC buffer from `off` on: each is a big-endian
/// length of `hl` bytes and that many bytes; parsing stops at the first
/// length that does not fit in what is left.
pub open spec fn avcc_nals(d: Seq<u8>, off: int, hl: int) -> Seq<Seq<u8>>
    decreases d.len() - off,
{
    if hl < 1 || off < 0 || off + hl > d.len() {
        Seq::empty()
    } else {
        let len = be_value(d, off, hl);
        if off + hl + len > d.len() {
            Seq::empty()
        } else {
            seq![d.subrange(off + hl, off + hl + len)] + avcc_nals(d, off + hl + len, hl)
        }
    }
}

proof fn lemma_be_value_bound(d: Seq<u8>, off: int, n: int)
    requires
        0 <= n,
    ensures
        be_value(d, off, n) < pow256(n),
    decreases n,
{
    if n > 0 {
        lemma_be_value_bound(d, off, n - 1);
        assert(be_value(d, off, n) < pow256(n)) by (nonlinear_arith)
            requires
                be_value(d, off, n) == be_value(d, off, n - 1) * 256 + d[off + n - 1],
                be_value(d, off, n - 1) < pow256(n - 1),
                pow256(n) == pow256(n - 1) * 256,
                d[off + n - 1] < 256,
        ;
    }
}

/// `256^n`.
pub open spec fn pow256(n: int) -> nat
    decreases n,
{
    if n <= 0 {
        1
    } else {
        pow256(n - 1) * 256
    }
}

/// Splits an AVCC buffer, whose NAL units carry a big-endian length of
/// `nal_header_len` bytes (1 to 4), into its NAL units.
pub fn parse_avcc_nal_units(data: &[u8], nal_header_len: usize) -> (nals: Vec<Vec<u8>>)
    requires
        1 <= nal_header_len <= 4,
        data@.len() + 0x1_0000_0000 <= usize::MAX,
    ensures
        byte_views(nals@) == avcc_nals(data@, 0, nal_header_len as int),
{
    let ghost d = data@;
    let ghost hl = nal_header_len as int;
    let mut nals: Vec<Vec<u8>> = Vec::new();
    let mut offset: usize = 0;
    proof {
        reveal_with_fuel(pow256, 5);
    }
    while offset + nal_header_len <= data.len()
        invariant
            d == data@,
            hl == nal_header_len,
            1 <= hl <= 4,
            d.len() + 0x1_0000_0000 <= usize::MAX,
            offset <= d.len(),
            byte_views(nals@) + avcc_nals(d, offset as int, hl) == avcc_nals(d, 0, hl),
            pow256(4) == 0x1_0000_0000,
        ensures
            byte_views(nals@) + avcc_nals(d, offset as int, hl) == avcc_nals(d, 0, hl),
            avcc_nals(d, offset as int, hl) == Seq::<Seq<u8>>::empty(),
        decreases d.len() - offset,
    {
        let mut len: usize = 0;
        let mut k: usize = 0;
        while k < nal_header_len
            invariant
                d == data@,
                k <= nal_header_len <= 4,
                offset + nal_header_len <= data.len(),
                len == be_value(d, offset as int, k as int),
                pow256(4) == 0x1_0000_0000,
            decreases nal_header_len - k,
        {
            proof {
                lemma_be_value_bound(d, offset as int, k as int);
                assert(pow256(k as int) <= pow256(3)) by {
                    reveal_with_fuel(pow256, 5);
                }
                assert(len * 256 + 255 < 0x1_0000_0000) by (nonlinear_arith)
                    requires
                        len < pow256(k as int),
                        pow256(k as int) <= pow256(3),
                        pow256(3) == 0x100_0000,
                ;
            }
            len = len * 256 + data[offset + k] as usize;
            k = k + 1;
        }
        proof {
            lemma_be_value_bound(d, offset as int, hl);
            assert(pow256(hl) <= pow256(4)) by {
                reveal_with_fuel(pow256, 5);
            }
        }
        let body = offset + nal_header_len;
        if len > data.len() - body {
            assert(avcc_nals(d, offset as int, hl) == Seq::<Seq<u8>>::empty());
            break ;
        }
        let ghost before = nals@;
        nals.push(slice_to_vec(&data[body..body + len]));
        assert(byte_views(nals@) =~= byte_views(before).push(
            d.subrange(body as int, body + len),
        ));
        assert(byte_views(before) + avcc_nals(d, offset as int, hl) =~= byte_views(nals@)
            + avcc_nals(d, body + len, hl));
        offset = body + len;
    }
    assert(byte_views(nals@) + avcc_nals(d, offset as int, hl) =~= byte_views(nals@));
    nals
}

/// The packet a hardware encoder's output makes: `data` is one encoded
/// frame in AVCC framing with length fields of `nal_header_len` bytes, and
/// `param_sets` the parameter sets of its format.  Keyframes carry the
/// parameter sets first, then the frame's NAL units; empty output makes no
/// packet.  The timestamp is left at 0 for the caller to set.
pub fn encoded_packet(
    data: &[u8],
    is_keyframe: bool,
    param_sets: Vec<Vec<u8>>,
    nal_header_len: usize,
) -> (p: Option<EncodedPacket>)
    requires
        1 <= nal_header_len <= 4,
        data@.len() + 0x1_0000_0000 <= usize::MAX,
    ensures
        data@.len() == 0 ==> p is None,
        data@.len() > 0 ==> p is Some && p->0.data@ == data@ && p->0.is_keyframe == is_keyframe
            && p->0.timestamp == 0 && byte_views(p->0.nal_units@) == (if is_keyframe {
            byte_views(param_sets@)
        } else {
            Seq::<Seq<u8>>::empty()
        }) + avcc_nals(data@, 0, nal_header_len as int),
{
    if data.len() == 0 {
        return None;
    }
    let mut nal_units: Vec<Vec<u8>> = if is_keyframe {
        param_sets
    } else {
        Vec::new()
    };
    let ghost head = byte_views(nal_units@);
    let slices = parse_avcc_nal_units(data, nal_header_len);
    let ghost tail = byte_views(slices@);
    for n in it: slices
        invariant
            tail == byte_views(it.seq()),
            byte_views(nal_units@) == head + tail.take(it.index()),
    {
        let ghost before = nal_units@;
        proof {
            assert(it.seq()[it.index()] == n);
            assert(tail[it.index()] == n@);
        }
        nal_units.push(n);
        proof {
            assert(byte_views(nal_units@) =~= byte_views(before).push(n@));
            assert(tail.take(it.index() + 1) =~= tail.take(it.index()).push(n@));
            assert(byte_views(nal_units@) =~= head + tail.take(it.index() + 1));
        }
    }
    assert(tail.take(tail.len() as int) =~= tail);
    assert(head =~= (if is_keyframe {
        byte_views(param_sets@)
    } else {
        Seq::<Seq<u8>>::empty()
    }));
    Some(EncodedPacket { data: slice_to_vec(data), is_keyframe, timestamp: 0, nal_units })
}

} // verus!
