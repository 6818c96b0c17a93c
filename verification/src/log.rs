//! The mathematical reading of a segment log: how a directory of
//! `#`-delimited record files replays into an index, and which value each
//! index entry points at.

use vstd::prelude::*;
use crate::codec::{decode_cmd, no_delim};
use crate::protocol::CmdModel;

verus! {

/// The position of the first `#` at or after `pos`, or `f.len()` if none.
pub open spec fn delim_at(f: Seq<char>, pos: int) -> int
    decreases f.len() - pos,
    when 0 <= pos <= f.len()
{
    if pos >= f.len() {
        pos
    } else if f[pos] == '#' {
        pos
    } else {
        delim_at(f, pos + 1)
    }
}

pub proof fn lemma_delim_at(f: Seq<char>, pos: int)
    requires
        0 <= pos <= f.len(),
    ensures
        pos <= delim_at(f, pos) <= f.len(),
        delim_at(f, pos) < f.len() ==> f[delim_at(f, pos)] == '#',
        forall|j: int| pos <= j < delim_at(f, pos) ==> f[j] != '#',
    decreases f.len() - pos,
{
    if pos < f.len() && f[pos] != '#' {
        lemma_delim_at(f, pos + 1);
    }
}

/// A delimiter found inside `f` is still found there when `f` is extended.
pub proof fn lemma_delim_extend(f: Seq<char>, e: Seq<char>, pos: int)
    requires
        0 <= pos <= f.len(),
        delim_at(f, pos) < f.len(),
    ensures
        delim_at(f + e, pos) == delim_at(f, pos),
    decreases f.len() - pos,
{
    assert((f + e)[pos] == f[pos]);
    if pos < f.len() && f[pos] != '#' {
        lemma_delim_extend(f, e, pos + 1);
    }
}

/// Scanning inside the freshly appended record `r` runs to the new `#`.
pub proof fn lemma_delim_tail(f: Seq<char>, r: Seq<char>, pos: int)
    requires
        no_delim(r),
        f.len() <= pos <= f.len() + r.len(),
    ensures
        delim_at(f + r + seq!['#'], pos) == f.len() + r.len(),
    decreases f.len() + r.len() - pos,
{
    let g = f + r + seq!['#'];
    assert(g.len() == f.len() + r.len() + 1);
    if pos < f.len() + r.len() {
        assert(g[pos] == r[pos - f.len()]);
        lemma_delim_tail(f, r, pos + 1);
    } else {
        assert(g[pos] == '#');
    }
}

/// One record's effect on the index.
pub open spec fn apply_step(
    idx: Map<Seq<char>, (int, int)>,
    m: Option<CmdModel>,
    seg: int,
    pos: int,
) -> Map<Seq<char>, (int, int)> {
    match m {
        Some(CmdModel::Put { key, value }) => idx.insert(key, (seg, pos)),
        Some(CmdModel::Rm { key }) => idx.remove(key),
        _ => idx,
    }
}

/// Replays the complete frames of `f` from `pos` on, last writer winning;
/// an unterminated tail is ignored.
pub open spec fn replay_seg(
    idx: Map<Seq<char>, (int, int)>,
    f: Seq<char>,
    seg: int,
    pos: int,
) -> Map<Seq<char>, (int, int)>
    decreases f.len() - pos,
    when 0 <= pos <= f.len()
    via replay_seg_dec
{
    let end = delim_at(f, pos);
    if end >= f.len() {
        idx
    } else {
        replay_seg(apply_step(idx, decode_cmd(f.subrange(pos, end)), seg, pos), f, seg, end + 1)
    }
}

#[via_fn]
proof fn replay_seg_dec(idx: Map<Seq<char>, (int, int)>, f: Seq<char>, seg: int, pos: int) {
    lemma_delim_at(f, pos);
}

/// From `pos` on, `f` is a concatenation of complete, decodable frames.
pub open spec fn framed_from(f: Seq<char>, pos: int) -> bool
    decreases f.len() - pos,
    when 0 <= pos <= f.len()
    via framed_from_dec
{
    let end = delim_at(f, pos);
    if end >= f.len() {
        pos == f.len()
    } else {
        decode_cmd(f.subrange(pos, end)) is Some && framed_from(f, end + 1)
    }
}

#[via_fn]
proof fn framed_from_dec(f: Seq<char>, pos: int) {
    lemma_delim_at(f, pos);
}

/// The whole of `f` is complete, decodable frames.
pub open spec fn well_framed(f: Seq<char>) -> bool {
    framed_from(f, 0)
}

/// A well-framed stretch that has not ended yet ends with a delimiter.
pub proof fn lemma_framed_last(f: Seq<char>, pos: int)
    requires
        0 <= pos <= f.len(),
        framed_from(f, pos),
        pos < f.len(),
    ensures
        f.last() == '#',
    decreases f.len() - pos,
{
    lemma_delim_at(f, pos);
    let end = delim_at(f, pos);
    if end + 1 == f.len() {
        assert(f[end] == '#');
    } else {
        lemma_framed_last(f, end + 1);
    }
}

/// Replaying the segments `0 .. n` of `files`, in order.
pub open spec fn replay_upto(files: Seq<Seq<char>>, n: int) -> Map<Seq<char>, (int, int)>
    decreases n,
{
    if n <= 0 {
        Map::empty()
    } else if n > files.len() {
        Map::empty()
    } else {
        replay_seg(replay_upto(files, n - 1), files[n - 1], n - 1, 0)
    }
}

/// The index that startup replay reconstructs from `files`.
pub open spec fn replay_all(files: Seq<Seq<char>>) -> Map<Seq<char>, (int, int)> {
    replay_upto(files, files.len() as int)
}

/// The record beginning at offset `p` of segment `n`, if the offsets land
/// on a complete frame.
pub open spec fn rec_at(files: Seq<Seq<char>>, n: int, p: int) -> Option<CmdModel> {
    if 0 <= n < files.len() && 0 <= p <= files[n].len() {
        let end = delim_at(files[n], p);
        if end < files[n].len() {
            decode_cmd(files[n].subrange(p, end))
        } else {
            None
        }
    } else {
        None
    }
}

/// The entry `e` for key `k` points at a stored `Put` record for `k`.
pub open spec fn entry_valid(files: Seq<Seq<char>>, k: Seq<char>, e: (int, int)) -> bool {
    match rec_at(files, e.0, e.1) {
        Some(CmdModel::Put { key, value }) => key == k,
        _ => false,
    }
}

/// The value stored at entry `e`.
pub open spec fn entry_value(files: Seq<Seq<char>>, e: (int, int)) -> Seq<char> {
    match rec_at(files, e.0, e.1) {
        Some(CmdModel::Put { key, value }) => value,
        _ => Seq::empty(),
    }
}

/// The key → value map that `files` holds: each replayed entry read back.
pub open spec fn disk_model(files: Seq<Seq<char>>) -> Map<Seq<char>, Seq<char>> {
    let idx = replay_all(files);
    Map::new(|k: Seq<char>| idx.contains_key(k), |k: Seq<char>| entry_value(files, idx[k]))
}

// ---------------------------------------------------------------------------
// Appending one record
// ---------------------------------------------------------------------------

/// Appending one framed record to a well-framed file replays as one more
/// step, and keeps the file well framed if the record decodes.
pub proof fn lemma_replay_extend(
    idx: Map<Seq<char>, (int, int)>,
    f: Seq<char>,
    r: Seq<char>,
    seg: int,
    pos: int,
)
    requires
        0 <= pos <= f.len(),
        framed_from(f, pos),
        no_delim(r),
    ensures
        replay_seg(idx, f + r + seq!['#'], seg, pos) == apply_step(
            replay_seg(idx, f, seg, pos),
            decode_cmd(r),
            seg,
            f.len() as int,
        ),
        decode_cmd(r) is Some ==> framed_from(f + r + seq!['#'], pos),
    decreases f.len() - pos,
{
    let g = f + r + seq!['#'];
    lemma_delim_at(f, pos);
    let end = delim_at(f, pos);
    if end >= f.len() {
        assert(pos == f.len());
        lemma_delim_tail(f, r, pos);
        let e2 = delim_at(g, pos);
        assert(e2 == f.len() + r.len());
        assert(e2 < g.len());
        assert(g.subrange(pos, e2) =~= r);
        let idx2 = apply_step(idx, decode_cmd(r), seg, pos);
        assert(replay_seg(idx, g, seg, pos) == replay_seg(idx2, g, seg, e2 + 1));
        assert(delim_at(g, e2 + 1) == e2 + 1 >= g.len());
        assert(replay_seg(idx2, g, seg, e2 + 1) == idx2);
        assert(replay_seg(idx, f, seg, pos) == idx);
        if decode_cmd(r) is Some {
            assert(framed_from(g, e2 + 1));
            assert(framed_from(g, pos));
        }
    } else {
        lemma_delim_extend(f, r + seq!['#'], pos);
        assert(f + (r + seq!['#']) =~= g);
        assert(delim_at(g, pos) == end);
        assert(g.subrange(pos, end) =~= f.subrange(pos, end));
        let idx2 = apply_step(idx, decode_cmd(f.subrange(pos, end)), seg, pos);
        lemma_replay_extend(idx2, f, r, seg, end + 1);
        assert(replay_seg(idx, g, seg, pos) == replay_seg(idx2, g, seg, end + 1));
        assert(replay_seg(idx, f, seg, pos) == replay_seg(idx2, f, seg, end + 1));
        if decode_cmd(r) is Some {
            assert(framed_from(g, end + 1));
            assert(framed_from(g, pos));
        }
    }
}

/// Replay only looks at the segments it is asked about.
pub proof fn lemma_replay_upto_prefix(a: Seq<Seq<char>>, b: Seq<Seq<char>>, n: int)
    requires
        0 <= n <= a.len(),
        n <= b.len(),
        forall|i: int| 0 <= i < n ==> a[i] == b[i],
    ensures
        replay_upto(a, n) == replay_upto(b, n),
    decreases n,
{
    if n > 0 {
        lemma_replay_upto_prefix(a, b, n - 1);
    }
}

/// Every entry that replay produces points at a stored `Put` record whose
/// key is the entry's key.
pub proof fn lemma_replay_seg_valid(
    idx: Map<Seq<char>, (int, int)>,
    files: Seq<Seq<char>>,
    seg: int,
    pos: int,
)
    requires
        0 <= seg < files.len(),
        0 <= pos <= files[seg].len(),
        forall|k: Seq<char>|
            idx.contains_key(k) ==> entry_valid(files, k, #[trigger] idx[k]),
    ensures
        forall|k: Seq<char>|
            replay_seg(idx, files[seg], seg, pos).contains_key(k) ==> entry_valid(
                files,
                k,
                #[trigger] replay_seg(idx, files[seg], seg, pos)[k],
            ),
    decreases files[seg].len() - pos,
{
    let f = files[seg];
    lemma_delim_at(f, pos);
    let end = delim_at(f, pos);
    if end < f.len() {
        let m = decode_cmd(f.subrange(pos, end));
        let idx2 = apply_step(idx, m, seg, pos);
        assert forall|k: Seq<char>| idx2.contains_key(k) implies entry_valid(
            files,
            k,
            #[trigger] idx2[k],
        ) by {
            match m {
                Some(CmdModel::Put { key, value }) => {
                    if k == key {
                        assert(idx2[k] == (seg, pos));
                        assert(rec_at(files, seg, pos) == m);
                    } else {
                        assert(idx2[k] == idx[k]);
                    }
                },
                Some(CmdModel::Rm { key }) => {
                    assert(idx2[k] == idx[k]);
                },
                _ => {
                    assert(idx2[k] == idx[k]);
                },
            }
        }
        lemma_replay_seg_valid(idx2, files, seg, end + 1);
        assert(replay_seg(idx, f, seg, pos) == replay_seg(idx2, f, seg, end + 1));
        assert forall|k: Seq<char>| replay_seg(idx, f, seg, pos).contains_key(k) implies entry_valid(
            files,
            k,
            #[trigger] replay_seg(idx, f, seg, pos)[k],
        ) by {
            assert(replay_seg(idx2, f, seg, end + 1).contains_key(k));
            assert(entry_valid(files, k, replay_seg(idx2, f, seg, end + 1)[k]));
        }
    } else {
        assert(replay_seg(idx, f, seg, pos) == idx);
    }
}

/// Validity of every replayed entry, over all segments.
pub proof fn lemma_replay_upto_valid(files: Seq<Seq<char>>, n: int)
    requires
        0 <= n <= files.len(),
    ensures
        forall|k: Seq<char>|
            replay_upto(files, n).contains_key(k) ==> entry_valid(
                files,
                k,
                #[trigger] replay_upto(files, n)[k],
            ),
    decreases n,
{
    if n > 0 {
        lemma_replay_upto_valid(files, n - 1);
        lemma_replay_seg_valid(replay_upto(files, n - 1), files, n - 1, 0);
    }
}

/// A record already in place is unchanged when the last segment grows or a
/// new empty segment is added behind it.
pub proof fn lemma_rec_at_stable(a: Seq<Seq<char>>, b: Seq<Seq<char>>, ext: Seq<char>, n: int, p: int)
    requires
        0 <= n < a.len() <= b.len(),
        0 <= p <= a[n].len(),
        forall|i: int| 0 <= i < a.len() && i != a.len() - 1 ==> a[i] == b[i],
        b[a.len() - 1] == a[a.len() - 1] + ext,
        delim_at(a[n], p) < a[n].len(),
    ensures
        rec_at(b, n, p) == rec_at(a, n, p),
{
    lemma_delim_at(a[n], p);
    if n == a.len() - 1 {
        lemma_delim_extend(a[n], ext, p);
        let end = delim_at(a[n], p);
        assert(b[n] == a[n] + ext);
        assert(b[n].subrange(p, end) =~= a[n].subrange(p, end));
    }
}

} // verus!
