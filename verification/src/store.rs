//! The storage engine: an append-only, segmented log mirrored in memory,
//! an index over it, and online compaction.
//!
//! Every segment file's content is kept as a character buffer; reads are
//! answered from these buffers.  Mutating operations return the list of
//! [`SegmentOp`] file operations that, applied in order to the on-disk
//! segment files, bring the directory to the same state — the caller that
//! owns the directory performs them and so keeps disk and memory equal.
//! Durability is therefore the caller's flush policy; the store itself
//! guarantees that the returned operations reproduce its state exactly.

use vstd::prelude::*;
use vstd::string::StringExecFns;
use crate::codec::{decode_cmd, no_delim};
use crate::codec::{append_chars, decode_command, encode_command, lemma_cmd_round_trip, lemma_encode_cmd_no_delim};
use crate::index::Index;
use crate::log::{
    delim_at, disk_model, entry_valid, entry_value, framed_from, lemma_delim_at,
    lemma_delim_tail, lemma_framed_last, lemma_rec_at_stable, lemma_replay_extend,
    lemma_replay_upto_prefix, lemma_replay_upto_valid, rec_at, replay_all, replay_seg,
    replay_upto, well_framed,
};
use crate::protocol::{CmdModel, Command, Error};
use crate::text::{chars_to_string, str_to_chars};

verus! {

/// A segment may grow to this many characters before writes roll over to a
/// fresh segment.
pub const SINGLE_FILE_SIZE: u64 = 1048576;

/// One file operation that the caller must mirror onto the store directory.
/// Segment `n` lives in the file named `kvs.data.<n>`.
pub enum SegmentOp {
    /// Append `data` to segment `seg` (creating its file if absent).
    Append { seg: u64, data: String },
    /// Create the new, empty segment `seg`.
    Create { seg: u64 },
    /// Replace the whole of segment `seg` with `data`.
    Rewrite { seg: u64, data: String },
    /// Delete every segment file and write `data` as segment `0`.
    Collapse { data: String },
}

/// What one operation does to the sequence of segment contents.
pub open spec fn apply_op(files: Seq<Seq<char>>, op: SegmentOp) -> Seq<Seq<char>> {
    match op {
        SegmentOp::Append { seg, data } => if 0 <= seg < files.len() {
            files.update(seg as int, files[seg as int] + data@)
        } else {
            files
        },
        SegmentOp::Create { seg } => if seg == files.len() {
            files.push(Seq::empty())
        } else {
            files
        },
        SegmentOp::Rewrite { seg, data } => if 0 <= seg < files.len() {
            files.update(seg as int, data@)
        } else {
            files
        },
        SegmentOp::Collapse { data } => seq![data@],
    }
}

/// What a list of operations, applied in order, does.
pub open spec fn apply_ops(files: Seq<Seq<char>>, ops: Seq<SegmentOp>) -> Seq<Seq<char>>
    decreases ops.len(),
{
    if ops.len() == 0 {
        files
    } else {
        apply_ops(apply_op(files, ops[0]), ops.drop_first())
    }
}

pub proof fn lemma_apply_ops_one(files: Seq<Seq<char>>, op: SegmentOp)
    ensures
        apply_ops(files, seq![op]) == apply_op(files, op),
{
    assert(seq![op][0] == op);
    assert(seq![op].drop_first() =~= Seq::<SegmentOp>::empty());
    assert(apply_ops(apply_op(files, op), Seq::<SegmentOp>::empty()) == apply_op(files, op));
}

pub proof fn lemma_apply_ops_concat(files: Seq<Seq<char>>, a: Seq<SegmentOp>, b: Seq<SegmentOp>)
    ensures
        apply_ops(files, a + b) == apply_ops(apply_ops(files, a), b),
    decreases a.len(),
{
    if a.len() == 0 {
        assert(a + b =~= b);
    } else {
        assert((a + b)[0] == a[0]);
        assert((a + b).drop_first() =~= a.drop_first() + b);
        lemma_apply_ops_concat(apply_op(files, a[0]), a.drop_first(), b);
    }
}

/// An entry as the mathematical pair of segment number and offset.
pub open spec fn abs_entry(e: (u64, u64)) -> (int, int) {
    (e.0 as int, e.1 as int)
}

/// An exec index read as a map of mathematical entries.
pub open spec fn abs_index(m: Map<Seq<char>, (u64, u64)>) -> Map<Seq<char>, (int, int)> {
    Map::new(|k: Seq<char>| m.contains_key(k), |k: Seq<char>| abs_entry(m[k]))
}

pub proof fn lemma_abs_insert(m: Map<Seq<char>, (u64, u64)>, k: Seq<char>, e: (u64, u64))
    ensures
        abs_index(m.insert(k, e)) == abs_index(m).insert(k, abs_entry(e)),
{
    assert(abs_index(m.insert(k, e)) =~= abs_index(m).insert(k, abs_entry(e)));
}

pub proof fn lemma_abs_remove(m: Map<Seq<char>, (u64, u64)>, k: Seq<char>)
    ensures
        abs_index(m.remove(k)) == abs_index(m).remove(k),
{
    assert(abs_index(m.remove(k)) =~= abs_index(m).remove(k));
}

/// The contents of a vector of segment buffers.
pub open spec fn seg_views(segs: Seq<Vec<char>>) -> Seq<Seq<char>> {
    Seq::new(segs.len(), |i: int| segs[i]@)
}

/// The contents of a vector of strings.
pub open spec fn str_views(files: Seq<String>) -> Seq<Seq<char>> {
    Seq::new(files.len(), |i: int| files[i]@)
}

/// The length of the longest prefix of `f` made of complete frames: up to
/// and including the last `#`, or zero if there is none.
pub open spec fn framed_len(f: Seq<char>) -> int
    decreases f.len(),
{
    if f.len() == 0 {
        0
    } else if f.last() == '#' {
        f.len() as int
    } else {
        framed_len(f.drop_last())
    }
}

pub proof fn lemma_framed_len(f: Seq<char>)
    ensures
        0 <= framed_len(f) <= f.len(),
        framed_len(f) > 0 ==> f[framed_len(f) - 1] == '#',
        forall|j: int| framed_len(f) <= j < f.len() ==> f[j] != '#',
    decreases f.len(),
{
    if f.len() > 0 && f.last() != '#' {
        lemma_framed_len(f.drop_last());
        assert forall|j: int| framed_len(f) <= j < f.len() implies f[j] != '#' by {
            if j < f.len() - 1 {
                assert(f.drop_last()[j] != '#');
                assert(f[j] == f.drop_last()[j]);
            } else {
                assert(f[j] == f.last());
            }
        }
    }
}

/// The complete-frame prefix of `f`: what startup keeps of an active
/// segment whose tail was torn by a crash.
pub open spec fn trim_spec(f: Seq<char>) -> Seq<char> {
    f.take(framed_len(f))
}

/// What `open` accepts: every sealed segment is whole, decodable frames;
/// the active segment is the same after its torn tail (if any) is dropped.
pub open spec fn files_ok(files: Seq<Seq<char>>) -> bool {
    &&& forall|i: int| 0 <= i < files.len() - 1 ==> well_framed(#[trigger] files[i])
    &&& files.len() > 0 ==> well_framed(trim_spec(files.last()))
}

/// The storage engine.
pub struct KvStore {
    segments: Vec<Vec<char>>,
    index: Index,
}

impl KvStore {
    /// The contents of the segments, lowest id first.
    pub closed spec fn files(self) -> Seq<Seq<char>> {
        seg_views(self.segments@)
    }

    /// There is at least one segment; every segment is whole, decodable
    /// frames; and the index is exactly what replaying the segments gives.
    pub closed spec fn wf(self) -> bool {
        &&& self.segments@.len() >= 1
        &&& self.index.wf()
        &&& forall|i: int| 0 <= i < self.files().len() ==> well_framed(#[trigger] self.files()[i])
        &&& abs_index(self.index@) == replay_all(self.files())
    }

    /// The key → value map the store holds.
    pub closed spec fn model(self) -> Map<Seq<char>, Seq<char>> {
        disk_model(self.files())
    }

    /// Opens a store from the contents of its segment files, given lowest
    /// id first, rebuilding the index by replay.  Also returns the file
    /// operations that make the directory match (creating segment `0` for
    /// an empty directory, or dropping a torn tail after a crash).
    pub fn open(files: Vec<String>) -> (r: Result<(KvStore, Vec<SegmentOp>), Error>)
        ensures
            match r {
                Ok(p) => {
                    &&& p.0.wf()
                    &&& files_ok(str_views(files@))
                    &&& p.0.files() == apply_ops(str_views(files@), p.1@)
                    &&& p.0.model() == disk_model(p.0.files())
                    &&& files@.len() == 0 ==> p.0.files() == seq![Seq::<char>::empty()]
                    &&& (files@.len() > 0 && (forall|i: int|
                        0 <= i < files@.len() ==> well_framed(#[trigger] str_views(files@)[i])))
                        ==> p.0.files() == str_views(files@)
                },
                Err(e) => !files_ok(str_views(files@)) && e is SerdeError,
            },
    {
        let mut index = Index::new();
        let mut segs: Vec<Vec<char>> = Vec::new();
        let mut ops: Vec<SegmentOp> = Vec::new();
        let n: usize = files.len();
        if n == 0 {
            segs.push(Vec::new());
            ops.push(SegmentOp::Create { seg: 0 });
            let s = KvStore { segments: segs, index };
            proof {
                assert(s.files() =~= seq![Seq::<char>::empty()]);
                assert(delim_at(Seq::<char>::empty(), 0) == 0);
                assert(well_framed(Seq::<char>::empty()));
                let ghost f0 = s.files();
                assert(replay_upto(f0, 0) == Map::<Seq<char>, (int, int)>::empty());
                assert(f0[0] == Seq::<char>::empty());
                assert(replay_seg(Map::<Seq<char>, (int, int)>::empty(), Seq::<char>::empty(), 0, 0)
                    == Map::<Seq<char>, (int, int)>::empty());
                assert(replay_all(f0) == Map::<Seq<char>, (int, int)>::empty());
                assert(abs_index(s.index@) =~= replay_all(s.files()));
                lemma_apply_ops_one(str_views(files@), SegmentOp::Create { seg: 0 });
                assert(str_views(files@) =~= Seq::<Seq<char>>::empty());
                assert(apply_op(str_views(files@), SegmentOp::Create { seg: 0 }) =~= s.files());
            }
            return Ok((s, ops));
        }
        let ghost target = str_views(files@);
        let mut i: usize = 0;
        while i < n
            invariant
                index.wf(),
                n == files@.len(),
                0 < n,
                i <= n,
                segs@.len() == i,
                target == str_views(files@),
                i < n ==> ops@.len() == 0,
                forall|j: int| 0 <= j < i ==> well_framed(#[trigger] seg_views(segs@)[j]),
                forall|j: int| 0 <= j < i && j < n - 1 ==> seg_views(segs@)[j] == target[j],
                i == n ==> seg_views(segs@)[n - 1] == trim_spec(target[n - 1]),
                i == n ==> seg_views(segs@) == apply_ops(target, ops@),
                abs_index(index@) == replay_upto(seg_views(segs@), i as int),
                forall|j: int| 0 <= j < i && j < n - 1 ==> well_framed(#[trigger] target[j]),
                i == n ==> well_framed(trim_spec(target[n - 1])),
            decreases n - i,
        {
            let cs = str_to_chars(files[i].as_str());
            proof {
                assert(cs@ == target[i as int]);
            }
            let g = trim_tail(&cs);
            if i < n - 1 && g.len() != cs.len() {
                proof {
                    lemma_framed_len(cs@);
                    if well_framed(cs@) {
                        if cs@.len() > 0 {
                            lemma_framed_last(cs@, 0);
                        }
                        assert(framed_len(cs@) == cs@.len());
                        assert(g@ =~= cs@);
                        assert(false);
                    }
                    assert(!well_framed(target[i as int]));
                }
                return Err(Error::SerdeError(String::from_str("torn record inside a sealed segment")));
            }
            match replay_file(&mut index, &g, i as u64) {
                Ok(()) => {},
                Err(e) => {
                    proof {
                        assert(!well_framed(g@));
                        if i < n - 1 {
                            assert(g@ == cs@);
                            assert(!well_framed(target[i as int]));
                        } else {
                            assert(!well_framed(trim_spec(target[i as int])));
                        }
                    }
                    return Err(e);
                },
            }
            let ghost oldsegs = segs@;
            let mut rewrote = false;
            if i == n - 1 && g.len() != cs.len() {
                let d = chars_to_string(&g);
                ops.push(SegmentOp::Rewrite { seg: i as u64, data: d });
                rewrote = true;
            }
            proof {
                if i == n - 1 && g@.len() == cs@.len() {
                    assert(g@ =~= cs@);
                }
            }
            segs.push(g);
            proof {
                if i == n - 1 {
                    if rewrote {
                        let op = ops@[0];
                        lemma_apply_ops_one(target, op);
                        assert(ops@ =~= seq![op]);
                        assert(apply_op(target, op) =~= seg_views(segs@));
                    } else {
                        assert(seg_views(segs@) =~= apply_ops(target, ops@));
                    }
                }
            }
            proof {
                assert(seg_views(segs@) =~= seg_views(oldsegs).push(segs@.last()@));
                assert(forall|j: int|
                    0 <= j < i ==> seg_views(segs@)[j] == #[trigger] seg_views(oldsegs)[j]);
                lemma_replay_upto_prefix(seg_views(oldsegs), seg_views(segs@), i as int);
                assert(replay_upto(seg_views(segs@), i as int + 1) == replay_seg(
                    replay_upto(seg_views(segs@), i as int),
                    seg_views(segs@)[i as int],
                    i as int,
                    0,
                ));
            }
            i = i + 1;
        }
        let s = KvStore { segments: segs, index };
        proof {
            assert(s.files() == seg_views(s.segments@));
            assert(abs_index(s.index@) == replay_all(s.files()));
            assert(files_ok(target)) by {
                assert(forall|j: int| 0 <= j < n - 1 ==> well_framed(#[trigger] target[j]));
                assert(target.last() == target[n - 1]);
            }
            if forall|i2: int| 0 <= i2 < files@.len() ==> well_framed(#[trigger] target[i2]) {
                assert(well_framed(target[n - 1]));
                if target[n - 1].len() > 0 {
                    lemma_framed_last(target[n - 1], 0);
                }
                lemma_framed_len(target[n - 1]);
                assert(framed_len(target[n - 1]) == target[n - 1].len());
                assert(trim_spec(target[n - 1]) =~= target[n - 1]);
                assert(s.files() =~= target);
            }
        }
        Ok((s, ops))
    }
}

/// The segment list after one framed record is appended to the active
/// (last) segment.
pub open spec fn append_rec(files: Seq<Seq<char>>, enc: Seq<char>) -> Seq<Seq<char>> {
    files.update(files.len() - 1, files.last() + enc + seq!['#'])
}

/// Appending one decodable record to the active segment: every segment
/// stays well framed, replay gains exactly that record's step, and every
/// record already stored is still read back unchanged.
pub proof fn lemma_append_record(files: Seq<Seq<char>>, enc: Seq<char>)
    requires
        files.len() >= 1,
        forall|i: int| 0 <= i < files.len() ==> well_framed(#[trigger] files[i]),
        decode_cmd(enc) is Some,
        no_delim(enc),
    ensures
        forall|i: int|
            0 <= i < append_rec(files, enc).len() ==> well_framed(
                #[trigger] append_rec(files, enc)[i],
            ),
        append_rec(files, enc).len() == files.len(),
        replay_all(append_rec(files, enc)) == crate::log::apply_step(
            replay_all(files),
            decode_cmd(enc),
            files.len() - 1,
            files.last().len() as int,
        ),
        forall|n: int, p: int|
            rec_at(files, n, p) is Some ==> rec_at(append_rec(files, enc), n, p) == rec_at(
                files,
                n,
                p,
            ),
        rec_at(append_rec(files, enc), files.len() - 1, files.last().len() as int) == decode_cmd(
            enc,
        ),
{
    let act = files.len() - 1;
    let f = files.last();
    let g = f + enc + seq!['#'];
    let files2 = append_rec(files, enc);
    assert(files2[act] == g);
    lemma_replay_extend(replay_upto(files, act), f, enc, act, 0);
    assert(well_framed(g));
    lemma_replay_upto_prefix(files, files2, act);
    assert(replay_all(files2) == replay_seg(replay_upto(files2, act), g, act, 0));
    assert(replay_upto(files2, act) == replay_upto(files, act));
    assert(replay_all(files) == replay_seg(replay_upto(files, act), f, act, 0));
    assert forall|n: int, p: int| rec_at(files, n, p) is Some implies rec_at(files2, n, p)
        == rec_at(files, n, p) by {
        assert(f + (enc + seq!['#']) =~= g);
        assert(files2[act] == f + (enc + seq!['#']));
        lemma_rec_at_stable(files, files2, enc + seq!['#'], n, p);
    }
    lemma_delim_tail(f, enc, f.len() as int);
    assert(delim_at(g, f.len() as int) == f.len() + enc.len());
    assert(g.subrange(f.len() as int, (f.len() + enc.len()) as int) =~= enc);
}

/// Creating a fresh, empty active segment changes nothing that replay or a
/// read can see.
pub proof fn lemma_push_empty(files: Seq<Seq<char>>)
    ensures
        replay_all(files.push(Seq::empty())) == replay_all(files),
        forall|n: int, p: int|
            rec_at(files, n, p) is Some ==> rec_at(files.push(Seq::empty()), n, p) == rec_at(
                files,
                n,
                p,
            ),
        disk_model(files.push(Seq::empty())) == disk_model(files),
{
    let files2 = files.push(Seq::empty());
    lemma_replay_upto_prefix(files, files2, files.len() as int);
    assert(delim_at(Seq::<char>::empty(), 0) == 0);
    assert(replay_seg(replay_upto(files2, files.len() as int), Seq::empty(), files.len() as int, 0)
        == replay_upto(files2, files.len() as int));
    assert(replay_all(files2) == replay_upto(files2, files.len() as int + 1));
    assert(replay_all(files2) == replay_all(files));
    assert forall|n: int, p: int| rec_at(files, n, p) is Some implies rec_at(files2, n, p)
        == rec_at(files, n, p) by {
        assert(files2[n] == files[n]);
    }
    lemma_replay_upto_valid(files, files.len() as int);
    assert(disk_model(files2) =~= disk_model(files));
}

impl KvStore {
    /// Reads back the record that starts at character `e.1` of segment
    /// `e.0`.
    fn read_record(&self, e: (u64, u64)) -> (c: Command)
        requires
            self.wf(),
            rec_at(self.files(), e.0 as int, e.1 as int) is Some,
        ensures
            Some(c@) == rec_at(self.files(), e.0 as int, e.1 as int),
    {
        proof {
            let fs = self.files();
            assert(0 <= (e.0 as int) && (e.0 as int) < fs.len());
            assert((e.1 as int) <= fs[e.0 as int].len());
            assert(delim_at(fs[e.0 as int], e.1 as int) < fs[e.0 as int].len());
            if fs[e.0 as int].len() > 0 {
                lemma_framed_last(fs[e.0 as int], 0);
            }
            lemma_delim_at(fs[e.0 as int], e.1 as int);
        }
        let nsegs: usize = self.segments.len();
        proof {
            assert((e.0 as int) < (nsegs as int));
        }
        let n: usize = e.0 as usize;
        let seg = &self.segments[n];
        proof {
            assert(seg@ == self.files()[e.0 as int]);
            assert((e.1 as int) <= seg@.len());
        }
        let slen: usize = seg.len();
        proof {
            assert((e.1 as int) < (slen as int));
        }
        let p: usize = e.1 as usize;
        let end = find_delim(seg, p);
        let mut frame: Vec<char> = Vec::new();
        let mut m: usize = p;
        while m < end
            invariant
                p <= m <= end < seg@.len(),
                frame@ == seg@.subrange(p as int, m as int),
            decreases end - m,
        {
            frame.push(seg[m]);
            proof {
                assert(frame@ =~= seg@.subrange(p as int, m + 1 as int));
            }
            m = m + 1;
        }
        proof {
            assert(frame@ == self.files()[e.0 as int].subrange(
                e.1 as int,
                delim_at(self.files()[e.0 as int], e.1 as int),
            ));
            assert(decode_cmd(frame@) == rec_at(self.files(), e.0 as int, e.1 as int));
        }
        match decode_command(&frame) {
            Some(c) => c,
            None => {
                proof {
                    assert(false);
                }
                Command::Get { key: String::new() }
            },
        }
    }

    /// Looks `key` up and reads its value from the log; `None` if the key
    /// is absent.  The store holds a `Put` record wherever the index
    /// points, so the log-mismatch fault is never reached.
    pub fn get(&self, key: String) -> (r: Result<Option<String>, Error>)
        requires
            self.wf(),
        ensures
            match r {
                Ok(v) => match v {
                    Some(s) => self.model().contains_key(key@) && s@ == self.model()[key@],
                    None => !self.model().contains_key(key@),
                },
                Err(_) => false,
            },
    {
        proof {
            lemma_replay_upto_valid(self.files(), self.files().len() as int);
        }
        match self.index.get(key.as_str()) {
            None => {
                proof {
                    assert(!abs_index(self.index@).contains_key(key@));
                    assert(!self.model().contains_key(key@));
                }
                Ok(None)
            },
            Some(e) => {
                proof {
                    assert(abs_index(self.index@)[key@] == abs_entry(e));
                    assert(entry_valid(self.files(), key@, abs_entry(e)));
                }
                match self.read_record(e) {
                    Command::Put { key: k2, value } => {
                        proof {
                            assert(self.model()[key@] == entry_value(
                                self.files(),
                                abs_entry(e),
                            ));
                        }
                        Ok(Some(value))
                    },
                    _ => {
                        proof {
                            assert(false);
                        }
                        Err(Error::ErrorLogMeet)
                    },
                }
            },
        }
    }
}

/// Drops everything after the last `#` of `f`.
fn trim_tail(f: &Vec<char>) -> (g: Vec<char>)
    ensures
        g@ == trim_spec(f@),
        g@.len() == 0 || g@.last() == '#',
        g@.len() == f@.len() ==> g@ == f@,
{
    let mut j: usize = f.len();
    while j > 0 && f[j - 1] != '#'
        invariant
            j <= f@.len(),
            forall|m: int| j <= m < f@.len() ==> f@[m] != '#',
        decreases j,
    {
        j = j - 1;
    }
    proof {
        lemma_framed_len_is(f@, j as int);
    }
    let mut g: Vec<char> = Vec::new();
    let mut m: usize = 0;
    while m < j
        invariant
            m <= j <= f@.len(),
            g@ == f@.take(m as int),
        decreases j - m,
    {
        g.push(f[m]);
        proof {
            assert(g@ =~= f@.take(m + 1 as int));
        }
        m = m + 1;
    }
    proof {
        assert(g@ == f@.take(j as int));
        if j > 0 {
            assert(g@.last() == f@[j - 1]);
        }
        if j == f@.len() {
            assert(g@ =~= f@);
        }
    }
    g
}

/// Pins down `framed_len` from the way the trimming scan ends.
proof fn lemma_framed_len_is(f: Seq<char>, j: int)
    requires
        0 <= j <= f.len(),
        j == 0 || f[j - 1] == '#',
        forall|m: int| j <= m < f.len() ==> f[m] != '#',
    ensures
        framed_len(f) == j,
    decreases f.len(),
{
    if f.len() == 0 {
    } else if f.last() == '#' {
        assert(j == f.len());
    } else {
        assert(j < f.len());
        lemma_framed_len_is(f.drop_last(), j);
    }
}

/// The position of the next `#` at or after `pos`.
fn find_delim(g: &Vec<char>, pos: usize) -> (end: usize)
    requires
        pos < g@.len(),
        g@.last() == '#',
    ensures
        end == delim_at(g@, pos as int),
        pos <= end < g@.len(),
        g@[end as int] == '#',
{
    proof {
        lemma_delim_at(g@, pos as int);
        if delim_at(g@, pos as int) >= g@.len() {
            assert(g@[g@.len() - 1] != '#');
        }
    }
    let glen: usize = g.len();
    let mut j: usize = pos;
    while g[j] != '#'
        invariant
            glen == g@.len(),
            pos <= j <= delim_at(g@, pos as int),
            delim_at(g@, pos as int) < g@.len(),
            g@[delim_at(g@, pos as int)] == '#',
            forall|m: int| pos <= m < delim_at(g@, pos as int) ==> g@[m] != '#',
        decreases g@.len() - j,
    {
        proof {
            assert(j < delim_at(g@, pos as int));
        }
        j = j + 1;
    }
    j
}

/// Replays one tail-clean segment buffer into the index: each decodable
/// frame is applied in order, and a frame that does not decode is reported
/// as corruption.
fn replay_file(index: &mut Index, g: &Vec<char>, seg: u64) -> (r: Result<(), Error>)
    requires
        old(index).wf(),
        g@.len() == 0 || g@.last() == '#',
    ensures
        final(index).wf(),
        match r {
            Ok(()) => well_framed(g@) && abs_index(final(index)@) == replay_seg(
                abs_index(old(index)@),
                g@,
                seg as int,
                0,
            ),
            Err(e) => !well_framed(g@) && e is SerdeError,
        },
{
    let n: usize = g.len();
    let mut pos: usize = 0;
    while pos < n
        invariant
            index.wf(),
            n == g@.len(),
            pos <= n,
            g@.len() == 0 || g@.last() == '#',
            replay_seg(abs_index(old(index)@), g@, seg as int, 0) == replay_seg(
                abs_index(index@),
                g@,
                seg as int,
                pos as int,
            ),
            well_framed(g@) <==> framed_from(g@, pos as int),
        decreases n - pos,
    {
        let end = find_delim(g, pos);
        let mut frame: Vec<char> = Vec::new();
        let mut m: usize = pos;
        while m < end
            invariant
                pos <= m <= end < g@.len(),
                frame@ == g@.subrange(pos as int, m as int),
            decreases end - m,
        {
            frame.push(g[m]);
            proof {
                assert(frame@ =~= g@.subrange(pos as int, m + 1 as int));
            }
            m = m + 1;
        }
        let ghost premap = index@;
        let ghost pre = abs_index(index@);
        match decode_command(&frame) {
            None => {
                proof {
                    assert(!framed_from(g@, pos as int));
                }
                return Err(Error::SerdeError(String::from_str("malformed record in the log")));
            },
            Some(cmd) => {
                let ghost mdl = cmd@;
                match cmd {
                    Command::Put { key, value } => {
                        let ghost k = key@;
                        index.insert(key, (seg, pos as u64));
                        proof {
                            lemma_abs_insert(premap, k, (seg, pos as u64));
                        }
                    },
                    Command::Rm { key } => {
                        index.remove(&key);
                        proof {
                            lemma_abs_remove(premap, key@);
                        }
                    },
                    Command::Get { key } => {},
                }
                proof {
                    assert(decode_cmd(g@.subrange(pos as int, end as int)) == Some(mdl));
                    assert(abs_index(index@) == crate::log::apply_step(
                        pre,
                        Some(mdl),
                        seg as int,
                        pos as int,
                    ));
                    assert(replay_seg(pre, g@, seg as int, pos as int) == replay_seg(
                        abs_index(index@),
                        g@,
                        seg as int,
                        end + 1,
                    ));
                    assert(framed_from(g@, pos as int) == framed_from(g@, end + 1 as int));
                }
                pos = end + 1;
            },
        }
    }
    proof {
        assert(pos == n);
        assert(delim_at(g@, pos as int) == pos as int);
        assert(framed_from(g@, pos as int));
        assert(replay_seg(abs_index(index@), g@, seg as int, pos as int) == abs_index(index@));
    }
    Ok(())
}

// ---------------------------------------------------------------------------
// How appending affects the key → value map
// ---------------------------------------------------------------------------

/// Appending a `Set` record stores its value under its key.
pub proof fn lemma_model_after_put(files: Seq<Seq<char>>, enc: Seq<char>, k: Seq<char>, v: Seq<char>)
    requires
        files.len() >= 1,
        forall|i: int| 0 <= i < files.len() ==> well_framed(#[trigger] files[i]),
        decode_cmd(enc) == Some(CmdModel::Put { key: k, value: v }),
        no_delim(enc),
    ensures
        disk_model(append_rec(files, enc)) == disk_model(files).insert(k, v),
{
    lemma_append_record(files, enc);
    lemma_replay_upto_valid(files, files.len() as int);
    let files2 = append_rec(files, enc);
    let r1 = replay_all(files);
    let r2 = replay_all(files2);
    let act = files.len() - 1;
    let pos = files.last().len() as int;
    assert(r2 == r1.insert(k, (act, pos)));
    assert forall|k2: Seq<char>| #[trigger] r2.contains_key(k2) implies entry_value(files2, r2[k2])
        == disk_model(files).insert(k, v)[k2] by {
        if k2 == k {
            assert(r2[k2] == (act, pos));
            assert(rec_at(files2, act, pos) == Some(CmdModel::Put { key: k, value: v }));
        } else {
            assert(r2[k2] == r1[k2]);
            assert(entry_valid(files, k2, r1[k2]));
            assert(rec_at(files, r1[k2].0, r1[k2].1) is Some);
            assert(rec_at(files2, r1[k2].0, r1[k2].1) == rec_at(files, r1[k2].0, r1[k2].1));
        }
    }
    assert(disk_model(files2) =~= disk_model(files).insert(k, v));
}

/// Appending an `Rm` record drops its key.
pub proof fn lemma_model_after_rm(files: Seq<Seq<char>>, enc: Seq<char>, k: Seq<char>)
    requires
        files.len() >= 1,
        forall|i: int| 0 <= i < files.len() ==> well_framed(#[trigger] files[i]),
        decode_cmd(enc) == Some(CmdModel::Rm { key: k }),
        no_delim(enc),
    ensures
        disk_model(append_rec(files, enc)) == disk_model(files).remove(k),
{
    lemma_append_record(files, enc);
    lemma_replay_upto_valid(files, files.len() as int);
    let files2 = append_rec(files, enc);
    let r1 = replay_all(files);
    let r2 = replay_all(files2);
    assert(r2 == r1.remove(k));
    assert forall|k2: Seq<char>| #[trigger] r2.contains_key(k2) implies entry_value(files2, r2[k2])
        == disk_model(files).remove(k)[k2] by {
        assert(r2[k2] == r1[k2]);
        assert(entry_valid(files, k2, r1[k2]));
        assert(rec_at(files, r1[k2].0, r1[k2].1) is Some);
        assert(rec_at(files2, r1[k2].0, r1[k2].1) == rec_at(files, r1[k2].0, r1[k2].1));
    }
    assert(disk_model(files2) =~= disk_model(files).remove(k));
}

impl KvStore {
    /// Stores `value` under `key`: appends a `Set` record to the active
    /// segment, points the index at it, and may roll over or compact.
    pub fn set(&mut self, key: String, value: String) -> (r: Result<Vec<SegmentOp>, Error>)
        requires
            old(self).wf(),
        ensures
            final(self).wf(),
            match r {
                Ok(ops) => final(self).model() == old(self).model().insert(key@, value@)
                    && final(self).files() == apply_ops(old(self).files(), ops@),
                Err(_) => false,
            },
    {
        let ghost pre = *self;
        let ghost kg = key@;
        let ghost vg = value@;
        let cmd = Command::Put { key: key.clone(), value };
        let mut rec = encode_command(&cmd);
        let ghost encg = rec@;
        proof {
            lemma_encode_cmd_no_delim(cmd@);
            lemma_cmd_round_trip(cmd@);
        }
        rec.push('#');
        let data = chars_to_string(&rec);
        let act: usize = self.segments.len() - 1;
        let mut active = self.segments.pop().unwrap();
        let ghost f = active@;
        let pos: usize = active.len();
        append_chars(&mut active, &rec);
        proof {
            assert(active@ =~= f + encg + seq!['#']);
        }
        self.segments.push(active);
        let ghost premap = self.index@;
        self.index.insert(key, (act as u64, pos as u64));
        let ghost files2 = append_rec(pre.files(), encg);
        proof {
            assert(self.files() =~= files2);
            lemma_abs_insert(premap, kg, (act as u64, pos as u64));
            lemma_append_record(pre.files(), encg);
            lemma_model_after_put(pre.files(), encg, kg, vg);
            assert(abs_entry((act as u64, pos as u64)) == (act as int, pos as int));
            assert(abs_index(self.index@) =~= replay_all(files2));
            assert(self.wf());
            assert(self.model() == pre.model().insert(kg, vg));
        }
        let mut ops: Vec<SegmentOp> = Vec::new();
        let op = SegmentOp::Append { seg: act as u64, data };
        let ghost opg = op;
        ops.push(op);
        proof {
            lemma_apply_ops_one(pre.files(), opg);
            assert(apply_op(pre.files(), opg) =~= files2);
        }
        self.try_compact(pos as u64, &mut ops);
        proof {
            let delta = ops@.skip(1);
            assert(ops@ =~= seq![opg] + delta);
            lemma_apply_ops_concat(pre.files(), seq![opg], delta);
            assert(apply_ops(pre.files(), seq![opg]) == files2);
            assert(self.files() == apply_ops(pre.files(), ops@));
        }
        Ok(ops)
    }

    /// Removes `key`: appends an `Rm` record and drops the index entry, or
    /// fails with `KeyNotFound` if the key is absent, changing nothing.
    pub fn remove(&mut self, key: String) -> (r: Result<Vec<SegmentOp>, Error>)
        requires
            old(self).wf(),
        ensures
            final(self).wf(),
            match r {
                Ok(ops) => old(self).model().contains_key(key@)
                    && final(self).model() == old(self).model().remove(key@)
                    && final(self).files() == apply_ops(old(self).files(), ops@),
                Err(e) => e is KeyNotFound
                    && !old(self).model().contains_key(key@)
                    && final(self).model() == old(self).model()
                    && final(self).files() == old(self).files(),
            },
    {
        let ghost pre = *self;
        let ghost kg = key@;
        if !self.index.contains(key.as_str()) {
            proof {
                assert(!abs_index(self.index@).contains_key(kg));
                assert(!self.model().contains_key(kg));
            }
            return Err(Error::KeyNotFound);
        }
        let cmd = Command::Rm { key: key.clone() };
        let mut rec = encode_command(&cmd);
        let ghost encg = rec@;
        proof {
            lemma_encode_cmd_no_delim(cmd@);
            lemma_cmd_round_trip(cmd@);
        }
        rec.push('#');
        let data = chars_to_string(&rec);
        let act: usize = self.segments.len() - 1;
        let mut active = self.segments.pop().unwrap();
        let ghost f = active@;
        let pos: usize = active.len();
        append_chars(&mut active, &rec);
        proof {
            assert(active@ =~= f + encg + seq!['#']);
        }
        self.segments.push(active);
        let ghost premap = self.index@;
        self.index.remove(&key);
        let ghost files2 = append_rec(pre.files(), encg);
        proof {
            assert(self.files() =~= files2);
            lemma_abs_remove(premap, kg);
            lemma_append_record(pre.files(), encg);
            lemma_model_after_rm(pre.files(), encg, kg);
            assert(abs_index(self.index@) =~= replay_all(files2));
            assert(self.wf());
            assert(self.model() == pre.model().remove(kg));
        }
        let mut ops: Vec<SegmentOp> = Vec::new();
        let op = SegmentOp::Append { seg: act as u64, data };
        let ghost opg = op;
        ops.push(op);
        proof {
            lemma_apply_ops_one(pre.files(), opg);
            assert(apply_op(pre.files(), opg) =~= files2);
        }
        self.try_compact(pos as u64, &mut ops);
        proof {
            let delta = ops@.skip(1);
            assert(ops@ =~= seq![opg] + delta);
            lemma_apply_ops_concat(pre.files(), seq![opg], delta);
            assert(apply_ops(pre.files(), seq![opg]) == files2);
            assert(self.files() == apply_ops(pre.files(), ops@));
        }
        Ok(ops)
    }

    /// After a record lands past the size threshold, seals the active
    /// segment by opening a fresh one; then, if the index holds far fewer
    /// live keys than the segment count warrants (fewer than 1024 per
    /// sealed segment), compacts the whole log.
    fn try_compact(&mut self, last_pos: u64, ops: &mut Vec<SegmentOp>)
        requires
            old(self).wf(),
        ensures
            final(self).wf(),
            final(self).model() == old(self).model(),
            final(ops)@.len() >= old(ops)@.len(),
            final(ops)@.take(old(ops)@.len() as int) == old(ops)@,
            final(self).files() == apply_ops(
                old(self).files(),
                final(ops)@.skip(old(ops)@.len() as int),
            ),
    {
        let ghost n0 = ops@.len() as int;
        if last_pos > SINGLE_FILE_SIZE {
            let ghost pre = *self;
            let newseg_idx: usize = self.segments.len();
            let newseg: u64 = newseg_idx as u64;
            self.segments.push(Vec::new());
            let op = SegmentOp::Create { seg: newseg };
            let ghost opg = op;
            ops.push(op);
            proof {
                assert(self.files() =~= pre.files().push(Seq::<char>::empty()));
                lemma_push_empty(pre.files());
                assert(delim_at(Seq::<char>::empty(), 0) == 0);
                assert(well_framed(Seq::<char>::empty()));
                assert(self.wf());
                assert(apply_op(pre.files(), opg) =~= self.files());
            }
            let nslots: usize = self.index.len();
            let nsegs: usize = self.segments.len();
            if (nslots as u128) < ((nsegs - 1) as u128) * 1024 {
                let ghost mid = *self;
                let ghost opsmid = ops@;
                self.compact(ops);
                proof {
                    let cop = ops@.last();
                    assert(opsmid =~= old(ops)@.push(opg));
                    assert(opsmid[n0] == opg);
                    assert(ops@.len() == n0 + 2);
                    assert(ops@.take(opsmid.len() as int) == opsmid);
                    assert(ops@.take(opsmid.len() as int)[n0] == ops@[n0]);
                    assert(ops@[n0] == opg);
                    assert(ops@[n0 + 1] == cop);
                    assert(ops@.skip(n0) =~= seq![opg, cop]);
                    assert(ops@.take(n0) =~= old(ops)@);
                    assert(seq![opg, cop] =~= seq![opg] + seq![cop]);
                    lemma_apply_ops_concat(pre.files(), seq![opg], seq![cop]);
                    lemma_apply_ops_one(pre.files(), opg);
                    lemma_apply_ops_one(mid.files(), cop);
                    assert(ops@.skip(opsmid.len() as int) =~= seq![cop]);
                    assert(self.files() == apply_ops(mid.files(), seq![cop]));
                    assert(self.files() == apply_ops(pre.files(), ops@.skip(n0)));
                }
            } else {
                proof {
                    assert(ops@.skip(n0) =~= seq![opg]);
                    assert(ops@.take(n0) =~= old(ops)@);
                    lemma_apply_ops_one(pre.files(), opg);
                }
            }
        } else {
            proof {
                assert(ops@.skip(n0) =~= Seq::<SegmentOp>::empty());
                assert(ops@.take(n0) =~= ops@);
            }
        }
    }

    /// Rewrites every live record into a fresh segment `0` and installs the
    /// rebuilt index; afterwards the log is a single segment and every
    /// lookup answers as before.
    #[verifier::rlimit(100)]
    pub fn compact(&mut self, ops: &mut Vec<SegmentOp>)
        requires
            old(self).wf(),
        ensures
            final(self).wf(),
            final(self).model() == old(self).model(),
            final(self).files().len() == 1,
            final(ops)@.len() == old(ops)@.len() + 1,
            final(ops)@.take(old(ops)@.len() as int) == old(ops)@,
            final(self).files() == apply_op(old(self).files(), final(ops)@.last()),
    {
        proof {
            lemma_replay_upto_valid(self.files(), self.files().len() as int);
            self.index.lemma_key_seq_complete();
        }
        let mut nf: Vec<char> = Vec::new();
        let mut newindex = Index::new();
        let total: usize = self.index.num_slots();
        let mut i: usize = 0;
        proof {
            let e0 = Seq::<char>::empty();
            assert(delim_at(e0, 0) == 0);
            assert(well_framed(e0));
            assert(seq![nf@] =~= seq![e0]);
            assert(replay_upto(seq![e0], 0) == Map::<Seq<char>, (int, int)>::empty());
            assert(replay_seg(Map::<Seq<char>, (int, int)>::empty(), e0, 0, 0) == Map::<
                Seq<char>,
                (int, int),
            >::empty());
            assert(replay_all(seq![e0]) == Map::<Seq<char>, (int, int)>::empty());
            assert(abs_index(newindex@) =~= replay_all(seq![nf@]));
        }
        while i < total
            invariant
                *self == *old(self),
                self.wf(),
                total == self.index.key_seq().len(),
                i <= total,
                newindex.wf(),
                well_framed(nf@),
                abs_index(newindex@) == replay_all(seq![nf@]),
                forall|k2: Seq<char>| #[trigger] disk_model(seq![nf@]).contains_key(k2) ==> (
                self.model().contains_key(k2) && disk_model(seq![nf@])[k2] == self.model()[k2]),
                forall|j: int|
                    0 <= j < i ==> disk_model(seq![nf@]).contains_key(
                        #[trigger] self.index.key_seq()[j],
                    ),
            decreases total - i,
        {
            let kref = self.index.key_at(i);
            let kk = kref.clone();
            let ghost kg = kk@;
            let e = match self.index.get(kk.as_str()) {
                Some(e) => e,
                None => {
                    proof {
                        assert(false);
                    }
                    (0, 0)
                },
            };
            proof {
                lemma_replay_upto_valid(self.files(), self.files().len() as int);
                assert(abs_index(self.index@)[kg] == abs_entry(e));
                assert(entry_valid(self.files(), kg, abs_entry(e)));
            }
            let c = self.read_record(e);
            match c {
                Command::Put { key: k2, value } => {
                    let ghost vg = value@;
                    proof {
                        assert(k2@ == kg);
                        assert(vg == entry_value(self.files(), abs_entry(e)));
                        assert(self.model()[kg] == vg);
                        assert(self.model().contains_key(kg));
                    }
                    let cmd2 = Command::Put { key: k2, value };
                    let mut rec = encode_command(&cmd2);
                    let ghost encg = rec@;
                    proof {
                        lemma_encode_cmd_no_delim(cmd2@);
                        lemma_cmd_round_trip(cmd2@);
                    }
                    rec.push('#');
                    let ghost nf1 = seq![nf@];
                    let pos: usize = nf.len();
                    append_chars(&mut nf, &rec);
                    let ghost premap2 = newindex@;
                    newindex.insert(kk, (0, pos as u64));
                    proof {
                        assert(nf@ =~= nf1[0] + encg + seq!['#']);
                        assert(seq![nf@] =~= append_rec(nf1, encg));
                        lemma_abs_insert(premap2, kg, (0, pos as u64));
                        lemma_append_record(nf1, encg);
                        lemma_model_after_put(nf1, encg, kg, vg);
                        assert(abs_entry((0 as u64, pos as u64)) == (0int, pos as int));
                        assert(abs_index(newindex@) =~= replay_all(seq![nf@]));
                    }
                },
                _ => {
                    proof {
                        assert(false);
                    }
                },
            }
            i = i + 1;
        }
        let data = chars_to_string(&nf);
        let ghost nffinal = nf@;
        let mut segs2: Vec<Vec<char>> = Vec::new();
        segs2.push(nf);
        let ghost pre = *old(self);
        self.segments = segs2;
        self.index = newindex;
        let op = SegmentOp::Collapse { data };
        let ghost opg = op;
        ops.push(op);
        proof {
            assert(self.files() =~= seq![nffinal]);
            assert(self.wf());
            assert forall|k2: Seq<char>| pre.model().contains_key(k2) implies self
                .model()
                .contains_key(k2) by {
                assert(abs_index(pre.index@).contains_key(k2));
                assert(pre.index@.contains_key(k2));
                let j = choose|j: int|
                    0 <= j < pre.index.key_seq().len() && pre.index.key_seq()[j] == k2;
                assert(disk_model(seq![nffinal]).contains_key(pre.index.key_seq()[j]));
            }
            assert(self.model() =~= pre.model());
            assert(apply_op(pre.files(), opg) =~= seq![nffinal]);
            assert(ops@.take(old(ops)@.len() as int) =~= old(ops)@);
        }
    }
}


/// Crash recovery: a well-formed store's own segment files pass `open`'s
/// acceptance check, need no repair, and replay to exactly the store's
/// map.  Together with the contract of [`KvStore::open`] — which, for such
/// files, returns a well-formed store over those same files — reopening a
/// store from what it left on disk yields the same answer to every lookup.
pub proof fn lemma_reopen_preserves_model(s: KvStore)
    requires
        s.wf(),
    ensures
        s.files().len() > 0,
        forall|i: int| 0 <= i < s.files().len() ==> well_framed(#[trigger] s.files()[i]),
        files_ok(s.files()),
        disk_model(s.files()) == s.model(),
{
    let last = s.files().last();
    assert(well_framed(last));
    if last.len() > 0 {
        lemma_framed_last(last, 0);
    }
    lemma_framed_len(last);
    assert(framed_len(last) == last.len());
    assert(trim_spec(last) =~= last);
}

} // verus!
