//! The log-structured storage engine.
//!
//! A store is a list of append-only segments, ordered by generation, an
//! in-memory index from each live key to the location of its newest
//! `Put` record, a garbage counter of superseded bytes, and the logical
//! contents they all agree on.  Mutations append to the newest segment;
//! reads decode exactly one record at an indexed location; compaction
//! rewrites the live records into a fresh segment when the garbage
//! counter crosses its threshold.

use crate::codec::Command;
use crate::codec::CommandV;
use crate::codec::spec_encode;
use crate::error::Error;
use crate::error::ErrorKind;
use crate::log::ParseStatus;
use crate::log::lemma_replay_garbage_push;
use crate::log::replay;
use crate::log::replay_garbage;
use crate::log::spec_parse;
use crate::log::spec_parse_from;
use crate::log::superseded_len;
use vstd::prelude::*;

verus! {

/// Bytes of superseded or tombstoned records that trigger compaction.
pub const GARBAGE_THRESHOLD: u64 = 4 * 1024 * 1024;

/// One append-only log segment: its generation and its bytes.
pub struct Segment {
    /// The generation number that names the segment.
    pub gen: u64,
    /// The segment's bytes: a concatenation of encoded records.
    pub data: Vec<u8>,
}

/// The mathematical form of a segment.
pub struct SegV {
    /// The generation number that names the segment.
    pub gen: u64,
    /// The segment's bytes.
    pub data: Seq<u8>,
}

impl View for Segment {
    type V = SegV;

    open spec fn view(&self) -> SegV {
        SegV { gen: self.gen, data: self.data@ }
    }
}

/// Where the newest `Put` record for a key sits: its segment's
/// generation, its byte offset there, and its full encoded length.
#[derive(Debug, Clone, Copy, PartialEq, Eq, Structural)]
pub struct LogIndex {
    /// Generation of the segment holding the record.
    pub gen: u64,
    /// Byte offset of the record within that segment.
    pub pos: u64,
    /// Full length of the encoded record.
    pub len: u64,
}

/// One index entry: a key and the location of its newest record.
pub struct IndexEntry {
    /// The key.
    pub key: String,
    /// Where the newest `Put` record for the key sits.
    pub loc: LogIndex,
}

/// The mathematical form of an index entry.
pub struct EntryV {
    /// The key.
    pub key: Seq<char>,
    /// Where the newest `Put` record for the key sits.
    pub loc: LogIndex,
}

impl View for IndexEntry {
    type V = EntryV;

    open spec fn view(&self) -> EntryV {
        EntryV { key: self.key@, loc: self.loc }
    }
}

/// The segments of a vector, in mathematical form.
pub open spec fn segs_view(segs: Seq<Segment>) -> Seq<SegV> {
    segs.map_values(|s: Segment| s@)
}

/// The entries of a vector, in mathematical form.
pub open spec fn entries_view(entries: Seq<IndexEntry>) -> Seq<EntryV> {
    entries.map_values(|e: IndexEntry| e@)
}

/// Generations strictly increase along the segment list.
pub open spec fn gens_strictly_sorted(segs: Seq<SegV>) -> bool {
    forall|i: int, j: int| 0 <= i < j < segs.len() ==> segs[i].gen < segs[j].gen
}

/// The commands of all segments, in replay order.
pub open spec fn segs_cmds(segs: Seq<SegV>) -> Seq<CommandV>
    decreases segs.len(),
{
    if segs.len() == 0 {
        Seq::empty()
    } else {
        segs_cmds(segs.drop_last()) + spec_parse(segs.last().data).0
    }
}

/// The position of the segment named `gen`, searching from the newest,
/// or `-1` when no segment carries that generation.
pub open spec fn seg_with_gen(segs: Seq<SegV>, gen: u64) -> int
    decreases segs.len(),
{
    if segs.len() == 0 {
        -1
    } else if segs.last().gen == gen {
        segs.len() - 1
    } else {
        seg_with_gen(segs.drop_last(), gen)
    }
}

/// A found segment indeed carries the generation searched for.
pub proof fn lemma_seg_with_gen_found(segs: Seq<SegV>, gen: u64)
    ensures
        seg_with_gen(segs, gen) >= 0 ==> {
            let j = seg_with_gen(segs, gen);
            j < segs.len() && segs[j].gen == gen
        },
        seg_with_gen(segs, gen) < 0 ==> forall|i: int|
            0 <= i < segs.len() ==> (#[trigger] segs[i].gen) != gen,
    decreases segs.len(),
{
    if segs.len() > 0 {
        lemma_seg_with_gen_found(segs.drop_last(), gen);
        if segs.last().gen != gen {
            assert forall|i: int| 0 <= i < segs.len() - 1 implies segs.drop_last()[i]
                == segs[i] by {}
        }
    }
}

/// In a strictly sorted list, each segment is found by its own generation.
pub proof fn lemma_seg_with_gen_at(segs: Seq<SegV>, i: int)
    requires
        gens_strictly_sorted(segs),
        0 <= i < segs.len(),
    ensures
        seg_with_gen(segs, segs[i].gen) == i,
    decreases segs.len(),
{
    if i == segs.len() - 1 {
    } else {
        assert(segs[i].gen < segs.last().gen);
        assert forall|a: int, b: int| 0 <= a < b < segs.drop_last().len() implies
            segs.drop_last()[a].gen < segs.drop_last()[b].gen by {
            assert(segs.drop_last()[a] == segs[a] && segs.drop_last()[b] == segs[b]);
        }
        assert(segs.drop_last()[i] == segs[i]);
        lemma_seg_with_gen_at(segs.drop_last(), i);
    }
}

/// Looking a generation up depends only on the generation labels.
pub proof fn lemma_seg_with_gen_same_gens(s1: Seq<SegV>, s2: Seq<SegV>, gen: u64)
    requires
        s1.len() == s2.len(),
        forall|i: int| 0 <= i < s1.len() ==> (#[trigger] s1[i].gen) == s2[i].gen,
    ensures
        seg_with_gen(s1, gen) == seg_with_gen(s2, gen),
    decreases s1.len(),
{
    if s1.len() > 0 {
        assert forall|i: int| 0 <= i < s1.len() - 1 implies (#[trigger] s1.drop_last()[i].gen)
            == s2.drop_last()[i].gen by {
            assert(s1.drop_last()[i] == s1[i] && s2.drop_last()[i] == s2[i]);
        }
        lemma_seg_with_gen_same_gens(s1.drop_last(), s2.drop_last(), gen);
    }
}

/// Whether some entry holds the key.
pub open spec fn has_key(entries: Seq<EntryV>, k: Seq<char>) -> bool {
    exists|i: int| 0 <= i < entries.len() && (#[trigger] entries[i]).key == k
}

/// One entry is right: its location lies in a present segment and the
/// bytes there encode exactly `Put(key, m[key])`.
pub open spec fn entry_ok(e: EntryV, segs: Seq<SegV>, m: Map<Seq<char>, Seq<char>>) -> bool {
    let j = seg_with_gen(segs, e.loc.gen);
    &&& 0 <= j < segs.len()
    &&& e.loc.pos + e.loc.len <= segs[j].data.len()
    &&& m.contains_key(e.key)
    &&& segs[j].data.subrange(e.loc.pos as int, e.loc.pos as int + e.loc.len as int)
        == spec_encode(CommandV::Put { key: e.key, value: m[e.key] })
}

/// The index is right: one entry per key of `m`, each entry pointing at
/// the encoded record of that key's current value.
pub open spec fn index_ok(
    entries: Seq<EntryV>,
    segs: Seq<SegV>,
    m: Map<Seq<char>, Seq<char>>,
) -> bool {
    &&& forall|i: int, j: int|
        0 <= i < j < entries.len() ==> (#[trigger] entries[i]).key != (#[trigger] entries[j]).key
    &&& forall|k: Seq<char>| #[trigger] m.contains_key(k) ==> has_key(entries, k)
    &&& forall|i: int| 0 <= i < entries.len() ==> entry_ok(#[trigger] entries[i], segs, m)
}

/// The bytes of all segments together.
pub open spec fn total_bytes(segs: Seq<SegV>) -> int
    decreases segs.len(),
{
    if segs.len() == 0 {
        0
    } else {
        total_bytes(segs.drop_last()) + segs.last().data.len()
    }
}

/// The bytes of all records the index points at: the live bytes.
pub open spec fn live_bytes(entries: Seq<EntryV>) -> int
    decreases entries.len(),
{
    if entries.len() == 0 {
        0
    } else {
        live_bytes(entries.drop_last()) + entries.last().loc.len
    }
}

/// A count clamped to what a `u64` register can hold.
pub open spec fn sat64(n: int) -> int {
    if n > u64::MAX {
        u64::MAX as int
    } else {
        n
    }
}

/// Whether some entry maps `k` to exactly the location `loc`.
pub open spec fn has_entry_at(entries: Seq<EntryV>, k: Seq<char>, loc: LogIndex) -> bool {
    exists|i: int|
        0 <= i < entries.len() && (#[trigger] entries[i]).key == k && entries[i].loc == loc
}

/// Replacing one entry changes the live bytes by the difference.
proof fn lemma_live_bytes_update(s: Seq<EntryV>, i: int, x: EntryV)
    requires
        0 <= i < s.len(),
    ensures
        live_bytes(s.update(i, x)) == live_bytes(s) - s[i].loc.len + x.loc.len,
    decreases s.len(),
{
    if i == s.len() - 1 {
        assert(s.update(i, x).drop_last() =~= s.drop_last());
        assert(s.update(i, x).last() == x);
    } else {
        assert(s.update(i, x).drop_last() =~= s.drop_last().update(i, x));
        assert(s.update(i, x).last() == s.last());
        lemma_live_bytes_update(s.drop_last(), i, x);
        assert(s.drop_last()[i] == s[i]);
    }
}

/// Appending one entry adds its record's length to the live bytes.
proof fn lemma_live_bytes_push(s: Seq<EntryV>, e: EntryV)
    ensures
        live_bytes(s.push(e)) == live_bytes(s) + e.loc.len,
{
    assert(s.push(e).drop_last() =~= s);
    assert(s.push(e).last() == e);
}

/// Entry lists with the same record lengths hold the same live bytes.
proof fn lemma_live_bytes_same_lens(a: Seq<EntryV>, b: Seq<EntryV>)
    requires
        a.len() == b.len(),
        forall|i: int| 0 <= i < a.len() ==> (#[trigger] a[i]).loc.len == b[i].loc.len,
    ensures
        live_bytes(a) == live_bytes(b),
    decreases a.len(),
{
    if a.len() > 0 {
        assert forall|i: int| 0 <= i < a.len() - 1 implies (#[trigger] a.drop_last()[i]).loc.len
            == b.drop_last()[i].loc.len by {
            assert(a.drop_last()[i] == a[i] && b.drop_last()[i] == b[i]);
        }
        lemma_live_bytes_same_lens(a.drop_last(), b.drop_last());
        assert(a.last() == a[a.len() - 1] && b.last() == b[a.len() - 1]);
    }
}

/// Extending the newest segment grows the total bytes by the extension.
proof fn lemma_total_bytes_extend_last(s1: Seq<SegV>, s2: Seq<SegV>)
    requires
        s1.len() == s2.len() >= 1,
        forall|i: int| 0 <= i < s1.len() - 1 ==> #[trigger] s2[i] == s1[i],
    ensures
        total_bytes(s2) == total_bytes(s1) - s1.last().data.len() + s2.last().data.len(),
{
    assert(s1.drop_last() =~= s2.drop_last());
}

/// After one command on key `k`, the saturated garbage counter tracks
/// the clamped replay garbage: the replaced entry's length is exactly
/// what the command superseded, because its bytes were that record's
/// encoding.
proof fn lemma_step_len(
    o: Seq<EntryV>,
    segs: Seq<SegV>,
    m: Map<Seq<char>, Seq<char>>,
    k: Seq<char>,
    prev: Option<LogIndex>,
    g_pre: u64,
    g_now: u64,
    rg: int,
)
    requires
        index_ok(o, segs, m),
        (match prev {
            Some(p) => exists|j: int|
                0 <= j < o.len() && (#[trigger] o[j]).key == k && o[j].loc == p,
            None => !has_key(o, k),
        }),
        (prev is Some <==> has_key(o, k)),
        g_now as int == (match prev {
            Some(p) => if g_pre + p.len > u64::MAX {
                u64::MAX as int
            } else {
                g_pre + p.len
            },
            None => g_pre as int,
        }),
        rg >= 0,
        g_pre as int == sat64(rg),
    ensures
        (match prev {
            Some(p) => p.len as int,
            None => 0int,
        }) == (if m.contains_key(k) {
            spec_encode(CommandV::Put { key: k, value: m[k] }).len() as int
        } else {
            0int
        }),
        g_now as int == sat64(
            rg + (if m.contains_key(k) {
                spec_encode(CommandV::Put { key: k, value: m[k] }).len() as int
            } else {
                0int
            }),
        ),
        g_now as int <= g_pre as int + (match prev {
            Some(p) => p.len as int,
            None => 0int,
        }),
{
    match prev {
        Some(p) => {
            let j = choose|j: int| 0 <= j < o.len() && (#[trigger] o[j]).key == k && o[j].loc == p;
            assert(entry_ok(o[j], segs, m));
            let e = o[j];
            let sj = seg_with_gen(segs, e.loc.gen);
            assert(segs[sj].data.subrange(
                e.loc.pos as int,
                e.loc.pos as int + e.loc.len as int,
            ).len() == e.loc.len);
            assert(p.len as int == spec_encode(CommandV::Put { key: k, value: m[k] }).len());
        },
        None => {
            if m.contains_key(k) {
                assert(has_key(o, k));
            }
        },
    }
}

/// A key-value store over an append-only command log with an in-memory
/// index.  Its view is the mapping from live keys to their values.
pub struct KvStore {
    segments: Vec<Segment>,
    index: Vec<IndexEntry>,
    gen: u64,
    garbage: u64,
    model: Ghost<Map<Seq<char>, Seq<char>>>,
}

impl View for KvStore {
    type V = Map<Seq<char>, Seq<char>>;

    closed spec fn view(&self) -> Map<Seq<char>, Seq<char>> {
        self.model@
    }
}

impl KvStore {
    /// The segments, in mathematical form.
    pub closed spec fn spec_segments(&self) -> Seq<SegV> {
        segs_view(self.segments@)
    }

    /// The index entries, in mathematical form.
    pub closed spec fn spec_index(&self) -> Seq<EntryV> {
        entries_view(self.index@)
    }

    /// The active generation number.
    pub closed spec fn spec_gen(&self) -> u64 {
        self.gen
    }

    /// The garbage counter.
    pub closed spec fn spec_garbage(&self) -> u64 {
        self.garbage
    }

    /// The store is well formed: at least one segment, generations
    /// strictly increasing with the newest one active and cleanly
    /// parseable, no segment corrupt, the replayed log equal to the
    /// store's contents, and the index right for those contents.
    pub closed spec fn wf(&self) -> bool {
        let segs = segs_view(self.segments@);
        let entries = entries_view(self.index@);
        &&& segs.len() >= 1
        &&& gens_strictly_sorted(segs)
        &&& self.gen == segs.last().gen
        &&& spec_parse(segs.last().data).1 is Complete
        &&& forall|i: int|
            0 <= i < segs.len() ==> !((#[trigger] spec_parse(segs[i].data).1) is Corrupt)
        &&& replay(segs_cmds(segs), Map::empty()) == self.model@
        &&& index_ok(entries, segs, self.model@)
        &&& self.garbage as int == sat64(replay_garbage(segs_cmds(segs), Map::empty()))
        &&& self.garbage as int + live_bytes(entries) <= total_bytes(segs)
    }

    /// The active generation number.
    pub fn current_gen(&self) -> (r: u64)
        ensures
            r == self.spec_gen(),
    {
        self.gen
    }

    /// The garbage counter: bytes of superseded or tombstoned records
    /// not yet reclaimed by compaction.
    pub fn garbage(&self) -> (r: u64)
        ensures
            r == self.spec_garbage(),
    {
        self.garbage
    }

    /// How many segments the store holds.
    pub fn num_segments(&self) -> (r: usize)
        ensures
            r == self.spec_segments().len(),
    {
        self.segments.len()
    }

    /// The generation of the `i`-th segment, oldest first.
    pub fn segment_gen(&self, i: usize) -> (r: u64)
        requires
            i < self.spec_segments().len(),
        ensures
            r == self.spec_segments()[i as int].gen,
    {
        self.segments[i].gen
    }

    /// The byte length of the `i`-th segment, oldest first.
    pub fn segment_len(&self, i: usize) -> (r: usize)
        requires
            i < self.spec_segments().len(),
        ensures
            r == self.spec_segments()[i as int].data.len(),
    {
        self.segments[i].data.len()
    }

    /// A copy of the bytes of the `i`-th segment, oldest first.
    pub fn segment_bytes(&self, i: usize) -> (r: Vec<u8>)
        requires
            i < self.spec_segments().len(),
        ensures
            r@ == self.spec_segments()[i as int].data,
    {
        let data = &self.segments[i].data;
        let r = crate::codec::copy_range(data, 0, data.len());
        proof {
            assert(r@ =~= self.spec_segments()[i as int].data);
        }
        r
    }

    /// A copy of every segment, ready to reopen the store from.
    pub fn snapshot(&self) -> (r: Vec<Segment>)
        requires
            self.wf(),
        ensures
            segs_view(r@) == self.spec_segments(),
            gens_strictly_sorted(segs_view(r@)),
            replay(segs_cmds(segs_view(r@)), Map::empty()) == self@,
            r@.len() >= 1,
            segs_view(r@).last().gen == self.spec_gen(),
            forall|i: int|
                0 <= i < r@.len() ==> !((#[trigger] spec_parse(segs_view(r@)[i].data).1) is Corrupt),
    {
        let mut r: Vec<Segment> = Vec::new();
        let mut i: usize = 0;
        while i < self.segments.len()
            invariant
                i <= self.segments@.len(),
                r@.len() == i,
                segs_view(r@) =~= segs_view(self.segments@).take(i as int),
            decreases self.segments@.len() - i,
        {
            let gen = self.segments[i].gen;
            let data = self.segment_bytes(i);
            let seg = Segment { gen, data };
            let ghost sv = seg@;
            let ghost r_old = r@;
            r.push(seg);
            proof {
                let svec = segs_view(self.segments@);
                assert(sv == svec[i as int]);
                assert forall|t: int| 0 <= t < i + 1 implies segs_view(r@)[t] == svec.take(
                    i as int + 1,
                )[t] by {
                    if t < i as int {
                        assert(r@[t] == r_old[t]);
                        assert(segs_view(r_old)[t] == svec.take(i as int)[t]);
                    } else {
                        assert(r@[t]@ == sv);
                    }
                }
                assert(segs_view(r@) =~= segs_view(self.segments@).take(i as int + 1));
            }
            i = i + 1;
        }
        proof {
            assert(segs_view(r@) =~= segs_view(self.segments@));
        }
        r
    }
}

/// Find the entry holding `key`, if one does.
fn index_find(index: &Vec<IndexEntry>, key: &String) -> (r: Option<usize>)
    ensures
        match r {
            Some(i) => i < index@.len() && entries_view(index@)[i as int].key == key@,
            None => !has_key(entries_view(index@), key@),
        },
{
    let mut i: usize = 0;
    while i < index.len()
        invariant
            i <= index@.len(),
            forall|t: int| 0 <= t < i ==> (#[trigger] entries_view(index@)[t]).key != key@,
        decreases index@.len() - i,
    {
        if index[i].key == *key {
            return Some(i);
        }
        i = i + 1;
    }
    proof {
        assert forall|t: int| 0 <= t < index@.len() implies (#[trigger] entries_view(
            index@,
        )[t]).key != key@ by {}
    }
    None
}

/// Whether `e` is one of the entries.
pub open spec fn has_entry(entries: Seq<EntryV>, e: EntryV) -> bool {
    exists|i: int| 0 <= i < entries.len() && (#[trigger] entries[i]) == e
}

/// Entry keys are pairwise distinct.
pub open spec fn keys_distinct(entries: Seq<EntryV>) -> bool {
    forall|i: int, j: int|
        0 <= i < j < entries.len() ==> (#[trigger] entries[i]).key != (#[trigger] entries[j]).key
}

/// Record a new location for `key`, handing back the one it replaces.
fn index_upsert(index: &mut Vec<IndexEntry>, key: String, loc: LogIndex) -> (prev: Option<LogIndex>)
    requires
        keys_distinct(entries_view(old(index)@)),
    ensures
        ({
            let o = entries_view(old(index)@);
            let n = entries_view(final(index)@);
            &&& keys_distinct(n)
            &&& forall|k: Seq<char>| #[trigger] has_key(n, k) <==> (has_key(o, k) || k == key@)
            &&& forall|i: int|
                0 <= i < n.len() && (#[trigger] n[i]).key != key@ ==> has_entry(o, n[i])
            &&& forall|i: int| 0 <= i < n.len() && (#[trigger] n[i]).key == key@ ==> n[i].loc == loc
            &&& has_key(n, key@)
            &&& (match prev {
                Some(p) => exists|j: int|
                    0 <= j < o.len() && (#[trigger] o[j]).key == key@ && o[j].loc == p,
                None => !has_key(o, key@),
            })
            &&& (prev is Some <==> has_key(o, key@))
            &&& live_bytes(n) == live_bytes(o) - (match prev {
                Some(p) => p.len as int,
                None => 0int,
            }) + loc.len
        }),
{
    let ghost o = entries_view(index@);
    let found = index_find(index, &key);
    let entry = IndexEntry { key, loc };
    let ghost ev = entry@;
    match found {
        Some(i) => {
            let prior = index[i].loc;
            let _ = index.swap_remove(i);
            let ghost mid = entries_view(index@);
            index.push(entry);
            proof {
                let n = entries_view(index@);
                assert(o[i as int].key == ev.key && o[i as int].loc == prior);
                // after swap_remove, the entries are the old ones except `i`,
                // with the old last moved into slot `i`
                assert(mid =~= o.update(i as int, o.last()).drop_last().map_values(
                    |e: EntryV| e,
                )) by {
                    assert forall|t: int| 0 <= t < mid.len() implies mid[t] == o.update(
                        i as int,
                        o.last(),
                    ).drop_last()[t] by {}
                }
                assert forall|t: int| 0 <= t < mid.len() implies has_entry(o, mid[t]) && (
                mid[t].key == ev.key ==> t == i) by {
                    if t == i as int {
                        assert(mid[t] == o[o.len() - 1]);
                        if mid[t].key == ev.key && i as int != o.len() - 1 {
                            assert(o[i as int].key == o[o.len() - 1].key);
                            assert(false);
                        }
                    } else {
                        assert(mid[t] == o[t]);
                    }
                }
                if i as int == mid.len() {
                    // the replaced entry was the last one: it is gone
                    assert forall|t: int| 0 <= t < mid.len() implies (#[trigger] mid[t]).key
                        != ev.key by {
                        assert(mid[t] == o[t]);
                    }
                }
                assert(n =~= mid.push(ev));
                assert forall|k: Seq<char>| #[trigger] has_key(n, k) implies (has_key(o, k) || k
                    == ev.key) by {
                    let t = choose|t: int| 0 <= t < n.len() && (#[trigger] n[t]).key == k;
                    if t < mid.len() {
                        assert(has_entry(o, mid[t]));
                    }
                }
                assert forall|k: Seq<char>| has_key(o, k) implies #[trigger] has_key(n, k) by {
                    let t = choose|t: int| 0 <= t < o.len() && (#[trigger] o[t]).key == k;
                    if k != ev.key {
                        if t == i as int {
                            assert(false);
                        } else if t == o.len() - 1 {
                            assert(n[i as int] == o[t]);
                        } else {
                            assert(n[t] == o[t]);
                        }
                    } else {
                        assert(n[n.len() - 1].key == k);
                    }
                }
                assert(has_key(n, ev.key)) by {
                    assert(n[n.len() - 1] == ev);
                }
                assert forall|a: int, b: int| 0 <= a < b < n.len() implies (#[trigger] n[a]).key
                    != (#[trigger] n[b]).key by {
                    if b < mid.len() {
                        let oa = if a == i as int {
                            o.len() - 1
                        } else {
                            a
                        };
                        let ob = if b == i as int {
                            o.len() - 1
                        } else {
                            b
                        };
                        assert(n[a] == o[oa] && n[b] == o[ob]);
                    } else {
                        assert(n[b] == ev);
                        assert(mid[a].key == ev.key ==> a == i);
                        if a == i as int && a < mid.len() {
                            assert(mid[a] == o[o.len() - 1]);
                        }
                    }
                }
                // live-bytes accounting: the replaced record leaves, the new one enters
                let upd = o.update(i as int, o.last());
                lemma_live_bytes_update(o, i as int, o.last());
                assert(mid =~= upd.drop_last());
                assert(upd.last() == o.last());
                assert(live_bytes(upd) == live_bytes(upd.drop_last()) + upd.last().loc.len);
                assert(live_bytes(mid) == live_bytes(o) - o[i as int].loc.len);
                lemma_live_bytes_push(mid, ev);
            }
            Some(prior)
        },
        None => {
            index.push(entry);
            proof {
                let n = entries_view(index@);
                assert(n =~= o.push(ev));
                assert forall|k: Seq<char>| #[trigger] has_key(n, k) implies (has_key(o, k) || k
                    == ev.key) by {
                    let t = choose|t: int| 0 <= t < n.len() && (#[trigger] n[t]).key == k;
                    if t < o.len() {
                        assert(n[t] == o[t]);
                    }
                }
                assert forall|k: Seq<char>| has_key(o, k) implies #[trigger] has_key(n, k) by {
                    let t = choose|t: int| 0 <= t < o.len() && (#[trigger] o[t]).key == k;
                    assert(n[t] == o[t]);
                }
                assert(has_key(n, ev.key)) by {
                    assert(n[n.len() - 1] == ev);
                }
                assert forall|t: int| 0 <= t < o.len() implies (#[trigger] o[t]).key != ev.key by {}
                lemma_live_bytes_push(o, ev);
            }
            None
        },
    }
}

/// Erase the entry for `key`, handing back the location it held.
fn index_remove(index: &mut Vec<IndexEntry>, key: &String) -> (prev: Option<LogIndex>)
    requires
        keys_distinct(entries_view(old(index)@)),
    ensures
        ({
            let o = entries_view(old(index)@);
            let n = entries_view(final(index)@);
            &&& keys_distinct(n)
            &&& forall|k: Seq<char>| #[trigger] has_key(n, k) <==> (has_key(o, k) && k != key@)
            &&& forall|i: int| 0 <= i < n.len() ==> has_entry(o, #[trigger] n[i]) && n[i].key != key@
            &&& (match prev {
                Some(p) => exists|j: int|
                    0 <= j < o.len() && (#[trigger] o[j]).key == key@ && o[j].loc == p,
                None => !has_key(o, key@),
            })
            &&& (prev is Some <==> has_key(o, key@))
            &&& live_bytes(n) == live_bytes(o) - (match prev {
                Some(p) => p.len as int,
                None => 0int,
            })
        }),
{
    let ghost o = entries_view(index@);
    match index_find(index, key) {
        Some(i) => {
            let prior = index[i].loc;
            let _ = index.swap_remove(i);
            proof {
                let n = entries_view(index@);
                assert(o[i as int].key == key@ && o[i as int].loc == prior);
                assert forall|t: int| 0 <= t < n.len() implies n[t] == o.update(
                    i as int,
                    o.last(),
                ).drop_last()[t] by {}
                assert forall|t: int| 0 <= t < n.len() implies has_entry(o, #[trigger] n[t])
                    && n[t].key != key@ by {
                    if t == i as int && t < n.len() {
                        assert(n[t] == o[o.len() - 1]);
                        if n[t].key == key@ && i as int != o.len() - 1 {
                            assert(o[i as int].key == o[o.len() - 1].key);
                            assert(false);
                        }
                    } else {
                        assert(n[t] == o[t]);
                        if n[t].key == key@ {
                            assert(o[t].key == o[i as int].key);
                            assert(false);
                        }
                    }
                }
                assert forall|k: Seq<char>| has_key(o, k) && k != key@ implies #[trigger] has_key(
                    n,
                    k,
                ) by {
                    let t = choose|t: int| 0 <= t < o.len() && (#[trigger] o[t]).key == k;
                    if t == o.len() - 1 {
                        if (i as int) < n.len() {
                            assert(n[i as int] == o[t]);
                        }
                    } else {
                        assert(n[t] == o[t]);
                    }
                }
                assert forall|k: Seq<char>| #[trigger] has_key(n, k) implies (has_key(o, k) && k
                    != key@) by {
                    let t = choose|t: int| 0 <= t < n.len() && (#[trigger] n[t]).key == k;
                }
                assert forall|a: int, b: int| 0 <= a < b < n.len() implies (#[trigger] n[a]).key
                    != (#[trigger] n[b]).key by {
                    let oa = if a == i as int {
                        o.len() - 1
                    } else {
                        a
                    };
                    let ob = if b == i as int {
                        o.len() - 1
                    } else {
                        b
                    };
                    assert(n[a] == o[oa] && n[b] == o[ob]);
                }
                // live-bytes accounting: the erased record leaves
                let upd = o.update(i as int, o.last());
                lemma_live_bytes_update(o, i as int, o.last());
                assert(n =~= upd.drop_last());
                assert(upd.last() == o.last());
                assert(live_bytes(upd) == live_bytes(upd.drop_last()) + upd.last().loc.len);
            }
            Some(prior)
        },
        None => None,
    }
}

/// After `index_upsert` records a location whose bytes encode
/// `Put(key, value)`, the index is right for the updated contents.
proof fn lemma_index_ok_upsert(
    o: Seq<EntryV>,
    n: Seq<EntryV>,
    segs: Seq<SegV>,
    m: Map<Seq<char>, Seq<char>>,
    key: Seq<char>,
    value: Seq<char>,
    loc: LogIndex,
)
    requires
        index_ok(o, segs, m),
        keys_distinct(n),
        forall|k: Seq<char>| #[trigger] has_key(n, k) <==> (has_key(o, k) || k == key),
        forall|i: int| 0 <= i < n.len() && (#[trigger] n[i]).key != key ==> has_entry(o, n[i]),
        forall|i: int| 0 <= i < n.len() && (#[trigger] n[i]).key == key ==> n[i].loc == loc,
        has_key(n, key),
        ({
            let j = seg_with_gen(segs, loc.gen);
            &&& 0 <= j < segs.len()
            &&& loc.pos + loc.len <= segs[j].data.len()
            &&& segs[j].data.subrange(loc.pos as int, loc.pos as int + loc.len as int)
                == spec_encode(CommandV::Put { key, value })
        }),
    ensures
        index_ok(n, segs, m.insert(key, value)),
{
    let m2 = m.insert(key, value);
    assert forall|k: Seq<char>| #[trigger] m2.contains_key(k) implies has_key(n, k) by {
        if k != key {
            assert(m.contains_key(k));
        }
    }
    assert forall|i: int| 0 <= i < n.len() implies entry_ok(#[trigger] n[i], segs, m2) by {
        let e = n[i];
        if e.key == key {
            assert(e.loc == loc);
        } else {
            assert(has_entry(o, e));
            let j = choose|j: int| 0 <= j < o.len() && (#[trigger] o[j]) == e;
            assert(entry_ok(o[j], segs, m));
            assert(m2[e.key] == m[e.key]);
        }
    }
}

/// After `index_remove` erases the entry for `key`, the index is right
/// for the contents without that key.
proof fn lemma_index_ok_erase(
    o: Seq<EntryV>,
    n: Seq<EntryV>,
    segs: Seq<SegV>,
    m: Map<Seq<char>, Seq<char>>,
    key: Seq<char>,
)
    requires
        index_ok(o, segs, m),
        keys_distinct(n),
        forall|k: Seq<char>| #[trigger] has_key(n, k) <==> (has_key(o, k) && k != key),
        forall|i: int| 0 <= i < n.len() ==> has_entry(o, #[trigger] n[i]) && n[i].key != key,
    ensures
        index_ok(n, segs, m.remove(key)),
{
    let m2 = m.remove(key);
    assert forall|k: Seq<char>| #[trigger] m2.contains_key(k) implies has_key(n, k) by {
        assert(m.contains_key(k) && k != key);
    }
    assert forall|i: int| 0 <= i < n.len() implies entry_ok(#[trigger] n[i], segs, m2) by {
        let e = n[i];
        assert(has_entry(o, e));
        let j = choose|j: int| 0 <= j < o.len() && (#[trigger] o[j]) == e;
        assert(entry_ok(o[j], segs, m));
        assert(m2[e.key] == m[e.key]);
    }
}

/// Extending the newest segment in place leaves every indexed record
/// where it was.
proof fn lemma_index_ok_extend_last(
    entries: Seq<EntryV>,
    s1: Seq<SegV>,
    s2: Seq<SegV>,
    m: Map<Seq<char>, Seq<char>>,
)
    requires
        index_ok(entries, s1, m),
        s1.len() == s2.len() >= 1,
        forall|i: int| 0 <= i < s1.len() - 1 ==> #[trigger] s2[i] == s1[i],
        s2.last().gen == s1.last().gen,
        s1.last().data.is_prefix_of(s2.last().data),
    ensures
        index_ok(entries, s2, m),
{
    assert forall|i: int| 0 <= i < s1.len() implies (#[trigger] s1[i].gen) == s2[i].gen by {
        if i < s1.len() - 1 {
            assert(s2[i] == s1[i]);
        }
    }
    assert forall|i: int| 0 <= i < entries.len() implies entry_ok(
        #[trigger] entries[i],
        s2,
        m,
    ) by {
        let e = entries[i];
        lemma_seg_with_gen_same_gens(s1, s2, e.loc.gen);
        let j = seg_with_gen(s1, e.loc.gen);
        assert(entry_ok(e, s1, m));
        if j == s1.len() - 1 {
            assert(s2[j].data.subrange(e.loc.pos as int, e.loc.pos as int + e.loc.len as int)
                =~= s1[j].data.subrange(e.loc.pos as int, e.loc.pos as int + e.loc.len as int));
        } else {
            assert(s2[j] == s1[j]);
        }
    }
}

/// Adding a fresh newest segment leaves every indexed record where it
/// was.
proof fn lemma_index_ok_push(
    entries: Seq<EntryV>,
    segs: Seq<SegV>,
    m: Map<Seq<char>, Seq<char>>,
    s: SegV,
)
    requires
        index_ok(entries, segs, m),
        forall|i: int| 0 <= i < segs.len() ==> (#[trigger] segs[i].gen) < s.gen,
    ensures
        index_ok(entries, segs.push(s), m),
{
    assert forall|i: int| 0 <= i < entries.len() implies entry_ok(
        #[trigger] entries[i],
        segs.push(s),
        m,
    ) by {
        let e = entries[i];
        assert(entry_ok(e, segs, m));
        let j = seg_with_gen(segs, e.loc.gen);
        lemma_seg_with_gen_found(segs, e.loc.gen);
        assert(segs[j].gen == e.loc.gen);
        assert(s.gen != e.loc.gen);
        assert(segs.push(s).last() == s);
        assert(segs.push(s).drop_last() =~= segs);
        assert(seg_with_gen(segs.push(s), e.loc.gen) == j);
        assert(segs.push(s)[j] == segs[j]);
    }
}

/// The commands of a segment list grow by the commands of a pushed
/// segment.
proof fn lemma_segs_cmds_push(segs: Seq<SegV>, s: SegV)
    ensures
        segs_cmds(segs.push(s)) == segs_cmds(segs) + spec_parse(s.data).0,
{
    assert(segs.push(s).drop_last() =~= segs);
    assert(segs.push(s).last() == s);
}

/// Extending the newest segment keeps the generations sorted and every
/// segment free of corruption.
proof fn lemma_segs_props_extend(s1: Seq<SegV>, s2: Seq<SegV>)
    requires
        s1.len() == s2.len() >= 1,
        forall|i: int| 0 <= i < s1.len() - 1 ==> #[trigger] s2[i] == s1[i],
        s2.last().gen == s1.last().gen,
        gens_strictly_sorted(s1),
        forall|i: int| 0 <= i < s1.len() ==> !((#[trigger] spec_parse(s1[i].data).1) is Corrupt),
        spec_parse(s2.last().data).1 is Complete,
    ensures
        gens_strictly_sorted(s2),
        forall|i: int| 0 <= i < s2.len() ==> !((#[trigger] spec_parse(s2[i].data).1) is Corrupt),
{
    assert forall|i: int| 0 <= i < s2.len() implies (#[trigger] s2[i].gen) == s1[i].gen by {
        if i < s1.len() - 1 {
            assert(s2[i] == s1[i]);
        } else {
            assert(s2[i] == s2.last() && s1[i] == s1.last());
        }
    }
    assert forall|a: int, b: int| 0 <= a < b < s2.len() implies s2[a].gen < s2[b].gen by {
        assert(s2[a].gen == s1[a].gen && s2[b].gen == s1[b].gen);
    }
    assert forall|i: int| 0 <= i < s2.len() implies !((#[trigger] spec_parse(
        s2[i].data,
    ).1) is Corrupt) by {
        if i < s1.len() - 1 {
            assert(s2[i] == s1[i]);
            assert(!(spec_parse(s1[i].data).1 is Corrupt));
        } else {
            assert(s2[i] == s2.last());
        }
    }
}

/// Appending one record to the newest segment appends one command to
/// the log, and keeps the newest segment cleanly parseable.
proof fn lemma_segs_cmds_extend(s1: Seq<SegV>, s2: Seq<SegV>, c: CommandV)
    requires
        s1.len() == s2.len() >= 1,
        forall|i: int| 0 <= i < s1.len() - 1 ==> #[trigger] s2[i] == s1[i],
        s2.last().gen == s1.last().gen,
        s2.last().data == s1.last().data + spec_encode(c),
        spec_parse(s1.last().data).1 is Complete,
        crate::codec::encodable(c),
    ensures
        segs_cmds(s2) == segs_cmds(s1).push(c),
        spec_parse(s2.last().data).1 is Complete,
{
    assert(s1.drop_last() =~= s2.drop_last());
    crate::log::lemma_parse_append(s1.last().data, c);
    assert(spec_parse(s2.last().data).0 == spec_parse(s1.last().data).0.push(c));
    assert(segs_cmds(s2) == segs_cmds(s2.drop_last()) + spec_parse(s2.last().data).0);
    assert(segs_cmds(s2) =~= segs_cmds(s1).push(c));
}

/// Whether a character is an ASCII decimal digit.
pub open spec fn is_digit_char(c: char) -> bool {
    48 <= c as u32 <= 57
}

/// Whether a character is an ASCII decimal digit.
fn char_is_digit(c: char) -> (r: bool)
    ensures
        r == is_digit_char(c),
{
    '0' <= c && c <= '9'
}

/// Scan digit characters from `pos`, folding them onto `acc`; the value
/// and the position of the first non-digit.
pub open spec fn spec_scan_digit_chars(s: Seq<char>, pos: int, acc: int) -> (int, int)
    decreases s.len() - pos,
        when 0 <= pos <= s.len()
{
    if pos < s.len() && is_digit_char(s[pos]) {
        spec_scan_digit_chars(s, pos + 1, acc * 10 + (s[pos] as u32 - 48))
    } else {
        (acc, pos)
    }
}

/// Scanning never shrinks a non-negative accumulator.
proof fn lemma_scan_digit_chars_monotone(s: Seq<char>, pos: int, acc: int)
    requires
        0 <= pos <= s.len(),
        acc >= 0,
    ensures
        spec_scan_digit_chars(s, pos, acc).0 >= acc,
        pos <= spec_scan_digit_chars(s, pos, acc).1 <= s.len(),
    decreases s.len() - pos,
{
    if pos < s.len() && is_digit_char(s[pos]) {
        assert(acc * 10 + (s[pos] as u32 - 48) >= acc) by (nonlinear_arith)
            requires
                acc >= 0,
                s[pos] as u32 >= 48,
        ;
        lemma_scan_digit_chars_monotone(s, pos + 1, acc * 10 + (s[pos] as u32 - 48));
    }
}

/// The generation a segment file name encodes: names look like
/// `gen-<N>.log` with `<N>` in ASCII decimal; any other name encodes
/// nothing.
pub open spec fn spec_filename_gen(name: Seq<char>) -> Option<int> {
    if name.len() >= 9 && name.subrange(0, 4) == "gen-"@ && name.subrange(
        name.len() - 4,
        name.len() as int,
    ) == ".log"@ {
        let scanned = spec_scan_digit_chars(name, 4, 0);
        if scanned.1 == name.len() - 4 {
            Some(scanned.0)
        } else {
            None
        }
    } else {
        None
    }
}

/// Parse the generation out of a segment file name, ignoring any name
/// of another shape and any number this machine cannot count to.
#[verifier::loop_isolation(false)]
pub fn gen_of_filename(name: &str) -> (r: Option<u64>)
    ensures
        match r {
            Some(n) => spec_filename_gen(name@) == Some(n as int),
            None => (match spec_filename_gen(name@) {
                Some(v) => v > u64::MAX,
                None => true,
            }),
        },
{
    proof {
        reveal_strlit("gen-");
        reveal_strlit(".log");
    }
    let len = name.unicode_len();
    if len < 9 {
        return None;
    }
    if !(name.get_char(0) == 'g' && name.get_char(1) == 'e' && name.get_char(2) == 'n'
        && name.get_char(3) == '-') {
        proof {
            assert(name@.subrange(0, 4) != "gen-"@) by {
                if name@.subrange(0, 4) == "gen-"@ {
                    assert(name@[0] == 'g' && name@[1] == 'e' && name@[2] == 'n' && name@[3]
                        == '-') by {
                        assert(name@.subrange(0, 4)[0] == name@[0]);
                        assert(name@.subrange(0, 4)[1] == name@[1]);
                        assert(name@.subrange(0, 4)[2] == name@[2]);
                        assert(name@.subrange(0, 4)[3] == name@[3]);
                    }
                }
            }
        }
        return None;
    }
    if !(name.get_char(len - 4) == '.' && name.get_char(len - 3) == 'l' && name.get_char(len - 2)
        == 'o' && name.get_char(len - 1) == 'g') {
        proof {
            let tail = name@.subrange(name@.len() - 4, name@.len() as int);
            assert(tail != ".log"@) by {
                if tail == ".log"@ {
                    assert(tail[0] == name@[name@.len() - 4] && tail[1] == name@[name@.len() - 3]
                        && tail[2] == name@[name@.len() - 2] && tail[3] == name@[name@.len() - 1]);
                }
            }
        }
        return None;
    }
    proof {
        assert(name@.subrange(0, 4) =~= "gen-"@);
        assert(name@.subrange(name@.len() - 4, name@.len() as int) =~= ".log"@);
    }
    let mut cur: usize = 4;
    let mut acc: u64 = 0;
    while cur < len && char_is_digit(name.get_char(cur))
        invariant
            4 <= cur <= len,
            acc >= 0,
            spec_scan_digit_chars(name@, 4, 0) == spec_scan_digit_chars(name@, cur as int, acc as int),
        decreases len - cur,
    {
        let c = name.get_char(cur);
        let d = (c as u32) - 48;
        proof {
            assert(is_digit_char(name@[cur as int]));
        }

        if acc > (u64::MAX - d as u64) / 10 {
            proof {
                let s = name@;
                let whole = spec_scan_digit_chars(s, cur as int, acc as int);
                let newacc = acc as int * 10 + (s[cur as int] as u32 - 48);
                assert(newacc > u64::MAX) by (nonlinear_arith)
                    requires
                        newacc == acc as int * 10 + (s[cur as int] as u32 - 48),
                        acc as int > ((u64::MAX - (s[cur as int] as u32 - 48)) / 10),
                        0 <= s[cur as int] as u32 - 48 <= 9,
                        0 <= acc as int,
                ;
                assert(whole == spec_scan_digit_chars(s, cur as int + 1, newacc));
                lemma_scan_digit_chars_monotone(s, cur as int + 1, newacc);
            }
            return None;
        }
        acc = acc * 10 + d as u64;
        cur = cur + 1;
    }
    if cur != len - 4 {
        proof {
            assert(spec_scan_digit_chars(name@, cur as int, acc as int) == (
                acc as int,
                cur as int,
            ))
        }
        return None;
    }
    proof {
        assert(!is_digit_char(name@[cur as int])) by {
            assert(name@[name@.len() - 4] == '.');
        }
        assert(spec_scan_digit_chars(name@, cur as int, acc as int) == (acc as int, cur as int));
    }
    Some(acc)
}

/// Whether the generations strictly ascend, so each appears once.
pub open spec fn gens_sorted_unique(gens: Seq<u64>) -> bool {
    forall|i: int, j: int| 0 <= i < j < gens.len() ==> gens[i] < gens[j]
}

/// Insert `g` into a strictly ascending list, keeping it strictly
/// ascending: a generation already present is not repeated.
fn insert_gen(gens: &mut Vec<u64>, g: u64)
    requires
        gens_sorted_unique(old(gens)@),
    ensures
        gens_sorted_unique(final(gens)@),
        forall|x: u64| #[trigger] final(gens)@.contains(x) <==> (old(gens)@.contains(x) || x == g),
{
    let ghost o = gens@;
    let mut i: usize = 0;
    while i < gens.len() && gens[i] < g
        invariant
            i <= gens@.len(),
            gens@ == o,
            gens_sorted_unique(o),
            forall|t: int| 0 <= t < i ==> o[t] < g,
        decreases gens@.len() - i,
    {
        i = i + 1;
    }
    if i < gens.len() && gens[i] == g {
        proof {
            assert(gens@.contains(g));
            assert forall|x: u64| #[trigger] gens@.contains(x) <==> (o.contains(x) || x == g) by {}
        }
        return ;
    }
    gens.insert(i, g);
    proof {
        let n = gens@;
        assert(n == o.insert(i as int, g));
        assert forall|a: int, b: int| 0 <= a < b < n.len() implies n[a] < n[b] by {
            let oa = if a < i as int {
                o[a]
            } else if a == i as int {
                g
            } else {
                o[a - 1]
            };
            let ob = if b < i as int {
                o[b]
            } else if b == i as int {
                g
            } else {
                o[b - 1]
            };
            assert(n[a] == oa && n[b] == ob);
            if (i as int) < o.len() {
                assert(o[i as int] != g && !(o[i as int] < g));
            }
        }
        assert forall|x: u64| #[trigger] n.contains(x) implies (o.contains(x) || x == g) by {
            let t = choose|t: int| 0 <= t < n.len() && n[t] == x;
            if t < i as int {
                assert(o[t] == x);
            } else if t > i as int {
                assert(o[t - 1] == x);
            }
        }
        assert forall|x: u64| o.contains(x) || x == g implies #[trigger] n.contains(x) by {
            if x == g {
                assert(n[i as int] == g);
            } else {
                let t = choose|t: int| 0 <= t < o.len() && o[t] == x;
                if t < i as int {
                    assert(n[t] == x);
                } else {
                    assert(n[t + 1] == x);
                }
            }
        }
    }
}

/// The strictly ascending list of generations that the given segment
/// file names carry; a name of another shape names no generation and
/// is ignored, and a duplicated generation is kept once.
pub fn gens_of_filenames(names: &Vec<String>) -> (r: Vec<u64>)
    ensures
        gens_sorted_unique(r@),
        forall|g: u64| #[trigger] r@.contains(g) <==> (exists|t: int|
            0 <= t < names@.len() && spec_filename_gen((#[trigger] names@[t])@) == Some(g as int)),
{
    let mut r: Vec<u64> = Vec::new();
    let mut t: usize = 0;
    while t < names.len()
        invariant
            t <= names@.len(),
            gens_sorted_unique(r@),
            forall|g: u64| #[trigger] r@.contains(g) <==> (exists|tt: int|
                0 <= tt < t && spec_filename_gen((#[trigger] names@[tt])@) == Some(g as int)),
        decreases names@.len() - t,
    {
        let ghost r_old = r@;
        match gen_of_filename(names[t].as_str()) {
            Some(g) => {
                insert_gen(&mut r, g);
                proof {
                    assert forall|x: u64| #[trigger] r@.contains(x) implies (exists|tt: int|
                        0 <= tt < t + 1 && spec_filename_gen((#[trigger] names@[tt])@) == Some(
                            x as int,
                        )) by {
                        if x == g {
                            assert(spec_filename_gen(names@[t as int]@) == Some(x as int));
                        } else {
                            assert(r_old.contains(x));
                            let tt = choose|tt: int|
                                0 <= tt < t && spec_filename_gen((#[trigger] names@[tt])@) == Some(
                                    x as int,
                                );
                            assert(spec_filename_gen(names@[tt]@) == Some(x as int));
                        }
                    }
                    assert forall|x: u64|
                        (exists|tt: int|
                            0 <= tt < t + 1 && spec_filename_gen((#[trigger] names@[tt])@) == Some(
                                x as int,
                            )) implies #[trigger] r@.contains(x) by {
                        let tt = choose|tt: int|
                            0 <= tt < t + 1 && spec_filename_gen((#[trigger] names@[tt])@) == Some(
                                x as int,
                            );
                        if tt < t as int {
                            assert(r_old.contains(x));
                        } else {
                            assert(x == g);
                        }
                    }
                }
            },
            None => {
                proof {
                    assert forall|x: u64| #[trigger] r@.contains(x) <==> (exists|tt: int|
                        0 <= tt < t + 1 && spec_filename_gen((#[trigger] names@[tt])@) == Some(
                            x as int,
                        )) by {
                        if exists|tt: int|
                            0 <= tt < t + 1 && spec_filename_gen((#[trigger] names@[tt])@) == Some(
                                x as int,
                            ) {
                            let tt = choose|tt: int|
                                0 <= tt < t + 1 && spec_filename_gen((#[trigger] names@[tt])@)
                                    == Some(x as int);
                            if tt == t as int {
                                // this name parses to nothing a `u64` can hold
                                assert(false);
                            }
                        }
                    }
                }
            },
        }
        t = t + 1;
    }
    r
}

/// The garbage accounting of a well-formed store: the counter equals
/// the log's superseded bytes (clamped to a `u64`), and together with
/// the live bytes it never exceeds what is on hand — so compaction,
/// which keeps only the live bytes, reclaims at least the counter.
pub proof fn lemma_garbage_accounting(s: &KvStore)
    requires
        s.wf(),
    ensures
        s.spec_garbage() as int == sat64(replay_garbage(segs_cmds(s.spec_segments()), Map::empty())),
        s.spec_garbage() as int + live_bytes(s.spec_index()) <= total_bytes(s.spec_segments()),
{
}

/// Durability across restarts: a well-formed store's segments replay to
/// exactly the store's contents, so reopening a snapshot of them (see
/// `KvStore::snapshot` and `KvStore::open`) answers every lookup as the
/// store did before.
pub proof fn lemma_restart_preserves_contents(s: &KvStore)
    requires
        s.wf(),
    ensures
        replay(segs_cmds(s.spec_segments()), Map::empty()) == s@,
{
}

/// Round trip: after assigning `v` to `k`, `k` reads back as `v`, any
/// other key is untouched, and assigning the same value again changes
/// nothing.
pub proof fn lemma_set_get_roundtrip(
    m: Map<Seq<char>, Seq<char>>,
    k: Seq<char>,
    v: Seq<char>,
    k2: Seq<char>,
)
    ensures
        m.insert(k, v).contains_key(k) && m.insert(k, v)[k] == v,
        k2 != k ==> m.insert(k, v).contains_key(k2) == m.contains_key(k2) && (m.contains_key(k2)
            ==> m.insert(k, v)[k2] == m[k2]),
        m.insert(k, v).insert(k, v) == m.insert(k, v),
{
    assert(m.insert(k, v).insert(k, v) =~= m.insert(k, v));
}

/// Find the position of the segment named `gen`, newest first.
fn find_segment(segments: &Vec<Segment>, gen: u64) -> (r: Option<usize>)
    ensures
        match r {
            Some(j) => j < segments@.len() && j as int == seg_with_gen(segs_view(segments@), gen),
            None => seg_with_gen(segs_view(segments@), gen) < 0,
        },
{
    let ghost whole = segs_view(segments@);
    proof {
        assert(whole.take(segments@.len() as int) =~= whole);
    }
    let mut j = segments.len();
    while j > 0
        invariant
            j <= segments@.len(),
            whole == segs_view(segments@),
            whole.len() == segments@.len(),
            seg_with_gen(whole, gen) == seg_with_gen(whole.take(j as int), gen),
        decreases j,
    {
        j = j - 1;
        proof {
            assert(whole.take(j as int + 1).last() == whole[j as int]);
            assert(whole.take(j as int + 1).drop_last() =~= whole.take(j as int));
        }
        if segments[j].gen == gen {
            proof {
                assert(whole[j as int].gen == gen);
                assert(seg_with_gen(whole.take(j as int + 1), gen) == j as int);
            }
            return Some(j);
        }
        proof {
            assert(whole[j as int].gen != gen);
        }
    }
    proof {
        assert(whole.take(0) =~= Seq::<SegV>::empty());
    }
    None
}

impl KvStore {
    /// Rewrite all live records into one fresh merged segment, point
    /// every index entry at it, open a fresh active segment, and reset
    /// the garbage counter.  The store's contents do not change; two
    /// generation numbers are consumed; afterwards every byte on hand
    /// is live and no entry references a retired generation.
    #[verifier::rlimit(100)]
    pub fn merge(&mut self) -> (r: Result<(), Error>)
        requires
            old(self).wf(),
            old(self).spec_gen() <= u64::MAX - 2,
        ensures
            r is Ok,
            final(self).wf(),
            final(self)@ == old(self)@,
            final(self).spec_garbage() == 0,
            final(self).spec_gen() == old(self).spec_gen() + 2,
            final(self).spec_segments().len() == 2,
            forall|i: int|
                0 <= i < final(self).spec_index().len() ==> (#[trigger] final(self).spec_index()[i]).loc.gen
                    == old(self).spec_gen() + 1,
            total_bytes(final(self).spec_segments()) == live_bytes(final(self).spec_index()),
            final(self).spec_index().len() == old(self).spec_index().len(),
            forall|i: int|
                0 <= i < old(self).spec_index().len() ==> (#[trigger] final(self).spec_index()[i]).key
                    == old(self).spec_index()[i].key && final(self).spec_index()[i].loc.len
                    == old(self).spec_index()[i].loc.len,
            total_bytes(final(self).spec_segments()) + old(self).spec_garbage() <= total_bytes(
                old(self).spec_segments(),
            ),
    {
        let merge_gen = self.gen + 1;
        let new_gen = self.gen + 2;
        let mut merged: Vec<u8> = Vec::new();
        let mut new_index: Vec<IndexEntry> = Vec::new();
        let ghost m = self.model@;
        let ghost old_segs = segs_view(self.segments@);
        let ghost old_entries = entries_view(self.index@);
        let mut i: usize = 0;
        proof {
            crate::log::lemma_parse_empty();
        }
        while i < self.index.len()
            invariant
                i <= self.index@.len(),
                self.wf(),
                old_segs == segs_view(self.segments@),
                old_entries == entries_view(self.index@),
                old_entries.len() == self.index@.len(),
                m == self.model@,
                merge_gen == self.gen + 1,
                new_index@.len() == i,
                merged@.len() == live_bytes(entries_view(new_index@)),
                spec_parse(merged@).1 is Complete,
                replay_garbage(spec_parse(merged@).0, Map::empty()) == 0,
                forall|t: int|
                    0 <= t < i ==> (#[trigger] entries_view(new_index@)[t]).key
                        == old_entries[t].key,
                forall|t: int|
                    0 <= t < i ==> (#[trigger] entries_view(new_index@)[t]).loc.gen == merge_gen
                        && entries_view(new_index@)[t].loc.len == old_entries[t].loc.len,
                forall|t: int|
                    0 <= t < i ==> {
                        let e = #[trigger] entries_view(new_index@)[t];
                        &&& e.loc.pos + e.loc.len <= merged@.len()
                        &&& merged@.subrange(
                            e.loc.pos as int,
                            e.loc.pos as int + e.loc.len as int,
                        ) == spec_encode(CommandV::Put { key: e.key, value: m[e.key] })
                    },
                ({
                    let pm = replay(spec_parse(merged@).0, Map::empty());
                    &&& forall|t: int|
                        0 <= t < i ==> pm.contains_key(
                            (#[trigger] old_entries[t]).key,
                        ) && pm[old_entries[t].key] == m[old_entries[t].key]
                    &&& forall|k: Seq<char>| #[trigger]
                        pm.contains_key(k) ==> exists|t: int|
                            0 <= t < i && (#[trigger] old_entries[t]).key == k
                }),
            decreases self.index@.len() - i,
        {
            let e_key = self.index[i].key.clone();
            let e_loc = self.index[i].loc;
            proof {
                assert(old_entries[i as int] == self.index@[i as int]@);
                assert(entry_ok(old_entries[i as int], old_segs, m));
                assert(old_entries[i as int].key == e_key@);
                assert(old_entries[i as int].loc == e_loc);
            }
            let ghost cmd = CommandV::Put { key: e_key@, value: m[e_key@] };
            let j = match find_segment(&self.segments, e_loc.gen) {
                Some(j) => j,
                None => {
                    proof {
                        assert(false);
                    }
                    return Err(Error::new(ErrorKind::CorruptedIndex));
                },
            };
            let seg_data = &self.segments[j].data;
            let dlen = seg_data.len();
            proof {
                assert(seg_data@.len() == dlen);
                assert(j as int == seg_with_gen(old_segs, e_loc.gen));
                assert(old_segs[j as int] == self.segments@[j as int]@);
                assert(old_segs[j as int].data == seg_data@);
                assert(e_loc.pos + e_loc.len <= seg_data@.len());
                assert(seg_data@.subrange(e_loc.pos as int, e_loc.pos as int + e_loc.len as int)
                    == spec_encode(cmd));
            }
            let a = e_loc.pos as usize;
            let b = (e_loc.pos + e_loc.len) as usize;
            let pos_new = merged.len() as u64;
            let mut chunk = crate::codec::copy_range(seg_data, a, b);
            let ghost merged_old = merged@;
            let ghost pm_old = replay(spec_parse(merged_old).0, Map::empty());
            proof {
                assert(chunk@ == spec_encode(cmd));
                assert(spec_encode(cmd).len() == e_loc.len);
                crate::codec::lemma_encodable_from_len(cmd);
            }
            merged.append(&mut chunk);
            let entry = IndexEntry {
                key: e_key,
                loc: LogIndex { gen: merge_gen, pos: pos_new, len: e_loc.len },
            };
            let ghost ev = entry@;
            let ghost ni_old = entries_view(new_index@);
            new_index.push(entry);
            proof {
                crate::log::lemma_parse_append(merged_old, cmd);
                crate::log::lemma_replay_push(spec_parse(merged_old).0, Map::empty(), cmd);
                let ni = entries_view(new_index@);
                assert(ni =~= ni_old.push(ev));
                assert(entries_view(new_index@).len() == i + 1);
                assert(ni.drop_last() =~= ni_old);
                assert(live_bytes(ni) == live_bytes(ni_old) + ev.loc.len);
                assert forall|t: int| 0 <= t < i + 1 implies {
                    let e = #[trigger] ni[t];
                    &&& e.loc.pos + e.loc.len <= merged@.len()
                    &&& merged@.subrange(e.loc.pos as int, e.loc.pos as int + e.loc.len as int)
                        == spec_encode(CommandV::Put { key: e.key, value: m[e.key] })
                } by {
                    let e = ni[t];
                    if t < i as int {
                        assert(e == ni_old[t]);
                        assert(merged@.subrange(
                            e.loc.pos as int,
                            e.loc.pos as int + e.loc.len as int,
                        ) =~= merged_old.subrange(
                            e.loc.pos as int,
                            e.loc.pos as int + e.loc.len as int,
                        ));
                    } else {
                        assert(e == ev);
                        assert(merged@.subrange(
                            e.loc.pos as int,
                            e.loc.pos as int + e.loc.len as int,
                        ) =~= spec_encode(cmd));
                    }
                }
                lemma_replay_garbage_push(spec_parse(merged_old).0, Map::empty(), cmd);
                assert(superseded_len(pm_old, cmd) == 0) by {
                    if pm_old.contains_key(e_key@) {
                        let t = choose|t: int|
                            0 <= t < i && (#[trigger] old_entries[t]).key == e_key@;
                        assert(old_entries[t].key == old_entries[i as int].key);
                        assert(false);
                    }
                }
                let pm = replay(spec_parse(merged@).0, Map::empty());
                assert(pm == pm_old.insert(e_key@, m[e_key@]));
                assert forall|k: Seq<char>| #[trigger] pm.contains_key(k) implies exists|t: int|
                    0 <= t < i + 1 && (#[trigger] old_entries[t]).key == k by {
                    if k == e_key@ {
                        assert(old_entries[i as int].key == k);
                    } else {
                        assert(pm_old.contains_key(k));
                    }
                }
            }
            i = i + 1;
        }
        let mut segs: Vec<Segment> = Vec::new();
        let mseg = Segment { gen: merge_gen, data: merged };
        let ghost mv = mseg@;
        segs.push(mseg);
        let aseg = Segment { gen: new_gen, data: Vec::new() };
        let ghost av = aseg@;
        segs.push(aseg);
        let ghost final_entries = entries_view(new_index@);
        self.segments = segs;
        self.index = new_index;
        self.gen = new_gen;
        self.garbage = 0;
        proof {
            let sv = segs_view(self.segments@);
            assert(sv =~= seq![mv, av]);
            assert(sv.last() == av && sv.drop_last() =~= seq![mv]);
            assert(seq![mv].last() == mv && seq![mv].drop_last() =~= Seq::<SegV>::empty());
            crate::log::lemma_parse_empty();
            assert(av.data == Seq::<u8>::empty());
            assert(segs_cmds(sv) == segs_cmds(seq![mv]) + spec_parse(av.data).0);
            assert(segs_cmds(seq![mv]) == segs_cmds(Seq::<SegV>::empty()) + spec_parse(mv.data).0);
            assert(segs_cmds(sv) =~= spec_parse(mv.data).0);
            let pm = replay(spec_parse(mv.data).0, Map::empty());
            // the rebuilt contents equal the old ones
            assert forall|k: Seq<char>| #[trigger] m.contains_key(k) implies pm.contains_key(k)
                && pm[k] == m[k] by {
                assert(has_key(old_entries, k));
                let t = choose|t: int|
                    0 <= t < old_entries.len() && (#[trigger] old_entries[t]).key == k;
            }
            assert forall|k: Seq<char>| #[trigger] pm.contains_key(k) implies m.contains_key(k) by {
                let t = choose|t: int|
                    0 <= t < old_entries.len() && (#[trigger] old_entries[t]).key == k;
                assert(entry_ok(old_entries[t], old_segs, m));
            }
            assert(pm =~= m);
            // the index is right for the merged segment
            assert(seg_with_gen(sv, merge_gen) == 0) by {
                assert(sv.last().gen == new_gen);
                assert(merge_gen != new_gen);
                assert(seq![mv].last() == mv);
                assert(seq![mv].drop_last() =~= Seq::<SegV>::empty());
                assert(seg_with_gen(seq![mv], merge_gen) == 0);
                assert(sv.drop_last() == seq![mv]);
                assert(seg_with_gen(sv, merge_gen) == seg_with_gen(seq![mv], merge_gen));
            }
            assert forall|a2: int, b2: int| 0 <= a2 < b2 < final_entries.len() implies (
            #[trigger] final_entries[a2]).key != (#[trigger] final_entries[b2]).key by {
                assert(final_entries[a2].key == old_entries[a2].key);
                assert(final_entries[b2].key == old_entries[b2].key);
            }
            assert forall|k: Seq<char>| #[trigger] m.contains_key(k) implies has_key(
                final_entries,
                k,
            ) by {
                assert(has_key(old_entries, k));
                let t = choose|t: int|
                    0 <= t < old_entries.len() && (#[trigger] old_entries[t]).key == k;
                assert(final_entries[t].key == k);
            }
            assert forall|t: int| 0 <= t < final_entries.len() implies entry_ok(
                #[trigger] final_entries[t],
                sv,
                m,
            ) by {
                let e = final_entries[t];
                assert(sv[0] == mv);
                assert(m.contains_key(e.key)) by {
                    assert(entry_ok(old_entries[t], old_segs, m));
                }
            }
            // every remaining byte is live
            assert(total_bytes(sv) == live_bytes(final_entries)) by {
                assert(total_bytes(sv) == total_bytes(seq![mv]) + av.data.len());
                assert(total_bytes(seq![mv]) == total_bytes(Seq::<SegV>::empty()) + mv.data.len());
            }
            // a merged log of distinct keys supersedes nothing
            assert(replay_garbage(segs_cmds(sv), Map::empty()) == 0);
            assert(sat64(0) == 0);
            // record lengths survive, so the live bytes do too, and the
            // old store kept its garbage below its spare bytes
            assert forall|t: int| 0 <= t < final_entries.len() implies (
            #[trigger] final_entries[t]).loc.len == old_entries[t].loc.len by {}
            lemma_live_bytes_same_lens(final_entries, old_entries);
            assert(total_bytes(sv) + old(self).garbage <= total_bytes(old_segs));
            assert(self.wf());
        }
        Ok(())
    }

    /// Append one encoded record to the active segment, returning the
    /// record's offset and length there.
    fn append_active(&mut self, cmd: Command) -> (r: (Command, u64, u64))
        requires
            old(self).segments@.len() >= 1,
        ensures
            r.0 == cmd,
            final(self).index == old(self).index,
            final(self).gen == old(self).gen,
            final(self).garbage == old(self).garbage,
            final(self).model == old(self).model,
            final(self).segments@.len() == old(self).segments@.len(),
            forall|i: int|
                0 <= i < old(self).segments@.len() - 1 ==> #[trigger] final(self).segments@[i]
                    == old(self).segments@[i],
            segs_view(final(self).segments@).last().gen == segs_view(
                old(self).segments@,
            ).last().gen,
            segs_view(final(self).segments@).last().data == segs_view(
                old(self).segments@,
            ).last().data + spec_encode(cmd@),
            crate::codec::encodable(cmd@),
            r.1 as int == segs_view(old(self).segments@).last().data.len(),
            r.2 as int == spec_encode(cmd@).len(),
            r.1 + r.2 <= u64::MAX,
    {
        let mut enc = crate::codec::encode_command(&cmd);
        let len = enc.len() as u64;
        let mut seg = self.segments.pop().unwrap();
        let pos = seg.data.len() as u64;
        seg.data.append(&mut enc);
        let new_len = seg.data.len();
        proof {
            assert(seg.data@.len() == new_len);
        }
        let ghost sv = seg@;
        self.segments.push(seg);
        proof {
            assert(self.segments@.len() == old(self).segments@.len());
            assert forall|i: int| 0 <= i < old(self).segments@.len() - 1 implies #[trigger] self
                .segments@[i] == old(self).segments@[i] by {}
            assert(segs_view(self.segments@).last() == sv);
            assert(segs_view(old(self).segments@).last() == old(self).segments@[old(
                self,
            ).segments@.len() - 1]@);
        }
        (cmd, pos, len)
    }

    /// Assign `value` to `key`.
    ///
    /// Appends a `Put` record to the active segment and points the index
    /// at it.  When the record supersedes an earlier one, its bytes are
    /// added to the garbage counter, and compaction runs before the call
    /// returns if the counter then exceeds its threshold.
    #[verifier::rlimit(100)]
    pub fn set(&mut self, key: String, value: String) -> (r: Result<(), Error>)
        requires
            old(self).wf(),
            old(self).spec_gen() <= u64::MAX - 2,
        ensures
            r is Ok,
            final(self).wf(),
            final(self)@ == old(self)@.insert(key@, value@),
            old(self)@.contains_key(key@) ==> final(self).spec_garbage() <= GARBAGE_THRESHOLD,
            !old(self)@.contains_key(key@) ==> final(self).spec_garbage() == old(
                self,
            ).spec_garbage() && final(self).spec_gen() == old(self).spec_gen(),
            old(self).spec_gen() <= final(self).spec_gen() <= old(self).spec_gen() + 2,
            final(self).spec_gen() != old(self).spec_gen() ==> final(self).spec_garbage() == 0
                && total_bytes(final(self).spec_segments()) == live_bytes(final(self).spec_index()),
            final(self).spec_gen() == old(self).spec_gen() ==> {
                let o = old(self).spec_segments();
                let n = final(self).spec_segments();
                &&& n.len() == o.len()
                &&& (forall|i: int| 0 <= i < o.len() - 1 ==> #[trigger] n[i] == o[i])
                &&& n.last().gen == o.last().gen
                &&& n.last().data == o.last().data + spec_encode(
                    CommandV::Put { key: key@, value: value@ },
                )
                &&& segs_cmds(n) == segs_cmds(o).push(CommandV::Put { key: key@, value: value@ })
                &&& has_entry_at(
                    final(self).spec_index(),
                    key@,
                    (LogIndex {
                        gen: old(self).spec_gen(),
                        pos: o.last().data.len() as u64,
                        len: spec_encode(CommandV::Put { key: key@, value: value@ }).len() as u64,
                    }),
                )
            },
            old(self)@.contains_key(key@) ==> (forall|i: int|
                0 <= i < old(self).spec_index().len() && (#[trigger] old(
                    self,
                ).spec_index()[i]).key == key@ ==> {
                    let prior = old(self).spec_index()[i].loc.len as int;
                    &&& (old(self).spec_garbage() + prior > GARBAGE_THRESHOLD
                        <==> final(self).spec_gen() != old(self).spec_gen())
                    &&& (old(self).spec_garbage() + prior <= GARBAGE_THRESHOLD
                        ==> final(self).spec_garbage() == old(self).spec_garbage() + prior)
                }),
    {
        let ghost kv = key@;
        let ghost vv = value@;
        let ghost m = self.model@;
        let ghost old_segs = segs_view(self.segments@);
        let key2 = key.clone();
        let cmd = Command::Put { key, value };
        let ghost cv = cmd@;
        let (_cmd, pos, len) = self.append_active(cmd);
        proof {
            let new_segs = segs_view(self.segments@);
            assert(new_segs.len() == old_segs.len());
            assert forall|i: int| 0 <= i < old_segs.len() - 1 implies #[trigger] new_segs[i]
                == old_segs[i] by {
                assert(self.segments@[i] == old(self).segments@[i]);
            }
            lemma_segs_cmds_extend(old_segs, new_segs, cv);
            lemma_segs_props_extend(old_segs, new_segs);
            crate::log::lemma_replay_push(segs_cmds(old_segs), Map::empty(), cv);
            assert(old_segs.last().data.is_prefix_of(new_segs.last().data));
            lemma_index_ok_extend_last(entries_view(self.index@), old_segs, new_segs, m);
        }
        let loc = LogIndex { gen: self.gen, pos, len };
        let ghost pre_entries = entries_view(self.index@);
        let prev = index_upsert(&mut self.index, key2, loc);
        proof {
            let new_segs = segs_view(self.segments@);
            assert(new_segs.last().gen == self.gen);
            assert(seg_with_gen(new_segs, self.gen) == new_segs.len() - 1);
            assert(new_segs.last().data.subrange(pos as int, pos as int + len as int)
                =~= spec_encode(CommandV::Put { key: kv, value: vv }));
            lemma_index_ok_upsert(
                pre_entries,
                entries_view(self.index@),
                new_segs,
                m,
                kv,
                vv,
                loc,
            );
        }
        self.model = Ghost(m.insert(kv, vv));
        let ghost g_pre = self.garbage;
        let ghost mid_segs = segs_view(self.segments@);
        proof {
            crate::log::lemma_replay_garbage_push(segs_cmds(old_segs), Map::empty(), cv);
            crate::log::lemma_replay_garbage_nonneg(segs_cmds(old_segs), Map::empty());
            lemma_total_bytes_extend_last(old_segs, mid_segs);
            assert(mid_segs.last().data.len() == old_segs.last().data.len() + spec_encode(
                cv,
            ).len());
            assert(has_entry_at(entries_view(self.index@), kv, loc)) by {
                let i = choose|i: int|
                    0 <= i < entries_view(self.index@).len() && (#[trigger] entries_view(
                        self.index@,
                    )[i]).key == kv;
                assert(entries_view(self.index@)[i].loc == loc);
            }
            assert(loc.pos == old_segs.last().data.len() as u64);
            assert(loc.len == spec_encode(cv).len() as u64);
        }
        match prev {
            Some(p) => {
                self.garbage = self.garbage.saturating_add(p.len);
                proof {
                    assert(m.contains_key(kv)) by {
                        assert(has_key(pre_entries, kv));
                    }
                    lemma_step_len(
                        pre_entries,
                        mid_segs,
                        m,
                        kv,
                        prev,
                        g_pre,
                        self.garbage,
                        replay_garbage(segs_cmds(old_segs), Map::empty()),
                    );
                    assert(self.garbage as int <= g_pre as int + p.len);
                    assert(self.wf());
                    // the unique prior entry for the key is the replaced one
                    assert forall|i: int|
                        0 <= i < pre_entries.len() && (#[trigger] pre_entries[i]).key
                            == kv implies pre_entries[i].loc == p by {
                        let j = choose|j: int|
                            0 <= j < pre_entries.len() && (#[trigger] pre_entries[j]).key == kv
                                && pre_entries[j].loc == p;
                        assert(i == j);
                    }
                    // a saturated counter crosses the threshold exactly
                    // when the true sum does
                    assert((self.garbage > GARBAGE_THRESHOLD) <==> (g_pre as int + p.len
                        > GARBAGE_THRESHOLD));
                }
                if self.garbage > GARBAGE_THRESHOLD {
                    // compaction never fails on a well-formed store
                    let _ = self.merge();
                }
            },
            None => {
                proof {
                    if m.contains_key(kv) {
                        assert(has_key(pre_entries, kv));
                    }
                    lemma_step_len(
                        pre_entries,
                        mid_segs,
                        m,
                        kv,
                        prev,
                        g_pre,
                        self.garbage,
                        replay_garbage(segs_cmds(old_segs), Map::empty()),
                    );
                    assert(self.wf());
                }
            },
        }
        Ok(())
    }

    /// Delete `key`.
    ///
    /// When the key is absent, fails with `KeyNotFound` and appends
    /// nothing.  Otherwise appends a `Remove` tombstone, erases the
    /// index entry, adds the superseded record's bytes to the garbage
    /// counter, and compacts if the counter then exceeds its threshold.
    #[verifier::rlimit(100)]
    pub fn remove(&mut self, key: String) -> (r: Result<(), Error>)
        requires
            old(self).wf(),
            old(self).spec_gen() <= u64::MAX - 2,
        ensures
            final(self).wf(),
            old(self)@.contains_key(key@) ==> r is Ok && final(self)@ == old(self)@.remove(key@)
                && final(self).spec_garbage() <= GARBAGE_THRESHOLD,
            !old(self)@.contains_key(key@) ==> (match r {
                Ok(_) => false,
                Err(e) => e.spec_kind() == ErrorKind::KeyNotFound,
            }) && *final(self) == *old(self),
            old(self).spec_gen() <= final(self).spec_gen() <= old(self).spec_gen() + 2,
            final(self).spec_gen() != old(self).spec_gen() ==> final(self).spec_garbage() == 0
                && total_bytes(final(self).spec_segments()) == live_bytes(final(self).spec_index()),
            old(self)@.contains_key(key@) && final(self).spec_gen() == old(self).spec_gen() ==> {
                let o = old(self).spec_segments();
                let n = final(self).spec_segments();
                &&& n.len() == o.len()
                &&& (forall|i: int| 0 <= i < o.len() - 1 ==> #[trigger] n[i] == o[i])
                &&& n.last().gen == o.last().gen
                &&& n.last().data == o.last().data + spec_encode(CommandV::Remove { key: key@ })
                &&& segs_cmds(n) == segs_cmds(o).push(CommandV::Remove { key: key@ })
            },
            old(self)@.contains_key(key@) ==> (forall|i: int|
                0 <= i < old(self).spec_index().len() && (#[trigger] old(
                    self,
                ).spec_index()[i]).key == key@ ==> {
                    let prior = old(self).spec_index()[i].loc.len as int;
                    &&& (old(self).spec_garbage() + prior > GARBAGE_THRESHOLD
                        <==> final(self).spec_gen() != old(self).spec_gen())
                    &&& (old(self).spec_garbage() + prior <= GARBAGE_THRESHOLD
                        ==> final(self).spec_garbage() == old(self).spec_garbage() + prior)
                }),
    {
        let ghost kv = key@;
        let ghost m = self.model@;
        let ghost old_segs = segs_view(self.segments@);
        match index_find(&self.index, &key) {
            None => {
                proof {
                    if m.contains_key(kv) {
                        assert(has_key(entries_view(self.index@), kv));
                    }
                }
                return Err(Error::new(ErrorKind::KeyNotFound));
            },
            Some(_) => {},
        }
        proof {
            assert(m.contains_key(kv)) by {
                let entries = entries_view(self.index@);
                let t = choose|t: int| 0 <= t < entries.len() && (#[trigger] entries[t]).key == kv;
                assert(entry_ok(entries[t], old_segs, m));
            }
        }
        let cmd = Command::Remove { key };
        let ghost cv = cmd@;
        let (_cmd, _pos, _len) = self.append_active(cmd);
        proof {
            let new_segs = segs_view(self.segments@);
            assert(new_segs.len() == old_segs.len());
            assert forall|i: int| 0 <= i < old_segs.len() - 1 implies #[trigger] new_segs[i]
                == old_segs[i] by {
                assert(self.segments@[i] == old(self).segments@[i]);
            }
            lemma_segs_cmds_extend(old_segs, new_segs, cv);
            lemma_segs_props_extend(old_segs, new_segs);
            crate::log::lemma_replay_push(segs_cmds(old_segs), Map::empty(), cv);
            assert(old_segs.last().data.is_prefix_of(new_segs.last().data));
            lemma_index_ok_extend_last(entries_view(self.index@), old_segs, new_segs, m);
        }
        let ghost pre_entries = entries_view(self.index@);
        // take the key back out of the appended command
        let key2 = match _cmd {
            Command::Remove { key } => key,
            Command::Put { key, value: _ } => key,
        };
        let prev = index_remove(&mut self.index, &key2);
        proof {
            lemma_index_ok_erase(
                pre_entries,
                entries_view(self.index@),
                segs_view(self.segments@),
                m,
                kv,
            );
        }
        self.model = Ghost(m.remove(kv));
        let ghost g_pre = self.garbage;
        let ghost mid_segs = segs_view(self.segments@);
        proof {
            crate::log::lemma_replay_garbage_push(segs_cmds(old_segs), Map::empty(), cv);
            crate::log::lemma_replay_garbage_nonneg(segs_cmds(old_segs), Map::empty());
            lemma_total_bytes_extend_last(old_segs, mid_segs);
            assert(mid_segs.last().data.len() == old_segs.last().data.len() + spec_encode(
                cv,
            ).len());
        }
        match prev {
            Some(p) => {
                self.garbage = self.garbage.saturating_add(p.len);
                proof {
                    lemma_step_len(
                        pre_entries,
                        mid_segs,
                        m,
                        kv,
                        prev,
                        g_pre,
                        self.garbage,
                        replay_garbage(segs_cmds(old_segs), Map::empty()),
                    );
                    assert(self.garbage as int <= g_pre as int + p.len);
                    assert(self.wf());
                    // the unique prior entry for the key is the erased one
                    assert forall|i: int|
                        0 <= i < pre_entries.len() && (#[trigger] pre_entries[i]).key
                            == kv implies pre_entries[i].loc == p by {
                        let j = choose|j: int|
                            0 <= j < pre_entries.len() && (#[trigger] pre_entries[j]).key == kv
                                && pre_entries[j].loc == p;
                        assert(i == j);
                    }
                    // a saturated counter crosses the threshold exactly
                    // when the true sum does
                    assert((self.garbage > GARBAGE_THRESHOLD) <==> (g_pre as int + p.len
                        > GARBAGE_THRESHOLD));
                }
                if self.garbage > GARBAGE_THRESHOLD {
                    // compaction never fails on a well-formed store
                    let _ = self.merge();
                }
            },
            None => {
                proof {
                    assert(false);
                }
            },
        }
        Ok(())
    }

    /// Look the current value of `key` up.
    ///
    /// Consults the index, then decodes exactly one record at the
    /// location it names.  Returns `None` when the key is absent; never
    /// fails on a well-formed store.
    pub fn get(&self, key: String) -> (r: Result<Option<String>, Error>)
        requires
            self.wf(),
        ensures
            match r {
                Ok(opt) => match opt {
                    Some(v) => self@.contains_key(key@) && v@ == self@[key@],
                    None => !self@.contains_key(key@),
                },
                Err(_) => false,
            },
    {
        let ghost m = self.model@;
        let ghost segs = segs_view(self.segments@);
        let i = match index_find(&self.index, &key) {
            None => {
                proof {
                    if m.contains_key(key@) {
                        assert(has_key(entries_view(self.index@), key@));
                    }
                }
                return Ok(None);
            },
            Some(i) => i,
        };
        let e_loc = self.index[i].loc;
        proof {
            assert(entry_ok(entries_view(self.index@)[i as int], segs, m));
            assert(entries_view(self.index@)[i as int] == self.index@[i as int]@);
        }
        let ghost cmd = CommandV::Put { key: key@, value: m[key@] };
        let j = match find_segment(&self.segments, e_loc.gen) {
            Some(j) => j,
            None => {
                proof {
                    assert(false);
                }
                return Err(Error::new(ErrorKind::CorruptedIndex));
            },
        };
        let seg_data = &self.segments[j].data;
        let dlen = seg_data.len();
        proof {
            assert(segs[j as int] == self.segments@[j as int]@);
            assert(seg_data@.len() == dlen);
            assert(e_loc.pos + e_loc.len <= seg_data@.len());
            assert(seg_data@.subrange(e_loc.pos as int, e_loc.pos as int + e_loc.len as int)
                == spec_encode(cmd));
            crate::codec::lemma_encodable_from_len(cmd);
            crate::codec::lemma_decode_encode(seg_data@, e_loc.pos as int, cmd);
        }
        let pos = e_loc.pos as usize;
        match crate::codec::decode_command(seg_data, pos) {
            crate::codec::Decoded::Record(found, _end) => match found {
                Command::Put { key: _, value } => Ok(Some(value)),
                Command::Remove { .. } => {
                    proof {
                        assert(false);
                    }
                    Err(Error::new(ErrorKind::CorruptedLog))
                },
            },
            _ => {
                proof {
                    assert(false);
                }
                Err(Error::new(ErrorKind::CorruptedLog))
            },
        }
    }

    /// Open a store over the given segments, oldest generation first.
    ///
    /// Replays every segment in order to rebuild the index and the
    /// garbage counter, tolerating a partial trailing record in any
    /// segment, and then starts a fresh active segment one generation
    /// past the newest.  Fails exactly when some segment holds bytes
    /// that are no prefix of a record.
    #[verifier::rlimit(100)]
    pub fn open(segments: Vec<Segment>) -> (r: Result<KvStore, Error>)
        requires
            gens_strictly_sorted(segs_view(segments@)),
            segments@.len() > 0 ==> segs_view(segments@).last().gen < u64::MAX,
        ensures
            match r {
                Ok(s) => {
                    &&& s.wf()
                    &&& s@ == replay(segs_cmds(segs_view(segments@)), Map::empty())
                    &&& forall|i: int|
                        0 <= i < segments@.len() ==> !((#[trigger] spec_parse(
                            segs_view(segments@)[i].data,
                        ).1) is Corrupt)
                    &&& s.spec_gen() == (if segments@.len() == 0 {
                        0u64
                    } else {
                        (segs_view(segments@).last().gen + 1) as u64
                    })
                    &&& s.spec_garbage() as int == sat64(
                        replay_garbage(segs_cmds(segs_view(segments@)), Map::empty()),
                    )
                },
                Err(e) => {
                    &&& e.spec_kind() == ErrorKind::CorruptedLog
                    &&& exists|i: int|
                        0 <= i < segments@.len() && (#[trigger] spec_parse(
                            segs_view(segments@)[i].data,
                        ).1) is Corrupt
                },
            },
    {
        let ghost orig = segs_view(segments@);
        let mut index: Vec<IndexEntry> = Vec::new();
        let mut garbage: u64 = 0;
        let ghost mut m = Map::<Seq<char>, Seq<char>>::empty();
        let mut s: usize = 0;
        proof {
            assert(orig.take(0) =~= Seq::<SegV>::empty());
        }
        while s < segments.len()
            invariant
                s <= segments@.len(),
                orig == segs_view(segments@),
                orig.len() == segments@.len(),
                gens_strictly_sorted(orig),
                segments@.len() > 0 ==> orig.last().gen < u64::MAX,
                keys_distinct(entries_view(index@)),
                index_ok(entries_view(index@), orig, m),
                m == replay(segs_cmds(orig.take(s as int)), Map::empty()),
                garbage as int == sat64(
                    replay_garbage(segs_cmds(orig.take(s as int)), Map::empty()),
                ),
                garbage as int + live_bytes(entries_view(index@)) <= total_bytes(
                    orig.take(s as int),
                ),
                forall|i: int| 0 <= i < s ==> !((#[trigger] spec_parse(orig[i].data).1) is Corrupt),
            decreases segments@.len() - s,
        {
            let data = &segments[s].data;
            let gen = segments[s].gen;
            proof {
                assert(orig[s as int] == segments@[s as int]@);
                lemma_seg_with_gen_at(orig, s as int);
            }
            let mut pos: usize = 0;
            let ghost mut done = Seq::<CommandV>::empty();
            proof {
                assert(segs_cmds(orig.take(s as int)) + Seq::<CommandV>::empty() =~= segs_cmds(
                    orig.take(s as int),
                ));
            }
            loop
                invariant
                    pos <= data@.len(),
                    s < segments@.len(),
                    data@ == orig[s as int].data,
                    gen == orig[s as int].gen,
                    orig == segs_view(segments@),
                    orig.len() == segments@.len(),
                    gens_strictly_sorted(orig),
                    seg_with_gen(orig, gen) == s as int,
                    spec_parse(data@).0 == done + spec_parse_from(data@, pos as int).0,
                    spec_parse(data@).1 == spec_parse_from(data@, pos as int).1,
                    m == replay(segs_cmds(orig.take(s as int)) + done, Map::empty()),
                    garbage as int == sat64(
                        replay_garbage(segs_cmds(orig.take(s as int)) + done, Map::empty()),
                    ),
                    garbage as int + live_bytes(entries_view(index@)) <= total_bytes(
                        orig.take(s as int),
                    ) + pos,
                    keys_distinct(entries_view(index@)),
                    index_ok(entries_view(index@), orig, m),
                ensures
                    pos <= data@.len(),
                    spec_parse(data@).0 == done,
                    !(spec_parse(data@).1 is Corrupt),
                    m == replay(segs_cmds(orig.take(s as int)) + done, Map::empty()),
                    garbage as int == sat64(
                        replay_garbage(segs_cmds(orig.take(s as int)) + done, Map::empty()),
                    ),
                    garbage as int + live_bytes(entries_view(index@)) <= total_bytes(
                        orig.take(s as int),
                    ) + pos,
                    keys_distinct(entries_view(index@)),
                    index_ok(entries_view(index@), orig, m),
                decreases data@.len() - pos,
            {
                match crate::codec::decode_command(data, pos) {
                    crate::codec::Decoded::Record(cmd, end) => {
                        let ghost cv = cmd@;
                        proof {
                            crate::codec::lemma_decode_bounds(data@, pos as int);
                            crate::codec::lemma_encode_decode(data@, pos as int);
                        }
                        let len = (end - pos) as u64;
                        let ghost pre_entries = entries_view(index@);
                        let ghost a = segs_cmds(orig.take(s as int));
                        match cmd {
                            Command::Put { key, value } => {
                                let ghost kv = key@;
                                let ghost vv = value@;
                                let loc = LogIndex { gen, pos: pos as u64, len };
                                let ghost g_pre = garbage;
                                let prev = index_upsert(&mut index, key, loc);
                                if let Some(p) = prev {
                                    garbage = garbage.saturating_add(p.len);
                                }
                                proof {
                                    assert(data@.subrange(pos as int, end as int) == spec_encode(
                                        CommandV::Put { key: kv, value: vv },
                                    ));
                                    lemma_index_ok_upsert(
                                        pre_entries,
                                        entries_view(index@),
                                        orig,
                                        m,
                                        kv,
                                        vv,
                                        loc,
                                    );
                                    crate::log::lemma_replay_push(a + done, Map::empty(), cv);
                                    lemma_replay_garbage_push(a + done, Map::empty(), cv);
                                    assert((a + done).push(cv) =~= a + done.push(cv));
                                    crate::log::lemma_replay_garbage_nonneg(
                                        a + done,
                                        Map::empty(),
                                    );
                                    lemma_step_len(
                                        pre_entries,
                                        orig,
                                        m,
                                        kv,
                                        prev,
                                        g_pre,
                                        garbage,
                                        replay_garbage(a + done, Map::empty()),
                                    );
                                    m = m.insert(kv, vv);
                                    done = done.push(cv);
                                }
                            },
                            Command::Remove { key } => {
                                let ghost kv = key@;
                                let ghost g_pre = garbage;
                                let prev = index_remove(&mut index, &key);
                                if let Some(p) = prev {
                                    garbage = garbage.saturating_add(p.len);
                                }
                                proof {
                                    lemma_index_ok_erase(
                                        pre_entries,
                                        entries_view(index@),
                                        orig,
                                        m,
                                        kv,
                                    );
                                    crate::log::lemma_replay_push(a + done, Map::empty(), cv);
                                    lemma_replay_garbage_push(a + done, Map::empty(), cv);
                                    assert((a + done).push(cv) =~= a + done.push(cv));
                                    crate::log::lemma_replay_garbage_nonneg(
                                        a + done,
                                        Map::empty(),
                                    );
                                    lemma_step_len(
                                        pre_entries,
                                        orig,
                                        m,
                                        kv,
                                        prev,
                                        g_pre,
                                        garbage,
                                        replay_garbage(a + done, Map::empty()),
                                    );
                                    m = m.remove(kv);
                                    done = done.push(cv);
                                }
                            },
                        }
                        proof {
                            assert(spec_parse(data@).0 =~= done + spec_parse_from(
                                data@,
                                end as int,
                            ).0);
                        }
                        pos = end;
                    },
                    crate::codec::Decoded::End => {
                        break ;
                    },
                    crate::codec::Decoded::Truncated => {
                        break ;
                    },
                    crate::codec::Decoded::Corrupt => {
                        proof {
                            assert(spec_parse(orig[s as int].data).1 is Corrupt);
                        }
                        return Err(Error::new(ErrorKind::CorruptedLog));
                    },
                }
            }
            proof {
                assert(orig.take(s as int + 1).drop_last() =~= orig.take(s as int));
                assert(orig.take(s as int + 1).last() == orig[s as int]);
                assert(segs_cmds(orig.take(s as int + 1)) == segs_cmds(orig.take(s as int))
                    + spec_parse(orig[s as int].data).0);
                assert(total_bytes(orig.take(s as int + 1)) == total_bytes(orig.take(s as int))
                    + orig[s as int].data.len());
            }
            s = s + 1;
        }
        let active_gen: u64 = if segments.len() == 0 {
            0
        } else {
            segments[segments.len() - 1].gen + 1
        };
        proof {
            assert forall|i: int| 0 <= i < orig.len() implies (#[trigger] orig[i].gen)
                < active_gen by {
                if i < orig.len() - 1 {
                    assert(orig[i].gen < orig.last().gen);
                }
            }
            lemma_index_ok_push(
                entries_view(index@),
                orig,
                m,
                SegV { gen: active_gen, data: Seq::empty() },
            );
        }
        let mut segs = segments;
        let active = Segment { gen: active_gen, data: Vec::new() };
        let ghost av = active@;
        segs.push(active);
        let store = KvStore { segments: segs, index, gen: active_gen, garbage, model: Ghost(m) };
        proof {
            let sv = segs_view(store.segments@);
            assert forall|t: int| 0 <= t < sv.len() implies sv[t] == orig.push(av)[t] by {
                if t < orig.len() {
                    assert(store.segments@[t] == segments@[t]);
                }
            }
            assert(sv =~= orig.push(av));
            assert(av.data == Seq::<u8>::empty());
            crate::log::lemma_parse_empty();
            lemma_segs_cmds_push(orig, av);
            assert(segs_cmds(sv) =~= segs_cmds(orig));
            assert(orig.take(orig.len() as int) =~= orig);
            assert(sv.drop_last() =~= orig && sv.last() == av);
            assert(total_bytes(sv) == total_bytes(orig) + av.data.len());
            assert(store.wf());
        }
        Ok(store)
    }
}

} // verus!
