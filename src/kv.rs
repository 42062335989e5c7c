//! The log-structured storage engine.
//!
//! The engine keeps every generation of the command log in memory and an
//! index from each live key to the `Put` record that holds its value. Every
//! change it makes to the log is also queued as a [`LogAction`], so that a
//! caller can mirror the log into `<generation>.log` files.
use vstd::prelude::*;
use crate::codec::{Command, decode, has_at, set_record, remove_record, lemma_record_unique};
use crate::error::{KvsError, Result};

verus! {

/// Stale bytes beyond which a write compacts the log.
pub const COMPACTION_THRESHOLD: u64 = 1048576;

/// Where one encoded command stands in the log.
#[derive(Debug, Clone, Copy, PartialEq, Eq)]
pub struct CommandPos {
    pub gen: u64,
    pub pos: u64,
    pub len: u64,
}

/// One generation of the log and its bytes.
#[derive(Debug)]
pub struct Segment {
    pub gen: u64,
    pub data: Vec<u8>,
}

/// A change to the log files that the engine asks its caller to make.
#[derive(Debug)]
pub enum LogAction {
    /// Append `bytes` to the file of `gen`, creating it if it is absent.
    Append { gen: u64, bytes: Vec<u8> },
    /// Delete the file of `gen`.
    Delete { gen: u64 },
}

/// The log files after `a`, as a map from generation to contents.
pub open spec fn apply_action(d: Map<u64, Seq<u8>>, a: LogAction) -> Map<u64, Seq<u8>> {
    match a {
        LogAction::Append { gen, bytes } => d.insert(
            gen,
            if d.contains_key(gen) {
                d[gen] + bytes@
            } else {
                bytes@
            },
        ),
        LogAction::Delete { gen } => d.remove(gen),
    }
}

/// The log files after each action of `acts` in turn.
pub open spec fn apply_actions(d: Map<u64, Seq<u8>>, acts: Seq<LogAction>) -> Map<u64, Seq<u8>>
    decreases acts.len(),
{
    if acts.len() == 0 {
        d
    } else {
        apply_action(apply_actions(d, acts.drop_last()), acts.last())
    }
}

/// The bytes that a write of `k` makes stale: the record of its live value.
pub open spec fn superseded(m: Map<Seq<char>, Seq<char>>, k: Seq<char>) -> nat {
    if m.contains_key(k) {
        set_record(k, m[k]).len()
    } else {
        0
    }
}

/// The segments are in ascending generation order and hold the bytes of `disk`.
pub open spec fn segments_match(segs: Seq<Segment>, disk: Map<u64, Seq<u8>>) -> bool {
    &&& forall|i: int, j: int| 0 <= i < j < segs.len() ==> segs[i].gen < segs[j].gen
    &&& forall|i: int|
        0 <= i < segs.len() ==> #[trigger] disk.contains_key(segs[i].gen) && disk[segs[i].gen]
            == segs[i].data@
    &&& forall|g: u64|
        #[trigger] disk.contains_key(g) ==> exists|i: int| 0 <= i < segs.len() && segs[i].gen == g
}

/// The index entry `(k, p)` points at a `Put` record of `k` and its value.
pub open spec fn entry_ok(
    k: Seq<char>,
    p: CommandPos,
    contents: Map<Seq<char>, Seq<char>>,
    disk: Map<u64, Seq<u8>>,
) -> bool {
    &&& contents.contains_key(k)
    &&& disk.contains_key(p.gen)
    &&& p.len == set_record(k, contents[k]).len()
    &&& has_at(disk[p.gen], p.pos as int, set_record(k, contents[k]))
}

/// The index holds each key of `contents` once, each at its `Put` record.
pub open spec fn index_ok(
    index: Seq<(String, CommandPos)>,
    contents: Map<Seq<char>, Seq<char>>,
    disk: Map<u64, Seq<u8>>,
) -> bool {
    &&& forall|i: int, j: int| 0 <= i < j < index.len() ==> index[i].0@ != index[j].0@
    &&& forall|i: int|
        0 <= i < index.len() ==> #[trigger] entry_ok(index[i].0@, index[i].1, contents, disk)
    &&& forall|k: Seq<char>|
        #[trigger] contents.contains_key(k) ==> exists|i: int|
            0 <= i < index.len() && index[i].0@ == k
}

/// The contents and stale count after replaying the records of `b` from
/// offset `at` on, starting from `m` and `stale`. Replay stops at the end of
/// `b` or at the first offset that holds no whole record.
pub open spec fn replay_bytes(
    m: Map<Seq<char>, Seq<char>>,
    stale: u64,
    b: Seq<u8>,
    at: int,
) -> (Map<Seq<char>, Seq<char>>, u64)
    decreases b.len() - at,
{
    if at < 0 || at >= b.len() {
        (m, stale)
    } else if exists|k: Seq<char>, v: Seq<char>| has_at(b, at, set_record(k, v)) {
        let (k, v) = choose|k: Seq<char>, v: Seq<char>| has_at(b, at, set_record(k, v));
        replay_bytes(
            m.insert(k, v),
            stale.saturating_add(superseded(m, k) as u64),
            b,
            at + set_record(k, v).len(),
        )
    } else if exists|k: Seq<char>| has_at(b, at, remove_record(k)) {
        let k = choose|k: Seq<char>| has_at(b, at, remove_record(k));
        replay_bytes(
            m.remove(k),
            stale.saturating_add(superseded(m, k) as u64).saturating_add(
                remove_record(k).len() as u64,
            ),
            b,
            at + remove_record(k).len(),
        )
    } else {
        (m, stale)
    }
}

/// The contents and stale count after replaying the generations of `segs`
/// from position `i` on, in order.
pub open spec fn replay_segments(
    m: Map<Seq<char>, Seq<char>>,
    stale: u64,
    segs: Seq<Segment>,
    i: int,
) -> (Map<Seq<char>, Seq<char>>, u64)
    decreases segs.len() - i,
{
    if i < 0 || i >= segs.len() {
        (m, stale)
    } else {
        let r = replay_bytes(m, stale, segs[i].data@, 0);
        replay_segments(r.0, r.1, segs, i + 1)
    }
}

/// Replaying a `Put` of `k` and `v`.
pub open spec fn put_step(r: (Map<Seq<char>, Seq<char>>, u64), k: Seq<char>, v: Seq<char>) -> (
    Map<Seq<char>, Seq<char>>,
    u64,
) {
    (r.0.insert(k, v), r.1.saturating_add(superseded(r.0, k) as u64))
}

/// Replaying a `Remove` of `k`.
pub open spec fn remove_step(r: (Map<Seq<char>, Seq<char>>, u64), k: Seq<char>) -> (
    Map<Seq<char>, Seq<char>>,
    u64,
) {
    (
        r.0.remove(k),
        r.1.saturating_add(superseded(r.0, k) as u64).saturating_add(
            remove_record(k).len() as u64,
        ),
    )
}

/// `b` from offset `at` to its end is a sequence of whole records.
pub open spec fn full_parse(b: Seq<u8>, at: int) -> bool
    decreases b.len() - at,
{
    if at < 0 || at > b.len() {
        false
    } else if at == b.len() {
        true
    } else if exists|k: Seq<char>, v: Seq<char>| has_at(b, at, set_record(k, v)) {
        let (k, v) = choose|k: Seq<char>, v: Seq<char>| has_at(b, at, set_record(k, v));
        full_parse(b, at + set_record(k, v).len())
    } else if exists|k: Seq<char>| has_at(b, at, remove_record(k)) {
        let k = choose|k: Seq<char>| has_at(b, at, remove_record(k));
        full_parse(b, at + remove_record(k).len())
    } else {
        false
    }
}

proof fn lemma_replay_append(
    m: Map<Seq<char>, Seq<char>>,
    s: u64,
    b: Seq<u8>,
    at: int,
    rec: Seq<u8>,
    put: bool,
    k: Seq<char>,
    v: Seq<char>,
)
    requires
        full_parse(b, at),
        rec == (if put {
            set_record(k, v)
        } else {
            remove_record(k)
        }),
        b.len() + rec.len() <= u64::MAX,
    ensures
        full_parse(b + rec, at),
        replay_bytes(m, s, b + rec, at) == (if put {
            put_step(replay_bytes(m, s, b, at), k, v)
        } else {
            remove_step(replay_bytes(m, s, b, at), k)
        }),
    decreases b.len() - at,
{
    let b2 = b + rec;
    lemma_record_unique(b2, at);
    if at == b.len() {
        assert(b2.subrange(at, at + rec.len()) =~= rec);
        assert(has_at(b2, at, rec));
        assert(at + rec.len() == b2.len());
        assert(rec.len() > 0);
        assert(replay_bytes(m, s, b, at) == (m, s));
        assert(full_parse(b2, b2.len() as int));
        if put {
            assert(has_at(b2, at, set_record(k, v)));
            let (k1, v1) = choose|k1: Seq<char>, v1: Seq<char>| has_at(b2, at, set_record(k1, v1));
            assert(k1 == k && v1 == v);
            let r = put_step((m, s), k, v);
            assert(replay_bytes(r.0, r.1, b2, b2.len() as int) == r);
        } else {
            assert(has_at(b2, at, remove_record(k)));
            assert(!exists|k1: Seq<char>, v1: Seq<char>| has_at(b2, at, set_record(k1, v1)));
            let k1 = choose|k1: Seq<char>| has_at(b2, at, remove_record(k1));
            assert(k1 == k);
            let r = remove_step((m, s), k);
            assert(replay_bytes(r.0, r.1, b2, b2.len() as int) == r);
        }
    } else if exists|k1: Seq<char>, v1: Seq<char>| has_at(b, at, set_record(k1, v1)) {
        let (k1, v1) = choose|k1: Seq<char>, v1: Seq<char>| has_at(b, at, set_record(k1, v1));
        lemma_has_at_extend(b, rec, at, set_record(k1, v1));
        let (k2, v2) = choose|k2: Seq<char>, v2: Seq<char>| has_at(b2, at, set_record(k2, v2));
        assert(k2 == k1 && v2 == v1);
        lemma_replay_append(
            m.insert(k1, v1),
            s.saturating_add(superseded(m, k1) as u64),
            b,
            at + set_record(k1, v1).len(),
            rec,
            put,
            k,
            v,
        );
    } else {
        let k1 = choose|k1: Seq<char>| has_at(b, at, remove_record(k1));
        lemma_has_at_extend(b, rec, at, remove_record(k1));
        assert(!exists|k2: Seq<char>, v2: Seq<char>| has_at(b2, at, set_record(k2, v2)));
        let k2 = choose|k2: Seq<char>| has_at(b2, at, remove_record(k2));
        assert(k2 == k1);
        lemma_replay_append(
            m.remove(k1),
            s.saturating_add(superseded(m, k1) as u64).saturating_add(
                remove_record(k1).len() as u64,
            ),
            b,
            at + remove_record(k1).len(),
            rec,
            put,
            k,
            v,
        );
    }
}

proof fn lemma_replay_segments_last(
    m: Map<Seq<char>, Seq<char>>,
    s: u64,
    segs: Seq<Segment>,
    i: int,
)
    requires
        0 <= i < segs.len(),
    ensures
        replay_segments(m, s, segs, i) == replay_bytes(
            replay_segments(m, s, segs.drop_last(), i).0,
            replay_segments(m, s, segs.drop_last(), i).1,
            segs.last().data@,
            0,
        ),
    decreases segs.len() - i,
{
    let r = replay_bytes(m, s, segs[i].data@, 0);
    if i < segs.len() - 1 {
        lemma_replay_segments_last(r.0, r.1, segs, i + 1);
        assert(segs.drop_last()[i] == segs[i]);
    } else {
        assert(replay_segments(r.0, r.1, segs, i + 1) == r);
    }
}

/// Replay reads only the bytes of the generations, in order.
pub proof fn lemma_replay_same_bytes(
    m: Map<Seq<char>, Seq<char>>,
    s: u64,
    a: Seq<Segment>,
    b: Seq<Segment>,
    i: int,
)
    requires
        a.len() == b.len(),
        forall|j: int| 0 <= j < a.len() ==> (#[trigger] a[j]).data@ == b[j].data@,
    ensures
        replay_segments(m, s, a, i) == replay_segments(m, s, b, i),
    decreases a.len() - i,
{
    if 0 <= i < a.len() {
        let r = replay_bytes(m, s, a[i].data@, 0);
        assert(a[i].data@ == b[i].data@);
        lemma_replay_same_bytes(r.0, r.1, a, b, i + 1);
    }
}

/// The number of bytes in the generations of `segs`.
pub open spec fn total_len(segs: Seq<Segment>) -> nat
    decreases segs.len(),
{
    if segs.len() == 0 {
        0
    } else {
        total_len(segs.drop_last()) + segs.last().data@.len()
    }
}

/// The number of bytes in the records that the index points at.
pub open spec fn live_len(index: Seq<(String, CommandPos)>) -> nat
    decreases index.len(),
{
    if index.len() == 0 {
        0
    } else {
        live_len(index.drop_last()) + index.last().1.len as nat
    }
}

proof fn lemma_live_len_update(index: Seq<(String, CommandPos)>, i: int, e: (String, CommandPos))
    requires
        0 <= i < index.len(),
    ensures
        live_len(index.update(i, e)) + index[i].1.len == live_len(index) + e.1.len,
    decreases index.len(),
{
    if i == index.len() - 1 {
        assert(index.update(i, e).drop_last() =~= index.drop_last());
    } else {
        assert(index.update(i, e).drop_last() =~= index.drop_last().update(i, e));
        lemma_live_len_update(index.drop_last(), i, e);
    }
}

proof fn lemma_live_len_remove(index: Seq<(String, CommandPos)>, i: int)
    requires
        0 <= i < index.len(),
    ensures
        live_len(index.remove(i)) + index[i].1.len == live_len(index),
    decreases index.len(),
{
    if i == index.len() - 1 {
        assert(index.remove(i) =~= index.drop_last());
    } else {
        assert(index.remove(i).drop_last() =~= index.drop_last().remove(i));
        lemma_live_len_remove(index.drop_last(), i);
    }
}

proof fn lemma_live_len_same(a: Seq<(String, CommandPos)>, b: Seq<(String, CommandPos)>)
    requires
        a.len() == b.len(),
        forall|i: int| 0 <= i < a.len() ==> (#[trigger] a[i]).1.len == b[i].1.len,
    ensures
        live_len(a) == live_len(b),
    decreases a.len(),
{
    if a.len() > 0 {
        lemma_live_len_same(a.drop_last(), b.drop_last());
    }
}

/// The generations of `segs` strictly ascend.
pub open spec fn ascending(segs: Seq<Segment>) -> bool {
    forall|i: int, j: int| 0 <= i < j < segs.len() ==> segs[i].gen < segs[j].gen
}

proof fn lemma_index_ok_grow(
    index: Seq<(String, CommandPos)>,
    c: Map<Seq<char>, Seq<char>>,
    d: Map<u64, Seq<u8>>,
    gen: u64,
    e: Seq<u8>,
)
    requires
        index_ok(index, c, d),
        d.contains_key(gen) ==> e.subrange(0, d[gen].len() as int) == d[gen] && d[gen].len() <= e.len(),
    ensures
        index_ok(index, c, d.insert(gen, e)),
{
    let d1 = d.insert(gen, e);
    assert forall|i: int| 0 <= i < index.len() implies #[trigger] entry_ok(
        index[i].0@,
        index[i].1,
        c,
        d1,
    ) by {
        assert(entry_ok(index[i].0@, index[i].1, c, d));
        if index[i].1.gen == gen {
            let rec = set_record(index[i].0@, c[index[i].0@]);
            let at = index[i].1.pos as int;
            assert(e.subrange(at, at + rec.len()) =~= d[gen].subrange(at, at + rec.len()));
        }
    }
}

proof fn lemma_has_at_extend(d: Seq<u8>, e: Seq<u8>, at: int, rec: Seq<u8>)
    requires
        has_at(d, at, rec),
    ensures
        has_at(d + e, at, rec),
{
    assert((d + e).subrange(at, at + rec.len()) =~= d.subrange(at, at + rec.len()));
}

proof fn lemma_apply_push(d: Map<u64, Seq<u8>>, acts: Seq<LogAction>, a: LogAction)
    ensures
        apply_actions(d, acts.push(a)) == apply_action(apply_actions(d, acts), a),
{
    assert(acts.push(a).drop_last() =~= acts);
}

/// Copies a byte vector.
fn copy_bytes(b: &Vec<u8>) -> (r: Vec<u8>)
    ensures
        r@ == b@,
{
    let mut r: Vec<u8> = Vec::new();
    let mut i: usize = 0;
    while i < b.len()
        invariant
            0 <= i <= b@.len(),
            r@ == b@.subrange(0, i as int),
        decreases b@.len() - i,
    {
        r.push(b[i]);
        i = i + 1;
        assert(r@ =~= b@.subrange(0, i as int));
    }
    assert(b@.subrange(0, b@.len() as int) =~= b@);
    r
}

/// Appends `src[from..to]` to `out`.
fn copy_range(out: &mut Vec<u8>, src: &Vec<u8>, from: usize, to: usize)
    requires
        from <= to <= src@.len(),
    ensures
        final(out)@ == old(out)@ + src@.subrange(from as int, to as int),
{
    let ghost start = out@;
    let mut x: usize = from;
    while x < to
        invariant
            from <= x <= to <= src@.len(),
            out@ == start + src@.subrange(from as int, x as int),
        decreases to - x,
    {
        out.push(src[x]);
        x = x + 1;
        assert(out@ =~= start + src@.subrange(from as int, x as int));
    }
}

/// The log-structured key/value store.
pub struct KvStore {
    segments: Vec<Segment>,
    index: Vec<(String, CommandPos)>,
    current_gen: u64,
    uncompacted: u64,
    pending: Vec<LogAction>,
    contents: Ghost<Map<Seq<char>, Seq<char>>>,
    disk: Ghost<Map<u64, Seq<u8>>>,
}

impl View for KvStore {
    type V = Map<Seq<char>, Seq<char>>;

    /// The stored key/value pairs.
    closed spec fn view(&self) -> Map<Seq<char>, Seq<char>> {
        self.contents@
    }
}

impl KvStore {
    /// The log files as they stand once every queued action is applied.
    pub closed spec fn disk(&self) -> Map<u64, Seq<u8>> {
        self.disk@
    }

    /// The actions queued and not yet taken.
    pub closed spec fn pending(&self) -> Seq<LogAction> {
        self.pending@
    }

    /// The generation that writes append to.
    pub closed spec fn spec_current_gen(&self) -> u64 {
        self.current_gen
    }

    /// The stale-byte counter.
    pub closed spec fn stale(&self) -> u64 {
        self.uncompacted
    }

    /// The internal invariant of the store.
    pub closed spec fn wf(&self) -> bool {
        &&& self.segments@.len() > 0
        &&& segments_match(self.segments@, self.disk@)
        &&& self.segments@.last().gen == self.current_gen
        &&& index_ok(self.index@, self.contents@, self.disk@)
        &&& full_parse(self.segments@.last().data@, 0)
        &&& live_len(self.index@) + self.uncompacted <= total_len(self.segments@)
        &&& replay_segments(Map::empty(), 0, self.segments@, 0) == (
            self.contents@,
            self.uncompacted,
        )
    }

    /// The generations of the log, oldest first; the last one takes writes.
    pub closed spec fn log(&self) -> Seq<Segment> {
        self.segments@
    }

    /// `new` follows `old` by queuing actions that take `old.disk()` to `new.disk()`.
    pub open spec fn emitted(old: &KvStore, new: &KvStore) -> bool {
        &&& old.pending().len() <= new.pending().len()
        &&& new.pending().subrange(0, old.pending().len() as int) == old.pending()
        &&& apply_actions(
            old.disk(),
            new.pending().subrange(old.pending().len() as int, new.pending().len() as int),
        ) == new.disk()
    }

    proof fn lemma_emitted_refl(&self)
        ensures
            KvStore::emitted(self, self),
    {
        assert(self.pending@.subrange(0, self.pending@.len() as int) =~= self.pending@);
        assert(self.pending@.subrange(self.pending@.len() as int, self.pending@.len() as int)
            =~= Seq::<LogAction>::empty());
    }

    proof fn lemma_emitted_trans(a: &KvStore, b: &KvStore, c: &KvStore)
        requires
            KvStore::emitted(a, b),
            KvStore::emitted(b, c),
        ensures
            KvStore::emitted(a, c),
    {
        let pa = a.pending().len() as int;
        let pb = b.pending().len() as int;
        let pc = c.pending().len() as int;
        assert(c.pending().subrange(0, pa) =~= c.pending().subrange(0, pb).subrange(0, pa));
        lemma_apply_concat(
            a.disk(),
            c.pending().subrange(pa, pb),
            c.pending().subrange(pb, pc),
        );
        assert(c.pending().subrange(pa, pb) =~= b.pending().subrange(pa, pb));
        assert(c.pending().subrange(pa, pb) + c.pending().subrange(pb, pc) =~= c.pending().subrange(
            pa,
            pc,
        ));
    }

    /// Queues `a` and records its effect on the log files.
    fn emit(&mut self, a: LogAction)
        ensures
            final(self).pending() == old(self).pending().push(a),
            final(self).disk() == apply_action(old(self).disk(), a),
            final(self).segments == old(self).segments,
            final(self).index == old(self).index,
            final(self).current_gen == old(self).current_gen,
            final(self).uncompacted == old(self).uncompacted,
            final(self).contents == old(self).contents,
            KvStore::emitted(old(self), final(self)),
    {
        proof {
            let p0 = self.pending@;
            lemma_apply_push(self.disk@, Seq::<LogAction>::empty(), a);
            assert(p0.push(a).subrange(p0.len() as int, p0.len() as int + 1) =~= Seq::<LogAction>::empty().push(a));
            assert(p0.push(a).subrange(0, p0.len() as int) =~= p0);
            assert(apply_actions(self.disk@, Seq::<LogAction>::empty()) == self.disk@);
        }
        self.disk = Ghost(apply_action(self.disk@, a));
        self.pending.push(a);
    }

    fn find_key(&self, key: &String) -> (r: Option<usize>)
        ensures
            r matches Some(i) ==> i < self.index@.len() && self.index@[i as int].0@ == key@,
            r is None ==> forall|i: int| 0 <= i < self.index@.len() ==> self.index@[i].0@ != key@,
    {
        let mut i: usize = 0;
        while i < self.index.len()
            invariant
                0 <= i <= self.index@.len(),
                forall|m: int| 0 <= m < i ==> self.index@[m].0@ != key@,
            decreases self.index@.len() - i,
        {
            if self.index[i].0 == *key {
                return Some(i);
            }
            i = i + 1;
        }
        None
    }

    fn find_segment(&self, gen: u64) -> (r: Option<usize>)
        ensures
            r matches Some(j) ==> j < self.segments@.len() && self.segments@[j as int].gen == gen,
            r is None ==> forall|j: int|
                0 <= j < self.segments@.len() ==> self.segments@[j].gen != gen,
    {
        let mut j: usize = 0;
        while j < self.segments.len()
            invariant
                0 <= j <= self.segments@.len(),
                forall|m: int| 0 <= m < j ==> self.segments@[m].gen != gen,
            decreases self.segments@.len() - j,
        {
            if self.segments[j].gen == gen {
                return Some(j);
            }
            j = j + 1;
        }
        None
    }

    /// Gets the value of `key`; `None` when it is not stored.
    pub fn get(&self, key: String) -> (r: Result<Option<String>>)
        requires
            self.wf(),
        ensures
            r matches Ok(o) && (o matches Some(v) ==> self@.contains_key(key@) && v@
                == self@[key@]) && (o is None ==> !self@.contains_key(key@)),
    {
        match self.find_key(&key) {
            None => {
                assert(!self.contents@.contains_key(key@));
                Ok(None)
            },
            Some(i) => {
                let p = self.index[i].1;
                proof {
                    assert(entry_ok(self.index@[i as int].0@, p, self.contents@, self.disk@));
                    assert(self.disk@.contains_key(p.gen));
                }
                match self.find_segment(p.gen) {
                    Some(j) => {
                        let data = self.segments[j].data.as_slice();
                        assert(self.disk@[p.gen] == data@);
                        assert(has_at(data@, p.pos as int, set_record(key@, self.contents@[key@])));
                        let n = self.segments[j].data.len();
                        assert(p.pos <= n);
                        let at = p.pos as usize;
                        assert(has_at(data@, at as int, set_record(key@, self.contents@[key@])));
                        match decode(data, at) {
                            Some((Command::Put { value, .. }, _)) => Ok(Some(value)),
                            Some(_) => Err(KvsError::UnexpectedCommandType),
                            None => Err(KvsError::UnexpectedCommandType),
                        }
                    },
                    None => {
                        proof {
                            let jj = choose|jj: int|
                                0 <= jj < self.segments@.len() && self.segments@[jj].gen == p.gen;
                            assert(self.segments@[jj].gen != p.gen);
                        }
                        Err(KvsError::UnexpectedCommandType)
                    },
                }
            },
        }
    }

    /// Points `key` at the `Put` record at `p`, whose value is `v`; the
    /// record it pointed at before, if any, becomes stale.
    fn index_put(&mut self, key: String, v: Ghost<Seq<char>>, p: CommandPos)
        requires
            index_ok(old(self).index@, old(self).contents@, old(self).disk@),
            old(self).disk@.contains_key(p.gen),
            p.len == set_record(key@, v@).len(),
            has_at(old(self).disk@[p.gen], p.pos as int, set_record(key@, v@)),
        ensures
            index_ok(final(self).index@, final(self).contents@, final(self).disk@),
            final(self).contents@ == old(self).contents@.insert(key@, v@),
            final(self).uncompacted == old(self).uncompacted.saturating_add(
                superseded(old(self).contents@, key@) as u64,
            ),
            live_len(final(self).index@) + superseded(old(self).contents@, key@) == live_len(
                old(self).index@,
            ) + p.len,
            final(self).segments == old(self).segments,
            final(self).current_gen == old(self).current_gen,
            final(self).pending == old(self).pending,
            final(self).disk == old(self).disk,
    {
        let ghost k = key@;
        let ghost c0 = self.contents@;
        let ghost d = self.disk@;
        let ghost mut wi: int = 0;
        match self.find_key(&key) {
            Some(i) => {
                let oldp = self.index[i].1;
                proof {
                    assert(entry_ok(self.index@[i as int].0@, oldp, c0, d));
                    wi = i as int;
                }
                self.uncompacted = self.uncompacted.saturating_add(oldp.len);
                proof {
                    lemma_live_len_update(self.index@, i as int, (key, p));
                }
                self.index.set(i, (key, p));
            },
            None => {
                proof {
                    wi = self.index@.len() as int;
                    assert(!c0.contains_key(k));
                }
                self.index.push((key, p));
                assert(self.index@.drop_last() =~= old(self).index@);
            },
        }
        self.contents = Ghost(c0.insert(k, v@));
        proof {
            let idx = self.index@;
            let c1 = self.contents@;
            assert forall|m: int| 0 <= m < idx.len() implies #[trigger] entry_ok(
                idx[m].0@,
                idx[m].1,
                c1,
                d,
            ) by {
                if idx[m].0@ != k {
                    assert(idx[m] == old(self).index@[m]);
                    assert(entry_ok(idx[m].0@, idx[m].1, c0, d));
                }
            }
            assert forall|q: Seq<char>| #[trigger] c1.contains_key(q) implies exists|m: int|
                0 <= m < idx.len() && idx[m].0@ == q by {
                if q != k {
                    let m = choose|m: int|
                        0 <= m < old(self).index@.len() && old(self).index@[m].0@ == q;
                    assert(idx[m].0@ == q);
                } else {
                    assert(idx[wi].0@ == k);
                }
            }
        }
    }

    /// Drops `key` from the index; its record, if any, becomes stale.
    fn index_remove(&mut self, key: &String)
        requires
            index_ok(old(self).index@, old(self).contents@, old(self).disk@),
        ensures
            index_ok(final(self).index@, final(self).contents@, final(self).disk@),
            final(self).contents@ == old(self).contents@.remove(key@),
            final(self).uncompacted == old(self).uncompacted.saturating_add(
                superseded(old(self).contents@, key@) as u64,
            ),
            live_len(final(self).index@) + superseded(old(self).contents@, key@) == live_len(
                old(self).index@,
            ),
            final(self).segments == old(self).segments,
            final(self).current_gen == old(self).current_gen,
            final(self).pending == old(self).pending,
            final(self).disk == old(self).disk,
    {
        let ghost k = key@;
        let ghost c0 = self.contents@;
        let ghost d = self.disk@;
        match self.find_key(key) {
            None => {
                assert(!c0.contains_key(k));
                assert(c0.remove(k) =~= c0);
            },
            Some(i) => {
                let oldp = self.index[i].1;
                proof {
                    assert(entry_ok(self.index@[i as int].0@, oldp, c0, d));
                }
                let ghost idx0 = self.index@;
                proof {
                    lemma_live_len_remove(idx0, i as int);
                }
                self.index.remove(i);
                self.uncompacted = self.uncompacted.saturating_add(oldp.len);
                self.contents = Ghost(c0.remove(k));
                proof {
                    let idx = self.index@;
                    let c1 = self.contents@;
                    assert forall|m: int| 0 <= m < idx.len() implies #[trigger] entry_ok(
                        idx[m].0@,
                        idx[m].1,
                        c1,
                        d,
                    ) by {
                        let mo = if m < i { m } else { m + 1 };
                        assert(idx[m] == idx0[mo]);
                        assert(idx0[mo].0@ != k);
                        assert(entry_ok(idx0[mo].0@, idx0[mo].1, c0, d));
                    }
                    assert forall|q: Seq<char>| #[trigger] c1.contains_key(q) implies exists|m: int|
                        0 <= m < idx.len() && idx[m].0@ == q by {
                        let m = choose|m: int| 0 <= m < idx0.len() && idx0[m].0@ == q;
                        if m < i {
                            assert(idx[m].0@ == q);
                        } else {
                            assert(m != i);
                            assert(idx[m - 1].0@ == q);
                        }
                    }
                    assert forall|a: int, b: int| 0 <= a < b < idx.len() implies idx[a].0@
                        != idx[b].0@ by {
                        let ao = if a < i { a } else { a + 1 };
                        let bo = if b < i { b } else { b + 1 };
                        assert(idx[a] == idx0[ao]);
                        assert(idx[b] == idx0[bo]);
                    }
                }
            },
        }
    }

    /// Opens a store over the existing generations of its log, replaying
    /// them in order. The next generation becomes the write generation; an
    /// action to create it empty is queued. Fails when the generations do
    /// not strictly ascend, or when the last one leaves no number after it.
    pub fn open(segments: Vec<Segment>) -> (r: Result<KvStore>)
        ensures
            r is Ok <==> ascending(segments@) && (segments@.len() == 0 || segments@.last().gen
                < u64::MAX),
            r matches Ok(s) ==> {
                let g = if segments@.len() == 0 {
                    1u64
                } else {
                    (segments@.last().gen + 1) as u64
                };
                &&& s.wf()
                &&& s.spec_current_gen() == g
                &&& (s@, s.stale()) == replay_segments(Map::empty(), 0, segments@, 0)
                &&& segments_match(segments@, s.disk().remove(g))
                &&& s.disk().contains_key(g) && s.disk()[g] == Seq::<u8>::empty()
                &&& s.pending().len() == 1
                &&& s.pending()[0] matches LogAction::Append { gen, bytes } && gen == g && bytes@
                    == Seq::<u8>::empty()
            },
    {
        let ghost orig = segments@;
        let len = segments.len();
        let mut i: usize = 1;
        while i < len
            invariant
                1 <= i,
                len == orig.len(),
                segments@ == orig,
                forall|a: int, b: int| 0 <= a < b < i && b < len ==> orig[a].gen < orig[b].gen,
            decreases len - i,
        {
            if segments[i - 1].gen >= segments[i].gen {
                return Err(KvsError::Io("log generations are out of order".to_owned()));
            }
            proof {
                assert forall|a: int, b: int| 0 <= a < b < i + 1 && b < len implies orig[a].gen
                    < orig[b].gen by {
                    if b == i && a < i - 1 {
                        assert(orig[a].gen < orig[i - 1].gen);
                    }
                }
            }
            i = i + 1;
        }
        assert(ascending(orig));
        if len > 0 && segments[len - 1].gen == u64::MAX {
            return Err(KvsError::Io("log generation numbers are exhausted".to_owned()));
        }
        let mut store = KvStore {
            segments: Vec::new(),
            index: Vec::new(),
            current_gen: 0,
            uncompacted: 0,
            pending: Vec::new(),
            contents: Ghost(Map::empty()),
            disk: Ghost(Map::empty()),
        };
        let ghost target = replay_segments(Map::empty(), 0, orig, 0);
        let mut rest = segments;
        let mut j: usize = 0;
        while rest.len() > 0
            invariant
                j <= len == orig.len(),
                ascending(orig),
                rest@ == orig.subrange(j as int, len as int),
                store.segments@ == orig.subrange(0, j as int),
                segments_match(store.segments@, store.disk@),
                index_ok(store.index@, store.contents@, store.disk@),
                replay_segments(store.contents@, store.uncompacted, orig, j as int) == target,
                store.pending@ == Seq::<LogAction>::empty(),
                live_len(store.index@) + store.uncompacted <= total_len(store.segments@),
            decreases rest@.len(),
        {
            let seg = rest.remove(0);
            assert(seg == orig[j as int]);
            store.load_segment(seg);
            j = j + 1;
            assert(store.segments@ =~= orig.subrange(0, j as int));
        }
        let g = if len == 0 {
            1u64
        } else {
            store.segments[len - 1].gen + 1
        };
        assert(orig.subrange(0, j as int) =~= orig);
        let ghost d0 = store.disk@;
        proof {
            if d0.contains_key(g) {
                let t = choose|t: int| 0 <= t < orig.len() && orig[t].gen == g;
                if t < orig.len() - 1 {
                    assert(orig[t].gen < orig[orig.len() - 1].gen);
                }
            }
            lemma_index_ok_grow(store.index@, store.contents@, d0, g, Seq::<u8>::empty());
        }
        store.emit(LogAction::Append { gen: g, bytes: Vec::new() });
        store.segments.push(Segment { gen: g, data: Vec::new() });
        store.current_gen = g;
        proof {
            let segs = store.segments@;
            assert(segs.drop_last() =~= orig);
            assert(total_len(segs) == total_len(orig));
            lemma_replay_segments_last(Map::empty(), 0, segs, 0);
            let r = replay_segments(Map::empty(), 0, orig, 0);
            assert(replay_bytes(r.0, r.1, segs.last().data@, 0) == r);
            assert(replay_segments(store.contents@, store.uncompacted, orig, len as int) == (store.contents@, store.uncompacted));
            assert(full_parse(segs.last().data@, 0));
            let d = store.disk@;
            assert(d.remove(g) =~= d0);
            assert forall|a: int, b: int| 0 <= a < b < segs.len() implies segs[a].gen
                < segs[b].gen by {
                if b == segs.len() - 1 && a < orig.len() - 1 {
                    assert(orig[a].gen < orig[orig.len() - 1].gen);
                }
            }
            assert forall|t: int| 0 <= t < segs.len() implies #[trigger] d.contains_key(segs[t].gen)
                && d[segs[t].gen] == segs[t].data@ by {
                if t < segs.len() - 1 {
                    assert(segs[t] == orig[t]);
                    assert(d0.contains_key(orig[t].gen));
                    assert(orig[t].gen != g) by {
                        if t < orig.len() - 1 {
                            assert(orig[t].gen < orig[orig.len() - 1].gen);
                        }
                    }
                }
            }
            assert forall|h: u64| #[trigger] d.contains_key(h) implies exists|t: int|
                0 <= t < segs.len() && segs[t].gen == h by {
                if h == g {
                    assert(segs[segs.len() - 1].gen == h);
                } else {
                    assert(d0.contains_key(h));
                    let t = choose|t: int| 0 <= t < orig.len() && orig[t].gen == h;
                    assert(segs[t].gen == h);
                }
            }
        }
        Ok(store)
    }

    /// Replays the records of `seg` into the index and adds it as the newest
    /// generation.
    fn load_segment(&mut self, seg: Segment)
        requires
            segments_match(old(self).segments@, old(self).disk@),
            index_ok(old(self).index@, old(self).contents@, old(self).disk@),
            forall|i: int|
                0 <= i < old(self).segments@.len() ==> old(self).segments@[i].gen < seg.gen,
        ensures
            segments_match(final(self).segments@, final(self).disk@),
            index_ok(final(self).index@, final(self).contents@, final(self).disk@),
            final(self).segments@ == old(self).segments@.push(seg),
            final(self).disk@ == old(self).disk@.insert(seg.gen, seg.data@),
            (final(self).contents@, final(self).uncompacted) == replay_bytes(
                old(self).contents@,
                old(self).uncompacted,
                seg.data@,
                0,
            ),
            final(self).pending == old(self).pending,
            final(self).current_gen == old(self).current_gen,
            live_len(old(self).index@) + old(self).uncompacted <= total_len(old(self).segments@)
                ==> live_len(final(self).index@) + final(self).uncompacted <= total_len(
                final(self).segments@,
            ),
    {
        let gen = seg.gen;
        let ghost base = total_len(self.segments@) as int - live_len(self.index@) - self.uncompacted;
        let ghost segs0 = self.segments@;
        let ghost d0 = self.disk@;
        let ghost b = seg.data@;
        proof {
            if d0.contains_key(gen) {
                let i = choose|i: int| 0 <= i < segs0.len() && segs0[i].gen == gen;
                assert(segs0[i].gen < gen);
            }
            lemma_index_ok_grow(self.index@, self.contents@, d0, gen, b);
        }
        self.disk = Ghost(d0.insert(gen, b));
        let ghost target = replay_bytes(self.contents@, self.uncompacted, b, 0);
        let n = seg.data.len();
        let mut at: usize = 0;
        while at < n
            invariant
                at <= n == b.len(),
                seg.data@ == b,
                seg.gen == gen,
                self.disk@ == d0.insert(gen, b),
                index_ok(self.index@, self.contents@, self.disk@),
                replay_bytes(self.contents@, self.uncompacted, b, at as int) == target,
                self.segments@ == segs0,
                self.pending == old(self).pending,
                self.current_gen == old(self).current_gen,
                base == total_len(segs0) as int - live_len(old(self).index@) - old(self).uncompacted,
                live_len(self.index@) + self.uncompacted <= total_len(segs0) - base + at,
            decreases n - at,
        {
            match decode(seg.data.as_slice(), at) {
                Some((Command::Put { key, value }, end)) => {
                    proof {
                        assert(has_at(b, at as int, set_record(key@, value@)));
                        let (k, v) = choose|k: Seq<char>, v: Seq<char>|
                            has_at(b, at as int, set_record(k, v));
                        assert(has_at(b, at as int, set_record(k, v)));
                        assert(k == key@ && v == value@);
                    }
                    let p = CommandPos { gen, pos: at as u64, len: (end - at) as u64 };
                    self.index_put(key, Ghost(value@), p);
                    at = end;
                },
                Some((Command::Remove { key }, end)) => {
                    proof {
                        assert(has_at(b, at as int, remove_record(key@)));
                        assert forall|k: Seq<char>, v: Seq<char>|
                            !#[trigger] has_at(b, at as int, set_record(k, v)) by {}
                        let k = choose|k: Seq<char>| has_at(b, at as int, remove_record(k));
                        assert(has_at(b, at as int, remove_record(k)));
                        assert(k == key@);
                    }
                    self.index_remove(&key);
                    self.uncompacted = self.uncompacted.saturating_add((end - at) as u64);
                    at = end;
                },
                None => {
                    proof {
                        assert forall|k: Seq<char>, v: Seq<char>|
                            !#[trigger] has_at(b, at as int, set_record(k, v)) by {}
                        assert forall|k: Seq<char>| !#[trigger] has_at(b, at as int, remove_record(k)) by {}
                    }
                    at = n;
                },
            }
        }
        self.segments.push(seg);
        proof {
            let segs = self.segments@;
            let d = self.disk@;
            assert(segs.drop_last() =~= segs0);
            assert forall|i: int, j: int| 0 <= i < j < segs.len() implies segs[i].gen
                < segs[j].gen by {
                if j == segs.len() - 1 {
                    assert(segs[i] == segs0[i]);
                } else {
                    assert(segs[i] == segs0[i] && segs[j] == segs0[j]);
                }
            }
            assert forall|i: int| 0 <= i < segs.len() implies #[trigger] d.contains_key(segs[i].gen)
                && d[segs[i].gen] == segs[i].data@ by {
                if i < segs.len() - 1 {
                    assert(segs[i] == segs0[i]);
                    assert(segs0[i].gen < gen);
                }
            }
            assert forall|g: u64| #[trigger] d.contains_key(g) implies exists|i: int|
                0 <= i < segs.len() && segs[i].gen == g by {
                if g == gen {
                    assert(segs[segs.len() - 1].gen == g);
                } else {
                    let i = choose|i: int| 0 <= i < segs0.len() && segs0[i].gen == g;
                    assert(segs[i].gen == g);
                }
            }
        }
    }

    /// Appends `rec` to the write generation, queuing the same append;
    /// returns the offset at which it starts.
    fn append_record(&mut self, rec: Vec<u8>) -> (pos: u64)
        requires
            old(self).wf(),
        ensures
            pos == old(self).disk()[old(self).current_gen].len(),
            final(self).disk() == old(self).disk().insert(
                old(self).current_gen,
                old(self).disk()[old(self).current_gen] + rec@,
            ),
            segments_match(final(self).segments@, final(self).disk()),
            final(self).segments@.len() == old(self).segments@.len(),
            final(self).segments@.last().gen == old(self).current_gen,
            final(self).segments@.drop_last() == old(self).segments@.drop_last(),
            final(self).segments@.last().data@ == old(self).segments@.last().data@ + rec@,
            total_len(final(self).segments@) == total_len(old(self).segments@) + rec@.len(),
            final(self).index == old(self).index,
            final(self).current_gen == old(self).current_gen,
            final(self).uncompacted == old(self).uncompacted,
            final(self).contents == old(self).contents,
            KvStore::emitted(old(self), final(self)),
    {
        let ghost d0 = self.disk@;
        let gen = self.current_gen;
        let copy = copy_bytes(&rec);
        let mut rec = rec;
        let mut seg = self.segments.pop().unwrap();
        let ghost last = self.segments@.len() as int;
        let pos = seg.data.len() as u64;
        seg.data.append(&mut rec);
        self.segments.push(seg);
        let ghost before = *self;
        self.emit(LogAction::Append { gen, bytes: copy });
        proof {
            let segs = self.segments@;
            assert(segs.drop_last() =~= old(self).segments@.drop_last());
            assert(old(self).pending() == before.pending());
            assert(old(self).disk() == before.disk());
            assert forall|i: int|
                0 <= i < segs.len() implies #[trigger] self.disk@.contains_key(segs[i].gen)
                && self.disk@[segs[i].gen] == segs[i].data@ by {
                if i < last {
                    assert(segs[i] == old(self).segments@[i]);
                    assert(old(self).segments@[i].gen < old(self).segments@[last].gen);
                    assert(d0.contains_key(old(self).segments@[i].gen));
                } else {
                    assert(d0.contains_key(old(self).segments@[last].gen));
                }
            }
            assert forall|g: u64| #[trigger] self.disk@.contains_key(g) implies exists|i: int|
                0 <= i < segs.len() && segs[i].gen == g by {
                if g != gen {
                    let i = choose|i: int|
                        0 <= i < old(self).segments@.len() && old(self).segments@[i].gen == g;
                    assert(segs[i].gen == g);
                } else {
                    assert(segs[last].gen == g);
                }
            }
            assert forall|i: int, j: int| 0 <= i < j < segs.len() implies segs[i].gen
                < segs[j].gen by {
                assert(segs[i].gen == old(self).segments@[i].gen);
                assert(segs[j].gen == old(self).segments@[j].gen);
            }
        }
        pos
    }

    /// Copies the live records, in index order, into the bytes of a new
    /// generation `cg`, and builds the index that points into it.
    fn rewrite_live(&self, cg: u64) -> (r: (Vec<u8>, Vec<(String, CommandPos)>))
        requires
            self.wf(),
        ensures
            r.1@.len() == self.index@.len(),
            forall|m: int| 0 <= m < r.1@.len() ==> r.1@[m].0@ == self.index@[m].0@,
            forall|m: int|
                0 <= m < r.1@.len() ==> #[trigger] r.1@[m].1.gen == cg && r.1@[m].1.len
                    == set_record(r.1@[m].0@, self@[r.1@[m].0@]).len() && has_at(
                    r.0@,
                    r.1@[m].1.pos as int,
                    set_record(r.1@[m].0@, self@[r.1@[m].0@]),
                ),
            full_parse(r.0@, 0),
            r.0@.len() == live_len(self.index@),
            replay_bytes(Map::empty(), 0, r.0@, 0) == (self@, 0u64),
    {
        let ghost c = self.contents@;
        let ghost d0 = self.disk@;
        let mut data: Vec<u8> = Vec::new();
        let mut new_index: Vec<(String, CommandPos)> = Vec::new();
        let mut i: usize = 0;
        while i < self.index.len()
            invariant
                self.wf(),
                self.contents@ == c,
                self.disk@ == d0,
                0 <= i <= self.index@.len(),
                full_parse(data@, 0),
                data@.len() == live_len(new_index@),
                forall|m: int| 0 <= m < i ==> new_index@[m].1.len == self.index@[m].1.len,
                replay_bytes(Map::empty(), 0, data@, 0).1 == 0,
                forall|q: Seq<char>|
                    #[trigger] replay_bytes(Map::empty(), 0, data@, 0).0.contains_key(q) <==> exists|
                        m: int,
                    | 0 <= m < i && self.index@[m].0@ == q,
                forall|q: Seq<char>|
                    #[trigger] replay_bytes(Map::empty(), 0, data@, 0).0.contains_key(q)
                        ==> replay_bytes(Map::empty(), 0, data@, 0).0[q] == c[q],
                new_index@.len() == i,
                forall|m: int| 0 <= m < i ==> new_index@[m].0@ == self.index@[m].0@,
                forall|m: int|
                    0 <= m < i ==> #[trigger] new_index@[m].1.gen == cg && new_index@[m].1.len
                        == set_record(new_index@[m].0@, c[new_index@[m].0@]).len() && has_at(
                        data@,
                        new_index@[m].1.pos as int,
                        set_record(new_index@[m].0@, c[new_index@[m].0@]),
                    ),
            decreases self.index@.len() - i,
        {
            let key = self.index[i].0.clone();
            let p = self.index[i].1;
            proof {
                assert(entry_ok(self.index@[i as int].0@, p, c, d0));
            }
            let js = self.find_segment(p.gen);
            proof {
                if js is None {
                    let jj = choose|jj: int|
                        0 <= jj < self.segments@.len() && self.segments@[jj].gen == p.gen;
                    assert(self.segments@[jj].gen != p.gen);
                }
            }
            let j = js.unwrap();
            let n = self.segments[j].data.len();
            assert(p.pos + p.len <= n);
            let start = data.len() as u64;
            let ghost data0 = data@;
            let ghost rec = set_record(key@, c[key@]);
            copy_range(&mut data, &self.segments[j].data, p.pos as usize, (p.pos + p.len) as usize);
            proof {
                assert(data@.subrange(start as int, start + p.len) =~= rec);
                assert(data0 + rec =~= data@);
                assert(data.len() == data@.len());
                let k = key@;
                let r0 = replay_bytes(Map::empty(), 0, data0, 0);
                lemma_replay_append(Map::empty(), 0, data0, 0, rec, true, k, c[k]);
                if r0.0.contains_key(k) {
                    let m = choose|m: int| 0 <= m < i && self.index@[m].0@ == k;
                    assert(self.index@[m].0@ != self.index@[i as int].0@);
                }
                let r1 = replay_bytes(Map::empty(), 0, data@, 0);
                assert(r1.1 == 0);
                assert forall|q: Seq<char>| #[trigger] r1.0.contains_key(q) <==> exists|m: int|
                    0 <= m < i + 1 && self.index@[m].0@ == q by {
                    if q == k {
                        assert(self.index@[i as int].0@ == q);
                    }
                    if exists|m: int| 0 <= m < i + 1 && self.index@[m].0@ == q {
                        let m = choose|m: int| 0 <= m < i + 1 && self.index@[m].0@ == q;
                        if m < i {
                            assert(r0.0.contains_key(q));
                        }
                    }
                }
                assert forall|m: int| 0 <= m < i implies #[trigger] new_index@[m].1.gen == cg
                    && new_index@[m].1.len == set_record(new_index@[m].0@, c[new_index@[m].0@]).len()
                    && has_at(
                    data@,
                    new_index@[m].1.pos as int,
                    set_record(new_index@[m].0@, c[new_index@[m].0@]),
                ) by {
                    assert(new_index@[m].1.gen == cg);
                    lemma_has_at_extend(
                        data0,
                        rec,
                        new_index@[m].1.pos as int,
                        set_record(new_index@[m].0@, c[new_index@[m].0@]),
                    );
                    assert(data0 + rec == data@);
                }
            }
            let ghost ni0 = new_index@;
            new_index.push((key, CommandPos { gen: cg, pos: start, len: p.len }));
            assert(new_index@.drop_last() =~= ni0);
            i = i + 1;
        }
        proof {
            let r = replay_bytes(Map::empty(), 0, data@, 0);
            assert forall|q: Seq<char>| #[trigger] r.0.contains_key(q) <==> c.contains_key(q) by {
                if r.0.contains_key(q) {
                    let m = choose|m: int| 0 <= m < i && self.index@[m].0@ == q;
                    assert(entry_ok(self.index@[m].0@, self.index@[m].1, c, d0));
                }
                if c.contains_key(q) {
                    let m = choose|m: int| 0 <= m < self.index@.len() && self.index@[m].0@ == q;
                    assert(0 <= m < i && self.index@[m].0@ == q);
                }
            }
            assert(r.0 =~= c);
            lemma_live_len_same(new_index@, self.index@);
        }
        (data, new_index)
    }

    /// Rewrites the live records into generation `current + 1`, moves
    /// writes to the empty generation `current + 2`, and deletes every older
    /// generation.
    fn compact_log(&mut self)
        requires
            old(self).wf(),
            old(self).current_gen < u64::MAX - 2,
        ensures
            final(self).wf(),
            final(self)@ == old(self)@,
            final(self).current_gen == old(self).current_gen + 2,
            final(self).uncompacted == 0,
            final(self).disk().dom() == set![
                (old(self).current_gen + 1) as u64,
                (old(self).current_gen + 2) as u64,
            ],
            final(self).disk()[(old(self).current_gen + 2) as u64] == Seq::<u8>::empty(),
            total_len(final(self).segments@) + old(self).uncompacted <= total_len(
                old(self).segments@,
            ),
            KvStore::emitted(old(self), final(self)),
    {
        let cg = self.current_gen + 1;
        let wg = self.current_gen + 2;
        let ghost c = self.contents@;
        let ghost d0 = self.disk@;
        let ghost segs0 = self.segments@;
        let (data, new_index) = self.rewrite_live(cg);
        proof {
            assert forall|g: u64| #[trigger] d0.contains_key(g) implies g <= old(self).current_gen by {
                let t = choose|t: int| 0 <= t < segs0.len() && segs0[t].gen == g;
                if t < segs0.len() - 1 {
                    assert(segs0[t].gen < segs0[segs0.len() - 1].gen);
                }
            }
        }
        self.emit(LogAction::Append { gen: wg, bytes: Vec::new() });
        let copy = copy_bytes(&data);
        let ghost before = *self;
        self.emit(LogAction::Append { gen: cg, bytes: copy });
        proof {
            KvStore::lemma_emitted_trans(old(self), &before, self);
        }
        let mut s: usize = 0;
        while s < self.segments.len()
            invariant
                self.segments@ == segs0,
                segments_match(segs0, d0),
                self.contents@ == c,
                cg == old(self).current_gen + 1,
                wg == old(self).current_gen + 2,
                new_index@.len() == old(self).index@.len(),
                forall|m: int|
                    0 <= m < new_index@.len() ==> new_index@[m].0@ == old(self).index@[m].0@,
                full_parse(data@, 0),
                data@.len() == live_len(old(self).index@),
                replay_bytes(Map::empty(), 0, data@, 0).1 == 0,
                replay_bytes(Map::empty(), 0, data@, 0).0 == c,
                forall|m: int|
                    0 <= m < new_index@.len() ==> #[trigger] new_index@[m].1.gen == cg
                        && new_index@[m].1.len == set_record(new_index@[m].0@, c[new_index@[m].0@]).len()
                        && has_at(
                        data@,
                        new_index@[m].1.pos as int,
                        set_record(new_index@[m].0@, c[new_index@[m].0@]),
                    ),
                0 <= s <= segs0.len(),
                KvStore::emitted(old(self), self),
                forall|g: u64| #[trigger] d0.contains_key(g) ==> g <= old(self).current_gen,
                self.disk@.contains_key(wg) && self.disk@[wg] == Seq::<u8>::empty(),
                self.disk@.contains_key(cg) && self.disk@[cg] == data@,
                forall|g: u64|
                    #[trigger] self.disk@.contains_key(g) <==> (g == wg || g == cg || (
                    d0.contains_key(g) && forall|t: int| 0 <= t < s ==> segs0[t].gen != g)),
            decreases segs0.len() - s,
        {
            let g = self.segments[s].gen;
            assert(g <= old(self).current_gen) by {
                assert(d0.contains_key(segs0[s as int].gen));
            }
            let ghost before = *self;
            self.emit(LogAction::Delete { gen: g });
            proof {
                KvStore::lemma_emitted_trans(old(self), &before, self);
            }
            s = s + 1;
        }
        let ghost rd = replay_bytes(Map::empty(), 0, data@, 0);
        let mut segments: Vec<Segment> = Vec::new();
        segments.push(Segment { gen: cg, data });
        segments.push(Segment { gen: wg, data: Vec::new() });
        proof {
            let segs = segments@;
            assert(replay_bytes(rd.0, rd.1, segs[1].data@, 0) == rd);
            assert(replay_segments(rd.0, rd.1, segs, 2) == rd);
            assert(replay_segments(rd.0, rd.1, segs, 1) == rd);
            assert(replay_segments(Map::empty(), 0, segs, 0) == rd);
            assert(full_parse(segs.last().data@, 0));
            assert(segs.drop_last().drop_last() =~= Seq::<Segment>::empty());
            assert(total_len(segs.drop_last().drop_last()) == 0);
            assert(segs.drop_last().last() == segs[0]);
            assert(total_len(segs.drop_last()) == segs[0].data@.len());
            assert(total_len(segs) == segs[0].data@.len());
        }
        self.segments = segments;
        self.index = new_index;
        self.current_gen = wg;
        self.uncompacted = 0;
        proof {
            let d = self.disk@;
            assert(d.dom() =~= set![cg, wg]);
            let idx = self.index@;
            assert forall|m: int| 0 <= m < idx.len() implies (#[trigger] idx[m]).1.len
                == old(self).index@[m].1.len by {
                assert(idx[m].1.gen == cg);
                assert(entry_ok(old(self).index@[m].0@, old(self).index@[m].1, c, d0));
            }
            lemma_live_len_same(idx, old(self).index@);
            assert forall|m: int| 0 <= m < idx.len() implies #[trigger] entry_ok(
                idx[m].0@,
                idx[m].1,
                c,
                d,
            ) by {
                assert(idx[m].1.gen == cg);
                assert(old(self).index@[m].0@ == idx[m].0@);
                assert(entry_ok(old(self).index@[m].0@, old(self).index@[m].1, c, d0));
            }
            assert forall|q: Seq<char>| #[trigger] c.contains_key(q) implies exists|m: int|
                0 <= m < idx.len() && idx[m].0@ == q by {
                let m = choose|m: int|
                    0 <= m < old(self).index@.len() && old(self).index@[m].0@ == q;
                assert(idx[m].0@ == q);
            }
            assert forall|a: int, b: int| 0 <= a < b < idx.len() implies idx[a].0@ != idx[b].0@ by {
                assert(old(self).index@[a].0@ == idx[a].0@);
                assert(old(self).index@[b].0@ == idx[b].0@);
            }
            let segs = self.segments@;
            assert forall|g: u64| #[trigger] d.contains_key(g) implies exists|t: int|
                0 <= t < segs.len() && segs[t].gen == g by {
                if g == cg {
                    assert(segs[0].gen == g);
                } else {
                    assert(segs[1].gen == g);
                }
            }
        }
    }

    /// Sets `key` to `value`, replacing any earlier value.
    ///
    /// The record of a replaced value counts as stale; when the stale bytes
    /// then exceed [`COMPACTION_THRESHOLD`], the log is compacted.
    pub fn set(&mut self, key: String, value: String) -> (r: Result<()>)
        requires
            old(self).wf(),
        ensures
            final(self).wf(),
            r is Ok,
            final(self)@ == old(self)@.insert(key@, value@),
            KvStore::emitted(old(self), final(self)),
            ({
                let s = old(self).stale().saturating_add(superseded(old(self)@, key@) as u64);
                if s > COMPACTION_THRESHOLD && old(self).spec_current_gen() < u64::MAX - 2 {
                    final(self).stale() == 0 && final(self).spec_current_gen()
                        == old(self).spec_current_gen() + 2
                } else {
                    final(self).stale() == s && final(self).spec_current_gen()
                        == old(self).spec_current_gen()
                }
            }),
    {
        let ghost v = value@;
        let rec = Command::set(key.clone(), value).encode();
        let len = rec.len() as u64;
        let gen = self.current_gen;
        let ghost d0 = self.disk@;
        let ghost e = d0[gen] + rec@;
        let pos = self.append_record(rec);
        proof {
            assert(e.subrange(0, d0[gen].len() as int) =~= d0[gen]);
            lemma_index_ok_grow(self.index@, self.contents@, d0, gen, e);
            assert(e.subrange(pos as int, pos + len) =~= set_record(key@, v));
        }
        let ghost k = key@;
        self.index_put(key, Ghost(v), CommandPos { gen, pos, len });
        proof {
            let segs0 = old(self).segments@;
            let segs1 = self.segments@;
            lemma_replay_segments_last(Map::empty(), 0, segs0, 0);
            lemma_replay_segments_last(Map::empty(), 0, segs1, 0);
            let p = replay_segments(Map::empty(), 0, segs0.drop_last(), 0);
            assert(segs1.last().data.len() == segs1.last().data@.len());
            lemma_replay_append(p.0, p.1, segs0.last().data@, 0, set_record(k, v), true, k, v);
        }
        if self.uncompacted > COMPACTION_THRESHOLD && self.current_gen < u64::MAX - 2 {
            let ghost before = *self;
            self.compact_log();
            proof {
                KvStore::lemma_emitted_trans(old(self), &before, self);
            }
        }
        Ok(())
    }

    /// Removes `key`. When it is not stored this fails with `KeyNotFound`
    /// and changes nothing; otherwise a `Remove` record is logged, and both
    /// the removed value's record and the `Remove` record count as stale.
    pub fn remove(&mut self, key: String) -> (r: Result<()>)
        requires
            old(self).wf(),
        ensures
            final(self).wf(),
            KvStore::emitted(old(self), final(self)),
            r is Ok <==> old(self)@.contains_key(key@),
            !old(self)@.contains_key(key@) ==> r == Err::<(), KvsError>(KvsError::KeyNotFound)
                && *final(self) == *old(self),
            old(self)@.contains_key(key@) ==> final(self)@ == old(self)@.remove(key@) && ({
                let s = old(self).stale().saturating_add(
                    superseded(old(self)@, key@) as u64,
                ).saturating_add(remove_record(key@).len() as u64);
                if s > COMPACTION_THRESHOLD && old(self).spec_current_gen() < u64::MAX - 2 {
                    final(self).stale() == 0 && final(self).spec_current_gen()
                        == old(self).spec_current_gen() + 2
                } else {
                    final(self).stale() == s && final(self).spec_current_gen()
                        == old(self).spec_current_gen()
                }
            }),
    {
        let ghost k = key@;
        let ghost c0 = self.contents@;
        match self.find_key(&key) {
            None => {
                assert(!self.contents@.contains_key(key@));
                proof {
                    self.lemma_emitted_refl();
                }
                Err(KvsError::KeyNotFound)
            },
            Some(i) => {
                proof {
                    assert(entry_ok(self.index@[i as int].0@, self.index@[i as int].1, c0, self.disk@));
                }
                let rec = Command::remove(key.clone()).encode();
                let rlen = rec.len() as u64;
                let gen = self.current_gen;
                let ghost d0 = self.disk@;
                let ghost e = d0[gen] + rec@;
                self.append_record(rec);
                proof {
                    assert(e.subrange(0, d0[gen].len() as int) =~= d0[gen]);
                    lemma_index_ok_grow(self.index@, self.contents@, d0, gen, e);
                }
                self.index_remove(&key);
                self.uncompacted = self.uncompacted.saturating_add(rlen);
                proof {
                    let segs0 = old(self).segments@;
                    let segs1 = self.segments@;
                    lemma_replay_segments_last(Map::empty(), 0, segs0, 0);
                    lemma_replay_segments_last(Map::empty(), 0, segs1, 0);
                    let p = replay_segments(Map::empty(), 0, segs0.drop_last(), 0);
                    assert(segs1.last().data.len() == segs1.last().data@.len());
                    lemma_replay_append(
                        p.0,
                        p.1,
                        segs0.last().data@,
                        0,
                        remove_record(k),
                        false,
                        k,
                        Seq::empty(),
                    );
                }
                if self.uncompacted > COMPACTION_THRESHOLD && self.current_gen < u64::MAX - 2 {
                    let ghost before = *self;
                    self.compact_log();
                    proof {
                        KvStore::lemma_emitted_trans(old(self), &before, self);
                    }
                }
                Ok(())
            },
        }
    }

    /// Compacts the log: the live records move to a new generation, writes
    /// go on in the generation after it, and every older generation is
    /// deleted, so the log shrinks by at least the stale-byte count. Fails,
    /// changing nothing, once generation numbers run out.
    pub fn compact(&mut self) -> (r: Result<()>)
        requires
            old(self).wf(),
        ensures
            final(self).wf(),
            final(self)@ == old(self)@,
            KvStore::emitted(old(self), final(self)),
            r is Ok <==> old(self).spec_current_gen() < u64::MAX - 2,
            r is Ok ==> final(self).stale() == 0 && final(self).spec_current_gen()
                == old(self).spec_current_gen() + 2 && final(self).disk().dom() == set![
                (old(self).spec_current_gen() + 1) as u64,
                (old(self).spec_current_gen() + 2) as u64,
            ] && final(self).disk()[(old(self).spec_current_gen() + 2) as u64] == Seq::<
                u8,
            >::empty(),
            r is Ok ==> total_len(final(self).log()) + old(self).stale() <= total_len(
                old(self).log(),
            ),
            r is Err ==> *final(self) == *old(self),
    {
        if self.current_gen < u64::MAX - 2 {
            self.compact_log();
            Ok(())
        } else {
            proof {
                self.lemma_emitted_refl();
            }
            Err(KvsError::Io("log generation numbers are exhausted".to_owned()))
        }
    }

    /// Hands out the queued log actions, leaving the queue empty.
    pub fn take_actions(&mut self) -> (r: Vec<LogAction>)
        requires
            old(self).wf(),
        ensures
            final(self).wf(),
            r@ == old(self).pending(),
            final(self).pending() == Seq::<LogAction>::empty(),
            final(self)@ == old(self)@,
            final(self).disk() == old(self).disk(),
            final(self).spec_current_gen() == old(self).spec_current_gen(),
            final(self).stale() == old(self).stale(),
    {
        let mut out: Vec<LogAction> = Vec::new();
        core::mem::swap(&mut self.pending, &mut out);
        out
    }

    /// The generation that writes append to.
    pub fn current_gen(&self) -> (r: u64)
        ensures
            r == self.spec_current_gen(),
    {
        self.current_gen
    }

    /// The stale-byte counter.
    pub fn uncompacted(&self) -> (r: u64)
        ensures
            r == self.stale(),
    {
        self.uncompacted
    }
}

proof fn lemma_apply_concat(d: Map<u64, Seq<u8>>, a: Seq<LogAction>, b: Seq<LogAction>)
    ensures
        apply_actions(d, a + b) == apply_actions(apply_actions(d, a), b),
    decreases b.len(),
{
    if b.len() == 0 {
        assert(a + b =~= a);
    } else {
        assert((a + b).drop_last() =~= a + b.drop_last());
        lemma_apply_concat(d, a, b.drop_last());
    }
}

/// The contents after `set` of each key/value pair of `writes` in turn.
pub open spec fn apply_sets(
    m: Map<Seq<char>, Seq<char>>,
    writes: Seq<(Seq<char>, Seq<char>)>,
) -> Map<Seq<char>, Seq<char>>
    decreases writes.len(),
{
    if writes.len() == 0 {
        m
    } else {
        apply_sets(m, writes.drop_last()).insert(writes.last().0, writes.last().1)
    }
}

/// The last write wins: after `set(k, v)` and any sets of other keys (and
/// any compactions, which leave the contents as they are), `k` maps to `v`,
/// which is what `get(k)` then returns.
pub proof fn law_round_trip(
    m: Map<Seq<char>, Seq<char>>,
    k: Seq<char>,
    v: Seq<char>,
    writes: Seq<(Seq<char>, Seq<char>)>,
)
    requires
        forall|i: int| 0 <= i < writes.len() ==> (#[trigger] writes[i]).0 != k,
    ensures
        apply_sets(m.insert(k, v), writes).contains_key(k),
        apply_sets(m.insert(k, v), writes)[k] == v,
    decreases writes.len(),
{
    if writes.len() > 0 {
        let w = writes.drop_last();
        assert forall|i: int| 0 <= i < w.len() implies (#[trigger] w[i]).0 != k by {
            assert(w[i] == writes[i]);
        }
        law_round_trip(m, k, v, w);
        assert(writes[writes.len() - 1].0 != k);
    }
}

/// A removed key is gone: after a `remove(k)` that succeeds, `get(k)`
/// returns `None`, and the other keys keep their values.
pub proof fn law_remove_then_get(m: Map<Seq<char>, Seq<char>>, k: Seq<char>, q: Seq<char>)
    requires
        m.contains_key(k),
    ensures
        !m.remove(k).contains_key(k),
        q != k ==> m.remove(k).contains_key(q) == m.contains_key(q) && m.remove(k)[q] == m[q],
{
}

/// Recovery: replaying the log of a store from its first generation to its
/// last rebuilds exactly its contents and stale count. The log is what the
/// log files hold once the queued actions are carried out, so `open` over
/// segments with the same bytes yields a store with the same contents.
pub proof fn law_recovery(s: &KvStore, segs: Seq<Segment>)
    requires
        s.wf(),
        segs.len() == s.log().len(),
        forall|i: int| 0 <= i < segs.len() ==> (#[trigger] segs[i]).data@ == s.log()[i].data@,
    ensures
        segments_match(s.log(), s.disk()),
        replay_segments(Map::empty(), 0, segs, 0) == (s@, s.stale()),
{
    lemma_replay_same_bytes(Map::empty(), 0, segs, s.log(), 0);
}

/// Compaction is transparent: a store whose contents are those of `before`
/// and whose stale count is zero, as `compact` leaves it, holds a log whose
/// replay gives the same contents and counts no stale bytes at all.
pub proof fn law_compaction(before: &KvStore, after: &KvStore)
    requires
        before.wf(),
        after.wf(),
        after@ == before@,
        after.stale() == 0,
    ensures
        replay_segments(Map::empty(), 0, after.log(), 0) == (before@, 0u64),
{
}

/// Writes to different keys commute: whichever order the lock that
/// serializes them lets two `set`s or `remove`s of different keys run in,
/// the contents end up the same, so interleaving requests on disjoint keys
/// gives the contents of running them one after another.
pub proof fn law_disjoint_writes_commute(
    m: Map<Seq<char>, Seq<char>>,
    k1: Seq<char>,
    v1: Seq<char>,
    k2: Seq<char>,
    v2: Seq<char>,
)
    requires
        k1 != k2,
    ensures
        m.insert(k1, v1).insert(k2, v2) == m.insert(k2, v2).insert(k1, v1),
        m.insert(k1, v1).remove(k2) == m.remove(k2).insert(k1, v1),
        m.remove(k1).remove(k2) == m.remove(k2).remove(k1),
{
    assert(m.insert(k1, v1).insert(k2, v2) =~= m.insert(k2, v2).insert(k1, v1));
    assert(m.insert(k1, v1).remove(k2) =~= m.remove(k2).insert(k1, v1));
    assert(m.remove(k1).remove(k2) =~= m.remove(k2).remove(k1));
}

} // verus!
