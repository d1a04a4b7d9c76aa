//! The state of a log-structured store that lives in memory: the index, the
//! active generation and the count that triggers compaction. Segment bytes
//! stay with the caller; the rules here say what to write, where a record
//! lies, and how a segment replays into the index.
use vstd::prelude::*;
use crate::error::KvsError;
use crate::index::{
    lemma_total_len_prefix, locators, packed, sources, total_len, KeyIndex, Locator, Transfer,
};
use crate::record::{
    encodable, encode_record, lemma_record_round_trip, parse_record, parse_record_at,
    record_bytes, str_encodable, Record, RecordView,
};

verus! {

/// Compaction runs before a `set` once this many `Set` records went to the
/// active segment since the last one.
pub const CAPACITY: u64 = 1000;

pub open spec fn is_ws(c: u8) -> bool {
    c == 32u8 || c == 9u8 || c == 10u8 || c == 13u8
}

/// `a + 1`, held at `u64::MAX`.
pub open spec fn bump(a: u64) -> u64 {
    if a < u64::MAX {
        (a + 1) as u64
    } else {
        a
    }
}

/// One record applied to the index: a `Set` points its key at the record, a
/// `Rm` drops a key that must be there.
pub open spec fn apply_record(
    m: Map<Seq<char>, Locator>,
    gen: u64,
    r: RecordView,
    pos: int,
    len: int,
) -> Result<Map<Seq<char>, Locator>, KvsError> {
    match r {
        RecordView::Put { key, value } => Ok(
            m.insert(key, Locator { gen, pos: pos as u64, len: len as u64 }),
        ),
        RecordView::Rm { key } => if m.contains_key(key) {
            Ok(m.remove(key))
        } else {
            Err(KvsError::KeyNotFound)
        },
    }
}

/// The index and the count of `Set` records after replaying `b` from `i` on,
/// starting from `m` and `u`, where the count grows only when `counted`.
pub open spec fn replay_from(
    m: Map<Seq<char>, Locator>,
    u: u64,
    counted: bool,
    gen: u64,
    b: Seq<u8>,
    i: int,
) -> Result<(Map<Seq<char>, Locator>, u64), KvsError>
    decreases b.len() - i,
{
    if i < 0 || i >= b.len() {
        Ok((m, u))
    } else if is_ws(b[i]) {
        replay_from(m, u, counted, gen, b, i + 1)
    } else {
        match parse_record_at(b, i) {
            Some((r, e)) => if i < e <= b.len() {
                match apply_record(m, gen, r, i, e - i) {
                    Ok(m2) => replay_from(
                        m2,
                        if counted && r is Put {
                            bump(u)
                        } else {
                            u
                        },
                        counted,
                        gen,
                        b,
                        e,
                    ),
                    Err(err) => Err(err),
                }
            } else {
                Err(KvsError::Parse)
            },
            None => Err(KvsError::Parse),
        }
    }
}

/// What reading `len` bytes at a locator of `k` gives.
pub open spec fn decode_value(k: Seq<char>, b: Seq<u8>) -> Result<Seq<char>, KvsError> {
    match parse_record_at(b, 0) {
        Some((RecordView::Put { key, value }, e)) => if e != b.len() {
            Err(KvsError::Parse)
        } else if key == k {
            Ok(value)
        } else {
            Err(KvsError::Integrity)
        },
        Some((RecordView::Rm { .. }, e)) => if e != b.len() {
            Err(KvsError::Parse)
        } else {
            Err(KvsError::Integrity)
        },
        None => Err(KvsError::Parse),
    }
}

/// A locator points into the segments `disk`, which maps generations to bytes.
pub open spec fn in_disk(disk: Map<u64, Seq<u8>>, l: Locator) -> bool {
    disk.contains_key(l.gen) && l.pos + l.len <= disk[l.gen].len()
}

pub open spec fn slice_of(disk: Map<u64, Seq<u8>>, l: Locator) -> Seq<u8> {
    disk[l.gen].subrange(l.pos as int, l.pos + l.len)
}

/// What `get(k)` returns on index `m` over the segments `disk`.
pub open spec fn lookup(m: Map<Seq<char>, Locator>, disk: Map<u64, Seq<u8>>, k: Seq<char>) -> Result<
    Option<Seq<char>>,
    KvsError,
> {
    if !m.contains_key(k) {
        Ok(None)
    } else if !in_disk(disk, m[k]) {
        Err(KvsError::Io)
    } else {
        match decode_value(k, slice_of(disk, m[k])) {
            Ok(v) => Ok(Some(v)),
            Err(e) => Err(e),
        }
    }
}

/// The value of `k` in the bytes of the record at its locator.
pub fn read_value(key: &String, b: &[u8]) -> (r: Result<String, KvsError>)
    ensures
        match r {
            Ok(v) => decode_value(key@, b@) == Ok::<Seq<char>, KvsError>(v@),
            Err(e) => decode_value(key@, b@) == Err::<Seq<char>, KvsError>(e),
        },
{
    match parse_record(b, 0) {
        Some((Record::Put { key: k2, value }, e)) => {
            if e != b.len() {
                Err(KvsError::Parse)
            } else if k2 == *key {
                Ok(value)
            } else {
                Err(KvsError::Integrity)
            }
        },
        Some((Record::Rm { .. }, e)) => {
            if e != b.len() {
                Err(KvsError::Parse)
            } else {
                Err(KvsError::Integrity)
            }
        },
        None => Err(KvsError::Parse),
    }
}

/// The entries after a compaction into `gen` are those before, in the same
/// order, each pointed at where its transfer copies it.
pub open spec fn relocated(
    before: Seq<(Seq<char>, Locator)>,
    after: Seq<(Seq<char>, Locator)>,
    ts: Seq<Transfer>,
    gen: u64,
) -> bool {
    &&& ts.len() == before.len()
    &&& after.len() == before.len()
    &&& packed(ts, gen)
    &&& forall|i: int|
        0 <= i < ts.len() ==> #[trigger] ts[i].from == before[i].1 && after[i] == (
            before[i].0,
            ts[i].to,
        )
}

/// The bytes of the compacted segment: the sources of the transfers, in order.
pub open spec fn copied(disk: Map<u64, Seq<u8>>, ts: Seq<Transfer>) -> Seq<u8>
    decreases ts.len(),
{
    if ts.len() == 0 {
        Seq::empty()
    } else {
        copied(disk, ts.drop_last()) + slice_of(disk, ts.last().from)
    }
}

/// The segments once a compaction into `gen` is done: the compacted segment
/// written, and every segment below it deleted.
pub open spec fn compacted_disk(disk: Map<u64, Seq<u8>>, ts: Seq<Transfer>, gen: u64) -> Map<
    u64,
    Seq<u8>,
> {
    disk.insert(gen, copied(disk, ts)).restrict(Set::new(|g: u64| g >= gen))
}

/// What a compaction asks of the segments: create segment `target_gen` and the
/// new active segment `target_gen + 1`, copy each transfer into the target,
/// then delete every segment below the target.
pub struct Compaction {
    pub target_gen: u64,
    pub transfers: Vec<Transfer>,
}

/// What a `set` asks of the segments, in order: carry out the compaction, if
/// there is one, then append `record` to the active segment, then report where
/// it went with `commit_set`.
pub struct SetStep {
    pub compaction: Option<Compaction>,
    pub record: Vec<u8>,
}

/// The index, the active generation and the uncompacted count.
pub struct LogState {
    index: KeyIndex,
    current_gen: u64,
    uncompacted: u64,
}

impl LogState {
    pub closed spec fn spec_index(&self) -> Map<Seq<char>, Locator> {
        self.index@
    }

    /// The index's entries in their stored order.
    pub closed spec fn spec_entries(&self) -> Seq<(Seq<char>, Locator)> {
        self.index.entries()
    }

    pub closed spec fn spec_gen(&self) -> u64 {
        self.current_gen
    }

    pub closed spec fn spec_uncompacted(&self) -> u64 {
        self.uncompacted
    }

    /// No locator names a generation past the active one, and each one's end
    /// fits in a `u64`.
    pub closed spec fn wf(&self) -> bool {
        &&& self.index.wf()
        &&& forall|k: Seq<char>|
            #[trigger] self.index@.contains_key(k) ==> self.index@[k].gen <= self.current_gen
                && self.index@[k].pos + self.index@[k].len <= u64::MAX
    }

    pub proof fn lemma_entries(&self)
        requires
            self.wf(),
        ensures
            forall|i: int, j: int|
                0 <= i < j < self.spec_entries().len() ==> self.spec_entries()[i].0
                    != self.spec_entries()[j].0,
            forall|i: int|
                0 <= i < self.spec_entries().len() ==> #[trigger] self.spec_index().contains_key(
                    self.spec_entries()[i].0,
                ) && self.spec_index()[self.spec_entries()[i].0] == self.spec_entries()[i].1,
            forall|k: Seq<char>|
                #[trigger] self.spec_index().contains_key(k) ==> exists|i: int|
                    0 <= i < self.spec_entries().len() && self.spec_entries()[i].0 == k,
            forall|k: Seq<char>|
                #[trigger] self.spec_index().contains_key(k) ==> self.spec_index()[k].gen
                    <= self.spec_gen(),
    {
        self.index.lemma_entries();
        assert forall|k: Seq<char>| #[trigger] self.spec_index().contains_key(k) implies exists|
            i: int,
        | 0 <= i < self.spec_entries().len() && self.spec_entries()[i].0 == k by {
            assert(self.index@.contains_key(k));
            let i = choose|i: int|
                0 <= i < self.index.entries().len() && self.index.entries()[i].0 == k;
            assert(self.spec_entries()[i].0 == k);
        }
    }

    /// An empty index whose active segment is `current_gen`.
    pub fn new(current_gen: u64) -> (r: LogState)
        ensures
            r.wf(),
            r.spec_index() == Map::<Seq<char>, Locator>::empty(),
            r.spec_gen() == current_gen,
            r.spec_uncompacted() == 0,
    {
        LogState { index: KeyIndex::new(), current_gen, uncompacted: 0 }
    }

    pub fn current_gen(&self) -> (r: u64)
        ensures
            r == self.spec_gen(),
    {
        self.current_gen
    }

    pub fn uncompacted(&self) -> (r: u64)
        ensures
            r == self.spec_uncompacted(),
    {
        self.uncompacted
    }

    /// The number of live keys.
    pub fn len(&self) -> (r: usize)
        requires
            self.wf(),
        ensures
            r == self.spec_entries().len(),
    {
        self.index.len()
    }

    /// Whether the next `set` compacts first.
    pub fn needs_compaction(&self) -> (r: bool)
        ensures
            r == (self.spec_uncompacted() >= CAPACITY),
    {
        self.uncompacted >= CAPACITY
    }

    /// Where the latest `Set` of `key` lies, if the key is live.
    pub fn locate(&self, key: &String) -> (r: Option<Locator>)
        requires
            self.wf(),
        ensures
            r == (if self.spec_index().contains_key(key@) {
                Some(self.spec_index()[key@])
            } else {
                None
            }),
    {
        self.index.get(key)
    }

    /// Records that a `Set` of `key` was appended to the active segment at
    /// `pos`, `len` bytes long.
    pub fn commit_set(&mut self, key: String, pos: u64, len: u64)
        requires
            old(self).wf(),
            pos + len <= u64::MAX,
        ensures
            final(self).wf(),
            final(self).spec_index() == old(self).spec_index().insert(
                key@,
                Locator { gen: old(self).spec_gen(), pos, len },
            ),
            final(self).spec_gen() == old(self).spec_gen(),
            final(self).spec_uncompacted() == bump(old(self).spec_uncompacted()),
    {
        let loc = Locator { gen: self.current_gen, pos, len };
        self.index.insert(key, loc);
        if self.uncompacted < u64::MAX {
            self.uncompacted = self.uncompacted + 1;
        }
    }

    /// Drops `key` from the index, before its `Rm` record is appended; fails
    /// with `KeyNotFound` where the key is not live.
    pub fn commit_remove(&mut self, key: &String) -> (r: Result<(), KvsError>)
        requires
            old(self).wf(),
        ensures
            final(self).wf(),
            r == (if old(self).spec_index().contains_key(key@) {
                Ok::<(), KvsError>(())
            } else {
                Err::<(), KvsError>(KvsError::KeyNotFound)
            }),
            final(self).spec_index() == old(self).spec_index().remove(key@),
            final(self).spec_gen() == old(self).spec_gen(),
            final(self).spec_uncompacted() == old(self).spec_uncompacted(),
    {
        if self.index.remove(key) {
            Ok(())
        } else {
            Err(KvsError::KeyNotFound)
        }
    }

    /// The first half of a `set`: compacts first where the uncompacted count
    /// has reached `CAPACITY`, and gives the bytes of the record to append.
    /// Fails with `Io`, with nothing changed, where a compaction is due but the
    /// generations or the compacted segment's size would pass `u64::MAX`.
    pub fn begin_set(&mut self, key: &String, value: &String) -> (r: Result<SetStep, KvsError>)
        requires
            old(self).wf(),
        ensures
            final(self).wf(),
            match r {
                Ok(step) => {
                    &&& step.record@ == record_bytes(RecordView::Put { key: key@, value: value@ })
                    &&& encodable(RecordView::Put { key: key@, value: value@ })
                    &&& if old(self).spec_uncompacted() < CAPACITY {
                        &&& step.compaction is None
                        &&& final(self).spec_index() == old(self).spec_index()
                        &&& final(self).spec_gen() == old(self).spec_gen()
                        &&& final(self).spec_uncompacted() == old(self).spec_uncompacted()
                    } else {
                        &&& step.compaction is Some
                        &&& step.compaction->Some_0.target_gen == old(self).spec_gen() + 1
                        &&& final(self).spec_gen() == old(self).spec_gen() + 2
                        &&& final(self).spec_uncompacted() == 0
                        &&& relocated(
                            old(self).spec_entries(),
                            final(self).spec_entries(),
                            step.compaction->Some_0.transfers@,
                            step.compaction->Some_0.target_gen,
                        )
                    }
                },
                Err(e) => {
                    &&& e == KvsError::Io
                    &&& old(self).spec_uncompacted() >= CAPACITY
                    &&& old(self).spec_gen() > u64::MAX - 2 || total_len(
                        locators(old(self).spec_entries()),
                    ) > u64::MAX
                    &&& final(self).spec_index() == old(self).spec_index()
                    &&& final(self).spec_gen() == old(self).spec_gen()
                    &&& final(self).spec_uncompacted() == old(self).spec_uncompacted()
                },
            },
    {
        let compaction = if self.uncompacted >= CAPACITY {
            if self.current_gen > u64::MAX - 2 {
                return Err(KvsError::Io);
            }
            match self.compact() {
                None => {
                    return Err(KvsError::Io);
                },
                Some(c) => Some(c),
            }
        } else {
            None
        };
        let record = encode_record(&Record::Put { key: key.clone(), value: value.clone() });
        Ok(SetStep { compaction, record })
    }

    /// The first half of a `remove`: drops `key` from the index and gives the
    /// bytes of the record to append; `KeyNotFound`, with nothing changed,
    /// where the key is not live.
    pub fn begin_remove(&mut self, key: &String) -> (r: Result<Vec<u8>, KvsError>)
        requires
            old(self).wf(),
        ensures
            final(self).wf(),
            final(self).spec_index() == old(self).spec_index().remove(key@),
            final(self).spec_gen() == old(self).spec_gen(),
            final(self).spec_uncompacted() == old(self).spec_uncompacted(),
            match r {
                Ok(b) => old(self).spec_index().contains_key(key@) && b@ == record_bytes(
                    RecordView::Rm { key: key@ },
                ),
                Err(e) => !old(self).spec_index().contains_key(key@) && e == KvsError::KeyNotFound,
            },
    {
        match self.commit_remove(key) {
            Err(e) => Err(e),
            Ok(()) => Ok(encode_record(&Record::Rm { key: key.clone() })),
        }
    }

    /// Replays the records of segment `gen`, whose bytes are `b`, into the
    /// index; `Set` records of the active segment count as uncompacted.
    pub fn replay_segment(&mut self, gen: u64, b: &[u8]) -> (r: Result<(), KvsError>)
        requires
            old(self).wf(),
            gen <= old(self).spec_gen(),
            b@.len() <= u64::MAX,
        ensures
            final(self).wf(),
            final(self).spec_gen() == old(self).spec_gen(),
            match replay_from(
                old(self).spec_index(),
                old(self).spec_uncompacted(),
                gen == old(self).spec_gen(),
                gen,
                b@,
                0,
            ) {
                Ok((m, u)) => r is Ok && final(self).spec_index() == m
                    && final(self).spec_uncompacted() == u,
                Err(e) => r == Err::<(), KvsError>(e),
            },
    {
        let counted = gen == self.current_gen;
        let n = b.len();
        let mut i: usize = 0;
        while i < n
            invariant
                n == b@.len(),
                n <= u64::MAX,
                i <= n,
                self.wf(),
                gen <= self.spec_gen(),
                self.spec_gen() == old(self).spec_gen(),
                counted == (gen == old(self).spec_gen()),
                replay_from(self.spec_index(), self.spec_uncompacted(), counted, gen, b@, i as int)
                    == replay_from(
                    old(self).spec_index(),
                    old(self).spec_uncompacted(),
                    counted,
                    gen,
                    b@,
                    0,
                ),
            decreases n - i,
        {
            let c = b[i];
            if c == 32u8 || c == 9u8 || c == 10u8 || c == 13u8 {
                i = i + 1;
            } else {
                match parse_record(b, i) {
                    None => {
                        return Err(KvsError::Parse);
                    },
                    Some((rec, e)) => {
                        let ghost rv = rec@;
                        let len = (e - i) as u64;
                        match rec {
                            Record::Put { key, value: _ } => {
                                self.commit_set_at(key, gen, i as u64, len);
                                if counted && self.uncompacted < u64::MAX {
                                    self.uncompacted = self.uncompacted + 1;
                                }
                            },
                            Record::Rm { key } => {
                                if !self.index.remove(&key) {
                                    return Err(KvsError::KeyNotFound);
                                }
                            },
                        }
                        i = e;
                    },
                }
            }
        }
        Ok(())
    }

    fn commit_set_at(&mut self, key: String, gen: u64, pos: u64, len: u64)
        requires
            old(self).wf(),
            gen <= old(self).spec_gen(),
            pos + len <= u64::MAX,
        ensures
            final(self).wf(),
            final(self).spec_index() == old(self).spec_index().insert(
                key@,
                Locator { gen, pos, len },
            ),
            final(self).spec_gen() == old(self).spec_gen(),
            final(self).spec_uncompacted() == old(self).spec_uncompacted(),
    {
        self.index.insert(key, Locator { gen, pos, len });
    }

    /// Plans a compaction: the index moves into generation `current_gen + 1`,
    /// packed, and `current_gen + 2` becomes the active segment, with nothing
    /// uncompacted. `None`, with nothing changed, where the live records
    /// together exceed `u64::MAX` bytes.
    pub fn compact(&mut self) -> (r: Option<Compaction>)
        requires
            old(self).wf(),
            old(self).spec_gen() <= u64::MAX - 2,
        ensures
            final(self).wf(),
            match r {
                None => final(self).spec_index() == old(self).spec_index()
                    && final(self).spec_entries() == old(self).spec_entries()
                    && final(self).spec_gen() == old(self).spec_gen()
                    && final(self).spec_uncompacted() == old(self).spec_uncompacted()
                    && total_len(locators(old(self).spec_entries())) > u64::MAX,
                Some(c) => {
                    &&& c.target_gen == old(self).spec_gen() + 1
                    &&& final(self).spec_gen() == old(self).spec_gen() + 2
                    &&& final(self).spec_uncompacted() == 0
                    &&& relocated(
                        old(self).spec_entries(),
                        final(self).spec_entries(),
                        c.transfers@,
                        c.target_gen,
                    )
                },
            },
    {
        let target = self.current_gen + 1;
        match self.index.relocate(target) {
            None => None,
            Some(ts) => {
                self.current_gen = self.current_gen + 2;
                self.uncompacted = 0;
                proof {
                    self.index.lemma_entries();
                    assert forall|k: Seq<char>| #[trigger] self.index@.contains_key(k) implies self.index@[k].gen
                        <= self.current_gen && self.index@[k].pos + self.index@[k].len
                        <= u64::MAX by {
                        let i = choose|i: int|
                            0 <= i < self.index.entries().len() && self.index.entries()[i].0 == k;
                        assert(ts@[i].to == self.index.entries()[i].1);
                        lemma_total_len_prefix(sources(ts@), i);
                        lemma_total_len_prefix(sources(ts@), i + 1);
                        assert(sources(ts@)[i] == ts@[i].from);
                    }
                }
                Some(Compaction { target_gen: target, transfers: ts })
            },
        }
    }
}

pub proof fn lemma_copied(disk: Map<u64, Seq<u8>>, ts: Seq<Transfer>)
    requires
        forall|i: int| 0 <= i < ts.len() ==> #[trigger] in_disk(disk, ts[i].from),
    ensures
        copied(disk, ts).len() == total_len(sources(ts)),
        forall|i: int|
            0 <= i < ts.len() ==> #[trigger] copied(disk, ts).subrange(
                total_len(sources(ts).take(i)),
                total_len(sources(ts).take(i)) + ts[i].from.len,
            ) == slice_of(disk, ts[i].from),
    decreases ts.len(),
{
    if ts.len() > 0 {
        let tp = ts.drop_last();
        assert forall|i: int| 0 <= i < tp.len() implies #[trigger] in_disk(disk, tp[i].from) by {
            assert(tp[i] == ts[i]);
        }
        lemma_copied(disk, tp);
        assert(sources(tp) =~= sources(ts).drop_last());
        let n = ts.len() - 1;
        assert(in_disk(disk, ts[n].from));
        let a = copied(disk, tp);
        let b = slice_of(disk, ts.last().from);
        assert forall|i: int| 0 <= i < ts.len() implies #[trigger] copied(disk, ts).subrange(
            total_len(sources(ts).take(i)),
            total_len(sources(ts).take(i)) + ts[i].from.len,
        ) == slice_of(disk, ts[i].from) by {
            if i < n {
                assert(sources(ts).take(i) =~= sources(tp).take(i));
                assert(tp[i] == ts[i]);
                lemma_total_len_prefix(sources(tp), i);
                lemma_total_len_prefix(sources(tp), i + 1);
                assert(sources(tp)[i] == tp[i].from);
                assert((a + b).subrange(
                    total_len(sources(tp).take(i)),
                    total_len(sources(tp).take(i)) + tp[i].from.len,
                ) =~= a.subrange(
                    total_len(sources(tp).take(i)),
                    total_len(sources(tp).take(i)) + tp[i].from.len,
                ));
            } else {
                assert(sources(ts).take(i) =~= sources(tp));
                assert((a + b).subrange(a.len() as int, (a.len() + b.len()) as int) =~= b);
            }
        }
    }
}

/// Compaction keeps every read: on the segments that a compaction leaves, each
/// key reads what it read before, provided that every live record could be
/// read before.
pub proof fn lemma_compaction_preserves_reads(
    before: LogState,
    after: LogState,
    ts: Seq<Transfer>,
    gen: u64,
    disk: Map<u64, Seq<u8>>,
)
    requires
        before.wf(),
        after.wf(),
        relocated(before.spec_entries(), after.spec_entries(), ts, gen),
        forall|k: Seq<char>|
            #[trigger] before.spec_index().contains_key(k) ==> in_disk(
                disk,
                before.spec_index()[k],
            ),
    ensures
        forall|k: Seq<char>|
            #[trigger] lookup(after.spec_index(), compacted_disk(disk, ts, gen), k) == lookup(
                before.spec_index(),
                disk,
                k,
            ),
{
    before.lemma_entries();
    after.lemma_entries();
    let es = before.spec_entries();
    let fs = after.spec_entries();
    assert forall|i: int| 0 <= i < ts.len() implies #[trigger] in_disk(disk, ts[i].from) by {
        assert(before.spec_index().contains_key(es[i].0));
    }
    lemma_copied(disk, ts);
    let nd = compacted_disk(disk, ts, gen);
    assert forall|k: Seq<char>|
        #[trigger] lookup(after.spec_index(), nd, k) == lookup(before.spec_index(), disk, k) by {
        if before.spec_index().contains_key(k) {
            let i = choose|i: int| 0 <= i < es.len() && es[i].0 == k;
            assert(fs[i] == (k, ts[i].to));
            assert(after.spec_index().contains_key(fs[i].0));
            assert(ts[i].to == (Locator {
                gen,
                pos: total_len(sources(ts).take(i)) as u64,
                len: ts[i].from.len,
            }));
            lemma_total_len_prefix(sources(ts), i);
            lemma_total_len_prefix(sources(ts), i + 1);
            assert(sources(ts)[i] == ts[i].from);
            assert(nd.contains_key(gen));
            assert(nd[gen] == copied(disk, ts));
            assert(slice_of(nd, ts[i].to) == slice_of(disk, ts[i].from));
        } else if after.spec_index().contains_key(k) {
            let i = choose|i: int| 0 <= i < fs.len() && fs[i].0 == k;
            assert(ts[i].from == es[i].1);
            assert(fs[i].0 == es[i].0);
            assert(before.spec_index().contains_key(es[i].0));
        }
    }
}

/// A read right after a set gives the value set: once the record of
/// `Set{key, value}` is appended to segment `gen` and the key points at it,
/// the key reads `value`.
pub proof fn lemma_get_after_set(
    m: Map<Seq<char>, Locator>,
    disk: Map<u64, Seq<u8>>,
    gen: u64,
    key: Seq<char>,
    value: Seq<char>,
)
    requires
        str_encodable(key),
        str_encodable(value),
        disk.contains_key(gen),
        disk[gen].len() + record_bytes(RecordView::Put { key, value }).len() <= u64::MAX,
    ensures
        ({
            let b = disk[gen];
            let rb = record_bytes(RecordView::Put { key, value });
            lookup(
                m.insert(key, Locator { gen, pos: b.len() as u64, len: rb.len() as u64 }),
                disk.insert(gen, b + rb),
                key,
            ) == Ok::<Option<Seq<char>>, KvsError>(Some(value))
        }),
{
    let r = RecordView::Put { key, value };
    let b = disk[gen];
    let rb = record_bytes(r);
    lemma_record_round_trip(Seq::empty(), r, Seq::empty());
    assert(Seq::<u8>::empty() + rb + Seq::<u8>::empty() =~= rb);
    assert((b + rb).subrange(b.len() as int, (b.len() + rb.len()) as int) =~= rb);
}

/// A set changes no other key's read: where every locator of `m` lies within
/// the segments, appending a record to segment `gen` and pointing `key` at it
/// leaves every other key reading what it read before.
pub proof fn lemma_set_keeps_other_reads(
    m: Map<Seq<char>, Locator>,
    disk: Map<u64, Seq<u8>>,
    gen: u64,
    key: Seq<char>,
    rb: Seq<u8>,
    other: Seq<char>,
)
    requires
        disk.contains_key(gen),
        forall|k: Seq<char>| #[trigger] m.contains_key(k) ==> in_disk(disk, m[k]),
        other != key,
    ensures
        ({
            let b = disk[gen];
            lookup(
                m.insert(key, Locator { gen, pos: b.len() as u64, len: rb.len() as u64 }),
                disk.insert(gen, b + rb),
                other,
            ) == lookup(m, disk, other)
        }),
{
    if m.contains_key(other) {
        let l = m[other];
        assert(in_disk(disk, l));
        if l.gen == gen {
            let b = disk[gen];
            assert((b + rb).subrange(l.pos as int, l.pos + l.len) =~= b.subrange(
                l.pos as int,
                l.pos + l.len,
            ));
        }
    }
}

/// After a successful remove the key reads as absent.
pub proof fn lemma_get_after_remove(
    m: Map<Seq<char>, Locator>,
    disk: Map<u64, Seq<u8>>,
    key: Seq<char>,
)
    ensures
        lookup(m.remove(key), disk, key) == Ok::<Option<Seq<char>>, KvsError>(None),
{
}

/// Compaction reclaims space: the segments it leaves are the compacted one and
/// those above it, and the compacted one holds exactly one record per live
/// key, so its size is the sum of the live records' sizes.
pub proof fn lemma_compaction_size(
    before: LogState,
    after: LogState,
    ts: Seq<Transfer>,
    gen: u64,
    disk: Map<u64, Seq<u8>>,
)
    requires
        before.wf(),
        relocated(before.spec_entries(), after.spec_entries(), ts, gen),
        forall|k: Seq<char>|
            #[trigger] before.spec_index().contains_key(k) ==> in_disk(
                disk,
                before.spec_index()[k],
            ),
    ensures
        compacted_disk(disk, ts, gen)[gen].len() == total_len(locators(before.spec_entries())),
        ts.len() == before.spec_entries().len(),
        forall|g: u64| #[trigger] compacted_disk(disk, ts, gen).contains_key(g) ==> g >= gen,
{
    before.lemma_entries();
    let es = before.spec_entries();
    assert forall|i: int| 0 <= i < ts.len() implies #[trigger] in_disk(disk, ts[i].from) by {
        assert(ts[i].from == es[i].1);
        assert(before.spec_index().contains_key(es[i].0));
    }
    lemma_copied(disk, ts);
    assert forall|i: int| 0 <= i < ts.len() implies #[trigger] sources(ts)[i] == locators(es)[i] by {
        assert(ts[i].from == es[i].1);
    }
    assert(sources(ts) =~= locators(es));
}

/// The record at `l`, parsed where it stands in its segment, is a `Set` of
/// `k` that ends exactly `l.len` bytes after it starts.
pub open spec fn set_record_at(disk: Map<u64, Seq<u8>>, l: Locator, k: Seq<char>) -> bool {
    &&& disk.contains_key(l.gen)
    &&& match parse_record_at(disk[l.gen], l.pos as int) {
        Some((RecordView::Put { key, .. }, e)) => key == k && e == l.pos + l.len,
        _ => false,
    }
}

/// Every locator of `m` points at a `Set` record of its own key.
pub open spec fn locates_sets(m: Map<Seq<char>, Locator>, disk: Map<u64, Seq<u8>>) -> bool {
    forall|k: Seq<char>| #[trigger] m.contains_key(k) ==> set_record_at(disk, m[k], k)
}

/// Replay keeps every locator on a `Set` record of its key: where that holds
/// of the index before segment `gen` replays, it holds of the index after.
pub proof fn lemma_replay_locates_sets(
    m: Map<Seq<char>, Locator>,
    u: u64,
    counted: bool,
    gen: u64,
    disk: Map<u64, Seq<u8>>,
    i: int,
)
    requires
        0 <= i,
        disk.contains_key(gen),
        disk[gen].len() <= u64::MAX,
        locates_sets(m, disk),
    ensures
        replay_from(m, u, counted, gen, disk[gen], i) is Ok ==> locates_sets(
            replay_from(m, u, counted, gen, disk[gen], i)->Ok_0.0,
            disk,
        ),
    decreases disk[gen].len() - i,
{
    let b = disk[gen];
    if i < b.len() {
        if is_ws(b[i]) {
            lemma_replay_locates_sets(m, u, counted, gen, disk, i + 1);
        } else {
            match parse_record_at(b, i) {
                Some((r, e)) => {
                    if i < e <= b.len() {
                        match apply_record(m, gen, r, i, e - i) {
                            Ok(m2) => {
                                assert forall|k: Seq<char>| #[trigger] m2.contains_key(k) implies set_record_at(
                                    disk,
                                    m2[k],
                                    k,
                                ) by {
                                    if !(r is Put && r->Put_key == k) {
                                        assert(m.contains_key(k));
                                    }
                                }
                                let u2 = if counted && r is Put {
                                    bump(u)
                                } else {
                                    u
                                };
                                lemma_replay_locates_sets(m2, u2, counted, gen, disk, e);
                            },
                            Err(_) => {},
                        }
                    }
                },
                None => {},
            }
        }
    }
}

} // verus!
