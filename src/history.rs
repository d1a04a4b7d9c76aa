//! Persistence: what segments written by sequences of mutations replay to.
use vstd::prelude::*;
use crate::error::KvsError;
use crate::index::{Locator, Transfer};
use crate::record::{
    encodable, lemma_record_round_trip, parse_record_at, record_bytes, rm_head, set_head,
    RecordView,
};
use crate::state::{
    apply_record, bump, copied, in_disk, is_ws, lookup, relocated, replay_from, slice_of, LogState,
};

verus! {

/// The values that a sequence of mutations leaves when applied to `v0`, or
/// `None` where one of its removals finds its key absent, which is to say that
/// it did not succeed.
pub open spec fn history_on(v0: Map<Seq<char>, Seq<char>>, s: Seq<RecordView>) -> Option<
    Map<Seq<char>, Seq<char>>,
>
    decreases s.len(),
{
    if s.len() == 0 {
        Some(v0)
    } else {
        match history_on(v0, s.drop_last()) {
            Some(m) => match s.last() {
                RecordView::Put { key, value } => Some(m.insert(key, value)),
                RecordView::Rm { key } => if m.contains_key(key) {
                    Some(m.remove(key))
                } else {
                    None
                },
            },
            None => None,
        }
    }
}

/// The values that a sequence of mutations leaves on an empty store.
pub open spec fn apply_history(s: Seq<RecordView>) -> Option<Map<Seq<char>, Seq<char>>> {
    history_on(Map::empty(), s)
}

/// The bytes of the records of `s`, one after the other.
pub open spec fn log_of(s: Seq<RecordView>) -> Seq<u8>
    decreases s.len(),
{
    if s.len() == 0 {
        Seq::empty()
    } else {
        log_of(s.drop_last()) + record_bytes(s.last())
    }
}

/// The index that the records of `s`, in segment `gen`, build on `m0`.
pub open spec fn replayed_on(m0: Map<Seq<char>, Locator>, s: Seq<RecordView>, gen: u64) -> Map<
    Seq<char>,
    Locator,
>
    decreases s.len(),
{
    if s.len() == 0 {
        m0
    } else {
        let m = replayed_on(m0, s.drop_last(), gen);
        let pos = log_of(s.drop_last()).len();
        let len = record_bytes(s.last()).len();
        match s.last() {
            RecordView::Put { key, .. } => m.insert(
                key,
                Locator { gen, pos: pos as u64, len: len as u64 },
            ),
            RecordView::Rm { key } => m.remove(key),
        }
    }
}

/// The uncompacted count after the records of `s`, from `u0`: each `Set`
/// bumps it where `counted`.
pub open spec fn put_count(u0: u64, s: Seq<RecordView>, counted: bool) -> u64
    decreases s.len(),
{
    if s.len() == 0 {
        u0
    } else if counted && s.last() is Put {
        bump(put_count(u0, s.drop_last(), counted))
    } else {
        put_count(u0, s.drop_last(), counted)
    }
}

/// Under index `m`, over segments `disk`, every key reads its value in `vals`,
/// and a key without one reads as absent.
pub open spec fn reads(
    m: Map<Seq<char>, Locator>,
    disk: Map<u64, Seq<u8>>,
    vals: Map<Seq<char>, Seq<char>>,
) -> bool {
    forall|k: Seq<char>|
        #[trigger] lookup(m, disk, k) == Ok::<Option<Seq<char>>, KvsError>(
            if vals.contains_key(k) {
                Some(vals[k])
            } else {
                None
            },
        )
}

/// What replaying onto `m0` needs of it: its keys are those of `v0`, and none
/// of its locators is in segment `gen`.
pub open spec fn replay_base(
    m0: Map<Seq<char>, Locator>,
    v0: Map<Seq<char>, Seq<char>>,
    gen: u64,
) -> bool {
    &&& forall|k: Seq<char>| #[trigger] m0.contains_key(k) == v0.contains_key(k)
    &&& forall|k: Seq<char>| #[trigger] m0.contains_key(k) ==> m0[k].gen != gen
}

proof fn lemma_log_prefix(s: Seq<RecordView>, j: int)
    requires
        0 <= j <= s.len(),
    ensures
        log_of(s.take(j)).len() <= log_of(s).len(),
        log_of(s).subrange(0, log_of(s.take(j)).len() as int) == log_of(s.take(j)),
    decreases s.len(),
{
    if j == s.len() {
        assert(s.take(j) =~= s);
        assert(log_of(s).subrange(0, log_of(s).len() as int) =~= log_of(s));
    } else {
        let sp = s.drop_last();
        lemma_log_prefix(sp, j);
        assert(sp.take(j) =~= s.take(j));
        let a = log_of(sp);
        let b = record_bytes(s.last());
        assert((a + b).subrange(0, log_of(s.take(j)).len() as int) =~= a.subrange(
            0,
            log_of(s.take(j)).len() as int,
        ));
    }
}

proof fn lemma_history_prefix(v0: Map<Seq<char>, Seq<char>>, s: Seq<RecordView>, j: int)
    requires
        0 <= j <= s.len(),
        history_on(v0, s) is Some,
    ensures
        history_on(v0, s.take(j)) is Some,
    decreases s.len(),
{
    if j == s.len() {
        assert(s.take(j) =~= s);
    } else {
        lemma_history_prefix(v0, s.drop_last(), j);
        assert(s.drop_last().take(j) =~= s.take(j));
    }
}

/// Each key of the replayed index either points, in segment `gen`, at a `Set`
/// record of it that carries the value the history left it, or kept its
/// locator and value from before; and the index has exactly the keys that
/// have values.
proof fn lemma_replayed_locates(
    m0: Map<Seq<char>, Locator>,
    v0: Map<Seq<char>, Seq<char>>,
    s: Seq<RecordView>,
    gen: u64,
)
    requires
        replay_base(m0, v0, gen),
        forall|i: int| 0 <= i < s.len() ==> encodable(#[trigger] s[i]),
        history_on(v0, s) is Some,
        log_of(s).len() <= u64::MAX,
    ensures
        forall|k: Seq<char>|
            #[trigger] replayed_on(m0, s, gen).contains_key(k) == history_on(
                v0,
                s,
            )->Some_0.contains_key(k),
        forall|k: Seq<char>|
            #[trigger] replayed_on(m0, s, gen).contains_key(k) ==> {
                let l = replayed_on(m0, s, gen)[k];
                let v = history_on(v0, s)->Some_0[k];
                ||| {
                    &&& l.gen == gen
                    &&& l.pos + l.len <= log_of(s).len()
                    &&& encodable(RecordView::Put { key: k, value: v })
                    &&& log_of(s).subrange(l.pos as int, l.pos + l.len) == record_bytes(
                        RecordView::Put { key: k, value: v },
                    )
                }
                ||| (m0.contains_key(k) && l == m0[k] && v == v0[k])
            },
    decreases s.len(),
{
    if s.len() > 0 {
        let sp = s.drop_last();
        let a = log_of(sp);
        let b = record_bytes(s.last());
        assert forall|i: int| 0 <= i < sp.len() implies encodable(#[trigger] sp[i]) by {
            assert(sp[i] == s[i]);
        }
        assert(encodable(s[s.len() - 1]));
        lemma_replayed_locates(m0, v0, sp, gen);
        let m = replayed_on(m0, sp, gen);
        assert forall|k: Seq<char>| #[trigger] replayed_on(m0, s, gen).contains_key(k) implies {
            let l = replayed_on(m0, s, gen)[k];
            let v = history_on(v0, s)->Some_0[k];
            ||| {
                &&& l.gen == gen
                &&& l.pos + l.len <= log_of(s).len()
                &&& encodable(RecordView::Put { key: k, value: v })
                &&& log_of(s).subrange(l.pos as int, l.pos + l.len) == record_bytes(
                    RecordView::Put { key: k, value: v },
                )
            }
            ||| (m0.contains_key(k) && l == m0[k] && v == v0[k])
        } by {
            let is_new = match s.last() {
                RecordView::Put { key, .. } => key == k,
                RecordView::Rm { .. } => false,
            };
            if is_new {
                assert((a + b).subrange(a.len() as int, (a.len() + b.len()) as int) =~= b);
            } else {
                assert(m.contains_key(k));
                let l = m[k];
                if l.gen == gen {
                    assert((a + b).subrange(l.pos as int, l.pos + l.len) =~= a.subrange(
                        l.pos as int,
                        l.pos + l.len,
                    ));
                }
            }
        }
    }
}

#[verifier::rlimit(60)]
proof fn lemma_step_bytes(s: Seq<RecordView>, j: int)
    requires
        0 <= j < s.len(),
        forall|i: int| 0 <= i < s.len() ==> encodable(#[trigger] s[i]),
    ensures
        ({
            let bs = log_of(s);
            let p = log_of(s.take(j)).len() as int;
            let x = log_of(s.take(j + 1)).len() as int;
            &&& p < x <= bs.len()
            &&& x == p + record_bytes(s[j]).len()
            &&& !is_ws(bs[p])
            &&& parse_record_at(bs, p) == Some((s[j], x))
        }),
{
    let bs = log_of(s);
    let sj = s.take(j);
    let sj1 = s.take(j + 1);
    assert(sj1.drop_last() =~= sj);
    assert(sj1.last() == s[j]);
    let p = log_of(sj);
    let rb = record_bytes(s[j]);
    lemma_log_prefix(s, j + 1);
    assert(log_of(sj1) == p + rb);
    let x = (p.len() + rb.len()) as int;
    let rest = bs.subrange(x, bs.len() as int);
    assert(bs.subrange(0, x) == p + rb);
    assert(bs =~= p + rb + rest);
    lemma_record_round_trip(p, s[j], rest);
    lemma_record_first_byte(s[j]);
    assert(bs[p.len() as int] == (p + rb + rest)[p.len() as int]);
}

proof fn lemma_record_first_byte(r: RecordView)
    ensures
        record_bytes(r).len() > 0,
        record_bytes(r)[0] == 123u8,
{
    assert(set_head()[0] == 123u8);
    assert(rm_head()[0] == 123u8);
}

proof fn lemma_step_apply(
    m0: Map<Seq<char>, Locator>,
    v0: Map<Seq<char>, Seq<char>>,
    s: Seq<RecordView>,
    gen: u64,
    j: int,
)
    requires
        0 <= j < s.len(),
        replay_base(m0, v0, gen),
        forall|i: int| 0 <= i < s.len() ==> encodable(#[trigger] s[i]),
        history_on(v0, s) is Some,
        log_of(s).len() <= u64::MAX,
    ensures
        apply_record(
            replayed_on(m0, s.take(j), gen),
            gen,
            s[j],
            log_of(s.take(j)).len() as int,
            record_bytes(s[j]).len() as int,
        ) == Ok::<Map<Seq<char>, Locator>, KvsError>(replayed_on(m0, s.take(j + 1), gen)),
{
    let sj = s.take(j);
    let sj1 = s.take(j + 1);
    assert(sj1.drop_last() =~= sj);
    assert(sj1.last() == s[j]);
    lemma_history_prefix(v0, s, j + 1);
    lemma_log_prefix(s, j);
    assert forall|i: int| 0 <= i < sj.len() implies encodable(#[trigger] sj[i]) by {
        assert(sj[i] == s[i]);
    }
    lemma_replayed_locates(m0, v0, sj, gen);
    match s[j] {
        RecordView::Put { .. } => {},
        RecordView::Rm { key } => {
            assert(history_on(v0, sj)->Some_0.contains_key(key));
            assert(replayed_on(m0, sj, gen).contains_key(key));
        },
    }
}

#[verifier::rlimit(100)]
proof fn lemma_replay_one(
    m0: Map<Seq<char>, Locator>,
    v0: Map<Seq<char>, Seq<char>>,
    u0: u64,
    s: Seq<RecordView>,
    gen: u64,
    counted: bool,
    j: int,
)
    requires
        0 <= j < s.len(),
        replay_base(m0, v0, gen),
        forall|i: int| 0 <= i < s.len() ==> encodable(#[trigger] s[i]),
        history_on(v0, s) is Some,
        log_of(s).len() <= u64::MAX,
    ensures
        replay_from(
            replayed_on(m0, s.take(j), gen),
            put_count(u0, s.take(j), counted),
            counted,
            gen,
            log_of(s),
            log_of(s.take(j)).len() as int,
        ) == replay_from(
            replayed_on(m0, s.take(j + 1), gen),
            put_count(u0, s.take(j + 1), counted),
            counted,
            gen,
            log_of(s),
            log_of(s.take(j + 1)).len() as int,
        ),
{
    lemma_step_bytes(s, j);
    lemma_step_apply(m0, v0, s, gen, j);
    let sj1 = s.take(j + 1);
    assert(sj1.drop_last() =~= s.take(j));
    assert(sj1.last() == s[j]);
}

proof fn lemma_replay_steps(
    m0: Map<Seq<char>, Locator>,
    v0: Map<Seq<char>, Seq<char>>,
    u0: u64,
    s: Seq<RecordView>,
    gen: u64,
    counted: bool,
    j: int,
)
    requires
        0 <= j <= s.len(),
        replay_base(m0, v0, gen),
        forall|i: int| 0 <= i < s.len() ==> encodable(#[trigger] s[i]),
        history_on(v0, s) is Some,
        log_of(s).len() <= u64::MAX,
    ensures
        replay_from(
            replayed_on(m0, s.take(j), gen),
            put_count(u0, s.take(j), counted),
            counted,
            gen,
            log_of(s),
            log_of(s.take(j)).len() as int,
        ) == Ok::<(Map<Seq<char>, Locator>, u64), KvsError>(
            (replayed_on(m0, s, gen), put_count(u0, s, counted)),
        ),
    decreases s.len() - j,
{
    if j == s.len() {
        assert(s.take(j) =~= s);
    } else {
        lemma_replay_one(m0, v0, u0, s, gen, counted, j);
        lemma_replay_steps(m0, v0, u0, s, gen, counted, j + 1);
    }
}

/// Replaying one more segment keeps every read: where index `m0` reads the
/// values `v0` over the segments `disk`, replaying the segment `gen` written
/// by a sequence of successful mutations gives an index that reads, over the
/// segments with that one added, what the sequence leaves of `v0`. Every
/// locator of the result is in `gen` or is one of `m0`.
pub proof fn lemma_replay_extends(
    m0: Map<Seq<char>, Locator>,
    v0: Map<Seq<char>, Seq<char>>,
    u0: u64,
    disk: Map<u64, Seq<u8>>,
    s: Seq<RecordView>,
    gen: u64,
    counted: bool,
)
    requires
        reads(m0, disk, v0),
        forall|k: Seq<char>| #[trigger] m0.contains_key(k) ==> m0[k].gen != gen,
        forall|i: int| 0 <= i < s.len() ==> encodable(#[trigger] s[i]),
        history_on(v0, s) is Some,
        log_of(s).len() <= u64::MAX,
    ensures
        match replay_from(m0, u0, counted, gen, log_of(s), 0) {
            Ok((m, _)) => {
                &&& reads(m, disk.insert(gen, log_of(s)), history_on(v0, s)->Some_0)
                &&& forall|k: Seq<char>|
                    #[trigger] m.contains_key(k) ==> m[k].gen == gen || (m0.contains_key(k)
                        && m[k] == m0[k])
            },
            Err(_) => false,
        },
{
    assert forall|k: Seq<char>| #[trigger] m0.contains_key(k) == v0.contains_key(k) by {
        assert(lookup(m0, disk, k) == Ok::<Option<Seq<char>>, KvsError>(
            if v0.contains_key(k) {
                Some(v0[k])
            } else {
                None
            },
        ));
    }
    assert(s.take(0) =~= Seq::<RecordView>::empty());
    lemma_replay_steps(m0, v0, u0, s, gen, counted, 0);
    lemma_replayed_locates(m0, v0, s, gen);
    let vals = history_on(v0, s)->Some_0;
    let m = replayed_on(m0, s, gen);
    let nd = disk.insert(gen, log_of(s));
    assert forall|k: Seq<char>| #[trigger] lookup(m, nd, k) == Ok::<
        Option<Seq<char>>,
        KvsError,
    >(if vals.contains_key(k) { Some(vals[k]) } else { None }) by {
        if m.contains_key(k) {
            let l = m[k];
            if l.gen == gen {
                let r = RecordView::Put { key: k, value: vals[k] };
                let rb = record_bytes(r);
                lemma_record_round_trip(Seq::empty(), r, Seq::empty());
                assert(Seq::<u8>::empty() + rb + Seq::<u8>::empty() =~= rb);
            } else {
                assert(lookup(m0, disk, k) == Ok::<Option<Seq<char>>, KvsError>(
                    if v0.contains_key(k) {
                        Some(v0[k])
                    } else {
                        None
                    },
                ));
            }
        }
    }
}

/// Persistence: the segment written by a sequence of successful mutations
/// replays, from an empty index, to one under which every key reads what the
/// sequence left it.
pub proof fn lemma_replay_restores(s: Seq<RecordView>, gen: u64, counted: bool)
    requires
        forall|i: int| 0 <= i < s.len() ==> encodable(#[trigger] s[i]),
        apply_history(s) is Some,
        log_of(s).len() <= u64::MAX,
    ensures
        match replay_from(Map::empty(), 0, counted, gen, log_of(s), 0) {
            Ok((m, _)) => reads(m, map![gen => log_of(s)], apply_history(s)->Some_0),
            Err(_) => false,
        },
{
    let e = Map::<Seq<char>, Locator>::empty();
    let d = Map::<u64, Seq<u8>>::empty();
    assert(reads(e, d, Map::empty()));
    lemma_replay_extends(e, Map::empty(), 0, d, s, gen, counted);
    assert(d.insert(gen, log_of(s)) =~= map![gen => log_of(s)]);
}

/// Persistence across segments: where segment `g1` holds the records of `s1`
/// and segment `g2`, above it, those of `s2` that followed, replaying the two
/// in ascending order from an empty index reads, for every key, what the
/// whole sequence `s1` then `s2` left it. This is what reopening finds after a
/// compaction, whose segment holds one `Set` per live key, and the active
/// segment written since.
pub proof fn lemma_replay_two_segments(
    s1: Seq<RecordView>,
    g1: u64,
    c1: bool,
    s2: Seq<RecordView>,
    g2: u64,
    c2: bool,
)
    requires
        g1 < g2,
        forall|i: int| 0 <= i < s1.len() ==> encodable(#[trigger] s1[i]),
        forall|i: int| 0 <= i < s2.len() ==> encodable(#[trigger] s2[i]),
        apply_history(s1 + s2) is Some,
        log_of(s1).len() <= u64::MAX,
        log_of(s2).len() <= u64::MAX,
    ensures
        match replay_from(Map::empty(), 0, c1, g1, log_of(s1), 0) {
            Ok((m1, u1)) => match replay_from(m1, u1, c2, g2, log_of(s2), 0) {
                Ok((m2, _)) => reads(
                    m2,
                    map![g1 => log_of(s1), g2 => log_of(s2)],
                    apply_history(s1 + s2)->Some_0,
                ),
                Err(_) => false,
            },
            Err(_) => false,
        },
{
    lemma_history_concat(Map::empty(), s1, s2);
    let e = Map::<Seq<char>, Locator>::empty();
    let d = Map::<u64, Seq<u8>>::empty();
    assert(reads(e, d, Map::empty()));
    lemma_replay_extends(e, Map::empty(), 0, d, s1, g1, c1);
    let (m1, u1) = replay_from(e, 0, c1, g1, log_of(s1), 0)->Ok_0;
    let d1 = d.insert(g1, log_of(s1));
    lemma_replay_extends(m1, apply_history(s1)->Some_0, u1, d1, s2, g2, c2);
    assert(d1.insert(g2, log_of(s2)) =~= map![g1 => log_of(s1), g2 => log_of(s2)]);
}

/// Applying `s1` then `s2` is applying `s1 + s2`.
proof fn lemma_history_concat(v0: Map<Seq<char>, Seq<char>>, s1: Seq<RecordView>, s2: Seq<RecordView>)
    ensures
        history_on(v0, s1 + s2) == match history_on(v0, s1) {
            Some(v1) => history_on(v1, s2),
            None => None,
        },
    decreases s2.len(),
{
    if s2.len() == 0 {
        assert(s1 + s2 =~= s1);
    } else {
        lemma_history_concat(v0, s1, s2.drop_last());
        assert((s1 + s2).drop_last() =~= s1 + s2.drop_last());
        assert((s1 + s2).last() == s2.last());
        if history_on(v0, s1) is None {
            lemma_history_none_stays(v0, s1, s2);
        }
    }
}

proof fn lemma_history_none_stays(v0: Map<Seq<char>, Seq<char>>, s1: Seq<RecordView>, s2: Seq<RecordView>)
    requires
        history_on(v0, s1) is None,
    ensures
        history_on(v0, s1 + s2) is None,
    decreases s2.len(),
{
    if s2.len() == 0 {
        assert(s1 + s2 =~= s1);
    } else {
        lemma_history_none_stays(v0, s1, s2.drop_last());
        assert((s1 + s2).drop_last() =~= s1 + s2.drop_last());
    }
}

proof fn lemma_copied_is_log(disk: Map<u64, Seq<u8>>, ts: Seq<Transfer>, ps: Seq<RecordView>)
    requires
        ts.len() == ps.len(),
        forall|i: int|
            0 <= i < ts.len() ==> #[trigger] slice_of(disk, ts[i].from) == record_bytes(ps[i]),
    ensures
        copied(disk, ts) == log_of(ps),
    decreases ts.len(),
{
    if ts.len() > 0 {
        let n = ts.len() - 1;
        assert forall|i: int|
            0 <= i < ts.drop_last().len() implies #[trigger] slice_of(
            disk,
            ts.drop_last()[i].from,
        ) == record_bytes(ps.drop_last()[i]) by {
            assert(ts.drop_last()[i] == ts[i]);
            assert(ps.drop_last()[i] == ps[i]);
            assert(slice_of(disk, ts[i].from) == record_bytes(ps[i]));
        }
        lemma_copied_is_log(disk, ts.drop_last(), ps.drop_last());
        assert(slice_of(disk, ts[n].from) == record_bytes(ps[n]));
    }
}

/// `Set` records of distinct keys always apply, each key taking its value.
proof fn lemma_puts_apply(ps: Seq<RecordView>)
    requires
        forall|i: int| 0 <= i < ps.len() ==> #[trigger] ps[i] is Put,
        forall|i: int, j: int|
            0 <= i < j < ps.len() ==> ps[i]->Put_key != ps[j]->Put_key,
    ensures
        apply_history(ps) is Some,
        forall|k: Seq<char>|
            #[trigger] apply_history(ps)->Some_0.contains_key(k) ==> exists|i: int|
                0 <= i < ps.len() && ps[i]->Put_key == k,
        forall|i: int|
            0 <= i < ps.len() ==> #[trigger] apply_history(ps)->Some_0.contains_key(
                ps[i]->Put_key,
            ) && apply_history(ps)->Some_0[ps[i]->Put_key] == ps[i]->Put_value,
    decreases ps.len(),
{
    if ps.len() > 0 {
        let pp = ps.drop_last();
        let n = ps.len() - 1;
        assert forall|i: int| 0 <= i < pp.len() implies #[trigger] pp[i] is Put by {
            assert(pp[i] == ps[i]);
        }
        assert forall|i: int, j: int|
            0 <= i < j < pp.len() implies pp[i]->Put_key != pp[j]->Put_key by {
            assert(pp[i] == ps[i] && pp[j] == ps[j]);
        }
        lemma_puts_apply(pp);
        assert(ps[n] is Put);
        let v = apply_history(ps)->Some_0;
        assert forall|k: Seq<char>| #[trigger] v.contains_key(k) implies exists|i: int|
            0 <= i < ps.len() && ps[i]->Put_key == k by {
            if k != ps[n]->Put_key {
                assert(apply_history(pp)->Some_0.contains_key(k));
                let i = choose|i: int| 0 <= i < pp.len() && pp[i]->Put_key == k;
                assert(ps[i] == pp[i]);
            }
        }
        assert forall|i: int|
            0 <= i < ps.len() implies #[trigger] v.contains_key(ps[i]->Put_key)
            && v[ps[i]->Put_key] == ps[i]->Put_value by {
            if i < n {
                assert(ps[i] == pp[i]);
                assert(apply_history(pp)->Some_0.contains_key(pp[i]->Put_key));
            }
        }
    }
}

proof fn lemma_compaction_values(before: LogState, disk: Map<u64, Seq<u8>>, ps: Seq<RecordView>)
    requires
        before.wf(),
        ps.len() == before.spec_entries().len(),
        forall|i: int|
            0 <= i < ps.len() ==> {
                &&& #[trigger] ps[i] is Put
                &&& ps[i]->Put_key == before.spec_entries()[i].0
                &&& encodable(ps[i])
                &&& in_disk(disk, before.spec_entries()[i].1)
                &&& slice_of(disk, before.spec_entries()[i].1) == record_bytes(ps[i])
            },
    ensures
        apply_history(ps) is Some,
        reads(before.spec_index(), disk, apply_history(ps)->Some_0),
{
    before.lemma_entries();
    let es = before.spec_entries();
    assert forall|i: int, j: int|
        0 <= i < j < ps.len() implies ps[i]->Put_key != ps[j]->Put_key by {
        assert(ps[i] is Put && ps[j] is Put);
    }
    lemma_puts_apply(ps);
    let v = apply_history(ps)->Some_0;
    assert forall|k: Seq<char>| #[trigger] lookup(before.spec_index(), disk, k) == Ok::<
        Option<Seq<char>>,
        KvsError,
    >(if v.contains_key(k) { Some(v[k]) } else { None }) by {
        if before.spec_index().contains_key(k) {
            let i = choose|i: int| 0 <= i < es.len() && es[i].0 == k;
            assert(ps[i] is Put);
            assert(v.contains_key(ps[i]->Put_key));
            let rb = record_bytes(ps[i]);
            lemma_record_round_trip(Seq::empty(), ps[i], Seq::empty());
            assert(Seq::<u8>::empty() + rb + Seq::<u8>::empty() =~= rb);
        } else if v.contains_key(k) {
            let i = choose|i: int| 0 <= i < ps.len() && ps[i]->Put_key == k;
            assert(ps[i] is Put);
            assert(before.spec_index().contains_key(es[i].0));
        }
    }
}

proof fn lemma_compacted_log(
    before: LogState,
    after: LogState,
    ts: Seq<Transfer>,
    gen: u64,
    disk: Map<u64, Seq<u8>>,
    ps: Seq<RecordView>,
)
    requires
        before.wf(),
        relocated(before.spec_entries(), after.spec_entries(), ts, gen),
        ps.len() == before.spec_entries().len(),
        forall|i: int|
            0 <= i < ps.len() ==> {
                &&& #[trigger] ps[i] is Put
                &&& ps[i]->Put_key == before.spec_entries()[i].0
                &&& encodable(ps[i])
                &&& in_disk(disk, before.spec_entries()[i].1)
                &&& slice_of(disk, before.spec_entries()[i].1) == record_bytes(ps[i])
            },
    ensures
        copied(disk, ts) == log_of(ps),
        log_of(ps).len() <= u64::MAX,
        forall|i: int| 0 <= i < ps.len() ==> encodable(#[trigger] ps[i]),
{
    let es = before.spec_entries();
    assert forall|i: int| 0 <= i < ts.len() implies #[trigger] in_disk(disk, ts[i].from) by {
        assert(ts[i].from == es[i].1);
        assert(ps[i] is Put);
    }
    assert forall|i: int|
        0 <= i < ts.len() implies #[trigger] slice_of(disk, ts[i].from) == record_bytes(ps[i]) by {
        assert(ts[i].from == es[i].1);
        assert(ps[i] is Put);
    }
    lemma_copied_is_log(disk, ts, ps);
    crate::state::lemma_copied(disk, ts);
    assert(crate::index::total_len(crate::index::sources(ts)) <= u64::MAX);
    assert forall|i: int| 0 <= i < ps.len() implies encodable(#[trigger] ps[i]) by {
        assert(ps[i] is Put);
    }
}

/// Reopening after a compaction restores every read. Let the live record of
/// each key be, before the compaction, the bytes of `Set{key, value}` given
/// in `ps`, in the index's order. Then the index read those values before;
/// and replaying the compacted segment, then the active segment written by
/// the successful mutations `s2` that followed, reads for every key what `s2`
/// leaves of them.
pub proof fn lemma_reopen_after_compaction(
    before: LogState,
    after: LogState,
    ts: Seq<Transfer>,
    gen: u64,
    disk: Map<u64, Seq<u8>>,
    ps: Seq<RecordView>,
    s2: Seq<RecordView>,
)
    requires
        before.wf(),
        relocated(before.spec_entries(), after.spec_entries(), ts, gen),
        gen < u64::MAX,
        ps.len() == before.spec_entries().len(),
        forall|i: int|
            0 <= i < ps.len() ==> {
                &&& #[trigger] ps[i] is Put
                &&& ps[i]->Put_key == before.spec_entries()[i].0
                &&& encodable(ps[i])
                &&& in_disk(disk, before.spec_entries()[i].1)
                &&& slice_of(disk, before.spec_entries()[i].1) == record_bytes(ps[i])
            },
        forall|i: int| 0 <= i < s2.len() ==> encodable(#[trigger] s2[i]),
        apply_history(ps + s2) is Some,
        log_of(s2).len() <= u64::MAX,
    ensures
        apply_history(ps) is Some,
        reads(before.spec_index(), disk, apply_history(ps)->Some_0),
        copied(disk, ts).len() <= u64::MAX,
        match replay_from(Map::empty(), 0, false, gen, copied(disk, ts), 0) {
            Ok((m1, u1)) => match replay_from(m1, u1, true, (gen + 1) as u64, log_of(s2), 0) {
                Ok((m2, _)) => reads(
                    m2,
                    map![gen => copied(disk, ts), (gen + 1) as u64 => log_of(s2)],
                    history_on(apply_history(ps)->Some_0, s2)->Some_0,
                ),
                Err(_) => false,
            },
            Err(_) => false,
        },
{
    lemma_compaction_values(before, disk, ps);
    lemma_compacted_log(before, after, ts, gen, disk, ps);
    lemma_replay_two_segments(ps, gen, false, s2, (gen + 1) as u64, true);
    lemma_history_concat(Map::empty(), ps, s2);
}

} // verus!
