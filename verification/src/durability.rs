use vstd::prelude::*;
use crate::memtable::{entries_map, keys_of, EntryView};
use crate::keys::strictly_increasing;
use crate::sstable::reader::ReaderModel;
use crate::storage_engine::{
    apply_records, flatten_records, law_flush_preserves_reads, law_recovery_replays_writes,
    layered_get, replay_records, written_from, written_with,
};
use crate::wal::format::RecordType;
use crate::wal::reader::{records_fit, spec_encode_log};

verus! {

/// What the engine holds at a moment: the memtable, the SSTables oldest
/// first, and the records of the write-ahead logs not yet covered by an
/// SSTable, one sequence per log, oldest log first.
pub struct EngineState {
    pub mem: Map<Seq<u8>, EntryView>,
    pub tables: Seq<(Seq<u8>, ReaderModel)>,
    pub logs: Seq<Seq<(RecordType, Seq<u8>, Seq<u8>)>>,
}

/// One thing that happens to the engine.
pub enum EngineStep {
    /// An acknowledged put or delete: logged, then applied to the memtable.
    Write((RecordType, Seq<u8>, Seq<u8>)),
    /// A flush: the memtable's entries `es` written as the SSTable `t`; every
    /// log written so far is covered by it, and a fresh log starts.
    Flush((Seq<u8>, ReaderModel), Seq<(Seq<u8>, EntryView)>),
    /// A restart: the memtable is lost and rebuilt by replaying the logs; a
    /// fresh log starts for new writes.
    Restart,
}

/// The logs with `r` appended to the newest one.
pub open spec fn append_to_newest(
    logs: Seq<Seq<(RecordType, Seq<u8>, Seq<u8>)>>,
    r: (RecordType, Seq<u8>, Seq<u8>),
) -> Seq<Seq<(RecordType, Seq<u8>, Seq<u8>)>> {
    if logs.len() == 0 {
        seq![seq![r]]
    } else {
        logs.update(logs.len() - 1, logs.last().push(r))
    }
}

/// The state after one step.
pub open spec fn apply_step(s: EngineState, step: EngineStep) -> EngineState {
    match step {
        EngineStep::Write(r) => EngineState {
            mem: apply_records(s.mem, seq![r]),
            tables: s.tables,
            logs: append_to_newest(s.logs, r),
        },
        EngineStep::Flush(t, _) => EngineState {
            mem: Map::empty(),
            tables: s.tables.push(t),
            logs: seq![Seq::empty()],
        },
        EngineStep::Restart => EngineState {
            mem: apply_records(
                Map::empty(),
                replay_records(
                    s.logs.map_values(|rs: Seq<(RecordType, Seq<u8>, Seq<u8>)>| spec_encode_log(rs)),
                ),
            ),
            tables: s.tables,
            logs: s.logs.push(Seq::empty()),
        },
    }
}

/// A step that the engine can take from `s`: a write whose key and value fit
/// the log's length fields, or a flush of exactly the memtable's entries,
/// written in key order.
pub open spec fn step_ok(s: EngineState, step: EngineStep) -> bool {
    match step {
        EngineStep::Write(r) => records_fit(seq![r]),
        EngineStep::Flush(t, es) => {
            &&& strictly_increasing(keys_of(es))
            &&& entries_map(es) == s.mem
            &&& written_from(t, es)
        },
        EngineStep::Restart => true,
    }
}

/// The state after the steps, in order.
pub open spec fn run(s: EngineState, steps: Seq<EngineStep>) -> EngineState
    decreases steps.len(),
{
    if steps.len() == 0 {
        s
    } else {
        run(apply_step(s, steps[0]), steps.drop_first())
    }
}

/// Every step can be taken where it comes.
pub open spec fn run_ok(s: EngineState, steps: Seq<EngineStep>) -> bool
    decreases steps.len(),
{
    if steps.len() == 0 {
        true
    } else {
        step_ok(s, steps[0]) && run_ok(apply_step(s, steps[0]), steps.drop_first())
    }
}

/// The writes among the steps, in order.
pub open spec fn writes_of(steps: Seq<EngineStep>) -> Seq<(RecordType, Seq<u8>, Seq<u8>)>
    decreases steps.len(),
{
    if steps.len() == 0 {
        Seq::empty()
    } else {
        match steps[0] {
            EngineStep::Write(r) => seq![r] + writes_of(steps.drop_first()),
            _ => writes_of(steps.drop_first()),
        }
    }
}

/// The memtable is what replaying the live logs gives, and each logged
/// record fits the log's length fields.
pub open spec fn recoverable(s: EngineState) -> bool {
    &&& s.mem == apply_records(Map::empty(), flatten_records(s.logs))
    &&& forall|i: int| 0 <= i < s.logs.len() ==> records_fit(#[trigger] s.logs[i])
}

/// Applying records one batch after another is applying them all.
pub proof fn lemma_apply_records_append(
    m: Map<Seq<u8>, EntryView>,
    a: Seq<(RecordType, Seq<u8>, Seq<u8>)>,
    b: Seq<(RecordType, Seq<u8>, Seq<u8>)>,
)
    ensures
        apply_records(m, a + b) == apply_records(apply_records(m, a), b),
    decreases b.len(),
{
    if b.len() == 0 {
        assert(a + b =~= a);
    } else {
        lemma_apply_records_append(m, a, b.drop_last());
        assert((a + b).drop_last() =~= a + b.drop_last());
        assert((a + b).last() == b.last());
    }
}

/// One more record changes only the entry of its key.
proof fn lemma_apply_one(m: Map<Seq<u8>, EntryView>, r: (RecordType, Seq<u8>, Seq<u8>))
    ensures
        apply_records(m, seq![r]) == m.insert(
            r.1,
            match r.0 {
                RecordType::Put => EntryView::Value(r.2),
                RecordType::Delete => EntryView::Tombstone,
            },
        ),
{
    assert(seq![r].drop_last() =~= Seq::<(RecordType, Seq<u8>, Seq<u8>)>::empty());
    assert(apply_records(m, Seq::<(RecordType, Seq<u8>, Seq<u8>)>::empty()) == m);
}

/// Two layerings that answer every key alike still do after the same key is
/// set in both memtables.
proof fn lemma_same_reads_insert(
    m1: Map<Seq<u8>, EntryView>,
    t1: Seq<(Seq<u8>, ReaderModel)>,
    m2: Map<Seq<u8>, EntryView>,
    t2: Seq<(Seq<u8>, ReaderModel)>,
    k: Seq<u8>,
    e: EntryView,
)
    requires
        forall|key: Seq<u8>| #[trigger] layered_get(m1, t1, key) == layered_get(m2, t2, key),
    ensures
        forall|key: Seq<u8>|
            #[trigger] layered_get(m1.insert(k, e), t1, key) == layered_get(m2.insert(k, e), t2, key),
{
    assert forall|key: Seq<u8>| #[trigger] layered_get(m1.insert(k, e), t1, key) == layered_get(
        m2.insert(k, e),
        t2,
        key,
    ) by {
        if key != k {
            assert(layered_get(m1, t1, key) == layered_get(m2, t2, key));
        }
    }
}

/// The log records seen whole, after a write is appended to the newest log.
proof fn lemma_flatten_append(
    logs: Seq<Seq<(RecordType, Seq<u8>, Seq<u8>)>>,
    r: (RecordType, Seq<u8>, Seq<u8>),
)
    ensures
        flatten_records(append_to_newest(logs, r)) == flatten_records(logs).push(r),
{
    let l2 = append_to_newest(logs, r);
    if logs.len() == 0 {
        assert(l2.drop_last() =~= Seq::<Seq<(RecordType, Seq<u8>, Seq<u8>)>>::empty());
        assert(flatten_records(Seq::<Seq<(RecordType, Seq<u8>, Seq<u8>)>>::empty()) == Seq::<
            (RecordType, Seq<u8>, Seq<u8>),
        >::empty());
        assert(flatten_records(logs) == Seq::<(RecordType, Seq<u8>, Seq<u8>)>::empty());
        assert(l2.last() == seq![r]);
        assert(Seq::<(RecordType, Seq<u8>, Seq<u8>)>::empty() + seq![r] =~= seq![r]);
        assert(Seq::<(RecordType, Seq<u8>, Seq<u8>)>::empty().push(r) =~= seq![r]);
    } else {
        assert(l2.drop_last() =~= logs.drop_last());
        assert(flatten_records(logs.drop_last()) + logs.last().push(r) =~= (flatten_records(
            logs.drop_last(),
        ) + logs.last()).push(r));
    }
}

/// One step keeps the engine recoverable, and keeps every read what the
/// writes so far give.
proof fn lemma_step(
    s: EngineState,
    step: EngineStep,
    m0: Map<Seq<u8>, EntryView>,
    t0: Seq<(Seq<u8>, ReaderModel)>,
    w: Seq<(RecordType, Seq<u8>, Seq<u8>)>,
)
    requires
        recoverable(s),
        step_ok(s, step),
        forall|key: Seq<u8>| #[trigger] layered_get(s.mem, s.tables, key) == layered_get(
            apply_records(m0, w),
            t0,
            key,
        ),
    ensures
        recoverable(apply_step(s, step)),
        forall|key: Seq<u8>|
            #[trigger] layered_get(apply_step(s, step).mem, apply_step(s, step).tables, key)
                == layered_get(
                apply_records(
                    m0,
                    w + match step {
                        EngineStep::Write(r) => seq![r],
                        _ => Seq::<(RecordType, Seq<u8>, Seq<u8>)>::empty(),
                    },
                ),
                t0,
                key,
            ),
{
    let s2 = apply_step(s, step);
    match step {
        EngineStep::Write(r) => {
            lemma_flatten_append(s.logs, r);
            lemma_apply_one(s.mem, r);
            lemma_apply_one(apply_records(m0, w), r);
            lemma_apply_records_append(m0, w, seq![r]);
            lemma_apply_records_append(Map::empty(), flatten_records(s.logs), seq![r]);
            assert(flatten_records(s.logs) + seq![r] =~= flatten_records(s.logs).push(r));
            let e = match r.0 {
                RecordType::Put => EntryView::Value(r.2),
                RecordType::Delete => EntryView::Tombstone,
            };
            lemma_same_reads_insert(s.mem, s.tables, apply_records(m0, w), t0, r.1, e);
            assert forall|i: int| 0 <= i < s2.logs.len() implies records_fit(#[trigger] s2.logs[i]) by {
                assert(records_fit(seq![r]));
                if s.logs.len() == 0 {
                    assert(s2.logs[i] == seq![r]);
                } else if i == s.logs.len() - 1 {
                    let l = s.logs.last().push(r);
                    assert(s2.logs[i] == l);
                    assert(records_fit(s.logs[i]));
                    assert forall|j: int| 0 <= j < l.len() implies (#[trigger] l[j]).1.len()
                        <= u32::MAX && l[j].2.len() <= u32::MAX by {
                        if j < l.len() - 1 {
                            assert(l[j] == s.logs[i][j]);
                        } else {
                            assert(seq![r][0] == r);
                        }
                    }
                } else {
                    assert(s2.logs[i] == s.logs[i]);
                }
            }
        },
        EngineStep::Flush(t, es) => {
            let fresh = seq![Seq::<(RecordType, Seq<u8>, Seq<u8>)>::empty()];
            assert(fresh.drop_last() =~= Seq::<Seq<(RecordType, Seq<u8>, Seq<u8>)>>::empty());
            assert(flatten_records(Seq::<Seq<(RecordType, Seq<u8>, Seq<u8>)>>::empty()) == Seq::<
                (RecordType, Seq<u8>, Seq<u8>),
            >::empty());
            assert(flatten_records(fresh) =~= Seq::<(RecordType, Seq<u8>, Seq<u8>)>::empty());
            assert(s2.logs == fresh);
            assert(apply_records(Map::empty(), Seq::<(RecordType, Seq<u8>, Seq<u8>)>::empty())
                == Map::<Seq<u8>, EntryView>::empty());
            assert(w + Seq::<(RecordType, Seq<u8>, Seq<u8>)>::empty() =~= w);
            assert forall|i: int| 0 <= i < s2.logs.len() implies records_fit(#[trigger] s2.logs[i]) by {
                assert(s2.logs[i] == Seq::<(RecordType, Seq<u8>, Seq<u8>)>::empty());
            }
            reveal(written_from);
            let (nb, k, bits) = choose|nb: usize, k: u32, bits: Seq<u8>|
                written_with(t, es, nb, k, bits);
            assert forall|key: Seq<u8>| #[trigger] layered_get(s2.mem, s2.tables, key)
                == layered_get(apply_records(m0, w), t0, key) by {
                law_flush_preserves_reads(es, s.tables, nb, k, bits, key);
                assert(layered_get(s.mem, s.tables, key) == layered_get(
                    apply_records(m0, w),
                    t0,
                    key,
                ));
            }
        },
        EngineStep::Restart => {
            law_recovery_replays_writes(s.logs);
            assert(s2.logs.drop_last() =~= s.logs);
            assert(s2.logs.last() == Seq::<(RecordType, Seq<u8>, Seq<u8>)>::empty());
            assert(flatten_records(s2.logs) == flatten_records(s.logs) + Seq::<
                (RecordType, Seq<u8>, Seq<u8>),
            >::empty());
            assert(w + Seq::<(RecordType, Seq<u8>, Seq<u8>)>::empty() =~= w);
            assert forall|i: int| 0 <= i < s2.logs.len() implies records_fit(#[trigger] s2.logs[i]) by {
                if i < s.logs.len() {
                    assert(s2.logs[i] == s.logs[i]);
                } else {
                    assert(s2.logs[i] == Seq::<(RecordType, Seq<u8>, Seq<u8>)>::empty());
                }
            }
        },
    }
}

/// Acknowledged writes survive flushes and restarts: from a state whose
/// memtable is what its live logs replay to, after any run of writes,
/// flushes and restarts, every read answers as the SSTables that were there
/// at the start with all the writes applied in order to the memtable would,
/// and the state is still one that a restart rebuilds exactly.
pub proof fn law_writes_survive_flushes_and_restarts(s: EngineState, steps: Seq<EngineStep>)
    requires
        recoverable(s),
        run_ok(s, steps),
    ensures
        recoverable(run(s, steps)),
        forall|key: Seq<u8>| #[trigger] layered_get(run(s, steps).mem, run(s, steps).tables, key)
            == layered_get(apply_records(s.mem, writes_of(steps)), s.tables, key),
{
    lemma_run(s, steps, s.mem, s.tables, Seq::empty());
    assert(Seq::<(RecordType, Seq<u8>, Seq<u8>)>::empty() + writes_of(steps) =~= writes_of(steps));
}

proof fn lemma_run(
    s: EngineState,
    steps: Seq<EngineStep>,
    m0: Map<Seq<u8>, EntryView>,
    t0: Seq<(Seq<u8>, ReaderModel)>,
    w: Seq<(RecordType, Seq<u8>, Seq<u8>)>,
)
    requires
        recoverable(s),
        run_ok(s, steps),
        forall|key: Seq<u8>| #[trigger] layered_get(s.mem, s.tables, key) == layered_get(
            apply_records(m0, w),
            t0,
            key,
        ),
    ensures
        recoverable(run(s, steps)),
        forall|key: Seq<u8>| #[trigger] layered_get(run(s, steps).mem, run(s, steps).tables, key)
            == layered_get(apply_records(m0, w + writes_of(steps)), t0, key),
    decreases steps.len(),
{
    if steps.len() == 0 {
        assert(w + writes_of(steps) =~= w);
    } else {
        let step = steps[0];
        let rest = steps.drop_first();
        let w2 = w + match step {
            EngineStep::Write(r) => seq![r],
            _ => Seq::<(RecordType, Seq<u8>, Seq<u8>)>::empty(),
        };
        lemma_step(s, step, m0, t0, w);
        lemma_run(apply_step(s, step), rest, m0, t0, w2);
        match step {
            EngineStep::Write(r) => {
                assert(w2 + writes_of(rest) =~= w + (seq![r] + writes_of(rest)));
            },
            _ => {
                assert(w2 + writes_of(rest) =~= w + writes_of(rest));
            },
        }
    }
}

/// Restarting right after any such run answers every read as the engine did
/// just before it stopped.
pub proof fn law_restart_keeps_reads(s: EngineState, steps: Seq<EngineStep>)
    requires
        recoverable(s),
        run_ok(s, steps),
    ensures
        forall|key: Seq<u8>|
            #[trigger] layered_get(
                apply_step(run(s, steps), EngineStep::Restart).mem,
                apply_step(run(s, steps), EngineStep::Restart).tables,
                key,
            ) == layered_get(run(s, steps).mem, run(s, steps).tables, key),
{
    law_writes_survive_flushes_and_restarts(s, steps);
    let e = run(s, steps);
    law_recovery_replays_writes(e.logs);
}

/// The logs that a flush makes obsolete: each live log but the one that the
/// flush starts, since the flushed SSTable now holds all their records. Logs
/// are named by generation; the order of `live` is kept.
pub fn logs_covered_by_flush(live: &[u64], fresh: u64) -> (r: Vec<u64>)
    ensures
        r@ == live@.filter(|g: u64| g != fresh),
{
    let mut out: Vec<u64> = Vec::new();
    let mut i: usize = 0;
    proof {
        reveal(Seq::filter);
        assert(live@.take(0) =~= Seq::<u64>::empty());
    }
    while i < live.len()
        invariant
            i <= live@.len(),
            out@ == live@.take(i as int).filter(|g: u64| g != fresh),
        decreases live@.len() - i,
    {
        let g = live[i];
        proof {
            reveal(Seq::filter);
            assert(live@.take(i + 1).drop_last() =~= live@.take(i as int));
            assert(live@.take(i + 1).last() == g);
        }
        if g != fresh {
            out.push(g);
        }
        i = i + 1;
    }
    proof {
        assert(live@.take(i as int) =~= live@);
    }
    out
}

} // verus!
