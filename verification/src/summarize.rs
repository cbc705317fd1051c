//! Computing the summary of a trace and embedding it.

use vstd::prelude::*;
use crate::error::TraceError;
use crate::mipmap::{
    build_counts, build_entries, contents, count_pyramid, counts, entry_pyramid, entry_sums,
    law_count_pyramid, law_entry_pyramid, total, BASE_INTERVAL, FAN_OUT,
};
use crate::reader::{Reader, ReaderView};
use crate::schema::{field_named, find_field, Schema, SchemaView};
use crate::state::{TimedItem, TimedItemView, TimedOp};
use crate::summary::{
    level_views, CounterMipmap, CounterMipmapView, MipmapEntry, SummaryView, TraceSummary,
};
use crate::tally::{
    countable, deltas_of, density, entries, law_buckets_total, lemma_countable_prefix, reached,
    starts_of, Mark, Tally,
};
use crate::types::{
    lemma_views_self, FieldType, StorageDef, StorageDefView, DA_SLOT_ADD, DA_SLOT_SET,
};
use crate::wire::views;

verus! {

// ---------------------------------------------------------------------------
// What a schema has to count.

/// The first sparse storage from `from` on that is no buffer and has a field
/// "entity_id", and that field.
pub open spec fn entities_from(schema: SchemaView, from: int) -> Option<(u16, u16)>
    decreases schema.storages.len() - from,
{
    if from >= schema.storages.len() {
        None
    } else {
        let s = schema.storages[from];
        let field = field_named(schema, s.fields, "entity_id"@);
        if s.sparse() && !s.buffer() && field is Some {
            Some((s.storage_id, field->Some_0 as u16))
        } else {
            entities_from(schema, from + 1)
        }
    }
}

/// Finds the entities storage: sparse, with an "entity_id" field.
fn find_entities(schema: &Schema) -> (r: Option<(u16, u16)>)
    ensures
        r == entities_from(schema@, 0),
{
    let mut i: usize = 0;
    while i < schema.storages.len()
        invariant
            i <= schema.storages@.len(),
            entities_from(schema@, 0) == entities_from(schema@, i as int),
        decreases schema.storages@.len() - i,
    {
        let s = &schema.storages[i];
        assert(schema@.storages[i as int] == s@);
        let field = find_field(schema, &s.fields, "entity_id");
        if s.is_sparse() && !s.is_buffer() {
            match field {
                Some(f) => {
                    return Some((s.storage_id, #[verifier::truncate] (f as u16)));
                },
                None => {},
            }
        }
        i = i + 1;
    }
    None
}

/// Whether a storage is a counter: one slot, neither sparse nor a buffer, a
/// single U64 field.
pub open spec fn is_counter(s: StorageDefView) -> bool {
    &&& s.num_slots == 1
    &&& !s.sparse()
    &&& !s.buffer()
    &&& s.fields.len() == 1
    &&& s.fields[0].field_type == FieldType::U64.spec_code()
}

/// Whether a storage is a counter.
pub fn counter_storage(s: &StorageDef) -> (b: bool)
    ensures
        b == is_counter(s@),
{
    s.num_slots == 1 && !s.is_sparse() && !s.is_buffer() && s.fields.len() == 1
        && s.fields[0].field_type == FieldType::U64.code()
}

/// A counter: its storage and its name.
#[verifier::ext_equal]
pub struct CounterView {
    pub storage_id: u16,
    pub name: Seq<char>,
}

/// The name of a storage, "?" where it has none.
pub open spec fn storage_name(schema: SchemaView, s: StorageDefView) -> Seq<char> {
    match schema.string(s.name) {
        Some(name) => name,
        None => "?"@,
    }
}

/// The counters among the first `n` storages.
pub open spec fn counters_of(schema: SchemaView, n: int) -> Seq<CounterView>
    decreases n,
{
    if n <= 0 {
        Seq::empty()
    } else {
        let before = counters_of(schema, n - 1);
        let s = schema.storages[n - 1];
        if is_counter(s) {
            before.push(CounterView { storage_id: s.storage_id, name: storage_name(schema, s) })
        } else {
            before
        }
    }
}

/// The counters of a list of storages and names.
pub open spec fn counter_views(counters: Seq<(u16, String)>) -> Seq<CounterView> {
    counters.map_values(|c: (u16, String)| CounterView { storage_id: c.0, name: c.1@ })
}

/// Finds all counter storages and their names.
pub fn find_counters(schema: &Schema) -> (counters: Vec<(u16, String)>)
    ensures
        counter_views(counters@) == counters_of(schema@, schema@.storages.len() as int),
{
    let mut counters: Vec<(u16, String)> = Vec::new();
    let mut i: usize = 0;
    assert(counter_views(counters@) =~= counters_of(schema@, 0));
    while i < schema.storages.len()
        invariant
            i <= schema.storages@.len(),
            schema@.storages.len() == schema.storages@.len(),
            counter_views(counters@) == counters_of(schema@, i as int),
        decreases schema.storages@.len() - i,
    {
        let s = &schema.storages[i];
        assert(schema@.storages[i as int] == s@);
        if counter_storage(s) {
            let name: String = match schema.get_string(s.name) {
                Some(name) => name.to_owned(),
                None => "?".to_owned(),
            };
            let ghost before = counter_views(counters@);
            counters.push((s.storage_id, name));
            assert(counter_views(counters@) =~= before.push(
                CounterView { storage_id: s.storage_id, name: storage_name(schema@, s@) },
            ));
        }
        i = i + 1;
    }
    counters
}

// ---------------------------------------------------------------------------
// What the operations of a trace count.

/// The last counter on a storage.
pub open spec fn counter_on(counters: Seq<CounterView>, storage_id: u16) -> Option<int>
    decreases counters.len(),
{
    if counters.len() == 0 {
        None
    } else if counters.last().storage_id == storage_id {
        Some(counters.len() - 1)
    } else {
        counter_on(counters.drop_last(), storage_id)
    }
}

/// What an operation counts: the growth of a counter, or an instruction where
/// it sets the id of an entity.
pub open spec fn mark_of(
    op: TimedOp,
    counters: Seq<CounterView>,
    entities: Option<(u16, u16)>,
    period: u64,
) -> Option<Mark> {
    let bucket = (op.time_ps / period / (BASE_INTERVAL as u64)) as u64;
    if op.action == DA_SLOT_ADD {
        match counter_on(counters, op.storage_id) {
            Some(counter) => Some(Mark::Grow { bucket, counter, delta: op.value }),
            None => None,
        }
    } else if op.action == DA_SLOT_SET && entities == Some((op.storage_id, op.field_index)) {
        Some(Mark::Start { bucket })
    } else {
        None
    }
}

/// What some items count.
pub open spec fn marks_of(
    items: Seq<TimedItemView>,
    counters: Seq<CounterView>,
    entities: Option<(u16, u16)>,
    period: u64,
) -> Seq<Mark>
    decreases items.len(),
{
    if items.len() == 0 {
        Seq::empty()
    } else {
        let before = marks_of(items.drop_last(), counters, entities, period);
        match items.last() {
            TimedItemView::Op(op) => match mark_of(op, counters, entities, period) {
                Some(m) => before.push(m),
                None => before,
            },
            TimedItemView::Event(_) => before,
        }
    }
}

/// What the first `n` segments of a trace count.
pub open spec fn gathered(
    v: ReaderView,
    n: int,
    counters: Seq<CounterView>,
    entities: Option<(u16, u16)>,
    period: u64,
) -> Result<Seq<Mark>, TraceError>
    decreases n,
{
    if n <= 0 {
        Ok(Seq::empty())
    } else {
        match gathered(v, n - 1, counters, entities, period) {
            Err(e) => Err(e),
            Ok(before) => match v.replay_segment(v.table[n - 1].offset, None) {
                Err(e) => Err(e),
                Ok(r) => {
                    let marks = before + marks_of(r.items, counters, entities, period);
                    if countable(marks, counters.len() as int) {
                        Ok(marks)
                    } else {
                        Err(TraceError::SummaryTooLarge)
                    }
                },
            },
        }
    }
}

/// A summary with nothing in it.
pub open spec fn nothing_counted() -> SummaryView {
    SummaryView {
        base_interval_cycles: BASE_INTERVAL,
        fan_out: FAN_OUT,
        total_instructions: 0,
        instruction_density: Seq::empty(),
        counters: Seq::empty(),
    }
}

/// The summary of some marks.
pub open spec fn summed(counters: Seq<CounterView>, marks: Seq<Mark>) -> SummaryView {
    let buckets = reached(marks) + 1;
    SummaryView {
        base_interval_cycles: BASE_INTERVAL,
        fan_out: FAN_OUT,
        total_instructions: starts_of(marks) as u64,
        instruction_density: count_pyramid(density(marks, buckets)),
        counters: Seq::new(
            counters.len(),
            |c: int|
                CounterMipmapView {
                    name: counters[c].name,
                    storage_id: counters[c].storage_id,
                    levels: entry_pyramid(entries(marks, c, buckets)),
                },
        ),
    }
}

/// The summary of a trace with the given clock period.
pub open spec fn summary_of(v: ReaderView, period: u64) -> Result<SummaryView, TraceError> {
    let counters = counters_of(v.schema, v.schema.storages.len() as int);
    let entities = entities_from(v.schema, 0);
    if period == 0 {
        Err(TraceError::ZeroPeriod)
    } else if entities is None && counters.len() == 0 {
        Ok(nothing_counted())
    } else {
        match gathered(v, v.table.len() as int, counters, entities, period) {
            Err(e) => Err(e),
            Ok(marks) => Ok(summed(counters, marks)),
        }
    }
}

/// The marks of the first items are the first marks.
proof fn lemma_marks_prefix(
    items: Seq<TimedItemView>,
    k: int,
    counters: Seq<CounterView>,
    entities: Option<(u16, u16)>,
    period: u64,
)
    requires
        0 <= k <= items.len(),
    ensures
        ({
            let part = marks_of(items.take(k), counters, entities, period);
            let all = marks_of(items, counters, entities, period);
            part.len() <= all.len() && all.take(part.len() as int) == part
        }),
    decreases items.len(),
{
    let part = marks_of(items.take(k), counters, entities, period);
    let all = marks_of(items, counters, entities, period);
    if k == items.len() {
        assert(items.take(k) =~= items);
        assert(all.take(all.len() as int) =~= all);
    } else {
        lemma_marks_prefix(items.drop_last(), k, counters, entities, period);
        assert(items.drop_last().take(k) =~= items.take(k));
        let before = marks_of(items.drop_last(), counters, entities, period);
        assert(all.take(part.len() as int) =~= before.take(part.len() as int));
    }
}

/// Finds the last counter on a storage.
pub fn find_counter(counters: &Vec<(u16, String)>, storage_id: u16) -> (r: Option<usize>)
    ensures
        match counter_on(counter_views(counters@), storage_id) {
            Some(c) => r is Some && r->Some_0 == c && 0 <= c < counters@.len(),
            None => r is None,
        },
{
    let ghost all = counter_views(counters@);
    let mut i: usize = counters.len();
    assert(all.take(i as int) =~= all);
    while i > 0
        invariant
            i <= counters@.len(),
            all == counter_views(counters@),
            counter_on(all, storage_id) == counter_on(all.take(i as int), storage_id),
        decreases i,
    {
        i = i - 1;
        assert(all.take(i + 1).drop_last() =~= all.take(i as int));
        if counters[i].0 == storage_id {
            return Some(i);
        }
    }
    None
}

/// Whether the buckets of all marks are as far as times can reach.
spec fn timely(marks: Seq<Mark>) -> bool {
    reached(marks) <= u64::MAX / 1024
}

/// Counts what an operation counts. Returns whether nothing became too large.
fn count_op(
    tally: &mut Tally,
    op: &TimedOp,
    counters: &Vec<(u16, String)>,
    entities: Option<(u16, u16)>,
    period: u64,
) -> (ok: bool)
    requires
        old(tally).wf(),
        old(tally).counters() == counters@.len(),
        timely(old(tally)@),
        period > 0,
        countable(old(tally)@, counters@.len() as int),
    ensures
        ({
            let marks = match mark_of(*op, counter_views(counters@), entities, period) {
                Some(m) => old(tally)@.push(m),
                None => old(tally)@,
            };
            &&& ok == countable(marks, counters@.len() as int)
            &&& ok ==> final(tally).wf() && final(tally)@ == marks && final(tally).counters()
                == counters@.len() && timely(marks)
        }),
{
    let width: u64 = BASE_INTERVAL as u64;
    let bucket: u64 = op.time_ps / period / width;
    proof {
        assert(op.time_ps / period <= op.time_ps) by (nonlinear_arith)
            requires
                period > 0,
        ;
        let cycle = (op.time_ps / period) as u64;
        assert(cycle / width <= u64::MAX / 1024) by (nonlinear_arith)
            requires
                width == 1024,
        ;
        assert forall|m: Mark| m.bucket() == bucket implies #[trigger] timely(
            old(tally)@.push(m),
        ) by {
            assert(old(tally)@.push(m).drop_last() =~= old(tally)@);
        }
    }
    if op.action == DA_SLOT_ADD {
        match find_counter(counters, op.storage_id) {
            Some(c) => {
                let ghost m = Mark::Grow { bucket, counter: c as int, delta: op.value };
                assert(timely(old(tally)@.push(m)));
                tally.grow(bucket, c, op.value)
            },
            None => true,
        }
    } else if op.action == DA_SLOT_SET {
        match entities {
            Some((storage_id, field_index)) => if op.storage_id == storage_id && op.field_index
                == field_index {
                let ghost m = Mark::Start { bucket };
                assert(timely(old(tally)@.push(m)));
                tally.start(bucket)
            } else {
                true
            },
            None => true,
        }
    } else {
        true
    }
}

/// Counts what some items count.
fn count_items(
    tally: &mut Tally,
    items: &Vec<TimedItem>,
    counters: &Vec<(u16, String)>,
    entities: Option<(u16, u16)>,
    period: u64,
) -> (ok: bool)
    requires
        old(tally).wf(),
        old(tally).counters() == counters@.len(),
        timely(old(tally)@),
        period > 0,
        countable(old(tally)@, counters@.len() as int),
    ensures
        ({
            let marks = old(tally)@ + marks_of(
                views(items@),
                counter_views(counters@),
                entities,
                period,
            );
            &&& ok == countable(marks, counters@.len() as int)
            &&& ok ==> final(tally).wf() && final(tally)@ == marks && final(tally).counters()
                == counters@.len() && timely(marks)
        }),
{
    let ghost cs = counter_views(counters@);
    let ghost all = views(items@);
    let ghost before = tally@;
    let ghost n = counters@.len() as int;
    let mut i: usize = 0;
    assert(all.take(0) =~= Seq::<TimedItemView>::empty());
    assert(before + Seq::<Mark>::empty() =~= before);
    while i < items.len()
        invariant
            i <= items@.len(),
            all == views(items@),
            cs == counter_views(counters@),
            n == counters@.len(),
            period > 0,
            tally.wf(),
            tally.counters() == n,
            timely(tally@),
            countable(tally@, n),
            tally@ == before + marks_of(all.take(i as int), cs, entities, period),
            before == old(tally)@,
        decreases items@.len() - i,
    {
        let ghost now = marks_of(all.take(i as int), cs, entities, period);
        let ghost next = marks_of(all.take(i + 1), cs, entities, period);
        assert(all.take(i + 1).drop_last() =~= all.take(i as int));
        match &items[i] {
            TimedItem::Op(op) => {
                assert(all[i as int] == TimedItemView::Op(*op));
                proof {
                    match mark_of(*op, cs, entities, period) {
                        Some(m) => {
                            assert(before + now.push(m) =~= (before + now).push(m));
                        },
                        None => {},
                    }
                }
                if !count_op(tally, op, counters, entities, period) {
                    proof {
                        lemma_marks_prefix(all, i + 1, cs, entities, period);
                        let whole = before + marks_of(all, cs, entities, period);
                        if countable(whole, n) {
                            lemma_countable_prefix(whole, (before.len() + next.len()) as int, n);
                            assert(whole.take((before.len() + next.len()) as int) =~= before
                                + next);
                        }
                    }
                    return false;
                }
            },
            TimedItem::Event(ev) => {
                assert(all[i as int] == TimedItemView::Event(ev@));
            },
        }
        i = i + 1;
    }
    assert(all.take(i as int) =~= all);
    true
}

/// A trace whose first segments cannot be counted cannot be counted.
proof fn lemma_gathered_err(
    v: ReaderView,
    i: int,
    n: int,
    counters: Seq<CounterView>,
    entities: Option<(u16, u16)>,
    period: u64,
)
    requires
        i <= n,
        gathered(v, i, counters, entities, period) is Err,
    ensures
        gathered(v, n, counters, entities, period) == gathered(v, i, counters, entities, period),
    decreases n - i,
{
    if i < n {
        lemma_gathered_err(v, i, n - 1, counters, entities, period);
    }
}

/// Counts what all segments of a trace count.
fn count_segments(
    reader: &Reader,
    counters: &Vec<(u16, String)>,
    entities: Option<(u16, u16)>,
    period: u64,
) -> (res: Result<Tally, TraceError>)
    requires
        period > 0,
    ensures
        match gathered(
            reader@,
            reader@.table.len() as int,
            counter_views(counters@),
            entities,
            period,
        ) {
            Err(e) => res == Err::<Tally, TraceError>(e),
            Ok(marks) => {
                &&& res is Ok
                &&& res->Ok_0.wf()
                &&& res->Ok_0@ == marks
                &&& res->Ok_0.counters() == counters@.len()
                &&& timely(marks)
            },
        },
{
    let ghost v = reader@;
    let ghost cs = counter_views(counters@);
    let mut tally = Tally::new(counters.len());
    let n: usize = reader.segment_count();
    let mut i: usize = 0;
    proof {
        assert forall|c: int| 0 <= c < cs.len() implies crate::mipmap::sum_of(
            #[trigger] deltas_of(Seq::<Mark>::empty(), c),
        ) <= u64::MAX by {}
    }
    while i < n
        invariant
            i <= n,
            n == v.table.len(),
            v == reader@,
            cs == counter_views(counters@),
            period > 0,
            tally.wf(),
            tally.counters() == counters@.len(),
            timely(tally@),
            countable(tally@, counters@.len() as int),
            gathered(v, i as int, cs, entities, period) == Ok::<Seq<Mark>, TraceError>(tally@),
        decreases n - i,
    {
        match reader.segment_replay(i) {
            Err(e) => {
                proof {
                    assert(gathered(v, i + 1, cs, entities, period) == Err::<
                        Seq<Mark>,
                        TraceError,
                    >(e));
                    lemma_gathered_err(v, i + 1, n as int, cs, entities, period);
                }
                return Err(e);
            },
            Ok((_storages, items)) => {
                if !count_items(&mut tally, &items, counters, entities, period) {
                    proof {
                        assert(gathered(v, i + 1, cs, entities, period) == Err::<
                            Seq<Mark>,
                            TraceError,
                        >(TraceError::SummaryTooLarge));
                        lemma_gathered_err(v, i + 1, n as int, cs, entities, period);
                    }
                    return Err(TraceError::SummaryTooLarge);
                }
            },
        }
        i = i + 1;
    }
    Ok(tally)
}

/// The contents of levels are their views.
proof fn lemma_level_views<T: View<V = T>>(levels: Seq<Vec<T>>)
    requires
        forall|t: T| #[trigger] t.view() == t,
    ensures
        level_views(levels) == contents(levels),
{
    assert forall|i: int| 0 <= i < levels.len() implies #[trigger] level_views(levels)[i]
        == contents(levels)[i] by {
        lemma_views_self(levels[i]@);
    }
    assert(level_views(levels) =~= contents(levels));
}

/// Makes the summary of what was counted.
fn sum_up(counters: Vec<(u16, String)>, tally: Tally) -> (s: TraceSummary)
    requires
        tally.wf(),
        tally.counters() == counters@.len(),
        timely(tally@),
    ensures
        s@ == summed(counter_views(counters@), tally@),
{
    let ghost marks = tally@;
    let ghost n = counters@.len() as int;
    let ghost m = reached(marks) + 1;
    let ghost cs = counter_views(counters@);
    let ghost want = summed(cs, marks);
    let (mut levels, density_level0, total_instructions) = tally.finish();
    let mut mipmaps: Vec<CounterMipmap> = Vec::new();
    let mut c: usize = 0;
    assert(views(mipmaps@) =~= want.counters.take(0));
    while c < counters.len()
        invariant
            c <= counters@.len(),
            n == counters@.len(),
            cs == counter_views(counters@),
            want == summed(cs, marks),
            m == reached(marks) + 1,
            countable(marks, n),
            levels@.len() == n,
            forall|j: int| c <= j < n ==> (#[trigger] levels@[j])@ == entries(marks, j, m),
            views(mipmaps@) == want.counters.take(c as int),
        decreases counters@.len() - c,
    {
        let mut level0: Vec<MipmapEntry> = Vec::new();
        std::mem::swap(&mut level0, &mut levels[c]);
        proof {
            law_buckets_total(marks, n, c as int, m);
            assert(crate::mipmap::sum_of(deltas_of(marks, c as int)) <= u64::MAX);
        }
        let built = build_entries(level0);
        proof {
            lemma_level_views(built@);
        }
        let mipmap = CounterMipmap {
            name: counters[c].1.clone(),
            storage_id: counters[c].0,
            levels: built,
        };
        let ghost before = views(mipmaps@);
        mipmaps.push(mipmap);
        assert(mipmap@ == want.counters[c as int]);
        assert(views(mipmaps@) =~= before.push(mipmap@));
        c = c + 1;
        assert(views(mipmaps@) =~= want.counters.take(c as int));
    }
    assert(want.counters.take(n) =~= want.counters);
    proof {
        law_buckets_total(marks, n, 0, m);
    }
    let instruction_density = build_counts(density_level0);
    proof {
        lemma_level_views(instruction_density@);
    }
    let s = TraceSummary {
        base_interval_cycles: BASE_INTERVAL,
        fan_out: FAN_OUT,
        total_instructions,
        instruction_density,
        counters: mipmaps,
    };
    assert(s@ =~= want);
    s
}

/// Compute trace summary (counter mipmaps + instruction density) by replaying
/// all segments of a trace.
///
/// `period_ps` is the clock period in picoseconds, which converts absolute
/// timestamps to cycle numbers. If the trace contains no counter storages the
/// result has no counters, but may still have instruction density data. A
/// delta is what one operation adds.
pub fn compute_trace_summary(reader: &Reader, period_ps: u64) -> (res: Result<
    TraceSummary,
    TraceError,
>)
    ensures
        match summary_of(reader@, period_ps) {
            Ok(s) => res is Ok && res->Ok_0@ == s,
            Err(e) => res == Err::<TraceSummary, TraceError>(e),
        },
{
    if period_ps == 0 {
        return Err(TraceError::ZeroPeriod);
    }
    let entities = find_entities(reader.schema());
    let counters = find_counters(reader.schema());
    let ghost cs = counter_views(counters@);
    if entities.is_none() && counters.len() == 0 {
        let s = TraceSummary {
            base_interval_cycles: BASE_INTERVAL,
            fan_out: FAN_OUT,
            total_instructions: 0,
            instruction_density: Vec::new(),
            counters: Vec::new(),
        };
        assert(s@ =~= nothing_counted());
        assert(cs.len() == 0);
        return Ok(s);
    }
    assert(cs.len() == counters@.len());
    match count_segments(reader, &counters, entities, period_ps) {
        Err(e) => Err(e),
        Ok(tally) => Ok(sum_up(counters, tally)),
    }
}

/// Another name of `compute_trace_summary`.
pub fn compute_counter_summary(reader: &Reader, period_ps: u64) -> (res: Result<
    TraceSummary,
    TraceError,
>)
    ensures
        match summary_of(reader@, period_ps) {
            Ok(s) => res is Ok && res->Ok_0@ == s,
            Err(e) => res == Err::<TraceSummary, TraceError>(e),
        },
{
    compute_trace_summary(reader, period_ps)
}

/// The counts of every density level, and of every level of a counter, add up
/// to the same: the number of instructions, or all that the counter grew by.
pub proof fn law_summary_totals(counters: Seq<CounterView>, marks: Seq<Mark>)
    requires
        countable(marks, counters.len() as int),
    ensures
        ({
            let s = summed(counters, marks);
            &&& s.total_instructions == starts_of(marks)
            &&& forall|l: int|
                0 <= l < s.instruction_density.len() ==> total(
                    counts(#[trigger] s.instruction_density[l]),
                ) == starts_of(marks)
            &&& forall|c: int, l: int|
                0 <= c < s.counters.len() && 0 <= l < s.counters[c].levels.len() ==> total(
                    entry_sums(#[trigger] s.counters[c].levels[l]),
                ) == crate::mipmap::sum_of(deltas_of(marks, c))
        }),
{
    let s = summed(counters, marks);
    let n = counters.len() as int;
    let m = reached(marks) + 1;
    law_buckets_total(marks, n, 0, m);
    law_count_pyramid(density(marks, m));
    assert forall|c: int, l: int|
        0 <= c < s.counters.len() && 0 <= l < s.counters[c].levels.len() implies total(
        entry_sums(#[trigger] s.counters[c].levels[l]),
    ) == crate::mipmap::sum_of(deltas_of(marks, c)) by {
        law_buckets_total(marks, n, c, m);
        assert(crate::mipmap::sum_of(deltas_of(marks, c)) <= u64::MAX);
        law_entry_pyramid(entries(marks, c, m));
    }
}

/// What was gathered can be added up.
proof fn lemma_gathered(
    v: ReaderView,
    n: int,
    counters: Seq<CounterView>,
    entities: Option<(u16, u16)>,
    period: u64,
)
    ensures
        gathered(v, n, counters, entities, period) matches Ok(marks) ==> countable(
            marks,
            counters.len() as int,
        ),
{
    if n <= 0 {
        let none = Seq::<Mark>::empty();
        assert forall|c: int| 0 <= c < counters.len() implies crate::mipmap::sum_of(
            #[trigger] deltas_of(none, c),
        ) <= u64::MAX by {}
    }
}

/// The summary of a trace can be looked up by cycle and by row. Each of its
/// counters is one of the schema's, and its levels of instructions add up to
/// the number of instructions.
pub proof fn law_summary_readable(v: ReaderView, period: u64, s: SummaryView)
    requires
        summary_of(v, period) == Ok::<SummaryView, TraceError>(s),
    ensures
        s.readable(),
        s.base_interval_cycles > 0,
        s.fan_out > 0,
        s.counters.len() == counters_of(v.schema, v.schema.storages.len() as int).len(),
        forall|c: int|
            0 <= c < s.counters.len() ==> (#[trigger] s.counters[c]).levels.len() > 0
                && s.counters[c].name == counters_of(
                v.schema,
                v.schema.storages.len() as int,
            )[c].name,
        forall|l: int|
            0 <= l < s.instruction_density.len() ==> total(
                counts(#[trigger] s.instruction_density[l]),
            ) == s.total_instructions,
{
    let counters = counters_of(v.schema, v.schema.storages.len() as int);
    let entities = entities_from(v.schema, 0);
    if entities is None && counters.len() == 0 {
        assert(s == nothing_counted());
    } else {
        lemma_gathered(v, v.table.len() as int, counters, entities, period);
        let marks = gathered(v, v.table.len() as int, counters, entities, period)->Ok_0;
        law_summary_totals(counters, marks);
        let m = reached(marks) + 1;
        assert forall|c: int| 0 <= c < s.counters.len() implies (
        #[trigger] s.counters[c]).levels.len() > 0 && total(entry_sums(s.counters[c].levels[0]))
            <= u64::MAX by {
            law_buckets_total(marks, counters.len() as int, c, m);
            assert(crate::mipmap::sum_of(deltas_of(marks, c)) <= u64::MAX);
            law_entry_pyramid(entries(marks, c, m));
        }
    }
}

} // verus!
