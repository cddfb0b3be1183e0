//! The event log and the projection pass over it: group the log by entity,
//! drop entities whose last event is a tombstone, fold the surviving partial
//! documents with merge-patch, and assemble one row per live entity.
use crate::value::{doc_of, fold_start, merge, Doc, Value};
use vstd::prelude::*;

verus! {

/// The kind of an event: a partial-document update or a tombstone.
#[derive(Clone, Copy, Debug, PartialEq, Eq, Structural)]
pub enum EventType {
    Save,
    Drop,
}

/// The projection schema an event belongs to.
#[derive(Clone, Copy, Debug, PartialEq, Eq, Structural)]
pub enum SourceType {
    Game,
}

/// An immutable fact of the append-only log. `added` is the event's position
/// in its entity's history; the log hands events over already ordered.
#[derive(Debug, PartialEq, Eq)]
pub struct Event {
    pub id: u128,
    pub data: Option<Value>,
    pub event: EventType,
    pub source: SourceType,
    pub added: i64,
}

/// One projected row: the reconstructed current state of a live entity.
#[derive(Debug, PartialEq, Eq)]
pub struct Projection {
    pub id: u128,
    pub data: Value,
    pub source: SourceType,
    pub added: i64,
    pub updated: i64,
}

impl Event {
    /// An event record with the given fields.
    pub fn new(
        id: u128,
        data: Option<Value>,
        event: EventType,
        source: SourceType,
        added: i64,
    ) -> (e: Event)
        ensures
            e == (Event { id, data, event, source, added }),
    {
        Event { id, data, event, source, added }
    }
}

/// The predicate selecting the events of one entity.
pub open spec fn with_id(id: u128) -> spec_fn(Event) -> bool {
    |e: Event| e.id == id
}

/// The events of one entity, in log order. Opaque: proofs reveal it where
/// the sweep below relates it to a contiguous run.
#[verifier::opaque]
pub open spec fn events_for(s: Seq<Event>, id: u128) -> Seq<Event> {
    s.filter(with_id(id))
}

/// Contiguity: all events of one entity stand adjacent in the log. This is
/// the caller's obligation (the log is handed over sorted by entity, then by
/// time); the pass makes a single forward sweep and does not sort.
pub open spec fn grouped_by_id(s: Seq<Event>) -> bool {
    forall|i: int, j: int, l: int|
        #![trigger s[i], s[j], s[l]]
        0 <= i <= j <= l < s.len() && s[i].id == s[l].id ==> s[j].id == s[i].id
}

/// Every document carried by an event of `s` is well-formed.
pub open spec fn events_wf(s: Seq<Event>) -> bool {
    forall|i: int|
        0 <= i < s.len() ==> ((#[trigger] s[i]).data matches Some(v) ==> v.wf())
}

/// The merge-patch fold of the documents of `s`, oldest first, starting from
/// the empty object; events without a document contribute nothing.
pub open spec fn fold_docs(s: Seq<Event>) -> Doc
    decreases s.len(),
{
    if s.len() == 0 {
        fold_start()
    } else {
        let prev = fold_docs(s.drop_last());
        match s.last().data {
            Some(v) => merge(prev, doc_of(v)),
            None => prev,
        }
    }
}

/// An entity is live when it has events and its last event is not a
/// tombstone. Only liveness decides projection: an entity tombstoned in the
/// middle of its history but saved later is live again.
#[verifier::opaque]
pub open spec fn is_live(s: Seq<Event>, id: u128) -> bool {
    let evs = events_for(s, id);
    evs.len() > 0 && evs.last().event != EventType::Drop
}

/// What one projection row holds for the log `s`: its entity is live, its
/// document is the merge-patch fold of the entity's documents, its type is
/// the first event's, and its timestamps are the first and last events'.
#[verifier::opaque]
pub open spec fn row_ok(s: Seq<Event>, r: Projection) -> bool {
    let evs = events_for(s, r.id);
    &&& is_live(s, r.id)
    &&& r.data.wf()
    &&& r.data@ == fold_docs(evs)
    &&& r.source == evs[0].source
    &&& r.added == evs[0].added
    &&& r.updated == evs.last().added
}

/// Every event of entity `id1` stands before every event of entity `id2`.
#[verifier::opaque]
pub open spec fn precedes(s: Seq<Event>, id1: u128, id2: u128) -> bool {
    forall|i1: int, i2: int|
        0 <= i1 < s.len() && 0 <= i2 < s.len() && (#[trigger] s[i1]).id == id1 && (
        #[trigger] s[i2]).id == id2 ==> i1 < i2
}

/// Every entity that occurs in the first `upto` events of `s` and is live has
/// a row among `rows`. Opaque: the sweep below establishes it run by run.
#[verifier::opaque]
pub open spec fn all_live_covered(s: Seq<Event>, upto: int, rows: Seq<Projection>) -> bool {
    forall|m: int|
        0 <= m < upto && is_live(s, (#[trigger] s[m]).id) ==> exists|j: int|
            0 <= j < rows.len() && (#[trigger] rows[j]).id == s[m].id
}

/// Every row is correct for `s`.
#[verifier::opaque]
pub open spec fn rows_ok(s: Seq<Event>, rows: Seq<Projection>) -> bool {
    forall|j: int| 0 <= j < rows.len() ==> row_ok(s, #[trigger] rows[j])
}

/// Rows name pairwise distinct entities.
#[verifier::opaque]
pub open spec fn rows_distinct(rows: Seq<Projection>) -> bool {
    forall|j1: int, j2: int|
        0 <= j1 < j2 < rows.len() ==> (#[trigger] rows[j1]).id != (#[trigger] rows[j2]).id
}

/// A row's entity occurs only among the first `upto` events.
#[verifier::opaque]
pub open spec fn rows_before(s: Seq<Event>, upto: int, rows: Seq<Projection>) -> bool {
    forall|j: int, m: int|
        0 <= j < rows.len() && 0 <= m < s.len() && (#[trigger] s[m]).id == (
        #[trigger] rows[j]).id ==> m < upto
}

/// Rows stand in log order: all events of an earlier row's entity precede
/// all events of a later row's entity.
#[verifier::opaque]
pub open spec fn rows_ordered(s: Seq<Event>, rows: Seq<Projection>) -> bool {
    forall|j1: int, j2: int|
        0 <= j1 < j2 < rows.len() ==> precedes(
            s,
            (#[trigger] rows[j1]).id,
            (#[trigger] rows[j2]).id,
        )
}

/// The sweep's bookkeeping after the first `upto` events are processed.
pub open spec fn sweep_inv(s: Seq<Event>, upto: int, rows: Seq<Projection>) -> bool {
    &&& rows_ok(s, rows)
    &&& rows_distinct(rows)
    &&& rows_before(s, upto, rows)
    &&& rows_ordered(s, rows)
    &&& all_live_covered(s, upto, rows)
}

/// A log with no event of entity `id` filters to nothing.
proof fn lemma_filter_none(s: Seq<Event>, id: u128)
    requires
        forall|m: int| 0 <= m < s.len() ==> (#[trigger] s[m]).id != id,
    ensures
        events_for(s, id) == Seq::<Event>::empty(),
    decreases s.len(),
{
    reveal(events_for);
    reveal_with_fuel(Seq::filter, 2);
    if s.len() > 0 {
        lemma_filter_none(s.drop_last(), id);
    }
}

/// A log made only of events of entity `id` filters to itself.
proof fn lemma_filter_all(s: Seq<Event>, id: u128)
    requires
        forall|m: int| 0 <= m < s.len() ==> (#[trigger] s[m]).id == id,
    ensures
        events_for(s, id) == s,
    decreases s.len(),
{
    reveal(events_for);
    reveal_with_fuel(Seq::filter, 2);
    if s.len() > 0 {
        lemma_filter_all(s.drop_last(), id);
        assert(events_for(s, id) == events_for(s.drop_last(), id).push(s.last()));
        assert(s =~= s.drop_last().push(s.last()));
    }
}

/// A filtered log is nonempty only when the entity occurs in the log.
proof fn lemma_filter_occurs(s: Seq<Event>, id: u128)
    requires
        events_for(s, id).len() > 0,
    ensures
        exists|m: int| 0 <= m < s.len() && (#[trigger] s[m]).id == id,
    decreases s.len(),
{
    reveal(events_for);
    reveal_with_fuel(Seq::filter, 2);
    if s.len() > 0 {
        if with_id(id)(s.last()) {
            assert(s[s.len() - 1].id == id);
        } else {
            lemma_filter_occurs(s.drop_last(), id);
            let m = choose|m: int| 0 <= m < s.len() - 1 && (#[trigger] s.drop_last()[m]).id == id;
            assert(s[m].id == id);
        }
    }
}

/// In a contiguous log, a maximal run of one entity is exactly that entity's
/// filtered sub-log, and the entity occurs nowhere outside the run.
proof fn lemma_run_is_filter(s: Seq<Event>, a: int, b: int)
    requires
        grouped_by_id(s),
        0 <= a < b <= s.len(),
        forall|m: int| a <= m < b ==> (#[trigger] s[m]).id == s[a].id,
        a == 0 || s[a - 1].id != s[a].id,
        b == s.len() || s[b].id != s[a].id,
    ensures
        events_for(s, s[a].id) == s.subrange(a, b),
        forall|m: int| 0 <= m < s.len() && !(a <= m < b) ==> (#[trigger] s[m]).id != s[a].id,
{
    reveal(events_for);
    let id = s[a].id;
    assert forall|m: int| 0 <= m < s.len() && !(a <= m < b) implies (#[trigger] s[m]).id != id by {
        if m < a && s[m].id == id {
            assert(s[a - 1].id == s[m].id);
        }
        if m >= b && s[m].id == id {
            assert(s[b].id == s[a].id);
        }
    }
    let s1 = s.subrange(0, a);
    let s2 = s.subrange(a, b);
    let s3 = s.subrange(b, s.len() as int);
    assert(s =~= (s1 + s2) + s3);
    Seq::filter_distributes_over_add(s1 + s2, s3, with_id(id));
    Seq::filter_distributes_over_add(s1, s2, with_id(id));
    lemma_filter_none(s1, id);
    lemma_filter_none(s3, id);
    lemma_filter_all(s2, id);
    assert(events_for(s, id) =~= s2);
}

/// Before anything is processed, the empty row set is correct bookkeeping.
proof fn lemma_sweep_init(s: Seq<Event>)
    ensures
        sweep_inv(s, 0, Seq::<Projection>::empty()),
{
    reveal(rows_ok);
    reveal(rows_distinct);
    reveal(rows_before);
    reveal(rows_ordered);
    reveal(all_live_covered);
}

/// The row assembled for a maximal live run is correct for the whole log.
#[verifier::rlimit(50)]
proof fn lemma_row_for_run(s: Seq<Event>, a: int, b: int, r: Projection)
    requires
        grouped_by_id(s),
        0 <= a < b <= s.len(),
        forall|m: int| a <= m < b ==> (#[trigger] s[m]).id == s[a].id,
        a == 0 || s[a - 1].id != s[a].id,
        b == s.len() || s[b].id != s[a].id,
        s[b - 1].event != EventType::Drop,
        r.id == s[a].id,
        r.data.wf(),
        r.data@ == fold_docs(s.subrange(a, b)),
        r.source == s[a].source,
        r.added == s[a].added,
        r.updated == s[b - 1].added,
    ensures
        row_ok(s, r),
{
    lemma_run_is_filter(s, a, b);
    let id = s[a].id;
    let evs = events_for(s, id);
    assert(evs == s.subrange(a, b));
    assert(evs[0] == s[a]);
    assert(evs.last() == s[b - 1]);
    assert(is_live(s, id)) by {
        reveal(is_live);
    }
    assert(row_ok(s, r)) by {
        reveal(row_ok);
    }
}

/// Appending a correct row keeps every row correct.
proof fn lemma_step_rows_ok(s: Seq<Event>, rows: Seq<Projection>, r: Projection)
    requires
        rows_ok(s, rows),
        row_ok(s, r),
    ensures
        rows_ok(s, rows.push(r)),
{
    reveal(rows_ok);
}

/// A row for an entity none of whose events were processed is new.
proof fn lemma_step_distinct(s: Seq<Event>, upto: int, rows: Seq<Projection>, r: Projection)
    requires
        rows_distinct(rows),
        rows_before(s, upto, rows),
        0 <= upto,
        exists|m: int| upto <= m < s.len() && (#[trigger] s[m]).id == r.id,
    ensures
        rows_distinct(rows.push(r)),
{
    reveal(rows_distinct);
    reveal(rows_before);
    let m0 = choose|m: int| upto <= m < s.len() && (#[trigger] s[m]).id == r.id;
    let rows1 = rows.push(r);
    assert forall|j1: int, j2: int|
        0 <= j1 < j2 < rows1.len() implies (#[trigger] rows1[j1]).id != (
    #[trigger] rows1[j2]).id by {
        if j2 == rows.len() {
            assert(rows1[j1] == rows[j1]);
            if rows[j1].id == r.id {
                assert(s[m0].id == rows[j1].id);
            }
        } else {
            assert(rows1[j1] == rows[j1]);
            assert(rows1[j2] == rows[j2]);
        }
    }
}

/// After a run ends at `b`, every row's entity occurs before `b`.
proof fn lemma_step_before(s: Seq<Event>, a: int, b: int, rows: Seq<Projection>, r: Projection)
    requires
        rows_before(s, a, rows),
        a <= b <= s.len(),
        forall|m: int| 0 <= m < s.len() && !(a <= m < b) ==> (#[trigger] s[m]).id != r.id,
    ensures
        rows_before(s, b, rows.push(r)),
{
    reveal(rows_before);
    let rows1 = rows.push(r);
    assert forall|j: int, m: int|
        0 <= j < rows1.len() && 0 <= m < s.len() && (#[trigger] s[m]).id == (
    #[trigger] rows1[j]).id implies m < b by {
        if j < rows.len() {
            assert(rows1[j] == rows[j]);
        }
    }
}

/// A row for a run past every processed event stands after every other row.
proof fn lemma_step_ordered(s: Seq<Event>, a: int, b: int, rows: Seq<Projection>, r: Projection)
    requires
        rows_ordered(s, rows),
        rows_before(s, a, rows),
        a <= b <= s.len(),
        forall|m: int| 0 <= m < s.len() && !(a <= m < b) ==> (#[trigger] s[m]).id != r.id,
    ensures
        rows_ordered(s, rows.push(r)),
{
    reveal(rows_ordered);
    reveal(rows_before);
    let rows1 = rows.push(r);
    assert forall|j1: int, j2: int|
        0 <= j1 < j2 < rows1.len() implies precedes(
        s,
        (#[trigger] rows1[j1]).id,
        (#[trigger] rows1[j2]).id,
    ) by {
        if j2 == rows.len() {
            assert(precedes(s, rows[j1].id, r.id)) by {
                reveal(precedes);
            }
        } else {
            assert(rows1[j1] == rows[j1]);
            assert(rows1[j2] == rows[j2]);
        }
    }
}

/// Emitting the row of a live run keeps every processed live entity covered.
proof fn lemma_step_cover_emit(s: Seq<Event>, a: int, b: int, rows: Seq<Projection>, r: Projection)
    requires
        all_live_covered(s, a, rows),
        0 <= a < b <= s.len(),
        forall|m: int| a <= m < b ==> (#[trigger] s[m]).id == s[a].id,
        r.id == s[a].id,
    ensures
        all_live_covered(s, b, rows.push(r)),
{
    reveal(all_live_covered);
    let rows1 = rows.push(r);
    assert forall|m: int|
        0 <= m < b && is_live(s, (#[trigger] s[m]).id) implies exists|j: int|
        0 <= j < rows1.len() && (#[trigger] rows1[j]).id == s[m].id by {
        if m < a {
            let j0 = choose|j0: int| 0 <= j0 < rows.len() && (#[trigger] rows[j0]).id == s[m].id;
            assert(rows1[j0].id == s[m].id);
        } else {
            assert(rows1[rows.len() as int].id == s[m].id);
        }
    }
}

/// Skipping a tombstoned run keeps every processed live entity covered.
proof fn lemma_step_cover_skip(s: Seq<Event>, a: int, b: int, rows: Seq<Projection>)
    requires
        all_live_covered(s, a, rows),
        0 <= a < b <= s.len(),
        forall|m: int| a <= m < b ==> (#[trigger] s[m]).id == s[a].id,
        !is_live(s, s[a].id),
    ensures
        all_live_covered(s, b, rows),
{
    reveal(all_live_covered);
    assert forall|m: int|
        0 <= m < b && is_live(s, (#[trigger] s[m]).id) implies exists|j: int|
        0 <= j < rows.len() && (#[trigger] rows[j]).id == s[m].id by {
        if m >= a {
            assert(s[m].id == s[a].id);
        }
    }
}

/// A row's entity occurring only up to `upto` also occurs only up to a later
/// bound.
proof fn lemma_step_before_grow(s: Seq<Event>, a: int, b: int, rows: Seq<Projection>)
    requires
        rows_before(s, a, rows),
        a <= b,
    ensures
        rows_before(s, b, rows),
{
    reveal(rows_before);
}

/// Processing a maximal run whose last event is not a tombstone and emitting
/// its row keeps the sweep's bookkeeping.
proof fn lemma_sweep_emit(s: Seq<Event>, a: int, b: int, rows: Seq<Projection>, r: Projection)
    requires
        grouped_by_id(s),
        0 <= a < b <= s.len(),
        forall|m: int| a <= m < b ==> (#[trigger] s[m]).id == s[a].id,
        a == 0 || s[a - 1].id != s[a].id,
        b == s.len() || s[b].id != s[a].id,
        s[b - 1].event != EventType::Drop,
        sweep_inv(s, a, rows),
        r.id == s[a].id,
        r.data.wf(),
        r.data@ == fold_docs(s.subrange(a, b)),
        r.source == s[a].source,
        r.added == s[a].added,
        r.updated == s[b - 1].added,
    ensures
        sweep_inv(s, b, rows.push(r)),
{
    lemma_run_is_filter(s, a, b);
    lemma_row_for_run(s, a, b, r);
    lemma_step_rows_ok(s, rows, r);
    assert(s[a].id == r.id);
    lemma_step_distinct(s, a, rows, r);
    lemma_step_before(s, a, b, rows, r);
    lemma_step_ordered(s, a, b, rows, r);
    lemma_step_cover_emit(s, a, b, rows, r);
}

/// Processing a maximal run whose last event is a tombstone and dropping the
/// entity keeps the sweep's bookkeeping.
proof fn lemma_sweep_skip(s: Seq<Event>, a: int, b: int, rows: Seq<Projection>)
    requires
        grouped_by_id(s),
        0 <= a < b <= s.len(),
        forall|m: int| a <= m < b ==> (#[trigger] s[m]).id == s[a].id,
        a == 0 || s[a - 1].id != s[a].id,
        b == s.len() || s[b].id != s[a].id,
        s[b - 1].event == EventType::Drop,
        sweep_inv(s, a, rows),
    ensures
        sweep_inv(s, b, rows),
{
    lemma_run_is_filter(s, a, b);
    let id = s[a].id;
    let evs = events_for(s, id);
    assert(evs == s.subrange(a, b));
    assert(evs.last() == s[b - 1]);
    assert(!is_live(s, id)) by {
        reveal(is_live);
    }
    lemma_step_before_grow(s, a, b, rows);
    lemma_step_cover_skip(s, a, b, rows);
}

/// When the whole log is processed, the bookkeeping gives the pass's
/// contract.
proof fn lemma_sweep_done(s: Seq<Event>, rows: Seq<Projection>)
    requires
        sweep_inv(s, s.len() as int, rows),
    ensures
        forall|j: int| 0 <= j < rows.len() ==> row_ok(s, #[trigger] rows[j]),
        forall|j1: int, j2: int|
            0 <= j1 < j2 < rows.len() ==> (#[trigger] rows[j1]).id != (#[trigger] rows[j2]).id,
        forall|id: u128| #[trigger] is_live(s, id) ==> exists|j: int|
            0 <= j < rows.len() && (#[trigger] rows[j]).id == id,
        forall|j1: int, j2: int|
            0 <= j1 < j2 < rows.len() ==> precedes(
                s,
                (#[trigger] rows[j1]).id,
                (#[trigger] rows[j2]).id,
            ),
{
    reveal(rows_ok);
    reveal(rows_distinct);
    reveal(rows_ordered);
    assert forall|id: u128| #[trigger] is_live(s, id) implies exists|j: int|
        0 <= j < rows.len() && (#[trigger] rows[j]).id == id by {
        reveal(all_live_covered);
        assert(events_for(s, id).len() > 0) by {
            reveal(is_live);
        }
        lemma_filter_occurs(s, id);
        let m = choose|m: int| 0 <= m < s.len() && (#[trigger] s[m]).id == id;
        assert(is_live(s, s[m].id));
    }
}

/// The merge-patch fold of the documents of `events[start..end]`, oldest
/// first.
#[verifier::loop_isolation(false)]
fn fold_run(events: &Vec<Event>, start: usize, end: usize) -> (doc: Value)
    requires
        start <= end <= events@.len(),
        events_wf(events@),
    ensures
        doc.wf(),
        doc@ == fold_docs(events@.subrange(start as int, end as int)),
{
    let ghost s = events@;
    let entries: Vec<(String, Value)> = Vec::new();
    let mut doc = Value::Obj(entries);
    proof {
        assert(doc@ == fold_docs(s.subrange(start as int, start as int))) by {
            assert(s.subrange(start as int, start as int) =~= Seq::<Event>::empty());
            assert(doc@->Obj_0 =~= Map::<Seq<char>, Doc>::empty());
        }
    }
    let mut q = start;
    while q < end
        invariant
            start <= q <= end,
            doc.wf(),
            doc@ == fold_docs(s.subrange(start as int, q as int)),
        decreases end - q,
    {
        proof {
            assert(s.subrange(start as int, q as int + 1).drop_last() =~= s.subrange(
                start as int,
                q as int,
            ));
            assert(s.subrange(start as int, q as int + 1).last() == s[q as int]);
        }
        match &events[q].data {
            Some(v) => {
                doc = doc.merge_patch(v);
            },
            None => {},
        }
        q += 1;
    }
    doc
}

/// One projection pass over a snapshot of the log: group contiguous runs by
/// entity, drop entities whose last event is a tombstone, fold the documents
/// of the survivors with merge-patch, and assemble one row per live entity,
/// in the order the runs stand in the log.
#[verifier::loop_isolation(false)]
pub fn event_agg(events: &Vec<Event>) -> (out: Vec<Projection>)
    requires
        grouped_by_id(events@),
        events_wf(events@),
    ensures
        forall|j: int| 0 <= j < out@.len() ==> row_ok(events@, #[trigger] out@[j]),
        forall|j1: int, j2: int|
            0 <= j1 < j2 < out@.len() ==> (#[trigger] out@[j1]).id != (#[trigger] out@[j2]).id,
        forall|id: u128| #[trigger] is_live(events@, id) ==> exists|j: int|
            0 <= j < out@.len() && (#[trigger] out@[j]).id == id,
        forall|j1: int, j2: int|
            0 <= j1 < j2 < out@.len() ==> precedes(
                events@,
                (#[trigger] out@[j1]).id,
                (#[trigger] out@[j2]).id,
            ),
{
    let ghost s = events@;
    let n = events.len();
    let mut out: Vec<Projection> = Vec::new();
    let mut i: usize = 0;
    proof {
        lemma_sweep_init(s);
        assert(out@ =~= Seq::<Projection>::empty());
    }
    while i < n
        invariant
            i <= n,
            i == 0 || i == n || s[i - 1].id != s[i as int].id,
            sweep_inv(s, i as int, out@),
        decreases n - i,
    {
        let start = i;
        let mut j: usize = i + 1;
        while j < n && events[j].id == events[start].id
            invariant
                start < j <= n,
                forall|m: int| start <= m < j ==> (#[trigger] s[m]).id == s[start as int].id,
            decreases n - j,
        {
            j += 1;
        }
        if events[j - 1].event != EventType::Drop {
            let doc = fold_run(events, start, j);
            let row = Projection {
                id: events[start].id,
                data: doc,
                source: events[start].source,
                added: events[start].added,
                updated: events[j - 1].added,
            };
            proof {
                lemma_sweep_emit(s, start as int, j as int, out@, row);
            }
            out.push(row);
        } else {
            proof {
                lemma_sweep_skip(s, start as int, j as int, out@);
            }
        }
        i = j;
    }
    proof {
        lemma_sweep_done(s, out@);
    }
    out
}


/// An entity whose last event is a tombstone has no projection row: of any
/// row set in which every row is correct for the log `s` — as the rows of
/// `event_agg` are — none names that entity.
pub proof fn lemma_tombstoned_excluded(s: Seq<Event>, rows: Seq<Projection>, id: u128)
    requires
        forall|j: int| 0 <= j < rows.len() ==> row_ok(s, #[trigger] rows[j]),
        events_for(s, id).len() == 0 || events_for(s, id).last().event == EventType::Drop,
    ensures
        forall|j: int| 0 <= j < rows.len() ==> (#[trigger] rows[j]).id != id,
{
    reveal(row_ok);
    reveal(is_live);
    assert forall|j: int| 0 <= j < rows.len() implies (#[trigger] rows[j]).id != id by {
        assert(row_ok(s, rows[j]));
    }
}

/// An entity whose last event is a save has exactly one projection row, with
/// `added` the first event's timestamp and `updated` the last event's: in any
/// row set meeting `event_agg`'s contract, one row names it and no second
/// does.
pub proof fn lemma_live_projected_once(s: Seq<Event>, rows: Seq<Projection>, id: u128)
    requires
        forall|j: int| 0 <= j < rows.len() ==> row_ok(s, #[trigger] rows[j]),
        forall|j1: int, j2: int|
            0 <= j1 < j2 < rows.len() ==> (#[trigger] rows[j1]).id != (#[trigger] rows[j2]).id,
        forall|id2: u128| #[trigger] is_live(s, id2) ==> exists|j: int|
            0 <= j < rows.len() && (#[trigger] rows[j]).id == id2,
        events_for(s, id).len() > 0,
        events_for(s, id).last().event != EventType::Drop,
    ensures
        exists|j: int|
            0 <= j < rows.len() && (#[trigger] rows[j]).id == id,
        forall|j1: int, j2: int|
            0 <= j1 < rows.len() && 0 <= j2 < rows.len() && (#[trigger] rows[j1]).id == id && (
            #[trigger] rows[j2]).id == id ==> j1 == j2,
        forall|j: int|
            0 <= j < rows.len() && (#[trigger] rows[j]).id == id ==> rows[j].added == events_for(
                s,
                id,
            )[0].added && rows[j].updated == events_for(s, id).last().added,
{
    assert(is_live(s, id)) by {
        reveal(is_live);
    }
    assert forall|j: int|
        0 <= j < rows.len() && (#[trigger] rows[j]).id == id implies rows[j].added == events_for(
        s,
        id,
    )[0].added && rows[j].updated == events_for(s, id).last().added by {
        assert(row_ok(s, rows[j]));
        reveal(row_ok);
    }
}

} // verus!
