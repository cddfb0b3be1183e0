//! The typed, flat two-field variant of the projection: a game carries a
//! `name` and a `description`, and each save event patches them with
//! last-wins, tri-state semantics (field omitted: kept; field cleared: an
//! inner `None`; field set: overwritten), reproducing merge-patch on this
//! fixed schema.
use crate::events::{events_for, fold_docs, is_live, row_ok, Event, EventType, Projection};
use crate::value::{doc_get, doc_of, Doc};
use vstd::prelude::*;

verus! {

/// A partial game document. `description` is tri-state through the double
/// option: outer `None` leaves the prior value, `Some(None)` clears it,
/// `Some(Some(v))` sets it.
#[derive(Debug, PartialEq, Eq)]
pub struct GameData {
    pub name: Option<String>,
    pub description: Option<Option<String>>,
}

/// An immutable fact of the game log.
#[derive(Debug, PartialEq, Eq)]
pub struct GameEvent {
    pub id: u128,
    pub data: Option<GameData>,
    pub event: EventType,
    pub added: i64,
}

/// One projected game row.
#[derive(Debug, PartialEq, Eq)]
pub struct GameRow {
    pub id: u128,
    pub name: Option<String>,
    pub description: Option<Option<String>>,
    pub added: i64,
    pub updated: i64,
}

impl GameEvent {
    /// An event record with the given fields.
    pub fn new(id: u128, data: Option<GameData>, event: EventType, added: i64) -> (e: GameEvent)
        ensures
            e == (GameEvent { id, data, event, added }),
    {
        GameEvent { id, data, event, added }
    }
}

/// Last-wins on one field: a present new value replaces the old, an absent
/// one keeps it.
pub open spec fn keep_or<T>(new: Option<T>, old: Option<T>) -> Option<T> {
    match new {
        Some(v) => Some(v),
        None => old,
    }
}

/// The last-wins fold of the data of `s`, oldest first: each field of the
/// result is the value the last event to mention that field gave it.
pub open spec fn fold_game(s: Seq<GameEvent>) -> (Option<Seq<char>>, Option<
    Option<Seq<char>>,
>)
    decreases s.len(),
{
    if s.len() == 0 {
        (None, None)
    } else {
        let prev = fold_game(s.drop_last());
        match s.last().data {
            Some(d) => (keep_or(d.name.deep_view(), prev.0), keep_or(
                d.description.deep_view(),
                prev.1,
            )),
            None => prev,
        }
    }
}

/// The predicate selecting the events of one game.
pub open spec fn with_game_id(id: u128) -> spec_fn(GameEvent) -> bool {
    |e: GameEvent| e.id == id
}

/// The events of one game, in log order. Opaque: proofs reveal it where the
/// sweep relates it to a contiguous run.
#[verifier::opaque]
pub open spec fn games_for(s: Seq<GameEvent>, id: u128) -> Seq<GameEvent> {
    s.filter(with_game_id(id))
}

/// Contiguity: all events of one game stand adjacent in the log.
pub open spec fn games_grouped(s: Seq<GameEvent>) -> bool {
    forall|i: int, j: int, l: int|
        #![trigger s[i], s[j], s[l]]
        0 <= i <= j <= l < s.len() && s[i].id == s[l].id ==> s[j].id == s[i].id
}

/// A game is live when it has events and its last event is not a tombstone.
#[verifier::opaque]
pub open spec fn game_live(s: Seq<GameEvent>, id: u128) -> bool {
    let evs = games_for(s, id);
    evs.len() > 0 && evs.last().event != EventType::Drop
}

/// What one game row holds for the log `s`: its game is live, its fields are
/// the last-wins fold of the game's data, and its timestamps are the first
/// and last events'.
#[verifier::opaque]
pub open spec fn game_row_ok(s: Seq<GameEvent>, r: GameRow) -> bool {
    let evs = games_for(s, r.id);
    &&& game_live(s, r.id)
    &&& r.name.deep_view() == fold_game(evs).0
    &&& r.description.deep_view() == fold_game(evs).1
    &&& r.added == evs[0].added
    &&& r.updated == evs.last().added
}

/// Every row is correct for `s`.
#[verifier::opaque]
pub open spec fn game_rows_ok(s: Seq<GameEvent>, rows: Seq<GameRow>) -> bool {
    forall|j: int| 0 <= j < rows.len() ==> game_row_ok(s, #[trigger] rows[j])
}

/// Rows name pairwise distinct games.
#[verifier::opaque]
pub open spec fn game_rows_distinct(rows: Seq<GameRow>) -> bool {
    forall|j1: int, j2: int|
        0 <= j1 < j2 < rows.len() ==> (#[trigger] rows[j1]).id != (#[trigger] rows[j2]).id
}

/// A row's game occurs only among the first `upto` events.
#[verifier::opaque]
pub open spec fn game_rows_before(s: Seq<GameEvent>, upto: int, rows: Seq<GameRow>) -> bool {
    forall|j: int, m: int|
        0 <= j < rows.len() && 0 <= m < s.len() && (#[trigger] s[m]).id == (
        #[trigger] rows[j]).id ==> m < upto
}

/// Every event of game `id1` stands before every event of game `id2`.
#[verifier::opaque]
pub open spec fn game_precedes(s: Seq<GameEvent>, id1: u128, id2: u128) -> bool {
    forall|i1: int, i2: int|
        0 <= i1 < s.len() && 0 <= i2 < s.len() && (#[trigger] s[i1]).id == id1 && (
        #[trigger] s[i2]).id == id2 ==> i1 < i2
}

/// Rows stand in log order: all events of an earlier row's game precede all
/// events of a later row's game.
#[verifier::opaque]
pub open spec fn game_rows_ordered(s: Seq<GameEvent>, rows: Seq<GameRow>) -> bool {
    forall|j1: int, j2: int|
        0 <= j1 < j2 < rows.len() ==> game_precedes(
            s,
            (#[trigger] rows[j1]).id,
            (#[trigger] rows[j2]).id,
        )
}

/// Every game that occurs in the first `upto` events of `s` and is live has
/// a row among `rows`.
#[verifier::opaque]
pub open spec fn games_covered(s: Seq<GameEvent>, upto: int, rows: Seq<GameRow>) -> bool {
    forall|m: int|
        0 <= m < upto && game_live(s, (#[trigger] s[m]).id) ==> exists|j: int|
            0 <= j < rows.len() && (#[trigger] rows[j]).id == s[m].id
}

/// The sweep's bookkeeping after the first `upto` events are processed.
pub open spec fn game_sweep_inv(s: Seq<GameEvent>, upto: int, rows: Seq<GameRow>) -> bool {
    &&& game_rows_ok(s, rows)
    &&& game_rows_distinct(rows)
    &&& game_rows_before(s, upto, rows)
    &&& game_rows_ordered(s, rows)
    &&& games_covered(s, upto, rows)
}

/// A log with no event of game `id` filters to nothing.
proof fn lemma_games_none(s: Seq<GameEvent>, id: u128)
    requires
        forall|m: int| 0 <= m < s.len() ==> (#[trigger] s[m]).id != id,
    ensures
        games_for(s, id) == Seq::<GameEvent>::empty(),
    decreases s.len(),
{
    reveal(games_for);
    reveal_with_fuel(Seq::filter, 2);
    if s.len() > 0 {
        lemma_games_none(s.drop_last(), id);
    }
}

/// A log made only of events of game `id` filters to itself.
proof fn lemma_games_all(s: Seq<GameEvent>, id: u128)
    requires
        forall|m: int| 0 <= m < s.len() ==> (#[trigger] s[m]).id == id,
    ensures
        games_for(s, id) == s,
    decreases s.len(),
{
    reveal(games_for);
    reveal_with_fuel(Seq::filter, 2);
    if s.len() > 0 {
        lemma_games_all(s.drop_last(), id);
        assert(games_for(s, id) == games_for(s.drop_last(), id).push(s.last()));
        assert(s =~= s.drop_last().push(s.last()));
    }
}

/// A filtered log is nonempty only when the game occurs in the log.
proof fn lemma_games_occurs(s: Seq<GameEvent>, id: u128)
    requires
        games_for(s, id).len() > 0,
    ensures
        exists|m: int| 0 <= m < s.len() && (#[trigger] s[m]).id == id,
    decreases s.len(),
{
    reveal(games_for);
    reveal_with_fuel(Seq::filter, 2);
    if s.len() > 0 {
        if with_game_id(id)(s.last()) {
            assert(s[s.len() - 1].id == id);
        } else {
            lemma_games_occurs(s.drop_last(), id);
            let m = choose|m: int| 0 <= m < s.len() - 1 && (#[trigger] s.drop_last()[m]).id == id;
            assert(s[m].id == id);
        }
    }
}

/// In a contiguous log, a maximal run of one game is exactly that game's
/// filtered sub-log, and the game occurs nowhere outside the run.
proof fn lemma_game_run_is_filter(s: Seq<GameEvent>, a: int, b: int)
    requires
        games_grouped(s),
        0 <= a < b <= s.len(),
        forall|m: int| a <= m < b ==> (#[trigger] s[m]).id == s[a].id,
        a == 0 || s[a - 1].id != s[a].id,
        b == s.len() || s[b].id != s[a].id,
    ensures
        games_for(s, s[a].id) == s.subrange(a, b),
        forall|m: int| 0 <= m < s.len() && !(a <= m < b) ==> (#[trigger] s[m]).id != s[a].id,
{
    reveal(games_for);
    let id = s[a].id;
    assert forall|m: int| 0 <= m < s.len() && !(a <= m < b) implies (#[trigger] s[m]).id != id by {
        if m < a && s[m].id == id {
            assert(s[a - 1].id == s[m].id);
        }
        if m >= b && s[m].id == id {
            assert(s[b].id == s[a].id);
        }
    }
    let s1 = s.subrange(0, a);
    let s2 = s.subrange(a, b);
    let s3 = s.subrange(b, s.len() as int);
    assert(s =~= (s1 + s2) + s3);
    Seq::filter_distributes_over_add(s1 + s2, s3, with_game_id(id));
    Seq::filter_distributes_over_add(s1, s2, with_game_id(id));
    lemma_games_none(s1, id);
    lemma_games_none(s3, id);
    lemma_games_all(s2, id);
    assert(games_for(s, id) =~= s2);
}

/// Before anything is processed, the empty row set is correct bookkeeping.
proof fn lemma_game_sweep_init(s: Seq<GameEvent>)
    ensures
        game_sweep_inv(s, 0, Seq::<GameRow>::empty()),
{
    reveal(game_rows_ok);
    reveal(game_rows_distinct);
    reveal(game_rows_before);
    reveal(game_rows_ordered);
    reveal(games_covered);
}

/// The row assembled for a maximal live run is correct for the whole log.
#[verifier::rlimit(50)]
proof fn lemma_game_row_for_run(s: Seq<GameEvent>, a: int, b: int, r: GameRow)
    requires
        games_grouped(s),
        0 <= a < b <= s.len(),
        forall|m: int| a <= m < b ==> (#[trigger] s[m]).id == s[a].id,
        a == 0 || s[a - 1].id != s[a].id,
        b == s.len() || s[b].id != s[a].id,
        s[b - 1].event != EventType::Drop,
        r.id == s[a].id,
        r.name.deep_view() == fold_game(s.subrange(a, b)).0,
        r.description.deep_view() == fold_game(s.subrange(a, b)).1,
        r.added == s[a].added,
        r.updated == s[b - 1].added,
    ensures
        game_row_ok(s, r),
{
    lemma_game_run_is_filter(s, a, b);
    let id = s[a].id;
    let evs = games_for(s, id);
    assert(evs == s.subrange(a, b));
    assert(evs[0] == s[a]);
    assert(evs.last() == s[b - 1]);
    assert(game_live(s, id)) by {
        reveal(game_live);
    }
    assert(game_row_ok(s, r)) by {
        reveal(game_row_ok);
    }
}

/// One emitted run keeps the sweep's bookkeeping.
proof fn lemma_game_sweep_emit(s: Seq<GameEvent>, a: int, b: int, rows: Seq<GameRow>, r: GameRow)
    requires
        games_grouped(s),
        0 <= a < b <= s.len(),
        forall|m: int| a <= m < b ==> (#[trigger] s[m]).id == s[a].id,
        a == 0 || s[a - 1].id != s[a].id,
        b == s.len() || s[b].id != s[a].id,
        s[b - 1].event != EventType::Drop,
        game_sweep_inv(s, a, rows),
        r.id == s[a].id,
        r.name.deep_view() == fold_game(s.subrange(a, b)).0,
        r.description.deep_view() == fold_game(s.subrange(a, b)).1,
        r.added == s[a].added,
        r.updated == s[b - 1].added,
    ensures
        game_sweep_inv(s, b, rows.push(r)),
{
    lemma_game_run_is_filter(s, a, b);
    lemma_game_row_for_run(s, a, b, r);
    let rows1 = rows.push(r);
    assert(game_rows_ok(s, rows1)) by {
        reveal(game_rows_ok);
    }
    assert(game_rows_distinct(rows1)) by {
        reveal(game_rows_distinct);
        reveal(game_rows_before);
        assert forall|j1: int, j2: int|
            0 <= j1 < j2 < rows1.len() implies (#[trigger] rows1[j1]).id != (
        #[trigger] rows1[j2]).id by {
            assert(rows1[j1] == rows[j1]);
            if j2 == rows.len() {
                if rows[j1].id == r.id {
                    assert(s[a].id == rows[j1].id);
                }
            } else {
                assert(rows1[j2] == rows[j2]);
            }
        }
    }
    assert(game_rows_before(s, b, rows1)) by {
        reveal(game_rows_before);
        assert forall|j: int, m: int|
            0 <= j < rows1.len() && 0 <= m < s.len() && (#[trigger] s[m]).id == (
        #[trigger] rows1[j]).id implies m < b by {
            if j < rows.len() {
                assert(rows1[j] == rows[j]);
            }
        }
    }
    assert(game_rows_ordered(s, rows1)) by {
        reveal(game_rows_ordered);
        reveal(game_rows_before);
        assert forall|j1: int, j2: int|
            0 <= j1 < j2 < rows1.len() implies game_precedes(
            s,
            (#[trigger] rows1[j1]).id,
            (#[trigger] rows1[j2]).id,
        ) by {
            assert(rows1[j1] == rows[j1]);
            if j2 == rows.len() {
                assert(game_precedes(s, rows[j1].id, r.id)) by {
                    reveal(game_precedes);
                    assert forall|i1: int, i2: int|
                        0 <= i1 < s.len() && 0 <= i2 < s.len() && (#[trigger] s[i1]).id
                            == rows[j1].id && (#[trigger] s[i2]).id == r.id implies i1 < i2 by {
                        assert(i1 < a);
                        assert(a <= i2 < b);
                    }
                }
            } else {
                assert(rows1[j2] == rows[j2]);
            }
        }
    }
    assert(games_covered(s, b, rows1)) by {
        reveal(games_covered);
        assert forall|m: int|
            0 <= m < b && game_live(s, (#[trigger] s[m]).id) implies exists|j: int|
            0 <= j < rows1.len() && (#[trigger] rows1[j]).id == s[m].id by {
            if m < a {
                let j0 = choose|j0: int|
                    0 <= j0 < rows.len() && (#[trigger] rows[j0]).id == s[m].id;
                assert(rows1[j0].id == s[m].id);
            } else {
                assert(rows1[rows.len() as int].id == s[m].id);
            }
        }
    }
}

/// One skipped, tombstoned run keeps the sweep's bookkeeping.
proof fn lemma_game_sweep_skip(s: Seq<GameEvent>, a: int, b: int, rows: Seq<GameRow>)
    requires
        games_grouped(s),
        0 <= a < b <= s.len(),
        forall|m: int| a <= m < b ==> (#[trigger] s[m]).id == s[a].id,
        a == 0 || s[a - 1].id != s[a].id,
        b == s.len() || s[b].id != s[a].id,
        s[b - 1].event == EventType::Drop,
        game_sweep_inv(s, a, rows),
    ensures
        game_sweep_inv(s, b, rows),
{
    lemma_game_run_is_filter(s, a, b);
    let id = s[a].id;
    let evs = games_for(s, id);
    assert(evs == s.subrange(a, b));
    assert(evs.last() == s[b - 1]);
    assert(!game_live(s, id)) by {
        reveal(game_live);
    }
    assert(game_rows_before(s, b, rows)) by {
        reveal(game_rows_before);
    }
    assert(games_covered(s, b, rows)) by {
        reveal(games_covered);
        assert forall|m: int|
            0 <= m < b && game_live(s, (#[trigger] s[m]).id) implies exists|j: int|
            0 <= j < rows.len() && (#[trigger] rows[j]).id == s[m].id by {
            if m >= a {
                assert(s[m].id == s[a].id);
            }
        }
    }
}

/// When the whole log is processed, the bookkeeping gives the pass's
/// contract.
proof fn lemma_game_sweep_done(s: Seq<GameEvent>, rows: Seq<GameRow>)
    requires
        game_sweep_inv(s, s.len() as int, rows),
    ensures
        forall|j: int| 0 <= j < rows.len() ==> game_row_ok(s, #[trigger] rows[j]),
        forall|j1: int, j2: int|
            0 <= j1 < j2 < rows.len() ==> (#[trigger] rows[j1]).id != (#[trigger] rows[j2]).id,
        forall|id: u128| #[trigger] game_live(s, id) ==> exists|j: int|
            0 <= j < rows.len() && (#[trigger] rows[j]).id == id,
        forall|j1: int, j2: int|
            0 <= j1 < j2 < rows.len() ==> game_precedes(
                s,
                (#[trigger] rows[j1]).id,
                (#[trigger] rows[j2]).id,
            ),
{
    reveal(game_rows_ok);
    reveal(game_rows_distinct);
    reveal(game_rows_ordered);
    assert forall|id: u128| #[trigger] game_live(s, id) implies exists|j: int|
        0 <= j < rows.len() && (#[trigger] rows[j]).id == id by {
        reveal(games_covered);
        assert(games_for(s, id).len() > 0) by {
            reveal(game_live);
        }
        lemma_games_occurs(s, id);
        let m = choose|m: int| 0 <= m < s.len() && (#[trigger] s[m]).id == id;
        assert(game_live(s, s[m].id));
    }
}

/// The last-wins fold of the data of `events[start..end]`, oldest first.
#[verifier::loop_isolation(false)]
fn fold_game_run(events: &Vec<GameEvent>, start: usize, end: usize) -> (r: (Option<String>, Option<
    Option<String>,
>))
    requires
        start <= end <= events@.len(),
    ensures
        r.0.deep_view() == fold_game(events@.subrange(start as int, end as int)).0,
        r.1.deep_view() == fold_game(events@.subrange(start as int, end as int)).1,
{
    let ghost s = events@;
    let mut name: Option<String> = None;
    let mut description: Option<Option<String>> = None;
    proof {
        assert(s.subrange(start as int, start as int) =~= Seq::<GameEvent>::empty());
    }
    let mut q = start;
    while q < end
        invariant
            start <= q <= end,
            name.deep_view() == fold_game(s.subrange(start as int, q as int)).0,
            description.deep_view() == fold_game(s.subrange(start as int, q as int)).1,
        decreases end - q,
    {
        proof {
            assert(s.subrange(start as int, q as int + 1).drop_last() =~= s.subrange(
                start as int,
                q as int,
            ));
            assert(s.subrange(start as int, q as int + 1).last() == s[q as int]);
        }
        match &events[q].data {
            Some(d) => {
                match &d.name {
                    Some(v) => {
                        name = Some(v.clone());
                    },
                    None => {},
                }
                match &d.description {
                    Some(v) => {
                        match v {
                            Some(t) => {
                                description = Some(Some(t.clone()));
                            },
                            None => {
                                description = Some(None);
                            },
                        }
                    },
                    None => {},
                }
            },
            None => {},
        }
        q += 1;
    }
    (name, description)
}

/// One projection pass over a snapshot of the game log: group contiguous
/// runs by game, drop games whose last event is a tombstone, fold the data
/// of the survivors field by field with last-wins, and assemble one row per
/// live game.
#[verifier::loop_isolation(false)]
pub fn game_agg(events: &Vec<GameEvent>) -> (out: Vec<GameRow>)
    requires
        games_grouped(events@),
    ensures
        forall|j: int| 0 <= j < out@.len() ==> game_row_ok(events@, #[trigger] out@[j]),
        forall|j1: int, j2: int|
            0 <= j1 < j2 < out@.len() ==> (#[trigger] out@[j1]).id != (#[trigger] out@[j2]).id,
        forall|id: u128| #[trigger] game_live(events@, id) ==> exists|j: int|
            0 <= j < out@.len() && (#[trigger] out@[j]).id == id,
        forall|j1: int, j2: int|
            0 <= j1 < j2 < out@.len() ==> game_precedes(
                events@,
                (#[trigger] out@[j1]).id,
                (#[trigger] out@[j2]).id,
            ),
{
    let ghost s = events@;
    let n = events.len();
    let mut out: Vec<GameRow> = Vec::new();
    let mut i: usize = 0;
    proof {
        lemma_game_sweep_init(s);
        assert(out@ =~= Seq::<GameRow>::empty());
    }
    while i < n
        invariant
            i <= n,
            i == 0 || i == n || s[i - 1].id != s[i as int].id,
            game_sweep_inv(s, i as int, out@),
        decreases n - i,
    {
        let start = i;
        let mut j: usize = i + 1;
        while j < n && events[j].id == events[start].id
            invariant
                start < j <= n,
                forall|m: int| start <= m < j ==> (#[trigger] s[m]).id == s[start as int].id,
            decreases n - j,
        {
            j += 1;
        }
        if events[j - 1].event != EventType::Drop {
            let fields = fold_game_run(events, start, j);
            let row = GameRow {
                id: events[start].id,
                name: fields.0,
                description: fields.1,
                added: events[start].added,
                updated: events[j - 1].added,
            };
            proof {
                lemma_game_sweep_emit(s, start as int, j as int, out@, row);
            }
            out.push(row);
        } else {
            proof {
                lemma_game_sweep_skip(s, start as int, j as int, out@);
            }
        }
        i = j;
    }
    proof {
        lemma_game_sweep_done(s, out@);
    }
    out
}

/// The generic document patch that one flat game datum stands for: `name`
/// present when given, `description` absent, explicitly `Null`, or a string,
/// after its tri-state.
pub open spec fn patch_of(d: GameData) -> Doc {
    let m0 = Map::<Seq<char>, Doc>::empty();
    let m1 = match d.name {
        Some(x) => m0.insert("name"@, Doc::Str(x@)),
        None => m0,
    };
    let m2 = match d.description {
        None => m1,
        Some(None) => m1.insert("description"@, Doc::Null),
        Some(Some(x)) => m1.insert("description"@, Doc::Str(x@)),
    };
    Doc::Obj(m2)
}

/// One flat event and one generic event carry the same fact.
pub open spec fn mirrors_event(ge: GameEvent, ev: Event) -> bool {
    &&& ev.id == ge.id
    &&& ev.event == ge.event
    &&& ev.added == ge.added
    &&& match ge.data {
        Some(d) => ev.data matches Some(v) && doc_of(v) == patch_of(d),
        None => ev.data is None,
    }
}

/// One flat log and one generic log carry the same history.
pub open spec fn mirrors(g: Seq<GameEvent>, e: Seq<Event>) -> bool {
    g.len() == e.len() && forall|i: int|
        0 <= i < g.len() ==> mirrors_event(#[trigger] g[i], e[i])
}

/// The flat last-wins fold reproduces the generic merge-patch fold on the
/// two-field schema: for mirrored histories, the merged document holds `name`
/// exactly when the flat fold gives one, with the same string, and holds
/// `description` exactly when the flat fold gives a set (not cleared, not
/// omitted) value, with the same string.
pub proof fn lemma_flat_fold_matches_merge(g: Seq<GameEvent>, e: Seq<Event>)
    requires
        mirrors(g, e),
    ensures
        fold_docs(e) is Obj,
        doc_get(fold_docs(e), "name"@) == match fold_game(g).0 {
            Some(x) => Some(Doc::Str(x)),
            None => None::<Doc>,
        },
        doc_get(fold_docs(e), "description"@) == match fold_game(g).1 {
            Some(Some(x)) => Some(Doc::Str(x)),
            _ => None::<Doc>,
        },
    decreases g.len(),
{
    let kn = "name"@;
    let kd = "description"@;
    assert(kn != kd) by {
        reveal_strlit("name");
        reveal_strlit("description");
        assert(kn.len() == 4);
        assert(kd.len() == 11);
    }
    if g.len() == 0 {
        assert(e =~= Seq::<Event>::empty());
    } else {
        assert(mirrors(g.drop_last(), e.drop_last())) by {
            assert forall|i: int| 0 <= i < g.len() - 1 implies mirrors_event(
                #[trigger] g.drop_last()[i],
                e.drop_last()[i],
            ) by {
                assert(g.drop_last()[i] == g[i]);
                assert(e.drop_last()[i] == e[i]);
                assert(mirrors_event(g[i], e[i]));
            }
        }
        lemma_flat_fold_matches_merge(g.drop_last(), e.drop_last());
        let prev = fold_docs(e.drop_last());
        let pg = fold_game(g.drop_last());
        assert(mirrors_event(g.last(), e.last())) by {
            assert(mirrors_event(g[g.len() - 1], e[g.len() - 1]));
        }
        match g.last().data {
            Some(d) => {
                let p = patch_of(d);
                assert(fold_docs(e) == crate::value::merge(prev, p));
                crate::value::lemma_merge_obj(prev, p);
                let tm = crate::value::target_obj(prev);
                assert(tm == prev->Obj_0);
                let rm = crate::value::merged_obj(tm, p->Obj_0);
                match d.name {
                    Some(x) => {
                        assert(p->Obj_0[kn] == Doc::Str(x@));
                        assert(rm[kn] == Doc::Str(x@));
                    },
                    None => {
                        assert(!p->Obj_0.dom().contains(kn));
                    },
                }
                match d.description {
                    None => {
                        assert(!p->Obj_0.dom().contains(kd));
                    },
                    Some(None) => {
                        assert(p->Obj_0[kd] is Null);
                        assert(!rm.dom().contains(kd));
                    },
                    Some(Some(x)) => {
                        assert(p->Obj_0[kd] == Doc::Str(x@));
                        assert(rm[kd] == Doc::Str(x@));
                    },
                }
            },
            None => {
                assert(fold_docs(e) == prev);
                assert(fold_game(g) == pg);
            },
        }
    }
}

/// Mirrored histories extended by one mirrored event stay mirrored.
proof fn lemma_mirrors_push(g: Seq<GameEvent>, e: Seq<Event>, ge: GameEvent, ev: Event)
    requires
        mirrors(g, e),
        mirrors_event(ge, ev),
    ensures
        mirrors(g.push(ge), e.push(ev)),
{
    let g1 = g.push(ge);
    let e1 = e.push(ev);
    assert forall|i: int| 0 <= i < g1.len() implies mirrors_event(#[trigger] g1[i], e1[i]) by {
        if i < g.len() {
            assert(g1[i] == g[i]);
            assert(e1[i] == e[i]);
        }
    }
}

/// Shortening mirrored histories by their last events keeps them mirrored.
proof fn lemma_mirrors_drop_last(g: Seq<GameEvent>, e: Seq<Event>)
    requires
        mirrors(g, e),
        g.len() > 0,
    ensures
        mirrors(g.drop_last(), e.drop_last()),
{
    assert forall|i: int| 0 <= i < g.len() - 1 implies mirrors_event(
        #[trigger] g.drop_last()[i],
        e.drop_last()[i],
    ) by {
        assert(g.drop_last()[i] == g[i]);
        assert(e.drop_last()[i] == e[i]);
        assert(mirrors_event(g[i], e[i]));
    }
}

/// Filtering mirrored histories by one entity gives mirrored histories.
proof fn lemma_mirrors_filter(g: Seq<GameEvent>, e: Seq<Event>, id: u128)
    requires
        mirrors(g, e),
    ensures
        mirrors(games_for(g, id), events_for(e, id)),
    decreases g.len(),
{
    reveal(games_for);
    reveal(crate::events::events_for);
    reveal_with_fuel(Seq::filter, 2);
    if g.len() == 0 {
        assert(g =~= Seq::<GameEvent>::empty());
        assert(e =~= Seq::<Event>::empty());
    } else {
        lemma_mirrors_drop_last(g, e);
        lemma_mirrors_filter(g.drop_last(), e.drop_last(), id);
        assert(mirrors_event(g.last(), e.last())) by {
            assert(mirrors_event(g[g.len() - 1], e[g.len() - 1]));
        }
        if with_game_id(id)(g.last()) {
            assert(crate::events::with_id(id)(e.last()));
            lemma_mirrors_push(
                games_for(g.drop_last(), id),
                events_for(e.drop_last(), id),
                g.last(),
                e.last(),
            );
        } else {
            assert(!crate::events::with_id(id)(e.last()));
        }
    }
}

/// For mirrored histories, the flat pass and the generic pass keep and drop
/// the same entities.
pub proof fn lemma_mirrors_liveness(g: Seq<GameEvent>, e: Seq<Event>, id: u128)
    requires
        mirrors(g, e),
    ensures
        game_live(g, id) == is_live(e, id),
{
    lemma_mirrors_filter(g, e, id);
    reveal(game_live);
    reveal(crate::events::is_live);
    let gf = games_for(g, id);
    let ef = events_for(e, id);
    if gf.len() > 0 {
        assert(mirrors_event(gf[gf.len() - 1], ef[gf.len() - 1]));
    }
}

/// For mirrored histories, a flat row and a generic row of the same entity
/// show the same state: the same timestamps, and a document holding `name`
/// and `description` exactly where the flat row has them set, with the same
/// strings.
pub proof fn lemma_flat_row_matches_merge_row(
    g: Seq<GameEvent>,
    e: Seq<Event>,
    gr: GameRow,
    er: Projection,
)
    requires
        mirrors(g, e),
        game_row_ok(g, gr),
        row_ok(e, er),
        er.id == gr.id,
    ensures
        gr.added == er.added,
        gr.updated == er.updated,
        doc_get(er.data@, "name"@) == match gr.name {
            Some(x) => Some(Doc::Str(x@)),
            None => None::<Doc>,
        },
        doc_get(er.data@, "description"@) == match gr.description {
            Some(Some(x)) => Some(Doc::Str(x@)),
            _ => None::<Doc>,
        },
{
    lemma_mirrors_filter(g, e, gr.id);
    let gf = games_for(g, gr.id);
    let ef = events_for(e, gr.id);
    lemma_flat_fold_matches_merge(gf, ef);
    reveal(game_row_ok);
    reveal(crate::events::row_ok);
    assert(gf.len() > 0) by {
        reveal(game_live);
    }
    assert(mirrors_event(gf[0], ef[0]));
    assert(mirrors_event(gf[gf.len() - 1], ef[gf.len() - 1]));
}

} // verus!
