use vstd::prelude::*;

use crate::time::Date;
use crate::config::{DivisibleTask, Event, MandatoryEvent, WorkTask};

verus! {

/// Mathematical image of a `MandatoryEvent`: its bounds in seconds.
pub ghost struct MandatoryEventModel {
    pub start: int,
    pub end: int,
}

/// Mathematical image of a `WorkTask`.
pub ghost struct WorkTaskModel {
    pub name: Seq<char>,
    pub timeslots: int,
    pub divisible: bool,
}

/// Mathematical image of a scheduled `Event`.
pub ghost struct EventModel {
    pub name: Seq<char>,
    pub start: int,
    pub end: int,
}

/// Mathematical image of a `DivisibleTask` remnant.
pub ghost struct RemnantModel {
    pub name: Seq<char>,
    pub dur: int,
}

/// Mathematical image of a `Config`.
pub ghost struct ConfigModel {
    pub day: Date,
    pub mandatory: Seq<MandatoryEventModel>,
    pub tasks: Seq<WorkTaskModel>,
    pub start: int,
    pub end: int,
    pub slot: int,
}

pub open spec fn mandatory_views(s: Seq<MandatoryEvent>) -> Seq<MandatoryEventModel> {
    s.map_values(|m: MandatoryEvent| m@)
}

pub open spec fn task_views(s: Seq<WorkTask>) -> Seq<WorkTaskModel> {
    s.map_values(|t: WorkTask| t@)
}

pub open spec fn event_views(s: Seq<Event>) -> Seq<EventModel> {
    s.map_values(|e: Event| e@)
}

pub open spec fn name_views(s: Seq<String>) -> Seq<Seq<char>> {
    s.map_values(|n: String| n@)
}

pub open spec fn remnant_views(s: Seq<DivisibleTask>) -> Seq<RemnantModel> {
    s.map_values(|t: DivisibleTask| t@)
}

/// Inserts `m` into `s` after every entry whose start is not later than
/// `m`'s, so that inserting into a start-sorted sequence keeps it sorted.
pub open spec fn insert_by_start(s: Seq<MandatoryEventModel>, m: MandatoryEventModel) -> Seq<MandatoryEventModel>
    decreases s.len(),
{
    if s.len() == 0 {
        seq![m]
    } else if s[0].start <= m.start {
        seq![s[0]] + insert_by_start(s.drop_first(), m)
    } else {
        seq![m] + s
    }
}

/// Insertion sort of mandatory events by start time.
pub open spec fn sort_by_start(s: Seq<MandatoryEventModel>) -> Seq<MandatoryEventModel>
    decreases s.len(),
{
    if s.len() == 0 {
        Seq::<MandatoryEventModel>::empty()
    } else {
        insert_by_start(sort_by_start(s.drop_last()), s.last())
    }
}

/// Inserting keeps any property that all entries and the new entry share.
pub proof fn lemma_insert_by_start_all(s: Seq<MandatoryEventModel>, m: MandatoryEventModel, p: spec_fn(MandatoryEventModel) -> bool)
    requires
        forall|i: int| 0 <= i < s.len() ==> #[trigger] p(s[i]),
        p(m),
    ensures
        forall|i: int| 0 <= i < insert_by_start(s, m).len() ==> #[trigger] p(insert_by_start(s, m)[i]),
    decreases s.len(),
{
    if s.len() == 0 {
        assert(insert_by_start(s, m)[0] == m);
    } else if s[0].start <= m.start {
        assert(forall|i: int| 0 <= i < s.drop_first().len() ==> #[trigger] p(s.drop_first()[i]));
        lemma_insert_by_start_all(s.drop_first(), m, p);
        let r = insert_by_start(s, m);
        assert forall|i: int| 0 <= i < r.len() implies #[trigger] p(r[i]) by {
            if i == 0 {
                assert(r[0] == s[0]);
            } else {
                assert(r[i] == insert_by_start(s.drop_first(), m)[i - 1]);
            }
        }
    } else {
        let r = insert_by_start(s, m);
        assert forall|i: int| 0 <= i < r.len() implies #[trigger] p(r[i]) by {
            if i == 0 {
                assert(r[0] == m);
            } else {
                assert(r[i] == s[i - 1]);
            }
        }
    }
}

/// Sorting keeps any property that all entries share.
pub proof fn lemma_sort_by_start_all(s: Seq<MandatoryEventModel>, p: spec_fn(MandatoryEventModel) -> bool)
    requires
        forall|i: int| 0 <= i < s.len() ==> #[trigger] p(s[i]),
    ensures
        forall|i: int| 0 <= i < sort_by_start(s).len() ==> #[trigger] p(sort_by_start(s)[i]),
    decreases s.len(),
{
    if s.len() > 0 {
        assert(forall|i: int| 0 <= i < s.drop_last().len() ==> #[trigger] p(s.drop_last()[i]));
        lemma_sort_by_start_all(s.drop_last(), p);
        lemma_insert_by_start_all(sort_by_start(s.drop_last()), s.last(), p);
    }
}

/// The FIFO queue of atomic units: every non-divisible task contributes
/// `timeslots` copies of its name, tasks in pool order.
pub open spec fn atomic_queue(tasks: Seq<WorkTaskModel>) -> Seq<Seq<char>>
    decreases tasks.len(),
{
    if tasks.len() == 0 {
        Seq::<Seq<char>>::empty()
    } else {
        let head = atomic_queue(tasks.drop_last());
        let t = tasks.last();
        if !t.divisible {
            head + Seq::new(t.timeslots as nat, |i: int| t.name)
        } else {
            head
        }
    }
}

/// The pool of divisible remnants: every divisible task contributes
/// `timeslots` remnants, each initially one timeslot long.
pub open spec fn divisible_queue(tasks: Seq<WorkTaskModel>, slot: int) -> Seq<RemnantModel>
    decreases tasks.len(),
{
    if tasks.len() == 0 {
        Seq::<RemnantModel>::empty()
    } else {
        let head = divisible_queue(tasks.drop_last(), slot);
        let t = tasks.last();
        if t.divisible {
            head + Seq::new(t.timeslots as nat, |i: int| RemnantModel { name: t.name, dur: slot })
        } else {
            head
        }
    }
}

/// The index of the first remnant with the largest remaining duration; the
/// remnant that a pop of the max-priority queue removes.
pub open spec fn first_max_index(q: Seq<RemnantModel>) -> int
    decreases q.len(),
{
    if q.len() <= 1 {
        0
    } else {
        let r = first_max_index(q.drop_last());
        if q.last().dur > q[r].dur {
            q.len() - 1
        } else {
            r
        }
    }
}

/// The atomic phase of one gap: while the atomic queue is non-empty and a
/// whole timeslot fits before `next_start`, pop one unit and emit it.
/// Returns the emitted events, the remaining queue, and the new clock.
pub open spec fn atomic_phase(q: Seq<Seq<char>>, cur: int, next_start: int, slot: int) -> (Seq<EventModel>, Seq<Seq<char>>, int)
    decreases q.len(),
{
    if q.len() > 0 && next_start - cur >= slot {
        let rest = atomic_phase(q.drop_first(), cur + slot, next_start, slot);
        (seq![EventModel { name: q[0], start: cur, end: cur + slot }] + rest.0, rest.1, rest.2)
    } else {
        (Seq::<EventModel>::empty(), q, cur)
    }
}

/// The first maximum's index is always a valid index, and no remnant is
/// longer than the one it points at.
pub proof fn lemma_first_max_index_bounds(q: Seq<RemnantModel>)
    requires
        q.len() > 0,
    ensures
        0 <= first_max_index(q) < q.len(),
        forall|j: int| 0 <= j < q.len() ==> #[trigger] q[j].dur <= q[first_max_index(q)].dur,
    decreases q.len(),
{
    if q.len() > 1 {
        lemma_first_max_index_bounds(q.drop_last());
        assert(forall|j: int| 0 <= j < q.len() - 1 ==> q[j] == q.drop_last()[j]);
    }
}

/// The divisible phase of one gap: while the remnant pool is non-empty and
/// any time is left before `next_start`, pop the longest remnant. A remnant
/// longer than the gap fills the gap exactly, goes back shortened, and the
/// clock jumps to `mandatory_end`; a remnant that fits is consumed whole.
/// Returns the emitted events, the remaining pool, and the new clock.
pub open spec fn divisible_phase(q: Seq<RemnantModel>, cur: int, next_start: int, mandatory_end: int) -> (Seq<EventModel>, Seq<RemnantModel>, int)
    decreases q.len()
        via divisible_phase_decreases
{
    if q.len() > 0 && next_start - cur > 0 {
        let gap = next_start - cur;
        let i = first_max_index(q);
        let r = q[i];
        if r.dur > gap {
            (seq![EventModel { name: r.name, start: cur, end: next_start }],
             q.remove(i).push(RemnantModel { name: r.name, dur: r.dur - gap }),
             mandatory_end)
        } else {
            let rest = divisible_phase(q.remove(i), cur + r.dur, next_start, mandatory_end);
            (seq![EventModel { name: r.name, start: cur, end: cur + r.dur }] + rest.0, rest.1, rest.2)
        }
    } else {
        (Seq::<EventModel>::empty(), q, cur)
    }
}

#[via_fn]
proof fn divisible_phase_decreases(q: Seq<RemnantModel>, cur: int, next_start: int, mandatory_end: int) {
    if q.len() > 0 && next_start - cur > 0 {
        lemma_first_max_index_bounds(q);
    }
}

/// The greedy allocation walk: for each mandatory event in order, fill the
/// gap before it (atomic units first, then divisible remnants) and advance
/// the clock to the event's end.
pub open spec fn allocate_loop(ms: Seq<MandatoryEventModel>, aq: Seq<Seq<char>>, dq: Seq<RemnantModel>, cur: int, slot: int) -> Seq<EventModel>
    decreases ms.len(),
{
    if ms.len() == 0 {
        Seq::<EventModel>::empty()
    } else {
        let a = atomic_phase(aq, cur, ms[0].start, slot);
        let d = divisible_phase(dq, a.2, ms[0].start, ms[0].end);
        a.0 + d.0 + allocate_loop(ms.drop_first(), a.1, d.1, ms[0].end, slot)
    }
}

/// The synthetic trailing mandatory event at the day's end, which makes the
/// allocation walk flush the free time after the last real mandatory event.
pub open spec fn sentinel(c: ConfigModel) -> MandatoryEventModel {
    MandatoryEventModel { start: c.end, end: c.end }
}

/// The schedule that one run produces: sort the mandatory events, append the
/// sentinel, build the two task queues, and run the allocation walk from the
/// day's start.
pub open spec fn spec_schedule(c: ConfigModel) -> Seq<EventModel> {
    allocate_loop(
        sort_by_start(c.mandatory).push(sentinel(c)),
        atomic_queue(c.tasks),
        divisible_queue(c.tasks, c.slot),
        c.start,
        c.slot,
    )
}

} // verus!
