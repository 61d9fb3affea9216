use vstd::prelude::*;

use crate::time::{Date, TimeOfDay};
use crate::model::{EventModel, MandatoryEventModel, RemnantModel, WorkTaskModel, ConfigModel};
use crate::model;

verus! {

/// A fixed, immovable block of time that scheduling must avoid.
#[derive(Clone, Copy, Debug, PartialEq, Eq, Structural)]
pub struct MandatoryEvent {
    pub start: TimeOfDay,
    pub end: TimeOfDay,
}

impl View for MandatoryEvent {
    type V = MandatoryEventModel;

    open spec fn view(&self) -> MandatoryEventModel {
        MandatoryEventModel { start: self.start@, end: self.end@ }
    }
}

/// A flexible work task: how many fixed-size timeslots it needs in total,
/// and whether a single timeslot's worth of work may be split across
/// non-contiguous free gaps.
#[derive(Clone, Debug, PartialEq, Eq)]
pub struct WorkTask {
    pub name: String,
    pub timeslots: usize,
    pub divisible: bool,
}

impl View for WorkTask {
    type V = WorkTaskModel;

    open spec fn view(&self) -> WorkTaskModel {
        WorkTaskModel { name: self.name@, timeslots: self.timeslots as int, divisible: self.divisible }
    }
}

/// One allocated block of work in the output schedule.
#[derive(Clone, Debug, PartialEq, Eq)]
pub struct Event {
    pub name: String,
    pub start_time: TimeOfDay,
    pub end_time: TimeOfDay,
}

impl View for Event {
    type V = EventModel;

    open spec fn view(&self) -> EventModel {
        EventModel { name: self.name@, start: self.start_time@, end: self.end_time@ }
    }
}

impl Event {
    pub fn new(name: String, start_time: TimeOfDay, end_time: TimeOfDay) -> (e: Event)
        ensures
            e@ == (EventModel { name: name@, start: start_time@, end: end_time@ }),
    {
        Event { name, start_time, end_time }
    }
}

/// The still-unconsumed portion of one divisible task's timeslot unit.
#[derive(Clone, Debug)]
pub struct DivisibleTask {
    pub dur: u32,
    pub name: String,
}

impl View for DivisibleTask {
    type V = RemnantModel;

    open spec fn view(&self) -> RemnantModel {
        RemnantModel { name: self.name@, dur: self.dur as int }
    }
}

impl DivisibleTask {
    pub fn new(name: String, dur: u32) -> (t: DivisibleTask)
        ensures
            t@ == (RemnantModel { name: name@, dur: dur as int }),
    {
        DivisibleTask { name, dur }
    }
}

/// The ordered output of one scheduling run.
pub type Schedule = Vec<Event>;

/// One day's scheduling input: the day's bounds, the fixed-size timeslot
/// duration (given as a wall-clock time, whose distance from midnight is the
/// duration), the fixed mandatory events, and the pool of work tasks.
#[derive(Clone, Debug)]
pub struct Config {
    pub day: Date,
    pub mandatory: Vec<MandatoryEvent>,
    pub tasks: Vec<WorkTask>,
    pub start_time: TimeOfDay,
    pub end_time: TimeOfDay,
    pub timeslots_size: TimeOfDay,
}

impl View for Config {
    type V = ConfigModel;

    open spec fn view(&self) -> ConfigModel {
        ConfigModel {
            day: self.day,
            mandatory: model::mandatory_views(self.mandatory@),
            tasks: model::task_views(self.tasks@),
            start: self.start_time@,
            end: self.end_time@,
            slot: self.timeslots_size@,
        }
    }
}

/// Places `m` in the start-sorted vector `r`, after every entry whose start
/// is not later than `m`'s.
fn insert_sorted_by_start(r: &mut Vec<MandatoryEvent>, m: MandatoryEvent)
    ensures
        model::mandatory_views(final(r)@) == model::insert_by_start(model::mandatory_views(old(r)@), m@),
{
    let ghost v = model::mandatory_views(r@);
    let ghost target = model::insert_by_start(v, m@);
    let mut p: usize = 0;
    proof {
        assert(v.skip(0) =~= v);
        assert(v.take(0) + model::insert_by_start(v, m@) =~= model::insert_by_start(v, m@));
    }
    while p < r.len() && r[p].start.seconds <= m.start.seconds
        invariant
            p <= r.len(),
            v == model::mandatory_views(r@),
            target == model::insert_by_start(v, m@),
            target == v.take(p as int) + model::insert_by_start(v.skip(p as int), m@),
        decreases r.len() - p,
    {
        proof {
            assert(v.skip(p as int).len() > 0);
            assert(v.skip(p as int)[0] == v[p as int]);
            assert(v.skip(p as int).drop_first() =~= v.skip(p as int + 1));
            assert(v.take(p as int).push(v[p as int]) =~= v.take(p as int + 1));
            assert(v.take(p as int) + (seq![v[p as int]] + model::insert_by_start(v.skip(p as int + 1), m@))
                =~= v.take(p as int + 1) + model::insert_by_start(v.skip(p as int + 1), m@));
        }
        p = p + 1;
    }
    proof {
        if p < r.len() {
            assert(v.skip(p as int).len() > 0);
            assert(v.skip(p as int)[0] == v[p as int]);
            assert(target =~= v.take(p as int) + (seq![m@] + v.skip(p as int)));
        } else {
            assert(v.skip(p as int).len() == 0);
            assert(target =~= v.take(p as int) + seq![m@]);
        }
    }
    r.insert(p, m);
    proof {
        assert(model::mandatory_views(r@) =~= target);
    }
}

/// Removes and returns the first remnant with the largest remaining
/// duration: the pop of the max-priority queue of remnants.
fn pop_max(q: &mut Vec<DivisibleTask>) -> (t: DivisibleTask)
    requires
        old(q).len() > 0,
    ensures
        ({
            let v = model::remnant_views(old(q)@);
            let i = model::first_max_index(v);
            &&& t@ == v[i]
            &&& model::remnant_views(final(q)@) == v.remove(i)
        }),
{
    let ghost v = model::remnant_views(q@);
    let mut best: usize = 0;
    let mut i: usize = 1;
    proof {
        assert(v.take(1).len() == 1);
        assert(model::first_max_index(v.take(1)) == 0);
    }
    while i < q.len()
        invariant
            1 <= i <= q.len(),
            best < i,
            q.len() >= 1,
            v == model::remnant_views(q@),
            best as int == model::first_max_index(v.take(i as int)),
        decreases q.len() - i,
    {
        proof {
            assert(v.take(i as int + 1).drop_last() =~= v.take(i as int));
            assert(v.take(i as int + 1).last() == v[i as int]);
            assert(v[i as int] == q@[i as int]@);
            assert(v[best as int] == q@[best as int]@);
        }
        if q[i].dur > q[best].dur {
            best = i;
        }
        i = i + 1;
    }
    proof {
        assert(v.take(q@.len() as int) =~= v);
    }
    let t = q.remove(best);
    proof {
        assert(model::remnant_views(q@) =~= v.remove(best as int));
    }
    t
}

/// Runs the atomic phase of one gap: while the atomic queue is non-empty and
/// a whole timeslot still fits before `next_start`, pop the front unit and
/// emit it at the clock; returns the advanced clock.
fn run_atomic_phase(
    schedule: &mut Vec<Event>,
    q: &mut Vec<String>,
    start: TimeOfDay,
    next_start: TimeOfDay,
    timeslot: u32,
) -> (new_cur: TimeOfDay)
    ensures
        ({
            let a = model::atomic_phase(model::name_views(old(q)@), start@, next_start@, timeslot as int);
            &&& model::event_views(final(schedule)@) == model::event_views(old(schedule)@) + a.0
            &&& model::name_views(final(q)@) == a.1
            &&& new_cur@ == a.2
        }),
{
    let ghost s0 = model::event_views(schedule@);
    let ghost target = model::atomic_phase(model::name_views(q@), start@, next_start@, timeslot as int);
    let mut current = start;
    proof {
        assert(s0 + target.0 =~= model::event_views(schedule@) + target.0);
    }
    while !q.is_empty() && next_start.signed_duration_since(current) >= timeslot as i64
        invariant
            ({
                let a = model::atomic_phase(model::name_views(q@), current@, next_start@, timeslot as int);
                &&& s0 + target.0 == model::event_views(schedule@) + a.0
                &&& target.1 == a.1
                &&& target.2 == a.2
            }),
        decreases q.len(),
    {
        let ghost aqv = model::name_views(q@);
        let ghost sv = model::event_views(schedule@);
        let name = q.remove(0);
        let end = TimeOfDay { seconds: current.seconds + timeslot };
        schedule.push(Event::new(name, current, end));
        proof {
            assert(model::name_views(q@) =~= aqv.drop_first());
            assert(model::event_views(schedule@)
                =~= sv + seq![EventModel { name: aqv[0], start: current@, end: current@ + timeslot }]);
            assert(sv + (seq![EventModel { name: aqv[0], start: current@, end: current@ + timeslot }]
                + model::atomic_phase(aqv.drop_first(), current@ + timeslot, next_start@, timeslot as int).0)
                =~= model::event_views(schedule@)
                    + model::atomic_phase(aqv.drop_first(), current@ + timeslot, next_start@, timeslot as int).0);
        }
        current = end;
    }
    proof {
        let a = model::atomic_phase(model::name_views(q@), current@, next_start@, timeslot as int);
        assert(a.0 == Seq::<EventModel>::empty());
        assert(model::event_views(schedule@) + a.0 =~= model::event_views(schedule@));
        assert(model::event_views(schedule@) =~= s0 + target.0);
    }
    current
}

/// Runs the divisible phase of one gap: while the remnant pool is non-empty
/// and any time is left before `next_start`, place the longest remnant. A
/// remnant longer than the gap is cut at the gap, returned to the pool
/// shortened, and the clock jumps to `mandatory_end`; a shorter one is
/// consumed whole. Returns the advanced clock.
fn run_divisible_phase(
    schedule: &mut Vec<Event>,
    q: &mut Vec<DivisibleTask>,
    start: TimeOfDay,
    next_start: TimeOfDay,
    mandatory_end: TimeOfDay,
) -> (new_cur: TimeOfDay)
    requires
        next_start@ <= mandatory_end@,
    ensures
        ({
            let d = model::divisible_phase(model::remnant_views(old(q)@), start@, next_start@, mandatory_end@);
            &&& model::event_views(final(schedule)@) == model::event_views(old(schedule)@) + d.0
            &&& model::remnant_views(final(q)@) == d.1
            &&& new_cur@ == d.2
        }),
{
    let ghost s0 = model::event_views(schedule@);
    let ghost target = model::divisible_phase(model::remnant_views(q@), start@, next_start@, mandatory_end@);
    let mut current = start;
    proof {
        assert(s0 + target.0 =~= model::event_views(schedule@) + target.0);
    }
    while !q.is_empty() && next_start.signed_duration_since(current) > 0i64
        invariant
            next_start@ <= mandatory_end@,
            ({
                let d = model::divisible_phase(model::remnant_views(q@), current@, next_start@, mandatory_end@);
                &&& s0 + target.0 == model::event_views(schedule@) + d.0
                &&& target.1 == d.1
                &&& target.2 == d.2
            }),
        decreases
            q.len(),
            (if next_start@ - current@ > 0 { next_start@ - current@ } else { 0 }),
    {
        let ghost dqv = model::remnant_views(q@);
        let ghost sv = model::event_views(schedule@);
        proof {
            model::lemma_first_max_index_bounds(dqv);
        }
        let ghost fmi = model::first_max_index(dqv);
        let mut divisible_task = pop_max(q);
        let gap: i64 = next_start.signed_duration_since(current);
        if divisible_task.dur as i64 > gap {
            schedule.push(Event::new(divisible_task.name.clone(), current, next_start));
            divisible_task.dur = divisible_task.dur - gap as u32;
            q.push(divisible_task);
            proof {
                assert(model::remnant_views(q@)
                    =~= dqv.remove(fmi).push(RemnantModel { name: dqv[fmi].name, dur: dqv[fmi].dur - (next_start@ - current@) }));
                assert(model::event_views(schedule@)
                    =~= sv + seq![EventModel { name: dqv[fmi].name, start: current@, end: next_start@ }]);
            }
            current = mandatory_end;
            proof {
                let d = model::divisible_phase(model::remnant_views(q@), current@, next_start@, mandatory_end@);
                assert(d.0 == Seq::<EventModel>::empty());
                assert(model::event_views(schedule@) + d.0 =~= model::event_views(schedule@));
            }
        } else {
            let end = TimeOfDay { seconds: current.seconds + divisible_task.dur };
            schedule.push(Event::new(divisible_task.name, current, end));
            proof {
                assert(model::remnant_views(q@) =~= dqv.remove(fmi));
                assert(model::event_views(schedule@)
                    =~= sv + seq![EventModel { name: dqv[fmi].name, start: current@, end: current@ + dqv[fmi].dur }]);
                assert(sv + (seq![EventModel { name: dqv[fmi].name, start: current@, end: current@ + dqv[fmi].dur }]
                    + model::divisible_phase(dqv.remove(fmi), current@ + dqv[fmi].dur, next_start@, mandatory_end@).0)
                    =~= model::event_views(schedule@)
                        + model::divisible_phase(dqv.remove(fmi), current@ + dqv[fmi].dur, next_start@, mandatory_end@).0);
            }
            current = end;
        }
    }
    proof {
        let d = model::divisible_phase(model::remnant_views(q@), current@, next_start@, mandatory_end@);
        assert(d.0 == Seq::<EventModel>::empty());
        assert(model::event_views(schedule@) + d.0 =~= model::event_views(schedule@));
        assert(model::event_views(schedule@) =~= s0 + target.0);
    }
    current
}

impl Config {
    /// Returns the mandatory events sorted ascending by start time.
    pub fn sort_mandatory_tasks_by_start_time(&self) -> (r: Vec<MandatoryEvent>)
        ensures
            model::mandatory_views(r@) == model::sort_by_start(self@.mandatory),
    {
        let ghost v = model::mandatory_views(self.mandatory@);
        let mut sorted_tasks: Vec<MandatoryEvent> = Vec::new();
        let mut i: usize = 0;
        while i < self.mandatory.len()
            invariant
                i <= self.mandatory.len(),
                v == model::mandatory_views(self.mandatory@),
                model::mandatory_views(sorted_tasks@) == model::sort_by_start(v.take(i as int)),
            decreases self.mandatory.len() - i,
        {
            insert_sorted_by_start(&mut sorted_tasks, self.mandatory[i]);
            proof {
                assert(v.take(i as int + 1).drop_last() =~= v.take(i as int));
                assert(v.take(i as int + 1).last() == v[i as int]);
            }
            i = i + 1;
        }
        proof {
            assert(v.take(v.len() as int) =~= v);
        }
        sorted_tasks
    }

    /// Expands every non-divisible task into one queue entry per needed
    /// timeslot, carrying the task's name; pop order is insertion order.
    pub fn get_work_tasks_not_divisible_queue(&self) -> (q: Vec<String>)
        ensures
            model::name_views(q@) == model::atomic_queue(self@.tasks),
    {
        let ghost tv = model::task_views(self.tasks@);
        let mut q: Vec<String> = Vec::new();
        let mut i: usize = 0;
        proof {
            assert(model::name_views(q@) =~= model::atomic_queue(tv.take(0)));
        }
        while i < self.tasks.len()
            invariant
                i <= self.tasks.len(),
                tv == model::task_views(self.tasks@),
                model::name_views(q@) == model::atomic_queue(tv.take(i as int)),
            decreases self.tasks.len() - i,
        {
            proof {
                assert(tv[i as int] == self.tasks@[i as int]@);
            }
            if !self.tasks[i].divisible {
                let mut k: usize = 0;
                proof {
                    assert(model::name_views(q@) =~= model::atomic_queue(tv.take(i as int))
                        + Seq::new(0, |j: int| tv[i as int].name));
                }
                while k < self.tasks[i].timeslots
                    invariant
                        i < self.tasks.len(),
                        k <= self.tasks@[i as int].timeslots,
                        tv == model::task_views(self.tasks@),
                        tv[i as int] == self.tasks@[i as int]@,
                        model::name_views(q@) == model::atomic_queue(tv.take(i as int))
                            + Seq::new(k as nat, |j: int| tv[i as int].name),
                    decreases self.tasks@[i as int].timeslots - k,
                {
                    let ghost q0 = q@;
                    let name = self.tasks[i].name.clone();
                    proof {
                        assert(name@ == tv[i as int].name);
                    }
                    q.push(name);
                    proof {
                        assert(model::name_views(q@) =~= model::name_views(q0).push(tv[i as int].name));
                        assert(model::name_views(q0).push(tv[i as int].name)
                            =~= model::atomic_queue(tv.take(i as int))
                                + Seq::new((k + 1) as nat, |j: int| tv[i as int].name));
                    }
                    k = k + 1;
                }
                proof {
                    assert(tv.take(i as int + 1).drop_last() =~= tv.take(i as int));
                    assert(tv.take(i as int + 1).last() == tv[i as int]);
                    assert(Seq::new(k as nat, |j: int| tv[i as int].name)
                        =~= Seq::new(tv[i as int].timeslots as nat, |j: int| tv[i as int].name));
                }
            } else {
                proof {
                    assert(tv.take(i as int + 1).drop_last() =~= tv.take(i as int));
                    assert(tv.take(i as int + 1).last() == tv[i as int]);
                }
            }
            i = i + 1;
        }
        proof {
            assert(tv.take(tv.len() as int) =~= tv);
        }
        q
    }

    /// Expands every divisible task into one remnant per needed timeslot,
    /// each remnant initially one timeslot long.
    pub fn get_work_tasks_divisible_queue(&self) -> (q: Vec<DivisibleTask>)
        ensures
            model::remnant_views(q@) == model::divisible_queue(self@.tasks, self@.slot),
    {
        let ghost tv = model::task_views(self.tasks@);
        let ghost slot = self@.slot;
        let dur: u32 = self.timeslots_size.seconds;
        let mut q: Vec<DivisibleTask> = Vec::new();
        let mut i: usize = 0;
        proof {
            assert(model::remnant_views(q@) =~= model::divisible_queue(tv.take(0), slot));
        }
        while i < self.tasks.len()
            invariant
                i <= self.tasks.len(),
                tv == model::task_views(self.tasks@),
                slot == dur as int,
                model::remnant_views(q@) == model::divisible_queue(tv.take(i as int), slot),
            decreases self.tasks.len() - i,
        {
            proof {
                assert(tv[i as int] == self.tasks@[i as int]@);
            }
            if self.tasks[i].divisible {
                let mut k: usize = 0;
                proof {
                    assert(model::remnant_views(q@) =~= model::divisible_queue(tv.take(i as int), slot)
                        + Seq::new(0, |j: int| RemnantModel { name: tv[i as int].name, dur: slot }));
                }
                while k < self.tasks[i].timeslots
                    invariant
                        i < self.tasks.len(),
                        k <= self.tasks@[i as int].timeslots,
                        tv == model::task_views(self.tasks@),
                        tv[i as int] == self.tasks@[i as int]@,
                        slot == dur as int,
                        model::remnant_views(q@) == model::divisible_queue(tv.take(i as int), slot)
                            + Seq::new(k as nat, |j: int| RemnantModel { name: tv[i as int].name, dur: slot }),
                    decreases self.tasks@[i as int].timeslots - k,
                {
                    let ghost q0 = q@;
                    let t = DivisibleTask::new(self.tasks[i].name.clone(), dur);
                    proof {
                        assert(t@ == (RemnantModel { name: tv[i as int].name, dur: slot }));
                    }
                    q.push(t);
                    proof {
                        assert(model::remnant_views(q@)
                            =~= model::remnant_views(q0).push(RemnantModel { name: tv[i as int].name, dur: slot }));
                        assert(model::remnant_views(q0).push(RemnantModel { name: tv[i as int].name, dur: slot })
                            =~= model::divisible_queue(tv.take(i as int), slot)
                                + Seq::new((k + 1) as nat, |j: int| RemnantModel { name: tv[i as int].name, dur: slot }));
                    }
                    k = k + 1;
                }
                proof {
                    assert(tv.take(i as int + 1).drop_last() =~= tv.take(i as int));
                    assert(tv.take(i as int + 1).last() == tv[i as int]);
                    assert(Seq::new(k as nat, |j: int| RemnantModel { name: tv[i as int].name, dur: slot })
                        =~= Seq::new(tv[i as int].timeslots as nat, |j: int| RemnantModel { name: tv[i as int].name, dur: slot }));
                }
            } else {
                proof {
                    assert(tv.take(i as int + 1).drop_last() =~= tv.take(i as int));
                    assert(tv.take(i as int + 1).last() == tv[i as int]);
                }
            }
            i = i + 1;
        }
        proof {
            assert(tv.take(tv.len() as int) =~= tv);
        }
        q
    }

    /// Builds one day's schedule: sorts the mandatory events, appends the
    /// sentinel at the day's end, expands the task pool into the two queues,
    /// and fills each gap greedily, atomic units first, divisible remnants
    /// second. The result is exactly the schedule that
    /// `model::spec_schedule` describes.
    pub fn build_schedule(&self) -> (schedule: Schedule)
        requires
            forall|i: int| 0 <= i < self@.mandatory.len()
                ==> (#[trigger] self@.mandatory[i]).start <= self@.mandatory[i].end,
        ensures
            model::event_views(schedule@) == model::spec_schedule(self@),
    {
        let mut schedule: Schedule = Vec::new();
        let mut current_start_time = self.start_time;
        let mut mandatory_events = self.sort_mandatory_tasks_by_start_time();
        mandatory_events.push(MandatoryEvent { start: self.end_time, end: self.end_time });
        let mut undivisible_work_tasks = self.get_work_tasks_not_divisible_queue();
        let mut divisible_work_tasks = self.get_work_tasks_divisible_queue();
        let timeslot: u32 = self.timeslots_size.seconds;
        let ghost ms = model::mandatory_views(mandatory_events@);
        let ghost target = model::allocate_loop(
            ms,
            model::name_views(undivisible_work_tasks@),
            model::remnant_views(divisible_work_tasks@),
            self.start_time@,
            timeslot as int,
        );
        proof {
            assert(ms =~= model::sort_by_start(self@.mandatory).push(model::sentinel(self@)));
            let p = |m: MandatoryEventModel| m.start <= m.end;
            assert(forall|i: int| 0 <= i < self@.mandatory.len() ==> #[trigger] p(self@.mandatory[i]));
            model::lemma_sort_by_start_all(self@.mandatory, p);
            assert forall|i: int| 0 <= i < ms.len() implies (#[trigger] ms[i]).start <= ms[i].end by {
                if i < ms.len() - 1 {
                    assert(p(model::sort_by_start(self@.mandatory)[i]));
                }
            }
            assert(ms.skip(0) =~= ms);
            assert(Seq::<EventModel>::empty() + model::allocate_loop(
                ms.skip(0),
                model::name_views(undivisible_work_tasks@),
                model::remnant_views(divisible_work_tasks@),
                current_start_time@,
                timeslot as int,
            ) =~= target);
        }
        let mut idx: usize = 0;
        while idx < mandatory_events.len()
            invariant
                idx <= mandatory_events.len(),
                ms == model::mandatory_views(mandatory_events@),
                forall|i: int| 0 <= i < ms.len() ==> (#[trigger] ms[i]).start <= ms[i].end,
                target == model::event_views(schedule@) + model::allocate_loop(
                    ms.skip(idx as int),
                    model::name_views(undivisible_work_tasks@),
                    model::remnant_views(divisible_work_tasks@),
                    current_start_time@,
                    timeslot as int,
                ),
            decreases mandatory_events.len() - idx,
        {
            let mandatory_event = mandatory_events[idx];
            let next_mandatory_start_time = mandatory_event.start;
            proof {
                assert(ms[idx as int] == mandatory_events@[idx as int]@);
                assert(ms.skip(idx as int)[0] == ms[idx as int]);
                assert(ms.skip(idx as int).drop_first() =~= ms.skip(idx as int + 1));
            }
            let ghost evs0 = model::event_views(schedule@);
            let ghost aq0 = model::name_views(undivisible_work_tasks@);
            let ghost dq0 = model::remnant_views(divisible_work_tasks@);
            let ghost cur0 = current_start_time@;
            let ghost a = model::atomic_phase(
                model::name_views(undivisible_work_tasks@),
                current_start_time@,
                next_mandatory_start_time@,
                timeslot as int,
            );
            let cur1 = run_atomic_phase(
                &mut schedule,
                &mut undivisible_work_tasks,
                current_start_time,
                next_mandatory_start_time,
                timeslot,
            );
            let ghost d = model::divisible_phase(
                model::remnant_views(divisible_work_tasks@),
                cur1@,
                next_mandatory_start_time@,
                mandatory_event.end@,
            );
            let cur2 = run_divisible_phase(
                &mut schedule,
                &mut divisible_work_tasks,
                cur1,
                next_mandatory_start_time,
                mandatory_event.end,
            );
            current_start_time = mandatory_event.end;
            proof {
                let rest = model::allocate_loop(
                    ms.skip(idx as int + 1),
                    model::name_views(undivisible_work_tasks@),
                    model::remnant_views(divisible_work_tasks@),
                    current_start_time@,
                    timeslot as int,
                );
                assert(model::allocate_loop(ms.skip(idx as int), aq0, dq0, cur0, timeslot as int)
                    == (a.0 + d.0) + rest);
                assert(model::event_views(schedule@) =~= (evs0 + a.0) + d.0);
                assert(evs0 + ((a.0 + d.0) + rest) =~= ((evs0 + a.0) + d.0) + rest);
            }
            idx = idx + 1;
        }
        proof {
            assert(ms.skip(ms.len() as int).len() == 0);
            assert(model::event_views(schedule@) + Seq::<EventModel>::empty()
                =~= model::event_views(schedule@));
        }
        schedule
    }
}

} // verus!
