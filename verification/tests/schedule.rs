use day_scheduler::config::{Config, DivisibleTask, Event, MandatoryEvent, WorkTask};
use day_scheduler::time::{Date, TimeOfDay};

fn t(hour: u32, minute: u32, second: u32) -> TimeOfDay {
    TimeOfDay::from_hms(hour, minute, second)
}

fn task(name: &str, timeslots: usize, divisible: bool) -> WorkTask {
    WorkTask { name: name.to_string(), timeslots, divisible }
}

fn config(
    mandatory: Vec<MandatoryEvent>,
    tasks: Vec<WorkTask>,
    start: TimeOfDay,
    end: TimeOfDay,
    slot: TimeOfDay,
) -> Config {
    Config {
        day: Date { year: 2024, month: 5, day: 17 },
        mandatory,
        tasks,
        start_time: start,
        end_time: end,
        timeslots_size: slot,
    }
}

fn assert_event(e: &Event, name: &str, start: TimeOfDay, end: TimeOfDay) {
    assert_eq!(e.name, name);
    assert_eq!(e.start_time, start);
    assert_eq!(e.end_time, end);
}

#[test]
fn time_of_day_from_hms() {
    assert_eq!(t(0, 0, 0).seconds, 0);
    assert_eq!(t(9, 0, 0).seconds, 9 * 3600);
    assert_eq!(t(23, 59, 59).seconds, 86399);
}

#[test]
fn time_of_day_signed_duration() {
    assert_eq!(t(10, 0, 0).signed_duration_since(t(9, 0, 0)), 3600);
    assert_eq!(t(9, 0, 0).signed_duration_since(t(10, 30, 0)), -5400);
}

#[test]
fn constructors_keep_fields() {
    let e = Event::new("read".to_string(), t(9, 0, 0), t(10, 0, 0));
    assert_event(&e, "read", t(9, 0, 0), t(10, 0, 0));
    let d = DivisibleTask::new("mail".to_string(), 1800);
    assert_eq!(d.name, "mail");
    assert_eq!(d.dur, 1800);
}

#[test]
fn sorts_mandatory_events_by_start() {
    let c = config(
        vec![
            MandatoryEvent { start: t(13, 0, 0), end: t(14, 0, 0) },
            MandatoryEvent { start: t(10, 0, 0), end: t(11, 0, 0) },
            MandatoryEvent { start: t(11, 30, 0), end: t(12, 0, 0) },
        ],
        vec![],
        t(9, 0, 0),
        t(17, 0, 0),
        t(1, 0, 0),
    );
    let sorted = c.sort_mandatory_tasks_by_start_time();
    assert_eq!(sorted.len(), 3);
    assert_eq!(sorted[0].start, t(10, 0, 0));
    assert_eq!(sorted[1].start, t(11, 30, 0));
    assert_eq!(sorted[2].start, t(13, 0, 0));
}

#[test]
fn queue_builders_split_the_pool() {
    let c = config(
        vec![],
        vec![task("a", 2, false), task("b", 1, true), task("c", 1, false)],
        t(9, 0, 0),
        t(17, 0, 0),
        t(0, 30, 0),
    );
    let atomic = c.get_work_tasks_not_divisible_queue();
    assert_eq!(atomic, vec!["a".to_string(), "a".to_string(), "c".to_string()]);
    let divisible = c.get_work_tasks_divisible_queue();
    assert_eq!(divisible.len(), 1);
    assert_eq!(divisible[0].name, "b");
    assert_eq!(divisible[0].dur, 1800);
}

// Day 09:00-17:00, no mandatory events, timeslot one hour, one non-divisible
// task needing three timeslots: exactly three consecutive one-hour events
// starting at 09:00.
#[test]
fn scenario_three_consecutive_hours() {
    let c = config(
        vec![],
        vec![task("deep work", 3, false)],
        t(9, 0, 0),
        t(17, 0, 0),
        t(1, 0, 0),
    );
    let s = c.build_schedule();
    assert_eq!(s.len(), 3);
    assert_event(&s[0], "deep work", t(9, 0, 0), t(10, 0, 0));
    assert_event(&s[1], "deep work", t(10, 0, 0), t(11, 0, 0));
    assert_event(&s[2], "deep work", t(11, 0, 0), t(12, 0, 0));
}

// Day 09:00-17:00 with a lunch block 12:00-13:00, timeslot one hour, one
// divisible task needing one timeslot: the first gap is large enough, so the
// task is placed as a single one-hour block at 09:00, with no splitting.
#[test]
fn scenario_divisible_fits_first_gap() {
    let c = config(
        vec![MandatoryEvent { start: t(12, 0, 0), end: t(13, 0, 0) }],
        vec![task("mail", 1, true)],
        t(9, 0, 0),
        t(17, 0, 0),
        t(1, 0, 0),
    );
    let s = c.build_schedule();
    assert_eq!(s.len(), 1);
    assert_event(&s[0], "mail", t(9, 0, 0), t(10, 0, 0));
}

// Day 09:00-10:00, timeslot one hour, two non-divisible tasks each needing
// one timeslot: only the first is scheduled; the other unit is silently
// dropped.
#[test]
fn scenario_leftover_units_dropped() {
    let c = config(
        vec![],
        vec![task("first", 1, false), task("second", 1, false)],
        t(9, 0, 0),
        t(10, 0, 0),
        t(1, 0, 0),
    );
    let s = c.build_schedule();
    assert_eq!(s.len(), 1);
    assert_event(&s[0], "first", t(9, 0, 0), t(10, 0, 0));
}

// A divisible remnant split across two gaps: the first gap (30 minutes) is
// smaller than the timeslot, so the remnant fills it, goes back shortened,
// and its remaining 30 minutes land right after the mandatory block. The two
// pieces sum to exactly one timeslot.
#[test]
fn divisible_split_across_two_gaps() {
    let c = config(
        vec![MandatoryEvent { start: t(9, 30, 0), end: t(10, 0, 0) }],
        vec![task("mail", 1, true)],
        t(9, 0, 0),
        t(17, 0, 0),
        t(1, 0, 0),
    );
    let s = c.build_schedule();
    assert_eq!(s.len(), 2);
    assert_event(&s[0], "mail", t(9, 0, 0), t(9, 30, 0));
    assert_event(&s[1], "mail", t(10, 0, 0), t(10, 30, 0));
    let d0 = s[0].end_time.seconds - s[0].start_time.seconds;
    let d1 = s[1].end_time.seconds - s[1].start_time.seconds;
    assert_eq!(d0 + d1, 3600);
}

// Two runs on the same configuration produce the same schedule.
#[test]
fn idempotent_runs() {
    let c = config(
        vec![
            MandatoryEvent { start: t(11, 0, 0), end: t(12, 30, 0) },
            MandatoryEvent { start: t(15, 0, 0), end: t(15, 45, 0) },
        ],
        vec![task("a", 2, false), task("b", 3, true), task("c", 1, false)],
        t(9, 0, 0),
        t(17, 0, 0),
        t(0, 45, 0),
    );
    let s1 = c.build_schedule();
    let s2 = c.build_schedule();
    assert_eq!(s1, s2);
}

#[test]
fn empty_pool_gives_empty_schedule() {
    let c = config(vec![], vec![], t(9, 0, 0), t(17, 0, 0), t(1, 0, 0));
    assert_eq!(c.build_schedule().len(), 0);
}

#[test]
fn mandatory_covering_day_gives_empty_schedule() {
    let c = config(
        vec![MandatoryEvent { start: t(9, 0, 0), end: t(17, 0, 0) }],
        vec![task("a", 2, false), task("b", 2, true)],
        t(9, 0, 0),
        t(17, 0, 0),
        t(1, 0, 0),
    );
    assert_eq!(c.build_schedule().len(), 0);
}

// Atomic units take whole timeslots first; a divisible remnant then mops up
// the leftover fraction of the gap and the rest of it is dropped with the
// day's end.
#[test]
fn atomic_first_then_divisible_mops_up() {
    let c = config(
        vec![],
        vec![task("focus", 1, false), task("mail", 1, true)],
        t(9, 0, 0),
        t(10, 30, 0),
        t(1, 0, 0),
    );
    let s = c.build_schedule();
    assert_eq!(s.len(), 2);
    assert_event(&s[0], "focus", t(9, 0, 0), t(10, 0, 0));
    assert_event(&s[1], "mail", t(10, 0, 0), t(10, 30, 0));
}

// Unsorted mandatory input is handled in start order, and every gap large
// enough for a whole timeslot is used.
#[test]
fn gaps_between_unsorted_mandatory_events() {
    let c = config(
        vec![
            MandatoryEvent { start: t(13, 0, 0), end: t(14, 0, 0) },
            MandatoryEvent { start: t(10, 0, 0), end: t(11, 0, 0) },
        ],
        vec![task("work", 6, false)],
        t(9, 0, 0),
        t(17, 0, 0),
        t(1, 0, 0),
    );
    let s = c.build_schedule();
    assert_eq!(s.len(), 6);
    let starts: Vec<u32> = s.iter().map(|e| e.start_time.seconds / 3600).collect();
    assert_eq!(starts, vec![9, 11, 12, 14, 15, 16]);
    for e in &s {
        assert_eq!(e.end_time.seconds - e.start_time.seconds, 3600);
    }
}

// The longest remnant is preferred: with remnants of one timeslot each, a
// half-consumed remnant goes to the back until the fresh ones catch up.
#[test]
fn longest_remnant_first() {
    let c = config(
        vec![MandatoryEvent { start: t(9, 30, 0), end: t(9, 45, 0) }],
        vec![task("a", 1, true), task("b", 1, true)],
        t(9, 0, 0),
        t(12, 0, 0),
        t(1, 0, 0),
    );
    let s = c.build_schedule();
    // First gap of 30 minutes: "a" (first with the maximal duration) fills
    // it and shrinks to 30 minutes. Second gap: "b" (now the longest) takes
    // a full hour, then "a" finishes its remaining 30 minutes.
    assert_eq!(s.len(), 3);
    assert_event(&s[0], "a", t(9, 0, 0), t(9, 30, 0));
    assert_event(&s[1], "b", t(9, 45, 0), t(10, 45, 0));
    assert_event(&s[2], "a", t(10, 45, 0), t(11, 15, 0));
}
