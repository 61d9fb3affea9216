use vstd::prelude::*;

use crate::model::{
    atomic_phase, atomic_queue, divisible_phase, divisible_queue, first_max_index,
    allocate_loop, insert_by_start, lemma_first_max_index_bounds, lemma_insert_by_start_all,
    lemma_sort_by_start_all, sentinel, sort_by_start, spec_schedule, ConfigModel,
    EventModel, MandatoryEventModel, RemnantModel,
};

verus! {

/// Two intervals, each closed at the start and open at the end, overlap.
pub open spec fn intervals_overlap(a_start: int, a_end: int, b_start: int, b_end: int) -> bool {
    a_start < b_end && b_start < a_end
}

/// A configuration on which the scheduler's guarantees are stated: a positive
/// timeslot, a day whose start is not after its end, and mandatory events
/// that are well formed, lie within the day, do not overlap one another, and
/// start at pairwise distinct times.
pub open spec fn valid_config(c: ConfigModel) -> bool {
    &&& c.slot >= 1
    &&& c.start <= c.end
    &&& forall|i: int| 0 <= i < c.mandatory.len()
        ==> (#[trigger] c.mandatory[i]).start <= c.mandatory[i].end
    &&& forall|i: int| 0 <= i < c.mandatory.len()
        ==> c.start <= (#[trigger] c.mandatory[i]).start && c.mandatory[i].end <= c.end
    &&& forall|i: int, j: int|
        0 <= i < c.mandatory.len() && 0 <= j < c.mandatory.len() && i != j
            ==> !intervals_overlap(
                (#[trigger] c.mandatory[i]).start,
                c.mandatory[i].end,
                (#[trigger] c.mandatory[j]).start,
                c.mandatory[j].end,
            )
    &&& forall|i: int, j: int|
        0 <= i < c.mandatory.len() && 0 <= j < c.mandatory.len() && i != j
            ==> (#[trigger] c.mandatory[i]).start != (#[trigger] c.mandatory[j]).start
}

/// The sequence is sorted ascending by start time.
pub open spec fn sorted_by_start(s: Seq<MandatoryEventModel>) -> bool {
    forall|i: int, j: int|
        0 <= i < j < s.len() ==> (#[trigger] s[i]).start <= (#[trigger] s[j]).start
}

/// Inserting into a start-sorted sequence keeps it sorted and grows it by one.
proof fn lemma_insert_by_start_sorted(s: Seq<MandatoryEventModel>, m: MandatoryEventModel)
    requires
        sorted_by_start(s),
    ensures
        sorted_by_start(insert_by_start(s, m)),
        insert_by_start(s, m).len() == s.len() + 1,
    decreases s.len(),
{
    let r = insert_by_start(s, m);
    if s.len() == 0 {
    } else if s[0].start <= m.start {
        assert(forall|i: int, j: int|
            0 <= i < j < s.drop_first().len()
                ==> (#[trigger] s.drop_first()[i]).start <= (#[trigger] s.drop_first()[j]).start);
        lemma_insert_by_start_sorted(s.drop_first(), m);
        let t = insert_by_start(s.drop_first(), m);
        assert(forall|i: int| 0 <= i < s.drop_first().len()
            ==> s[0].start <= (#[trigger] s.drop_first()[i]).start);
        lemma_insert_by_start_all(s.drop_first(), m, |x: MandatoryEventModel| s[0].start <= x.start);
        assert forall|i: int, j: int| 0 <= i < j < r.len()
            implies (#[trigger] r[i]).start <= (#[trigger] r[j]).start by {
            if i == 0 {
                assert(r[j] == t[j - 1]);
                let p = |x: MandatoryEventModel| s[0].start <= x.start;
                assert(p(t[j - 1]));
            } else {
                assert(r[i] == t[i - 1] && r[j] == t[j - 1]);
            }
        }
    } else {
        assert forall|i: int, j: int| 0 <= i < j < r.len()
            implies (#[trigger] r[i]).start <= (#[trigger] r[j]).start by {
            if i == 0 {
                assert(r[j] == s[j - 1]);
            } else {
                assert(r[i] == s[i - 1] && r[j] == s[j - 1]);
            }
        }
    }
}

/// The insertion sort returns a start-sorted sequence of the same length.
pub proof fn lemma_sort_by_start_sorted(s: Seq<MandatoryEventModel>)
    ensures
        sorted_by_start(sort_by_start(s)),
        sort_by_start(s).len() == s.len(),
    decreases s.len(),
{
    if s.len() > 0 {
        lemma_sort_by_start_sorted(s.drop_last());
        lemma_insert_by_start_sorted(sort_by_start(s.drop_last()), s.last());
    }
}

/// Inserting keeps every pairwise symmetric relation that held among the
/// entries and between each entry and the inserted one.
proof fn lemma_insert_by_start_pairwise(
    s: Seq<MandatoryEventModel>,
    m: MandatoryEventModel,
    p: spec_fn(MandatoryEventModel, MandatoryEventModel) -> bool,
)
    requires
        forall|a: MandatoryEventModel, b: MandatoryEventModel| #[trigger] p(a, b) == p(b, a),
        forall|i: int, j: int| 0 <= i < j < s.len() ==> #[trigger] p(s[i], s[j]),
        forall|i: int| 0 <= i < s.len() ==> #[trigger] p(s[i], m),
    ensures
        forall|i: int, j: int|
            0 <= i < j < insert_by_start(s, m).len()
                ==> #[trigger] p(insert_by_start(s, m)[i], insert_by_start(s, m)[j]),
    decreases s.len(),
{
    let r = insert_by_start(s, m);
    if s.len() == 0 {
    } else if s[0].start <= m.start {
        let rest = s.drop_first();
        assert(forall|i: int, j: int| 0 <= i < j < rest.len() ==> #[trigger] p(rest[i], rest[j]));
        assert(forall|i: int| 0 <= i < rest.len() ==> #[trigger] p(rest[i], m));
        lemma_insert_by_start_pairwise(rest, m, p);
        let q = |x: MandatoryEventModel| p(s[0], x);
        assert(forall|i: int| 0 <= i < rest.len() ==> #[trigger] q(rest[i]));
        assert(q(m));
        lemma_insert_by_start_all(rest, m, q);
        let t = insert_by_start(rest, m);
        assert forall|i: int, j: int| 0 <= i < j < r.len()
            implies #[trigger] p(r[i], r[j]) by {
            if i == 0 {
                assert(r[j] == t[j - 1]);
                assert(q(t[j - 1]));
            } else {
                assert(r[i] == t[i - 1] && r[j] == t[j - 1]);
            }
        }
    } else {
        assert forall|i: int, j: int| 0 <= i < j < r.len()
            implies #[trigger] p(r[i], r[j]) by {
            if i == 0 {
                assert(r[j] == s[j - 1]);
                assert(p(s[j - 1], m));
            } else {
                assert(r[i] == s[i - 1] && r[j] == s[j - 1]);
            }
        }
    }
}

/// Sorting keeps every pairwise symmetric relation among the entries.
proof fn lemma_sort_by_start_pairwise(
    s: Seq<MandatoryEventModel>,
    p: spec_fn(MandatoryEventModel, MandatoryEventModel) -> bool,
)
    requires
        forall|a: MandatoryEventModel, b: MandatoryEventModel| #[trigger] p(a, b) == p(b, a),
        forall|i: int, j: int| 0 <= i < j < s.len() ==> #[trigger] p(s[i], s[j]),
    ensures
        forall|i: int, j: int|
            0 <= i < j < sort_by_start(s).len()
                ==> #[trigger] p(sort_by_start(s)[i], sort_by_start(s)[j]),
    decreases s.len(),
{
    if s.len() > 0 {
        let dl = s.drop_last();
        assert(forall|i: int, j: int| 0 <= i < j < dl.len() ==> #[trigger] p(dl[i], dl[j]));
        lemma_sort_by_start_pairwise(dl, p);
        let q = |x: MandatoryEventModel| p(x, s.last());
        assert forall|i: int| 0 <= i < dl.len() implies #[trigger] q(dl[i]) by {
            assert(p(s[i], s[s.len() - 1]));
        }
        lemma_sort_by_start_all(dl, q);
        let sorted_dl = sort_by_start(dl);
        assert forall|i: int| 0 <= i < sorted_dl.len() implies #[trigger] p(sorted_dl[i], s.last()) by {
            assert(q(sorted_dl[i]));
        }
        lemma_insert_by_start_pairwise(sorted_dl, s.last(), p);
    }
}

/// Inserting adds exactly the inserted entry to the values present.
proof fn lemma_insert_by_start_contains(s: Seq<MandatoryEventModel>, m: MandatoryEventModel)
    ensures
        forall|x: MandatoryEventModel|
            #[trigger] insert_by_start(s, m).contains(x) <==> (s.contains(x) || x == m),
    decreases s.len(),
{
    let r = insert_by_start(s, m);
    if s.len() == 0 {
        assert forall|x: MandatoryEventModel| #[trigger] r.contains(x)
            implies (s.contains(x) || x == m) by {
            let i = choose|i: int| 0 <= i < r.len() && r[i] == x;
            assert(r[0] == m);
        }
        assert(r[0] == m);
    } else if s[0].start <= m.start {
        let rest = s.drop_first();
        lemma_insert_by_start_contains(rest, m);
        let t = insert_by_start(rest, m);
        assert forall|x: MandatoryEventModel| #[trigger] r.contains(x)
            implies (s.contains(x) || x == m) by {
            let i = choose|i: int| 0 <= i < r.len() && r[i] == x;
            if i == 0 {
                assert(s[0] == x);
            } else {
                assert(t[i - 1] == x);
                assert(t.contains(x));
                if rest.contains(x) {
                    let j = choose|j: int| 0 <= j < rest.len() && rest[j] == x;
                    assert(s[j + 1] == x);
                }
            }
        }
        assert forall|x: MandatoryEventModel| s.contains(x) || x == m
            implies #[trigger] r.contains(x) by {
            if x == m {
                assert(t.contains(x));
                let j = choose|j: int| 0 <= j < t.len() && t[j] == x;
                assert(r[j + 1] == x);
            } else {
                let i = choose|i: int| 0 <= i < s.len() && s[i] == x;
                if i == 0 {
                    assert(r[0] == x);
                } else {
                    assert(rest[i - 1] == x);
                    assert(rest.contains(x));
                    assert(t.contains(x));
                    let j = choose|j: int| 0 <= j < t.len() && t[j] == x;
                    assert(r[j + 1] == x);
                }
            }
        }
    } else {
        assert forall|x: MandatoryEventModel| #[trigger] r.contains(x)
            implies (s.contains(x) || x == m) by {
            let i = choose|i: int| 0 <= i < r.len() && r[i] == x;
            if i == 0 {
            } else {
                assert(s[i - 1] == x);
            }
        }
        assert forall|x: MandatoryEventModel| s.contains(x) || x == m
            implies #[trigger] r.contains(x) by {
            if x == m {
                assert(r[0] == x);
            } else {
                let i = choose|i: int| 0 <= i < s.len() && s[i] == x;
                assert(r[i + 1] == x);
            }
        }
    }
}

/// Sorting keeps exactly the values present in the input.
pub proof fn lemma_sort_by_start_contains(s: Seq<MandatoryEventModel>)
    ensures
        forall|x: MandatoryEventModel|
            #[trigger] sort_by_start(s).contains(x) <==> s.contains(x),
    decreases s.len(),
{
    if s.len() == 0 {
        assert forall|x: MandatoryEventModel| #[trigger] sort_by_start(s).contains(x)
            implies s.contains(x) by {
            let i = choose|i: int| 0 <= i < sort_by_start(s).len() && sort_by_start(s)[i] == x;
        }
        assert forall|x: MandatoryEventModel| s.contains(x)
            implies #[trigger] sort_by_start(s).contains(x) by {
            let i = choose|i: int| 0 <= i < s.len() && s[i] == x;
        }
    } else {
        let dl = s.drop_last();
        lemma_sort_by_start_contains(dl);
        lemma_insert_by_start_contains(sort_by_start(dl), s.last());
        assert forall|x: MandatoryEventModel| #[trigger] sort_by_start(s).contains(x)
            implies s.contains(x) by {
            if sort_by_start(dl).contains(x) {
                assert(dl.contains(x));
                let i = choose|i: int| 0 <= i < dl.len() && dl[i] == x;
                assert(s[i] == x);
            } else {
                assert(x == s.last());
                assert(s[s.len() - 1] == x);
            }
        }
        assert forall|x: MandatoryEventModel| s.contains(x)
            implies #[trigger] sort_by_start(s).contains(x) by {
            let i = choose|i: int| 0 <= i < s.len() && s[i] == x;
            if i < s.len() - 1 {
                assert(dl[i] == x);
                assert(dl.contains(x));
            } else {
                assert(x == s.last());
            }
        }
    }
}

/// Every remnant that the divisible queue builder creates is one timeslot
/// long.
pub proof fn lemma_divisible_queue_durs(tasks: Seq<crate::model::WorkTaskModel>, slot: int)
    ensures
        forall|i: int| 0 <= i < divisible_queue(tasks, slot).len()
            ==> (#[trigger] divisible_queue(tasks, slot)[i]).dur == slot,
    decreases tasks.len(),
{
    if tasks.len() > 0 {
        lemma_divisible_queue_durs(tasks.drop_last(), slot);
        let head = divisible_queue(tasks.drop_last(), slot);
        let r = divisible_queue(tasks, slot);
        assert forall|i: int| 0 <= i < r.len() implies (#[trigger] r[i]).dur == slot by {
            if i < head.len() {
                assert(r[i] == head[i]);
            }
        }
    }
}

/// Bounds of the atomic phase: it emits positive-width, pairwise ordered
/// events that lie between the clock and the next mandatory start, never
/// moves the clock backwards, and pops units from the front of the queue.
pub proof fn lemma_atomic_phase_bounds(q: Seq<Seq<char>>, cur: int, next_start: int, slot: int)
    requires
        slot >= 1,
    ensures
        ({
            let (evs, q2, cur2) = atomic_phase(q, cur, next_start, slot);
            &&& evs.len() <= q.len()
            &&& q2 == q.skip(evs.len() as int)
            &&& cur <= cur2
            &&& evs.len() > 0 ==> cur2 <= next_start
            &&& forall|k: int| 0 <= k < evs.len() ==> (#[trigger] evs[k]).start < evs[k].end
            &&& forall|k: int| 0 <= k < evs.len()
                ==> cur <= (#[trigger] evs[k]).start && evs[k].end <= next_start
            &&& forall|k: int| 0 <= k < evs.len() ==> (#[trigger] evs[k]).end <= cur2
            &&& forall|k: int, l: int| 0 <= k < l < evs.len()
                ==> (#[trigger] evs[k]).end <= (#[trigger] evs[l]).start
        }),
    decreases q.len(),
{
    let (evs, q2, cur2) = atomic_phase(q, cur, next_start, slot);
    if q.len() > 0 && next_start - cur >= slot {
        lemma_atomic_phase_bounds(q.drop_first(), cur + slot, next_start, slot);
        let rest = atomic_phase(q.drop_first(), cur + slot, next_start, slot);
        assert(q2 =~= q.skip(evs.len() as int));
        assert forall|k: int| 0 <= k < evs.len()
            implies cur <= (#[trigger] evs[k]).start && evs[k].end <= next_start
                && evs[k].start < evs[k].end && evs[k].end <= cur2 by {
            if k > 0 {
                assert(evs[k] == rest.0[k - 1]);
            }
        }
        assert forall|k: int, l: int| 0 <= k < l < evs.len()
            implies (#[trigger] evs[k]).end <= (#[trigger] evs[l]).start by {
            assert(evs[l] == rest.0[l - 1]);
            if k > 0 {
                assert(evs[k] == rest.0[k - 1]);
            }
        }
    } else {
        assert(q2 =~= q.skip(0));
    }
}

/// Bounds of the divisible phase: it emits positive-width, pairwise ordered
/// events that lie between the clock and the next mandatory start, and every
/// remnant left in the pool keeps a positive remaining duration.
pub proof fn lemma_divisible_phase_bounds(q: Seq<RemnantModel>, cur: int, next_start: int, mandatory_end: int)
    requires
        next_start <= mandatory_end,
        forall|i: int| 0 <= i < q.len() ==> (#[trigger] q[i]).dur >= 1,
    ensures
        ({
            let (evs, q2, cur2) = divisible_phase(q, cur, next_start, mandatory_end);
            &&& forall|k: int| 0 <= k < evs.len() ==> (#[trigger] evs[k]).start < evs[k].end
            &&& forall|k: int| 0 <= k < evs.len()
                ==> cur <= (#[trigger] evs[k]).start && evs[k].end <= next_start
            &&& forall|k: int, l: int| 0 <= k < l < evs.len()
                ==> (#[trigger] evs[k]).end <= (#[trigger] evs[l]).start
            &&& forall|i: int| 0 <= i < q2.len() ==> (#[trigger] q2[i]).dur >= 1
        }),
    decreases q.len(),
{
    let (evs, q2, cur2) = divisible_phase(q, cur, next_start, mandatory_end);
    if q.len() > 0 && next_start - cur > 0 {
        lemma_first_max_index_bounds(q);
        let gap = next_start - cur;
        let i = first_max_index(q);
        let r = q[i];
        if r.dur > gap {
            assert forall|j: int| 0 <= j < q2.len() implies (#[trigger] q2[j]).dur >= 1 by {
                if j < q2.len() - 1 {
                    assert(q2[j] == q.remove(i)[j]);
                    if j < i {
                        assert(q.remove(i)[j] == q[j]);
                    } else {
                        assert(q.remove(i)[j] == q[j + 1]);
                    }
                }
            }
        } else {
            assert(forall|j: int| 0 <= j < q.remove(i).len()
                ==> (#[trigger] q.remove(i)[j]).dur >= 1);
            lemma_divisible_phase_bounds(q.remove(i), cur + r.dur, next_start, mandatory_end);
            let rest = divisible_phase(q.remove(i), cur + r.dur, next_start, mandatory_end);
            assert forall|k: int| 0 <= k < evs.len()
                implies cur <= (#[trigger] evs[k]).start && evs[k].end <= next_start
                    && evs[k].start < evs[k].end by {
                if k > 0 {
                    assert(evs[k] == rest.0[k - 1]);
                }
            }
            assert forall|k: int, l: int| 0 <= k < l < evs.len()
                implies (#[trigger] evs[k]).end <= (#[trigger] evs[l]).start by {
                assert(evs[l] == rest.0[l - 1]);
                if k > 0 {
                    assert(evs[k] == rest.0[k - 1]);
                }
            }
        }
    }
}

/// Bounds of the whole allocation walk over a chained mandatory sequence:
/// the output events are positive-width, pairwise ordered, start no earlier
/// than the clock, end no later than the last mandatory start, and overlap
/// no mandatory entry.
#[verifier::rlimit(80)]
pub proof fn lemma_allocate_loop_bounds(
    ms: Seq<MandatoryEventModel>,
    aq: Seq<Seq<char>>,
    dq: Seq<RemnantModel>,
    cur: int,
    slot: int,
)
    requires
        slot >= 1,
        forall|i: int| 0 <= i < dq.len() ==> (#[trigger] dq[i]).dur >= 1,
        forall|i: int| 0 <= i < ms.len() ==> (#[trigger] ms[i]).start <= ms[i].end,
        forall|i: int, j: int| 0 <= i < j < ms.len()
            ==> (#[trigger] ms[i]).end <= (#[trigger] ms[j]).start,
        ms.len() > 0 ==> cur <= ms[0].start,
    ensures
        ({
            let evs = allocate_loop(ms, aq, dq, cur, slot);
            &&& forall|k: int| 0 <= k < evs.len() ==> (#[trigger] evs[k]).start < evs[k].end
            &&& forall|k: int, l: int| 0 <= k < l < evs.len()
                ==> (#[trigger] evs[k]).end <= (#[trigger] evs[l]).start
            &&& forall|k: int| 0 <= k < evs.len() ==> cur <= (#[trigger] evs[k]).start
            &&& forall|k: int| 0 <= k < evs.len() && ms.len() > 0
                ==> (#[trigger] evs[k]).end <= ms.last().start
            &&& forall|k: int, i: int| 0 <= k < evs.len() && 0 <= i < ms.len()
                ==> (#[trigger] evs[k]).end <= (#[trigger] ms[i]).start
                    || ms[i].end <= evs[k].start
        }),
    decreases ms.len(),
{
    let evs = allocate_loop(ms, aq, dq, cur, slot);
    if ms.len() > 0 {
        let a = atomic_phase(aq, cur, ms[0].start, slot);
        let d = divisible_phase(dq, a.2, ms[0].start, ms[0].end);
        lemma_atomic_phase_bounds(aq, cur, ms[0].start, slot);
        lemma_divisible_phase_bounds(dq, a.2, ms[0].start, ms[0].end);
        let tail = ms.drop_first();
        assert(forall|i: int| 0 <= i < tail.len() ==> (#[trigger] tail[i]).start <= tail[i].end);
        assert forall|i: int, j: int| 0 <= i < j < tail.len()
            implies (#[trigger] tail[i]).end <= (#[trigger] tail[j]).start by {
            assert(tail[i] == ms[i + 1] && tail[j] == ms[j + 1]);
        }
        assert(tail.len() > 0 ==> ms[0].end <= tail[0].start);
        lemma_allocate_loop_bounds(tail, a.1, d.1, ms[0].end, slot);
        let rest = allocate_loop(tail, a.1, d.1, ms[0].end, slot);
        assert(evs == (a.0 + d.0) + rest);
        if tail.len() > 0 {
            assert(ms.last() == tail.last());
            assert(ms[0].end <= ms.last().start);
        }
        assert forall|k: int| 0 <= k < evs.len()
            implies (#[trigger] evs[k]).start < evs[k].end
                && cur <= evs[k].start
                && evs[k].end <= ms.last().start by {
            if k < a.0.len() {
                assert(evs[k] == a.0[k]);
            } else if k < a.0.len() + d.0.len() {
                assert(evs[k] == d.0[k - a.0.len()]);
            } else {
                assert(evs[k] == rest[k - a.0.len() - d.0.len()]);
            }
        }
        assert forall|k: int, l: int| 0 <= k < l < evs.len()
            implies (#[trigger] evs[k]).end <= (#[trigger] evs[l]).start by {
            let an = a.0.len() as int;
            let dn = d.0.len() as int;
            if k < an {
                assert(evs[k] == a.0[k]);
            } else if k < an + dn {
                assert(evs[k] == d.0[k - an]);
            } else {
                assert(evs[k] == rest[k - an - dn]);
            }
            if l < an {
                assert(evs[l] == a.0[l]);
            } else if l < an + dn {
                assert(evs[l] == d.0[l - an]);
            } else {
                assert(evs[l] == rest[l - an - dn]);
            }
        }
        assert forall|k: int, i: int| 0 <= k < evs.len() && 0 <= i < ms.len()
            implies (#[trigger] evs[k]).end <= (#[trigger] ms[i]).start
                || ms[i].end <= evs[k].start by {
            let an = a.0.len() as int;
            let dn = d.0.len() as int;
            if k < an + dn {
                if k < an {
                    assert(evs[k] == a.0[k]);
                } else {
                    assert(evs[k] == d.0[k - an]);
                }
                assert(evs[k].end <= ms[0].start);
                if i > 0 {
                    assert(ms[0].end <= ms[i].start);
                }
            } else {
                assert(evs[k] == rest[k - an - dn]);
                if i == 0 {
                    assert(ms[0].end <= evs[k].start);
                } else {
                    assert(tail[i - 1] == ms[i]);
                }
            }
        }
    }
}

/// The sorted mandatory events of a valid configuration, with the sentinel
/// appended, form a chain: starts do not precede ends, consecutive entries
/// do not interleave, and the day's start precedes the first entry.
proof fn lemma_valid_ms_chained(c: ConfigModel)
    requires
        valid_config(c),
    ensures
        ({
            let ms = sort_by_start(c.mandatory).push(sentinel(c));
            &&& forall|i: int| 0 <= i < ms.len() ==> (#[trigger] ms[i]).start <= ms[i].end
            &&& forall|i: int, j: int| 0 <= i < j < ms.len()
                ==> (#[trigger] ms[i]).end <= (#[trigger] ms[j]).start
            &&& ms.len() > 0 && day_start_before_first(c)
        }),
{
    let sorted = sort_by_start(c.mandatory);
    let ms = sorted.push(sentinel(c));
    lemma_sort_by_start_sorted(c.mandatory);
    let pwf = |m: MandatoryEventModel| m.start <= m.end && c.start <= m.start && m.end <= c.end;
    assert(forall|i: int| 0 <= i < c.mandatory.len() ==> #[trigger] pwf(c.mandatory[i]));
    lemma_sort_by_start_all(c.mandatory, pwf);
    let pno = |a: MandatoryEventModel, b: MandatoryEventModel|
        !intervals_overlap(a.start, a.end, b.start, b.end) && a.start != b.start;
    assert(forall|a: MandatoryEventModel, b: MandatoryEventModel| #[trigger] pno(a, b) == pno(b, a));
    assert forall|i: int, j: int| 0 <= i < j < c.mandatory.len()
        implies #[trigger] pno(c.mandatory[i], c.mandatory[j]) by {
        assert(!intervals_overlap(
            c.mandatory[i].start, c.mandatory[i].end,
            c.mandatory[j].start, c.mandatory[j].end,
        ));
        assert(c.mandatory[i].start != c.mandatory[j].start);
    }
    lemma_sort_by_start_pairwise(c.mandatory, pno);
    assert forall|i: int, j: int| 0 <= i < j < ms.len()
        implies (#[trigger] ms[i]).end <= (#[trigger] ms[j]).start by {
        if j < sorted.len() {
            assert(pno(sorted[i], sorted[j]));
            assert(pwf(sorted[i]) && pwf(sorted[j]));
            assert(sorted[i].start <= sorted[j].start);
        } else {
            assert(pwf(sorted[i]));
        }
    }
    assert forall|i: int| 0 <= i < ms.len() implies (#[trigger] ms[i]).start <= ms[i].end by {
        if i < sorted.len() {
            assert(pwf(sorted[i]));
        }
    }
    if sorted.len() > 0 {
        assert(pwf(sorted[0]));
    }
}

/// The day's start does not come after the first entry of the sorted
/// mandatory sequence with the sentinel appended.
pub open spec fn day_start_before_first(c: ConfigModel) -> bool {
    c.start <= sort_by_start(c.mandatory).push(sentinel(c))[0].start
}

/// The schedule of a valid configuration is well formed: every event has
/// positive width; the events are sorted ascending by start and pairwise
/// non-overlapping; every event lies within the day's bounds; and no event
/// overlaps any mandatory event.
pub proof fn lemma_schedule_well_formed(c: ConfigModel)
    requires
        valid_config(c),
    ensures
        ({
            let evs = spec_schedule(c);
            &&& forall|k: int| 0 <= k < evs.len() ==> (#[trigger] evs[k]).start < evs[k].end
            &&& forall|k: int, l: int| 0 <= k < l < evs.len()
                ==> (#[trigger] evs[k]).end <= (#[trigger] evs[l]).start
            &&& forall|k: int| 0 <= k < evs.len()
                ==> c.start <= (#[trigger] evs[k]).start && evs[k].end <= c.end
            &&& forall|k: int, i: int| 0 <= k < evs.len() && 0 <= i < c.mandatory.len()
                ==> !intervals_overlap(
                    (#[trigger] evs[k]).start,
                    evs[k].end,
                    (#[trigger] c.mandatory[i]).start,
                    c.mandatory[i].end,
                )
        }),
{
    let sorted = sort_by_start(c.mandatory);
    let ms = sorted.push(sentinel(c));
    let aq = atomic_queue(c.tasks);
    let dq = divisible_queue(c.tasks, c.slot);
    let evs = spec_schedule(c);
    lemma_valid_ms_chained(c);
    lemma_divisible_queue_durs(c.tasks, c.slot);
    lemma_allocate_loop_bounds(ms, aq, dq, c.start, c.slot);
    assert(ms.last() == sentinel(c));
    assert(evs == allocate_loop(ms, aq, dq, c.start, c.slot));
    lemma_sort_by_start_contains(c.mandatory);
    assert forall|k: int, i: int| 0 <= k < evs.len() && 0 <= i < c.mandatory.len()
        implies !intervals_overlap(
            (#[trigger] evs[k]).start,
            evs[k].end,
            (#[trigger] c.mandatory[i]).start,
            c.mandatory[i].end,
        ) by {
        let x = c.mandatory[i];
        assert(c.mandatory.contains(x));
        assert(sorted.contains(x));
        let j = choose|j: int| 0 <= j < sorted.len() && sorted[j] == x;
        assert(ms[j] == x);
        assert(evs[k].end <= ms[j].start || ms[j].end <= evs[k].start);
    }
}

/// Idempotence: the schedule is a pure function of the configuration, so two
/// runs on equal configurations produce equal schedules. Together with
/// `Config::build_schedule`'s contract, which pins the produced events to
/// `spec_schedule` of the configuration's view, this rules out any hidden
/// source of variation between runs.
pub proof fn lemma_schedule_idempotent(c1: ConfigModel, c2: ConfigModel)
    requires
        c1 == c2,
    ensures
        spec_schedule(c1) == spec_schedule(c2),
{
}

/// The number of whole timeslots that fit in the free gaps which the
/// allocation walk meets before each mandatory start.
pub open spec fn free_slot_capacity(ms: Seq<MandatoryEventModel>, cur: int, slot: int) -> int
    decreases ms.len(),
{
    if ms.len() == 0 {
        0
    } else {
        (if ms[0].start - cur > 0 { (ms[0].start - cur) / slot } else { 0 })
            + free_slot_capacity(ms.drop_first(), ms[0].end, slot)
    }
}

/// The free-slot capacity is never negative.
proof fn lemma_free_slot_capacity_nonneg(ms: Seq<MandatoryEventModel>, cur: int, slot: int)
    requires
        slot >= 1,
    ensures
        free_slot_capacity(ms, cur, slot) >= 0,
    decreases ms.len(),
{
    if ms.len() > 0 {
        if ms[0].start - cur > 0 {
            vstd::arithmetic::div_mod::lemma_div_pos_is_pos(ms[0].start - cur, slot);
        }
        lemma_free_slot_capacity_nonneg(ms.drop_first(), ms[0].end, slot);
    }
}

/// The atomic phase consumes exactly as many units as fit: the smaller of
/// the queue's length and the number of whole timeslots in the gap. Each
/// emitted event carries the popped unit's name and is one timeslot wide.
proof fn lemma_atomic_phase_count(q: Seq<Seq<char>>, cur: int, next_start: int, slot: int)
    requires
        slot >= 1,
    ensures
        ({
            let (evs, q2, cur2) = atomic_phase(q, cur, next_start, slot);
            &&& evs.len() == vstd::math::min(
                q.len() as int,
                if next_start - cur > 0 { (next_start - cur) / slot } else { 0 },
            )
            &&& forall|k: int| 0 <= k < evs.len()
                ==> (#[trigger] evs[k]).name == q[k] && evs[k].end - evs[k].start == slot
        }),
    decreases q.len(),
{
    let (evs, q2, cur2) = atomic_phase(q, cur, next_start, slot);
    let g = next_start - cur;
    if q.len() > 0 && g >= slot {
        lemma_atomic_phase_count(q.drop_first(), cur + slot, next_start, slot);
        let rest = atomic_phase(q.drop_first(), cur + slot, next_start, slot);
        assert(g / slot == (g - slot) / slot + 1) by {
            vstd::arithmetic::div_mod::lemma_div_plus_one(g - slot, slot);
        }
        vstd::arithmetic::div_mod::lemma_div_pos_is_pos(g - slot, slot);
        if g - slot == 0 {
            vstd::arithmetic::div_mod::lemma_div_of0(slot);
        }
        assert(evs.len() == 1 + rest.0.len());
        assert forall|k: int| 0 <= k < evs.len()
            implies (#[trigger] evs[k]).name == q[k] && evs[k].end - evs[k].start == slot by {
            if k > 0 {
                assert(evs[k] == rest.0[k - 1]);
                assert(q.drop_first()[k - 1] == q[k]);
            }
        }
    } else {
        if q.len() > 0 && 0 < g < slot {
            vstd::arithmetic::div_mod::lemma_basic_div(g, slot);
        }
    }
}

/// With no divisible remnants, the allocation walk over a chained mandatory
/// sequence consumes exactly as many atomic units as the free gaps can hold:
/// the smaller of the queue's length and the total free-slot capacity. The
/// units are emitted in queue order, each one timeslot wide.
proof fn lemma_allocate_loop_atomic_count(
    ms: Seq<MandatoryEventModel>,
    aq: Seq<Seq<char>>,
    cur: int,
    slot: int,
)
    requires
        slot >= 1,
        forall|i: int| 0 <= i < ms.len() ==> (#[trigger] ms[i]).start <= ms[i].end,
        forall|i: int, j: int| 0 <= i < j < ms.len()
            ==> (#[trigger] ms[i]).end <= (#[trigger] ms[j]).start,
        ms.len() > 0 ==> cur <= ms[0].start,
    ensures
        ({
            let evs = allocate_loop(ms, aq, Seq::<RemnantModel>::empty(), cur, slot);
            &&& evs.len() == vstd::math::min(aq.len() as int, free_slot_capacity(ms, cur, slot))
            &&& forall|k: int| 0 <= k < evs.len()
                ==> (#[trigger] evs[k]).name == aq[k] && evs[k].end - evs[k].start == slot
        }),
    decreases ms.len(),
{
    let evs = allocate_loop(ms, aq, Seq::<RemnantModel>::empty(), cur, slot);
    if ms.len() > 0 {
        let a = atomic_phase(aq, cur, ms[0].start, slot);
        lemma_atomic_phase_count(aq, cur, ms[0].start, slot);
        lemma_atomic_phase_bounds(aq, cur, ms[0].start, slot);
        let d = divisible_phase(Seq::<RemnantModel>::empty(), a.2, ms[0].start, ms[0].end);
        assert(d.0 == Seq::<EventModel>::empty() && d.1 == Seq::<RemnantModel>::empty());
        let tail = ms.drop_first();
        assert(forall|i: int| 0 <= i < tail.len() ==> (#[trigger] tail[i]).start <= tail[i].end);
        assert forall|i: int, j: int| 0 <= i < j < tail.len()
            implies (#[trigger] tail[i]).end <= (#[trigger] tail[j]).start by {
            assert(tail[i] == ms[i + 1] && tail[j] == ms[j + 1]);
        }
        assert(tail.len() > 0 ==> ms[0].end <= tail[0].start);
        lemma_allocate_loop_atomic_count(tail, a.1, ms[0].end, slot);
        lemma_free_slot_capacity_nonneg(tail, ms[0].end, slot);
        let rest = allocate_loop(tail, a.1, Seq::<RemnantModel>::empty(), ms[0].end, slot);
        let n0 = a.0.len() as int;
        let cap0 = if ms[0].start - cur > 0 { (ms[0].start - cur) / slot } else { 0 };
        if ms[0].start - cur > 0 {
            vstd::arithmetic::div_mod::lemma_div_pos_is_pos(ms[0].start - cur, slot);
        }
        assert(a.1 == aq.skip(n0));
        assert(evs =~= a.0 + rest);
        assert(evs.len() == vstd::math::min(aq.len() as int, free_slot_capacity(ms, cur, slot)));
        assert forall|k: int| 0 <= k < evs.len()
            implies (#[trigger] evs[k]).name == aq[k] && evs[k].end - evs[k].start == slot by {
            if k < n0 {
                assert(evs[k] == a.0[k]);
            } else {
                assert(evs[k] == rest[k - n0]);
                assert(rest[k - n0].name == aq.skip(n0)[k - n0]);
                assert(aq.skip(n0)[k - n0] == aq[k]);
            }
        }
    }
}

/// Conservation for atomic tasks: when the pool holds a single non-divisible
/// task and no other task competes with it, and the free gaps of a valid
/// configuration hold at least `timeslots` whole timeslots, every unit of
/// the task appears in the schedule, each one timeslot wide, and nothing
/// else does.
pub proof fn lemma_atomic_conservation(c: ConfigModel)
    requires
        valid_config(c),
        c.tasks.len() == 1,
        !c.tasks[0].divisible,
        c.tasks[0].timeslots >= 1,
        free_slot_capacity(
            sort_by_start(c.mandatory).push(sentinel(c)),
            c.start,
            c.slot,
        ) >= c.tasks[0].timeslots,
    ensures
        spec_schedule(c).len() == c.tasks[0].timeslots,
        forall|k: int| 0 <= k < spec_schedule(c).len()
            ==> (#[trigger] spec_schedule(c)[k]).name == c.tasks[0].name
                && spec_schedule(c)[k].end - spec_schedule(c)[k].start == c.slot,
{
    let ms = sort_by_start(c.mandatory).push(sentinel(c));
    let aq = atomic_queue(c.tasks);
    let dq = divisible_queue(c.tasks, c.slot);
    let t = c.tasks[0];
    assert(c.tasks.drop_last() =~= Seq::<crate::model::WorkTaskModel>::empty());
    assert(c.tasks.last() == t);
    assert(atomic_queue(Seq::<crate::model::WorkTaskModel>::empty())
        == Seq::<Seq<char>>::empty());
    assert(divisible_queue(Seq::<crate::model::WorkTaskModel>::empty(), c.slot)
        == Seq::<RemnantModel>::empty());
    assert(aq =~= Seq::new(t.timeslots as nat, |i: int| t.name));
    assert(dq =~= Seq::<RemnantModel>::empty());
    lemma_valid_ms_chained(c);
    lemma_allocate_loop_atomic_count(ms, aq, c.start, c.slot);
    assert(aq.len() == t.timeslots);
    assert(forall|k: int| 0 <= k < aq.len() ==> #[trigger] aq[k] == t.name);
}

/// Conservation on a free day: with no mandatory events, a single
/// non-divisible task whose total need fits in the day span is scheduled in
/// full. This is the plain reading of conservation; with mandatory events
/// the exact premise is the free-slot capacity of
/// `lemma_atomic_conservation`, since free time split into gaps smaller
/// than a timeslot cannot hold an atomic unit.
pub proof fn lemma_atomic_conservation_free_day(c: ConfigModel)
    requires
        valid_config(c),
        c.mandatory.len() == 0,
        c.tasks.len() == 1,
        !c.tasks[0].divisible,
        c.tasks[0].timeslots >= 1,
        c.end - c.start >= c.tasks[0].timeslots * c.slot,
    ensures
        spec_schedule(c).len() == c.tasks[0].timeslots,
        forall|k: int| 0 <= k < spec_schedule(c).len()
            ==> (#[trigger] spec_schedule(c)[k]).name == c.tasks[0].name
                && spec_schedule(c)[k].end - spec_schedule(c)[k].start == c.slot,
{
    let k = c.tasks[0].timeslots;
    let span = c.end - c.start;
    assert(sort_by_start(c.mandatory) == Seq::<MandatoryEventModel>::empty());
    let ms = sort_by_start(c.mandatory).push(sentinel(c));
    assert(ms =~= seq![sentinel(c)]);
    assert(ms.drop_first() =~= Seq::<MandatoryEventModel>::empty());
    assert(free_slot_capacity(Seq::<MandatoryEventModel>::empty(), c.end, c.slot) == 0);
    vstd::arithmetic::div_mod::lemma_div_multiples_vanish(k, c.slot);
    assert(k * c.slot == c.slot * k) by (nonlinear_arith);
    vstd::arithmetic::div_mod::lemma_div_is_ordered(k * c.slot, span, c.slot);
    if span > 0 {
        assert(free_slot_capacity(ms, c.start, c.slot) == span / c.slot);
    } else {
        assert(k * c.slot >= 1 * c.slot) by (nonlinear_arith)
            requires k >= 1 && c.slot >= 1;
        assert(false);
    }
    lemma_atomic_conservation(c);
}

/// Divisible splitting: a single one-timeslot divisible task, faced with a
/// first gap smaller than one timeslot and a later gap holding at least the
/// missing time, is placed as exactly two events whose durations sum to one
/// timeslot: the first fills the first gap, the second carries the rest.
pub proof fn lemma_divisible_split(c: ConfigModel)
    requires
        valid_config(c),
        c.tasks.len() == 1,
        c.tasks[0].divisible,
        c.tasks[0].timeslots == 1,
        c.mandatory.len() == 1,
        0 < c.mandatory[0].start - c.start < c.slot,
        c.end - c.mandatory[0].end >= c.slot - (c.mandatory[0].start - c.start),
    ensures
        ({
            let m = c.mandatory[0];
            let g1 = m.start - c.start;
            spec_schedule(c) == seq![
                EventModel { name: c.tasks[0].name, start: c.start, end: m.start },
                EventModel { name: c.tasks[0].name, start: m.end, end: m.end + (c.slot - g1) },
            ]
        }),
{
    let m = c.mandatory[0];
    let t = c.tasks[0];
    let n = t.name;
    let g1 = m.start - c.start;
    let s = sentinel(c);
    let r0 = RemnantModel { name: n, dur: c.slot };
    let r1 = RemnantModel { name: n, dur: c.slot - g1 };
    let ev1 = EventModel { name: n, start: c.start, end: m.start };
    let ev2 = EventModel { name: n, start: m.end, end: m.end + (c.slot - g1) };

    assert(c.mandatory.drop_last() =~= Seq::<MandatoryEventModel>::empty());
    assert(c.mandatory.last() == m);
    assert(sort_by_start(Seq::<MandatoryEventModel>::empty())
        == Seq::<MandatoryEventModel>::empty());
    assert(insert_by_start(Seq::<MandatoryEventModel>::empty(), m) == seq![m]);
    assert(sort_by_start(c.mandatory) == seq![m]);
    let ms = sort_by_start(c.mandatory).push(s);
    assert(ms =~= seq![m, s]);

    assert(c.tasks.drop_last() =~= Seq::<crate::model::WorkTaskModel>::empty());
    assert(c.tasks.last() == t);
    assert(atomic_queue(Seq::<crate::model::WorkTaskModel>::empty())
        == Seq::<Seq<char>>::empty());
    assert(divisible_queue(Seq::<crate::model::WorkTaskModel>::empty(), c.slot)
        == Seq::<RemnantModel>::empty());
    let aq = atomic_queue(c.tasks);
    let dq = divisible_queue(c.tasks, c.slot);
    assert(aq =~= Seq::<Seq<char>>::empty());
    assert(dq =~= seq![r0]);

    // First gap: no atomic units; the remnant is longer than the gap, so it
    // fills the gap and goes back shortened, and the clock jumps to m.end.
    let a1 = atomic_phase(aq, c.start, m.start, c.slot);
    assert(a1 == (Seq::<EventModel>::empty(), aq, c.start));
    let d1 = divisible_phase(dq, c.start, m.start, m.end);
    assert(first_max_index(dq) == 0);
    assert(dq[0] == r0);
    assert(r0.dur > m.start - c.start);
    assert(dq.remove(0) =~= Seq::<RemnantModel>::empty());
    assert(dq.remove(0).push(RemnantModel { name: r0.name, dur: r0.dur - (m.start - c.start) })
        =~= seq![r1]);
    assert(d1.0 == seq![ev1]);
    assert(d1.1 == seq![r1]);
    assert(d1.2 == m.end);

    // Second gap, before the sentinel: the shortened remnant fits and is
    // consumed whole.
    let a2 = atomic_phase(aq, m.end, s.start, c.slot);
    assert(a2 == (Seq::<EventModel>::empty(), aq, m.end));
    let d2 = divisible_phase(seq![r1], m.end, s.start, s.end);
    assert(s.start - m.end >= c.slot - g1 > 0);
    assert(first_max_index(seq![r1]) == 0);
    assert(seq![r1][0] == r1);
    assert(!(r1.dur > s.start - m.end));
    assert(seq![r1].remove(0) =~= Seq::<RemnantModel>::empty());
    assert(divisible_phase(Seq::<RemnantModel>::empty(), m.end + r1.dur, s.start, s.end)
        == (Seq::<EventModel>::empty(), Seq::<RemnantModel>::empty(), m.end + r1.dur));
    assert(d2.0 =~= seq![ev2]);

    // Stitch the two gaps together.
    assert(ms.drop_first() =~= seq![s]);
    assert(seq![s].drop_first() =~= Seq::<MandatoryEventModel>::empty());
    assert(allocate_loop(
        Seq::<MandatoryEventModel>::empty(), a2.1, d2.1, s.end, c.slot,
    ) == Seq::<EventModel>::empty());
    let rest = allocate_loop(seq![s], aq, seq![r1], m.end, c.slot);
    assert(rest =~= seq![ev2]);
    assert(spec_schedule(c) == allocate_loop(ms, aq, dq, c.start, c.slot));
    assert(allocate_loop(ms, aq, dq, c.start, c.slot)
        == (a1.0 + d1.0) + rest);
    assert((a1.0 + d1.0) + rest =~= seq![ev1, ev2]);
}

} // verus!
