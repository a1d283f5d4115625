//! The cron scheduler: an ordered timeline of fire instants per process.

use vstd::prelude::*;

use crate::config::ProcessConfig;
use crate::config::ProcessType;
use crate::cronjob::TimerDescription;
use crate::cronjob::spec_parse_timer;
use crate::datetime::DateTime;
use crate::datetime::YEAR_MAX;
use crate::datetime::lemma_next_nano_gt;

verus! {

/// Error occurring during scheduler construction.
#[derive(Debug)]
pub enum Error {
    /// A cron expression failed to parse; the message and the process id.
    TimeParseError(String, usize),
}

/// Index to schedule cron jobs.
///
/// Keeps each job's expanded timer and an ordered timeline from fire
/// instant to process id; no two timeline entries share an instant.
pub struct Cron {
    timers: Vec<(usize, TimerDescription)>,
    timeline: Vec<(DateTime, usize)>,
}

impl Cron {
    /// The scheduled instants in timeline order.
    pub closed spec fn spec_timeline(self) -> Seq<(DateTime, usize)> {
        self.timeline@
    }

    /// The expanded timer of each job.
    pub closed spec fn spec_timers(self) -> Seq<(usize, TimerDescription)> {
        self.timers@
    }

    /// The timeline is strictly ascending (so no two entries share an
    /// instant), every entry is valid with headroom for rescheduling,
    /// and every scheduled id has a well-formed timer.
    pub closed spec fn wf(self) -> bool {
        &&& forall|a: int, b: int|
            0 <= a < b < self.timeline@.len() ==> (#[trigger] self.timeline@[a]).0.spec_lt(
                (#[trigger] self.timeline@[b]).0,
            )
        &&& forall|a: int|
            0 <= a < self.timeline@.len() ==> (#[trigger] self.timeline@[a]).0.valid()
        &&& forall|a: int|
            0 <= a < self.timeline@.len() ==> (#[trigger] self.timeline@[a]).0.year + 2
                <= YEAR_MAX
        &&& forall|t: int| 0 <= t < self.timers@.len() ==> (#[trigger] self.timers@[t]).1.wf()
        &&& forall|t1: int, t2: int|
            0 <= t1 < t2 < self.timers@.len() ==> (#[trigger] self.timers@[t1]).0 != (
            #[trigger] self.timers@[t2]).0
        &&& forall|a: int|
            0 <= a < self.timeline@.len() ==> has_timer(
                self.timers@,
                (#[trigger] self.timeline@[a]).1,
            )
        &&& self.timeline@.len() < 0x1000_0000
    }

    /// Whether some entry of the timeline carries the given instant.
    pub open spec fn key_scheduled(timeline: Seq<(DateTime, usize)>, t: DateTime) -> bool {
        exists|a: int| 0 <= a < timeline.len() && (#[trigger] timeline[a]).0.same_instant(t)
    }

    /// Whether the id is scheduled somewhere on the timeline.
    pub open spec fn id_scheduled(timeline: Seq<(DateTime, usize)>, id: usize) -> bool {
        exists|a: int| 0 <= a < timeline.len() && (#[trigger] timeline[a]).1 == id
    }

    /// Whether some entry carries the given instant and id.
    pub open spec fn entry_scheduled(
        timeline: Seq<(DateTime, usize)>,
        t: DateTime,
        id: usize,
    ) -> bool {
        exists|a: int|
            0 <= a < timeline.len() && (#[trigger] timeline[a]).0.same_instant(t) && timeline[a].1
                == id
    }

    /// Whether some timeline entry carries the given instant.
    fn contains_key(&self, t: &DateTime) -> (r: bool)
        requires
            self.wf(),
        ensures
            r == Cron::key_scheduled(self.spec_timeline(), *t),
    {
        let n = self.timeline.len();
        let mut a: usize = 0;
        while a < n
            invariant
                0 <= a <= n,
                n == self.timeline@.len(),
                forall|b: int| 0 <= b < a ==> !(#[trigger] self.timeline@[b]).0.same_instant(*t),
            decreases n - a,
        {
            let (key, _) = self.timeline[a];
            if key.year == t.year && key.month == t.month && key.day == t.day && key.hour == t.hour
                && key.minute == t.minute && key.second == t.second && key.nanosecond
                == t.nanosecond {
                return true;
            }
            a += 1;
        }
        false
    }

    /// Schedule the next execution of a process id.
    ///
    /// An instant already taken is nudged forward nanosecond by
    /// nanosecond until a free slot is found, so no two jobs ever share
    /// an entry.
    #[verifier::loop_isolation(false)]
    fn insert_job(&mut self, next_execution: DateTime, id: usize)
        requires
            old(self).wf(),
            next_execution.valid(),
            next_execution.year + 3 <= YEAR_MAX,
            old(self).spec_timeline().len() + 1 < 0x1000_0000,
            has_timer(old(self).spec_timers(), id),
        ensures
            final(self).wf(),
            final(self).spec_timers() == old(self).spec_timers(),
            final(self).spec_timeline().len() == old(self).spec_timeline().len() + 1,
            forall|a: int|
                0 <= a < old(self).spec_timeline().len() ==> final(self).spec_timeline().contains(
                    #[trigger] old(self).spec_timeline()[a],
                ),
            exists|t: DateTime|
                Cron::entry_scheduled(final(self).spec_timeline(), t, id) && !Cron::key_scheduled(
                    old(self).spec_timeline(),
                    t,
                ) && (next_execution.spec_lt(t) || next_execution.same_instant(t)),
            !Cron::key_scheduled(old(self).spec_timeline(), next_execution)
                ==> Cron::entry_scheduled(final(self).spec_timeline(), next_execution, id),
            Cron::key_scheduled(old(self).spec_timeline(), next_execution) && !Cron::key_scheduled(
                old(self).spec_timeline(),
                next_execution.spec_next_nano(),
            ) ==> Cron::entry_scheduled(
                final(self).spec_timeline(),
                next_execution.spec_next_nano(),
                id,
            ),
    {
        let ghost orig = old(self).spec_timeline();
        let ghost first = next_execution;
        let mut slot = next_execution;
        let mut taken = self.contains_key(&slot);
        proof {
            lemma_count_below_le(orig, slot);
        }
        while taken
            invariant
                self.wf(),
                *self == *old(self),
                slot.valid(),
                taken == Cron::key_scheduled(orig, slot),
                first.year + 3 <= YEAR_MAX,
                first.valid(),
                slot.year <= first.year + 1,
                first.spec_lt(slot) || first.same_instant(slot),
                count_below(orig, first) <= count_below(orig, slot) <= orig.len(),
                slot.year == first.year + 1 ==> (slot.month == 1 && slot.day == 1 && slot.hour
                    == 0 && slot.minute == 0 && slot.second == 0 && slot.nanosecond
                    <= count_below(orig, slot) - count_below(orig, first)),
                slot == first || (Cron::key_scheduled(orig, first) && slot
                    == first.spec_next_nano()) || (Cron::key_scheduled(orig, first)
                    && Cron::key_scheduled(orig, first.spec_next_nano())
                    && first.spec_next_nano().spec_lt(slot)),
            decreases orig.len() - count_below(orig, slot),
        {
            proof {
                lemma_count_below_le(orig, first);
                let a = choose|a: int|
                    0 <= a < orig.len() && (#[trigger] orig[a]).0.same_instant(slot);
                lemma_count_below_step(orig, slot, a);
            }
            let bumped = slot.next_nano();
            proof {
                lemma_next_nano_gt(slot);
                lemma_count_below_ge(orig, slot, bumped);
                crate::datetime::lemma_dt_lt_transitive_weak(first, slot, bumped);
                lemma_count_below_le(orig, bumped);
                if bumped.year == first.year + 1 {
                    if slot.year == first.year + 1 {
                        assert(slot.nanosecond < 999_999_999);
                        assert(bumped.nanosecond == slot.nanosecond + 1);
                    }
                }
                if slot == first {
                    assert(bumped == first.spec_next_nano());
                } else if slot == first.spec_next_nano() {
                    lemma_next_nano_gt(slot);
                } else {
                    crate::datetime::lemma_dt_lt_transitive(
                        first.spec_next_nano(),
                        slot,
                        bumped,
                    );
                }
            }
            slot = bumped;
            taken = self.contains_key(&slot);
        }
        let at = lower_bound(&self.timeline, &slot);
        let ghost pre = self.timeline@;
        proof {
            if (at as int) < pre.len() && !pre[at as int].0.spec_lt(slot) {
                crate::datetime::lemma_dt_lt_total(pre[at as int].0, slot);
            }
        }
        self.timeline.insert(at, (slot, id));
        proof {
            assert(self.timeline@ =~= pre.subrange(0, at as int) + seq![(slot, id)] + pre.subrange(
                at as int,
                pre.len() as int,
            ));
            assert forall|a: int, b: int|
                0 <= a < b < self.timeline@.len() implies (#[trigger] self.timeline@[a]).0.spec_lt(
                (#[trigger] self.timeline@[b]).0,
            ) by {
                if a < at && b < at {
                } else if a < at && b == at {
                } else if a < at && b > at {
                    assert(self.timeline@[b] == pre[b - 1]);
                } else if a == at {
                    assert(self.timeline@[b] == pre[b - 1]);
                    if !slot.spec_lt(pre[b - 1].0) {
                        crate::datetime::lemma_dt_lt_total(slot, pre[b - 1].0);
                        if pre[b - 1].0.same_instant(slot) {
                            assert(Cron::key_scheduled(orig, slot));
                        } else {
                            assert(pre[b - 1].0.spec_lt(slot));
                            if b - 1 > at {
                                assert(pre[at as int].0.spec_lt(pre[b - 1].0));
                                crate::datetime::lemma_dt_lt_transitive(
                                    pre[at as int].0,
                                    pre[b - 1].0,
                                    slot,
                                );
                            }
                        }
                    }
                } else {
                    assert(self.timeline@[a] == pre[a - 1]);
                    assert(self.timeline@[b] == pre[b - 1]);
                }
            }
            assert forall|a: int|
                0 <= a < pre.len() implies self.timeline@.contains(#[trigger] pre[a]) by {
                if a < at {
                    assert(self.timeline@[a] == pre[a]);
                } else {
                    assert(self.timeline@[a + 1] == pre[a]);
                }
            }
            assert(self.timeline@[at as int] == (slot, id));
            assert(Cron::entry_scheduled(self.timeline@, slot, id));
            if !Cron::key_scheduled(orig, first) {
                assert(slot == first);
            }
            if Cron::key_scheduled(orig, first) && !Cron::key_scheduled(
                orig,
                first.spec_next_nano(),
            ) {
                assert(slot == first.spec_next_nano());
            }
        }
    }
}

/// First timeline position whose instant is not below `slot`.
fn lower_bound(timeline: &Vec<(DateTime, usize)>, slot: &DateTime) -> (at: usize)
    ensures
        at <= timeline@.len(),
        forall|b: int| 0 <= b < at ==> (#[trigger] timeline@[b]).0.spec_lt(*slot),
        (at as int) < timeline@.len() ==> !timeline@[at as int].0.spec_lt(*slot),
{
    let n = timeline.len();
    let mut at: usize = 0;
    while at < n
        invariant
            0 <= at <= n,
            n == timeline@.len(),
            forall|b: int| 0 <= b < at ==> (#[trigger] timeline@[b]).0.spec_lt(*slot),
        decreases n - at,
    {
        let (key, _) = timeline[at];
        if !key.lt(slot) {
            return at;
        }
        at += 1;
    }
    at
}

/// How many timeline entries lie strictly below `t`.
pub open spec fn count_below(timeline: Seq<(DateTime, usize)>, t: DateTime) -> int
    decreases timeline.len(),
{
    if timeline.len() == 0 {
        0
    } else {
        count_below(timeline.drop_last(), t) + if timeline.last().0.spec_lt(t) {
            1int
        } else {
            0int
        }
    }
}

/// The count never exceeds the timeline length.
proof fn lemma_count_below_le(timeline: Seq<(DateTime, usize)>, t: DateTime)
    ensures
        0 <= count_below(timeline, t) <= timeline.len(),
    decreases timeline.len(),
{
    if timeline.len() > 0 {
        lemma_count_below_le(timeline.drop_last(), t);
    }
}

/// Moving past an occupied instant raises the count.
proof fn lemma_count_below_step(timeline: Seq<(DateTime, usize)>, t: DateTime, a: int)
    requires
        0 <= a < timeline.len(),
        timeline[a].0.same_instant(t),
        t.valid(),
        t.year < YEAR_MAX,
    ensures
        count_below(timeline, t.spec_next_nano()) > count_below(timeline, t),
        count_below(timeline, t) <= timeline.len(),
    decreases timeline.len(),
{
    lemma_count_below_le(timeline, t);
    if a == timeline.len() - 1 {
        lemma_count_below_ge(timeline.drop_last(), t, t.spec_next_nano());
        crate::datetime::lemma_next_nano_gt(t);
    } else {
        lemma_count_below_step(timeline.drop_last(), t, a);
        crate::datetime::lemma_next_nano_gt(t);
        if timeline.last().0.spec_lt(t) {
            crate::datetime::lemma_dt_lt_transitive(timeline.last().0, t, t.spec_next_nano());
        }
    }
}

/// A later threshold never lowers the count.
proof fn lemma_count_below_ge(timeline: Seq<(DateTime, usize)>, t1: DateTime, t2: DateTime)
    requires
        t1.spec_lt(t2),
    ensures
        count_below(timeline, t1) <= count_below(timeline, t2),
    decreases timeline.len(),
{
    if timeline.len() > 0 {
        lemma_count_below_ge(timeline.drop_last(), t1, t2);
        if timeline.last().0.spec_lt(t1) {
            crate::datetime::lemma_dt_lt_transitive(timeline.last().0, t1, t2);
        }
    }
}

/// Alias of the monotonicity argument used while probing for a slot.
proof fn lemma_count_below_mono(timeline: Seq<(DateTime, usize)>, t1: DateTime, t2: DateTime)
    requires
        t1.spec_lt(t2),
    ensures
        count_below(timeline, t1) <= count_below(timeline, t2),
{
    lemma_count_below_ge(timeline, t1, t2);
}

/// The cron expression of a cronjob configuration.
pub open spec fn spec_timer_expr(t: crate::config::ProcessType) -> Seq<char> {
    match t {
        crate::config::ProcessType::CronJob { timer } => timer@,
        _ => Seq::empty(),
    }
}

/// Whether some timer entry carries the given id.
pub open spec fn has_timer(timers: Seq<(usize, TimerDescription)>, id: usize) -> bool {
    exists|t: int| 0 <= t < timers.len() && (#[trigger] timers[t]).0 == id
}

/// Whether the scheduler holds the job's parsed timer and a timeline
/// entry at (or nanosecond-nudged past) that timer's next fire from
/// `now`.
pub open spec fn job_scheduled_ok(c: Cron, entry: (usize, ProcessConfig), now: DateTime) -> bool {
    exists|t: int|
        0 <= t < c.spec_timers().len() && (#[trigger] c.spec_timers()[t]).0 == entry.0
            && spec_parse_timer(spec_timer_expr(entry.1.process_type)) == Ok::<_, Seq<char>>(
            c.spec_timers()[t].1.sets(),
        ) && (exists|base: DateTime|
            #[trigger] crate::cronjob::next_fire_ok(c.spec_timers()[t].1, now, base) && (exists|
                slot: DateTime,
            |
                Cron::entry_scheduled(c.spec_timeline(), slot, entry.0) && (base.spec_lt(slot)
                    || base.same_instant(slot))))
}

/// Relies on chrono's `Local::now` and its calendar accessors: the
/// clock reading decomposed into local calendar fields, which always
/// form a valid date far below the year bound.
#[verifier::external_body]
fn now_local() -> (r: DateTime)
    ensures
        r.valid(),
        r.year + 16 <= YEAR_MAX,
{
    let t = chrono::Local::now();
    DateTime {
        year: chrono::Datelike::year(&t) as i64,
        month: chrono::Datelike::month(&t),
        day: chrono::Datelike::day(&t),
        hour: chrono::Timelike::hour(&t),
        minute: chrono::Timelike::minute(&t),
        second: chrono::Timelike::second(&t) % 60,
        nanosecond: chrono::Timelike::nanosecond(&t) % 1_000_000_000,
        weekday: chrono::Datelike::weekday(&t).num_days_from_sunday(),
    }
}

impl Cron {
    /// Number of scheduled entries.
    pub fn scheduled_len(&self) -> (r: usize)
        ensures
            r == self.spec_timeline().len(),
    {
        self.timeline.len()
    }

    /// Build a cron scheduler from the configuration, scheduling each
    /// job's first execution from `now`.
    #[verifier::rlimit(100)]
    #[verifier::spinoff_prover]
    pub fn with_jobs_at(config: &Vec<(usize, ProcessConfig)>, now: DateTime) -> (r: Result<
        Cron,
        Error,
    >)
        requires
            now.valid(),
            now.year + 16 <= YEAR_MAX,
            config@.len() + 1 < 0x1000_0000,
            forall|k: int|
                0 <= k < config@.len() ==> crate::config::is_cronjob_type(
                    (#[trigger] config@[k]).1.process_type,
                ),
            forall|k1: int, k2: int|
                0 <= k1 < k2 < config@.len() ==> (#[trigger] config@[k1]).0 != (
                #[trigger] config@[k2]).0,
        ensures
            match r {
                Err(e) => e matches Error::TimeParseError(m, id) && exists|k: int|
                    0 <= k < config@.len() && (#[trigger] config@[k]).0 == id && spec_parse_timer(
                        spec_timer_expr(config@[k].1.process_type),
                    ) == Err::<(Set<u32>, Set<u32>, Set<u32>, Set<u32>, Set<u32>), Seq<char>>(m@),
                Ok(c) => {
                    &&& c.wf()
                    &&& c.spec_timeline().len() == config@.len()
                    &&& forall|k: int|
                        0 <= k < config@.len() ==> Cron::id_scheduled(
                            c.spec_timeline(),
                            (#[trigger] config@[k]).0,
                        )
                    &&& forall|k: int|
                        0 <= k < config@.len() ==> spec_parse_timer(
                            spec_timer_expr((#[trigger] config@[k]).1.process_type),
                        ) is Ok
                    &&& forall|k: int|
                        0 <= k < config@.len() ==> job_scheduled_ok(c, #[trigger] config@[k], now)
                },
            },
    {
        let mut result = Cron { timers: Vec::new(), timeline: Vec::new() };
        let n = config.len();
        let mut k: usize = 0;
        while k < n
            invariant
                0 <= k <= n,
                n == config@.len(),
                now.valid(),
                now.year + 16 <= YEAR_MAX,
                n + 1 < 0x1000_0000,
                forall|t: int|
                    0 <= t < config@.len() ==> crate::config::is_cronjob_type(
                        (#[trigger] config@[t]).1.process_type,
                    ),
                forall|k1: int, k2: int|
                    0 <= k1 < k2 < config@.len() ==> (#[trigger] config@[k1]).0 != (
                    #[trigger] config@[k2]).0,
                result.wf(),
                result.spec_timeline().len() == k,
                result.spec_timers().len() == k,
                forall|t: int|
                    0 <= t < k ==> (#[trigger] result.spec_timers()[t]).0 == config@[t].0,
                forall|t: int|
                    0 <= t < k ==> Cron::id_scheduled(
                        result.spec_timeline(),
                        (#[trigger] config@[t]).0,
                    ),
                forall|t: int|
                    0 <= t < k ==> spec_parse_timer(
                        spec_timer_expr((#[trigger] config@[t]).1.process_type),
                    ) is Ok,
                forall|j: int|
                    0 <= j < k ==> job_scheduled_ok(result, #[trigger] config@[j], now),
            decreases n - k,
        {
            let id = config[k].0;
            let raw_desc = match &config[k].1.process_type {
                ProcessType::CronJob { timer } => timer.as_str(),
                _ => {
                    proof {
                        assert(false);
                    }
                    ""
                },
            };
            let time_desc = match TimerDescription::parse(raw_desc) {
                Ok(td) => td,
                Err(m) => {
                    return Err(Error::TimeParseError(m, id));
                },
            };
            let next_execution = time_desc.get_next_execution(now);
            let ghost old_timers = result.spec_timers();
            result.timers.push((id, time_desc));
            proof {
                assert(result.spec_timers() =~= old_timers.push((id, time_desc)));
                assert forall|t1: int, t2: int|
                    0 <= t1 < t2 < result.spec_timers().len() implies (
                #[trigger] result.spec_timers()[t1]).0 != (#[trigger] result.spec_timers()[t2]).0
                    by {
                    assert(result.spec_timers()[t1].0 == config@[t1].0);
                    assert(result.spec_timers()[t2].0 == config@[t2].0);
                }
                assert forall|a: int|
                    0 <= a < result.spec_timeline().len() implies has_timer(
                    result.spec_timers(),
                    (#[trigger] result.spec_timeline()[a]).1,
                ) by {
                    let t = choose|t: int|
                        0 <= t < old_timers.len() && (#[trigger] old_timers[t]).0
                            == result.spec_timeline()[a].1;
                    assert(result.spec_timers()[t].0 == old_timers[t].0);
                }
                assert(result.spec_timers()[result.spec_timers().len() - 1].0 == id);
                assert(has_timer(result.spec_timers(), id));
            }
            let ghost pre = result;
            result.insert_job(next_execution, id);
            proof {
                assert forall|j: int|
                    0 <= j < k + 1 implies job_scheduled_ok(result, #[trigger] config@[j], now) by {
                    if j < k {
                        assert(job_scheduled_ok(pre, config@[j], now));
                        let t0 = choose|t0: int|
                            0 <= t0 < pre.spec_timers().len() && (
                            #[trigger] pre.spec_timers()[t0]).0 == config@[j].0
                                && spec_parse_timer(spec_timer_expr(config@[j].1.process_type))
                                == Ok::<_, Seq<char>>(pre.spec_timers()[t0].1.sets()) && (exists|
                                base: DateTime,
                            |
                                #[trigger] crate::cronjob::next_fire_ok(
                                    pre.spec_timers()[t0].1,
                                    now,
                                    base,
                                ) && (exists|slot: DateTime|
                                    Cron::entry_scheduled(pre.spec_timeline(), slot, config@[j].0)
                                        && (base.spec_lt(slot) || base.same_instant(slot))));
                        let b0 = choose|b0: DateTime|
                            #[trigger] crate::cronjob::next_fire_ok(
                                pre.spec_timers()[t0].1,
                                now,
                                b0,
                            ) && (exists|slot: DateTime|
                                Cron::entry_scheduled(pre.spec_timeline(), slot, config@[j].0) && (
                                b0.spec_lt(slot) || b0.same_instant(slot)));
                        let s0 = choose|s0: DateTime|
                            Cron::entry_scheduled(pre.spec_timeline(), s0, config@[j].0) && (
                            b0.spec_lt(s0) || b0.same_instant(s0));
                        let a0 = choose|a0: int|
                            0 <= a0 < pre.spec_timeline().len() && (
                            #[trigger] pre.spec_timeline()[a0]).0.same_instant(s0)
                                && pre.spec_timeline()[a0].1 == config@[j].0;
                        assert(result.spec_timeline().contains(pre.spec_timeline()[a0]));
                        let a1 = choose|a1: int|
                            0 <= a1 < result.spec_timeline().len() && result.spec_timeline()[a1]
                                == pre.spec_timeline()[a0];
                        assert(result.spec_timeline()[a1].0.same_instant(s0));
                        assert(Cron::entry_scheduled(result.spec_timeline(), s0, config@[j].0));
                        assert(result.spec_timers()[t0] == pre.spec_timers()[t0]);
                    } else {
                        let slot_new = choose|slot_new: DateTime|
                            Cron::entry_scheduled(result.spec_timeline(), slot_new, id)
                                && !Cron::key_scheduled(pre.spec_timeline(), slot_new) && (
                            next_execution.spec_lt(slot_new) || next_execution.same_instant(
                                slot_new,
                            ));
                        let tn = result.spec_timers().len() - 1;
                        assert(result.spec_timers()[tn].0 == id);
                        assert(crate::cronjob::next_fire_ok(
                            result.spec_timers()[tn].1,
                            now,
                            next_execution,
                        ));
                    }
                }
                assert forall|t: int|
                    0 <= t < k + 1 implies Cron::id_scheduled(
                    result.spec_timeline(),
                    (#[trigger] config@[t]).0,
                ) by {
                    if t < k {
                        let a = choose|a: int|
                            0 <= a < pre.spec_timeline().len() && (
                            #[trigger] pre.spec_timeline()[a]).1 == config@[t].0;
                        assert(result.spec_timeline().contains(pre.spec_timeline()[a]));
                        let b = choose|b: int|
                            0 <= b < result.spec_timeline().len() && result.spec_timeline()[b]
                                == pre.spec_timeline()[a];
                        assert(result.spec_timeline()[b].1 == config@[t].0);
                    } else {
                        let slot = choose|slot: DateTime|
                            Cron::entry_scheduled(result.spec_timeline(), slot, id)
                                && !Cron::key_scheduled(pre.spec_timeline(), slot) && (
                            next_execution.spec_lt(slot) || next_execution.same_instant(slot));
                        let a = choose|a: int|
                            0 <= a < result.spec_timeline().len() && (
                            #[trigger] result.spec_timeline()[a]).0.same_instant(slot)
                                && result.spec_timeline()[a].1 == id;
                        assert(result.spec_timeline()[a].1 == config@[t].0);
                    }
                }
            }
            k += 1;
        }
        Ok(result)
    }

    /// Build a cron scheduler from the configuration, scheduling each
    /// job's first execution from the present local time.
    #[verifier::rlimit(100)]
    #[verifier::spinoff_prover]
    pub fn with_jobs(config: &Vec<(usize, ProcessConfig)>) -> (r: Result<Cron, Error>)
        requires
            config@.len() + 1 < 0x1000_0000,
            forall|k: int|
                0 <= k < config@.len() ==> crate::config::is_cronjob_type(
                    (#[trigger] config@[k]).1.process_type,
                ),
            forall|k1: int, k2: int|
                0 <= k1 < k2 < config@.len() ==> (#[trigger] config@[k1]).0 != (
                #[trigger] config@[k2]).0,
        ensures
            match r {
                Err(e) => e matches Error::TimeParseError(m, id) && exists|k: int|
                    0 <= k < config@.len() && (#[trigger] config@[k]).0 == id && spec_parse_timer(
                        spec_timer_expr(config@[k].1.process_type),
                    ) == Err::<(Set<u32>, Set<u32>, Set<u32>, Set<u32>, Set<u32>), Seq<char>>(m@),
                Ok(c) => {
                    &&& c.wf()
                    &&& c.spec_timeline().len() == config@.len()
                    &&& forall|k: int|
                        0 <= k < config@.len() ==> Cron::id_scheduled(
                            c.spec_timeline(),
                            (#[trigger] config@[k]).0,
                        )
                    &&& forall|k: int|
                        0 <= k < config@.len() ==> spec_parse_timer(
                            spec_timer_expr((#[trigger] config@[k]).1.process_type),
                        ) is Ok
                },
            },
    {
        let now = now_local();
        Cron::with_jobs_at(config, now)
    }
}

impl Cron {
    /// Look up the position of a job's expanded timer.
    fn find_timer(&self, id: usize) -> (r: Option<usize>)
        requires
            self.wf(),
        ensures
            match r {
                Some(t) => t < self.spec_timers().len() && (#[trigger] self.spec_timers()[t as int]).0
                    == id,
                None => !has_timer(self.spec_timers(), id),
            },
    {
        let n = self.timers.len();
        let mut t: usize = 0;
        while t < n
            invariant
                0 <= t <= n,
                n == self.timers@.len(),
                self.wf(),
                forall|b: int| 0 <= b < t ==> (#[trigger] self.timers@[b]).0 != id,
            decreases n - t,
        {
            if self.timers[t].0 == id {
                return Some(t);
            }
            t += 1;
        }
        None
    }

    /// Return a process id whose execution is due at or before `now`.
    ///
    /// The earliest scheduled instant decides; the returned job is taken
    /// off the timeline and rescheduled at its next fire computed from
    /// `now`, nudged off any occupied instant.
    pub fn pop_runnable(&mut self, now: DateTime) -> (r: Option<usize>)
        requires
            old(self).wf(),
            now.valid(),
            now.year + 16 <= YEAR_MAX,
        ensures
            final(self).wf(),
            match r {
                None => *final(self) == *old(self) && (old(self).spec_timeline().len() == 0
                    || now.spec_lt(old(self).spec_timeline()[0].0)),
                Some(id) => {
                    &&& old(self).spec_timeline().len() > 0
                    &&& id == old(self).spec_timeline()[0].1
                    &&& !now.spec_lt(old(self).spec_timeline()[0].0)
                    &&& final(self).spec_timers() == old(self).spec_timers()
                    &&& final(self).spec_timeline().len() == old(self).spec_timeline().len()
                    &&& forall|a: int|
                        1 <= a < old(self).spec_timeline().len()
                            ==> final(self).spec_timeline().contains(
                            #[trigger] old(self).spec_timeline()[a],
                        )
                    &&& exists|t: int|
                        0 <= t < old(self).spec_timers().len() && (
                        #[trigger] old(self).spec_timers()[t]).0 == id && (exists|base: DateTime|
                            #[trigger] crate::cronjob::next_fire_ok(
                                old(self).spec_timers()[t].1,
                                now,
                                base,
                            ) && (!Cron::key_scheduled(
                                old(self).spec_timeline().drop_first(),
                                base,
                            ) ==> Cron::entry_scheduled(final(self).spec_timeline(), base, id)) && (
                            exists|slot: DateTime|
                                Cron::entry_scheduled(final(self).spec_timeline(), slot, id) && (
                                base.spec_lt(slot) || base.same_instant(slot))))
                },
            },
    {
        if self.timeline.len() == 0 {
            return None;
        }
        let (next_exec_time, process_id) = self.timeline[0];
        if !next_exec_time.le(&now) {
            proof {
                crate::datetime::lemma_dt_lt_total(next_exec_time, now);
            }
            return None;
        }
        let tidx = match self.find_timer(process_id) {
            Some(t) => t,
            None => {
                proof {
                    assert(has_timer(self.spec_timers(), self.spec_timeline()[0].1));
                    assert(false);
                }
                return None;
            },
        };
        let next_execution = self.timers[tidx].1.get_next_execution(now);
        let ghost pre = self.timeline@;
        let _ = self.timeline.remove(0);
        proof {
            assert(self.timeline@ =~= pre.drop_first());
            assert forall|a: int, b: int|
                0 <= a < b < self.timeline@.len() implies (#[trigger] self.timeline@[a]).0.spec_lt(
                (#[trigger] self.timeline@[b]).0,
            ) by {
                assert(self.timeline@[a] == pre[a + 1]);
                assert(self.timeline@[b] == pre[b + 1]);
            }
            assert forall|a: int|
                0 <= a < self.timeline@.len() implies has_timer(
                self.timers@,
                (#[trigger] self.timeline@[a]).1,
            ) by {
                assert(self.timeline@[a] == pre[a + 1]);
            }
        }
        let ghost mid = *self;
        self.insert_job(next_execution, process_id);
        proof {
            assert forall|a: int|
                1 <= a < pre.len() implies self.timeline@.contains(#[trigger] pre[a]) by {
                assert(mid.spec_timeline()[a - 1] == pre[a]);
                assert(self.spec_timeline().contains(mid.spec_timeline()[a - 1]));
            }
        }
        Some(process_id)
    }

    /// Get the next scheduled execution instant of a given process id.
    pub fn get_next_execution(&self, id: usize) -> (r: DateTime)
        requires
            self.wf(),
            Cron::id_scheduled(self.spec_timeline(), id),
        ensures
            exists|a: int|
                0 <= a < self.spec_timeline().len() && (#[trigger] self.spec_timeline()[a]) == (
                r,
                id,
            ) && forall|b: int| 0 <= b < a ==> self.spec_timeline()[b].1 != id,
    {
        let n = self.timeline.len();
        let mut a: usize = 0;
        while a < n
            invariant
                0 <= a <= n,
                n == self.timeline@.len(),
                Cron::id_scheduled(self.spec_timeline(), id),
                forall|b: int| 0 <= b < a ==> (#[trigger] self.timeline@[b]).1 != id,
            decreases n - a,
        {
            if self.timeline[a].1 == id {
                proof {
                    assert(self.spec_timeline()[a as int] == (self.spec_timeline()[a as int].0, id));
                }
                return self.timeline[a].0;
            }
            a += 1;
        }
        proof {
            assert(false);
        }
        self.timeline[0].0
    }
}

} // verus!
