use vstd::prelude::*;
use crate::ledger::{
    credit, ledger_sum, lemma_credit_preserves_shape, lemma_ledger_sum_credit,
    lemma_total_of_credit, total_of, unique_keys,
};
use crate::text::{clean_label_spec, lemma_clean_label_nonempty};
use crate::tracker::{
    floor_of, idle_label_spec, initial_state, leaves_idle, lemma_step_preserves_wf, step,
    step_idle, wf_state, State,
};
use crate::IDLE_THRESHOLD_MS;

verus! {

/// One point-in-time observation: the instant it was taken, the focused
/// window title (or none), and the sampled inactivity.
pub ghost struct Sample {
    pub at: int,
    pub focused: Option<Seq<char>>,
    pub idle_ms: u64,
}

/// The state after feeding the samples, in order, into `step`.
pub open spec fn run(s: State, samples: Seq<Sample>) -> State
    decreases samples.len(),
{
    if samples.len() == 0 {
        s
    } else {
        run(
            step(s, samples.first().at, samples.first().focused, samples.first().idle_ms),
            samples.drop_first(),
        )
    }
}

/// The samples come from a monotonic clock: each one is taken no earlier
/// than the floor of the state it is fed into.
pub open spec fn ordered_from(s: State, samples: Seq<Sample>) -> bool
    decreases samples.len(),
{
    samples.len() == 0 || {
        &&& samples.first().at >= floor_of(s)
        &&& ordered_from(
            step(s, samples.first().at, samples.first().focused, samples.first().idle_ms),
            samples.drop_first(),
        )
    }
}

/// No sample crosses the idle threshold.
pub open spec fn never_idle(samples: Seq<Sample>) -> bool {
    forall|i: int| 0 <= i < samples.len() ==> samples[i].idle_ms < IDLE_THRESHOLD_MS
}

/// Every focused title in the samples is nonempty, as the observation
/// source guarantees: a window with no title reports no focus instead.
pub open spec fn focused_titles_nonempty(samples: Seq<Sample>) -> bool {
    forall|i: int| 0 <= i < samples.len() ==> (match #[trigger] samples[i].focused {
        Option::Some(raw) => raw.len() > 0,
        Option::None => true,
    })
}

/// Running a concatenation is running the two halves in turn, and an
/// ordered concatenation is ordered half by half.
pub proof fn lemma_run_append(s: State, a: Seq<Sample>, b: Seq<Sample>)
    ensures
        run(s, a + b) == run(run(s, a), b),
        ordered_from(s, a + b) ==> ordered_from(s, a) && ordered_from(run(s, a), b),
    decreases a.len(),
{
    if a.len() == 0 {
        assert(a + b =~= b);
    } else {
        let s1 = step(s, a.first().at, a.first().focused, a.first().idle_ms);
        assert((a + b).first() == a.first());
        assert((a + b).drop_first() =~= a.drop_first() + b);
        lemma_run_append(s1, a.drop_first(), b);
    }
}

/// While the user stays active and some window holds focus, the ledger sum
/// grows by exactly as much as the crediting clock advances: across every
/// transition, time is neither double-counted nor lost.
pub proof fn lemma_active_run_conserves_time(s: State, samples: Seq<Sample>)
    requires
        wf_state(s),
        !s.idle,
        s.current.len() > 0,
        never_idle(samples),
        focused_titles_nonempty(samples),
        ordered_from(s, samples),
    ensures
        ledger_sum(run(s, samples).ledger) - ledger_sum(s.ledger) == run(s, samples).last_switch
            - s.last_switch,
        !run(s, samples).idle,
        run(s, samples).current.len() > 0,
        wf_state(run(s, samples)),
    decreases samples.len(),
{
    if samples.len() == 0 {
    } else {
        let x = samples.first();
        let s1 = step(s, x.at, x.focused, x.idle_ms);
        assert(x.idle_ms < IDLE_THRESHOLD_MS);
        assert(step_idle(s, x.at, x.idle_ms) == s);
        match x.focused {
            Option::Some(raw) => {
                lemma_clean_label_nonempty(raw);
                let w = clean_label_spec(raw);
                if w == s.current {
                } else {
                    lemma_ledger_sum_credit(s.ledger, s.current, x.at - s.last_switch);
                }
            },
            Option::None => {},
        }
        lemma_step_preserves_wf(s, x.at, x.focused, x.idle_ms);
        assert(never_idle(samples.drop_first())) by {
            assert(forall|i: int|
                0 <= i < samples.drop_first().len() ==> samples.drop_first()[i] == samples[i + 1]);
        }
        assert(focused_titles_nonempty(samples.drop_first())) by {
            assert(forall|i: int|
                0 <= i < samples.drop_first().len() ==> samples.drop_first()[i] == samples[i + 1]);
        }
        lemma_active_run_conserves_time(s1, samples.drop_first());
    }
}

/// The instant of the first focused sample; the start instant when no
/// sample carries a focused window.
pub open spec fn first_focus_at(t0: int, samples: Seq<Sample>) -> int
    decreases samples.len(),
{
    if samples.len() == 0 {
        t0
    } else {
        match samples.first().focused {
            Option::Some(raw) => samples.first().at,
            Option::None => first_focus_at(t0, samples.drop_first()),
        }
    }
}

/// Fed a stream with no idle crossing, a fresh tracker's ledger sums to
/// exactly the wall-clock time from the first sample that produced a
/// transition to the last one, which the switch-reference timestamp marks;
/// only the final open interval is not yet credited.
pub proof fn lemma_no_idle_total_accounting(t0: int, samples: Seq<Sample>)
    requires
        t0 >= 0,
        never_idle(samples),
        focused_titles_nonempty(samples),
        ordered_from(initial_state(t0), samples),
    ensures
        ledger_sum(run(initial_state(t0), samples).ledger) == run(initial_state(t0), samples).last_switch
            - first_focus_at(t0, samples),
    decreases samples.len(),
{
    let s = initial_state(t0);
    if samples.len() == 0 {
    } else {
        let x = samples.first();
        let s1 = step(s, x.at, x.focused, x.idle_ms);
        assert(step_idle(s, x.at, x.idle_ms) == s);
        assert(never_idle(samples.drop_first()) && focused_titles_nonempty(samples.drop_first()))
            by {
            assert(forall|i: int|
                0 <= i < samples.drop_first().len() ==> samples.drop_first()[i] == samples[i + 1]);
        }
        match x.focused {
            Option::Some(raw) => {
                lemma_clean_label_nonempty(raw);
                let w = clean_label_spec(raw);
                assert(w.len() > 0);
                assert(s1 == State { current: w, last_switch: x.at, ..s });
                lemma_step_preserves_wf(s, x.at, x.focused, x.idle_ms);
                lemma_active_run_conserves_time(s1, samples.drop_first());
            },
            Option::None => {
                assert(s1 == s);
                lemma_no_idle_total_accounting(t0, samples.drop_first());
            },
        }
    }
}

/// True when the sample leaves the current window alone: it reports no
/// focus, or a title that cleans to the current label.
pub open spec fn keeps_focus(x: Sample, current: Seq<char>) -> bool {
    match x.focused {
        Option::Some(raw) => clean_label_spec(raw) == current,
        Option::None => true,
    }
}

/// While idle, samples that stay above the threshold and keep the focus
/// change nothing at all.
pub proof fn lemma_idle_run_stalls(s: State, samples: Seq<Sample>)
    requires
        s.idle,
        forall|i: int| 0 <= i < samples.len() ==> samples[i].idle_ms >= IDLE_THRESHOLD_MS,
        forall|i: int| 0 <= i < samples.len() ==> keeps_focus(samples[i], s.current),
    ensures
        run(s, samples) == s,
    decreases samples.len(),
{
    if samples.len() == 0 {
    } else {
        let x = samples.first();
        assert(keeps_focus(x, s.current));
        assert(step(s, x.at, x.focused, x.idle_ms) == s);
        assert(forall|i: int|
            0 <= i < samples.drop_first().len() ==> samples.drop_first()[i] == samples[i + 1]);
        lemma_idle_run_stalls(s, samples.drop_first());
    }
}

/// An idle spell with no window change — one sample crosses the threshold,
/// any number stay above it, one crosses back — credits the idle bucket
/// with exactly the time between the two crossings, and credits no other
/// bucket anything.
pub proof fn lemma_idle_spell_credits_idle_only(
    s: State,
    entry: Sample,
    middle: Seq<Sample>,
    exit: Sample,
)
    requires
        wf_state(s),
        !s.idle,
        entry.idle_ms >= IDLE_THRESHOLD_MS,
        forall|i: int| 0 <= i < middle.len() ==> middle[i].idle_ms >= IDLE_THRESHOLD_MS,
        exit.idle_ms < IDLE_THRESHOLD_MS,
        keeps_focus(entry, s.current),
        forall|i: int| 0 <= i < middle.len() ==> keeps_focus(middle[i], s.current),
        keeps_focus(exit, s.current),
        ordered_from(s, seq![entry] + middle + seq![exit]),
    ensures
        total_of(run(s, seq![entry] + middle + seq![exit]).ledger, idle_label_spec()) == total_of(
            s.ledger,
            idle_label_spec(),
        ) + (exit.at - entry.at),
        forall|k: Seq<char>|
            k != idle_label_spec() ==> total_of(
                run(s, seq![entry] + middle + seq![exit]).ledger,
                k,
            ) == total_of(s.ledger, k),
        !run(s, seq![entry] + middle + seq![exit]).idle,
        run(s, seq![entry] + middle + seq![exit]).last_switch == exit.at,
        run(s, seq![entry] + middle + seq![exit]).current == s.current,
{
    let ss = seq![entry] + middle + seq![exit];
    let s1 = step(s, entry.at, entry.focused, entry.idle_ms);
    assert(ss.first() == entry);
    assert(ss.drop_first() =~= middle + seq![exit]);
    assert(s1 == State { idle: true, idle_start: entry.at, ..s });
    assert(run(s, ss) == run(s1, middle + seq![exit]));
    assert(ordered_from(s1, middle + seq![exit]));
    lemma_run_append(s1, middle, seq![exit]);
    lemma_idle_run_stalls(s1, middle);
    let s2 = run(s1, middle + seq![exit]);
    assert(s2 == run(s1, seq![exit]));
    assert(seq![exit].first() == exit);
    assert(seq![exit].drop_first() =~= Seq::<Sample>::empty());
    assert(ordered_from(s1, seq![exit]));
    assert(exit.at >= floor_of(s1));
    assert(run(step(s1, exit.at, exit.focused, exit.idle_ms), Seq::<Sample>::empty()) == step(
        s1,
        exit.at,
        exit.focused,
        exit.idle_ms,
    ));
    assert(s2 == step(s1, exit.at, exit.focused, exit.idle_ms));
    assert(leaves_idle(s1, exit.idle_ms));
    let credited = credit(s.ledger, idle_label_spec(), exit.at - entry.at);
    assert(s2.ledger == credited);
    assert forall|k: Seq<char>| true implies total_of(credited, k) == total_of(s.ledger, k) + (
    if k == idle_label_spec() && exit.at - entry.at > 0 {
        exit.at - entry.at
    } else {
        0
    }) by {
        lemma_total_of_credit(s.ledger, idle_label_spec(), exit.at - entry.at, k);
    }
}

/// Switching focus from window A to another window B and back without
/// crossing idle credits B with exactly the time it held focus, and adds
/// the preceding A interval to A's bucket under its existing key; no other
/// bucket changes.
pub proof fn lemma_switch_away_and_back(
    s: State,
    t1: int,
    raw_b: Seq<char>,
    idle1: u64,
    t2: int,
    raw_a: Seq<char>,
    idle2: u64,
)
    requires
        wf_state(s),
        !s.idle,
        s.current.len() > 0,
        clean_label_spec(raw_b) != s.current,
        raw_b.len() > 0,
        clean_label_spec(raw_a) == s.current,
        idle1 < IDLE_THRESHOLD_MS,
        idle2 < IDLE_THRESHOLD_MS,
        t1 >= s.last_switch,
        t2 >= t1,
    ensures
        total_of(
            step(
                step(s, t1, Option::Some(raw_b), idle1),
                t2,
                Option::Some(raw_a),
                idle2,
            ).ledger,
            clean_label_spec(raw_b),
        ) == total_of(s.ledger, clean_label_spec(raw_b)) + (t2 - t1),
        total_of(
            step(
                step(s, t1, Option::Some(raw_b), idle1),
                t2,
                Option::Some(raw_a),
                idle2,
            ).ledger,
            s.current,
        ) == total_of(s.ledger, s.current) + (t1 - s.last_switch),
        forall|k: Seq<char>|
            k != s.current && k != clean_label_spec(raw_b) ==> total_of(
                step(
                    step(s, t1, Option::Some(raw_b), idle1),
                    t2,
                    Option::Some(raw_a),
                    idle2,
                ).ledger,
                k,
            ) == total_of(s.ledger, k),
        step(step(s, t1, Option::Some(raw_b), idle1), t2, Option::Some(raw_a), idle2).current
            == s.current,
        step(step(s, t1, Option::Some(raw_b), idle1), t2, Option::Some(raw_a), idle2).last_switch
            == t2,
{
    lemma_clean_label_nonempty(raw_b);
    let a = s.current;
    let b = clean_label_spec(raw_b);
    let s1 = step(s, t1, Option::Some(raw_b), idle1);
    assert(step_idle(s, t1, idle1) == s);
    let l1 = credit(s.ledger, a, t1 - s.last_switch);
    assert(s1 == State { ledger: l1, current: b, last_switch: t1, ..s });
    let s2 = step(s1, t2, Option::Some(raw_a), idle2);
    assert(step_idle(s1, t2, idle2) == s1);
    let l2 = credit(l1, b, t2 - t1);
    assert(s2 == State { ledger: l2, current: a, last_switch: t2, ..s1 });
    lemma_credit_preserves_shape(s.ledger, a, t1 - s.last_switch);
    assert forall|k: Seq<char>| true implies total_of(l1, k) == total_of(s.ledger, k) + (if k == a
        && t1 - s.last_switch > 0 {
        t1 - s.last_switch
    } else {
        0
    }) by {
        lemma_total_of_credit(s.ledger, a, t1 - s.last_switch, k);
    }
    assert forall|k: Seq<char>| true implies total_of(l2, k) == total_of(l1, k) + (if k == b && t2
        - t1 > 0 {
        t2 - t1
    } else {
        0
    }) by {
        lemma_total_of_credit(l1, b, t2 - t1, k);
    }
}

} // verus!
