use vstd::prelude::*;
use crate::ledger::{
    credit, credit_entries, find_bucket, has_bucket, ledger_sum, ledger_view,
    lemma_credit_preserves_shape, lemma_find_bucket_at, lemma_find_bucket_props,
    lemma_ledger_sum_credit, lemma_ledger_sum_nonneg, positive_totals, total_of, unique_keys,
    Entry, LedgerModel,
};
use crate::text::{
    clean_label, clean_label_spec, final_component, has_separator, is_separator,
    lemma_final_component_separator_free, lemma_suffix_after_last_separator,
    suffix_after_last_separator,
};
use crate::IDLE_THRESHOLD_MS;
use vstd::string::StrSliceExecFns;

verus! {

/// The abstract state of the accumulator: the ledger, the label of the
/// window now holding focus (empty while none was seen yet), the reference
/// timestamp from which the next credit is measured, and the idle flag
/// with the timestamp at which idleness began.
#[verifier::ext_equal]
pub ghost struct State {
    pub ledger: LedgerModel,
    pub current: Seq<char>,
    pub last_switch: int,
    pub idle: bool,
    pub idle_start: int,
}

/// The state of a tracker that has just started, before any sample.
pub open spec fn initial_state(t0: int) -> State {
    State {
        ledger: Seq::empty(),
        current: Seq::empty(),
        last_switch: t0,
        idle: false,
        idle_start: t0,
    }
}

/// The label of the synthetic idle bucket.  It contains a path separator,
/// which no cleaned window title can, so it never collides with a window
/// bucket.
pub open spec fn idle_label_spec() -> Seq<char> {
    seq!['[', '/', 'i', 'd', 'l', 'e', ']']
}

/// The label under which idle time is credited.
pub fn idle_label() -> (r: String)
    ensures
        r@ == idle_label_spec(),
{
    let s = "[/idle]";
    proof {
        reveal_strlit("[/idle]");
        assert(s@ =~= idle_label_spec());
    }
    s.to_owned()
}

/// No window title can produce the idle label: a final path component
/// never contains a separator while the idle label does, and the idle
/// label is not its own cleaned form either.
pub proof fn lemma_idle_label_reserved(s: Seq<char>)
    ensures
        clean_label_spec(s) != idle_label_spec(),
{
    let idle = idle_label_spec();
    assert(is_separator(idle[1]));
    assert(has_separator(idle));
    if clean_label_spec(s) == idle {
        if !has_separator(s) || final_component(s).len() == 0 {
            // the label would be the title itself, so the title is the
            // idle label; but that title's own final component is `idle]`
            assert(s == idle);
            assert(!is_separator(s.last()));
            assert(forall|k: int| 1 < k < s.len() ==> !is_separator(s[k]));
            lemma_suffix_after_last_separator(s, 1);
            let c = suffix_after_last_separator(s);
            assert(c =~= s.subrange(2, 7));
            assert(c.len() == 5);
            assert(final_component(s) == c);
            assert(false);
        } else {
            lemma_final_component_separator_free(s);
            assert(!has_separator(clean_label_spec(s)));
            assert(false);
        }
    }
}

/// True when this sample makes an active user idle.
pub open spec fn enters_idle(s: State, idle_ms: u64) -> bool {
    idle_ms >= IDLE_THRESHOLD_MS && !s.idle
}

/// True when this sample wakes an idle user.
pub open spec fn leaves_idle(s: State, idle_ms: u64) -> bool {
    idle_ms < IDLE_THRESHOLD_MS && s.idle
}

/// The idle half of a sample.  Crossing the threshold upward only records
/// when idleness began; crossing it downward credits the whole idle spell
/// to the idle bucket and restarts the crediting clock.
pub open spec fn step_idle(s: State, now: int, idle_ms: u64) -> State {
    if enters_idle(s, idle_ms) {
        State { idle: true, idle_start: now, ..s }
    } else if leaves_idle(s, idle_ms) {
        State {
            ledger: credit(s.ledger, idle_label_spec(), now - s.idle_start),
            last_switch: now,
            idle: false,
            ..s
        }
    } else {
        s
    }
}

/// The focus half of a sample.  A new focused window credits the open
/// interval to the window it replaces — unless the user is idle, or no
/// window had been seen yet — and becomes the current one.
pub open spec fn step_focus(s: State, now: int, focused: Option<Seq<char>>) -> State {
    match focused {
        Option::Some(raw) => {
            let w = clean_label_spec(raw);
            if w == s.current {
                s
            } else if s.idle {
                State { current: w, ..s }
            } else {
                State {
                    ledger: if s.current.len() > 0 {
                        credit(s.ledger, s.current, now - s.last_switch)
                    } else {
                        s.ledger
                    },
                    current: w,
                    last_switch: now,
                    ..s
                }
            }
        },
        Option::None => s,
    }
}

/// One full sample: the idle transition is resolved first, then the focus
/// transition, both at the same instant.
pub open spec fn step(s: State, now: int, focused: Option<Seq<char>>, idle_ms: u64) -> State {
    step_focus(step_idle(s, now, idle_ms), now, focused)
}

/// A well-formed state: the ledger's labels are unique, its credits are
/// positive and sum to no more than the crediting clock, and while idle the
/// idle spell began no earlier than that clock.
pub open spec fn wf_state(s: State) -> bool {
    &&& 0 <= s.last_switch
    &&& ledger_sum(s.ledger) <= s.last_switch
    &&& unique_keys(s.ledger)
    &&& positive_totals(s.ledger)
    &&& s.idle ==> s.idle_start >= s.last_switch
}

/// The earliest timestamp the next sample may carry: time never runs
/// backwards past the last recorded instant.
pub open spec fn floor_of(s: State) -> int {
    if s.idle {
        s.idle_start
    } else {
        s.last_switch
    }
}

/// A sample taken at or after the state's floor keeps the state well
/// formed, and leaves the floor at or below the sample's instant.
pub proof fn lemma_step_preserves_wf(s: State, now: int, focused: Option<Seq<char>>, idle_ms: u64)
    requires
        wf_state(s),
        now >= floor_of(s),
    ensures
        wf_state(step(s, now, focused, idle_ms)),
        floor_of(step(s, now, focused, idle_ms)) <= now,
        step(s, now, focused, idle_ms).last_switch <= now || step(s, now, focused, idle_ms).last_switch == s.last_switch,
{
    let mid = step_idle(s, now, idle_ms);
    lemma_ledger_sum_credit(s.ledger, idle_label_spec(), now - s.idle_start);
    lemma_credit_preserves_shape(s.ledger, idle_label_spec(), now - s.idle_start);
    assert(wf_state(mid) && floor_of(mid) <= now);
    lemma_ledger_sum_credit(mid.ledger, mid.current, now - mid.last_switch);
    lemma_credit_preserves_shape(mid.ledger, mid.current, now - mid.last_switch);
}

/// What one sample reports for the console: whether the user just went
/// idle, the length of an idle spell that just ended, and the label newly
/// in focus when a window transition was credited.
pub struct TickReport {
    pub went_idle: bool,
    pub idle_credited_ms: Option<u64>,
    pub switched_to: Option<String>,
}

/// True when the focus half of a sample reports a credited transition: a
/// new window is focused, the user is not idle, and a previous window had
/// been seen.
pub open spec fn reports_switch(mid: State, focused: Option<Seq<char>>) -> bool {
    match focused {
        Option::Some(raw) => !mid.idle && clean_label_spec(raw) != mid.current
            && mid.current.len() > 0,
        Option::None => false,
    }
}

/// The accumulator: feeds on focus and idle samples, credits elapsed time
/// to per-window buckets and to the idle bucket, and hands the ledger out
/// for the final report.
pub struct Tracker {
    entries: Vec<Entry>,
    current: String,
    last_switch_ms: u64,
    idle: bool,
    idle_start_ms: u64,
}

impl View for Tracker {
    type V = State;

    closed spec fn view(&self) -> State {
        State {
            ledger: ledger_view(self.entries@),
            current: self.current@,
            last_switch: self.last_switch_ms as int,
            idle: self.idle,
            idle_start: self.idle_start_ms as int,
        }
    }
}

impl Tracker {
    /// A well-formed tracker.
    pub open spec fn wf(&self) -> bool {
        wf_state(self@)
    }

    /// A fresh tracker, started at the given instant: an empty ledger, no
    /// current window, not idle.
    pub fn new(start_ms: u64) -> (t: Tracker)
        ensures
            t@ == initial_state(start_ms as int),
            t.wf(),
    {
        let t = Tracker {
            entries: Vec::new(),
            current: String::new(),
            last_switch_ms: start_ms,
            idle: false,
            idle_start_ms: start_ms,
        };
        proof {
            assert(t@ =~= initial_state(start_ms as int));
        }
        t
    }

    /// The earliest instant the next sample may carry.
    pub fn clock_floor(&self) -> (r: u64)
        ensures
            r as int == floor_of(self@),
    {
        if self.idle {
            self.idle_start_ms
        } else {
            self.last_switch_ms
        }
    }

    /// Whether the user is idle.
    pub fn is_idle(&self) -> (r: bool)
        ensures
            r == self@.idle,
    {
        self.idle
    }

    /// The cleaned label of the window now holding focus; empty while no
    /// window was seen yet.
    pub fn current_label(&self) -> (r: &str)
        ensures
            r@ == self@.current,
    {
        self.current.as_str()
    }

    /// The milliseconds credited so far to the given label.
    #[verifier::loop_isolation(false)]
    pub fn total_for(&self, label: &str) -> (r: u64)
        ensures
            r as int == total_of(self@.ledger, label@),
    {
        let key = label.to_owned();
        let ghost l = ledger_view(self.entries@);
        let n = self.entries.len();
        let mut i: usize = 0;
        while i < n
            invariant
                0 <= i <= n,
                forall|j: int| 0 <= j < i ==> l[j].0 != label@,
            decreases n - i,
        {
            if self.entries[i].label == key {
                proof {
                    lemma_find_bucket_at(l, label@, i as int);
                }
                return self.entries[i].total_ms;
            }
            i += 1;
        }
        proof {
            lemma_find_bucket_props(l, label@);
            if has_bucket(l, label@) {
                assert(l[find_bucket(l, label@)].0 == label@);
                assert(false);
            }
        }
        0
    }

    /// The number of buckets in the ledger.
    pub fn bucket_count(&self) -> (r: usize)
        ensures
            r == self@.ledger.len(),
    {
        self.entries.len()
    }

    /// A snapshot of the ledger for the final report: the same entries,
    /// sorted by credited time, longest first.  The interval still open at
    /// this moment is not yet credited and does not appear.
    #[verifier::loop_isolation(false)]
    pub fn report(&self) -> (r: Vec<Entry>)
        ensures
            ledger_view(r@).to_multiset() == self@.ledger.to_multiset(),
            forall|i: int, j: int| 0 <= i < j < r@.len() ==> r@[i]@.1 >= r@[j]@.1,
    {
        broadcast use vstd::seq_lib::group_to_multiset_ensures;

        let ghost l = ledger_view(self.entries@);
        let mut rest: Vec<Entry> = Vec::new();
        let n = self.entries.len();
        let mut k: usize = 0;
        while k < n
            invariant
                0 <= k <= n,
                ledger_view(rest@) == l.subrange(0, k as int),
            decreases n - k,
        {
            let label = self.entries[k].label.clone();
            let total_ms = self.entries[k].total_ms;
            rest.push(Entry { label, total_ms });
            proof {
                assert(ledger_view(rest@) =~= l.subrange(0, k + 1));
            }
            k += 1;
        }
        proof {
            assert(l.subrange(0, n as int) =~= l);
        }
        let mut out: Vec<Entry> = Vec::new();
        while rest.len() > 0
            invariant
                ledger_view(out@).to_multiset().add(ledger_view(rest@).to_multiset())
                    == l.to_multiset(),
                forall|i: int, j: int| 0 <= i < j < out@.len() ==> out@[i]@.1 >= out@[j]@.1,
                forall|i: int, j: int|
                    0 <= i < out@.len() && 0 <= j < rest@.len() ==> out@[i]@.1 >= rest@[j]@.1,
            decreases rest@.len(),
        {
            let ghost r0 = ledger_view(rest@);
            let m = rest.len();
            let mut im: usize = 0;
            let mut j: usize = 1;
            while j < m
                invariant
                    m == rest@.len(),
                    0 <= im < m,
                    1 <= j <= m,
                    forall|q: int| 0 <= q < j ==> rest@[q]@.1 <= rest@[im as int]@.1,
                decreases m - j,
            {
                if rest[j].total_ms > rest[im].total_ms {
                    im = j;
                }
                j += 1;
            }
            let e = rest.remove(im);
            proof {
                assert(r0[im as int] == e@);
                assert(ledger_view(rest@) =~= r0.remove(im as int));
                assert(r0.contains(e@));
                assert(ledger_view(out@.push(e)) =~= ledger_view(out@).push(e@));
                assert(ledger_view(out@).push(e@).to_multiset() =~= ledger_view(
                    out@,
                ).to_multiset().insert(e@));
                assert(ledger_view(out@).to_multiset().insert(e@).add(
                    r0.remove(im as int).to_multiset(),
                ) =~= ledger_view(out@).to_multiset().add(r0.to_multiset()));
                assert(forall|q: int|
                    0 <= q < rest@.len() ==> rest@[q]@ == r0[q] || rest@[q]@ == r0[q + 1]);
            }
            out.push(e);
        }
        proof {
            assert(ledger_view(rest@) =~= Seq::<(Seq<char>, int)>::empty());
            assert(ledger_view(out@).to_multiset().add(
                Seq::<(Seq<char>, int)>::empty().to_multiset(),
            ) =~= ledger_view(out@).to_multiset());
        }
        out
    }

    /// Feeds one sample into the accumulator: the window now focused (or
    /// none) and how long the user has been inactive, both observed at the
    /// instant `now_ms` of a monotonic clock.  The state advances exactly
    /// as `step` says, and the returned report describes what this sample
    /// credited.
    pub fn sample(&mut self, now_ms: u64, focused: Option<&str>, idle_ms: u64) -> (r: TickReport)
        requires
            old(self).wf(),
            now_ms as int >= floor_of(old(self)@),
        ensures
            final(self).wf(),
            final(self)@ == step(old(self)@, now_ms as int, focused_spec(focused), idle_ms),
            r.went_idle == enters_idle(old(self)@, idle_ms),
            r.idle_credited_ms == (if leaves_idle(old(self)@, idle_ms) {
                Option::Some((now_ms as int - old(self)@.idle_start) as u64)
            } else {
                Option::<u64>::None
            }),
            (match (r.switched_to, focused) {
                (Option::Some(l), Option::Some(t)) => reports_switch(
                    step_idle(old(self)@, now_ms as int, idle_ms),
                    focused_spec(focused),
                ) && l@ == clean_label_spec(t@),
                (Option::None, _) => !reports_switch(
                    step_idle(old(self)@, now_ms as int, idle_ms),
                    focused_spec(focused),
                ),
                _ => false,
            }),
    {
        let ghost pre = self@;
        let ghost mid = step_idle(pre, now_ms as int, idle_ms);
        let mut report = TickReport { went_idle: false, idle_credited_ms: None, switched_to: None };

        if idle_ms >= IDLE_THRESHOLD_MS && !self.idle {
            self.idle = true;
            self.idle_start_ms = now_ms;
            report.went_idle = true;
        } else if idle_ms < IDLE_THRESHOLD_MS && self.idle {
            let idle_time = now_ms - self.idle_start_ms;
            proof {
                assert(positive_totals(pre.ledger));
                lemma_ledger_sum_nonneg(pre.ledger);
            }
            credit_entries(&mut self.entries, idle_label(), idle_time);
            self.idle = false;
            self.last_switch_ms = now_ms;
            report.idle_credited_ms = Some(idle_time);
        }
        proof {
            assert(self@ =~= mid);
            lemma_step_preserves_wf(pre, now_ms as int, Option::None, idle_ms);
            assert(wf_state(mid));
        }

        if let Some(title) = focused {
            let w = clean_label(title);
            if !(w == self.current) {
                if !self.idle {
                    if !self.current.as_str().is_empty() {
                        let elapsed = now_ms - self.last_switch_ms;
                        let prev = self.current.clone();
                        proof {
                            lemma_ledger_sum_nonneg(mid.ledger);
                        }
                        credit_entries(&mut self.entries, prev, elapsed);
                        report.switched_to = Some(w.clone());
                    }
                    self.last_switch_ms = now_ms;
                }
                self.current = w;
            }
        }
        proof {
            assert(self@ =~= step(pre, now_ms as int, focused_spec(focused), idle_ms));
            lemma_step_preserves_wf(pre, now_ms as int, focused_spec(focused), idle_ms);
        }
        report
    }
}

/// The abstract view of the optional title handed to `sample`.
pub open spec fn focused_spec(focused: Option<&str>) -> Option<Seq<char>> {
    match focused {
        Option::Some(t) => Option::Some(t@),
        Option::None => Option::None,
    }
}

} // verus!
