//! Visits: what was asked for in one go, told as a path through categories of pages.

use crate::keyed::{
    count_of, count_sum, distinct, filed, has_key, is_at, item_count, law_filed_count,
    law_tallied, law_tallied_onto, law_tallies_agree, lemma_count_seen, lemma_distinct_entries,
    lemma_filed_seen, lemma_spot, lemma_tallied_positive, lemma_tallied_split, lemma_times,
    lemma_times_concat, lists_seen, spot, tallied, tallied_onto, times, Counts, Groups,
};
use crate::order::{
    in_order, law_order_unique, law_sorted_in_order, law_sorted_keeps_values, law_sorted_stable,
    law_sorted_texts_unique, lemma_same_values, lemma_sorted_map, lemma_sum_permuted, preorder,
    rank, sort, sorted, text_order, Ranked,
};
use crate::text::{append, is_empty, join, joined, texts};
use crate::transitions::{steps, Step, TransitionTable};
use vstd::prelude::*;
use vstd::seq_lib::lemma_multiset_commutative;

verus! {

// ---------------------------------------------------------------------------
// Events
// ---------------------------------------------------------------------------

/// A page that was asked for, and when, in milliseconds since the start of 1970 in UTC.
pub struct WebEvent {
    pub url_path: String,
    pub created_at: i64,
}

/// The path and time of an event.
pub type Event = (Seq<char>, i64);

impl View for WebEvent {
    type V = Event;

    open spec fn view(&self) -> Event {
        (self.url_path@, self.created_at)
    }
}

/// What an event says.
pub open spec fn event_side() -> spec_fn(WebEvent) -> Event {
    |e: WebEvent| e@
}

/// What the events of a list say.
pub open spec fn event_views(s: Seq<WebEvent>) -> Seq<Event> {
    s.map_values(event_side())
}

/// What the events of all visits say.
pub open spec fn visit_views(s: Seq<(Seq<char>, Seq<WebEvent>)>) -> Seq<(Seq<char>, Seq<Event>)> {
    lists_seen(s, event_side())
}

/// Earlier events come first.
pub open spec fn time_order() -> spec_fn(Event, Event) -> bool {
    |a: Event, b: Event| a.1 <= b.1
}

/// Events in the order of their times; events at the same time keep their order.
pub open spec fn timeline(s: Seq<Event>) -> Seq<Event> {
    sorted(s, time_order())
}

impl Ranked for WebEvent {
    open spec fn le(self, other: WebEvent) -> bool {
        self.created_at <= other.created_at
    }

    proof fn le_total(a: WebEvent, b: WebEvent) {
    }

    proof fn le_transitive(a: WebEvent, b: WebEvent, c: WebEvent) {
    }

    fn is_le(&self, other: &WebEvent) -> (r: bool) {
        self.created_at <= other.created_at
    }
}

/// The events in the order of their times.
pub fn in_time_order(events: &Vec<WebEvent>) -> (r: Vec<WebEvent>)
    ensures
        event_views(r@) == timeline(event_views(events@)),
        r@.len() == events@.len(),
{
    let mut list: Vec<WebEvent> = Vec::new();
    let mut i: usize = 0;
    while i < events.len()
        invariant
            i <= events@.len(),
            event_views(list@) == event_views(events@).take(i as int),
        decreases events@.len() - i,
    {
        let ghost list0 = list@;
        list.push(
            WebEvent { url_path: events[i].url_path.clone(), created_at: events[i].created_at },
        );
        assert(event_views(list@) == event_views(list0).push(events@[i as int]@));
        assert(event_views(events@).take(i + 1) == event_views(events@).take(i as int).push(
            event_views(events@)[i as int],
        ));
        i += 1;
    }
    assert(event_views(events@).take(i as int) == event_views(events@));
    let ghost unsorted = list@;
    let r = sort(list);
    proof {
        lemma_sorted_map(unsorted, rank::<WebEvent>(), event_side(), time_order());
        law_sorted_keeps_values(event_views(unsorted), time_order());
        assert(event_views(r@).len() == timeline(event_views(events@)).len());
        lemma_timeline(event_views(events@));
    }
    r
}

/// A timeline has all events, each not before the one ahead of it.
pub proof fn lemma_timeline(s: Seq<Event>)
    ensures
        timeline(s).len() == s.len(),
        in_order(timeline(s), time_order()),
{
    assert(preorder(time_order()));
    law_sorted_in_order(s, time_order());
    law_sorted_keeps_values(s, time_order());
    timeline(s).to_multiset_ensures();
    s.to_multiset_ensures();
}

/// The times between one event and the next, in milliseconds.
pub open spec fn gaps(s: Seq<Event>) -> Seq<u64> {
    if s.len() == 0 {
        Seq::empty()
    } else {
        Seq::new((s.len() - 1) as nat, |i: int| (s[i + 1].1 - s[i].1) as u64)
    }
}

/// The times between one event and the next, in milliseconds.
pub fn dwell_times(events: &Vec<WebEvent>) -> (r: Vec<u64>)
    requires
        in_order(event_views(events@), time_order()),
    ensures
        r@ == gaps(event_views(events@)),
{
    let ghost s = event_views(events@);
    let mut r: Vec<u64> = Vec::new();
    let mut i: usize = 1;
    while i < events.len()
        invariant
            1 <= i,
            s == event_views(events@),
            s.len() == events@.len(),
            s.len() >= 1 ==> i <= s.len(),
            s.len() == 0 ==> i == 1,
            in_order(s, time_order()),
            r@ == gaps(s).take(i - 1),
        decreases events@.len() - i,
    {
        let d = events[i].created_at as i128 - events[i - 1].created_at as i128;
        proof {
            let le = time_order();
            assert(s[i - 1].1 == events@[i - 1].created_at);
            assert(s[i as int].1 == events@[i as int].created_at);
            assert(le(s[i - 1], s[i as int]));
            assert(gaps(s)[i - 1] == d as u64);
            assert(gaps(s).take(i as int) == gaps(s).take(i - 1).push(gaps(s)[i - 1]));
        }
        r.push(d as u64);
        i += 1;
    }
    assert(gaps(s).take(i - 1) == gaps(s));
    r
}

// ---------------------------------------------------------------------------
// Log
// ---------------------------------------------------------------------------

/// The events of all visits.
pub struct VisitLog {
    lists: Groups<WebEvent>,
    count: usize,
}

impl VisitLog {
    /// The events are counted.
    pub closed spec fn wf(self) -> bool {
        self.lists.wf() && self.count == item_count(self.lists.lists())
    }

    /// The visits with their events, in the order in which the visits began to come.
    pub closed spec fn visits(self) -> Seq<(Seq<char>, Seq<Event>)> {
        visit_views(self.lists.lists())
    }

    /// No visit comes twice.
    pub proof fn lemma_distinct(self)
        requires
            self.wf(),
        ensures
            distinct(self.visits()),
    {
        self.lists.lemma_distinct();
        let s = self.lists.lists();
        let v = self.visits();
        assert forall|i: int, j: int| 0 <= i < j < v.len() implies (#[trigger] v[i]).0 != (
        #[trigger] v[j]).0 by {
            assert(s[i].0 != s[j].0);
        }
    }

    /// All events together can be counted in a machine word.
    pub proof fn lemma_countable(self)
        requires
            self.wf(),
        ensures
            item_count(self.visits()) <= usize::MAX,
    {
        lemma_count_seen(self.lists.lists(), event_side());
    }

    /// A log without visits.
    pub fn new() -> (r: VisitLog)
        ensures
            r.wf(),
            r.visits() == Seq::<(Seq<char>, Seq<Event>)>::empty(),
    {
        let r = VisitLog { lists: Groups::new(), count: 0 };
        assert(r.visits() == Seq::<(Seq<char>, Seq<Event>)>::empty());
        r
    }

    /// The number of visits.
    pub fn len(&self) -> (r: usize)
        ensures
            r == self.visits().len(),
    {
        self.lists.len()
    }

    /// The number of events.
    pub fn event_count(&self) -> (r: usize)
        requires
            self.wf(),
        ensures
            r == item_count(self.visits()),
    {
        proof {
            lemma_count_seen(self.lists.lists(), event_side());
        }
        self.count
    }

    /// The visit at a position.
    pub fn visit_id(&self, i: usize) -> (r: &String)
        requires
            self.wf(),
            i < self.visits().len(),
        ensures
            r@ == self.visits()[i as int].0,
    {
        self.lists.key(i)
    }

    /// The events of the visit at a position.
    pub fn events(&self, i: usize) -> (r: &Vec<WebEvent>)
        requires
            self.wf(),
            i < self.visits().len(),
        ensures
            event_views(r@) == self.visits()[i as int].1,
    {
        self.lists.list(i)
    }

    /// Adds an event to a visit. All events together must be countable in a machine word.
    pub fn file(&mut self, visit_id: &str, event: WebEvent)
        requires
            old(self).wf(),
            item_count(old(self).visits()) < usize::MAX,
        ensures
            final(self).wf(),
            final(self).visits() == filed(old(self).visits(), visit_id@, event@),
    {
        proof {
            self.lists.lemma_distinct();
            lemma_count_seen(self.lists.lists(), event_side());
            law_filed_count(self.lists.lists(), visit_id@, event);
            lemma_filed_seen(self.lists.lists(), visit_id@, event, event_side());
        }
        self.lists.file(visit_id, event);
        self.count = self.count + 1;
    }
}

// ---------------------------------------------------------------------------
// Traces
// ---------------------------------------------------------------------------

/// A way to put paths into categories.
pub trait PathRules: Sized {
    /// The category of a path. One that is empty stands for no category.
    spec fn category(path: Seq<char>) -> Seq<char>;

    /// The category of a path.
    fn categorize(path: &str) -> (r: String)
        ensures
            r@ == Self::category(path@),
    ;
}

/// The categories of the events, without those that have none.
pub open spec fn categories_of<R: PathRules>(s: Seq<Event>) -> Seq<Seq<char>>
    decreases s.len(),
{
    if s.len() == 0 {
        Seq::empty()
    } else {
        let rest = categories_of::<R>(s.drop_last());
        let c = R::category(s.last().0);
        if c.len() == 0 {
            rest
        } else {
            rest.push(c)
        }
    }
}

/// A visit as a path through the categories.
pub struct SessionTrace {
    pub visit_id: String,
    /// The categories, one after the other.
    pub categories: Vec<String>,
    /// The times between one event and the next, in milliseconds.
    pub dwell_ms: Vec<u64>,
}

/// What a trace says.
#[verifier::ext_equal]
pub struct Trace {
    pub visit_id: Seq<char>,
    pub categories: Seq<Seq<char>>,
    pub dwell_ms: Seq<u64>,
}

impl View for SessionTrace {
    type V = Trace;

    open spec fn view(&self) -> Trace {
        Trace {
            visit_id: self.visit_id@,
            categories: texts(self.categories@),
            dwell_ms: self.dwell_ms@,
        }
    }
}

/// What the traces of a list say.
pub open spec fn trace_views(s: Seq<SessionTrace>) -> Seq<Trace> {
    s.map_values(|t: SessionTrace| t@)
}

/// The trace of a visit. One with fewer than `min_events` events, or with fewer than two that have
/// a category, has none.
pub open spec fn trace_of<R: PathRules>(
    visit_id: Seq<char>,
    events: Seq<Event>,
    min_events: nat,
) -> Option<Trace> {
    let ordered = timeline(events);
    let categories = categories_of::<R>(ordered);
    if events.len() < min_events || categories.len() < 2 {
        None
    } else {
        Some(Trace { visit_id, categories, dwell_ms: gaps(ordered) })
    }
}

/// The traces of all visits that have one.
pub open spec fn traces_of<R: PathRules>(
    visits: Seq<(Seq<char>, Seq<Event>)>,
    min_events: nat,
) -> Seq<Trace>
    decreases visits.len(),
{
    if visits.len() == 0 {
        Seq::empty()
    } else {
        let rest = traces_of::<R>(visits.drop_last(), min_events);
        match trace_of::<R>(visits.last().0, visits.last().1, min_events) {
            Some(t) => rest.push(t),
            None => rest,
        }
    }
}

/// The categories of the events.
fn categorize_all<R: PathRules>(events: &Vec<WebEvent>) -> (r: Vec<String>)
    ensures
        texts(r@) == categories_of::<R>(event_views(events@)),
{
    let ghost s = event_views(events@);
    let mut r: Vec<String> = Vec::new();
    let mut i: usize = 0;
    assert(s.take(0) == Seq::<Event>::empty());
    assert(texts(r@) == Seq::<Seq<char>>::empty());
    while i < events.len()
        invariant
            s == event_views(events@),
            i <= events@.len(),
            texts(r@) == categories_of::<R>(s.take(i as int)),
        decreases events@.len() - i,
    {
        let ghost r0 = r@;
        let c = R::categorize(events[i].url_path.as_str());
        proof {
            assert(s.take(i + 1).drop_last() == s.take(i as int));
            assert(s.take(i + 1).last() == events@[i as int]@);
        }
        if !is_empty(c.as_str()) {
            r.push(c);
            assert(texts(r@) == texts(r0).push(c@));
        }
        i += 1;
    }
    assert(s.take(i as int) == s);
    r
}

/// The trace of a visit.
pub fn session_trace<R: PathRules>(
    visit_id: &str,
    events: &Vec<WebEvent>,
    min_events: usize,
) -> (r: Option<SessionTrace>)
    ensures
        match r {
            Some(t) => trace_of::<R>(visit_id@, event_views(events@), min_events as nat) == Some(
                t@,
            ),
            None => trace_of::<R>(visit_id@, event_views(events@), min_events as nat) is None,
        },
{
    if events.len() < min_events {
        return None;
    }
    let ordered = in_time_order(events);
    let categories = categorize_all::<R>(&ordered);
    assert(texts(categories@).len() == categories@.len());
    if categories.len() < 2 {
        return None;
    }
    proof {
        lemma_timeline(event_views(events@));
    }
    let dwell_ms = dwell_times(&ordered);
    Some(SessionTrace { visit_id: visit_id.to_owned(), categories, dwell_ms })
}

/// The traces of all visits that have one.
pub fn collect_traces<R: PathRules>(log: &VisitLog, min_events: usize) -> (r: Vec<SessionTrace>)
    requires
        log.wf(),
    ensures
        trace_views(r@) == traces_of::<R>(log.visits(), min_events as nat),
        r@.len() <= log.visits().len(),
{
    let ghost all = log.visits();
    let mut r: Vec<SessionTrace> = Vec::new();
    let mut i: usize = 0;
    let n = log.len();
    assert(all.take(0) == Seq::<(Seq<char>, Seq<Event>)>::empty());
    assert(trace_views(r@) == Seq::<Trace>::empty());
    while i < n
        invariant
            log.wf(),
            all == log.visits(),
            n == all.len(),
            i <= n,
            r@.len() <= i,
            trace_views(r@) == traces_of::<R>(all.take(i as int), min_events as nat),
        decreases n - i,
    {
        let ghost r0 = r@;
        proof {
            assert(all.take(i + 1).drop_last() == all.take(i as int));
            assert(all.take(i + 1).last() == all[i as int]);
        }
        match session_trace::<R>(log.visit_id(i).as_str(), log.events(i), min_events) {
            Some(t) => {
                r.push(t);
                assert(trace_views(r@) == trace_views(r0).push(t@));
            },
            None => {},
        }
        i += 1;
    }
    assert(all.take(i as int) == all);
    r
}

// ---------------------------------------------------------------------------
// Summary
// ---------------------------------------------------------------------------

/// The categories of all traces, one after the other.
pub open spec fn all_categories(s: Seq<Trace>) -> Seq<Seq<char>>
    decreases s.len(),
{
    if s.len() == 0 {
        Seq::empty()
    } else {
        all_categories(s.drop_last()) + s.last().categories
    }
}

/// The steps of all traces, one after the other.
pub open spec fn all_steps(s: Seq<Trace>) -> Seq<Step>
    decreases s.len(),
{
    if s.len() == 0 {
        Seq::empty()
    } else {
        all_steps(s.drop_last()) + steps(s.last().categories)
    }
}

/// What comes among `s`, each once, in the order of first coming.
pub open spec fn firsts(s: Seq<Seq<char>>) -> Seq<Seq<char>> {
    tallied(s).map_values(|e: (Seq<char>, nat)| e.0)
}

proof fn lemma_steps_bound(s: Seq<Trace>)
    ensures
        all_steps(s).len() <= all_categories(s).len(),
    decreases s.len(),
{
    if s.len() > 0 {
        lemma_steps_bound(s.drop_last());
    }
}

proof fn lemma_bound_at(s: Seq<Trace>, i: int)
    requires
        0 <= i <= s.len(),
    ensures
        all_categories(s.take(i)).len() <= all_categories(s).len(),
    decreases s.len() - i,
{
    if i < s.len() {
        lemma_bound_at(s, i + 1);
        assert(s.take(i + 1).drop_last() == s.take(i));
    } else {
        assert(s.take(i) == s);
    }
}

/// The steps of all traces, counted.
pub fn count_transitions(traces: &Vec<SessionTrace>) -> (r: TransitionTable)
    requires
        all_categories(trace_views(traces@)).len() <= usize::MAX,
    ensures
        r.wf(),
        r.entries() == tallied(all_steps(trace_views(traces@))),
{
    let ghost s = trace_views(traces@);
    let ghost none = Seq::<(Step, nat)>::empty();
    let mut r = TransitionTable::new();
    let mut i: usize = 0;
    assert(s.take(0) == Seq::<Trace>::empty());
    while i < traces.len()
        invariant
            s == trace_views(traces@),
            none == Seq::<(Step, nat)>::empty(),
            i <= traces@.len(),
            all_categories(s).len() <= usize::MAX,
            r.wf(),
            r.entries() == tallied_onto(none, all_steps(s.take(i as int))),
        decreases traces@.len() - i,
    {
        let ghost here = traces@[i as int]@.categories;
        proof {
            assert(s.take(i + 1).drop_last() == s.take(i as int));
            assert(s.take(i + 1).last() == s[i as int]);
            lemma_bound_at(s, i + 1);
            lemma_steps_bound(s.take(i as int));
            law_tallied_onto(none, all_steps(s.take(i as int)), (Seq::empty(), Seq::empty()));
            lemma_tallied_split(none, all_steps(s.take(i as int)), steps(here));
        }
        r.record(&traces[i].categories);
        i += 1;
    }
    assert(s.take(i as int) == s);
    r
}

/// The categories that come in the traces, in the order of their texts.
pub fn state_names(traces: &Vec<SessionTrace>) -> (r: Vec<String>)
    requires
        all_categories(trace_views(traces@)).len() <= usize::MAX,
    ensures
        texts(r@) == sorted(firsts(all_categories(trace_views(traces@))), text_order()),
{
    let ghost s = trace_views(traces@);
    let ghost none = Seq::<(Seq<char>, nat)>::empty();
    let mut counts = Counts::new();
    let mut i: usize = 0;
    assert(s.take(0) == Seq::<Trace>::empty());
    while i < traces.len()
        invariant
            s == trace_views(traces@),
            none == Seq::<(Seq<char>, nat)>::empty(),
            i <= traces@.len(),
            all_categories(s).len() <= usize::MAX,
            counts.wf(),
            counts.tally() == tallied_onto(none, all_categories(s.take(i as int))),
        decreases traces@.len() - i,
    {
        let ghost before = all_categories(s.take(i as int));
        let ghost here = texts(traces@[i as int].categories@);
        proof {
            assert(s.take(i + 1).drop_last() == s.take(i as int));
            assert(s.take(i + 1).last() == s[i as int]);
            assert(all_categories(s.take(i + 1)) == before + here);
            lemma_bound_at(s, i + 1);
            assert(before + here.take(0) == before);
        }
        let mut j: usize = 0;
        while j < traces[i].categories.len()
            invariant
                i < traces@.len(),
                none == Seq::<(Seq<char>, nat)>::empty(),
                here == texts(traces@[i as int].categories@),
                j <= here.len(),
                before.len() + here.len() <= usize::MAX,
                counts.wf(),
                counts.tally() == tallied_onto(none, before + here.take(j as int)),
            decreases here.len() - j,
        {
            let ghost done = before + here.take(j as int);
            let ghost next = before + here.take(j + 1);
            proof {
                assert(next.drop_last() == done);
                assert(next.last() == here[j as int]);
                law_tallied_onto(none, done, here[j as int]);
            }
            counts.add_to(traces[i].categories[j].as_str(), 1);
            j += 1;
        }
        assert(here.take(j as int) == here);
        i += 1;
    }
    assert(s.take(i as int) == s);
    let mut names: Vec<String> = Vec::new();
    let mut k: usize = 0;
    let n = counts.len();
    while k < n
        invariant
            counts.wf(),
            n == counts.tally().len(),
            counts.tally() == tallied(all_categories(s)),
            k <= n,
            texts(names@) == firsts(all_categories(s)).take(k as int),
        decreases n - k,
    {
        let ghost names0 = names@;
        names.push(counts.key(k).clone());
        assert(texts(names@) == texts(names0).push(names@.last()@));
        assert(firsts(all_categories(s)).take(k + 1) == firsts(all_categories(s)).take(
            k as int,
        ).push(firsts(all_categories(s))[k as int]));
        k += 1;
    }
    assert(firsts(all_categories(s)).take(k as int) == firsts(all_categories(s)));
    let ghost unsorted = names@;
    let r = sort(names);
    proof {
        lemma_sorted_map(unsorted, rank::<String>(), |x: String| x@, text_order());
    }
    r
}

/// What the visits of a site come to.
pub struct AnalysisResult {
    /// How often each step was taken.
    pub transitions: TransitionTable,
    /// The categories, in the order of their texts.
    pub all_states: Vec<String>,
    /// The traces of the visits that have one.
    pub traces: Vec<SessionTrace>,
    /// The number of visits with too few events.
    pub skipped_count: usize,
    /// The number of visits with enough events, but fewer than two that have a category.
    pub uncategorized_count: usize,
}

/// The number of visits with fewer than `min_events` events.
pub open spec fn short_visits(visits: Seq<(Seq<char>, Seq<Event>)>, min_events: nat) -> nat
    decreases visits.len(),
{
    if visits.len() == 0 {
        0
    } else {
        short_visits(visits.drop_last(), min_events) + if visits.last().1.len() < min_events {
            1nat
        } else {
            0nat
        }
    }
}

/// The number of visits with at least `min_events` events, but fewer than two that have a category.
pub open spec fn uncategorized_visits<R: PathRules>(
    visits: Seq<(Seq<char>, Seq<Event>)>,
    min_events: nat,
) -> nat
    decreases visits.len(),
{
    if visits.len() == 0 {
        0
    } else {
        let events = visits.last().1;
        uncategorized_visits::<R>(visits.drop_last(), min_events) + if events.len() >= min_events
            && categories_of::<R>(timeline(events)).len() < 2 {
            1nat
        } else {
            0nat
        }
    }
}

/// The number of visits with fewer than `min_events` events.
pub fn count_short(log: &VisitLog, min_events: usize) -> (r: usize)
    requires
        log.wf(),
    ensures
        r == short_visits(log.visits(), min_events as nat),
{
    let ghost all = log.visits();
    let mut r: usize = 0;
    let mut i: usize = 0;
    let n = log.len();
    assert(all.take(0) == Seq::<(Seq<char>, Seq<Event>)>::empty());
    while i < n
        invariant
            log.wf(),
            all == log.visits(),
            n == all.len(),
            i <= n,
            r <= i,
            r == short_visits(all.take(i as int), min_events as nat),
        decreases n - i,
    {
        assert(all.take(i + 1).drop_last() == all.take(i as int));
        assert(all.take(i + 1).last() == all[i as int]);
        let events = log.events(i);
        assert(event_views(events@).len() == events@.len());
        if events.len() < min_events {
            r = r + 1;
        }
        i += 1;
    }
    assert(all.take(i as int) == all);
    r
}

/// What the visits of a site come to.
pub fn analyze_sessions<R: PathRules>(log: &VisitLog, min_events: usize) -> (r: AnalysisResult)
    requires
        log.wf(),
    ensures
        trace_views(r.traces@) == traces_of::<R>(log.visits(), min_events as nat),
        r.skipped_count == short_visits(log.visits(), min_events as nat),
        r.uncategorized_count == uncategorized_visits::<R>(log.visits(), min_events as nat),
        r.transitions.wf(),
        r.transitions.entries() == tallied(all_steps(trace_views(r.traces@))),
        texts(r.all_states@) == sorted(
            firsts(all_categories(trace_views(r.traces@))),
            text_order(),
        ),
{
    let traces = collect_traces::<R>(log, min_events);
    proof {
        log.lemma_countable();
        lemma_categories_bound::<R>(log.visits(), min_events as nat);
    }
    let skipped_count = count_short(log, min_events);
    proof {
        law_visits_accounted::<R>(log.visits(), min_events as nat);
        assert(trace_views(traces@).len() == traces@.len());
    }
    let uncategorized_count = log.len() - traces.len() - skipped_count;
    let transitions = count_transitions(&traces);
    let all_states = state_names(&traces);
    AnalysisResult { transitions, all_states, traces, skipped_count, uncategorized_count }
}

proof fn lemma_categories_of_bound<R: PathRules>(s: Seq<Event>)
    ensures
        categories_of::<R>(s).len() <= s.len(),
    decreases s.len(),
{
    if s.len() > 0 {
        lemma_categories_of_bound::<R>(s.drop_last());
    }
}

/// There are no more categories in the traces than events in the visits.
pub proof fn lemma_categories_bound<R: PathRules>(
    visits: Seq<(Seq<char>, Seq<Event>)>,
    min_events: nat,
)
    ensures
        all_categories(traces_of::<R>(visits, min_events)).len() <= item_count(visits),
    decreases visits.len(),
{
    if visits.len() > 0 {
        let rest = visits.drop_last();
        lemma_categories_bound::<R>(rest, min_events);
        let events = visits.last().1;
        lemma_timeline(events);
        lemma_categories_of_bound::<R>(timeline(events));
        match trace_of::<R>(visits.last().0, events, min_events) {
            Some(t) => {
                assert(traces_of::<R>(rest, min_events).push(t).drop_last() == traces_of::<R>(
                    rest,
                    min_events,
                ));
            },
            None => {},
        }
    }
}

// ---------------------------------------------------------------------------
// Path rows
// ---------------------------------------------------------------------------

/// The stations of a path: each category with the time until the next event, the last one without.
pub open spec fn stations(categories: Seq<Seq<char>>, dwell: Seq<Seq<char>>) -> Seq<Seq<char>> {
    Seq::new(
        categories.len(),
        |i: int|
            if i < categories.len() - 1 {
                categories[i] + "("@ + dwell[i] + "s)"@
            } else {
                categories[i]
            },
    )
}

/// The row of a visit in the table of paths.
pub open spec fn path_row(t: Trace, dwell: Seq<Seq<char>>) -> Seq<char> {
    t.visit_id + ",\""@ + joined(stations(t.categories, dwell), " ➔ "@) + "\""@
}

/// The row of a visit in the table of paths, with the times between its events as texts.
pub fn session_path_row(trace: &SessionTrace, dwell: &Vec<String>) -> (r: String)
    requires
        dwell@.len() + 1 >= trace.categories@.len(),
    ensures
        r@ == path_row(trace@, texts(dwell@)),
{
    let ghost all = stations(trace@.categories, texts(dwell@));
    let mut parts: Vec<String> = Vec::new();
    let mut i: usize = 0;
    let n = trace.categories.len();
    while i < n
        invariant
            all == stations(trace@.categories, texts(dwell@)),
            n == trace.categories@.len(),
            dwell@.len() + 1 >= n,
            i <= n,
            texts(parts@) == all.take(i as int),
        decreases n - i,
    {
        let ghost parts0 = parts@;
        assert(trace@.categories[i as int] == trace.categories@[i as int]@);
        if i < n - 1 {
            assert(texts(dwell@)[i as int] == dwell@[i as int]@);
            let mut part = append(trace.categories[i].as_str(), "(");
            part.append(dwell[i].as_str());
            part.append("s)");
            parts.push(part);
        } else {
            parts.push(trace.categories[i].clone());
        }
        assert(texts(parts@) == texts(parts0).push(parts@.last()@));
        assert(all.take(i + 1) == all.take(i as int).push(all[i as int]));
        i += 1;
    }
    assert(all.take(i as int) == all);
    let mut r = append(trace.visit_id.as_str(), ",\"");
    r.append(join(&parts, " ➔ ").as_str());
    r.append("\"");
    r
}

// ---------------------------------------------------------------------------
// Laws
// ---------------------------------------------------------------------------

/// The times between the events of a visit are the differences of their times, which are never
/// negative.
pub proof fn law_dwell_exact(s: Seq<Event>, i: int)
    requires
        0 <= i < s.len() - 1,
    ensures
        gaps(timeline(s)).len() == s.len() - 1,
        gaps(timeline(s))[i] == timeline(s)[i + 1].1 - timeline(s)[i].1,
{
    lemma_timeline(s);
    let le = time_order();
    assert(le(timeline(s)[i], timeline(s)[i + 1]));
}

/// Every trace comes from at least `min_events` events, has at least two categories, and has a time
/// for every step.
pub proof fn law_traces_long<R: PathRules>(
    visits: Seq<(Seq<char>, Seq<Event>)>,
    min_events: nat,
    k: int,
)
    requires
        0 <= k < traces_of::<R>(visits, min_events).len(),
    ensures
        traces_of::<R>(visits, min_events)[k].categories.len() >= 2,
        traces_of::<R>(visits, min_events)[k].dwell_ms.len() + 1 >= min_events,
        traces_of::<R>(visits, min_events)[k].dwell_ms.len() + 1 >= traces_of::<R>(
            visits,
            min_events,
        )[k].categories.len(),
    decreases visits.len(),
{
    let rest = traces_of::<R>(visits.drop_last(), min_events);
    if k < rest.len() {
        law_traces_long::<R>(visits.drop_last(), min_events, k);
    } else {
        let events = visits.last().1;
        lemma_timeline(events);
        lemma_categories_of_bound::<R>(timeline(events));
    }
}

/// Every visit has a trace, or has too few events, or has too few that have a category.
pub proof fn law_visits_accounted<R: PathRules>(
    visits: Seq<(Seq<char>, Seq<Event>)>,
    min_events: nat,
)
    ensures
        traces_of::<R>(visits, min_events).len() + short_visits(visits, min_events)
            + uncategorized_visits::<R>(visits, min_events) == visits.len(),
    decreases visits.len(),
{
    if visits.len() > 0 {
        law_visits_accounted::<R>(visits.drop_last(), min_events);
    }
}

proof fn lemma_step_total(s: Seq<Trace>)
    requires
        forall|k: int| 0 <= k < s.len() ==> (#[trigger] s[k]).categories.len() >= 2,
    ensures
        all_steps(s).len() + s.len() == all_categories(s).len(),
    decreases s.len(),
{
    if s.len() > 0 {
        let rest = s.drop_last();
        assert forall|k: int| 0 <= k < rest.len() implies (#[trigger] rest[k]).categories.len()
            >= 2 by {
            assert(rest[k] == s[k]);
        }
        lemma_step_total(rest);
        assert(s[s.len() - 1].categories.len() >= 2);
    }
}

/// Every trace has one step less than it has categories, so the counts of all steps together make
/// the number of categories in all traces less the number of traces.
pub proof fn law_transition_total<R: PathRules>(
    visits: Seq<(Seq<char>, Seq<Event>)>,
    min_events: nat,
)
    ensures
        ({
            let traces = traces_of::<R>(visits, min_events);
            count_sum(tallied(all_steps(traces))) + traces.len() == all_categories(traces).len()
        }),
{
    let traces = traces_of::<R>(visits, min_events);
    assert forall|k: int| 0 <= k < traces.len() implies (#[trigger] traces[k]).categories.len()
        >= 2 by {
        law_traces_long::<R>(visits, min_events, k);
    }
    lemma_step_total(traces);
    law_tallied(all_steps(traces), (Seq::empty(), Seq::empty()));
}

/// The list of categories has each category that comes, has no other, and has none twice.
pub proof fn law_states_complete(s: Seq<Seq<char>>)
    ensures
        firsts(s).no_duplicates(),
        forall|c: Seq<char>| #[trigger] firsts(s).contains(c) <==> s.contains(c),
        sorted(firsts(s), text_order()).to_multiset() == firsts(s).to_multiset(),
{
    let t = tallied(s);
    law_tallied(s, Seq::empty());
    assert forall|i: int, j: int| 0 <= i < firsts(s).len() && 0 <= j < firsts(s).len() && i
        != j implies firsts(s)[i] != firsts(s)[j] by {
        if i < j {
            assert(t[i].0 != t[j].0);
        } else {
            assert(t[j].0 != t[i].0);
        }
    }
    assert forall|c: Seq<char>| #[trigger] firsts(s).contains(c) <==> s.contains(c) by {
        law_tallied(s, c);
        lemma_times(s, c);
        if firsts(s).contains(c) {
            let i = choose|i: int| 0 <= i < firsts(s).len() && firsts(s)[i] == c;
            assert(is_at(t, c, i));
            lemma_spot(t, c, i);
            lemma_tallied_positive(s, i);
        }
        if s.contains(c) {
            assert(count_of(t, c) > 0);
            let i = spot(t, c);
            assert(is_at(t, c, i));
            assert(firsts(s)[i] == c);
        }
    }
    law_sorted_keeps_values(firsts(s), text_order());
}

/// No two events are at the same time.
pub open spec fn times_differ(s: Seq<Event>) -> bool {
    forall|i: int, j: int| 0 <= i < j < s.len() ==> (#[trigger] s[i]).1 != (#[trigger] s[j]).1
}

/// Events whose times differ have one timeline, in whatever order they are listed.
pub proof fn law_timeline_unique(s: Seq<Event>, t: Seq<Event>)
    requires
        times_differ(s),
        s.to_multiset() == t.to_multiset(),
    ensures
        timeline(s) == timeline(t),
        s.len() == t.len(),
{
    broadcast use vstd::seq_lib::group_to_multiset_ensures;

    let le = time_order();
    assert(preorder(le));
    law_sorted_in_order(s, le);
    law_sorted_in_order(t, le);
    law_sorted_keeps_values(s, le);
    law_sorted_keeps_values(t, le);
    let a = timeline(s);
    assert forall|i: int, j: int|
        0 <= i < a.len() && 0 <= j < a.len() && le(#[trigger] a[i], #[trigger] a[j]) && le(
            a[j],
            a[i],
        ) implies a[i] == a[j] by {
        assert(a.contains(a[i]) && a.contains(a[j]));
        assert(a.to_multiset().contains(a[i]) && a.to_multiset().contains(a[j]));
        assert(s.contains(a[i]) && s.contains(a[j]));
        let p = choose|p: int| 0 <= p < s.len() && s[p] == a[i];
        let q = choose|q: int| 0 <= q < s.len() && s[q] == a[j];
        if p < q {
            assert(s[p].1 != s[q].1);
        } else if q < p {
            assert(s[q].1 != s[p].1);
        }
    }
    law_order_unique(a, timeline(t), le);
    assert(s.len() == s.to_multiset().len() && t.len() == t.to_multiset().len());
}

/// The order in which the events of a visit are listed plays no part in its trace, where their
/// times differ: neither in its categories nor in the times between its events.
pub proof fn law_trace_unique<R: PathRules>(
    visit_id: Seq<char>,
    s: Seq<Event>,
    t: Seq<Event>,
    min_events: nat,
)
    requires
        times_differ(s),
        s.to_multiset() == t.to_multiset(),
    ensures
        trace_of::<R>(visit_id, s, min_events) == trace_of::<R>(visit_id, t, min_events),
{
    law_timeline_unique(s, t);
}

/// The two lists have the same visits with the same events, in whatever order they are listed, and
/// no two events of a visit are at the same time.
pub open spec fn same_visits(
    v: Seq<(Seq<char>, Seq<Event>)>,
    w: Seq<(Seq<char>, Seq<Event>)>,
) -> bool {
    &&& distinct(v)
    &&& distinct(w)
    &&& forall|id: Seq<char>| #[trigger] has_key(v, id) <==> has_key(w, id)
    &&& forall|i: int, j: int|
        0 <= i < v.len() && 0 <= j < w.len() && (#[trigger] v[i]).0 == (#[trigger] w[j]).0
            ==> v[i].1.to_multiset() == w[j].1.to_multiset()
    &&& forall|i: int| 0 <= i < v.len() ==> times_differ((#[trigger] v[i]).1)
    &&& forall|j: int| 0 <= j < w.len() ==> times_differ((#[trigger] w[j]).1)
}

/// The visits with their events in the order of their times.
spec fn ordered_visits(v: Seq<(Seq<char>, Seq<Event>)>) -> Seq<(Seq<char>, Seq<Event>)> {
    v.map_values(|e: (Seq<char>, Seq<Event>)| (e.0, timeline(e.1)))
}

proof fn lemma_ordered_traces<R: PathRules>(v: Seq<(Seq<char>, Seq<Event>)>, min_events: nat)
    requires
        forall|i: int| 0 <= i < v.len() ==> times_differ((#[trigger] v[i]).1),
    ensures
        traces_of::<R>(ordered_visits(v), min_events) == traces_of::<R>(v, min_events),
    decreases v.len(),
{
    if v.len() > 0 {
        let rest = v.drop_last();
        assert forall|i: int| 0 <= i < rest.len() implies times_differ((#[trigger] rest[i]).1) by {
            assert(rest[i] == v[i]);
        }
        lemma_ordered_traces::<R>(rest, min_events);
        assert(ordered_visits(v).drop_last() == ordered_visits(rest));
        assert(v[v.len() - 1] == v.last());
        let events = v.last().1;
        law_sorted_keeps_values(events, time_order());
        law_trace_unique::<R>(v.last().0, events, timeline(events), min_events);
        assert(ordered_visits(v).last() == (v.last().0, timeline(events)));
    }
}

proof fn lemma_ordered_same(v: Seq<(Seq<char>, Seq<Event>)>, w: Seq<(Seq<char>, Seq<Event>)>)
    requires
        same_visits(v, w),
    ensures
        ordered_visits(v).to_multiset() == ordered_visits(w).to_multiset(),
        v.len() == w.len(),
{
    let (a, b) = (ordered_visits(v), ordered_visits(w));
    assert(distinct(a)) by {
        assert forall|i: int, j: int| 0 <= i < j < a.len() implies (#[trigger] a[i]).0 != (
        #[trigger] a[j]).0 by {
            assert(v[i].0 != v[j].0);
        }
    }
    assert(distinct(b)) by {
        assert forall|i: int, j: int| 0 <= i < j < b.len() implies (#[trigger] b[i]).0 != (
        #[trigger] b[j]).0 by {
            assert(w[i].0 != w[j].0);
        }
    }
    lemma_distinct_entries(a);
    lemma_distinct_entries(b);
    assert forall|e: (Seq<char>, Seq<Event>)| #[trigger] a.contains(e) <==> b.contains(e) by {
        if a.contains(e) {
            let i = choose|i: int| 0 <= i < a.len() && a[i] == e;
            assert(is_at(v, e.0, i));
            assert(has_key(v, e.0));
            let j = spot(w, e.0);
            assert(is_at(w, e.0, j));
            assert(v[i].1.to_multiset() == w[j].1.to_multiset());
            law_timeline_unique(v[i].1, w[j].1);
            assert(b[j] == e);
        }
        if b.contains(e) {
            let j = choose|j: int| 0 <= j < b.len() && b[j] == e;
            assert(is_at(w, e.0, j));
            assert(has_key(w, e.0));
            assert(has_key(v, e.0));
            let i = spot(v, e.0);
            assert(is_at(v, e.0, i));
            assert(v[i].1.to_multiset() == w[j].1.to_multiset());
            law_timeline_unique(v[i].1, w[j].1);
            assert(a[i] == e);
        }
    }
    lemma_same_values(a, b);
}

proof fn lemma_traces_concat<R: PathRules>(
    a: Seq<(Seq<char>, Seq<Event>)>,
    b: Seq<(Seq<char>, Seq<Event>)>,
    min_events: nat,
)
    ensures
        traces_of::<R>(a + b, min_events) == traces_of::<R>(a, min_events) + traces_of::<R>(
            b,
            min_events,
        ),
    decreases b.len(),
{
    if b.len() == 0 {
        assert(a + b == a);
        assert(traces_of::<R>(b, min_events) == Seq::<Trace>::empty());
    } else {
        lemma_traces_concat::<R>(a, b.drop_last(), min_events);
        assert((a + b).drop_last() == a + b.drop_last());
        assert((a + b).last() == b.last());
        assert(traces_of::<R>(a + b, min_events) == traces_of::<R>(a, min_events) + traces_of::<R>(
            b,
            min_events,
        ));
    }
}

/// The steps of traces add up over the parts of a list.
pub proof fn lemma_steps_concat(a: Seq<Trace>, b: Seq<Trace>)
    ensures
        all_steps(a + b) == all_steps(a) + all_steps(b),
    decreases b.len(),
{
    if b.len() == 0 {
        assert(a + b == a);
        assert(all_steps(a) + all_steps(b) == all_steps(a));
    } else {
        lemma_steps_concat(a, b.drop_last());
        assert((a + b).drop_last() == a + b.drop_last());
        assert((a + b).last() == b.last());
        assert(all_steps(a + b) == all_steps(a) + all_steps(b));
    }
}

proof fn lemma_categories_concat(a: Seq<Trace>, b: Seq<Trace>)
    ensures
        all_categories(a + b) == all_categories(a) + all_categories(b),
    decreases b.len(),
{
    if b.len() == 0 {
        assert(a + b == a);
        assert(all_categories(a) + all_categories(b) == all_categories(a));
    } else {
        lemma_categories_concat(a, b.drop_last());
        assert((a + b).drop_last() == a + b.drop_last());
        assert((a + b).last() == b.last());
        assert(all_categories(a + b) == all_categories(a) + all_categories(b));
    }
}

proof fn lemma_short_ordered(v: Seq<(Seq<char>, Seq<Event>)>, min_events: nat)
    ensures
        short_visits(ordered_visits(v), min_events) == short_visits(v, min_events),
    decreases v.len(),
{
    if v.len() > 0 {
        lemma_short_ordered(v.drop_last(), min_events);
        assert(ordered_visits(v).drop_last() == ordered_visits(v.drop_last()));
        lemma_timeline(v.last().1);
    }
}

proof fn lemma_short_concat(
    a: Seq<(Seq<char>, Seq<Event>)>,
    b: Seq<(Seq<char>, Seq<Event>)>,
    min_events: nat,
)
    ensures
        short_visits(a + b, min_events) == short_visits(a, min_events) + short_visits(b, min_events),
    decreases b.len(),
{
    if b.len() == 0 {
        assert(a + b == a);
    } else {
        lemma_short_concat(a, b.drop_last(), min_events);
        assert((a + b).drop_last() == a + b.drop_last());
        assert((a + b).last() == b.last());
    }
}

/// The order in which visits and events are listed plays no part in the traces, where the times of
/// the events of a visit differ: there are the same traces, and as many visits without one, be it
/// for want of events or of categories.
pub proof fn law_traces_unique<R: PathRules>(
    v: Seq<(Seq<char>, Seq<Event>)>,
    w: Seq<(Seq<char>, Seq<Event>)>,
    min_events: nat,
)
    requires
        same_visits(v, w),
    ensures
        traces_of::<R>(v, min_events).to_multiset() == traces_of::<R>(w, min_events).to_multiset(),
        traces_of::<R>(v, min_events).len() == traces_of::<R>(w, min_events).len(),
        short_visits(v, min_events) == short_visits(w, min_events),
        uncategorized_visits::<R>(v, min_events) == uncategorized_visits::<R>(w, min_events),
        v.len() == w.len(),
{
    broadcast use vstd::seq_lib::group_to_multiset_ensures;

    lemma_ordered_traces::<R>(v, min_events);
    lemma_ordered_traces::<R>(w, min_events);
    lemma_ordered_same(v, w);
    let (a, b) = (traces_of::<R>(v, min_events), traces_of::<R>(w, min_events));
    assert forall|t: Trace| #[trigger] a.to_multiset().count(t) == b.to_multiset().count(t) by {
        let f = |s: Seq<(Seq<char>, Seq<Event>)>|
            traces_of::<R>(s, min_events).to_multiset().count(t);
        assert forall|x: Seq<(Seq<char>, Seq<Event>)>, y: Seq<(Seq<char>, Seq<Event>)>| #[trigger]
            f(x + y) == f(x) + f(y) by {
            lemma_traces_concat::<R>(x, y, min_events);
            lemma_multiset_commutative(
                traces_of::<R>(x, min_events),
                traces_of::<R>(y, min_events),
            );
        }
        lemma_sum_permuted(f, ordered_visits(v), ordered_visits(w));
    }
    assert(a.to_multiset() =~= b.to_multiset());
    assert(a.len() == a.to_multiset().len() && b.len() == b.to_multiset().len());
    let short = |s: Seq<(Seq<char>, Seq<Event>)>| short_visits(s, min_events);
    assert forall|x: Seq<(Seq<char>, Seq<Event>)>, y: Seq<(Seq<char>, Seq<Event>)>| #[trigger]
        short(x + y) == short(x) + short(y) by {
        lemma_short_concat(x, y, min_events);
    }
    lemma_sum_permuted(short, ordered_visits(v), ordered_visits(w));
    lemma_short_ordered(v, min_events);
    lemma_short_ordered(w, min_events);
    law_visits_accounted::<R>(v, min_events);
    law_visits_accounted::<R>(w, min_events);
}

/// The order of the traces plays no part in the counts of their steps.
pub proof fn law_transitions_permuted(s: Seq<Trace>, t: Seq<Trace>)
    requires
        s.to_multiset() == t.to_multiset(),
    ensures
        tallied(all_steps(s)).to_multiset() == tallied(all_steps(t)).to_multiset(),
        forall|step: Step| #[trigger]
            count_of(tallied(all_steps(s)), step) == count_of(tallied(all_steps(t)), step),
{
    assert forall|step: Step| #[trigger]
        times(all_steps(s), step) == times(all_steps(t), step) by {
        let f = |x: Seq<Trace>| times(all_steps(x), step);
        assert forall|x: Seq<Trace>, y: Seq<Trace>| #[trigger] f(x + y) == f(x) + f(y) by {
            lemma_steps_concat(x, y);
            lemma_times_concat(all_steps(x), all_steps(y), step);
        }
        lemma_sum_permuted(f, s, t);
    }
    law_tallies_agree(all_steps(s), all_steps(t));
}

/// The order of the traces plays no part in the list of their categories.
pub proof fn law_states_permuted(s: Seq<Trace>, t: Seq<Trace>)
    requires
        s.to_multiset() == t.to_multiset(),
    ensures
        sorted(firsts(all_categories(s)), text_order()) == sorted(
            firsts(all_categories(t)),
            text_order(),
        ),
{
    let (a, b) = (all_categories(s), all_categories(t));
    law_states_complete(a);
    law_states_complete(b);
    assert forall|c: Seq<char>| #[trigger] firsts(a).contains(c) <==> firsts(b).contains(c) by {
        let f = |x: Seq<Trace>| times(all_categories(x), c);
        assert forall|x: Seq<Trace>, y: Seq<Trace>| #[trigger] f(x + y) == f(x) + f(y) by {
            lemma_categories_concat(x, y);
            lemma_times_concat(all_categories(x), all_categories(y), c);
        }
        lemma_sum_permuted(f, s, t);
        lemma_times(a, c);
        lemma_times(b, c);
    }
    lemma_same_values(firsts(a), firsts(b));
    law_sorted_texts_unique(firsts(a), firsts(b));
}

/// The order in which visits and events are listed plays no part in what they come to, where the
/// times of the events of a visit differ: the counts of the steps, the categories, and the numbers
/// of visits with a trace, with too few events and with too few categories are the same.
pub proof fn law_listing_order_ignored<R: PathRules>(
    v: Seq<(Seq<char>, Seq<Event>)>,
    w: Seq<(Seq<char>, Seq<Event>)>,
    min_events: nat,
)
    requires
        same_visits(v, w),
    ensures
        ({
            let (s, t) = (traces_of::<R>(v, min_events), traces_of::<R>(w, min_events));
            &&& s.to_multiset() == t.to_multiset()
            &&& s.len() == t.len()
            &&& short_visits(v, min_events) == short_visits(w, min_events)
            &&& uncategorized_visits::<R>(v, min_events) == uncategorized_visits::<R>(w, min_events)
            &&& tallied(all_steps(s)).to_multiset() == tallied(all_steps(t)).to_multiset()
            &&& forall|step: Step| #[trigger]
                count_of(tallied(all_steps(s)), step) == count_of(tallied(all_steps(t)), step)
            &&& sorted(firsts(all_categories(s)), text_order()) == sorted(
                firsts(all_categories(t)),
                text_order(),
            )
        }),
{
    law_traces_unique::<R>(v, w, min_events);
    let (s, t) = (traces_of::<R>(v, min_events), traces_of::<R>(w, min_events));
    law_transitions_permuted(s, t);
    law_states_permuted(s, t);
}

/// A timeline has the same events, none before one that is ahead of it, and events at the same time
/// in the order in which they were listed.
pub proof fn law_timeline_exact(s: Seq<Event>, at: i64, i: int, j: int)
    requires
        0 <= i < j < s.len(),
    ensures
        timeline(s).to_multiset() == s.to_multiset(),
        timeline(s).len() == s.len(),
        timeline(s)[i].1 <= timeline(s)[j].1,
        timeline(s).filter(|e: Event| e.1 == at) == s.filter(|e: Event| e.1 == at),
{
    let le = time_order();
    lemma_timeline(s);
    law_sorted_keeps_values(s, le);
    assert(le(timeline(s)[i], timeline(s)[j]));
    law_sorted_stable(s, le, |e: Event| e.1 == at);
}

/// The categories of events are those of their paths, one after the other, without the empty ones.
pub proof fn law_categories_picked<R: PathRules>(s: Seq<Event>)
    ensures
        categories_of::<R>(s) == s.map_values(|e: Event| R::category(e.0)).filter(
            |c: Seq<char>| c.len() > 0,
        ),
    decreases s.len(),
{
    reveal(Seq::filter);
    let named = |e: Event| R::category(e.0);
    if s.len() > 0 {
        law_categories_picked::<R>(s.drop_last());
        assert(s.map_values(named).drop_last() == s.drop_last().map_values(named));
        assert(s.map_values(named).last() == named(s.last()));
    } else {
        assert(s.map_values(named) == Seq::<Seq<char>>::empty());
    }
}

/// A visit has a trace exactly when it has at least `min_events` events and at least two of them
/// have a category. The trace has the categories of the events in the order of their times, and the
/// times between them.
pub proof fn law_trace_exact<R: PathRules>(
    visit_id: Seq<char>,
    events: Seq<Event>,
    min_events: nat,
)
    ensures
        ({
            let named = timeline(events).map_values(|e: Event| R::category(e.0)).filter(
                |c: Seq<char>| c.len() > 0,
            );
            &&& trace_of::<R>(visit_id, events, min_events) is Some <==> events.len() >= min_events
                && named.len() >= 2
            &&& trace_of::<R>(visit_id, events, min_events) matches Some(t) ==> t.visit_id
                == visit_id && t.categories == named && t.dwell_ms == gaps(timeline(events))
        }),
{
    law_categories_picked::<R>(timeline(events));
}

/// The traces are those of the visits that have one, in the order of the visits.
pub proof fn law_traces_picked<R: PathRules>(
    visits: Seq<(Seq<char>, Seq<Event>)>,
    min_events: nat,
)
    ensures
        traces_of::<R>(visits, min_events) == visits.map_values(
            |v: (Seq<char>, Seq<Event>)| trace_of::<R>(v.0, v.1, min_events),
        ).filter(|t: Option<Trace>| t is Some).map_values(|t: Option<Trace>| t->0),
    decreases visits.len(),
{
    reveal(Seq::filter);
    let traced = |v: (Seq<char>, Seq<Event>)| trace_of::<R>(v.0, v.1, min_events);
    let found = |t: Option<Trace>| t is Some;
    let inside = |t: Option<Trace>| t->0;
    if visits.len() > 0 {
        let rest = visits.drop_last();
        law_traces_picked::<R>(rest, min_events);
        assert(visits.map_values(traced).drop_last() == rest.map_values(traced));
        assert(visits.map_values(traced).last() == traced(visits.last()));
        let before = rest.map_values(traced).filter(found);
        if traced(visits.last()) is Some {
            assert(visits.map_values(traced).filter(found) == before.push(traced(visits.last())));
            assert(before.push(traced(visits.last())).map_values(inside) == before.map_values(
                inside,
            ).push(traced(visits.last())->0));
        }
    } else {
        assert(visits.map_values(traced).filter(found).map_values(inside) == Seq::<Trace>::empty());
    }
}

/// The visits with too few events are those with fewer than `min_events`; those with too few
/// categories have enough events, but fewer than two that have a category.
pub proof fn law_visits_left_out<R: PathRules>(
    visits: Seq<(Seq<char>, Seq<Event>)>,
    min_events: nat,
)
    ensures
        short_visits(visits, min_events) == visits.filter(
            |v: (Seq<char>, Seq<Event>)| v.1.len() < min_events,
        ).len(),
        uncategorized_visits::<R>(visits, min_events) == visits.filter(
            |v: (Seq<char>, Seq<Event>)|
                v.1.len() >= min_events && categories_of::<R>(timeline(v.1)).len() < 2,
        ).len(),
    decreases visits.len(),
{
    reveal(Seq::filter);
    if visits.len() > 0 {
        law_visits_left_out::<R>(visits.drop_last(), min_events);
    }
}

/// The steps and categories of traces are those of the single traces, one after the other.
pub proof fn law_traces_joined(s: Seq<Trace>, t: Trace)
    ensures
        all_steps(s.push(t)) == all_steps(s) + steps(t.categories),
        all_categories(s.push(t)) == all_categories(s) + t.categories,
        all_steps(Seq::<Trace>::empty()) == Seq::<Step>::empty(),
        all_categories(Seq::<Trace>::empty()) == Seq::<Seq<char>>::empty(),
{
    assert(s.push(t).drop_last() == s);
}

/// The row of a path grows by a station at its end: the time until then is put behind the station
/// that was the last, then an arrow and the new station.
pub proof fn law_path_grows(t: Trace, next: Seq<char>, dwell: Seq<Seq<char>>)
    requires
        t.categories.len() > 0,
        dwell.len() >= t.categories.len(),
    ensures
        joined(stations(t.categories.push(next), dwell), " ➔ "@) == joined(
            stations(t.categories, dwell),
            " ➔ "@,
        ) + "("@ + dwell[t.categories.len() - 1] + "s)"@ + " ➔ "@ + next,
        path_row(t, dwell) == t.visit_id + ",\""@ + joined(stations(t.categories, dwell), " ➔ "@)
            + "\""@,
{
    let sep = " ➔ "@;
    let c = t.categories;
    let n = c.len() as int;
    let (old, new) = (stations(c, dwell), stations(c.push(next), dwell));
    let back = "("@ + dwell[n - 1] + "s)"@;
    assert(new.last() == next);
    assert(new.drop_last().drop_last() == old.drop_last());
    assert(new.drop_last().last() == c[n - 1] + "("@ + dwell[n - 1] + "s)"@);
    assert(old.last() == c[n - 1]);
    if n == 1 {
        assert(joined(new.drop_last(), sep) == joined(old, sep) + back);
    } else {
        assert(joined(old.drop_last(), sep) + sep + (c[n - 1] + "("@ + dwell[n - 1] + "s)"@) == (
        joined(old.drop_last(), sep) + sep + c[n - 1]) + back);
    }
    assert(joined(new, sep) == joined(new.drop_last(), sep) + sep + next);
    assert(joined(old, sep) + back + sep + next == joined(old, sep) + "("@ + dwell[n - 1] + "s)"@
        + sep + next);
}

/// A path of a single station is that station, without a time.
pub proof fn law_single_station(category: Seq<char>, dwell: Seq<Seq<char>>)
    ensures
        joined(stations(seq![category], dwell), " ➔ "@) == category,
{
}

} // verus!
