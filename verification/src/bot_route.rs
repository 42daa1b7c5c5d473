//! Visits that go back and forth between lists and entries as scripts do.

use crate::keyed::{
    count_of, law_tallied_onto, law_tallies_agree, lemma_tallied_split, lemma_times_concat,
    tallied, tallied_onto, times, Counts,
};
use crate::order::{lemma_sum_permuted, sorted, text_order};
use crate::ratio::Ratio;
use crate::route::{law_trace_complete, Pages};
use crate::text::{same_text, texts};
use crate::transitions::{steps, Step, TransitionTable};
use crate::visits::{
    all_categories, all_steps, collect_traces, firsts, law_states_permuted, law_trace_unique,
    law_traces_unique, lemma_categories_bound, lemma_steps_concat, lemma_timeline, same_visits,
    state_names, timeline, trace_of, trace_views, traces_of, Event, SessionTrace, Trace, VisitLog,
};
use vstd::prelude::*;

verus! {

/// Visits with fewer events than this are left out.
pub const MIN_EVENTS: usize = 3;

// ---------------------------------------------------------------------------
// Verdict
// ---------------------------------------------------------------------------

/// The step goes from a list to an entry or back.
pub open spec fn is_loop(step: Step) -> bool {
    ||| step.0 == "[List]"@ && step.1 == "[Detail]"@
    ||| step.0 == "[Detail]"@ && step.1 == "[List]"@
}

/// The number of steps that go from a list to an entry or back.
pub open spec fn loop_count(s: Seq<Step>) -> nat
    decreases s.len(),
{
    if s.len() == 0 {
        0
    } else {
        loop_count(s.drop_last()) + if is_loop(s.last()) {
            1nat
        } else {
            0nat
        }
    }
}

/// The share of such steps among all steps of a path.
pub open spec fn loop_share(path: Seq<Seq<char>>) -> Ratio {
    Ratio { num: loop_count(steps(path)) as u64, den: steps(path).len() as u64 }
}

/// The path is that of a bot: at least six pages, and more than four steps in five go from a list
/// to an entry or back.
pub open spec fn is_bot_path(path: Seq<Seq<char>>) -> bool {
    path.len() >= 6 && 5 * loop_count(steps(path)) > 4 * (path.len() - 1)
}

/// The share of the steps that go from a list to an entry or back.
pub fn loop_ratio(categories: &Vec<String>) -> (r: Ratio)
    ensures
        r == loop_share(texts(categories@)),
        r.num == loop_count(steps(texts(categories@))),
        r.den == steps(texts(categories@)).len(),
{
    let ghost path = texts(categories@);
    let ghost all = steps(path);
    let n = categories.len();
    let mut loops: u64 = 0;
    let mut i: usize = 1;
    assert(all.take(0) == Seq::<Step>::empty());
    while i < n
        invariant
            path == texts(categories@),
            all == steps(path),
            n == categories@.len(),
            1 <= i,
            n >= 1 ==> i <= n,
            n == 0 ==> i == 1,
            loops == loop_count(all.take(i - 1)),
            loops <= i - 1,
        decreases n - i,
    {
        let from = categories[i - 1].as_str();
        let to = categories[i].as_str();
        proof {
            assert(all[i - 1] == (from@, to@));
            assert(all.take(i as int).drop_last() == all.take(i - 1));
            assert(all.take(i as int).last() == all[i - 1]);
        }
        if (same_text(from, "[List]") && same_text(to, "[Detail]")) || (same_text(from, "[Detail]")
            && same_text(to, "[List]")) {
            loops = loops + 1;
        }
        i += 1;
    }
    assert(all.take(i - 1) == all);
    let den: u64 = if n == 0 {
        0
    } else {
        (n - 1) as u64
    };
    Ratio { num: loops, den }
}

/// The path is that of a bot.
pub fn is_bot(categories: &Vec<String>) -> (r: bool)
    ensures
        r == is_bot_path(texts(categories@)),
{
    let share = loop_ratio(categories);
    categories.len() >= 6 && 5 * (share.num as u128) > 4 * (share.den as u128)
}

// ---------------------------------------------------------------------------
// Analysis
// ---------------------------------------------------------------------------

/// The traces of bots, or those of the others.
pub open spec fn of_kind(s: Seq<Trace>, bot: bool) -> Seq<Trace>
    decreases s.len(),
{
    if s.len() == 0 {
        Seq::empty()
    } else {
        let rest = of_kind(s.drop_last(), bot);
        if is_bot_path(s.last().categories) == bot {
            rest.push(s.last())
        } else {
            rest
        }
    }
}

/// What the visits of a site come to, bots and others apart.
pub struct AnalysisResult {
    pub human_transitions: TransitionTable,
    pub bot_transitions: TransitionTable,
    /// The categories, in the order of their texts.
    pub all_states: Vec<String>,
    pub human_count: usize,
    pub bot_count: usize,
    /// The traces of the visits that have one.
    pub traces: Vec<SessionTrace>,
    /// For each trace, whether it is that of a bot.
    pub is_bot: Vec<bool>,
}

proof fn lemma_kind_bound(s: Seq<Trace>, bot: bool)
    ensures
        all_steps(of_kind(s, bot)).len() <= all_categories(s).len(),
        of_kind(s, bot).len() <= s.len(),
    decreases s.len(),
{
    if s.len() > 0 {
        lemma_kind_bound(s.drop_last(), bot);
        let rest = of_kind(s.drop_last(), bot);
        if is_bot_path(s.last().categories) == bot {
            assert(rest.push(s.last()).drop_last() == rest);
        }
    }
}

proof fn lemma_categories_take(s: Seq<Trace>, i: int)
    requires
        0 <= i <= s.len(),
    ensures
        all_categories(s.take(i)).len() <= all_categories(s).len(),
    decreases s.len() - i,
{
    if i < s.len() {
        lemma_categories_take(s, i + 1);
        assert(s.take(i + 1).drop_last() == s.take(i));
    } else {
        assert(s.take(i) == s);
    }
}

/// What the visits of a site come to, bots and others apart.
pub fn analyze_sessions(log: &VisitLog) -> (r: AnalysisResult)
    requires
        log.wf(),
    ensures
        trace_views(r.traces@) == traces_of::<Pages>(log.visits(), MIN_EVENTS as nat),
        r.is_bot@ == trace_views(r.traces@).map_values(|t: Trace| is_bot_path(t.categories)),
        r.human_count == of_kind(trace_views(r.traces@), false).len(),
        r.bot_count == of_kind(trace_views(r.traces@), true).len(),
        r.human_transitions.wf(),
        r.human_transitions.entries() == tallied(
            all_steps(of_kind(trace_views(r.traces@), false)),
        ),
        r.bot_transitions.wf(),
        r.bot_transitions.entries() == tallied(all_steps(of_kind(trace_views(r.traces@), true))),
        texts(r.all_states@) == sorted(
            firsts(all_categories(trace_views(r.traces@))),
            text_order(),
        ),
{
    let traces = collect_traces::<Pages>(log, MIN_EVENTS);
    proof {
        log.lemma_countable();
        lemma_categories_bound::<Pages>(log.visits(), MIN_EVENTS as nat);
    }
    let all_states = state_names(&traces);
    let ghost s = trace_views(traces@);
    let ghost none = Seq::<(Step, nat)>::empty();
    let mut human_transitions = TransitionTable::new();
    let mut bot_transitions = TransitionTable::new();
    let mut human_count: usize = 0;
    let mut bot_count: usize = 0;
    let mut verdicts: Vec<bool> = Vec::new();
    let mut i: usize = 0;
    assert(s.take(0) == Seq::<Trace>::empty());
    while i < traces.len()
        invariant
            s == trace_views(traces@),
            none == Seq::<(Step, nat)>::empty(),
            i <= traces@.len(),
            all_categories(s).len() <= usize::MAX,
            verdicts@ == s.map_values(|t: Trace| is_bot_path(t.categories)).take(i as int),
            human_count == of_kind(s.take(i as int), false).len(),
            bot_count == of_kind(s.take(i as int), true).len(),
            human_transitions.wf(),
            human_transitions.entries() == tallied_onto(
                none,
                all_steps(of_kind(s.take(i as int), false)),
            ),
            bot_transitions.wf(),
            bot_transitions.entries() == tallied_onto(
                none,
                all_steps(of_kind(s.take(i as int), true)),
            ),
        decreases traces@.len() - i,
    {
        let path = &traces[i].categories;
        let bot = is_bot(path);
        let ghost before = of_kind(s.take(i as int), bot);
        proof {
            assert(s.take(i + 1).drop_last() == s.take(i as int));
            assert(s.take(i + 1).last() == s[i as int]);
            assert(s[i as int].categories == texts(path@));
            lemma_categories_take(s, i + 1);
            lemma_kind_bound(s.take(i as int), bot);
            assert(before.push(s[i as int]).drop_last() == before);
            law_tallied_onto(none, all_steps(before), (Seq::empty(), Seq::empty()));
            lemma_tallied_split(none, all_steps(before), steps(texts(path@)));
            let all = s.map_values(|t: Trace| is_bot_path(t.categories));
            assert(all.take(i + 1) == all.take(i as int).push(all[i as int]));
        }
        if bot {
            bot_count = bot_count + 1;
            bot_transitions.record(path);
        } else {
            human_count = human_count + 1;
            human_transitions.record(path);
        }
        verdicts.push(bot);
        i += 1;
    }
    proof {
        assert(s.take(i as int) == s);
        let all = s.map_values(|t: Trace| is_bot_path(t.categories));
        assert(all.take(i as int) == all);
    }
    AnalysisResult {
        human_transitions,
        bot_transitions,
        all_states,
        human_count,
        bot_count,
        traces,
        is_bot: verdicts,
    }
}

/// How often each category comes in a path.
pub fn category_counts(categories: &Vec<String>) -> (r: Counts)
    ensures
        r.wf(),
        r.tally() == tallied(texts(categories@)),
{
    let ghost all = texts(categories@);
    let ghost none = Seq::<(Seq<char>, nat)>::empty();
    let mut r = Counts::new();
    let n = categories.len();
    let mut i: usize = 0;
    assert(all.take(0) == Seq::<Seq<char>>::empty());
    while i < n
        invariant
            all == texts(categories@),
            none == Seq::<(Seq<char>, nat)>::empty(),
            n == categories@.len(),
            i <= n,
            r.wf(),
            r.tally() == tallied_onto(none, all.take(i as int)),
        decreases n - i,
    {
        proof {
            assert(all.take(i + 1).drop_last() == all.take(i as int));
            assert(all.take(i + 1).last() == all[i as int]);
            law_tallied_onto(none, all.take(i as int), all[i as int]);
        }
        r.add_to(categories[i].as_str(), 1);
        i += 1;
    }
    assert(all.take(i as int) == all);
    r
}

// ---------------------------------------------------------------------------
// Laws
// ---------------------------------------------------------------------------

/// No path of fewer than six pages is that of a bot, nor one that takes a step in five elsewhere.
pub proof fn law_no_hasty_verdict(path: Seq<Seq<char>>)
    requires
        is_bot_path(path),
    ensures
        path.len() >= 6,
        5 * (steps(path).len() - loop_count(steps(path))) < steps(path).len(),
{
}

/// Every trace is either that of a bot or not.
pub proof fn law_kinds_complete(s: Seq<Trace>)
    ensures
        of_kind(s, true).len() + of_kind(s, false).len() == s.len(),
        all_steps(of_kind(s, true)).len() + all_steps(of_kind(s, false)).len()
            == all_steps(s).len(),
    decreases s.len(),
{
    if s.len() > 0 {
        law_kinds_complete(s.drop_last());
        let bot = is_bot_path(s.last().categories);
        let rest = of_kind(s.drop_last(), bot);
        assert(rest.push(s.last()).drop_last() == rest);
    }
}

proof fn lemma_kind_concat(a: Seq<Trace>, b: Seq<Trace>, bot: bool)
    ensures
        of_kind(a + b, bot) == of_kind(a, bot) + of_kind(b, bot),
    decreases b.len(),
{
    if b.len() == 0 {
        assert(a + b == a);
        assert(of_kind(a, bot) + of_kind(b, bot) == of_kind(a, bot));
    } else {
        lemma_kind_concat(a, b.drop_last(), bot);
        assert((a + b).drop_last() == a + b.drop_last());
        assert((a + b).last() == b.last());
        assert(of_kind(a + b, bot) == of_kind(a, bot) + of_kind(b, bot));
    }
}

/// The order of the traces plays no part in how many are of a kind, nor in the counts of their
/// steps.
pub proof fn law_kinds_permuted(s: Seq<Trace>, t: Seq<Trace>, bot: bool)
    requires
        s.to_multiset() == t.to_multiset(),
    ensures
        of_kind(s, bot).len() == of_kind(t, bot).len(),
        tallied(all_steps(of_kind(s, bot))).to_multiset() == tallied(
            all_steps(of_kind(t, bot)),
        ).to_multiset(),
        forall|step: Step| #[trigger]
            count_of(tallied(all_steps(of_kind(s, bot))), step) == count_of(
                tallied(all_steps(of_kind(t, bot))),
                step,
            ),
{
    let number = |x: Seq<Trace>| of_kind(x, bot).len();
    assert forall|x: Seq<Trace>, y: Seq<Trace>| #[trigger]
        number(x + y) == number(x) + number(y) by {
        lemma_kind_concat(x, y, bot);
    }
    lemma_sum_permuted(number, s, t);
    let (a, b) = (all_steps(of_kind(s, bot)), all_steps(of_kind(t, bot)));
    assert forall|step: Step| #[trigger] times(a, step) == times(b, step) by {
        let f = |x: Seq<Trace>| times(all_steps(of_kind(x, bot)), step);
        assert forall|x: Seq<Trace>, y: Seq<Trace>| #[trigger] f(x + y) == f(x) + f(y) by {
            lemma_kind_concat(x, y, bot);
            lemma_steps_concat(of_kind(x, bot), of_kind(y, bot));
            lemma_times_concat(all_steps(of_kind(x, bot)), all_steps(of_kind(y, bot)), step);
        }
        lemma_sum_permuted(f, s, t);
    }
    law_tallies_agree(a, b);
}

/// The order in which visits and events are listed plays no part in what they come to, where the
/// times of the events of a visit differ: the numbers of bots and others, the counts of their
/// steps, and the categories are the same, and so is the trace of every visit and with it whether
/// it is that of a bot.
pub proof fn law_listing_order_ignored(
    v: Seq<(Seq<char>, Seq<Event>)>,
    w: Seq<(Seq<char>, Seq<Event>)>,
)
    requires
        same_visits(v, w),
    ensures
        ({
            let s = traces_of::<Pages>(v, MIN_EVENTS as nat);
            let t = traces_of::<Pages>(w, MIN_EVENTS as nat);
            &&& s.to_multiset() == t.to_multiset()
            &&& forall|bot: bool| #[trigger] of_kind(s, bot).len() == of_kind(t, bot).len()
            &&& forall|bot: bool| #[trigger]
                tallied(all_steps(of_kind(s, bot))).to_multiset() == tallied(
                    all_steps(of_kind(t, bot)),
                ).to_multiset()
            &&& forall|bot: bool, step: Step| #[trigger]
                count_of(tallied(all_steps(of_kind(s, bot))), step) == count_of(
                    tallied(all_steps(of_kind(t, bot))),
                    step,
                )
            &&& sorted(firsts(all_categories(s)), text_order()) == sorted(
                firsts(all_categories(t)),
                text_order(),
            )
        }),
        forall|i: int, j: int|
            0 <= i < v.len() && 0 <= j < w.len() && (#[trigger] v[i]).0 == (#[trigger] w[j]).0
                ==> trace_of::<Pages>(v[i].0, v[i].1, MIN_EVENTS as nat) == trace_of::<Pages>(
                w[j].0,
                w[j].1,
                MIN_EVENTS as nat,
            ),
{
    law_traces_unique::<Pages>(v, w, MIN_EVENTS as nat);
    let s = traces_of::<Pages>(v, MIN_EVENTS as nat);
    let t = traces_of::<Pages>(w, MIN_EVENTS as nat);
    law_kinds_permuted(s, t, true);
    law_kinds_permuted(s, t, false);
    law_states_permuted(s, t);
    assert forall|i: int, j: int|
        0 <= i < v.len() && 0 <= j < w.len() && (#[trigger] v[i]).0 == (#[trigger] w[j]).0 implies
    trace_of::<Pages>(v[i].0, v[i].1, MIN_EVENTS as nat) == trace_of::<Pages>(
        w[j].0,
        w[j].1,
        MIN_EVENTS as nat,
    ) by {
        law_trace_unique::<Pages>(v[i].0, v[i].1, w[j].1, MIN_EVENTS as nat);
    }
}

/// The steps counted as going back and forth are exactly those from a list to an entry and those
/// from an entry to a list.
pub proof fn law_loops_counted(s: Seq<Step>)
    ensures
        loop_count(s) == s.filter(
            |step: Step|
                (step.0 == "[List]"@ && step.1 == "[Detail]"@) || (step.0 == "[Detail]"@ && step.1
                    == "[List]"@),
        ).len(),
    decreases s.len(),
{
    reveal(Seq::filter);
    if s.len() > 0 {
        law_loops_counted(s.drop_last());
    }
}

/// Every path of six or more pages of which more than four steps in five go from a list to an entry
/// or back is that of a bot, and no other path is.
pub proof fn law_bots_told(path: Seq<Seq<char>>)
    ensures
        is_bot_path(path) <==> path.len() >= 6 && 5 * steps(path).filter(
            |step: Step|
                (step.0 == "[List]"@ && step.1 == "[Detail]"@) || (step.0 == "[Detail]"@ && step.1
                    == "[List]"@),
        ).len() > 4 * (path.len() - 1),
{
    law_loops_counted(steps(path));
}

proof fn lemma_all_loops(s: Seq<Step>)
    requires
        forall|i: int| 0 <= i < s.len() ==> is_loop(#[trigger] s[i]),
    ensures
        loop_count(s) == s.len(),
    decreases s.len(),
{
    if s.len() > 0 {
        let rest = s.drop_last();
        assert forall|i: int| 0 <= i < rest.len() implies is_loop(#[trigger] rest[i]) by {
            assert(rest[i] == s[i]);
        }
        lemma_all_loops(rest);
        assert(is_loop(s[s.len() - 1]));
    }
}

/// A path that does nothing but go back and forth between lists and entries is that of a bot at
/// every length from six on, and at none below.
pub proof fn law_alternating_is_bot(path: Seq<Seq<char>>, list_first: bool)
    requires
        forall|i: int|
            0 <= i < path.len() ==> #[trigger] path[i] == if (i % 2 == 0) == list_first {
                "[List]"@
            } else {
                "[Detail]"@
            },
    ensures
        is_bot_path(path) <==> path.len() >= 6,
{
    let s = steps(path);
    assert forall|i: int| 0 <= i < s.len() implies is_loop(#[trigger] s[i]) by {
        assert(s[i] == (path[i], path[i + 1]));
        assert((i + 1) % 2 == 0 <==> i % 2 != 0);
    }
    lemma_all_loops(s);
}

/// The path of a bot that goes on from a list to an entry or back remains that of a bot.
pub proof fn law_bot_goes_on(path: Seq<Seq<char>>, next: Seq<char>)
    requires
        is_bot_path(path),
        (path.last() == "[List]"@ && next == "[Detail]"@) || (path.last() == "[Detail]"@ && next
            == "[List]"@),
    ensures
        is_bot_path(path.push(next)),
{
    let (s, t) = (steps(path), steps(path.push(next)));
    assert(t.drop_last() == s);
    assert(t.last() == (path.last(), next));
}

/// A path without lists is never that of a bot.
pub proof fn law_no_lists_no_bot(path: Seq<Seq<char>>)
    requires
        forall|i: int| 0 <= i < path.len() ==> #[trigger] path[i] != "[List]"@,
    ensures
        !is_bot_path(path),
{
    let s = steps(path);
    assert forall|i: int| 0 <= i < s.len() implies !is_loop(#[trigger] s[i]) by {
        assert(s[i] == (path[i], path[i + 1]));
    }
    lemma_no_loops(s);
}

proof fn lemma_no_loops(s: Seq<Step>)
    requires
        forall|i: int| 0 <= i < s.len() ==> !is_loop(#[trigger] s[i]),
    ensures
        loop_count(s) == 0,
    decreases s.len(),
{
    if s.len() > 0 {
        let rest = s.drop_last();
        assert forall|i: int| 0 <= i < rest.len() implies !is_loop(#[trigger] rest[i]) by {
            assert(rest[i] == s[i]);
        }
        lemma_no_loops(rest);
        assert(!is_loop(s[s.len() - 1]));
    }
}

/// The share of a path is its steps back and forth to all its steps, as far as 64 bits count them.
pub proof fn law_share_of_loops(path: Seq<Seq<char>>)
    requires
        path.len() <= u64::MAX,
    ensures
        loop_share(path).num == loop_count(steps(path)),
        loop_share(path).num <= loop_share(path).den,
        path.len() > 0 ==> loop_share(path).den == path.len() - 1,
{
    lemma_loops_bound(steps(path));
}

proof fn lemma_loops_bound(s: Seq<Step>)
    ensures
        loop_count(s) <= s.len(),
    decreases s.len(),
{
    if s.len() > 0 {
        lemma_loops_bound(s.drop_last());
    }
}

/// The traces of a kind are all traces of that kind, in their order.
pub proof fn law_kinds_picked(s: Seq<Trace>, bot: bool)
    ensures
        of_kind(s, bot) == s.filter(|t: Trace| is_bot_path(t.categories) == bot),
    decreases s.len(),
{
    reveal(Seq::filter);
    if s.len() > 0 {
        law_kinds_picked(s.drop_last(), bot);
    } else {
        assert(of_kind(s, bot) == s.filter(|t: Trace| is_bot_path(t.categories) == bot));
    }
}

/// Every visit of three or more page views is followed, and none of fewer.
pub proof fn law_three_views_followed(visit_id: Seq<char>, events: Seq<Event>)
    ensures
        trace_of::<Pages>(visit_id, events, MIN_EVENTS as nat) is Some <==> events.len() >= 3,
{
    lemma_timeline(events);
    law_trace_complete(timeline(events));
}

} // verus!
