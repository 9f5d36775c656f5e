//! The column layout of the piecewise-linear seasonal forecaster's design matrix.
//!
//! Columns come in a fixed order: intercept and slope, one per changepoint, the
//! yearly, weekly and daily Fourier pairs, the pairs of each custom seasonality,
//! one per event term, and one per extra regressor.
use vstd::prelude::*;
use crate::lex::{
    insert_name, lemma_lex_asymmetric, lemma_lex_irreflexive, lemma_lex_total, lemma_lex_transitive, lex_increasing,
    lex_lt, name_views, str_lt,
};
use crate::piecewise::{EventFacts, MonotonicConstraint, PiecewiseConfigFacts, SeasonalityFacts};

verus! {

/// One event column: an event's name and a day offset from the event.
#[derive(Debug, Clone, PartialEq, Eq)]
pub struct PiecewiseEventTerm {
    pub name: String,
    pub offset: i32,
}

/// Event terms order by name, then by offset.
pub open spec fn term_lt(a: (Seq<char>, i32), b: (Seq<char>, i32)) -> bool {
    lex_lt(a.0, b.0) || (a.0 == b.0 && a.1 < b.1)
}

/// The terms as name and offset.
pub open spec fn term_views(terms: Seq<PiecewiseEventTerm>) -> Seq<(Seq<char>, i32)> {
    terms.map_values(|t: PiecewiseEventTerm| (t.name@, t.offset))
}

/// Each term sorts strictly before the ones after it.
pub open spec fn terms_increasing(s: Seq<(Seq<char>, i32)>) -> bool {
    forall|i: int, j: int| 0 <= i < j < s.len() ==> term_lt(#[trigger] s[i], #[trigger] s[j])
}

/// Some event of that name has the offset inside its window.
pub open spec fn covers_term(events: Seq<EventFacts>, t: (Seq<char>, i32)) -> bool {
    exists|k: int|
        0 <= k < events.len() && (#[trigger] events[k]).name@ == t.0 && events[k].lower_window <= t.1
            <= events[k].upper_window
}

/// Every term that some event's window covers.
pub open spec fn event_term_set(events: Seq<EventFacts>) -> Set<(Seq<char>, i32)> {
    Set::new(|t: (Seq<char>, i32)| covers_term(events, t))
}

/// The event terms in column order: the covered terms, each once, sorted.
pub open spec fn event_terms_of(events: Seq<EventFacts>) -> Seq<(Seq<char>, i32)> {
    choose|s: Seq<(Seq<char>, i32)>| terms_increasing(s) && s.to_set() == event_term_set(events)
}

proof fn lemma_term_irreflexive(a: (Seq<char>, i32))
    ensures
        !term_lt(a, a),
{
    lemma_lex_irreflexive(a.0);
}

proof fn lemma_term_transitive(a: (Seq<char>, i32), b: (Seq<char>, i32), c: (Seq<char>, i32))
    requires
        term_lt(a, b),
        term_lt(b, c),
    ensures
        term_lt(a, c),
{
    if lex_lt(a.0, b.0) && lex_lt(b.0, c.0) {
        lemma_lex_transitive(a.0, b.0, c.0);
    }
}

proof fn lemma_term_total(a: (Seq<char>, i32), b: (Seq<char>, i32))
    ensures
        a == b || term_lt(a, b) || term_lt(b, a),
{
    lemma_lex_total(a.0, b.0);
}

proof fn lemma_term_asymmetric(a: (Seq<char>, i32), b: (Seq<char>, i32))
    ensures
        !(term_lt(a, b) && term_lt(b, a)),
{
    lemma_lex_asymmetric(a.0, b.0);
    lemma_lex_irreflexive(a.0);
}

/// Two sorted term lists with the same terms are the same list.
pub proof fn lemma_terms_unique(a: Seq<(Seq<char>, i32)>, b: Seq<(Seq<char>, i32)>)
    requires
        terms_increasing(a),
        terms_increasing(b),
        a.to_set() == b.to_set(),
    ensures
        a == b,
    decreases a.len(),
{
    if a.len() == 0 {
        if b.len() > 0 {
            assert(b.to_set().contains(b[0]));
        }
    } else if b.len() == 0 {
        assert(a.to_set().contains(a[0]));
    } else {
        let x = a.last();
        let y = b.last();
        assert(a.to_set().contains(x));
        assert(b.to_set().contains(y));
        assert(b.contains(x));
        assert(a.contains(y));
        let kx = choose|k: int| 0 <= k < b.len() && b[k] == x;
        let ky = choose|k: int| 0 <= k < a.len() && a[k] == y;
        assert(x == y) by {
            lemma_term_total(x, y);
            if term_lt(x, y) {
                if ky < a.len() - 1 {
                    assert(term_lt(a[ky], a[a.len() - 1]));
                    lemma_term_asymmetric(x, y);
                } else {
                    lemma_term_irreflexive(x);
                }
            } else if term_lt(y, x) {
                if kx < b.len() - 1 {
                    assert(term_lt(b[kx], b[b.len() - 1]));
                    lemma_term_asymmetric(x, y);
                } else {
                    lemma_term_irreflexive(y);
                }
            }
        }
        let a2 = a.drop_last();
        let b2 = b.drop_last();
        assert(a2.to_set() =~= b2.to_set()) by {
            assert forall|z: (Seq<char>, i32)| a2.to_set().contains(z) implies b2.to_set().contains(z) by {
                let k = choose|k: int| 0 <= k < a2.len() && a2[k] == z;
                assert(term_lt(a[k], a[a.len() - 1]));
                assert(a.to_set().contains(z));
                let m = choose|m: int| 0 <= m < b.len() && b[m] == z;
                if m == b.len() - 1 {
                    lemma_term_irreflexive(z);
                }
                assert(b2[m] == z);
            }
            assert forall|z: (Seq<char>, i32)| b2.to_set().contains(z) implies a2.to_set().contains(z) by {
                let k = choose|k: int| 0 <= k < b2.len() && b2[k] == z;
                assert(term_lt(b[k], b[b.len() - 1]));
                assert(b.to_set().contains(z));
                let m = choose|m: int| 0 <= m < a.len() && a[m] == z;
                if m == a.len() - 1 {
                    lemma_term_irreflexive(z);
                }
                assert(a2[m] == z);
            }
        }
        lemma_terms_unique(a2, b2);
        assert(a =~= a2.push(x));
        assert(b =~= b2.push(y));
    }
}

fn term_less(a: &PiecewiseEventTerm, b: &PiecewiseEventTerm) -> (less: bool)
    ensures
        less == term_lt((a.name@, a.offset), (b.name@, b.offset)),
{
    if str_lt(a.name.as_str(), b.name.as_str()) {
        return true;
    }
    if str_lt(b.name.as_str(), a.name.as_str()) {
        proof {
            lemma_lex_asymmetric(a.name@, b.name@);
            lemma_lex_irreflexive(a.name@);
        }
        return false;
    }
    proof {
        lemma_lex_total(a.name@, b.name@);
    }
    a.offset < b.offset
}

/// Inserts a term into a sorted term list unless it is already there.
fn insert_term(terms: &mut Vec<PiecewiseEventTerm>, term: PiecewiseEventTerm)
    requires
        terms_increasing(term_views(old(terms)@)),
    ensures
        terms_increasing(term_views(final(terms)@)),
        term_views(final(terms)@).to_set() == term_views(old(terms)@).to_set().insert(
            (term.name@, term.offset),
        ),
{
    let ghost before = term_views(terms@);
    let ghost v = (term.name@, term.offset);
    let mut position: usize = 0;
    while position < terms.len() && term_less(&terms[position], &term)
        invariant
            position <= terms.len(),
            term_views(terms@) == before,
            terms_increasing(before),
            v == (term.name@, term.offset),
            forall|i: int| 0 <= i < position ==> term_lt(#[trigger] before[i], v),
        decreases terms.len() - position,
    {
        assert(before[position as int] == (terms@[position as int].name@, terms@[position as int].offset));
        position = position + 1;
    }
    if position < terms.len() && !term_less(&term, &terms[position]) {
        proof {
            lemma_term_total(before[position as int], v);
        }
        assert(before.to_set().insert(v) =~= before.to_set()) by {
            assert(before.contains(v)) by {
                assert(before[position as int] == v);
            }
        }
        return;
    }
    let ghost old_terms = terms@;
    terms.insert(position, term);
    let ghost after = term_views(terms@);
    assert(after =~= before.subrange(0, position as int).push(v) + before.subrange(
        position as int,
        before.len() as int,
    )) by {
        assert(terms@ =~= old_terms.subrange(0, position as int).push(term) + old_terms.subrange(
            position as int,
            old_terms.len() as int,
        ));
    }
    assert forall|i: int, j: int| 0 <= i < j < after.len() implies term_lt(
        #[trigger] after[i],
        #[trigger] after[j],
    ) by {
        if j < position {
        } else if j == position {
        } else if i < position {
            assert(after[j] == before[j - 1]);
            if position < before.len() {
                lemma_term_transitive(before[i], v, before[position as int]);
                if j - 1 > position {
                    lemma_term_transitive(before[i], before[position as int], before[j - 1]);
                }
            }
            if i != j - 1 {
                assert(term_lt(before[i], before[j - 1]));
            }
        } else if i == position {
            assert(after[j] == before[j - 1]);
            assert(term_lt(v, before[position as int]));
            if j - 1 > position {
                lemma_term_transitive(v, before[position as int], before[j - 1]);
            }
        } else {
            assert(after[i] == before[i - 1]);
            assert(after[j] == before[j - 1]);
        }
    }
    assert(after.to_set() =~= before.to_set().insert(v)) by {
        assert forall|x: (Seq<char>, i32)| after.to_set().contains(x) implies before.to_set().insert(
            v,
        ).contains(x) by {
            let k = choose|k: int| 0 <= k < after.len() && after[k] == x;
            if k < position {
                assert(before[k] == x);
            } else if k > position {
                assert(before[k - 1] == x);
            }
        }
        assert forall|x: (Seq<char>, i32)| before.to_set().insert(v).contains(x) implies after.to_set().contains(
            x,
        ) by {
            if x == v {
                assert(after[position as int] == v);
            } else {
                let k = choose|k: int| 0 <= k < before.len() && before[k] == x;
                if k < position {
                    assert(after[k] == x);
                } else {
                    assert(after[k + 1] == x);
                }
            }
        }
    }
}

/// The event terms of the configuration in column order: for each event and
/// each day offset in its window, the term (name, offset), sorted by name and
/// then offset, each term once.
pub fn piecewise_event_terms(config: &PiecewiseConfigFacts) -> (terms: Vec<PiecewiseEventTerm>)
    ensures
        terms_increasing(term_views(terms@)),
        term_views(terms@).to_set() == event_term_set(config.events@),
        term_views(terms@) == event_terms_of(config.events@),
{
    let events = &config.events;
    let mut terms: Vec<PiecewiseEventTerm> = Vec::new();
    let mut i: usize = 0;
    while i < events.len()
        invariant
            i <= events.len(),
            terms_increasing(term_views(terms@)),
            term_views(terms@).to_set() == event_term_set(events@.take(i as int)),
        decreases events.len() - i,
    {
        let event = &events[i];
        let lower = event.lower_window as i64;
        let upper = event.upper_window as i64;
        let mut offset: i64 = lower;
        assert(term_views(terms@).to_set() =~= event_term_set(events@.take(i as int)).union(
            Set::new(|t: (Seq<char>, i32)| t.0 == event.name@ && lower <= t.1 < offset),
        ));
        while offset <= upper
            invariant
                i < events.len(),
                event == events@[i as int],
                lower == event.lower_window,
                upper == event.upper_window,
                lower <= offset,
                offset <= upper + 1 || offset == lower,
                terms_increasing(term_views(terms@)),
                term_views(terms@).to_set() == event_term_set(events@.take(i as int)).union(
                    Set::new(|t: (Seq<char>, i32)| t.0 == event.name@ && lower <= t.1 < offset),
                ),
            decreases upper + 1 - offset,
        {
            let ghost before = term_views(terms@).to_set();
            let term = PiecewiseEventTerm { name: event.name.clone(), offset: offset as i32 };
            insert_term(&mut terms, term);
            let ghost v = (event.name@, offset as i32);
            offset = offset + 1;
            assert(term_views(terms@).to_set() =~= event_term_set(events@.take(i as int)).union(
                Set::new(|t: (Seq<char>, i32)| t.0 == event.name@ && lower <= t.1 < offset),
            )) by {
                assert(before.insert(v) =~= event_term_set(events@.take(i as int)).union(
                    Set::new(|t: (Seq<char>, i32)| t.0 == event.name@ && lower <= t.1 < offset),
                ));
            }
        }
        assert(term_views(terms@).to_set() =~= event_term_set(events@.take(i + 1))) by {
            let prev = events@.take(i as int);
            let next = events@.take(i + 1);
            assert forall|t: (Seq<char>, i32)| covers_term(next, t) implies term_views(terms@).to_set().contains(
                t,
            ) by {
                let k = choose|k: int|
                    0 <= k < next.len() && (#[trigger] next[k]).name@ == t.0 && next[k].lower_window
                        <= t.1 <= next[k].upper_window;
                if k < i {
                    assert(prev[k] == next[k]);
                    assert(covers_term(prev, t));
                    assert(event_term_set(prev).contains(t));
                }
            }
            assert forall|t: (Seq<char>, i32)| term_views(terms@).to_set().contains(t) implies covers_term(
                next,
                t,
            ) by {
                if event_term_set(prev).contains(t) {
                    let k = choose|k: int|
                        0 <= k < prev.len() && (#[trigger] prev[k]).name@ == t.0 && prev[k].lower_window
                            <= t.1 <= prev[k].upper_window;
                    assert(next[k] == prev[k]);
                } else {
                    assert(next[i as int] == event);
                    assert(t.0 == event.name@ && lower <= t.1 < offset);
                    assert(next[i as int].name@ == t.0 && next[i as int].lower_window <= t.1
                        <= next[i as int].upper_window);
                }
            }
        }
        i = i + 1;
    }
    assert(events@.take(events@.len() as int) =~= events@);
    proof {
        let s = term_views(terms@);
        assert(terms_increasing(s) && s.to_set() == event_term_set(config.events@));
        let c = event_terms_of(config.events@);
        lemma_terms_unique(s, c);
    }
    terms
}

/// The summed Fourier orders of the custom seasonalities.
pub open spec fn custom_fourier_total(items: Seq<SeasonalityFacts>) -> int
    decreases items.len(),
{
    if items.len() == 0 {
        0
    } else {
        custom_fourier_total(items.drop_last()) + items.last().fourier_order
    }
}

/// The first column of the extra regressors: everything before them.
pub open spec fn extra_regressor_start(c: PiecewiseConfigFacts, changepoint_count: int) -> int {
    2 + changepoint_count + 2 * c.yearly_fourier_order + 2 * c.weekly_fourier_order + 2
        * c.daily_fourier_order + 2 * custom_fourier_total(c.custom_seasonalities@)
        + event_terms_of(c.events@).len()
}

/// The number of columns of the design.
pub open spec fn feature_count(c: PiecewiseConfigFacts, changepoint_count: int) -> int {
    extra_regressor_start(c, changepoint_count) + c.extra_regressors.len()
}

/// The direction configured for a regressor, or 0 where none is; the
/// constraints come from a map, so each name occurs once.
pub open spec fn constraint_for(items: Seq<MonotonicConstraint>, name: Seq<char>) -> i8
    decreases items.len(),
{
    if items.len() == 0 {
        0
    } else if items[0].name@ == name {
        items[0].direction
    } else {
        constraint_for(items.drop_first(), name)
    }
}

proof fn lemma_custom_prefix(items: Seq<SeasonalityFacts>, k: int)
    requires
        0 <= k <= items.len(),
    ensures
        0 <= custom_fourier_total(items.take(k)) <= custom_fourier_total(items),
    decreases items.len(),
{
    if k == items.len() {
        assert(items.take(k) =~= items);
        if items.len() > 0 {
            lemma_custom_prefix(items.drop_last(), k - 1);
        }
    } else {
        lemma_custom_prefix(items.drop_last(), k);
        assert(items.drop_last().take(k) =~= items.take(k));
    }
}

fn custom_fourier_columns(items: &Vec<SeasonalityFacts>, bound: usize) -> (total: usize)
    requires
        custom_fourier_total(items@) <= bound,
    ensures
        total == custom_fourier_total(items@),
{
    let mut total: usize = 0;
    let mut k: usize = 0;
    while k < items.len()
        invariant
            k <= items.len(),
            custom_fourier_total(items@) <= bound,
            total == custom_fourier_total(items@.take(k as int)),
        decreases items.len() - k,
    {
        proof {
            lemma_custom_prefix(items@, k + 1);
            assert(items@.take(k + 1).drop_last() =~= items@.take(k as int));
        }
        total = total + items[k].fourier_order;
        k = k + 1;
    }
    assert(items@.take(items@.len() as int) =~= items@);
    total
}

/// The first column of the extra regressors.
pub fn piecewise_extra_regressor_start_col(config: &PiecewiseConfigFacts, changepoint_count: usize) -> (start:
    usize)
    requires
        extra_regressor_start(*config, changepoint_count as int) <= usize::MAX,
    ensures
        start == extra_regressor_start(*config, changepoint_count as int),
{
    proof {
        lemma_custom_prefix(config.custom_seasonalities@, 0);
        assert(config.custom_seasonalities@.take(0) =~= Seq::<SeasonalityFacts>::empty());
    }
    let custom = custom_fourier_columns(&config.custom_seasonalities, usize::MAX);
    let terms = piecewise_event_terms(config);
    assert(terms@.len() == term_views(terms@).len());
    2 + changepoint_count + 2 * config.yearly_fourier_order + 2 * config.weekly_fourier_order + 2
        * config.daily_fourier_order + 2 * custom + terms.len()
}

/// The number of columns of the design.
pub fn piecewise_linear_seasonal_feature_count(config: &PiecewiseConfigFacts, changepoint_count: usize) -> (count:
    usize)
    requires
        feature_count(*config, changepoint_count as int) <= usize::MAX,
    ensures
        count == feature_count(*config, changepoint_count as int),
{
    let start = piecewise_extra_regressor_start_col(config, changepoint_count);
    start + config.extra_regressors.len()
}

fn constraint_lookup(items: &Vec<MonotonicConstraint>, name: &String) -> (direction: i8)
    ensures
        direction == constraint_for(items@, name@),
{
    let mut k: usize = 0;
    assert(items@.skip(0) =~= items@);
    while k < items.len()
        invariant
            k <= items.len(),
            constraint_for(items@.skip(k as int), name@) == constraint_for(items@, name@),
        decreases items.len() - k,
    {
        assert(items@.skip(k as int).drop_first() =~= items@.skip(k + 1));
        if items[k].name == *name {
            return items[k].direction;
        }
        k = k + 1;
    }
    assert(items@.skip(k as int) =~= Seq::<MonotonicConstraint>::empty());
    0
}

/// The sign constraint of each coefficient: an extra regressor's column carries
/// the direction configured for it, every other column 0.
pub fn piecewise_linear_coefficient_monotonic_constraints(config: &PiecewiseConfigFacts, changepoint_count: usize) -> (constraints:
    Vec<i8>)
    requires
        feature_count(*config, changepoint_count as int) <= usize::MAX,
    ensures
        constraints@.len() == feature_count(*config, changepoint_count as int),
        forall|j: int|
            0 <= j < constraints@.len() ==> #[trigger] constraints@[j] == if extra_regressor_start(
                *config,
                changepoint_count as int,
            ) <= j {
                constraint_for(
                    config.monotonic_constraints@,
                    config.extra_regressors@[j - extra_regressor_start(*config, changepoint_count as int)]@,
                )
            } else {
                0
            },
{
    let count = piecewise_linear_seasonal_feature_count(config, changepoint_count);
    let start = piecewise_extra_regressor_start_col(config, changepoint_count);
    let mut constraints: Vec<i8> = Vec::new();
    let mut j: usize = 0;
    while j < count
        invariant
            j <= count,
            count == start + config.extra_regressors@.len(),
            start == extra_regressor_start(*config, changepoint_count as int),
            constraints@.len() == j,
            forall|m: int|
                0 <= m < j ==> #[trigger] constraints@[m] == if start <= m {
                    constraint_for(config.monotonic_constraints@, config.extra_regressors@[m - start]@)
                } else {
                    0
                },
        decreases count - j,
    {
        if j < start {
            constraints.push(0);
        } else {
            let direction = constraint_lookup(&config.monotonic_constraints, &config.extra_regressors[j - start]);
            constraints.push(direction);
        }
        j = j + 1;
    }
    constraints
}

/// An event seen from one timestamp: its name and window, and how many whole
/// days the timestamp's date lies after the event's date.
#[derive(Debug, Clone, PartialEq, Eq)]
pub struct EventDistance {
    pub name: String,
    pub lower_window: i32,
    pub upper_window: i32,
    pub days_after: i64,
}

/// An event term's column is set where an event of the term's name lies
/// exactly the term's offset days before, inside that event's window.
pub open spec fn term_active(term: (Seq<char>, i32), events: Seq<EventDistance>) -> bool {
    exists|k: int|
        0 <= k < events.len() && (#[trigger] events[k]).name@ == term.0 && events[k].days_after == term.1
            && events[k].lower_window <= events[k].days_after <= events[k].upper_window
}

/// Whether an event term's column is set at a timestamp.
pub fn event_term_is_active(term: &PiecewiseEventTerm, events: &Vec<EventDistance>) -> (active: bool)
    ensures
        active == term_active((term.name@, term.offset), events@),
{
    let mut k: usize = 0;
    while k < events.len()
        invariant
            k <= events.len(),
            forall|m: int|
                0 <= m < k ==> !((#[trigger] events@[m]).name@ == term.name@ && events@[m].days_after
                    == term.offset && events@[m].lower_window <= events@[m].days_after
                    <= events@[m].upper_window),
        decreases events.len() - k,
    {
        let event = &events[k];
        if event.name == term.name && event.days_after == term.offset as i64 && event.lower_window as i64
            <= event.days_after && event.days_after <= event.upper_window as i64 {
            return true;
        }
        k = k + 1;
    }
    false
}

/// Some event has this name.
pub open spec fn names_an_event(events: Seq<EventFacts>, name: Seq<char>) -> bool {
    exists|k: int| 0 <= k < events.len() && (#[trigger] events[k]).name@ == name
}

/// The distinct names of the configuration's events, sorted.
pub fn piecewise_event_names(config: &PiecewiseConfigFacts) -> (names: Vec<String>)
    ensures
        lex_increasing(name_views(names@)),
        forall|s: Seq<char>| name_views(names@).contains(s) <==> names_an_event(config.events@, s),
{
    let events = &config.events;
    let mut names: Vec<String> = Vec::new();
    let mut i: usize = 0;
    while i < events.len()
        invariant
            i <= events.len(),
            lex_increasing(name_views(names@)),
            forall|s: Seq<char>| name_views(names@).to_set().contains(s) <==> names_an_event(events@.take(i as int), s),
        decreases events.len() - i,
    {
        let ghost before = name_views(names@).to_set();
        insert_name(&mut names, events[i].name.clone());
        proof {
            let prev = events@.take(i as int);
            let next = events@.take(i + 1);
            assert forall|s: Seq<char>| name_views(names@).to_set().contains(s) <==> names_an_event(next, s) by {
                if names_an_event(next, s) {
                    let k = choose|k: int| 0 <= k < next.len() && (#[trigger] next[k]).name@ == s;
                    if k < i {
                        assert(prev[k] == next[k]);
                        assert(names_an_event(prev, s));
                    }
                }
                if before.contains(s) {
                    let k = choose|k: int| 0 <= k < prev.len() && (#[trigger] prev[k]).name@ == s;
                    assert(next[k] == prev[k]);
                }
                if s == events@[i as int].name@ {
                    assert(next[i as int] == events@[i as int]);
                }
            }
        }
        i = i + 1;
    }
    assert(events@.take(events@.len() as int) =~= events@);
    assert forall|s: Seq<char>| name_views(names@).contains(s) <==> names_an_event(config.events@, s) by {
        assert(name_views(names@).to_set().contains(s) == name_views(names@).contains(s));
    }
    names
}

/// The Fourier orders of the built-in yearly, weekly and daily seasonalities.
#[derive(Debug, Clone, Copy, PartialEq, Eq, Structural)]
pub struct FourierOrders {
    pub yearly: usize,
    pub weekly: usize,
    pub daily: usize,
}

/// Seconds in 730 days: the training span from which the yearly seasonality
/// switches on automatically.
pub const YEARLY_AUTO_SPAN_SECONDS: i64 = 63_072_000;

/// Seconds in 14 days: the training span from which the weekly seasonality
/// switches on automatically.
pub const WEEKLY_AUTO_SPAN_SECONDS: i64 = 1_209_600;

/// Seconds in 2 days: the training span from which the daily seasonality
/// switches on automatically.
pub const DAILY_AUTO_SPAN_SECONDS: i64 = 172_800;

/// The orders after the automatic seasonalities are resolved against the
/// training span (`None` for a frame without rows): an automatic seasonality
/// whose order is 0 gets order 10 (yearly, from two years of span), 3 (weekly,
/// for daily or hourly data, from two weeks) or 4 (daily, for hourly data,
/// from two days).
pub open spec fn resolved_orders(
    orders: FourierOrders,
    auto_yearly: bool,
    auto_weekly: bool,
    auto_daily: bool,
    daily_or_hourly: bool,
    hourly: bool,
    span_seconds: Option<i64>,
) -> FourierOrders {
    match span_seconds {
        None => orders,
        Some(span) => FourierOrders {
            yearly: if auto_yearly && orders.yearly == 0 && span >= YEARLY_AUTO_SPAN_SECONDS {
                10
            } else {
                orders.yearly
            },
            weekly: if auto_weekly && orders.weekly == 0 && daily_or_hourly && span >= WEEKLY_AUTO_SPAN_SECONDS {
                3
            } else {
                orders.weekly
            },
            daily: if auto_daily && orders.daily == 0 && hourly && span >= DAILY_AUTO_SPAN_SECONDS {
                4
            } else {
                orders.daily
            },
        },
    }
}

/// Resolves the automatic seasonalities of a piecewise-linear seasonal
/// configuration against the training data: `daily_or_hourly` and `hourly`
/// say what the frame's frequency is, `span_seconds` how many whole seconds
/// lie between its first and last timestamp (`None` when it has no rows).
pub fn resolve_piecewise_auto_seasonalities(
    orders: FourierOrders,
    auto_yearly: bool,
    auto_weekly: bool,
    auto_daily: bool,
    daily_or_hourly: bool,
    hourly: bool,
    span_seconds: Option<i64>,
) -> (resolved: FourierOrders)
    ensures
        resolved == resolved_orders(orders, auto_yearly, auto_weekly, auto_daily, daily_or_hourly, hourly, span_seconds),
        !hourly ==> resolved.daily == orders.daily,
        !daily_or_hourly ==> resolved.weekly == orders.weekly,
{
    proof {
        lemma_auto_seasonalities(orders, auto_yearly, auto_weekly, auto_daily, daily_or_hourly, hourly, span_seconds);
    }
    let span = match span_seconds {
        None => {
            return orders;
        },
        Some(span) => span,
    };
    let mut resolved = orders;
    if auto_yearly && orders.yearly == 0 && span >= YEARLY_AUTO_SPAN_SECONDS {
        resolved.yearly = 10;
    }
    if auto_weekly && orders.weekly == 0 && daily_or_hourly && span >= WEEKLY_AUTO_SPAN_SECONDS {
        resolved.weekly = 3;
    }
    if auto_daily && orders.daily == 0 && hourly && span >= DAILY_AUTO_SPAN_SECONDS {
        resolved.daily = 4;
    }
    resolved
}

/// What resolving the automatic seasonalities does: a seasonality that is not
/// automatic, or already has an order, keeps its order, and so does each
/// seasonality when the frame has no rows; the daily seasonality switches on
/// (order 4) only for hourly data spanning at least two days (172 800 s), the
/// weekly one (order 3) only for daily or hourly data spanning at least two
/// weeks (1 209 600 s), the yearly one (order 10) for any data spanning at
/// least 730 days (63 072 000 s); otherwise each keeps its order.
pub proof fn lemma_auto_seasonalities(
    orders: FourierOrders,
    auto_yearly: bool,
    auto_weekly: bool,
    auto_daily: bool,
    daily_or_hourly: bool,
    hourly: bool,
    span_seconds: Option<i64>,
)
    ensures
        ({
            let r = resolved_orders(orders, auto_yearly, auto_weekly, auto_daily, daily_or_hourly, hourly, span_seconds);
            &&& span_seconds is None ==> r == orders
            &&& !auto_yearly || orders.yearly != 0 ==> r.yearly == orders.yearly
            &&& !auto_weekly || orders.weekly != 0 || !daily_or_hourly ==> r.weekly == orders.weekly
            &&& !auto_daily || orders.daily != 0 || !hourly ==> r.daily == orders.daily
            &&& span_seconds matches Some(span) ==> {
                &&& (auto_yearly && orders.yearly == 0 && span >= 63_072_000 ==> r.yearly == 10)
                &&& (span < 63_072_000 ==> r.yearly == orders.yearly)
                &&& (auto_weekly && orders.weekly == 0 && daily_or_hourly && span >= 1_209_600 ==> r.weekly == 3)
                &&& (span < 1_209_600 ==> r.weekly == orders.weekly)
                &&& (auto_daily && orders.daily == 0 && hourly && span >= 172_800 ==> r.daily == 4)
                &&& (span < 172_800 ==> r.daily == orders.daily)
            }
        }),
{
}

} // verus!
