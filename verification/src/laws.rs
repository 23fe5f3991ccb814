//! What holds of every machine description and of every run.

use vstd::prelude::*;
use vstd::seq_lib::{lemma_no_dup_in_concat, lemma_seq_contains_after_push};
use crate::machine::{
    distinct, function, header, missing, missing_in_state, parsed, parsed_deterministic, relation,
    total, well_formed, ParseErrorView,
};
use crate::multi::{all_halted, round, successors};
use crate::rule::{
    add_rule, applies, assign, defined, expand, first_at, insert_rule, is_first_at, reading,
    rule_of, single_valued, RuleView,
};
use crate::single::{image, next};
use crate::tape::{moved, ConfigurationView};
use crate::text::{data_lines, words};
use crate::token::{blank_name, halt_name, start_name, wildcard_name, Direction};

verus! {

/// A sequence holds what it held before its last item, and that item.
pub proof fn lemma_contains_last<A>(s: Seq<A>, x: A)
    requires
        s.len() > 0,
    ensures
        s.contains(x) <==> (s.drop_last().contains(x) || x == s.last()),
{
    assert(s =~= s.drop_last().push(s.last()));
    lemma_seq_contains_after_push(s.drop_last(), s.last(), x);
}

/// A sequence without repetitions stays so when it gets an item that it lacks.
pub proof fn lemma_push_fresh<A>(s: Seq<A>, x: A)
    requires
        s.no_duplicates(),
        !s.contains(x),
    ensures
        s.push(x).no_duplicates(),
{
    assert forall|i: int, j: int|
        0 <= i < s.push(x).len() && 0 <= j < s.push(x).len() && i != j implies s.push(x)[i]
        != s.push(x)[j] by {
        if i < s.len() {
            assert(s.contains(s[i]));
        }
        if j < s.len() {
            assert(s.contains(s[j]));
        }
    }
}

/// What two sequences joined hold is what either holds.
pub proof fn lemma_contains_concat<A>(a: Seq<A>, b: Seq<A>, x: A)
    ensures
        (a + b).contains(x) <==> (a.contains(x) || b.contains(x)),
{
    if a.contains(x) {
        let i = choose|i: int| 0 <= i < a.len() && a[i] == x;
        assert((a + b)[i] == x);
    }
    if b.contains(x) {
        let i = choose|i: int| 0 <= i < b.len() && b[i] == x;
        assert((a + b)[a.len() + i] == x);
    }
    if (a + b).contains(x) {
        let i = choose|i: int| 0 <= i < (a + b).len() && (a + b)[i] == x;
        if i < a.len() {
            assert(a[i] == x);
        } else {
            assert(b[i - a.len()] == x);
        }
    }
}

/// A table has a rule for a state and a symbol when it had one before its
/// last rule, or when its last rule applies.
pub proof fn lemma_defined_push(delta: Seq<RuleView>, r: RuleView, state: Seq<char>, symbol: Seq<char>)
    ensures
        defined(delta.push(r), state, symbol) <==> (defined(delta, state, symbol) || applies(
            r,
            state,
            symbol,
        )),
{
    let d = delta.push(r);
    if defined(delta, state, symbol) {
        let i = choose|i: int| 0 <= i < delta.len() && applies(#[trigger] delta[i], state, symbol);
        assert(applies(d[i], state, symbol));
    }
    if applies(r, state, symbol) {
        assert(applies(d[delta.len() as int], state, symbol));
    }
    if defined(d, state, symbol) {
        let i = choose|i: int| 0 <= i < d.len() && applies(#[trigger] d[i], state, symbol);
        if i < delta.len() {
            assert(applies(delta[i], state, symbol));
        }
    }
}

/// A table that holds a rule has a rule for that rule's state and symbol.
pub proof fn lemma_contains_defined(delta: Seq<RuleView>, r: RuleView)
    requires
        delta.contains(r),
    ensures
        defined(delta, r.from, r.read),
{
    let i = choose|i: int| 0 <= i < delta.len() && delta[i] == r;
    assert(applies(delta[i], r.from, r.read));
}

/// Σ, Γ and Q hold each member once: `distinct(s)` has no repetitions and
/// holds exactly the names that `s` holds.
pub proof fn lemma_distinct(s: Seq<Seq<char>>)
    ensures
        distinct(s).no_duplicates(),
        forall|x: Seq<char>| distinct(s).contains(x) <==> s.contains(x),
    decreases s.len(),
{
    if s.len() > 0 {
        let d = distinct(s.drop_last());
        lemma_distinct(s.drop_last());
        if !d.contains(s.last()) {
            lemma_push_fresh(d, s.last());
        }
        assert forall|x: Seq<char>| distinct(s).contains(x) <==> s.contains(x) by {
            lemma_contains_last(s, x);
            lemma_seq_contains_after_push(d, s.last(), x);
        }
    }
}

/// The sets of a description that has a well-formed head hold no name twice.
pub proof fn lemma_header_sets(lines: Seq<Seq<char>>)
    ensures
        match header(lines) {
            Ok(h) => h.0.no_duplicates() && h.1.no_duplicates() && h.2.no_duplicates(),
            Err(_) => true,
        },
{
    if lines.len() >= 3 {
        lemma_distinct(words(lines[0]));
        lemma_distinct(words(lines[1]));
        lemma_distinct(words(lines[2]));
    }
}

/// The gaps of one state: `p` is listed exactly when it pairs that state
/// with a symbol of `gamma` for which the table has no rule; and where
/// `gamma` has no repetitions, no pair is listed twice.
pub proof fn lemma_missing_in_state(
    delta: Seq<RuleView>,
    state: Seq<char>,
    gamma: Seq<Seq<char>>,
    p: (Seq<char>, Seq<char>),
)
    ensures
        missing_in_state(delta, state, gamma).contains(p) <==> (p.0 == state && gamma.contains(p.1)
            && !defined(delta, state, p.1)),
        gamma.no_duplicates() ==> missing_in_state(delta, state, gamma).no_duplicates(),
    decreases gamma.len(),
{
    if gamma.len() > 0 {
        let g = gamma.drop_last();
        let m = missing_in_state(delta, state, g);
        lemma_missing_in_state(delta, state, g, p);
        lemma_contains_last(gamma, p.1);
        lemma_seq_contains_after_push(m, (state, gamma.last()), p);
        if gamma.no_duplicates() {
            assert(g.no_duplicates());
            lemma_missing_in_state(delta, state, g, (state, gamma.last()));
            assert(!g.contains(gamma.last())) by {
                if g.contains(gamma.last()) {
                    let i = choose|i: int| 0 <= i < g.len() && g[i] == gamma.last();
                    assert(gamma[i] == gamma[gamma.len() - 1]);
                }
            }
            lemma_push_fresh(m, (state, gamma.last()));
        }
    }
}

/// Totality goes pair by pair: `p` is reported missing exactly when it
/// pairs a state of `q` other than the halt state with a symbol of `gamma`
/// and the table has no rule for it; and where neither `q` nor `gamma` has
/// repetitions, every missing pair is reported exactly once.
pub proof fn lemma_missing(
    delta: Seq<RuleView>,
    q: Seq<Seq<char>>,
    gamma: Seq<Seq<char>>,
    p: (Seq<char>, Seq<char>),
)
    ensures
        missing(delta, q, gamma).contains(p) <==> (q.contains(p.0) && p.0 != halt_name()
            && gamma.contains(p.1) && !defined(delta, p.0, p.1)),
        q.no_duplicates() && gamma.no_duplicates() ==> missing(delta, q, gamma).no_duplicates(),
    decreases q.len(),
{
    if q.len() > 0 {
        let qs = q.drop_last();
        let m = missing(delta, qs, gamma);
        let n = missing_in_state(delta, q.last(), gamma);
        lemma_missing(delta, qs, gamma, p);
        lemma_contains_last(q, p.0);
        lemma_missing_in_state(delta, q.last(), gamma, p);
        lemma_contains_concat(m, n, p);
        if q.no_duplicates() && gamma.no_duplicates() && q.last() != halt_name() {
            assert(qs.no_duplicates());
            assert forall|i: int, j: int| 0 <= i < m.len() && 0 <= j < n.len() implies m[i]
                != n[j] by {
                if m[i] == n[j] {
                    assert(m.contains(m[i]));
                    assert(n.contains(n[j]));
                    lemma_missing(delta, qs, gamma, m[i]);
                    lemma_missing_in_state(delta, q.last(), gamma, n[j]);
                    let k = choose|k: int| 0 <= k < qs.len() && qs[k] == q.last();
                    assert(q[k] == q[q.len() - 1]);
                }
            }
            lemma_no_dup_in_concat(m, n);
        }
        if q.no_duplicates() && gamma.no_duplicates() && q.last() == halt_name() {
            assert(qs.no_duplicates());
        }
    }
}

/// A table with at most one rule for each state and symbol holds no rule twice.
pub proof fn lemma_single_valued_distinct(delta: Seq<RuleView>)
    requires
        single_valued(delta),
    ensures
        delta.no_duplicates(),
{
    assert forall|i: int, j: int|
        0 <= i < delta.len() && 0 <= j < delta.len() && i != j implies delta[i] != delta[j] by {
        assert(!applies(delta[i], delta[j].from, delta[j].read));
    }
}

/// A non-deterministic machine that parses is sound.
pub proof fn lemma_parsed_relation(text: Seq<char>)
    ensures
        parsed(text) matches Ok(m) ==> well_formed(m),
{
    let lines = data_lines(text);
    lemma_header_sets(lines);
    if let Ok(h) = header(lines) {
        if relation(h.1, lines.skip(3)) is Some {
            lemma_relation_distinct(h.1, lines.skip(3));
        }
    }
}

/// A deterministic machine that parses is sound, its table is a function,
/// and the function is total: it has a rule for every state of Q but the
/// halt state on every symbol of Γ.
pub proof fn lemma_parsed_function(text: Seq<char>)
    ensures
        parsed_deterministic(text) matches Ok(m) ==> well_formed(m) && single_valued(m.delta)
            && total(m),
{
    let lines = data_lines(text);
    lemma_header_sets(lines);
    if let Ok(m) = parsed_deterministic(text) {
        lemma_function_single_valued(lines.skip(3));
        lemma_single_valued_distinct(m.delta);
        assert forall|state: Seq<char>, symbol: Seq<char>|
            m.q.contains(state) && state != halt_name() && m.gamma.contains(symbol) implies defined(
            m.delta,
            state,
            symbol,
        ) by {
            lemma_missing(m.delta, m.q, m.gamma, (state, symbol));
            if !defined(m.delta, state, symbol) {
                assert(missing(m.delta, m.q, m.gamma).contains((state, symbol)));
            }
        }
    }
}

/// A description without rules. As a relation it parses, with an empty
/// table, whenever its three sets are sound. As a function it never does:
/// it is refused as incomplete, and the pair of the start state and the
/// blank symbol is among those reported.
pub proof fn lemma_no_rules(text: Seq<char>)
    requires
        data_lines(text).len() == 3,
        header(data_lines(text)) is Ok,
    ensures
        parsed(text) matches Ok(m) && m.delta.len() == 0,
        parsed_deterministic(text) matches Err(ParseErrorView::IncompleteDelta(gaps))
            && gaps.contains((start_name(), blank_name())),
{
    let lines = data_lines(text);
    let h = header(lines)->Ok_0;
    assert(lines.skip(3) =~= Seq::empty());
    assert(start_name() != halt_name()) by {
        assert(start_name()[0] != halt_name()[0]);
    }
    lemma_missing(Seq::empty(), h.2, h.1, (start_name(), blank_name()));
}

/// A deterministic machine whose table lacks a rule is refused, and the
/// refusal names every missing pair exactly once: `p` is named exactly when
/// it pairs a state of Q other than the halt state with a symbol of Γ for
/// which the table has no rule.
pub proof fn lemma_incomplete_function_is_refused(text: Seq<char>, p: (Seq<char>, Seq<char>))
    requires
        header(data_lines(text)) is Ok,
        function(data_lines(text).skip(3)) is Some,
    ensures
        ({
            let h = header(data_lines(text))->Ok_0;
            let d = function(data_lines(text).skip(3))->0;
            let lacks = h.2.contains(p.0) && p.0 != halt_name() && h.1.contains(p.1) && !defined(
                d,
                p.0,
                p.1,
            );
            &&& lacks ==> (parsed_deterministic(text) matches Err(
                ParseErrorView::IncompleteDelta(gaps),
            ) && gaps.contains(p))
            &&& (parsed_deterministic(text) matches Err(ParseErrorView::IncompleteDelta(gaps))
                ==> gaps.no_duplicates() && (gaps.contains(p) <==> lacks))
        }),
{
    let h = header(data_lines(text))->Ok_0;
    let d = function(data_lines(text).skip(3))->0;
    lemma_header_sets(data_lines(text));
    lemma_missing(d, h.2, h.1, p);
}

/// After a wildcard rule `r` was spread over `gamma`, the table has a rule
/// for a state and a symbol exactly when it had one before, or when the
/// state is that of `r` and the symbol is one of `gamma`.
pub proof fn lemma_expand_defined(
    delta: Seq<RuleView>,
    gamma: Seq<Seq<char>>,
    r: RuleView,
    state: Seq<char>,
    symbol: Seq<char>,
)
    ensures
        defined(expand(delta, gamma, r), state, symbol) <==> (defined(delta, state, symbol) || (
        state == r.from && gamma.contains(symbol))),
    decreases gamma.len(),
{
    if gamma.len() > 0 {
        let d = expand(delta, gamma.drop_last(), r);
        let g = gamma.last();
        lemma_expand_defined(delta, gamma.drop_last(), r, state, symbol);
        lemma_expand_defined(delta, gamma.drop_last(), r, r.from, g);
        lemma_contains_last(gamma, symbol);
        lemma_defined_push(d, reading(r, g), state, symbol);
    }
}

/// What a wildcard rule adds: after `r` was spread over `gamma`, the table
/// holds what it held before and, for each symbol of `gamma` for which it
/// had no rule in the state of `r`, the rule `r` reading that symbol. The
/// rules that the table had are never replaced.
pub proof fn lemma_expand_contains(
    delta: Seq<RuleView>,
    gamma: Seq<Seq<char>>,
    r: RuleView,
    t: RuleView,
)
    ensures
        expand(delta, gamma, r).contains(t) <==> (delta.contains(t) || (t == reading(r, t.read)
            && gamma.contains(t.read) && !defined(delta, r.from, t.read))),
    decreases gamma.len(),
{
    if gamma.len() > 0 {
        let d = expand(delta, gamma.drop_last(), r);
        let g = gamma.last();
        lemma_expand_contains(delta, gamma.drop_last(), r, t);
        lemma_expand_defined(delta, gamma.drop_last(), r, r.from, g);
        lemma_contains_last(gamma, t.read);
        lemma_seq_contains_after_push(d, reading(r, g), t);
    }
}

/// Wildcard precedence. Let an explicit rule `e` and then a wildcard rule
/// `w` of the same state be added to a table. At the state and symbol of
/// `e` the table then holds what it held before `w` came: the wildcard adds
/// nothing there. At any symbol `b` of `gamma` for which the table had no
/// rule in that state, it holds the rule of the wildcard, reading `b`, and
/// nothing else.
pub proof fn lemma_wildcard_precedence(
    delta: Seq<RuleView>,
    gamma: Seq<Seq<char>>,
    e: RuleView,
    w: RuleView,
    t: RuleView,
    b: Seq<char>,
)
    requires
        e.read != wildcard_name(),
        w.read == wildcard_name(),
        w.from == e.from,
    ensures
        ({
            let first = add_rule(delta, gamma, e);
            let second = add_rule(first, gamma, w);
            &&& first.contains(e)
            &&& second.contains(e)
            &&& applies(t, e.from, e.read) ==> (second.contains(t) <==> first.contains(t))
            &&& gamma.contains(b) && !defined(first, e.from, b) ==> second.contains(reading(w, b))
            &&& gamma.contains(b) && !defined(first, e.from, b) && applies(t, e.from, b) ==> (
            second.contains(t) <==> t == reading(w, b))
        }),
{
    let first = add_rule(delta, gamma, e);
    let second = add_rule(first, gamma, w);
    lemma_seq_contains_after_push(delta, e, e);
    lemma_contains_defined(first, e);
    lemma_expand_contains(first, gamma, w, e);
    lemma_expand_contains(first, gamma, w, t);
    lemma_expand_contains(first, gamma, w, reading(w, b));
    if first.contains(t) {
        lemma_contains_defined(first, t);
    }
}

/// The relation of a description holds no rule twice.
pub proof fn lemma_relation_distinct(gamma: Seq<Seq<char>>, lines: Seq<Seq<char>>)
    requires
        relation(gamma, lines) is Some,
    ensures
        relation(gamma, lines)->0.no_duplicates(),
    decreases lines.len(),
{
    if lines.len() > 0 {
        lemma_relation_distinct(gamma, lines.drop_last());
        let d = relation(gamma, lines.drop_last())->0;
        let r = rule_of(words(lines.last()))->0;
        if r.read == wildcard_name() {
            lemma_expand_distinct(d, gamma, r);
        } else if !d.contains(r) {
            lemma_push_fresh(d, r);
        }
    }
}

/// Spreading a wildcard rule over a table without repetitions leaves it so.
pub proof fn lemma_expand_distinct(delta: Seq<RuleView>, gamma: Seq<Seq<char>>, r: RuleView)
    requires
        delta.no_duplicates(),
    ensures
        expand(delta, gamma, r).no_duplicates(),
    decreases gamma.len(),
{
    if gamma.len() > 0 {
        let d = expand(delta, gamma.drop_last(), r);
        let g = gamma.last();
        lemma_expand_distinct(delta, gamma.drop_last(), r);
        if !defined(d, r.from, g) {
            if d.contains(reading(r, g)) {
                lemma_contains_defined(d, reading(r, g));
            }
            lemma_push_fresh(d, reading(r, g));
        }
    }
}

/// The table of a deterministic machine is a function: it has at most one
/// rule for each state and symbol.
pub proof fn lemma_function_single_valued(lines: Seq<Seq<char>>)
    requires
        function(lines) is Some,
    ensures
        single_valued(function(lines)->0),
    decreases lines.len(),
{
    if lines.len() > 0 {
        lemma_function_single_valued(lines.drop_last());
        let d = function(lines.drop_last())->0;
        let r = rule_of(words(lines.last()))->0;
        let a = assign(d, r);
        if defined(d, r.from, r.read) {
            let k = first_at(d, r.from, r.read);
            let w = choose|i: int| 0 <= i < d.len() && applies(#[trigger] d[i], r.from, r.read);
            lemma_first_exists(d, r.from, r.read, w);
            assert(is_first_at(d, r.from, r.read, k));
            assert forall|i: int, j: int| 0 <= i < a.len() && 0 <= j < a.len() && i != j implies 
                !applies(#[trigger] a[i], (#[trigger] a[j]).from, a[j].read) by {
                if i == k {
                    assert(!applies(d[k], d[j].from, d[j].read));
                } else if j == k {
                    assert(!applies(d[i], d[k].from, d[k].read));
                } else {
                    assert(!applies(d[i], d[j].from, d[j].read));
                }
            }
        } else {
            assert forall|i: int, j: int| 0 <= i < a.len() && 0 <= j < a.len() && i != j implies 
                !applies(#[trigger] a[i], (#[trigger] a[j]).from, a[j].read) by {
                if i < d.len() && j < d.len() {
                    assert(!applies(d[i], d[j].from, d[j].read));
                } else if i < d.len() {
                    assert(!applies(d[i], r.from, r.read));
                } else {
                    assert(!applies(d[j], r.from, r.read));
                }
            }
        }
    }
}

/// Where a rule applies at place `w`, some place is the first at which one applies.
pub proof fn lemma_first_exists(delta: Seq<RuleView>, state: Seq<char>, symbol: Seq<char>, w: int)
    requires
        0 <= w < delta.len(),
        applies(delta[w], state, symbol),
    ensures
        is_first_at(delta, state, symbol, first_at(delta, state, symbol)),
        first_at(delta, state, symbol) <= w,
    decreases w,
{
    if exists|j: int| 0 <= j < w && applies(#[trigger] delta[j], state, symbol) {
        let j = choose|j: int| 0 <= j < w && applies(#[trigger] delta[j], state, symbol);
        lemma_first_exists(delta, state, symbol, j);
    } else {
        assert(is_first_at(delta, state, symbol, w));
        let k = first_at(delta, state, symbol);
        if w < k {
            assert(!applies(delta[w], state, symbol));
        }
    }
}

/// The rules of a table that apply in `state` on `symbol`, in order.
pub open spec fn actions(delta: Seq<RuleView>, state: Seq<char>, symbol: Seq<char>) -> Seq<
    RuleView,
>
    decreases delta.len(),
{
    if delta.len() == 0 {
        Seq::empty()
    } else {
        let a = actions(delta.drop_last(), state, symbol);
        if applies(delta.last(), state, symbol) {
            a.push(delta.last())
        } else {
            a
        }
    }
}

/// The rules that apply are those rules of the table that are for the state
/// and the symbol; a table without repetitions gives them without
/// repetitions.
pub proof fn lemma_actions(delta: Seq<RuleView>, state: Seq<char>, symbol: Seq<char>, t: RuleView)
    ensures
        actions(delta, state, symbol).contains(t) <==> (delta.contains(t) && applies(
            t,
            state,
            symbol,
        )),
        delta.no_duplicates() ==> actions(delta, state, symbol).no_duplicates(),
    decreases delta.len(),
{
    if delta.len() > 0 {
        let d = delta.drop_last();
        let a = actions(d, state, symbol);
        lemma_actions(d, state, symbol, t);
        lemma_contains_last(delta, t);
        lemma_seq_contains_after_push(a, delta.last(), t);
        if delta.no_duplicates() {
            assert(d.no_duplicates());
            lemma_actions(d, state, symbol, delta.last());
            assert(!d.contains(delta.last())) by {
                if d.contains(delta.last()) {
                    let i = choose|i: int| 0 <= i < d.len() && d[i] == delta.last();
                    assert(delta[i] == delta[delta.len() - 1]);
                }
            }
            if applies(delta.last(), state, symbol) {
                lemma_push_fresh(a, delta.last());
            }
        }
    }
}

/// A configuration has one successor for each rule that applies at its
/// head, and each successor is the configuration moved by its rule.
pub proof fn lemma_successors(delta: Seq<RuleView>, c: ConfigurationView)
    ensures
        successors(delta, c).len() == actions(delta, c.state, c.symbol).len(),
        forall|i: int|
            0 <= i < successors(delta, c).len() ==> #[trigger] successors(delta, c)[i] == moved(
                c,
                actions(delta, c.state, c.symbol)[i].to,
                actions(delta, c.state, c.symbol)[i].write,
                actions(delta, c.state, c.symbol)[i].dir,
            ),
    decreases delta.len(),
{
    if delta.len() > 0 {
        lemma_successors(delta.drop_last(), c);
    }
}

/// Branch multiplicity. Where the table holds `k` different rules for the
/// state and symbol under the head of `c`, one round from `c` alone gives
/// exactly `k` configurations, the i-th of them `c` moved by the i-th of
/// those rules.
pub proof fn lemma_branch_multiplicity(delta: Seq<RuleView>, c: ConfigurationView)
    requires
        delta.no_duplicates(),
    ensures
        round(delta, seq![c]) == successors(delta, c),
        actions(delta, c.state, c.symbol).to_set() == Set::new(
            |t: RuleView| delta.contains(t) && applies(t, c.state, c.symbol),
        ),
        round(delta, seq![c]).len() == actions(delta, c.state, c.symbol).to_set().len(),
        forall|i: int|
            0 <= i < round(delta, seq![c]).len() ==> #[trigger] round(delta, seq![c])[i] == moved(
                c,
                actions(delta, c.state, c.symbol)[i].to,
                actions(delta, c.state, c.symbol)[i].write,
                actions(delta, c.state, c.symbol)[i].dir,
            ),
{
    let one = seq![c];
    let a = actions(delta, c.state, c.symbol);
    assert(one.drop_last() =~= Seq::empty());
    assert(round(delta, one.drop_last()) =~= Seq::empty());
    assert(round(delta, one) =~= successors(delta, c));
    lemma_successors(delta, c);
    assert forall|t: RuleView| a.contains(t) <==> (delta.contains(t) && applies(
        t,
        c.state,
        c.symbol,
    )) by {
        lemma_actions(delta, c.state, c.symbol, t);
    }
    assert(a.to_set() =~= Set::new(
        |t: RuleView| delta.contains(t) && applies(t, c.state, c.symbol),
    ));
    if delta.len() > 0 {
        lemma_actions(delta, c.state, c.symbol, delta.last());
    }
    a.unique_seq_to_set();
}

/// A round treats each configuration by itself: the round of two runs of
/// configurations joined is the two rounds joined.
pub proof fn lemma_round_concat(
    delta: Seq<RuleView>,
    a: Seq<ConfigurationView>,
    b: Seq<ConfigurationView>,
)
    ensures
        round(delta, a + b) == round(delta, a) + round(delta, b),
    decreases b.len(),
{
    if b.len() == 0 {
        assert(a + b =~= a);
        assert(round(delta, a) + round(delta, b) =~= round(delta, a));
    } else {
        lemma_round_concat(delta, a, b.drop_last());
        assert((a + b).drop_last() =~= a + b.drop_last());
        assert((round(delta, a) + round(delta, b.drop_last())) + successors(delta, b.last())
            =~= round(delta, a) + (round(delta, b.drop_last()) + successors(delta, b.last())));
    }
}

/// A configuration for which the table has no rule leaves nothing behind.
pub proof fn lemma_dead_end(delta: Seq<RuleView>, c: ConfigurationView)
    requires
        !defined(delta, c.state, c.symbol),
    ensures
        successors(delta, c).len() == 0,
    decreases delta.len(),
{
    if delta.len() > 0 {
        assert(forall|i: int|
            0 <= i < delta.drop_last().len() ==> delta.drop_last()[i] == delta[i]);
        assert(applies(delta[delta.len() - 1], c.state, c.symbol) ==> defined(
            delta,
            c.state,
            c.symbol,
        ));
        lemma_dead_end(delta.drop_last(), c);
    }
}

/// Halting criterion. A run without live branches has halted; a run with a
/// branch outside the halt state has not.
pub proof fn lemma_halting_criterion(cs: Seq<ConfigurationView>, i: int)
    ensures
        cs.len() == 0 ==> all_halted(cs),
        0 <= i < cs.len() && cs[i].state != halt_name() ==> !all_halted(cs),
{
}

/// In a function-shaped table the rule for a state and a symbol is the only
/// rule of the table that applies there.
pub proof fn lemma_image_unique(
    delta: Seq<RuleView>,
    state: Seq<char>,
    symbol: Seq<char>,
    t: RuleView,
)
    requires
        single_valued(delta),
        delta.contains(t),
        applies(t, state, symbol),
    ensures
        image(delta, state, symbol) == t,
{
    let i = choose|i: int| 0 <= i < delta.len() && delta[i] == t;
    lemma_first_exists(delta, state, symbol, i);
    let k = first_at(delta, state, symbol);
    if k != i {
        assert(!applies(delta[k], delta[i].from, delta[i].read));
    }
}

/// Step determinism. Let `r` be the rule of the table for the state and
/// symbol under the head of `c`. The step leads to the state of `r`; the
/// symbol that `r` writes lies next to the head on the side that the head
/// came from; the rest of the tape on that side is as it was; and the head
/// reads the cell that was its neighbour on the other side, or a blank
/// where the tape ended.
pub proof fn lemma_step_determinism(delta: Seq<RuleView>, c: ConfigurationView)
    requires
        defined(delta, c.state, c.symbol),
    ensures
        ({
            let r = image(delta, c.state, c.symbol);
            let n = next(delta, c);
            &&& delta.contains(r)
            &&& applies(r, c.state, c.symbol)
            &&& n.state == r.to
            &&& r.dir == Direction::Right ==> n.prefix.len() == c.prefix.len() + 1
                && n.prefix.last() == r.write && n.prefix.drop_last() == c.prefix
            &&& r.dir == Direction::Right && c.suffix.len() > 0 ==> n.symbol == c.suffix.first()
                && n.suffix == c.suffix.skip(1)
            &&& r.dir == Direction::Right && c.suffix.len() == 0 ==> n.symbol == blank_name()
                && n.suffix.len() == 0
            &&& r.dir == Direction::Left ==> n.suffix.len() == c.suffix.len() + 1
                && n.suffix.first() == r.write && n.suffix.skip(1) == c.suffix
            &&& r.dir == Direction::Left && c.prefix.len() > 0 ==> n.symbol == c.prefix.last()
                && n.prefix == c.prefix.drop_last()
            &&& r.dir == Direction::Left && c.prefix.len() == 0 ==> n.symbol == blank_name()
                && n.prefix.len() == 0
        }),
{
    let w = choose|i: int| 0 <= i < delta.len() && applies(#[trigger] delta[i], c.state, c.symbol);
    lemma_first_exists(delta, c.state, c.symbol, w);
    let r = image(delta, c.state, c.symbol);
    let n = next(delta, c);
    if r.dir == Direction::Right {
        assert(n.prefix.drop_last() =~= c.prefix);
    } else {
        assert(n.suffix.skip(1) =~= c.suffix);
    }
}

/// Rules of a relation accumulate: after a rule that does not read the
/// wildcard was added, the table holds what it held before, and that rule.
pub proof fn lemma_insert_rule(delta: Seq<RuleView>, r: RuleView, t: RuleView)
    ensures
        insert_rule(delta, r).contains(t) <==> (delta.contains(t) || t == r),
        delta.no_duplicates() ==> insert_rule(delta, r).no_duplicates(),
{
    lemma_seq_contains_after_push(delta, r, t);
    if delta.no_duplicates() && !delta.contains(r) {
        lemma_push_fresh(delta, r);
    }
}

/// In a function the last rule wins: after `r` was assigned, `r` is the
/// only rule of the table for its state and symbol, and the rules for any
/// other state or symbol are those that the table had.
pub proof fn lemma_assign(delta: Seq<RuleView>, r: RuleView, t: RuleView)
    requires
        single_valued(delta),
    ensures
        assign(delta, r).contains(r),
        applies(t, r.from, r.read) ==> (assign(delta, r).contains(t) <==> t == r),
        !applies(t, r.from, r.read) ==> (assign(delta, r).contains(t) <==> delta.contains(t)),
{
    let a = assign(delta, r);
    if defined(delta, r.from, r.read) {
        let w = choose|i: int| 0 <= i < delta.len() && applies(#[trigger] delta[i], r.from, r.read);
        lemma_first_exists(delta, r.from, r.read, w);
        let k = first_at(delta, r.from, r.read);
        assert(a[k] == r);
        if a.contains(t) {
            let i = choose|i: int| 0 <= i < a.len() && a[i] == t;
            if i != k {
                assert(delta[i] == t);
                assert(!applies(delta[i], delta[k].from, delta[k].read));
            }
        }
        if delta.contains(t) && !applies(t, r.from, r.read) {
            let i = choose|i: int| 0 <= i < delta.len() && delta[i] == t;
            assert(a[i] == t);
        }
    } else {
        lemma_seq_contains_after_push(delta, r, t);
        lemma_seq_contains_after_push(delta, r, r);
        if delta.contains(t) {
            lemma_contains_defined(delta, t);
        }
    }
}

} // verus!
