//! Machine descriptions and the parser that reads them from text.

use vstd::prelude::*;
use vstd::string::*;
use crate::laws::{lemma_parsed_function, lemma_parsed_relation};
use crate::rule::{
    add_rule, add_to_function, add_to_relation, assign, defined, find_rule, parse_rule, rule_of,
    single_valued, Rule, RuleView,
};
use crate::text::{data_lines, lemma_views_push, split_lines, split_whitespace, views, words};
use crate::token::{blank_name, halt_name, start_name, State, Symbol};

verus! {

/// Why a machine description was turned down.
#[derive(Debug, PartialEq, Eq)]
pub enum ParseError {
    /// The text ended before the line of Σ, Γ or Q.
    UnexpectedEof,
    /// Γ lacks the blank symbol.
    MissingBlank,
    /// Q lacks the start state.
    MissingStart,
    /// Q lacks the halt state.
    MissingHalt,
    /// A rule does not have five fields, or its direction is neither `L` nor `R`.
    MalformedTransition,
    /// The function δ has no rule for these pairs of a state and a symbol.
    IncompleteDelta(Vec<(State, Symbol)>),
}

/// What a parse error is, with names in place of tokens.
pub enum ParseErrorView {
    UnexpectedEof,
    MissingBlank,
    MissingStart,
    MissingHalt,
    MalformedTransition,
    IncompleteDelta(Seq<(Seq<char>, Seq<char>)>),
}

impl View for ParseError {
    type V = ParseErrorView;

    open spec fn view(&self) -> ParseErrorView {
        match self {
            ParseError::UnexpectedEof => ParseErrorView::UnexpectedEof,
            ParseError::MissingBlank => ParseErrorView::MissingBlank,
            ParseError::MissingStart => ParseErrorView::MissingStart,
            ParseError::MissingHalt => ParseErrorView::MissingHalt,
            ParseError::MalformedTransition => ParseErrorView::MalformedTransition,
            ParseError::IncompleteDelta(m) => ParseErrorView::IncompleteDelta(views(m@)),
        }
    }
}

/// The message that describes a failure.
pub open spec fn message_of(e: ParseErrorView) -> Seq<char> {
    match e {
        ParseErrorView::UnexpectedEof => "unexpected EOF, could not read the sets Σ, Γ and Q"@,
        ParseErrorView::MissingBlank => "missing blank symbol \"_\" from Γ"@,
        ParseErrorView::MissingStart => "missing initial state \"S\" from Q"@,
        ParseErrorView::MissingHalt => "missing halting state \"H\" from Q"@,
        ParseErrorView::MalformedTransition => "invalid δ transition entry"@,
        ParseErrorView::IncompleteDelta(_) => "transitions are missing from the function δ"@,
    }
}

impl ParseError {
    /// The message that describes this failure. The pairs that an
    /// incomplete function lacks are not part of it.
    pub fn message(&self) -> (r: String)
        ensures
            r@ == message_of(self@),
    {
        match self {
            ParseError::UnexpectedEof => String::from_str(
                "unexpected EOF, could not read the sets Σ, Γ and Q",
            ),
            ParseError::MissingBlank => String::from_str("missing blank symbol \"_\" from Γ"),
            ParseError::MissingStart => String::from_str("missing initial state \"S\" from Q"),
            ParseError::MissingHalt => String::from_str("missing halting state \"H\" from Q"),
            ParseError::MalformedTransition => String::from_str("invalid δ transition entry"),
            ParseError::IncompleteDelta(_) => String::from_str(
                "transitions are missing from the function δ",
            ),
        }
    }
}

/// A Turing machine: the input alphabet Σ, the tape alphabet Γ, the states Q
/// and the transition table δ. Each of Σ, Γ and Q holds its members once, in
/// the order in which the text first names them; δ holds its rules in the
/// order in which the text gives rise to them.
#[derive(Debug)]
pub struct MachineDescription {
    pub sigma: Vec<Symbol>,
    pub gamma: Vec<Symbol>,
    pub q: Vec<State>,
    pub delta: Vec<Rule>,
}

/// What a machine description is, with names in place of tokens.
pub struct MachineView {
    pub sigma: Seq<Seq<char>>,
    pub gamma: Seq<Seq<char>>,
    pub q: Seq<Seq<char>>,
    pub delta: Seq<RuleView>,
}

impl View for MachineDescription {
    type V = MachineView;

    open spec fn view(&self) -> MachineView {
        MachineView {
            sigma: views(self.sigma@),
            gamma: views(self.gamma@),
            q: views(self.q@),
            delta: views(self.delta@),
        }
    }
}

/// Whether a description is sound: each of Σ, Γ and Q holds its members
/// once, no rule stands twice in δ, Γ has the blank symbol, and Q has the
/// start state and the halt state.
pub open spec fn well_formed(m: MachineView) -> bool {
    &&& m.sigma.no_duplicates()
    &&& m.gamma.no_duplicates()
    &&& m.q.no_duplicates()
    &&& m.delta.no_duplicates()
    &&& m.gamma.contains(blank_name())
    &&& m.q.contains(start_name())
    &&& m.q.contains(halt_name())
}

/// Whether δ has a rule for every state of Q but the halt state on every
/// symbol of Γ.
pub open spec fn total(m: MachineView) -> bool {
    forall|state: Seq<char>, symbol: Seq<char>|
        m.q.contains(state) && state != halt_name() && m.gamma.contains(symbol) ==> defined(
            m.delta,
            state,
            symbol,
        )
}

/// A list of names with one more name, unless the list holds it already.
pub open spec fn insert_name(d: Seq<Seq<char>>, x: Seq<char>) -> Seq<Seq<char>> {
    if d.contains(x) {
        d
    } else {
        d.push(x)
    }
}

/// The names of `s` without repetitions, each where it first occurs.
pub open spec fn distinct(s: Seq<Seq<char>>) -> Seq<Seq<char>>
    decreases s.len(),
{
    if s.len() == 0 {
        Seq::empty()
    } else {
        insert_name(distinct(s.drop_last()), s.last())
    }
}

/// The three sets at the head of a description, read from its counting
/// lines: Σ from the first, Γ from the second, Q from the third.
pub open spec fn header(lines: Seq<Seq<char>>) -> Result<
    (Seq<Seq<char>>, Seq<Seq<char>>, Seq<Seq<char>>),
    ParseErrorView,
> {
    if lines.len() < 2 {
        Err(ParseErrorView::UnexpectedEof)
    } else if !distinct(words(lines[1])).contains(blank_name()) {
        Err(ParseErrorView::MissingBlank)
    } else if lines.len() < 3 {
        Err(ParseErrorView::UnexpectedEof)
    } else if !distinct(words(lines[2])).contains(start_name()) {
        Err(ParseErrorView::MissingStart)
    } else if !distinct(words(lines[2])).contains(halt_name()) {
        Err(ParseErrorView::MissingHalt)
    } else {
        Ok((distinct(words(lines[0])), distinct(words(lines[1])), distinct(words(lines[2]))))
    }
}

/// The relation δ that the rule lines give, taken in order, or `None` where
/// one of them is no rule.
pub open spec fn relation(gamma: Seq<Seq<char>>, lines: Seq<Seq<char>>) -> Option<Seq<RuleView>>
    decreases lines.len(),
{
    if lines.len() == 0 {
        Some(Seq::empty())
    } else {
        match (relation(gamma, lines.drop_last()), rule_of(words(lines.last()))) {
            (Some(d), Some(r)) => Some(add_rule(d, gamma, r)),
            _ => None,
        }
    }
}

/// The function δ that the rule lines give, taken in order, a later rule
/// replacing an earlier one for the same state and symbol, or `None` where
/// one of the lines is no rule.
pub open spec fn function(lines: Seq<Seq<char>>) -> Option<Seq<RuleView>>
    decreases lines.len(),
{
    if lines.len() == 0 {
        Some(Seq::empty())
    } else {
        match (function(lines.drop_last()), rule_of(words(lines.last()))) {
            (Some(d), Some(r)) => Some(assign(d, r)),
            _ => None,
        }
    }
}

/// The symbols of `gamma`, in order, for which `delta` has no rule in `state`.
pub open spec fn missing_in_state(
    delta: Seq<RuleView>,
    state: Seq<char>,
    gamma: Seq<Seq<char>>,
) -> Seq<(Seq<char>, Seq<char>)>
    decreases gamma.len(),
{
    if gamma.len() == 0 {
        Seq::empty()
    } else {
        let m = missing_in_state(delta, state, gamma.drop_last());
        if defined(delta, state, gamma.last()) {
            m
        } else {
            m.push((state, gamma.last()))
        }
    }
}

/// The pairs of a state of `q` other than the halt state and a symbol of
/// `gamma` for which `delta` has no rule, state by state.
pub open spec fn missing(delta: Seq<RuleView>, q: Seq<Seq<char>>, gamma: Seq<Seq<char>>) -> Seq<
    (Seq<char>, Seq<char>),
>
    decreases q.len(),
{
    if q.len() == 0 {
        Seq::empty()
    } else {
        let m = missing(delta, q.drop_last(), gamma);
        if q.last() == halt_name() {
            m
        } else {
            m + missing_in_state(delta, q.last(), gamma)
        }
    }
}

/// What parsing a description of a non-deterministic machine gives.
pub open spec fn parsed(text: Seq<char>) -> Result<MachineView, ParseErrorView> {
    let lines = data_lines(text);
    match header(lines) {
        Err(e) => Err(e),
        Ok(h) => match relation(h.1, lines.skip(3)) {
            None => Err(ParseErrorView::MalformedTransition),
            Some(d) => Ok(MachineView { sigma: h.0, gamma: h.1, q: h.2, delta: d }),
        },
    }
}

/// What parsing a description of a deterministic machine gives.
pub open spec fn parsed_deterministic(text: Seq<char>) -> Result<MachineView, ParseErrorView> {
    let lines = data_lines(text);
    match header(lines) {
        Err(e) => Err(e),
        Ok(h) => match function(lines.skip(3)) {
            None => Err(ParseErrorView::MalformedTransition),
            Some(d) => if missing(d, h.2, h.1).len() > 0 {
                Err(ParseErrorView::IncompleteDelta(missing(d, h.2, h.1)))
            } else {
                Ok(MachineView { sigma: h.0, gamma: h.1, q: h.2, delta: d })
            },
        },
    }
}

/// Whether `v` holds the symbol `s`.
pub fn has_symbol(v: &Vec<Symbol>, s: &Symbol) -> (b: bool)
    ensures
        b == views(v@).contains(s@),
{
    let mut i: usize = 0;
    while i < v.len()
        invariant
            i <= v@.len(),
            forall|j: int| 0 <= j < i ==> #[trigger] views(v@)[j] != s@,
        decreases v@.len() - i,
    {
        if v[i].same(s) {
            assert(views(v@)[i as int] == s@);
            return true;
        }
        i += 1;
    }
    false
}

/// Whether `v` holds the state `s`.
pub fn has_state(v: &Vec<State>, s: &State) -> (b: bool)
    ensures
        b == views(v@).contains(s@),
{
    let mut i: usize = 0;
    while i < v.len()
        invariant
            i <= v@.len(),
            forall|j: int| 0 <= j < i ==> #[trigger] views(v@)[j] != s@,
        decreases v@.len() - i,
    {
        if v[i].same(s) {
            assert(views(v@)[i as int] == s@);
            return true;
        }
        i += 1;
    }
    false
}

/// The symbols that a line names, each once.
pub fn symbol_set(line: &str) -> (r: Vec<Symbol>)
    ensures
        views(r@) == distinct(words(line@)),
{
    let w = split_whitespace(line);
    let mut out: Vec<Symbol> = Vec::new();
    let mut i: usize = 0;
    proof {
        assert(views(out@) =~= Seq::empty());
        assert(views(w@).take(0) =~= Seq::empty());
    }
    while i < w.len()
        invariant
            i <= w@.len(),
            views(out@) == distinct(views(w@).take(i as int)),
        decreases w@.len() - i,
    {
        let s = Symbol::new(w[i].as_str());
        proof {
            assert(views(w@).take(i + 1).drop_last() =~= views(w@).take(i as int));
            assert(views(w@).take(i + 1).last() == s@);
        }
        if !has_symbol(&out, &s) {
            proof {
                lemma_views_push(out@, s);
            }
            out.push(s);
        }
        i += 1;
    }
    proof {
        assert(views(w@).take(w@.len() as int) =~= views(w@));
    }
    out
}

/// The states that a line names, each once.
pub fn state_set(line: &str) -> (r: Vec<State>)
    ensures
        views(r@) == distinct(words(line@)),
{
    let w = split_whitespace(line);
    let mut out: Vec<State> = Vec::new();
    let mut i: usize = 0;
    proof {
        assert(views(out@) =~= Seq::empty());
        assert(views(w@).take(0) =~= Seq::empty());
    }
    while i < w.len()
        invariant
            i <= w@.len(),
            views(out@) == distinct(views(w@).take(i as int)),
        decreases w@.len() - i,
    {
        let s = State::new(w[i].as_str());
        proof {
            assert(views(w@).take(i + 1).drop_last() =~= views(w@).take(i as int));
            assert(views(w@).take(i + 1).last() == s@);
        }
        if !has_state(&out, &s) {
            proof {
                lemma_views_push(out@, s);
            }
            out.push(s);
        }
        i += 1;
    }
    proof {
        assert(views(w@).take(w@.len() as int) =~= views(w@));
    }
    out
}

/// Reads Σ, Γ and Q from the counting lines of a description.
pub fn read_header(lines: &Vec<String>) -> (r: Result<
    (Vec<Symbol>, Vec<Symbol>, Vec<State>),
    ParseError,
>)
    ensures
        match r {
            Ok(h) => header(views(lines@)) == Ok::<_, ParseErrorView>(
                (views(h.0@), views(h.1@), views(h.2@)),
            ),
            Err(e) => header(views(lines@)) == Err::<
                (Seq<Seq<char>>, Seq<Seq<char>>, Seq<Seq<char>>),
                _,
            >(e@),
        },
{
    if lines.len() < 2 {
        return Err(ParseError::UnexpectedEof);
    }
    assert(views(lines@)[0] == lines@[0]@);
    assert(views(lines@)[1] == lines@[1]@);
    let sigma = symbol_set(lines[0].as_str());
    let gamma = symbol_set(lines[1].as_str());
    if !has_symbol(&gamma, &Symbol::blank()) {
        return Err(ParseError::MissingBlank);
    }
    if lines.len() < 3 {
        return Err(ParseError::UnexpectedEof);
    }
    assert(views(lines@)[2] == lines@[2]@);
    let q = state_set(lines[2].as_str());
    if !has_state(&q, &State::start()) {
        return Err(ParseError::MissingStart);
    }
    if !has_state(&q, &State::halt()) {
        return Err(ParseError::MissingHalt);
    }
    Ok((sigma, gamma, q))
}

/// Reads the rule lines of a non-deterministic machine, which follow the
/// first three counting lines.
fn read_relation(gamma: &Vec<Symbol>, lines: &Vec<String>) -> (r: Option<Vec<Rule>>)
    requires
        lines@.len() >= 3,
    ensures
        match r {
            Some(d) => relation(views(gamma@), views(lines@).skip(3)) == Some(views(d@)),
            None => relation(views(gamma@), views(lines@).skip(3)) is None,
        },
{
    let ghost l = views(lines@).skip(3);
    let mut delta: Vec<Rule> = Vec::new();
    let mut i: usize = 3;
    proof {
        assert(views(delta@) =~= Seq::empty());
        assert(l.take(0) =~= Seq::empty());
    }
    while i < lines.len()
        invariant
            3 <= i <= lines@.len(),
            l == views(lines@).skip(3),
            relation(views(gamma@), l.take(i - 3)) == Some(views(delta@)),
        decreases lines@.len() - i,
    {
        proof {
            assert(l.take(i - 2).drop_last() =~= l.take(i - 3));
            assert(l.take(i - 2).last() == lines@[i as int]@);
        }
        match parse_rule(lines[i].as_str()) {
            None => {
                proof {
                    lemma_relation_fails(views(gamma@), l, i - 2);
                }
                return None;
            },
            Some(rule) => {
                add_to_relation(&mut delta, gamma, rule);
            },
        }
        i += 1;
    }
    proof {
        assert(l.take(l.len() as int) =~= l);
    }
    Some(delta)
}

/// Reads the rule lines of a deterministic machine, which follow the first
/// three counting lines.
fn read_function(lines: &Vec<String>) -> (r: Option<Vec<Rule>>)
    requires
        lines@.len() >= 3,
    ensures
        match r {
            Some(d) => function(views(lines@).skip(3)) == Some(views(d@)),
            None => function(views(lines@).skip(3)) is None,
        },
{
    let ghost l = views(lines@).skip(3);
    let mut delta: Vec<Rule> = Vec::new();
    let mut i: usize = 3;
    proof {
        assert(views(delta@) =~= Seq::empty());
        assert(l.take(0) =~= Seq::empty());
    }
    while i < lines.len()
        invariant
            3 <= i <= lines@.len(),
            l == views(lines@).skip(3),
            function(l.take(i - 3)) == Some(views(delta@)),
        decreases lines@.len() - i,
    {
        proof {
            assert(l.take(i - 2).drop_last() =~= l.take(i - 3));
            assert(l.take(i - 2).last() == lines@[i as int]@);
        }
        match parse_rule(lines[i].as_str()) {
            None => {
                proof {
                    lemma_function_fails(l, i - 2);
                }
                return None;
            },
            Some(rule) => {
                add_to_function(&mut delta, rule);
            },
        }
        i += 1;
    }
    proof {
        assert(l.take(l.len() as int) =~= l);
    }
    Some(delta)
}

/// Once a line is no rule, no longer run of lines gives a relation.
pub proof fn lemma_relation_fails(gamma: Seq<Seq<char>>, lines: Seq<Seq<char>>, k: int)
    requires
        0 <= k <= lines.len(),
        relation(gamma, lines.take(k)) is None,
    ensures
        relation(gamma, lines) is None,
    decreases lines.len() - k,
{
    if k < lines.len() {
        assert(lines.take(k + 1).drop_last() =~= lines.take(k));
        lemma_relation_fails(gamma, lines, k + 1);
    } else {
        assert(lines.take(k) =~= lines);
    }
}

/// Once a line is no rule, no longer run of lines gives a function.
pub proof fn lemma_function_fails(lines: Seq<Seq<char>>, k: int)
    requires
        0 <= k <= lines.len(),
        function(lines.take(k)) is None,
    ensures
        function(lines) is None,
    decreases lines.len() - k,
{
    if k < lines.len() {
        assert(lines.take(k + 1).drop_last() =~= lines.take(k));
        lemma_function_fails(lines, k + 1);
    } else {
        assert(lines.take(k) =~= lines);
    }
}

/// Lists the pairs of a state other than the halt state and a symbol for
/// which the table has no rule.
pub fn find_missing(delta: &Vec<Rule>, q: &Vec<State>, gamma: &Vec<Symbol>) -> (r: Vec<
    (State, Symbol),
>)
    ensures
        views(r@) == missing(views(delta@), views(q@), views(gamma@)),
{
    let ghost qs = views(q@);
    let ghost gs = views(gamma@);
    let mut out: Vec<(State, Symbol)> = Vec::new();
    let mut i: usize = 0;
    proof {
        assert(views(out@) =~= Seq::empty());
        assert(qs.take(0) =~= Seq::empty());
    }
    while i < q.len()
        invariant
            i <= q@.len(),
            qs == views(q@),
            gs == views(gamma@),
            views(out@) == missing(views(delta@), qs.take(i as int), gs),
        decreases q@.len() - i,
    {
        proof {
            assert(qs.take(i + 1).drop_last() =~= qs.take(i as int));
            assert(qs.take(i + 1).last() == q@[i as int]@);
        }
        if !q[i].is_halt() {
            let ghost base = views(out@);
            let mut k: usize = 0;
            proof {
                assert(gs.take(0) =~= Seq::empty());
                assert(base + Seq::empty() =~= base);
            }
            while k < gamma.len()
                invariant
                    i < q@.len(),
                    k <= gamma@.len(),
                    qs == views(q@),
                    gs == views(gamma@),
                    views(out@) == base + missing_in_state(
                        views(delta@),
                        q@[i as int]@,
                        gs.take(k as int),
                    ),
                decreases gamma@.len() - k,
            {
                proof {
                    assert(gs.take(k + 1).drop_last() =~= gs.take(k as int));
                    assert(gs.take(k + 1).last() == gamma@[k as int]@);
                }
                if find_rule(delta, &q[i], &gamma[k]).is_none() {
                    let p = (q[i].clone(), gamma[k].clone());
                    proof {
                        lemma_views_push(out@, p);
                        let m = missing_in_state(views(delta@), q@[i as int]@, gs.take(k as int));
                        assert((base + m).push(p@) =~= base + m.push(p@));
                    }
                    out.push(p);
                }
                k += 1;
            }
            proof {
                assert(gs.take(gamma@.len() as int) =~= gs);
            }
        }
        i += 1;
    }
    proof {
        assert(qs.take(q@.len() as int) =~= qs);
    }
    out
}

impl MachineDescription {
    /// Parses the description of a non-deterministic machine. The rules form
    /// a relation: a state and a symbol may have several rules, or none.
    pub fn parse(input: &str) -> (r: Result<MachineDescription, ParseError>)
        ensures
            match r {
                Ok(m) => parsed(input@) == Ok::<MachineView, ParseErrorView>(m@) && well_formed(
                    m@,
                ),
                Err(e) => parsed(input@) == Err::<MachineView, ParseErrorView>(e@),
            },
    {
        proof {
            lemma_parsed_relation(input@);
        }
        let lines = split_lines(input);
        match read_header(&lines) {
            Err(e) => Err(e),
            Ok((sigma, gamma, q)) => match read_relation(&gamma, &lines) {
                None => Err(ParseError::MalformedTransition),
                Some(delta) => Ok(MachineDescription { sigma, gamma, q, delta }),
            },
        }
    }

    /// Parses the description of a deterministic machine. The rules form a
    /// function, which must have a rule for every state but the halt state
    /// on every symbol of Γ.
    pub fn parse_deterministic(input: &str) -> (r: Result<MachineDescription, ParseError>)
        ensures
            match r {
                Ok(m) => parsed_deterministic(input@) == Ok::<MachineView, ParseErrorView>(m@)
                    && well_formed(m@) && single_valued(m@.delta) && total(m@),
                Err(e) => parsed_deterministic(input@) == Err::<MachineView, ParseErrorView>(e@),
            },
    {
        proof {
            lemma_parsed_function(input@);
        }
        let lines = split_lines(input);
        match read_header(&lines) {
            Err(e) => Err(e),
            Ok((sigma, gamma, q)) => match read_function(&lines) {
                None => Err(ParseError::MalformedTransition),
                Some(delta) => {
                    let gaps = find_missing(&delta, &q, &gamma);
                    if gaps.len() > 0 {
                        Err(ParseError::IncompleteDelta(gaps))
                    } else {
                        Ok(MachineDescription { sigma, gamma, q, delta })
                    }
                },
            },
        }
    }
}

} // verus!
