//! Transition rules and the tables that are built from them.

use vstd::prelude::*;
use vstd::string::*;
use crate::text::{lemma_views_push, split_whitespace, views, words};
use crate::token::{wildcard_name, Direction, State, Symbol};

verus! {

/// One transition: in state `from`, reading `read`, the machine enters `to`,
/// writes `write` and moves the head in direction `dir`.
#[derive(Debug, PartialEq, Eq)]
pub struct Rule {
    pub from: State,
    pub read: Symbol,
    pub to: State,
    pub write: Symbol,
    pub dir: Direction,
}

/// What a rule is: five plain values.
pub struct RuleView {
    pub from: Seq<char>,
    pub read: Seq<char>,
    pub to: Seq<char>,
    pub write: Seq<char>,
    pub dir: Direction,
}

impl View for Rule {
    type V = RuleView;

    open spec fn view(&self) -> RuleView {
        RuleView {
            from: self.from@,
            read: self.read@,
            to: self.to@,
            write: self.write@,
            dir: self.dir,
        }
    }
}

impl Clone for Rule {
    fn clone(&self) -> (r: Self)
        ensures
            r == *self,
    {
        Rule {
            from: self.from.clone(),
            read: self.read.clone(),
            to: self.to.clone(),
            write: self.write.clone(),
            dir: self.dir,
        }
    }
}

/// The direction a word stands for: `L` or `R`, and nothing else.
pub open spec fn direction_of(w: Seq<char>) -> Option<Direction> {
    if w == seq!['L'] {
        Some(Direction::Left)
    } else if w == seq!['R'] {
        Some(Direction::Right)
    } else {
        None
    }
}

/// The rule that the words of a line stand for: exactly five words, the last
/// of them a direction.
pub open spec fn rule_of(w: Seq<Seq<char>>) -> Option<RuleView> {
    if w.len() == 5 && direction_of(w[4]) is Some {
        Some(
            RuleView {
                from: w[0],
                read: w[1],
                to: w[2],
                write: w[3],
                dir: direction_of(w[4])->0,
            },
        )
    } else {
        None
    }
}

/// Whether rule `r` applies in `state` on `symbol`.
pub open spec fn applies(r: RuleView, state: Seq<char>, symbol: Seq<char>) -> bool {
    r.from == state && r.read == symbol
}

/// Whether a table has any rule for `state` on `symbol`.
pub open spec fn defined(delta: Seq<RuleView>, state: Seq<char>, symbol: Seq<char>) -> bool {
    exists|i: int| 0 <= i < delta.len() && applies(#[trigger] delta[i], state, symbol)
}

/// Whether a table has at most one rule for each state and symbol.
pub open spec fn single_valued(delta: Seq<RuleView>) -> bool {
    forall|i: int, j: int|
        0 <= i < delta.len() && 0 <= j < delta.len() && i != j ==> !applies(
            #[trigger] delta[i],
            (#[trigger] delta[j]).from,
            delta[j].read,
        )
}

/// Whether `i` is the place of the first rule of the table for `state` on
/// `symbol`.
pub open spec fn is_first_at(
    delta: Seq<RuleView>,
    state: Seq<char>,
    symbol: Seq<char>,
    i: int,
) -> bool {
    &&& 0 <= i < delta.len()
    &&& applies(delta[i], state, symbol)
    &&& forall|j: int| 0 <= j < i ==> !applies(#[trigger] delta[j], state, symbol)
}

/// The place of the first rule of the table for `state` on `symbol`.
pub open spec fn first_at(delta: Seq<RuleView>, state: Seq<char>, symbol: Seq<char>) -> int {
    choose|i: int| is_first_at(delta, state, symbol, i)
}

/// The table with rule `r` in it: a rule that is there already is not added again.
pub open spec fn insert_rule(delta: Seq<RuleView>, r: RuleView) -> Seq<RuleView> {
    if delta.contains(r) {
        delta
    } else {
        delta.push(r)
    }
}

/// The rule `r` made to read `symbol`.
pub open spec fn reading(r: RuleView, symbol: Seq<char>) -> RuleView {
    RuleView { from: r.from, read: symbol, to: r.to, write: r.write, dir: r.dir }
}

/// The table after a wildcard rule `r` was spread over the symbols `gamma`,
/// taken in order: each symbol for which the table has no rule in `r.from`
/// gets `r`, reading that symbol.
pub open spec fn expand(delta: Seq<RuleView>, gamma: Seq<Seq<char>>, r: RuleView) -> Seq<
    RuleView,
>
    decreases gamma.len(),
{
    if gamma.len() == 0 {
        delta
    } else {
        let d = expand(delta, gamma.drop_last(), r);
        if defined(d, r.from, gamma.last()) {
            d
        } else {
            d.push(reading(r, gamma.last()))
        }
    }
}

/// The relation after one more rule: a rule that reads the wildcard is
/// spread over `gamma`, any other joins the rules of its state and symbol.
pub open spec fn add_rule(delta: Seq<RuleView>, gamma: Seq<Seq<char>>, r: RuleView) -> Seq<
    RuleView,
> {
    if r.read == wildcard_name() {
        expand(delta, gamma, r)
    } else {
        insert_rule(delta, r)
    }
}

/// The function after one more rule: it takes the place of the rule that
/// the table had for its state and symbol, if there was one.
pub open spec fn assign(delta: Seq<RuleView>, r: RuleView) -> Seq<RuleView> {
    if defined(delta, r.from, r.read) {
        delta.update(first_at(delta, r.from, r.read), r)
    } else {
        delta.push(r)
    }
}

/// The first rule for a state and a symbol is at one place only.
pub proof fn lemma_first_at(delta: Seq<RuleView>, state: Seq<char>, symbol: Seq<char>, i: int)
    requires
        is_first_at(delta, state, symbol, i),
    ensures
        first_at(delta, state, symbol) == i,
        defined(delta, state, symbol),
{
    let k = first_at(delta, state, symbol);
    assert(is_first_at(delta, state, symbol, k));
    if k < i {
        assert(!applies(delta[k], state, symbol));
    }
    if i < k {
        assert(!applies(delta[i], state, symbol));
    }
}

/// Reads a direction.
pub fn parse_direction(w: &String) -> (r: Option<Direction>)
    ensures
        r == direction_of(w@),
{
    proof {
        reveal_strlit("L");
        reveal_strlit("R");
        assert("L"@ =~= seq!['L']);
        assert("R"@ =~= seq!['R']);
    }
    let l = String::from_str("L");
    let r = String::from_str("R");
    if *w == l {
        Some(Direction::Left)
    } else if *w == r {
        Some(Direction::Right)
    } else {
        None
    }
}

/// Reads one rule from a line.
pub fn parse_rule(line: &str) -> (r: Option<Rule>)
    ensures
        match r {
            Some(rule) => rule_of(words(line@)) == Some(rule@),
            None => rule_of(words(line@)) is None,
        },
{
    let w = split_whitespace(line);
    if w.len() != 5 {
        return None;
    }
    assert(views(w@) == words(line@));
    assert(forall|i: int| 0 <= i < 5 ==> views(w@)[i] == w@[i]@);
    match parse_direction(&w[4]) {
        None => None,
        Some(dir) => Some(
            Rule {
                from: State::new(w[0].as_str()),
                read: Symbol::new(w[1].as_str()),
                to: State::new(w[2].as_str()),
                write: Symbol::new(w[3].as_str()),
                dir,
            },
        ),
    }
}

/// Finds the first rule of a table for `state` on `symbol`.
pub fn find_rule(delta: &Vec<Rule>, state: &State, symbol: &Symbol) -> (r: Option<usize>)
    ensures
        match r {
            Some(i) => is_first_at(views(delta@), state@, symbol@, i as int),
            None => !defined(views(delta@), state@, symbol@),
        },
{
    let mut i: usize = 0;
    while i < delta.len()
        invariant
            i <= delta@.len(),
            forall|j: int| 0 <= j < i ==> !applies(#[trigger] views(delta@)[j], state@, symbol@),
        decreases delta@.len() - i,
    {
        if delta[i].from.same(state) && delta[i].read.same(symbol) {
            return Some(i);
        }
        i += 1;
    }
    None
}

/// Whether the table holds the rule `r`.
pub fn has_rule(delta: &Vec<Rule>, r: &Rule) -> (b: bool)
    ensures
        b == views(delta@).contains(r@),
{
    let mut i: usize = 0;
    while i < delta.len()
        invariant
            i <= delta@.len(),
            forall|j: int| 0 <= j < i ==> #[trigger] views(delta@)[j] != r@,
        decreases delta@.len() - i,
    {
        let d = &delta[i];
        if d.from.same(&r.from) && d.read.same(&r.read) && d.to.same(&r.to) && d.write.same(
            &r.write,
        ) && d.dir == r.dir {
            assert(views(delta@)[i as int] == r@);
            return true;
        }
        i += 1;
    }
    false
}

/// Spreads the wildcard rule `rule` over the symbols `gamma`.
pub fn expand_wildcard(delta: &mut Vec<Rule>, gamma: &Vec<Symbol>, rule: &Rule)
    ensures
        views(final(delta)@) == expand(views(old(delta)@), views(gamma@), rule@),
{
    let ghost before = views(delta@);
    let ghost g = views(gamma@);
    let mut i: usize = 0;
    proof {
        assert(g.take(0) =~= Seq::empty());
    }
    while i < gamma.len()
        invariant
            i <= gamma@.len(),
            g == views(gamma@),
            views(delta@) == expand(before, g.take(i as int), rule@),
        decreases gamma@.len() - i,
    {
        proof {
            assert(g.take(i + 1).drop_last() =~= g.take(i as int));
            assert(g.take(i + 1).last() == gamma@[i as int]@);
        }
        if find_rule(delta, &rule.from, &gamma[i]).is_none() {
            let r = Rule {
                from: rule.from.clone(),
                read: gamma[i].clone(),
                to: rule.to.clone(),
                write: rule.write.clone(),
                dir: rule.dir,
            };
            proof {
                lemma_views_push(delta@, r);
            }
            delta.push(r);
        }
        i += 1;
    }
    proof {
        assert(g.take(gamma@.len() as int) =~= g);
    }
}

/// Adds one rule to a relation.
pub fn add_to_relation(delta: &mut Vec<Rule>, gamma: &Vec<Symbol>, rule: Rule)
    ensures
        views(final(delta)@) == add_rule(views(old(delta)@), views(gamma@), rule@),
{
    let w = Symbol::wildcard();
    if rule.read.same(&w) {
        expand_wildcard(delta, gamma, &rule);
    } else if !has_rule(delta, &rule) {
        proof {
            lemma_views_push(delta@, rule);
        }
        delta.push(rule);
    }
}

/// Adds one rule to a function.
pub fn add_to_function(delta: &mut Vec<Rule>, rule: Rule)
    ensures
        views(final(delta)@) == assign(views(old(delta)@), rule@),
{
    match find_rule(delta, &rule.from, &rule.read) {
        Some(i) => {
            proof {
                lemma_first_at(views(delta@), rule.from@, rule.read@, i as int);
                assert(views(delta@.update(i as int, rule)) =~= views(delta@).update(
                    i as int,
                    rule@,
                ));
            }
            delta.set(i, rule);
        },
        None => {
            proof {
                lemma_views_push(delta@, rule);
            }
            delta.push(rule);
        },
    }
}

} // verus!
