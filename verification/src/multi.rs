//! The non-deterministic engine: every live branch of a computation, stepped
//! in synchronized rounds.

use std::collections::VecDeque;
use vstd::prelude::*;
use crate::machine::MachineDescription;
use crate::rule::{applies, RuleView};
use crate::tape::{moved, Configuration, ConfigurationView};
use crate::text::{lemma_views_push, split_whitespace, views, words};
use crate::token::{blank_name, halt_name, start_name, State, Symbol};

verus! {

/// The live branches of a run of a non-deterministic machine. Their order
/// carries no meaning beyond that of the rounds.
#[derive(Debug)]
pub struct MultiConfiguration<'m> {
    pub machine: &'m MachineDescription,
    pub configurations: VecDeque<Configuration>,
}

/// The configuration a run starts in: the start state, the head on the first
/// word of the input, the other words to its right. On an empty input the
/// head is on a blank.
pub open spec fn initial(input: Seq<char>) -> ConfigurationView {
    let w = words(input);
    ConfigurationView {
        prefix: Seq::empty(),
        state: start_name(),
        symbol: if w.len() > 0 {
            w[0]
        } else {
            blank_name()
        },
        suffix: if w.len() > 0 {
            w.skip(1)
        } else {
            Seq::empty()
        },
    }
}

/// The configurations that follow `c` in one step: one for each rule of
/// `delta` that applies at its head, in the order of the rules.
pub open spec fn successors(delta: Seq<RuleView>, c: ConfigurationView) -> Seq<ConfigurationView>
    decreases delta.len(),
{
    if delta.len() == 0 {
        Seq::empty()
    } else {
        let s = successors(delta.drop_last(), c);
        let r = delta.last();
        if applies(r, c.state, c.symbol) {
            s.push(moved(c, r.to, r.write, r.dir))
        } else {
            s
        }
    }
}

/// The configurations after one round from `cs`: the successors of each, in
/// order. A configuration without successors leaves nothing behind.
pub open spec fn round(delta: Seq<RuleView>, cs: Seq<ConfigurationView>) -> Seq<ConfigurationView>
    decreases cs.len(),
{
    if cs.len() == 0 {
        Seq::empty()
    } else {
        round(delta, cs.drop_last()) + successors(delta, cs.last())
    }
}

/// Whether every configuration is in the halt state.
pub open spec fn all_halted(cs: Seq<ConfigurationView>) -> bool {
    forall|i: int| 0 <= i < cs.len() ==> (#[trigger] cs[i]).state == halt_name()
}

/// The configuration that a run on `input` starts in.
pub fn start_on(input: &str) -> (r: Configuration)
    ensures
        r@ == initial(input@),
{
    let w = split_whitespace(input);
    let prefix: VecDeque<Symbol> = VecDeque::new();
    let mut suffix: VecDeque<Symbol> = VecDeque::new();
    proof {
        assert(views(prefix@) =~= Seq::empty());
        assert(views(suffix@) =~= Seq::empty());
    }
    if w.len() == 0 {
        return Configuration { prefix, head: (State::start(), Symbol::blank()), suffix };
    }
    assert(views(w@)[0] == w@[0]@);
    let first = Symbol::new(w[0].as_str());
    let mut i: usize = 1;
    proof {
        assert(views(w@).subrange(1, 1) =~= Seq::empty());
    }
    while i < w.len()
        invariant
            1 <= i <= w@.len(),
            views(suffix@) == views(w@).subrange(1, i as int),
        decreases w@.len() - i,
    {
        let s = Symbol::new(w[i].as_str());
        proof {
            lemma_views_push(suffix@, s);
            assert(views(w@).subrange(1, i as int).push(s@) =~= views(w@).subrange(1, i + 1));
        }
        suffix.push_back(s);
        i += 1;
    }
    proof {
        assert(views(w@).subrange(1, w@.len() as int) =~= views(w@).skip(1));
    }
    Configuration { prefix, head: (State::start(), first), suffix }
}

impl MachineDescription {
    /// Starts a run of this machine on `input`, with one live branch.
    pub fn instantiate<'m>(&'m self, input: &str) -> (r: MultiConfiguration<'m>)
        ensures
            *r.machine == *self,
            views(r.configurations@) == seq![initial(input@)],
    {
        let c = start_on(input);
        let mut configurations: VecDeque<Configuration> = VecDeque::new();
        configurations.push_back(c);
        proof {
            assert(views(configurations@) =~= seq![initial(input@)]);
        }
        MultiConfiguration { machine: self, configurations }
    }
}

impl<'m> MultiConfiguration<'m> {
    /// Plays one round: every branch that was live when the round began is
    /// replaced by its successors. The result says whether any branch is
    /// left.
    pub fn step(&mut self) -> (progress: bool)
        ensures
            final(self).machine == old(self).machine,
            views(final(self).configurations@) == round(
                old(self).machine@.delta,
                views(old(self).configurations@),
            ),
            progress == (final(self).configurations@.len() > 0),
    {
        let ghost before = views(self.configurations@);
        let ghost delta = self.machine@.delta;
        let machine = self.machine;
        let n: usize = self.configurations.len();
        let mut k: usize = 0;
        proof {
            assert(before.skip(0) =~= before);
            assert(before.take(0) =~= Seq::empty());
            assert(before + Seq::empty() =~= before);
        }
        while k < n
            invariant
                k <= n,
                n == before.len(),
                self.machine == machine,
                delta == machine@.delta,
                views(self.configurations@) == before.skip(k as int) + round(
                    delta,
                    before.take(k as int),
                ),
            decreases n - k,
        {
            let ghost all = self.configurations@;
            let conf = match self.configurations.pop_front() {
                Some(c) => c,
                None => {
                    proof {
                        assert(views(all).len() == 0);
                        assert(false);
                    }
                    return false;
                },
            };
            let ghost base = views(self.configurations@);
            proof {
                assert(views(all)[0] == conf@);
                assert(conf@ == before[k as int]);
                assert(base =~= views(all).skip(1));
                assert(views(all).skip(1) =~= before.skip(k + 1) + round(
                    delta,
                    before.take(k as int),
                ));
                assert(delta.take(0) =~= Seq::empty());
                assert(base + Seq::empty() =~= base);
                assert(before.take(k + 1).drop_last() =~= before.take(k as int));
            }
            let mut j: usize = 0;
            while j < machine.delta.len()
                invariant
                    j <= machine.delta@.len(),
                    self.machine == machine,
                    delta == machine@.delta,
                    views(self.configurations@) == base + successors(delta.take(j as int), conf@),
                decreases machine.delta@.len() - j,
            {
                let rule = &machine.delta[j];
                proof {
                    assert(delta.take(j + 1).drop_last() =~= delta.take(j as int));
                    assert(delta.take(j + 1).last() == rule@);
                }
                if rule.from.same(&conf.head.0) && rule.read.same(&conf.head.1) {
                    let mut next = conf.clone();
                    next.step(rule.to.clone(), rule.write.clone(), rule.dir);
                    proof {
                        lemma_views_push(self.configurations@, next);
                        let s = successors(delta.take(j as int), conf@);
                        assert((base + s).push(next@) =~= base + s.push(next@));
                    }
                    self.configurations.push_back(next);
                }
                j += 1;
            }
            proof {
                assert(delta.take(delta.len() as int) =~= delta);
                let r = round(delta, before.take(k as int));
                let s = successors(delta, conf@);
                assert((before.skip(k + 1) + r) + s =~= before.skip(k + 1) + (r + s));
            }
            k += 1;
        }
        proof {
            assert(before.take(n as int) =~= before);
            assert(before.skip(n as int) =~= Seq::empty());
            assert(Seq::empty() + round(delta, before) =~= round(delta, before));
        }
        self.configurations.len() > 0
    }

    /// Whether every live branch is in the halt state. A run without live
    /// branches has halted.
    pub fn halted(&self) -> (r: bool)
        ensures
            r == all_halted(views(self.configurations@)),
    {
        let mut i: usize = 0;
        while i < self.configurations.len()
            invariant
                i <= self.configurations@.len(),
                forall|j: int|
                    0 <= j < i ==> (#[trigger] views(self.configurations@)[j]).state
                        == halt_name(),
            decreases self.configurations@.len() - i,
        {
            if !self.configurations[i].halted() {
                assert(views(self.configurations@)[i as int].state != halt_name());
                return false;
            }
            i += 1;
        }
        true
    }
}

} // verus!
