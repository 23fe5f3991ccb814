//! The deterministic engine: one configuration, driven by a table that has
//! one rule for the state and symbol under the head.

use vstd::prelude::*;
use crate::machine::MachineDescription;
use crate::multi::{initial, start_on};
use crate::rule::{defined, find_rule, first_at, lemma_first_at, RuleView};
use crate::tape::{moved, Configuration, ConfigurationView};
use crate::text::views;
use crate::token::halt_name;

verus! {

/// A run of a deterministic machine.
#[derive(Debug)]
pub struct SingleConfiguration<'m> {
    pub machine: &'m MachineDescription,
    pub configuration: Configuration,
}

/// The rule that a table gives for `state` on `symbol`: the first one that
/// applies. In a function-shaped table it is the only one.
pub open spec fn image(delta: Seq<RuleView>, state: Seq<char>, symbol: Seq<char>) -> RuleView {
    delta[first_at(delta, state, symbol)]
}

/// The configuration that follows `c` under a function-shaped table.
pub open spec fn next(delta: Seq<RuleView>, c: ConfigurationView) -> ConfigurationView {
    let r = image(delta, c.state, c.symbol);
    moved(c, r.to, r.write, r.dir)
}

impl MachineDescription {
    /// Starts a deterministic run of this machine on `input`.
    pub fn instantiate_deterministic<'m>(&'m self, input: &str) -> (r: SingleConfiguration<'m>)
        ensures
            *r.machine == *self,
            r.configuration@ == initial(input@),
    {
        SingleConfiguration { machine: self, configuration: start_on(input) }
    }
}

impl<'m> SingleConfiguration<'m> {
    /// Whether the table has a rule for the state and symbol under the head.
    pub fn can_step(&self) -> (r: bool)
        ensures
            r == defined(self.machine@.delta, self.configuration@.state, self.configuration@.symbol),
    {
        find_rule(
            &self.machine.delta,
            &self.configuration.head.0,
            &self.configuration.head.1,
        ).is_some()
    }

    /// Takes the one step that the table prescribes at the head.
    pub fn step(&mut self)
        requires
            defined(
                old(self).machine@.delta,
                old(self).configuration@.state,
                old(self).configuration@.symbol,
            ),
        ensures
            final(self).machine == old(self).machine,
            final(self).configuration@ == next(old(self).machine@.delta, old(self).configuration@),
    {
        let machine = self.machine;
        match find_rule(&machine.delta, &self.configuration.head.0, &self.configuration.head.1) {
            Some(i) => {
                proof {
                    lemma_first_at(
                        views(machine.delta@),
                        self.configuration@.state,
                        self.configuration@.symbol,
                        i as int,
                    );
                }
                let rule = &machine.delta[i];
                self.configuration.step(rule.to.clone(), rule.write.clone(), rule.dir);
            },
            None => {},
        }
    }

    /// Whether the run is in the halt state.
    pub fn halted(&self) -> (r: bool)
        ensures
            r == (self.configuration@.state == halt_name()),
    {
        self.configuration.halted()
    }
}

} // verus!
