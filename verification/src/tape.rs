//! One branch of a computation: a tape, the head on it and the control state.

use std::collections::VecDeque;
use vstd::prelude::*;
use crate::text::views;
use crate::token::{blank_name, halt_name, Direction, State, Symbol};

verus! {

/// The tape to the left of the head, the head, and the tape to its right.
/// The cell nearest to the head is the last of `prefix` and the first of
/// `suffix`. Beyond both ends every cell is blank.
#[derive(Debug)]
pub struct Configuration {
    pub prefix: VecDeque<Symbol>,
    pub head: (State, Symbol),
    pub suffix: VecDeque<Symbol>,
}

/// What a configuration is: four values made of names.
pub struct ConfigurationView {
    pub prefix: Seq<Seq<char>>,
    pub state: Seq<char>,
    pub symbol: Seq<char>,
    pub suffix: Seq<Seq<char>>,
}

impl View for Configuration {
    type V = ConfigurationView;

    open spec fn view(&self) -> ConfigurationView {
        ConfigurationView {
            prefix: views(self.prefix@),
            state: self.head.0@,
            symbol: self.head.1@,
            suffix: views(self.suffix@),
        }
    }
}

/// The configuration after one step from `c`: the machine enters `state`,
/// writes `symbol` into the cell under the head and moves the head one cell
/// in direction `dir`. The written cell ends up on the side that the head
/// left behind; the head reads the neighbouring cell, or a blank where the
/// tape was never written.
pub open spec fn moved(
    c: ConfigurationView,
    state: Seq<char>,
    symbol: Seq<char>,
    dir: Direction,
) -> ConfigurationView {
    match dir {
        Direction::Left => ConfigurationView {
            prefix: if c.prefix.len() > 0 {
                c.prefix.drop_last()
            } else {
                c.prefix
            },
            state: state,
            symbol: if c.prefix.len() > 0 {
                c.prefix.last()
            } else {
                blank_name()
            },
            suffix: seq![symbol] + c.suffix,
        },
        Direction::Right => ConfigurationView {
            prefix: c.prefix.push(symbol),
            state: state,
            symbol: if c.suffix.len() > 0 {
                c.suffix.first()
            } else {
                blank_name()
            },
            suffix: if c.suffix.len() > 0 {
                c.suffix.skip(1)
            } else {
                c.suffix
            },
        },
    }
}

/// A copy of a run of symbols.
pub fn copy_symbols(v: &VecDeque<Symbol>) -> (r: VecDeque<Symbol>)
    ensures
        r@ == v@,
{
    let mut out: VecDeque<Symbol> = VecDeque::new();
    let mut i: usize = 0;
    while i < v.len()
        invariant
            i <= v@.len(),
            out@ == v@.take(i as int),
        decreases v@.len() - i,
    {
        let s = v[i].clone();
        out.push_back(s);
        proof {
            assert(out@ =~= v@.take(i + 1));
        }
        i += 1;
    }
    proof {
        assert(v@.take(v@.len() as int) =~= v@);
    }
    out
}

impl Clone for Configuration {
    fn clone(&self) -> (r: Self)
        ensures
            r.prefix@ == self.prefix@,
            r.head == self.head,
            r.suffix@ == self.suffix@,
            r@ == self@,
    {
        let prefix = copy_symbols(&self.prefix);
        let suffix = copy_symbols(&self.suffix);
        let r = Configuration {
            prefix,
            head: (self.head.0.clone(), self.head.1.clone()),
            suffix,
        };
        r
    }
}

impl Configuration {
    /// Takes one step: enters `new_state`, writes `new_symbol` and moves the
    /// head one cell in direction `dir`.
    pub fn step(&mut self, new_state: State, new_symbol: Symbol, dir: Direction)
        ensures
            final(self)@ == moved(old(self)@, new_state@, new_symbol@, dir),
    {
        match dir {
            Direction::Left => {
                self.suffix.push_front(new_symbol);
                let next = match self.prefix.pop_back() {
                    Some(s) => s,
                    None => Symbol::blank(),
                };
                self.head = (new_state, next);
            },
            Direction::Right => {
                self.prefix.push_back(new_symbol);
                let next = match self.suffix.pop_front() {
                    Some(s) => s,
                    None => Symbol::blank(),
                };
                self.head = (new_state, next);
            },
        }
        proof {
            let a = self@;
            let b = moved(old(self)@, new_state@, new_symbol@, dir);
            assert(a.prefix =~= b.prefix);
            assert(a.suffix =~= b.suffix);
        }
    }

    /// Whether the branch is in the halt state.
    pub fn halted(&self) -> (r: bool)
        ensures
            r == (self@.state == halt_name()),
    {
        self.head.0.is_halt()
    }
}

} // verus!
