//! Symbols, states and head movements: the tokens a machine is made of.

use vstd::prelude::*;
use vstd::string::*;

verus! {

/// The name of the blank symbol, which fills every cell that was never written.
pub open spec fn blank_name() -> Seq<char> {
    seq!['_']
}

/// The name of the wildcard, which a rule may read in place of a symbol.
pub open spec fn wildcard_name() -> Seq<char> {
    seq!['*']
}

/// The name of the state every run starts in.
pub open spec fn start_name() -> Seq<char> {
    seq!['S']
}

/// The name of the state in which a branch has halted.
pub open spec fn halt_name() -> Seq<char> {
    seq!['H']
}

/// A tape symbol: a word of the source text, compared by value.
#[derive(Debug, PartialEq, Eq, Hash)]
pub struct Symbol {
    pub name: String,
}

/// A control state: a word of the source text, compared by value.
#[derive(Debug, PartialEq, Eq, Hash)]
pub struct State {
    pub name: String,
}

/// The move the head makes at the end of a step. There is no way to stay.
#[derive(Debug, PartialEq, Eq, Hash, Clone, Copy, Structural)]
pub enum Direction {
    Left,
    Right,
}

impl View for Symbol {
    type V = Seq<char>;

    open spec fn view(&self) -> Seq<char> {
        self.name@
    }
}

impl View for State {
    type V = Seq<char>;

    open spec fn view(&self) -> Seq<char> {
        self.name@
    }
}

impl Clone for Symbol {
    fn clone(&self) -> (r: Self)
        ensures
            r == *self,
    {
        Symbol { name: self.name.clone() }
    }
}

impl Clone for State {
    fn clone(&self) -> (r: Self)
        ensures
            r == *self,
    {
        State { name: self.name.clone() }
    }
}

impl Symbol {
    /// The symbol with the given name.
    pub fn new(name: &str) -> (r: Symbol)
        ensures
            r@ == name@,
    {
        Symbol { name: name.to_owned() }
    }

    /// The blank symbol `_`.
    pub fn blank() -> (r: Symbol)
        ensures
            r@ == blank_name(),
    {
        proof {
            reveal_strlit("_");
            assert("_"@ =~= blank_name());
        }
        Symbol::new("_")
    }

    /// The wildcard `*`.
    pub fn wildcard() -> (r: Symbol)
        ensures
            r@ == wildcard_name(),
    {
        proof {
            reveal_strlit("*");
            assert("*"@ =~= wildcard_name());
        }
        Symbol::new("*")
    }

    /// Whether two symbols have the same name.
    pub fn same(&self, other: &Symbol) -> (r: bool)
        ensures
            r == (self@ == other@),
    {
        self.name == other.name
    }

    /// Whether the symbol's name has more than one character.
    pub fn is_compound(&self) -> (r: bool)
        ensures
            r == (self@.len() > 1),
    {
        self.name.as_str().unicode_len() > 1
    }
}

impl State {
    /// The state with the given name.
    pub fn new(name: &str) -> (r: State)
        ensures
            r@ == name@,
    {
        State { name: name.to_owned() }
    }

    /// The start state `S`.
    pub fn start() -> (r: State)
        ensures
            r@ == start_name(),
    {
        proof {
            reveal_strlit("S");
            assert("S"@ =~= start_name());
        }
        State::new("S")
    }

    /// The halt state `H`.
    pub fn halt() -> (r: State)
        ensures
            r@ == halt_name(),
    {
        proof {
            reveal_strlit("H");
            assert("H"@ =~= halt_name());
        }
        State::new("H")
    }

    /// Whether two states have the same name.
    pub fn same(&self, other: &State) -> (r: bool)
        ensures
            r == (self@ == other@),
    {
        self.name == other.name
    }

    /// Whether this is the halt state.
    pub fn is_halt(&self) -> (r: bool)
        ensures
            r == (self@ == halt_name()),
    {
        let h = State::halt();
        self.same(&h)
    }
}

} // verus!
