//! Trace lines: what a renderer needs to show a configuration, as plain
//! values. How each style looks on a terminal is the renderer's business.

use vstd::prelude::*;
use crate::multi::{all_halted, round, MultiConfiguration};
use crate::single::SingleConfiguration;
use crate::tape::{Configuration, ConfigurationView};
use crate::text::{lemma_views_push, views};

verus! {

/// How a piece of a trace line is to be set apart.
#[derive(Debug, PartialEq, Eq, Hash, Clone, Copy, Structural)]
pub enum Style {
    /// A tape symbol like any other.
    Plain,
    /// A tape symbol whose name has more than one character.
    Compound,
    /// The control state, which stands directly before the cell under the head.
    State,
    /// The symbol under the head.
    Head,
}

/// One piece of a trace line.
#[derive(Debug, PartialEq, Eq)]
pub struct Segment {
    pub text: String,
    pub style: Style,
}

impl View for Segment {
    type V = (Seq<char>, Style);

    open spec fn view(&self) -> (Seq<char>, Style) {
        (self.text@, self.style)
    }
}

/// The style of a tape symbol away from the head. Compound symbols are set
/// apart only where the line is asked to show them.
pub open spec fn symbol_style(name: Seq<char>, nested: bool) -> Style {
    if nested && name.len() > 1 {
        Style::Compound
    } else {
        Style::Plain
    }
}

/// A run of tape symbols, each with its style.
pub open spec fn styled(s: Seq<Seq<char>>, nested: bool) -> Seq<(Seq<char>, Style)> {
    Seq::new(s.len(), |i: int| (s[i], symbol_style(s[i], nested)))
}

/// The trace line of a configuration: the symbols left of the head in
/// order, the state, the symbol under the head, the symbols right of the
/// head in order.
pub open spec fn line(c: ConfigurationView, nested: bool) -> Seq<(Seq<char>, Style)> {
    styled(c.prefix, nested) + seq![(c.state, Style::State), (c.symbol, Style::Head)] + styled(
        c.suffix,
        nested,
    )
}

impl Configuration {
    /// The trace line of this configuration. With `nested`, compound
    /// symbols are set apart.
    pub fn render(&self, nested: bool) -> (r: Vec<Segment>)
        ensures
            views(r@) == line(self@, nested),
    {
        let ghost left = styled(self@.prefix, nested);
        let ghost right = styled(self@.suffix, nested);
        let ghost middle = seq![(self@.state, Style::State), (self@.symbol, Style::Head)];
        let mut out: Vec<Segment> = Vec::new();
        let mut i: usize = 0;
        proof {
            assert(views(out@) =~= left.take(0));
        }
        while i < self.prefix.len()
            invariant
                i <= self.prefix@.len(),
                left == styled(self@.prefix, nested),
                views(out@) == left.take(i as int),
            decreases self.prefix@.len() - i,
        {
            let s = &self.prefix[i];
            let style = if nested && s.is_compound() {
                Style::Compound
            } else {
                Style::Plain
            };
            let seg = Segment { text: s.name.clone(), style };
            proof {
                lemma_views_push(out@, seg);
                assert(left.take(i as int).push(seg@) =~= left.take(i + 1));
            }
            out.push(seg);
            i += 1;
        }
        let state = Segment { text: self.head.0.name.clone(), style: Style::State };
        let head = Segment { text: self.head.1.name.clone(), style: Style::Head };
        proof {
            lemma_views_push(out@, state);
            lemma_views_push(out@.push(state), head);
            assert(left.take(self.prefix@.len() as int) =~= left);
            assert(left.push(state@).push(head@) =~= left + middle + right.take(0));
        }
        out.push(state);
        out.push(head);
        let mut j: usize = 0;
        while j < self.suffix.len()
            invariant
                j <= self.suffix@.len(),
                right == styled(self@.suffix, nested),
                views(out@) == left + middle + right.take(j as int),
            decreases self.suffix@.len() - j,
        {
            let s = &self.suffix[j];
            let style = if nested && s.is_compound() {
                Style::Compound
            } else {
                Style::Plain
            };
            let seg = Segment { text: s.name.clone(), style };
            proof {
                lemma_views_push(out@, seg);
                assert((left + middle + right.take(j as int)).push(seg@) =~= left + middle
                    + right.take(j + 1));
            }
            out.push(seg);
            j += 1;
        }
        proof {
            assert(right.take(self.suffix@.len() as int) =~= right);
        }
        out
    }
}

/// Whether `lines` are the trace lines of the configurations `cs`, one line
/// for each, in order, with compound symbols set apart.
pub open spec fn shows(lines: Seq<Vec<Segment>>, cs: Seq<ConfigurationView>) -> bool {
    &&& lines.len() == cs.len()
    &&& forall|i: int| 0 <= i < lines.len() ==> views(#[trigger] lines[i]@) == line(cs[i], true)
}

impl<'m> MultiConfiguration<'m> {
    /// The trace lines of the live branches, one line for each, with
    /// compound symbols set apart.
    pub fn render(&self) -> (r: Vec<Vec<Segment>>)
        ensures
            shows(r@, views(self.configurations@)),
    {
        let mut out: Vec<Vec<Segment>> = Vec::new();
        let mut i: usize = 0;
        while i < self.configurations.len()
            invariant
                i <= self.configurations@.len(),
                out@.len() == i,
                forall|k: int|
                    0 <= k < i ==> views(#[trigger] out@[k]@) == line(
                        views(self.configurations@)[k],
                        true,
                    ),
            decreases self.configurations@.len() - i,
        {
            let l = self.configurations[i].render(true);
            out.push(l);
            i += 1;
        }
        out
    }

    /// One turn of a run that shows its trace. A run that has halted is left
    /// as it is and nothing is to be shown. Any other run plays one round;
    /// the result holds the trace lines of the branches that are then live,
    /// or nothing where none is left. The run is over when there is nothing
    /// to show.
    pub fn advance(&mut self) -> (r: Option<Vec<Vec<Segment>>>)
        ensures
            final(self).machine == old(self).machine,
            all_halted(views(old(self).configurations@)) ==> r is None && *final(self) == *old(self),
            !all_halted(views(old(self).configurations@)) ==> views(final(self).configurations@)
                == round(old(self).machine@.delta, views(old(self).configurations@)),
            !all_halted(views(old(self).configurations@)) ==> (r is None
                <==> final(self).configurations@.len() == 0),
            r matches Some(lines) ==> shows(lines@, views(final(self).configurations@)),
    {
        if self.halted() {
            return None;
        }
        if !self.step() {
            return None;
        }
        Some(self.render())
    }
}

impl<'m> SingleConfiguration<'m> {
    /// The trace line of the run.
    pub fn render(&self) -> (r: Vec<Segment>)
        ensures
            views(r@) == line(self.configuration@, false),
    {
        self.configuration.render(false)
    }
}

} // verus!
