use std::collections::VecDeque;
use turing_machine::machine::MachineDescription;
use turing_machine::render::{Segment, Style};
use turing_machine::tape::Configuration;
use turing_machine::token::{State, Symbol};

fn segment(text: &str, style: Style) -> Segment {
    Segment { text: text.to_string(), style }
}

fn cells(names: &[&str]) -> VecDeque<Symbol> {
    names.iter().map(|n| Symbol::new(n)).collect()
}

#[test]
fn line_shows_prefix_state_head_and_suffix() {
    let c = Configuration {
        prefix: cells(&["a", "bc"]),
        head: (State::new("q0"), Symbol::new("xy")),
        suffix: cells(&["d", "ef", "g"]),
    };
    assert_eq!(
        c.render(false),
        vec![
            segment("a", Style::Plain),
            segment("bc", Style::Plain),
            segment("q0", Style::State),
            segment("xy", Style::Head),
            segment("d", Style::Plain),
            segment("ef", Style::Plain),
            segment("g", Style::Plain),
        ]
    );
}

#[test]
fn nested_line_sets_compound_symbols_apart() {
    let c = Configuration {
        prefix: cells(&["a", "bc", "Σ"]),
        head: (State::new("S"), Symbol::new("xy")),
        suffix: cells(&["ef", "g"]),
    };
    assert_eq!(
        c.render(true),
        vec![
            segment("a", Style::Plain),
            segment("bc", Style::Compound),
            segment("Σ", Style::Plain),
            segment("S", Style::State),
            segment("xy", Style::Head),
            segment("ef", Style::Compound),
            segment("g", Style::Plain),
        ]
    );
}

#[test]
fn line_of_an_empty_tape_shows_the_head_alone() {
    let c = Configuration {
        prefix: VecDeque::new(),
        head: (State::start(), Symbol::blank()),
        suffix: VecDeque::new(),
    };
    assert_eq!(c.render(true), vec![segment("S", Style::State), segment("_", Style::Head)]);
}

#[test]
fn trace_of_the_single_rule_machine_has_two_lines() {
    let m = MachineDescription::parse("0 1\n0 1 _\nS H\nS 0 H 1 R\n").unwrap();
    let mut run = m.instantiate("0");
    let mut trace = vec![run.render()];
    while !run.halted() {
        if !run.step() {
            break;
        }
        trace.push(run.render());
    }
    assert_eq!(
        trace,
        vec![
            vec![vec![segment("S", Style::State), segment("0", Style::Head)]],
            vec![vec![
                segment("1", Style::Plain),
                segment("H", Style::State),
                segment("_", Style::Head),
            ]],
        ]
    );
}

#[test]
fn trace_of_the_branching_machine_has_two_lines_in_the_second_round() {
    let m = MachineDescription::parse("a\na b c _\nS H\nS a H b R\nS a H c L\n").unwrap();
    let mut run = m.instantiate("a");
    assert_eq!(run.render(), vec![vec![segment("S", Style::State), segment("a", Style::Head)]]);
    assert!(run.step());
    assert_eq!(
        run.render(),
        vec![
            vec![segment("b", Style::Plain), segment("H", Style::State), segment("_", Style::Head)],
            vec![segment("H", Style::State), segment("_", Style::Head), segment("c", Style::Plain)],
        ]
    );
    assert!(run.halted());
}

#[test]
fn trace_stops_before_a_round_that_leaves_no_branch() {
    let m = MachineDescription::parse("a\na _\nS T H\nS a T a R\n").unwrap();
    let mut run = m.instantiate("a");
    let mut rendered = 1;
    while !run.halted() {
        if !run.step() {
            break;
        }
        rendered += 1;
    }
    assert_eq!(rendered, 2);
    assert_eq!(run.render(), Vec::<Vec<Segment>>::new());
}

#[test]
fn deterministic_trace_line_does_not_mark_compound_symbols() {
    let m = MachineDescription::parse_deterministic("ab\nab _\nS H\nS ab H ab R\nS _ H _ R\n")
        .unwrap();
    let mut run = m.instantiate_deterministic("ab ab");
    run.step();
    assert_eq!(
        run.render(),
        vec![
            segment("ab", Style::Plain),
            segment("H", Style::State),
            segment("ab", Style::Head),
        ]
    );
}

#[test]
fn advance_shows_each_round_until_the_run_is_over() {
    let m = MachineDescription::parse("a\na _\nS T H\nS a T a R\nT _ H _ L\n").unwrap();
    let mut run = m.instantiate("a");
    assert_eq!(
        run.advance(),
        Some(vec![vec![
            segment("a", Style::Plain),
            segment("T", Style::State),
            segment("_", Style::Head),
        ]])
    );
    assert_eq!(
        run.advance(),
        Some(vec![vec![
            segment("H", Style::State),
            segment("a", Style::Head),
            segment("_", Style::Plain),
        ]])
    );
    assert_eq!(run.advance(), None);
    assert_eq!(run.configurations.len(), 1);
    assert!(run.halted());
}

#[test]
fn advance_shows_nothing_for_a_round_that_leaves_no_branch() {
    let m = MachineDescription::parse("a\na _\nS T H\nS a T a R\n").unwrap();
    let mut run = m.instantiate("a");
    assert!(run.advance().is_some());
    assert_eq!(run.advance(), None);
    assert_eq!(run.configurations.len(), 0);
    assert_eq!(run.advance(), None);
}

#[test]
fn single_rule_machine_is_incomplete_as_a_function() {
    let r = MachineDescription::parse_deterministic("0 1\n0 1 _\nS H\nS 0 H 1 R\n");
    assert_eq!(
        r.unwrap_err(),
        turing_machine::machine::ParseError::IncompleteDelta(vec![
            (State::new("S"), Symbol::new("1")),
            (State::new("S"), Symbol::new("_")),
        ])
    );
}

#[test]
fn deterministic_trace_of_the_completed_machine_has_two_lines() {
    let text = "0 1\n0 1 _\nS H\nS 0 H 1 R\nS 1 H 1 R\nS _ H _ R\n";
    let m = MachineDescription::parse_deterministic(text).unwrap();
    let mut run = m.instantiate_deterministic("0");
    let mut trace = vec![run.render()];
    while !run.halted() {
        assert!(run.can_step());
        run.step();
        trace.push(run.render());
    }
    assert_eq!(
        trace,
        vec![
            vec![segment("S", Style::State), segment("0", Style::Head)],
            vec![
                segment("1", Style::Plain),
                segment("H", Style::State),
                segment("_", Style::Head),
            ],
        ]
    );
}
