use std::collections::VecDeque;
use turing_machine::machine::MachineDescription;
use turing_machine::tape::Configuration;
use turing_machine::token::{Direction, State, Symbol};

fn tape(names: &[&str]) -> VecDeque<Symbol> {
    names.iter().map(|n| Symbol::new(n)).collect()
}

fn configuration(prefix: &[&str], state: &str, symbol: &str, suffix: &[&str]) -> Configuration {
    Configuration {
        prefix: tape(prefix),
        head: (State::new(state), Symbol::new(symbol)),
        suffix: tape(suffix),
    }
}

fn same(a: &Configuration, b: &Configuration) -> bool {
    a.prefix == b.prefix && a.head == b.head && a.suffix == b.suffix
}

#[test]
fn tokens_compare_by_name() {
    assert!(Symbol::new("a").same(&Symbol::new("a")));
    assert!(!Symbol::new("a").same(&Symbol::new("b")));
    assert!(State::new("S").same(&State::start()));
    assert!(!State::new("S").same(&State::halt()));
    assert_eq!(Symbol::blank(), Symbol::new("_"));
    assert_eq!(Symbol::wildcard(), Symbol::new("*"));
    assert_eq!(State::start(), State::new("S"));
    assert_eq!(State::halt(), State::new("H"));
    assert!(State::new("H").is_halt());
    assert!(!State::new("HH").is_halt());
}

#[test]
fn compound_symbols_have_more_than_one_character() {
    assert!(!Symbol::new("a").is_compound());
    assert!(!Symbol::new("Σ").is_compound());
    assert!(Symbol::new("ab").is_compound());
    assert!(Symbol::new("(q,0)").is_compound());
}

#[test]
fn step_right_leaves_the_written_symbol_on_the_left() {
    let mut c = configuration(&["x"], "S", "a", &["b", "c"]);
    c.step(State::new("T"), Symbol::new("w"), Direction::Right);
    assert!(same(&c, &configuration(&["x", "w"], "T", "b", &["c"])));
}

#[test]
fn step_left_leaves_the_written_symbol_on_the_right() {
    let mut c = configuration(&["x", "y"], "S", "a", &["b"]);
    c.step(State::new("T"), Symbol::new("w"), Direction::Left);
    assert!(same(&c, &configuration(&["x"], "T", "y", &["w", "b"])));
}

#[test]
fn step_past_either_end_reads_a_blank() {
    let mut c = configuration(&[], "S", "a", &[]);
    c.step(State::new("S"), Symbol::new("b"), Direction::Left);
    assert!(same(&c, &configuration(&[], "S", "_", &["b"])));
    let mut d = configuration(&[], "S", "a", &[]);
    d.step(State::new("S"), Symbol::new("b"), Direction::Right);
    assert!(same(&d, &configuration(&["b"], "S", "_", &[])));
}

#[test]
fn configuration_halts_in_the_halt_state() {
    assert!(configuration(&[], "H", "a", &[]).halted());
    assert!(!configuration(&[], "S", "H", &["H"]).halted());
}

#[test]
fn clone_keeps_the_tape() {
    let c = configuration(&["x", "y"], "S", "a", &["b"]);
    let d = c.clone();
    assert!(same(&c, &d));
}

#[test]
fn instantiate_puts_the_head_on_the_first_word() {
    let m = MachineDescription::parse("0 1\n0 1 _\nS H\n").unwrap();
    let run = m.instantiate(" 0 1\n1 ");
    assert_eq!(run.configurations.len(), 1);
    assert!(same(&run.configurations[0], &configuration(&[], "S", "0", &["1", "1"])));
}

#[test]
fn instantiate_on_empty_input_gives_a_blank_tape() {
    let m = MachineDescription::parse("0 1\n0 1 _\nS H\n").unwrap();
    let run = m.instantiate("");
    assert_eq!(run.configurations.len(), 1);
    assert!(same(&run.configurations[0], &configuration(&[], "S", "_", &[])));
    let single = m.instantiate_deterministic("  ");
    assert!(same(&single.configuration, &configuration(&[], "S", "_", &[])));
}

#[test]
fn run_without_live_branches_has_halted() {
    let m = MachineDescription::parse("0\n0 _\nS H\n").unwrap();
    let mut run = m.instantiate("0");
    assert!(!run.halted());
    assert!(!run.step());
    assert_eq!(run.configurations.len(), 0);
    assert!(run.halted());
    assert!(!run.step());
}

#[test]
fn run_with_a_branch_outside_the_halt_state_has_not_halted() {
    let m = MachineDescription::parse("a\na _\nS H\nS a H a R\nS a S a R\n").unwrap();
    let mut run = m.instantiate("a");
    assert!(run.step());
    assert_eq!(run.configurations.len(), 2);
    assert!(run.configurations[0].halted());
    assert!(!run.configurations[1].halted());
    assert!(!run.halted());
}

#[test]
fn single_rule_machine_writes_and_moves_right() {
    let m = MachineDescription::parse("0 1\n0 1 _\nS H\nS 0 H 1 R\n").unwrap();
    let mut run = m.instantiate("0");
    assert_eq!(run.configurations.len(), 1);
    assert!(same(&run.configurations[0], &configuration(&[], "S", "0", &[])));
    assert!(!run.halted());
    assert!(run.step());
    assert_eq!(run.configurations.len(), 1);
    assert!(same(&run.configurations[0], &configuration(&["1"], "H", "_", &[])));
    assert!(run.halted());
}

#[test]
fn two_rules_give_two_branches() {
    let m = MachineDescription::parse("a\na b c _\nS H\nS a H b R\nS a H c L\n").unwrap();
    let mut run = m.instantiate("a");
    assert!(run.step());
    assert_eq!(run.configurations.len(), 2);
    assert!(same(&run.configurations[0], &configuration(&["b"], "H", "_", &[])));
    assert!(same(&run.configurations[1], &configuration(&[], "H", "_", &["c"])));
    assert!(run.halted());
}

#[test]
fn round_replaces_each_branch_by_its_successors() {
    let text = "a\na _\nS T H\nS a S a R\nS a T a R\nS a H a L\nT _ H _ L\n";
    let m = MachineDescription::parse(text).unwrap();
    let mut run = m.instantiate("a a");
    assert!(run.step());
    assert_eq!(run.configurations.len(), 3);
    assert!(same(&run.configurations[0], &configuration(&["a"], "S", "a", &[])));
    assert!(same(&run.configurations[1], &configuration(&["a"], "T", "a", &[])));
    assert!(same(&run.configurations[2], &configuration(&[], "H", "_", &["a", "a"])));
    assert!(run.step());
    assert_eq!(run.configurations.len(), 3);
    assert!(same(&run.configurations[0], &configuration(&["a", "a"], "S", "_", &[])));
    assert!(same(&run.configurations[1], &configuration(&["a", "a"], "T", "_", &[])));
    assert!(same(&run.configurations[2], &configuration(&[], "H", "a", &["a"])));
    assert!(run.step());
    assert_eq!(run.configurations.len(), 1);
    assert!(same(&run.configurations[0], &configuration(&["a"], "H", "a", &["_"])));
    assert!(run.halted());
}

#[test]
fn wildcard_rule_steps_over_any_symbol() {
    let m = MachineDescription::parse("a b\na b _\nS H\nS _ H _ L\nS * S x R\n").unwrap();
    let mut run = m.instantiate("a b");
    assert!(run.step());
    assert!(same(&run.configurations[0], &configuration(&["x"], "S", "b", &[])));
    assert!(run.step());
    assert!(same(&run.configurations[0], &configuration(&["x", "x"], "S", "_", &[])));
    assert!(run.step());
    assert!(same(&run.configurations[0], &configuration(&["x"], "H", "x", &["_"])));
    assert!(run.halted());
}

#[test]
fn deterministic_step_follows_the_table() {
    let text = "a\na _\nS T H\nS a T b R\nS _ H _ L\nT a T a R\nT _ H c L\n";
    let m = MachineDescription::parse_deterministic(text).unwrap();
    let mut run = m.instantiate_deterministic("a a");
    assert!(run.can_step());
    run.step();
    assert!(same(&run.configuration, &configuration(&["b"], "T", "a", &[])));
    assert!(!run.halted());
    assert!(run.can_step());
    run.step();
    assert!(same(&run.configuration, &configuration(&["b", "a"], "T", "_", &[])));
    assert!(run.can_step());
    run.step();
    assert!(same(&run.configuration, &configuration(&["b"], "H", "a", &["c"])));
    assert!(run.halted());
    assert!(!run.can_step());
}

#[test]
fn deterministic_run_cannot_step_on_a_symbol_outside_gamma() {
    let m = MachineDescription::parse_deterministic("a\na _\nS H\nS a H a R\nS _ H _ R\n").unwrap();
    let run = m.instantiate_deterministic("z");
    assert!(!run.can_step());
}
