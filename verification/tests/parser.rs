use turing_machine::machine::{MachineDescription, ParseError};
use turing_machine::rule::{parse_rule, Rule};
use turing_machine::text::{is_whitespace, split_lines, split_whitespace};
use turing_machine::token::{Direction, State, Symbol};

fn rule(from: &str, read: &str, to: &str, write: &str, dir: Direction) -> Rule {
    Rule {
        from: State::new(from),
        read: Symbol::new(read),
        to: State::new(to),
        write: Symbol::new(write),
        dir,
    }
}

fn symbols(names: &[&str]) -> Vec<Symbol> {
    names.iter().map(|n| Symbol::new(n)).collect()
}

fn states(names: &[&str]) -> Vec<State> {
    names.iter().map(|n| State::new(n)).collect()
}

fn pair(state: &str, symbol: &str) -> (State, Symbol) {
    (State::new(state), Symbol::new(symbol))
}

#[test]
fn words_are_maximal_runs_without_separators() {
    assert_eq!(split_whitespace("  S  a\tT x   R "), vec!["S", "a", "T", "x", "R"]);
    assert_eq!(split_whitespace(""), Vec::<String>::new());
    assert_eq!(split_whitespace(" \t\r\n"), Vec::<String>::new());
    assert_eq!(split_whitespace("abc"), vec!["abc"]);
}

#[test]
fn words_split_at_unicode_separators() {
    assert_eq!(split_whitespace("a\u{00A0}b\u{3000}c\u{2003}d"), vec!["a", "b", "c", "d"]);
    assert_eq!(split_whitespace("Σ Γ"), vec!["Σ", "Γ"]);
    assert_eq!(split_whitespace("a\u{200B}b"), vec!["a\u{200B}b"]);
}

#[test]
fn separators_agree_with_the_standard_library() {
    let mut n: u32 = 0;
    while n <= 0x10FFFF {
        if let Some(c) = char::from_u32(n) {
            assert_eq!(is_whitespace(c), c.is_whitespace());
        }
        n += 1;
    }
}

#[test]
fn lines_skip_comments_and_empty_lines() {
    assert_eq!(split_lines("# c\n\na b\n#x\nc\n"), vec!["a b", "c"]);
    assert_eq!(split_lines(""), Vec::<String>::new());
    assert_eq!(split_lines("\n\n\n"), Vec::<String>::new());
    assert_eq!(split_lines("a"), vec!["a"]);
    assert_eq!(split_lines(" # not a comment\n"), vec![" # not a comment"]);
}

#[test]
fn lines_drop_the_carriage_return_before_a_line_feed() {
    assert_eq!(split_lines("a b\r\n\r\nc\r\n"), vec!["a b", "c"]);
    assert_eq!(split_lines("a\r"), vec!["a\r"]);
    assert_eq!(split_lines("a\r\r\n"), vec!["a\r"]);
}

#[test]
fn lines_agree_with_the_standard_library() {
    let texts = ["a\nb", "a\r\nb\r\n", "\r\n#\r\nx", "#\n\n \n", "x\ry\n\rz\n"];
    for t in texts {
        let expected: Vec<String> = t
            .lines()
            .filter(|l| !l.starts_with('#') && !l.is_empty())
            .map(|l| l.to_string())
            .collect();
        assert_eq!(split_lines(t), expected);
    }
}

#[test]
fn rule_has_five_fields() {
    assert_eq!(parse_rule("S a T x R"), Some(rule("S", "a", "T", "x", Direction::Right)));
    assert_eq!(parse_rule("  S  *  U  y  L  "), Some(rule("S", "*", "U", "y", Direction::Left)));
    assert_eq!(parse_rule("S a T x"), None);
    assert_eq!(parse_rule("S a T x R R"), None);
    assert_eq!(parse_rule("S a T x r"), None);
    assert_eq!(parse_rule("S a T x Left"), None);
    assert_eq!(parse_rule(""), None);
}

#[test]
fn description_without_rules_parses() {
    let m = MachineDescription::parse("0 1\n0 1 _\nS H\n").unwrap();
    assert_eq!(m.sigma, symbols(&["0", "1"]));
    assert_eq!(m.gamma, symbols(&["0", "1", "_"]));
    assert_eq!(m.q, states(&["S", "H"]));
    assert_eq!(m.delta, vec![]);
}

#[test]
fn description_without_rules_is_incomplete_as_a_function() {
    let r = MachineDescription::parse_deterministic("0 1\n0 1 _\nS H\n");
    assert_eq!(
        r.unwrap_err(),
        ParseError::IncompleteDelta(vec![pair("S", "0"), pair("S", "1"), pair("S", "_")])
    );
}

#[test]
fn sets_hold_each_member_once() {
    let m = MachineDescription::parse("a a b\nb _ a b _\nS H S T H\n").unwrap();
    assert_eq!(m.sigma, symbols(&["a", "b"]));
    assert_eq!(m.gamma, symbols(&["b", "_", "a"]));
    assert_eq!(m.q, states(&["S", "H", "T"]));
}

#[test]
fn comments_may_stand_between_any_lines() {
    let text = "# sigma\n0\n\n# gamma\n0 _\r\n#q\nS H\n\n# rules\nS 0 H 0 R\n# end\n";
    let m = MachineDescription::parse(text).unwrap();
    assert_eq!(m.sigma, symbols(&["0"]));
    assert_eq!(m.gamma, symbols(&["0", "_"]));
    assert_eq!(m.q, states(&["S", "H"]));
    assert_eq!(m.delta, vec![rule("S", "0", "H", "0", Direction::Right)]);
}

#[test]
fn missing_lines_are_an_unexpected_end() {
    assert_eq!(MachineDescription::parse("").unwrap_err(), ParseError::UnexpectedEof);
    assert_eq!(MachineDescription::parse("# only\n\n").unwrap_err(), ParseError::UnexpectedEof);
    assert_eq!(MachineDescription::parse("0 1\n").unwrap_err(), ParseError::UnexpectedEof);
    assert_eq!(MachineDescription::parse("0 1\n0 1 _\n").unwrap_err(), ParseError::UnexpectedEof);
    assert_eq!(
        MachineDescription::parse_deterministic("0 1\n0 1 _\n").unwrap_err(),
        ParseError::UnexpectedEof
    );
}

#[test]
fn gamma_must_hold_the_blank() {
    assert_eq!(MachineDescription::parse("0\n0 1\nS H\n").unwrap_err(), ParseError::MissingBlank);
    assert_eq!(MachineDescription::parse("0\n0 1\n").unwrap_err(), ParseError::MissingBlank);
    assert_eq!(
        MachineDescription::parse_deterministic("0\n0 __\nS H\n").unwrap_err(),
        ParseError::MissingBlank
    );
}

#[test]
fn q_must_hold_start_and_halt() {
    assert_eq!(MachineDescription::parse("0\n0 _\nH T\n").unwrap_err(), ParseError::MissingStart);
    assert_eq!(MachineDescription::parse("0\n0 _\nT\n").unwrap_err(), ParseError::MissingStart);
    assert_eq!(MachineDescription::parse("0\n0 _\nS T\n").unwrap_err(), ParseError::MissingHalt);
    assert_eq!(
        MachineDescription::parse_deterministic("0\n0 _\nS\n").unwrap_err(),
        ParseError::MissingHalt
    );
}

#[test]
fn bad_rule_lines_are_malformed() {
    let head = "0\n0 _\nS H\n";
    for line in ["S 0 H 0", "S 0 H 0 R extra", "S 0 H 0 X", " ", "S"] {
        let text = format!("{head}S _ H _ L\n{line}\n");
        assert_eq!(
            MachineDescription::parse(&text).unwrap_err(),
            ParseError::MalformedTransition
        );
        assert_eq!(
            MachineDescription::parse_deterministic(&text).unwrap_err(),
            ParseError::MalformedTransition
        );
    }
}

#[test]
fn rules_of_a_relation_accumulate() {
    let m = MachineDescription::parse("a\na _\nS H\nS a H b R\nS a H c L\nS a H b R\n").unwrap();
    assert_eq!(
        m.delta,
        vec![rule("S", "a", "H", "b", Direction::Right), rule("S", "a", "H", "c", Direction::Left)]
    );
}

#[test]
fn wildcard_does_not_override_an_explicit_rule() {
    let m = MachineDescription::parse("a b\na b _\nS T U H\nS a T x R\nS * U y L\n").unwrap();
    assert_eq!(
        m.delta,
        vec![
            rule("S", "a", "T", "x", Direction::Right),
            rule("S", "b", "U", "y", Direction::Left),
            rule("S", "_", "U", "y", Direction::Left),
        ]
    );
}

#[test]
fn wildcard_goes_by_the_order_of_the_lines() {
    let m = MachineDescription::parse("a\na _\nS T H\nS * T y L\nS a H x R\nT * H a R\n").unwrap();
    assert_eq!(
        m.delta,
        vec![
            rule("S", "a", "T", "y", Direction::Left),
            rule("S", "_", "T", "y", Direction::Left),
            rule("S", "a", "H", "x", Direction::Right),
            rule("T", "a", "H", "a", Direction::Right),
            rule("T", "_", "H", "a", Direction::Right),
        ]
    );
}

#[test]
fn later_rule_replaces_an_earlier_one_in_a_function() {
    let text = "a\na _\nS H\nS a H a R\nS _ H _ R\nS a S b L\n";
    let m = MachineDescription::parse_deterministic(text).unwrap();
    assert_eq!(
        m.delta,
        vec![rule("S", "a", "S", "b", Direction::Left), rule("S", "_", "H", "_", Direction::Right)]
    );
}

#[test]
fn function_reads_the_wildcard_as_a_symbol() {
    let text = "a\na _\nS H\nS * H a R\n";
    assert_eq!(
        MachineDescription::parse_deterministic(text).unwrap_err(),
        ParseError::IncompleteDelta(vec![pair("S", "a"), pair("S", "_")])
    );
}

#[test]
fn every_missing_pair_is_reported_once() {
    let text = "a\na _ a\nS T H T\nS a T a R\nT _ H _ L\nH a H a R\n";
    assert_eq!(
        MachineDescription::parse_deterministic(text).unwrap_err(),
        ParseError::IncompleteDelta(vec![pair("S", "_"), pair("T", "a")])
    );
}

#[test]
fn total_function_parses() {
    let text = "a\na _\nS T H\nS a T a R\nS _ H _ R\nT a T a R\nT _ H a L\n";
    let m = MachineDescription::parse_deterministic(text).unwrap();
    assert_eq!(m.delta.len(), 4);
    assert_eq!(m.delta[3], rule("T", "_", "H", "a", Direction::Left));
}

#[test]
fn each_failure_has_its_message() {
    assert_eq!(
        ParseError::UnexpectedEof.message(),
        "unexpected EOF, could not read the sets Σ, Γ and Q"
    );
    assert_eq!(ParseError::MissingBlank.message(), "missing blank symbol \"_\" from Γ");
    assert_eq!(ParseError::MissingStart.message(), "missing initial state \"S\" from Q");
    assert_eq!(ParseError::MissingHalt.message(), "missing halting state \"H\" from Q");
    assert_eq!(ParseError::MalformedTransition.message(), "invalid δ transition entry");
    assert_eq!(
        ParseError::IncompleteDelta(vec![pair("S", "_")]).message(),
        "transitions are missing from the function δ"
    );
}
