//! Every parse variant against the acceptance and rejection examples, and
//! pairwise equivalence of classification and fired rules over all short
//! inputs.

use recursive_ascent::Cursor;
use recursive_ascent::Error;
use recursive_ascent::Rule;
use recursive_ascent::inlined;
use recursive_ascent::merged;
use recursive_ascent::paper;
use recursive_ascent::parser;

type ParseFn = fn(&mut Cursor, &mut Vec<Rule>) -> Result<(), Error>;

const VARIANTS: [(&str, ParseFn); 15] = [
    ("paper::parse", paper::parse),
    ("paper::parse_reverse_goto", paper::parse_reverse_goto),
    ("paper::parse_chain_elim", paper::parse_chain_elim),
    ("paper::parse_minpush", paper::parse_minpush),
    ("paper::parse_max_inline", paper::parse_max_inline),
    ("parser::parse_reverse_goto", parser::parse_reverse_goto),
    ("parser::parse_asc_desc", parser::parse_asc_desc),
    ("parser::parse_push_first", parser::parse_push_first),
    ("parser::parse_minpush", parser::parse_minpush),
    ("inlined::parse_inline1", inlined::parse_inline1),
    ("inlined::parse_inline2", inlined::parse_inline2),
    ("inlined::parse_single_input_next1", inlined::parse_single_input_next1),
    ("inlined::parse_single_input_next", inlined::parse_single_input_next),
    ("merged::parse_parser_struct", merged::parse_parser_struct),
    ("merged::parse_single_match", merged::parse_single_match),
];

fn run(f: ParseFn, s: &str) -> (Result<(), Error>, Vec<Rule>) {
    let mut cursor = Cursor::new(s.chars().collect());
    let mut sink: Vec<Rule> = Vec::new();
    let r = f(&mut cursor, &mut sink);
    (r, sink)
}

fn assert_all_accept(s: &str, rules: &[Rule]) {
    for (name, f) in VARIANTS {
        let (r, sink) = run(f, s);
        assert_eq!(r, Ok(()), "{} on {:?}", name, s);
        assert_eq!(sink, rules.to_vec(), "{} on {:?}", name, s);
    }
}

fn assert_all_reject(s: &str, e: Error) {
    for (name, f) in VARIANTS {
        let (r, _) = run(f, s);
        assert_eq!(r, Err(e), "{} on {:?}", name, s);
    }
}

#[test]
fn accepts_single_terminal() {
    assert_all_accept("a", &[Rule::FA, Rule::TF, Rule::ET, Rule::SE]);
}

#[test]
fn accepts_sum() {
    assert_all_accept(
        "a+a",
        &[Rule::FA, Rule::TF, Rule::ET, Rule::FA, Rule::TF, Rule::EET, Rule::SE],
    );
}

#[test]
fn accepts_nested_group_and_products() {
    assert_all_accept(
        "a*(a+a)*a",
        &[
            Rule::FA,
            Rule::TF,
            Rule::FA,
            Rule::TF,
            Rule::ET,
            Rule::FA,
            Rule::TF,
            Rule::EET,
            Rule::FParen,
            Rule::TTF,
            Rule::FA,
            Rule::TTF,
            Rule::ET,
            Rule::SE,
        ],
    );
}

#[test]
fn accepts_mixed_precedence() {
    let (r0, rules0) = run(VARIANTS[0].1, "a+a*(a+a)*a");
    assert_eq!(r0, Ok(()));
    for (name, f) in VARIANTS {
        let (r, sink) = run(f, "a+a*(a+a)*a");
        assert_eq!(r, Ok(()), "{}", name);
        assert_eq!(sink, rules0, "{}", name);
    }
}

#[test]
fn rejects_empty_input() {
    assert_all_reject("", Error::EOF);
}

#[test]
fn rejects_unterminated_group() {
    assert_all_reject("(", Error::EOF);
}

#[test]
fn rejects_dangling_plus() {
    assert_all_reject("a+", Error::EOF);
}

#[test]
fn rejects_foreign_character() {
    assert_all_reject("a b", Error::Unexpected(' '));
    assert_all_reject("b", Error::Unexpected('b'));
}

#[test]
fn rejects_unmatched_closer() {
    assert_all_reject("a)", Error::Unexpected(')'));
}

#[test]
fn rejects_operator_without_operand() {
    assert_all_reject("+", Error::Unexpected('+'));
    assert_all_reject("a*", Error::EOF);
    assert_all_reject("()", Error::Unexpected(')'));
}

#[test]
fn variants_agree_on_all_short_inputs() {
    let alphabet = ['a', '+', '*', '(', ')'];
    let mut inputs: Vec<String> = vec![String::new()];
    let mut layer: Vec<String> = vec![String::new()];
    for _ in 0..4 {
        let mut next_layer: Vec<String> = Vec::new();
        for s in &layer {
            for c in alphabet {
                let mut t = s.clone();
                t.push(c);
                next_layer.push(t);
            }
        }
        inputs.extend(next_layer.iter().cloned());
        layer = next_layer;
    }
    for s in &inputs {
        let (r0, rules0) = run(VARIANTS[0].1, s);
        for (name, f) in VARIANTS {
            let (r, sink) = run(f, s);
            assert_eq!(r, r0, "{} on {:?}", name, s);
            assert_eq!(sink, rules0, "{} on {:?}", name, s);
        }
    }
}

#[test]
fn variants_agree_on_inputs_with_foreign_characters() {
    let alphabet = ['a', '+', '(', ')', 'b'];
    let mut layer: Vec<String> = vec![String::new()];
    let mut inputs: Vec<String> = Vec::new();
    for _ in 0..3 {
        let mut next_layer: Vec<String> = Vec::new();
        for s in &layer {
            for c in alphabet {
                let mut t = s.clone();
                t.push(c);
                next_layer.push(t);
            }
        }
        inputs.extend(next_layer.iter().cloned());
        layer = next_layer;
    }
    for s in &inputs {
        let (r0, rules0) = run(VARIANTS[0].1, s);
        for (name, f) in VARIANTS {
            let (r, sink) = run(f, s);
            assert_eq!(r, r0, "{} on {:?}", name, s);
            assert_eq!(sink, rules0, "{} on {:?}", name, s);
        }
    }
}
