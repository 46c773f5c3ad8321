use pomme::compiler::{
    analyse_links_part, apply_variable, compile_source, get_link_line_type, is_valid_condition, split_sections, Env,
    LinkLineType,
};
use pomme::identifier::{
    from_decimal_to_node_name, from_node_name_to_decimal, get_nodes_of_range, get_sum_values, increment_node_name,
};
use pomme::{init_map_from_text, CompileError};

fn lines(text: &str) -> Vec<Vec<u8>> {
    text.split('\n').map(|l| l.as_bytes().to_vec()).collect()
}

fn edges(found: Vec<(Vec<u8>, Vec<u8>)>) -> Vec<(String, String)> {
    found
        .into_iter()
        .map(|(a, b)| (String::from_utf8(a).unwrap(), String::from_utf8(b).unwrap()))
        .collect()
}

fn pair(a: &str, b: &str) -> (String, String) {
    (a.to_string(), b.to_string())
}

fn compile(src: &str) -> Result<String, CompileError> {
    compile_source(src.as_bytes()).map(|v| String::from_utf8(v).unwrap())
}

#[test]
fn decode_uses_first_letter_as_units() {
    assert_eq!(from_node_name_to_decimal(b"A"), Some(1));
    assert_eq!(from_node_name_to_decimal(b"Z"), Some(26));
    assert_eq!(from_node_name_to_decimal(b"AA"), Some(27));
    assert_eq!(from_node_name_to_decimal(b"BA"), Some(28));
    assert_eq!(from_node_name_to_decimal(b"AB"), Some(53));
    assert_eq!(from_node_name_to_decimal(b""), Some(0));
    assert_eq!(from_node_name_to_decimal(b"a"), None);
    assert_eq!(from_node_name_to_decimal(b"ZZZZZZZZZZZZZZZZ"), None);
}

#[test]
fn encode_inverts_decode() {
    assert_eq!(from_decimal_to_node_name(0), b"".to_vec());
    assert_eq!(from_decimal_to_node_name(1), b"A".to_vec());
    assert_eq!(from_decimal_to_node_name(26), b"Z".to_vec());
    assert_eq!(from_decimal_to_node_name(27), b"AA".to_vec());
    assert_eq!(from_decimal_to_node_name(28), b"BA".to_vec());
    for n in 0..2000u64 {
        assert_eq!(from_node_name_to_decimal(&from_decimal_to_node_name(n)), Some(n));
    }
    for s in ["A", "Q", "ZZ", "AZB", "HELLO"] {
        let n = from_node_name_to_decimal(s.as_bytes()).unwrap();
        assert_eq!(from_decimal_to_node_name(n), s.as_bytes().to_vec());
    }
}

#[test]
fn increment_carries_from_first_letter() {
    assert_eq!(increment_node_name(b"A"), b"B".to_vec());
    assert_eq!(increment_node_name(b"Z"), b"AA".to_vec());
    assert_eq!(increment_node_name(b"ZA"), b"AB".to_vec());
    assert_eq!(increment_node_name(b"ZZ"), b"AAA".to_vec());
    assert_eq!(increment_node_name(b""), b"A".to_vec());
}

#[test]
fn incrementing_reaches_the_end_of_a_range() {
    let a = b"XA".to_vec();
    let b = b"CB".to_vec();
    let steps = from_node_name_to_decimal(&b).unwrap() - from_node_name_to_decimal(&a).unwrap();
    let mut cur = a.clone();
    for _ in 0..steps {
        cur = increment_node_name(&cur);
    }
    assert_eq!(cur, b);
}

#[test]
fn ranges_list_every_identifier() {
    let r = get_nodes_of_range(b"A", b"D").unwrap();
    assert_eq!(r, vec![b"A".to_vec(), b"B".to_vec(), b"C".to_vec(), b"D".to_vec()]);
    let r = get_nodes_of_range(b"Y", b"BA").unwrap();
    assert_eq!(r, vec![b"Y".to_vec(), b"Z".to_vec(), b"AA".to_vec(), b"BA".to_vec()]);
    assert_eq!(get_nodes_of_range(b"C", b"C").unwrap(), vec![b"C".to_vec()]);
    assert_eq!(get_nodes_of_range(b"B", b"A"), None);
    assert_eq!(get_nodes_of_range(b"A", b"b"), None);
}

#[test]
fn sums_of_identifiers() {
    assert_eq!(get_sum_values(&vec![b"A".to_vec(), b"B".to_vec()]), Some(b"C".to_vec()));
    assert_eq!(get_sum_values(&vec![b"Z".to_vec(), b"A".to_vec()]), Some(b"AA".to_vec()));
    assert_eq!(get_sum_values(&vec![]), Some(b"".to_vec()));
    assert_eq!(get_sum_values(&vec![b"A1".to_vec()]), None);
}

#[test]
fn expressions_substitute_and_sum() {
    let env: Env = vec![(b"$i".to_vec(), b"C".to_vec()), (b"$j".to_vec(), b"B".to_vec())];
    assert_eq!(apply_variable(b"$i", &env), Ok(b"C".to_vec()));
    assert_eq!(apply_variable(b"X", &env), Ok(b"X".to_vec()));
    assert_eq!(apply_variable(b"$($i + $j + A)", &env), Ok(b"F".to_vec()));
    assert_eq!(apply_variable(b"$(Z+A)", &env), Ok(b"AA".to_vec()));
    assert_eq!(apply_variable(b"$k", &env), Err(CompileError::UnboundVariable));
    assert_eq!(apply_variable(b"$($k + A)", &env), Err(CompileError::UnboundVariable));
    assert_eq!(apply_variable(b"$(a + A)", &env), Err(CompileError::BadIdentifier));
}

#[test]
fn conditions_compare_and_negate() {
    let env: Env = vec![(b"$x".to_vec(), b"A".to_vec())];
    assert_eq!(is_valid_condition(b" $x == A", &env), Ok(true));
    assert_eq!(is_valid_condition(b"$x == B", &env), Ok(false));
    assert_eq!(is_valid_condition(b"not $x == B", &env), Ok(true));
    assert_eq!(is_valid_condition(b"NOT not $x == B", &env), Ok(false));
    assert_eq!(is_valid_condition(b"$($x + A) == B", &env), Ok(true));
    assert_eq!(is_valid_condition(b"$x", &env), Err(CompileError::MalformedLine));
}

#[test]
fn loop_expansion() {
    let mut env: Env = Vec::new();
    let found = analyse_links_part(&lines("for $i A B\n    $i -> $($i + A)"), &mut env, 0).unwrap();
    assert_eq!(edges(found), vec![pair("A", "B"), pair("B", "C")]);
}

#[test]
fn conditional_inclusion() {
    let mut env: Env = Vec::new();
    let src = "for $x A B\n    if $x == A\n        $x -> C\n    $x -> D";
    let found = analyse_links_part(&lines(src), &mut env, 0).unwrap();
    assert_eq!(edges(found), vec![pair("A", "C"), pair("A", "D"), pair("B", "D")]);
}

#[test]
fn declarations_make_products() {
    let mut env: Env = Vec::new();
    let found = analyse_links_part(&lines("A, B -> C, D\nE -> F"), &mut env, 0).unwrap();
    assert_eq!(
        edges(found),
        vec![pair("A", "C"), pair("A", "D"), pair("B", "C"), pair("B", "D"), pair("E", "F")]
    );
}

#[test]
fn nested_loops_and_scopes() {
    let mut env: Env = Vec::new();
    let src = "for $i A B\n  for $j A B\n    $i -> $j\n  $i -> Z\nY -> X\n   Q -> R";
    let found = analyse_links_part(&lines(src), &mut env, 0).unwrap();
    assert_eq!(
        edges(found),
        vec![
            pair("A", "A"),
            pair("A", "B"),
            pair("A", "Z"),
            pair("B", "A"),
            pair("B", "B"),
            pair("B", "Z"),
            pair("Y", "X")
        ]
    );
}

#[test]
fn analyser_errors() {
    let mut env: Env = Vec::new();
    assert_eq!(analyse_links_part(&lines("for $i B A\n  $i -> A"), &mut env, 0), Err(CompileError::BadRange));
    assert_eq!(analyse_links_part(&lines("for i A B\n  A -> A"), &mut env, 0), Err(CompileError::MalformedLine));
    assert_eq!(analyse_links_part(&lines("A B"), &mut env, 0), Err(CompileError::MalformedLine));
    assert_eq!(analyse_links_part(&lines("$q -> A"), &mut env, 0), Err(CompileError::UnboundVariable));
}

const SMALL: &str = "inputs:\n# the two inputs\nA -> B\n\n\noutputs:\nC -> C 1\n\n\ndef:\nD -> D 2\n\n\nlinks:\nA, B -> C, D\nD -> C\n";

#[test]
fn sections_are_found() {
    let secs = split_sections(SMALL.as_bytes()).unwrap();
    assert_eq!(secs.len(), 4);
    assert_eq!(secs[0], vec![b"A -> B".to_vec()]);
    assert_eq!(secs[1], vec![b"C -> C 1".to_vec()]);
    assert_eq!(secs[2], vec![b"D -> D 2".to_vec()]);
    assert_eq!(secs[3], vec![b"A, B -> C, D".to_vec(), b"D -> C".to_vec()]);
}

#[test]
fn compile_small_circuit() {
    assert_eq!(compile(SMALL).unwrap(), "1 00000 3 4\n2 00000 3 4\n3 00010\n4 00100 3\n");
}

#[test]
fn compile_loop_source() {
    let src = "inputs:\nA -> C\n\n\noutputs:\nD -> D 1\n\n\ndef:\nE -> E 0\n\n\nlinks:\nfor $i A B\n    $i -> $($i + A)\n";
    assert_eq!(compile(src).unwrap(), "1 00000 2\n2 00000 3\n3 00000\n4 00010\n5 00001\n");
}

#[test]
fn compile_masks_and_inputs() {
    let src = "inputs:\nA -> B 4\nC\n\n\noutputs:\nD -> E 1,2, 3\n\n\ndef:\nF -> F 0,4\n\n\nimports:\n\n\nlinks:\n";
    assert_eq!(compile(src).unwrap(), "1 00000\n2 00000\n3 00000\n4 01110\n5 01110\n6 10001\n");
}

#[test]
fn compile_errors() {
    let base = |extra: &str| format!("inputs:\nA\n\n\noutputs:\nB -> B 1\n\n\ndef:\nC -> C 1\n\n\nlinks:\n{}", extra);
    assert_eq!(compile(&base("A -> Q")), Err(CompileError::UnknownNode));
    assert_eq!(compile(&base("A -> B\n\n\nextra:\n")), Err(CompileError::UnknownSection));
    assert_eq!(compile(&base("A -> B\n\n\nlinks:\n")), Err(CompileError::DuplicateSection));
    assert_eq!(compile("inputs:\nA\n"), Err(CompileError::MissingSection));
    assert_eq!(compile("inputs\nA\n"), Err(CompileError::MalformedLine));
    assert_eq!(
        compile("inputs:\nA\n\n\noutputs:\nA -> A 1\n\n\ndef:\nC -> C 1\n\n\nlinks:\n"),
        Err(CompileError::DuplicateNode)
    );
    assert_eq!(
        compile("inputs:\nA\n\n\noutputs:\nB\n\n\ndef:\nC -> C 1\n\n\nlinks:\n"),
        Err(CompileError::MalformedLine)
    );
    assert_eq!(
        compile("inputs:\nA\n\n\noutputs:\nB -> B 7\n\n\ndef:\nC -> C 1\n\n\nlinks:\n"),
        Err(CompileError::MalformedLine)
    );
    assert_eq!(
        compile("inputs:\nC -> A\n\n\noutputs:\nB -> B 1\n\n\ndef:\nD -> D 1\n\n\nlinks:\n"),
        Err(CompileError::BadRange)
    );
}

#[test]
fn compiled_circuit_runs() {
    // a half adder: sum is XOR, carry is AND
    let src = "inputs:\nA -> B\n\n\noutputs:\nS -> S 1,3\nT -> T 2\n\n\ndef:\n\n\nlinks:\nA, B -> S, T\n";
    let object = compile_source(src.as_bytes()).unwrap();
    let mut graph = init_map_from_text(&object).unwrap();
    assert!(!graph.get_node(3).unwrap().is_on());
    assert!(!graph.get_node(4).unwrap().is_on());
    graph.turn_on_lamp(1).unwrap();
    graph.apply_changes().unwrap();
    assert!(graph.get_node(3).unwrap().is_on());
    assert!(!graph.get_node(4).unwrap().is_on());
    graph.turn_on_lamp(2).unwrap();
    graph.apply_changes().unwrap();
    assert!(!graph.get_node(3).unwrap().is_on());
    assert!(graph.get_node(4).unwrap().is_on());
}

#[test]
fn line_kinds() {
    assert_eq!(get_link_line_type(b"for $i A B"), LinkLineType::Loop);
    assert_eq!(get_link_line_type(b"if $i == A"), LinkLineType::Condition);
    assert_eq!(get_link_line_type(b"A -> B"), LinkLineType::LinkDeclaration);
}

#[test]
fn empty_identifiers_are_refused() {
    assert_eq!(get_nodes_of_range(b"", b"B"), None);
    assert_eq!(
        compile("inputs:\n-> B\n\n\noutputs:\nC -> C 1\n\n\ndef:\nD -> D 1\n\n\nlinks:\n"),
        Err(CompileError::BadRange)
    );
}

#[test]
fn not_needs_a_space() {
    let env: Env = vec![(b"$x".to_vec(), b"NOTE".to_vec())];
    assert_eq!(is_valid_condition(b"NOTE == $x", &env), Ok(true));
    assert_eq!(is_valid_condition(b"not\tNOTE == $x", &env), Ok(false));
}
