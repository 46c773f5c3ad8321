use pomme::interpreter::{get_logical_block_from_line, get_storing_block_from_line, parse_u32_exec};
use pomme::{init_map_from_text, parse_object, GraphError, LoadError, Node};

#[test]
fn logic_lines() {
    let (node, id) = get_logical_block_from_line(b"3 00110 4 4 9").unwrap();
    assert_eq!(id, 3);
    match node {
        Node::LogicBlock(b) => {
            assert_eq!(b.get_requirements(), 0b00110);
            assert_eq!(b.get_value(), 0);
            assert_eq!(b.children, vec![4, 4, 9]);
        },
        _ => panic!("expected a logic block"),
    }
    assert_eq!(get_logical_block_from_line(b"3").unwrap_err(), LoadError::MalformedLine);
    assert_eq!(get_logical_block_from_line(b"3 00120").unwrap_err(), LoadError::MalformedLine);
    assert_eq!(get_logical_block_from_line(b"3 0011").unwrap_err(), LoadError::MalformedLine);
    assert_eq!(get_logical_block_from_line(b"x 00110").unwrap_err(), LoadError::MalformedLine);
}

#[test]
fn storing_lines() {
    let (node, id) = get_storing_block_from_line(b"^5 4 3 7").unwrap();
    assert_eq!(id, 5);
    match node {
        Node::StoringBlock(s) => {
            assert!(!s.is_on);
            assert_eq!(s.button_node, 4);
            assert_eq!(s.source, 3);
            assert_eq!(s.children, vec![7]);
        },
        _ => panic!("expected a storing block"),
    }
    assert_eq!(get_storing_block_from_line(b"^5 4").unwrap_err(), LoadError::MalformedLine);
    assert_eq!(get_storing_block_from_line(b"5 4 3").unwrap_err(), LoadError::MalformedLine);
}

#[test]
fn numbers() {
    assert_eq!(parse_u32_exec(b"0"), Some(0));
    assert_eq!(parse_u32_exec(b"4294967295"), Some(u32::MAX));
    assert_eq!(parse_u32_exec(b"4294967296"), None);
    assert_eq!(parse_u32_exec(b""), None);
    assert_eq!(parse_u32_exec(b"1a"), None);
}

#[test]
fn object_files_load() {
    let text = b"1 11111 3\n2 11111 3\n\n3 00110\n";
    let nodes = parse_object(text).unwrap();
    assert_eq!(nodes.len(), 3);
    let graph = init_map_from_text(text).unwrap();
    assert!(graph.get_node(3).unwrap().is_on());
    assert_eq!(graph.get_logical_block(3).unwrap().get_value(), 2);
    assert_eq!(init_map_from_text(b"1 11111\nzz\n").err(), Some(LoadError::MalformedLine));
    assert_eq!(
        init_map_from_text(b"1 11111\n1 00000\n").err(),
        Some(LoadError::Graph(GraphError::DuplicateNode))
    );
}

#[test]
fn latch_from_object_file() {
    let text = b"1 00000 3\n2 11111 3\n3 00100 5\n4 11111 5\n^5 4 3\n";
    let mut graph = init_map_from_text(text).unwrap();
    assert!(!graph.get_storing_block(5).unwrap().is_on);
    graph.turn_on_lamp(1).unwrap();
    graph.apply_changes().unwrap();
    assert!(graph.get_storing_block(5).unwrap().is_on);
    graph.turn_off_lamp(1).unwrap();
    graph.turn_off_lamp(4).unwrap();
    graph.apply_changes().unwrap();
    assert!(graph.get_storing_block(5).unwrap().is_on);
    graph.turn_on_lamp(4).unwrap();
    graph.apply_changes().unwrap();
    assert!(!graph.get_storing_block(5).unwrap().is_on);
}
