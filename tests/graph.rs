use pomme::{Graph, GraphError, LogicBlock, Node, StoringBlock};

#[test]
fn binary_or() {
    /*
     * A > c
     * B > c
     * A -> B = lamp
     * C = OR
     * */
    let mut graph = Graph::new();
    let mut nodes = Vec::new();
    let input_a = Node::LogicBlock(LogicBlock::new(0b11111, vec![]));
    nodes.push((input_a, 1));
    let input_b = Node::LogicBlock(LogicBlock::new(0b11111, vec![]));
    nodes.push((input_b, 2));
    // output (binary or)
    let output = Node::LogicBlock(LogicBlock::new(0b00110, vec![]));
    nodes.push((output, 3));
    graph.insert_nodes(nodes).unwrap();
    graph.insert_links(vec![(1, 3), (2, 3)]).unwrap();
    assert!(graph.get_logical_block(1).unwrap().children == [3]);
    assert!(graph.get_logical_block(2).unwrap().children == [3]);
    assert!(graph.get_logical_block(3).unwrap().children == []);
    // add the init actions
    graph.init_graph_state().unwrap();
    assert!(graph.get_logical_block(1).unwrap().get_value() == 0);
    assert!(graph.get_logical_block(2).unwrap().get_value() == 0);
    assert!(graph.get_logical_block(3).unwrap().get_value() == 2);
    assert!(graph.get_logical_block(1).unwrap().is_on());
    assert!(graph.get_logical_block(2).unwrap().is_on());
    assert!(graph.get_logical_block(3).unwrap().is_on());
}

#[test]
fn binary_and() {
    /*
     * A > c
     * B > c
     * A -> B = lamp
     * C = AND
     * */
    let mut graph = Graph::new();
    let mut nodes = Vec::new();
    let input_a = Node::LogicBlock(LogicBlock::new(0b11111, vec![]));
    nodes.push((input_a, 1));
    let input_b = Node::LogicBlock(LogicBlock::new(0b11111, vec![]));
    nodes.push((input_b, 2));
    // output (binary or)
    let output = Node::LogicBlock(LogicBlock::new(0b00100, vec![]));
    nodes.push((output, 3));
    graph.insert_nodes(nodes).unwrap();
    graph.insert_links(vec![(1, 3), (2, 3)]).unwrap();
    assert!(graph.get_logical_block(1).unwrap().children == [3]);
    assert!(graph.get_logical_block(2).unwrap().children == [3]);
    assert!(graph.get_logical_block(3).unwrap().children == []);
    // add the init actions
    graph.init_graph_state().unwrap();
    assert!(graph.get_logical_block(1).unwrap().get_value() == 0);
    assert!(graph.get_logical_block(2).unwrap().get_value() == 0);
    assert!(graph.get_logical_block(3).unwrap().get_value() == 2);
    assert!(graph.get_logical_block(1).unwrap().is_on());
    assert!(graph.get_logical_block(2).unwrap().is_on());
    assert!(graph.get_logical_block(3).unwrap().is_on());
}

#[test]
fn binary_long() {
    /*
     * A > e
     * D > e
     * B > f
     * C > f
     * E > g
     * F > g
     * E = OR
     * F = AND
     * G = AND
     * A -> C = lamp
     * */
    let mut graph = Graph::new();
    let mut nodes = Vec::new();

    let input_a = Node::LogicBlock(LogicBlock::new(0b11111, vec![]));
    nodes.push((input_a, 1));
    let input_b = Node::LogicBlock(LogicBlock::new(0b11111, vec![]));
    nodes.push((input_b, 2));
    let input_c = Node::LogicBlock(LogicBlock::new(0b11111, vec![]));
    nodes.push((input_c, 3));
    let input_d = Node::LogicBlock(LogicBlock::new(0b00000, vec![]));
    nodes.push((input_d, 4));

    let input_e = Node::LogicBlock(LogicBlock::new(0b00110, vec![]));
    nodes.push((input_e, 5));
    let input_f = Node::LogicBlock(LogicBlock::new(0b00100, vec![]));
    nodes.push((input_f, 6));
    // output
    let input_g = Node::LogicBlock(LogicBlock::new(0b00100, vec![]));
    nodes.push((input_g, 7));

    // output (binary or)
    graph.insert_nodes(nodes).unwrap();
    graph.insert_links(vec![(1, 5), (4, 5)]).unwrap();
    graph.insert_links(vec![(2, 6), (3, 6)]).unwrap();
    graph.insert_links(vec![(5, 7), (6, 7)]).unwrap();
    assert!(graph.get_logical_block(1).unwrap().children == [5]);
    assert!(graph.get_logical_block(2).unwrap().children == [6]);
    assert!(graph.get_logical_block(3).unwrap().children == [6]);
    assert!(graph.get_logical_block(4).unwrap().children == [5]);
    assert!(graph.get_logical_block(5).unwrap().children == [7]);
    assert!(graph.get_logical_block(6).unwrap().children == [7]);
    assert!(graph.get_logical_block(7).unwrap().children == []);
    // add the init actions
    graph.init_graph_state().unwrap();
    assert!(graph.get_logical_block(1).unwrap().get_value() == 0);
    assert!(graph.get_logical_block(2).unwrap().get_value() == 0);
    assert!(graph.get_logical_block(3).unwrap().get_value() == 0);
    assert!(graph.get_logical_block(4).unwrap().get_value() == 0);
    assert!(graph.get_logical_block(5).unwrap().get_value() == 1);
    assert!(graph.get_logical_block(6).unwrap().get_value() == 2);
    assert!(graph.get_logical_block(7).unwrap().get_value() == 2);
    assert!(graph.get_logical_block(1).unwrap().is_on());
    assert!(graph.get_logical_block(2).unwrap().is_on());
    assert!(graph.get_logical_block(3).unwrap().is_on());
    assert!(!graph.get_logical_block(4).unwrap().is_on());
    assert!(graph.get_logical_block(5).unwrap().is_on());
    assert!(graph.get_logical_block(6).unwrap().is_on());
    assert!(graph.get_logical_block(7).unwrap().is_on());
}

#[test]
fn test_storing_block1() {
    /*
     * A > c
     * B > c
     * C > ^e
     * D - ^e
     * A -> B = lamp
     * C = AND
     * D = lamp / stone
     * */
    let mut graph = Graph::new();
    let mut nodes = Vec::new();

    let input_a = Node::LogicBlock(LogicBlock::new(0b11111, vec![]));
    nodes.push((input_a, 1));
    let input_b = Node::LogicBlock(LogicBlock::new(0b11111, vec![]));
    nodes.push((input_b, 2));
    let input_c = Node::LogicBlock(LogicBlock::new(0b00100, vec![]));
    nodes.push((input_c, 3));
    let input_d = Node::LogicBlock(LogicBlock::new(0b00000, vec![]));
    nodes.push((input_d, 4));
    let input_e = Node::StoringBlock(StoringBlock::new(false, 3, 4, vec![]));
    nodes.push((input_e, 5));

    graph.insert_nodes(nodes).unwrap();

    graph.insert_links(vec![(1, 3), (2, 3)]).unwrap();
    graph.insert_links(vec![(3, 5), (4, 5)]).unwrap();

    graph.init_graph_state().unwrap();

    assert!(graph.get_logical_block(1).unwrap().get_value() == 0);
    assert!(graph.get_logical_block(2).unwrap().get_value() == 0);
    assert!(graph.get_logical_block(3).unwrap().get_value() == 2);
    assert!(graph.get_logical_block(4).unwrap().get_value() == 0);

    assert!(graph.get_logical_block(1).unwrap().is_on() == true);
    assert!(graph.get_logical_block(2).unwrap().is_on() == true);
    assert!(graph.get_logical_block(3).unwrap().is_on() == true);
    assert!(graph.get_logical_block(4).unwrap().is_on() == false);
    assert!(graph.get_storing_block(5).unwrap().is_on == false);
}

#[test]
fn test_storing_block2() {
    /*
     * A > c
     * B > c
     * C > ^e
     * D - ^e
     * A -> B = lamp
     * C = AND
     * D = lamp / stone
     * */
    let mut graph = Graph::new();
    let mut nodes = Vec::new();

    let input_a = Node::LogicBlock(LogicBlock::new(0b11111, vec![]));
    nodes.push((input_a, 1));
    let input_b = Node::LogicBlock(LogicBlock::new(0b11111, vec![]));
    nodes.push((input_b, 2));
    let input_c = Node::LogicBlock(LogicBlock::new(0b00100, vec![]));
    nodes.push((input_c, 3));
    let input_d = Node::LogicBlock(LogicBlock::new(0b00000, vec![]));
    nodes.push((input_d, 4));
    let input_e = Node::StoringBlock(StoringBlock::new(true, 3, 4, vec![]));
    nodes.push((input_e, 5));

    graph.insert_nodes(nodes).unwrap();

    graph.insert_links(vec![(1, 3), (2, 3)]).unwrap();
    graph.insert_links(vec![(3, 5), (4, 5)]).unwrap();

    graph.init_graph_state().unwrap();

    assert!(graph.get_logical_block(1).unwrap().get_value() == 0);
    assert!(graph.get_logical_block(2).unwrap().get_value() == 0);
    assert!(graph.get_logical_block(3).unwrap().get_value() == 2);
    assert!(graph.get_logical_block(4).unwrap().get_value() == 0);

    assert!(graph.get_logical_block(1).unwrap().is_on() == true);
    assert!(graph.get_logical_block(2).unwrap().is_on() == true);
    assert!(graph.get_logical_block(3).unwrap().is_on() == true);
    assert!(graph.get_logical_block(4).unwrap().is_on() == false);
    assert!(graph.get_storing_block(5).unwrap().is_on == true);
}

#[test]
fn test_storing_block3() {
    /*
     * A > c
     * B > c
     * C > ^e
     * D - ^e
     * A -> B = lamp
     * C = AND
     * D = lamp / stone
     * */
    let mut graph = Graph::new();
    let mut nodes = Vec::new();

    let input_a = Node::LogicBlock(LogicBlock::new(0b11111, vec![]));
    nodes.push((input_a, 1));
    let input_b = Node::LogicBlock(LogicBlock::new(0b11111, vec![]));
    nodes.push((input_b, 2));
    let input_c = Node::LogicBlock(LogicBlock::new(0b00100, vec![]));
    nodes.push((input_c, 3));
    let input_d = Node::LogicBlock(LogicBlock::new(0b11111, vec![]));
    nodes.push((input_d, 4));
    let input_e = Node::StoringBlock(StoringBlock::new(false, 3, 4, vec![]));
    nodes.push((input_e, 5));

    graph.insert_nodes(nodes).unwrap();

    graph.insert_links(vec![(1, 3), (2, 3)]).unwrap();
    graph.insert_links(vec![(3, 5), (4, 5)]).unwrap();

    graph.init_graph_state().unwrap();

    assert!(graph.get_logical_block(1).unwrap().get_value() == 0);
    assert!(graph.get_logical_block(2).unwrap().get_value() == 0);
    assert!(graph.get_logical_block(3).unwrap().get_value() == 2);
    assert!(graph.get_logical_block(4).unwrap().get_value() == 0);

    assert!(graph.get_logical_block(1).unwrap().is_on() == true);
    assert!(graph.get_logical_block(2).unwrap().is_on() == true);
    assert!(graph.get_logical_block(3).unwrap().is_on() == true);
    assert!(graph.get_logical_block(4).unwrap().is_on() == true);
    assert!(graph.get_storing_block(5).unwrap().is_on == true);
}

#[test]
fn test_storing_block4() {
    /*
     * A > c
     * B > c
     * C > ^e
     * D - ^e
     * A -> B = lamp
     * C = AND
     * D = lamp / stone
     * */
    let mut graph = Graph::new();
    let mut nodes = Vec::new();

    let input_a = Node::LogicBlock(LogicBlock::new(0b00000, vec![]));
    nodes.push((input_a, 1));
    let input_b = Node::LogicBlock(LogicBlock::new(0b11111, vec![]));
    nodes.push((input_b, 2));
    let input_c = Node::LogicBlock(LogicBlock::new(0b00100, vec![]));
    nodes.push((input_c, 3));
    let input_d = Node::LogicBlock(LogicBlock::new(0b11111, vec![]));
    nodes.push((input_d, 4));
    let input_e = Node::StoringBlock(StoringBlock::new(true, 3, 4, vec![]));
    nodes.push((input_e, 5));

    graph.insert_nodes(nodes).unwrap();

    graph.insert_links(vec![(1, 3), (2, 3)]).unwrap();
    graph.insert_links(vec![(3, 5), (4, 5)]).unwrap();

    graph.init_graph_state().unwrap();

    assert!(graph.get_logical_block(1).unwrap().get_value() == 0);
    assert!(graph.get_logical_block(2).unwrap().get_value() == 0);
    assert!(graph.get_logical_block(3).unwrap().get_value() == 1);
    assert!(graph.get_logical_block(4).unwrap().get_value() == 0);

    assert!(!graph.get_logical_block(1).unwrap().is_on());
    assert!(graph.get_logical_block(2).unwrap().is_on());
    assert!(!graph.get_logical_block(3).unwrap().is_on());
    assert!(graph.get_logical_block(4).unwrap().is_on());
    assert!(!graph.get_storing_block(5).unwrap().is_on);

    graph.turn_on_lamp(1).unwrap();
    graph.do_actions().unwrap();
    assert!(graph.get_storing_block(5).unwrap().is_on);
    graph.turn_off_lamp(1).unwrap();
    graph.turn_off_lamp(4).unwrap();
    graph.do_actions().unwrap();
    assert!(graph.get_storing_block(5).unwrap().is_on);
    graph.turn_on_lamp(4).unwrap();
    graph.do_actions().unwrap();
    assert!(!graph.get_storing_block(5).unwrap().is_on);
}

#[test]
fn graph_test_adder() {
    /*
     * */
    let mut graph = Graph::new();
    let mut nodes = Vec::new();

    // input 1
    nodes.push((Node::LogicBlock(LogicBlock::new(0b00000, vec![])), 1));
    nodes.push((Node::LogicBlock(LogicBlock::new(0b00000, vec![])), 2));
    nodes.push((Node::LogicBlock(LogicBlock::new(0b00000, vec![])), 3));
    nodes.push((Node::LogicBlock(LogicBlock::new(0b00000, vec![])), 4));
    nodes.push((Node::LogicBlock(LogicBlock::new(0b00000, vec![])), 5));
    nodes.push((Node::LogicBlock(LogicBlock::new(0b00000, vec![])), 6));
    nodes.push((Node::LogicBlock(LogicBlock::new(0b00000, vec![])), 7));
    nodes.push((Node::LogicBlock(LogicBlock::new(0b00000, vec![])), 8));

    // input 2
    nodes.push((Node::LogicBlock(LogicBlock::new(0b00000, vec![])), 9));
    nodes.push((Node::LogicBlock(LogicBlock::new(0b00000, vec![])), 10));
    nodes.push((Node::LogicBlock(LogicBlock::new(0b00000, vec![])), 11));
    nodes.push((Node::LogicBlock(LogicBlock::new(0b00000, vec![])), 12));
    nodes.push((Node::LogicBlock(LogicBlock::new(0b00000, vec![])), 13));
    nodes.push((Node::LogicBlock(LogicBlock::new(0b00000, vec![])), 14));
    nodes.push((Node::LogicBlock(LogicBlock::new(0b00000, vec![])), 15));
    nodes.push((Node::LogicBlock(LogicBlock::new(0b00000, vec![])), 16));

    // ouput
    nodes.push((Node::LogicBlock(LogicBlock::new(0b01010, vec![])), 17));
    nodes.push((Node::LogicBlock(LogicBlock::new(0b01010, vec![])), 18));
    nodes.push((Node::LogicBlock(LogicBlock::new(0b01010, vec![])), 19));
    nodes.push((Node::LogicBlock(LogicBlock::new(0b01010, vec![])), 20));
    nodes.push((Node::LogicBlock(LogicBlock::new(0b01010, vec![])), 21));
    nodes.push((Node::LogicBlock(LogicBlock::new(0b01010, vec![])), 22));
    nodes.push((Node::LogicBlock(LogicBlock::new(0b01010, vec![])), 23));
    nodes.push((Node::LogicBlock(LogicBlock::new(0b01010, vec![])), 24));

    // rest
    nodes.push((Node::LogicBlock(LogicBlock::new(0b01100, vec![])), 25));
    nodes.push((Node::LogicBlock(LogicBlock::new(0b01100, vec![])), 26));
    nodes.push((Node::LogicBlock(LogicBlock::new(0b01100, vec![])), 27));
    nodes.push((Node::LogicBlock(LogicBlock::new(0b01100, vec![])), 28));
    nodes.push((Node::LogicBlock(LogicBlock::new(0b01100, vec![])), 29));
    nodes.push((Node::LogicBlock(LogicBlock::new(0b01100, vec![])), 30));
    nodes.push((Node::LogicBlock(LogicBlock::new(0b01100, vec![])), 31));

    graph.insert_nodes(nodes).unwrap();

    /* from rightest bit to leftest */
    // bit 1
    graph.insert_links(vec![(1, 17), (9, 17), (1, 25), (9, 25)]).unwrap();

    // bit 2
    graph.insert_links(vec![
        (2, 18),
        (10, 18),
        (2, 26),
        (10, 26),
        (25, 18),
        (25, 26),
    ]).unwrap();

    // bit 3
    graph.insert_links(vec![
        (3, 19),
        (11, 19),
        (3, 27),
        (11, 27),
        (26, 19),
        (26, 27),
    ]).unwrap();

    // bit 4
    graph.insert_links(vec![
        (4, 20),
        (12, 20),
        (4, 28),
        (12, 28),
        (27, 20),
        (27, 28),
    ]).unwrap();

    // bit 5
    graph.insert_links(vec![
        (5, 21),
        (13, 21),
        (5, 29),
        (13, 29),
        (28, 21),
        (28, 29),
    ]).unwrap();

    // bit 6
    graph.insert_links(vec![
        (6, 22),
        (14, 22),
        (6, 30),
        (14, 30),
        (29, 22),
        (29, 30),
    ]).unwrap();

    // bit 7
    graph.insert_links(vec![
        (7, 23),
        (15, 23),
        (7, 31),
        (15, 31),
        (30, 23),
        (30, 31),
    ]).unwrap();

    // bit 8
    graph.insert_links(vec![(8, 23), (16, 23), (31, 23)]).unwrap();

    graph.init_graph_state().unwrap();

    // set input 1 to 6
    graph.turn_on_lamp(2).unwrap();
    graph.turn_on_lamp(3).unwrap();

    // set input 2 to 33
    graph.turn_on_lamp(1).unwrap();
    graph.turn_on_lamp(6).unwrap();

    graph.apply_changes().unwrap();

    // assert that the result is 39 (0b00100111)
    assert!(graph.get_node(17).unwrap().is_on());
    assert!(graph.get_node(18).unwrap().is_on());
    assert!(graph.get_node(19).unwrap().is_on());
    assert!(!graph.get_node(20).unwrap().is_on());
    assert!(!graph.get_node(21).unwrap().is_on());
    assert!(graph.get_node(22).unwrap().is_on());
    assert!(!graph.get_node(23).unwrap().is_on());
    assert!(!graph.get_node(24).unwrap().is_on());
}

#[test]
fn turn_on_requires_a_rock() {
    let mut graph = Graph::new();
    graph
        .insert_nodes(vec![
            (Node::LogicBlock(LogicBlock::new(0b11111, vec![])), 1),
            (Node::StoringBlock(StoringBlock::new(false, 1, 1, vec![])), 2),
        ])
        .unwrap();
    assert_eq!(graph.turn_on_lamp(1), Err(GraphError::NotARock));
    assert_eq!(graph.turn_on_lamp(2), Err(GraphError::NotALogicBlock));
    assert_eq!(graph.turn_on_lamp(9), Err(GraphError::UnknownNode));
    assert_eq!(graph.turn_off_lamp(1), Ok(()));
    assert_eq!(graph.turn_off_lamp(1), Err(GraphError::NotALamp));
}

#[test]
fn duplicate_ids_are_refused() {
    let mut graph = Graph::new();
    graph.insert_nodes(vec![(Node::LogicBlock(LogicBlock::new(0, vec![])), 1)]).unwrap();
    let again = graph.insert_nodes(vec![(Node::LogicBlock(LogicBlock::new(0, vec![])), 1)]);
    assert_eq!(again, Err(GraphError::DuplicateNode));
    let twice = Graph::new().insert_nodes(vec![
        (Node::LogicBlock(LogicBlock::new(0, vec![])), 4),
        (Node::LogicBlock(LogicBlock::new(0, vec![])), 4),
    ]);
    assert_eq!(twice, Err(GraphError::DuplicateNode));
}

#[test]
fn bad_links_are_refused() {
    let mut graph = Graph::new();
    graph
        .insert_nodes(vec![
            (Node::StoringBlock(StoringBlock::new(false, 3, 3, vec![])), 1),
            (Node::StoringBlock(StoringBlock::new(false, 3, 3, vec![])), 2),
            (Node::LogicBlock(LogicBlock::new(0, vec![])), 3),
        ])
        .unwrap();
    assert_eq!(graph.insert_links(vec![(1, 2)]), Err(GraphError::StoringBlockLink));
    assert_eq!(graph.insert_links(vec![(3, 7)]), Err(GraphError::UnknownNode));
    assert_eq!(graph.insert_links(vec![(3, 1), (3, 1), (1, 3)]), Ok(()));
    assert_eq!(graph.get_logical_block(3).unwrap().children, vec![1, 1]);
    assert_eq!(graph.get_storing_block(1).unwrap().children, vec![3]);
}

#[test]
fn cycles_are_detected() {
    let mut graph = Graph::new();
    graph
        .insert_nodes(vec![
            (Node::LogicBlock(LogicBlock::new(0b00001, vec![])), 1),
            (Node::LogicBlock(LogicBlock::new(0b00010, vec![])), 2),
            (Node::LogicBlock(LogicBlock::new(0b00010, vec![])), 3),
        ])
        .unwrap();
    graph.insert_links(vec![(1, 2), (2, 3), (3, 1)]).unwrap();
    assert_eq!(graph.init_graph_state(), Err(GraphError::Cycle));
}

#[test]
fn dangling_children_are_detected() {
    let mut graph = Graph::new();
    graph.insert_nodes(vec![(Node::LogicBlock(LogicBlock::new(0b11111, vec![5])), 1)]).unwrap();
    assert_eq!(graph.init_graph_state(), Err(GraphError::DanglingReference));
}

#[test]
fn too_many_on_parents_overflow() {
    let mut graph = Graph::new();
    let mut nodes = Vec::new();
    for id in 1..=5 {
        nodes.push((Node::LogicBlock(LogicBlock::new(0b11111, vec![6])), id));
    }
    nodes.push((Node::LogicBlock(LogicBlock::new(0b00001, vec![])), 6));
    graph.insert_nodes(nodes).unwrap();
    assert_eq!(graph.init_graph_state(), Err(GraphError::CountOverflow));
}

#[test]
fn duplicate_edges_count_twice() {
    let mut graph = Graph::new();
    graph
        .insert_nodes(vec![
            (Node::LogicBlock(LogicBlock::new(0b11111, vec![])), 1),
            (Node::LogicBlock(LogicBlock::new(0b00100, vec![])), 2),
        ])
        .unwrap();
    graph.insert_links(vec![(1, 2), (1, 2)]).unwrap();
    graph.init_graph_state().unwrap();
    assert_eq!(graph.get_logical_block(2).unwrap().get_value(), 2);
    assert!(graph.get_node(2).unwrap().is_on());
    graph.turn_off_lamp(1).unwrap();
    graph.apply_changes().unwrap();
    assert_eq!(graph.get_logical_block(2).unwrap().get_value(), 0);
    assert!(!graph.get_node(2).unwrap().is_on());
}

#[test]
fn storing_block_tells_its_children() {
    // 1: source lamp, 2: button rock, 3: latch, 4: follows the latch
    let mut graph = Graph::new();
    graph
        .insert_nodes(vec![
            (Node::LogicBlock(LogicBlock::new(0b11111, vec![])), 1),
            (Node::LogicBlock(LogicBlock::new(0b00000, vec![])), 2),
            (Node::StoringBlock(StoringBlock::new(false, 1, 2, vec![])), 3),
            (Node::LogicBlock(LogicBlock::new(0b00010, vec![])), 4),
        ])
        .unwrap();
    graph.insert_links(vec![(1, 3), (2, 3), (3, 4)]).unwrap();
    graph.init_graph_state().unwrap();
    assert!(!graph.get_node(4).unwrap().is_on());
    graph.turn_on_lamp(2).unwrap();
    graph.apply_changes().unwrap();
    assert!(graph.get_storing_block(3).unwrap().is_on);
    assert_eq!(graph.get_logical_block(4).unwrap().get_value(), 1);
    assert!(graph.get_node(4).unwrap().is_on());
}

#[test]
fn lookups_by_kind() {
    let mut graph = Graph::new();
    graph
        .insert_nodes(vec![
            (Node::LogicBlock(LogicBlock::new(0, vec![])), 1),
            (Node::StoringBlock(StoringBlock::new(true, 1, 1, vec![])), 2),
        ])
        .unwrap();
    assert!(graph.get_logical_block(1).is_some());
    assert!(graph.get_logical_block(2).is_none());
    assert!(graph.get_storing_block(2).is_some());
    assert!(graph.get_storing_block(1).is_none());
    assert!(graph.get_node(3).is_none());
    assert!(graph.get_node(2).unwrap().is_on());
}

#[test]
fn and_with_one_input_off() {
    let mut graph = Graph::new();
    graph
        .insert_nodes(vec![
            (Node::LogicBlock(LogicBlock::new(0b11111, vec![])), 1),
            (Node::LogicBlock(LogicBlock::new(0b00000, vec![])), 2),
            (Node::LogicBlock(LogicBlock::new(0b00100, vec![])), 3),
        ])
        .unwrap();
    graph.insert_links(vec![(1, 3), (2, 3)]).unwrap();
    graph.init_graph_state().unwrap();
    assert_eq!(graph.get_logical_block(3).unwrap().get_value(), 1);
    assert!(!graph.get_node(3).unwrap().is_on());
    graph.turn_on_lamp(2).unwrap();
    graph.apply_changes().unwrap();
    assert_eq!(graph.get_logical_block(3).unwrap().get_value(), 2);
    assert!(graph.get_node(3).unwrap().is_on());
}

#[test]
fn button_links_rewire_the_latch() {
    let mut graph = Graph::new();
    graph
        .insert_nodes(vec![
            (Node::LogicBlock(LogicBlock::new(0b11111, vec![])), 1),
            (Node::LogicBlock(LogicBlock::new(0b00000, vec![])), 2),
            (Node::StoringBlock(StoringBlock::new(false, 1, 9, vec![])), 3),
        ])
        .unwrap();
    assert_eq!(graph.insert_button_link(3, 3), Err(GraphError::NotALogicBlock));
    assert_eq!(graph.insert_button_link(1, 2), Err(GraphError::NotAStoringBlock));
    assert_eq!(graph.insert_button_link(1, 8), Err(GraphError::UnknownNode));
    graph.insert_button_link(2, 3).unwrap();
    assert_eq!(graph.get_storing_block(3).unwrap().button_node, 2);
    assert_eq!(graph.get_logical_block(2).unwrap().children, vec![3]);
    graph.insert_links(vec![(1, 3)]).unwrap();
    graph.init_graph_state().unwrap();
    assert!(!graph.get_storing_block(3).unwrap().is_on);
    graph.turn_on_lamp(2).unwrap();
    graph.apply_changes().unwrap();
    assert!(graph.get_storing_block(3).unwrap().is_on);
}

#[test]
fn decrease_below_zero_is_refused() {
    let mut graph = Graph::new();
    graph
        .insert_nodes(vec![
            (Node::LogicBlock(LogicBlock::new(0b11111, vec![2])), 1),
            (Node::LogicBlock(LogicBlock::new(0b00001, vec![])), 2),
        ])
        .unwrap();
    graph.turn_off_lamp(1).unwrap();
    assert_eq!(graph.apply_changes(), Err(GraphError::CountUnderflow));
}

#[test]
fn refused_toggles_change_nothing() {
    let mut graph = Graph::new();
    graph
        .insert_nodes(vec![
            (Node::LogicBlock(LogicBlock::new(0b00110, vec![2])), 1),
            (Node::LogicBlock(LogicBlock::new(0b00001, vec![])), 2),
        ])
        .unwrap();
    graph.init_graph_state().unwrap();
    assert_eq!(graph.turn_on_lamp(1), Err(GraphError::NotARock));
    assert_eq!(graph.get_logical_block(1).unwrap().get_requirements(), 0b00110);
    graph.apply_changes().unwrap();
    assert!(graph.get_node(2).unwrap().is_on());
}
