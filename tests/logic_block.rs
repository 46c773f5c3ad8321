use pomme::LogicBlock;

#[test]
fn get_value_test() {
    let mut node = LogicBlock::new(0b11111, vec![]);
    assert!(node.get_value() == 0);
    node.set_value(4);
    assert!(node.get_value() == 4);
    node.set_value(2);
    assert!(node.get_value() == 2);
    node.set_value(1);
    assert!(node.get_value() == 1);
    node.set_value(1);
    assert!(node.get_value() == 1);
}

#[test]
fn get_requirements_test() {
    let mut node = LogicBlock::new(0b11111, vec![]);
    assert!(node.get_requirements() == 31);
    node.set_requirements(0b00000);
    assert!(node.get_requirements() == 0);
    node.set_requirements(0b01001);
    assert!(node.get_requirements() == 9);
    node.set_requirements(0b01001);
    assert!(node.get_requirements() == 9);
}

#[test]
fn is_on_test() {
    let mut node = LogicBlock::new(0b11111, vec![]);
    assert!(node.is_on() == true);
    node.set_requirements(0b00000);
    assert!(node.is_on() == false);
    node.set_requirements(0b00001);
    assert!(node.is_on() == true);
}

#[test]
fn set_on_test() {
    let mut node = LogicBlock::new(0b11111, vec![]);
    assert!(node.is_on() == true);
    node.turn_to_rock();
    assert!(node.is_on() == false);
    node.turn_to_rock();
    assert!(node.is_on() == false);
    node.turn_to_lamp();
    assert!(node.is_on() == true);
    node.turn_to_lamp();
    assert!(node.is_on() == true);
}

#[test]
fn value_and_mask_are_independent() {
    let mut node = LogicBlock::new(0b00100, vec![7, 8]);
    node.set_value(2);
    assert_eq!(node.get_requirements(), 0b00100);
    assert!(node.is_on());
    node.set_requirements(0b00010);
    assert_eq!(node.get_value(), 2);
    assert!(!node.is_on());
    assert_eq!(node.children, vec![7, 8]);
}

#[test]
fn push_child_keeps_order() {
    let mut node = LogicBlock::new(0, vec![]);
    node.push_child(3);
    node.push_child(3);
    node.push_child(1);
    assert_eq!(node.get_children(), &vec![3, 3, 1]);
}
