use wordhunt::mouse::{Instruction, MouseError, MouseState, Opcode};

#[test]
fn opcode_bytes() {
    assert_eq!(Opcode::LeftDown.as_byte(), 1);
    assert_eq!(Opcode::LeftUp.as_byte(), 2);
    assert_eq!(Opcode::Move.as_byte(), 3);
    assert_eq!(Opcode::Normalize.as_byte(), 4);
    assert_eq!(Opcode::MoveGroup.as_byte(), 5);
    assert_eq!(Opcode::NormalMove.as_byte(), 6);
}

#[test]
fn serialize_empty_instruction() {
    let bytes = Instruction::empty(Opcode::Normalize).serialize();
    assert_eq!(bytes, vec![4, 0, 0, 0, 0, 0, 0, 0, 0, 0]);
}

#[test]
fn serialize_delta_little_endian() {
    let bytes = Instruction::delta(1, -1).serialize();
    assert_eq!(bytes, vec![3, 1, 0, 0, 0, 255, 255, 255, 255, 0]);
    let bytes = Instruction::absolute(0x01020304, 256).serialize();
    assert_eq!(bytes, vec![6, 4, 3, 2, 1, 0, 1, 0, 0, 0]);
}

#[test]
fn serialize_group() {
    let group = vec![(30, 0), (-30, 33)];
    let ins = Instruction::group(&group);
    assert_eq!(ins.group, Some(group.clone()));
    let bytes = ins.serialize();
    assert_eq!(
        bytes,
        vec![5, 0, 0, 0, 0, 0, 0, 0, 0, 2, 30, 0, 0, 0, 0, 0, 0, 0, 226, 255, 255, 255, 33, 0, 0, 0]
    );
}

#[test]
fn button_presses_releases_and_toggles() {
    let s = MouseState::new();
    let (ins, s) = s.button(Some(true));
    assert_eq!(ins.opcode, Opcode::LeftDown);
    assert!(s.left);
    let (ins, s) = s.button(None);
    assert_eq!(ins.opcode, Opcode::LeftUp);
    assert!(!s.left);
    let (ins, s) = s.button(None);
    assert_eq!(ins.opcode, Opcode::LeftDown);
    assert!(s.left);
}

#[test]
fn relative_move_needs_normalizing() {
    let s = MouseState::new();
    assert!(matches!(s.move_absolute((10, 10), false), Err(MouseError::NotNormalized)));
    let (ins, s) = s.normalize();
    assert_eq!(ins.opcode, Opcode::Normalize);
    assert!(s.normalized);
    let (ins, s) = s.move_relative(5, 7);
    assert_eq!(ins.position, Some((5, 7)));
    assert_eq!(s.current, (5, 7));
    let (ins, s) = s.move_absolute((35, 165), false).unwrap();
    assert_eq!(ins.opcode, Opcode::Move);
    assert_eq!(ins.position, Some((30, 158)));
    assert_eq!(s.current, (35, 165));
}

#[test]
fn absolute_move_normalizes() {
    let s = MouseState::new();
    let (ins, s) = s.move_absolute((70, 245), true).unwrap();
    assert_eq!(ins.opcode, Opcode::NormalMove);
    assert_eq!(ins.position, Some((70, 245)));
    assert!(s.normalized);
    assert_eq!(s.current, (70, 245));
}

#[test]
fn group_move_keeps_last_point() {
    let s = MouseState::new();
    let (ins, s) = s.move_group(&vec![(1, 2), (3, 4)]);
    assert_eq!(ins.opcode, Opcode::MoveGroup);
    assert_eq!(s.current, (3, 4));
}
