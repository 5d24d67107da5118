use water::bytecode::{dispatch_table, Opcode};

#[test]
fn dispatch_table_ordering() {
    // Each opcode's discriminant matches its position in the table.
    assert_eq!(Opcode::Mov as usize, 0);
    assert_eq!(Opcode::MovConst as usize, 1);
    assert_eq!(Opcode::Add as usize, 2);
    assert_eq!(Opcode::Sub as usize, 3);
    assert_eq!(Opcode::Mul as usize, 4);
    assert_eq!(Opcode::Div as usize, 5);
    assert_eq!(Opcode::Mod as usize, 6);
    assert_eq!(Opcode::Eq as usize, 7);
    assert_eq!(Opcode::NEq as usize, 8);
    assert_eq!(Opcode::GT as usize, 9);
    assert_eq!(Opcode::LT as usize, 10);
    assert_eq!(Opcode::GEq as usize, 11);
    assert_eq!(Opcode::LEq as usize, 12);
    assert_eq!(Opcode::Jmp as usize, 13);
    assert_eq!(Opcode::JmpCond as usize, 14);
    assert_eq!(Opcode::Call as usize, 15);
    assert_eq!(Opcode::Return as usize, 16);
    assert_eq!(Opcode::LoadString as usize, 17);
    assert_eq!(Opcode::Halt as usize, 18);
    assert_eq!(Opcode::CreateArray as usize, 19);
    assert_eq!(Opcode::LoadIndex as usize, 20);
    assert_eq!(Opcode::StoreIndex as usize, 21);

    // The table has one entry per opcode.
    assert_eq!(dispatch_table().len(), Opcode::COUNT as usize);
}
