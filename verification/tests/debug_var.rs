//! Variables as text.

use miden_mast::debug_var::{DebugVarInfo, DebugVarLocation, FileLineCol};

#[test]
fn debug_var_info_display_simple() {
    let var = DebugVarInfo::new("x".into(), DebugVarLocation::Stack(0));
    assert_eq!(var.to_string(), "var.x = stack[0]");
}

#[test]
fn debug_var_info_display_with_arg() {
    let mut var = DebugVarInfo::new("param".into(), DebugVarLocation::Stack(2));
    var.set_arg_index(1);
    assert_eq!(var.to_string(), "var.param[arg1] = stack[2]");
    assert_eq!(var.arg_index(), Some(1));
    assert_eq!(var.type_id(), None);
    var.set_type_id(7);
    assert_eq!(var.type_id(), Some(7));
    assert_eq!(var.name(), "param");
}

#[test]
fn debug_var_info_display_with_location() {
    let mut var = DebugVarInfo::new("y".into(), DebugVarLocation::Memory(100));
    var.set_location(FileLineCol { uri: "test.rs".into(), line: 42, column: 5 });
    assert_eq!(var.to_string(), "var.y = mem[100] [test.rs@42:5]");
    assert!(var.location().is_some());
}

#[test]
fn debug_var_location_display() {
    assert_eq!(DebugVarLocation::Stack(0).to_string(), "stack[0]");
    assert_eq!(DebugVarLocation::Memory(256).to_string(), "mem[256]");
    assert_eq!(DebugVarLocation::Const(42).to_string(), "const(42)");
    assert_eq!(DebugVarLocation::Local(3).to_string(), "local[3]");
    assert_eq!(
        DebugVarLocation::Expression(vec![0x10, 0x20, 0x30]).to_string(),
        "expr(10 20 30)"
    );
}
