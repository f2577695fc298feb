use klausscc::files::{filename_stem, macro_from_string, opcode_from_string, split_opcodes};

#[test]
fn opcode_one_trailing_wildcard_one_register() {
    let op = opcode_from_string("assign w_op = 16'h120? ; // ADD Add register to accumulator")
        .unwrap();
    assert_eq!(op.name, "ADD");
    assert_eq!(op.opcode, "120?");
    assert_eq!(op.registers, 1);
    assert_eq!(op.variables, 0);
    assert_eq!(op.comment, "Add register to accumulator");
}

#[test]
fn opcode_two_trailing_wildcards_two_registers() {
    let op = opcode_from_string("16'h34?? // MOVE Move register to register").unwrap();
    assert_eq!(op.opcode, "34??");
    assert_eq!(op.registers, 2);
}

#[test]
fn opcode_no_wildcard_no_registers() {
    let op = opcode_from_string("16'h0000 // NOP No operation").unwrap();
    assert_eq!(op.opcode, "0000");
    assert_eq!(op.registers, 0);
}

#[test]
fn opcode_variable_marker_sets_variable_count() {
    let op = opcode_from_string("16'h4000 w_var1 // JMP Jump to address").unwrap();
    assert_eq!(op.variables, 1);
    assert_eq!(op.registers, 0);
}

#[test]
fn opcode_description_is_optional() {
    let op = opcode_from_string("16'h0000 // NOP").unwrap();
    assert_eq!(op.name, "NOP");
    assert_eq!(op.comment, "");
}

#[test]
fn opcode_mnemonic_tolerates_spacing_around_it() {
    let op = opcode_from_string("16'h0000 //NOP").unwrap();
    assert_eq!(op.name, "NOP");
    let op2 = opcode_from_string("16'h0000 //   NOP   trailing words").unwrap();
    assert_eq!(op2.name, "NOP");
    assert_eq!(op2.comment, "  trailing words");
}

#[test]
fn opcode_comment_without_word_is_ignored() {
    assert!(opcode_from_string("16'h0000 //").is_none());
    assert!(opcode_from_string("16'h0000 //    ").is_none());
}

#[test]
fn opcode_line_without_comment_is_ignored() {
    assert!(opcode_from_string("16'h1234 no comment marker here").is_none());
}

#[test]
fn opcode_line_without_marker_is_ignored() {
    assert!(opcode_from_string("// ADD just a comment").is_none());
}

#[test]
fn opcode_pattern_too_short_is_ignored() {
    assert!(opcode_from_string("16'h12").is_none());
}

#[test]
fn macro_line_parses_items_split_on_slash() {
    let mc = macro_from_string("$MYMAC w_var1 / NOP").unwrap();
    assert_eq!(mc.name, "$MYMAC");
    assert_eq!(mc.variables, 0);
    assert_eq!(mc.items, vec!["w_var1".to_string(), "NOP".to_string()]);
}

#[test]
fn macro_items_join_words_with_single_spaces() {
    let mc = macro_from_string("$PUSH2 PUSH R1 / PUSH R2").unwrap();
    assert_eq!(mc.items, vec!["PUSH R1".to_string(), "PUSH R2".to_string()]);
}

#[test]
fn macro_line_without_sigil_is_ignored() {
    assert!(macro_from_string("MYMAC w_var1 / NOP").is_none());
    assert!(macro_from_string("").is_none());
}

#[test]
fn description_lists_counts_in_decimal() {
    let op = opcode_from_string("16'h34?? // MOVE Move register to register").unwrap();
    assert_eq!(
        op.description(),
        "MOVE 34??, regs 2, vars 0 - Move register to register"
    );
}

#[test]
fn filename_stem_cuts_at_first_dot() {
    assert_eq!(filename_stem("program.kla".to_string()), "program");
    assert_eq!(filename_stem("noextension".to_string()), "noextension");
    assert_eq!(filename_stem("a.b.c".to_string()), "a");
}

#[test]
fn split_opcodes_groups_and_pads() {
    assert_eq!(split_opcodes(&"1234".to_string()), "1234          ");
    assert_eq!(split_opcodes(&"12345678".to_string()), "1234 5678     ");
    assert_eq!(split_opcodes(&"123456789ABC".to_string()), "1234 5678 9ABC");
    assert_eq!(split_opcodes(&"12".to_string()), "12");
}
