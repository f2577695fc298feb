use klausscc::files::{parse_vh_lines, LineType, Macro, Opcode};
use klausscc::labels::{find_duplicate_label, get_labels, Label};
use klausscc::macros::{expand_macros, expand_macros_multi, expand_macros_once};
use klausscc::messages::{MessageType, MsgList};
use klausscc::opcodes::{add_registers, num_arguments, Pass0, Pass2};
use klausscc::passes::{create_bin_string, format_code_line, get_pass1, get_pass2};
use klausscc::{write_binary_file, write_to_device};

fn table() -> Vec<Opcode> {
    vec![
        Opcode {
            name: "ADD".to_string(),
            opcode: "120?".to_string(),
            registers: 1,
            variables: 0,
            comment: String::new(),
        },
        Opcode {
            name: "MOVE".to_string(),
            opcode: "34??".to_string(),
            registers: 2,
            variables: 0,
            comment: String::new(),
        },
        Opcode {
            name: "NOP".to_string(),
            opcode: "0000".to_string(),
            registers: 0,
            variables: 0,
            comment: String::new(),
        },
        Opcode {
            name: "JMP".to_string(),
            opcode: "4000".to_string(),
            registers: 0,
            variables: 1,
            comment: String::new(),
        },
    ]
}

fn pass0_of(lines: &[&str]) -> Vec<Pass0> {
    lines
        .iter()
        .enumerate()
        .map(|(i, l)| Pass0 { input: l.to_string(), line_counter: (i + 1) as u32 })
        .collect()
}

#[test]
fn register_encodes_into_last_nibble() {
    // one register slot: the trailing wildcard takes the register digit
    let ops = table();
    let mut msgs = MsgList::new();
    let code = add_registers(&ops, "ADD R1", &mut msgs, 1);
    assert_eq!(code, "1201");
    assert_eq!(msgs.list.len(), 0);
}

#[test]
fn two_registers_fill_the_two_trailing_nibbles() {
    let ops = table();
    let mut msgs = MsgList::new();
    let code = add_registers(&ops, "MOVE R2 R10", &mut msgs, 1);
    assert_eq!(code, "342A");
}

#[test]
fn bad_register_yields_sentinel_and_one_error() {
    let ops = table();
    let mut msgs = MsgList::new();
    let code = add_registers(&ops, "ADD R99", &mut msgs, 7);
    assert_eq!(code, "ERR!");
    assert_eq!(msgs.number_errors(), 1);
    assert_eq!(msgs.list[0].line_number, Some(7));
}

#[test]
fn no_operand_opcode_round_trips_to_its_pattern() {
    let ops = table();
    let mut msgs = MsgList::new();
    let pass0 = pass0_of(&["NOP"]);
    let pass1 = get_pass1(&mut msgs, pass0, ops.clone());
    let labels = get_labels(&pass1);
    let pass2 = get_pass2(&mut msgs, pass1, ops, labels);
    assert_eq!(pass2[0].opcode, "0000");
    assert_eq!(pass2[0].line_type, LineType::Opcode);
    assert_eq!(msgs.number_errors(), 0);
}

#[test]
fn program_counters_are_non_decreasing() {
    let ops = table();
    let mut msgs = MsgList::new();
    let pass0 = pass0_of(&["NOP", "JMP 5", "#ABC", "LOOP:", "ADD R1"]);
    let pass1 = get_pass1(&mut msgs, pass0, ops);
    let pcs: Vec<u32> = pass1.iter().map(|p| p.program_counter).collect();
    assert_eq!(pcs, vec![0, 1, 3, 6, 6]);
    for w in pcs.windows(2) {
        assert!(w[0] <= w[1]);
    }
}

#[test]
fn label_addresses_match_their_defining_line() {
    let ops = table();
    let mut msgs = MsgList::new();
    let pass0 = pass0_of(&["NOP", "LOOP:", "ADD R1"]);
    let pass1 = get_pass1(&mut msgs, pass0, ops);
    let labels = get_labels(&pass1);
    assert_eq!(labels.len(), 1);
    assert_eq!(labels[0].name, "LOOP");
    assert_eq!(labels[0].program_counter, pass1[1].program_counter);
    assert_eq!(labels[0].program_counter, 1);
}

#[test]
fn forward_label_resolves_to_its_pass1_address() {
    let ops = table();
    let mut msgs = MsgList::new();
    let pass0 = pass0_of(&["JMP LOOP", "NOP", "LOOP:", "ADD R1"]);
    let pass1 = get_pass1(&mut msgs, pass0, ops.clone());
    let labels = get_labels(&pass1);
    let pass2 = get_pass2(&mut msgs, pass1, ops, labels);
    // JMP occupies two words, NOP one: LOOP sits at address 3
    assert_eq!(pass2[0].opcode, "40000003");
    assert_eq!(pass2[0].line_type, LineType::Opcode);
    assert_eq!(msgs.number_errors(), 0);
}

#[test]
fn undefined_label_retypes_line_as_error() {
    let ops = table();
    let mut msgs = MsgList::new();
    let pass0 = pass0_of(&["JMP NOWHERE"]);
    let pass1 = get_pass1(&mut msgs, pass0, ops.clone());
    let labels = get_labels(&pass1);
    let pass2 = get_pass2(&mut msgs, pass1, ops, labels);
    assert_eq!(pass2[0].opcode, "4000ERR!");
    assert_eq!(pass2[0].line_type, LineType::Error);
    assert!(msgs.number_errors() >= 1);
}

#[test]
fn oversized_literal_argument_is_an_error() {
    let ops = table();
    let mut msgs = MsgList::new();
    let pass0 = pass0_of(&["JMP 70000"]);
    let pass1 = get_pass1(&mut msgs, pass0, ops.clone());
    let labels = get_labels(&pass1);
    let pass2 = get_pass2(&mut msgs, pass1, ops, labels);
    assert_eq!(pass2[0].line_type, LineType::Error);
}

#[test]
fn wrong_arity_retypes_line_as_error() {
    let ops = table();
    let mut msgs = MsgList::new();
    let pass0 = pass0_of(&["NOP 5"]);
    let pass1 = get_pass1(&mut msgs, pass0, ops.clone());
    assert_eq!(msgs.number_errors(), 1);
    let labels = get_labels(&pass1);
    let pass2 = get_pass2(&mut msgs, pass1, ops, labels);
    assert_eq!(pass2[0].opcode, "0000ERR!");
    assert_eq!(pass2[0].line_type, LineType::Error);
}

#[test]
fn duplicate_labels_give_one_error_each() {
    let mut msgs = MsgList::new();
    let labels = vec![
        Label { program_counter: 0, name: "A".to_string() },
        Label { program_counter: 2, name: "A".to_string() },
        Label { program_counter: 4, name: "B".to_string() },
        Label { program_counter: 6, name: "A".to_string() },
    ];
    find_duplicate_label(&labels, &mut msgs);
    assert_eq!(msgs.number_errors(), 2);
    assert_eq!(msgs.list[0].name, "Duplicate label A");
    assert_eq!(msgs.list.len(), 2);
}

#[test]
fn unique_labels_give_no_error() {
    let mut msgs = MsgList::new();
    let labels = vec![
        Label { program_counter: 0, name: "A".to_string() },
        Label { program_counter: 2, name: "B".to_string() },
    ];
    find_duplicate_label(&labels, &mut msgs);
    assert_eq!(msgs.list.len(), 0);
}

#[test]
fn macro_invocation_expands_with_argument_substitution() {
    // $MYMAC w_var1 / NOP invoked as MYMAC arg1
    let macros = vec![Macro {
        name: "$MYMAC".to_string(),
        variables: 0,
        items: vec!["w_var1".to_string(), "NOP".to_string()],
    }];
    let lines = vec!["MYMAC arg1".to_string()];
    let pass0 = expand_macros(&lines, &macros);
    assert_eq!(pass0.len(), 2);
    assert_eq!(pass0[0].input, "arg1");
    assert_eq!(pass0[0].line_counter, 1);
    assert_eq!(pass0[1].input, "NOP");
    assert_eq!(pass0[1].line_counter, 1);
}

#[test]
fn non_invoking_lines_pass_through_unchanged() {
    let macros = vec![Macro {
        name: "$M".to_string(),
        variables: 0,
        items: vec!["NOP".to_string()],
    }];
    let lines = vec!["ADD R1".to_string(), "M".to_string()];
    let pass0 = expand_macros(&lines, &macros);
    assert_eq!(pass0.len(), 2);
    assert_eq!(pass0[0].input, "ADD R1");
    assert_eq!(pass0[0].line_counter, 1);
    assert_eq!(pass0[1].input, "NOP");
    assert_eq!(pass0[1].line_counter, 2);
}

#[test]
fn flattening_a_flat_table_changes_nothing() {
    let macros = vec![
        Macro {
            name: "$A".to_string(),
            variables: 0,
            items: vec!["NOP".to_string(), "ADD R1".to_string()],
        },
        Macro { name: "$B".to_string(), variables: 0, items: vec!["JMP 2".to_string()] },
    ];
    let mut msgs = MsgList::new();
    let flat = expand_macros_multi(macros.clone(), &mut msgs);
    assert_eq!(flat.len(), 2);
    assert_eq!(flat[0].name, "$A");
    assert_eq!(flat[0].items, vec!["NOP".to_string(), "ADD R1".to_string()]);
    assert_eq!(flat[1].items, vec!["JMP 2".to_string()]);
    assert_eq!(msgs.list.len(), 0);
}

#[test]
fn nested_macro_reference_is_flattened() {
    let macros = vec![
        Macro { name: "$INNER".to_string(), variables: 0, items: vec!["NOP".to_string()] },
        Macro {
            name: "$OUTER".to_string(),
            variables: 0,
            items: vec!["$INNER".to_string(), "ADD R1".to_string()],
        },
    ];
    let mut msgs = MsgList::new();
    let flat = expand_macros_multi(macros, &mut msgs);
    assert_eq!(flat[1].items, vec!["NOP".to_string(), "ADD R1".to_string()]);
    assert_eq!(msgs.list.len(), 0);
}

#[test]
fn one_round_substitutes_each_invoking_item() {
    let macros = vec![
        Macro { name: "$INNER".to_string(), variables: 0, items: vec!["NOP".to_string()] },
        Macro {
            name: "$OUTER".to_string(),
            variables: 0,
            items: vec!["$INNER".to_string(), "ADD R1".to_string()],
        },
    ];
    let (stepped, changed) = expand_macros_once(&macros);
    assert!(changed);
    assert_eq!(stepped[1].items, vec!["NOP".to_string(), "ADD R1".to_string()]);
    let (again, changed2) = expand_macros_once(&stepped);
    assert!(!changed2);
    assert_eq!(again[1].items, stepped[1].items);
}

#[test]
fn macro_cycle_is_reported_not_looped() {
    let macros = vec![
        Macro { name: "$A".to_string(), variables: 0, items: vec!["$B".to_string()] },
        Macro { name: "$B".to_string(), variables: 0, items: vec!["$A".to_string()] },
    ];
    let mut msgs = MsgList::new();
    let out = expand_macros_multi(macros, &mut msgs);
    assert_eq!(out.len(), 2);
    assert_eq!(msgs.number_errors(), 2);
}

#[test]
fn table_parse_collects_opcodes_and_macros() {
    let lines = vec![
        "some unrelated hardware text".to_string(),
        "16'h120? // ADD Add register".to_string(),
        "$M NOP / NOP".to_string(),
        "16'h0000 // NOP No operation".to_string(),
    ];
    let (ops, macros) = parse_vh_lines(&lines);
    assert_eq!(ops.len(), 2);
    assert_eq!(ops[0].name, "ADD");
    assert_eq!(ops[1].name, "NOP");
    assert_eq!(macros.len(), 1);
    assert_eq!(macros[0].name, "$M");
}

#[test]
fn num_arguments_comes_from_the_definition() {
    let ops = table();
    assert_eq!(num_arguments(&ops, "JMP 5"), Some(1));
    assert_eq!(num_arguments(&ops, "NOP"), Some(0));
    assert_eq!(num_arguments(&ops, "FROB"), None);
}

#[test]
fn invalid_line_gets_error_placeholder_and_suppresses_binary() {
    let ops = table();
    let mut msgs = MsgList::new();
    let pass0 = pass0_of(&["ADD"]);
    let pass1 = get_pass1(&mut msgs, pass0, ops.clone());
    assert_eq!(msgs.number_errors(), 1);
    let labels = get_labels(&pass1);
    let pass2 = get_pass2(&mut msgs, pass1, ops, labels);
    assert_eq!(pass2[0].line_type, LineType::Error);
    let listing = format_code_line(&pass2[0]);
    assert!(listing.starts_with("Error"));
    // with an error logged, the binary image is withheld
    assert!(msgs.number_errors() != 0);
}

#[test]
fn listing_line_formats_address_and_grouped_code() {
    let p = Pass2 {
        input: "ADD R1".to_string(),
        line_counter: 1,
        program_counter: 3,
        line_type: LineType::Opcode,
        opcode: "1201".to_string(),
    };
    assert_eq!(format_code_line(&p), "0x00000003: 1201           -- ADD R1\n");
    let b = Pass2 {
        input: "// c".to_string(),
        line_counter: 2,
        program_counter: 3,
        line_type: LineType::Comment,
        opcode: String::new(),
    };
    assert_eq!(format_code_line(&b), "                           -- // c\n");
    let e = Pass2 {
        input: "ADD".to_string(),
        line_counter: 3,
        program_counter: 3,
        line_type: LineType::Error,
        opcode: "ERR!".to_string(),
    };
    assert_eq!(format_code_line(&e), "Error                      -- ADD\n");
}

#[test]
fn binary_image_is_framed_by_s_and_x() {
    let mk = |code: &str| Pass2 {
        input: String::new(),
        line_counter: 1,
        program_counter: 0,
        line_type: LineType::Opcode,
        opcode: code.to_string(),
    };
    let pass2 = vec![mk("1201"), mk("40000003")];
    assert_eq!(create_bin_string(&pass2), "S120140000003X");
}

#[test]
fn serial_outcome_is_recorded_by_severity() {
    let mut msgs = MsgList::new();
    write_to_device(&mut msgs, true, "COM1");
    assert_eq!(msgs.list[0].msg_type, MessageType::Info);
    assert_eq!(msgs.list[0].name, "Wrote to serial port COM1");

    let mut msgs2 = MsgList::new();
    write_to_device(&mut msgs2, false, "COM1");
    assert_eq!(msgs2.list[0].msg_type, MessageType::Error);

    let mut msgs3 = MsgList::new();
    msgs3.push("boom".to_string(), None, MessageType::Error);
    write_to_device(&mut msgs3, true, "COM1");
    assert_eq!(msgs3.list[1].msg_type, MessageType::Warning);
    assert_eq!(
        msgs3.list[1].name,
        "Not writing to serial port due to assembly errors"
    );
}

#[test]
fn binary_write_outcome_is_recorded() {
    let mut msgs = MsgList::new();
    write_binary_file(&mut msgs, "out.kbt", true);
    assert_eq!(msgs.list.len(), 1);
    assert_eq!(msgs.list[0].msg_type, MessageType::Info);
    assert_eq!(msgs.list[0].name, "Writing binary file to out.kbt");

    let mut msgs2 = MsgList::new();
    write_binary_file(&mut msgs2, "out.kbt", false);
    assert_eq!(msgs2.list.len(), 2);
    assert_eq!(msgs2.list[1].msg_type, MessageType::Error);
    assert_eq!(msgs2.number_errors(), 1);
    assert_eq!(msgs2.number_warnings(), 0);
}

#[test]
fn data_line_advances_counter_and_encodes_bytes() {
    let ops = table();
    let mut msgs = MsgList::new();
    let pass0 = pass0_of(&["#AB", "NOP"]);
    let pass1 = get_pass1(&mut msgs, pass0, ops.clone());
    assert_eq!(pass1[1].program_counter, 2);
    let labels = get_labels(&pass1);
    let pass2 = get_pass2(&mut msgs, pass1, ops, labels);
    assert_eq!(pass2[0].opcode, "4142");
    assert_eq!(pass2[0].line_type, LineType::Data);
}
