use klausscc::files::{LineType, Opcode};
use klausscc::helper::{
    data_as_bytes, is_valid_line, line_type, num_data_bytes, strip_comments,
};

fn table() -> Vec<Opcode> {
    vec![
        Opcode {
            name: "ADD".to_string(),
            opcode: "120?".to_string(),
            registers: 1,
            variables: 0,
            comment: "Add register".to_string(),
        },
        Opcode {
            name: "NOP".to_string(),
            opcode: "0000".to_string(),
            registers: 0,
            variables: 0,
            comment: "No operation".to_string(),
        },
        Opcode {
            name: "JMP".to_string(),
            opcode: "4000".to_string(),
            registers: 0,
            variables: 1,
            comment: "Jump".to_string(),
        },
    ]
}

#[test]
fn blank_lines_classify_blank() {
    let ops = table();
    assert_eq!(line_type(&ops, ""), LineType::Blank);
    assert_eq!(line_type(&ops, "   \t "), LineType::Blank);
}

#[test]
fn comment_only_lines_classify_comment() {
    let ops = table();
    assert_eq!(line_type(&ops, "// just a comment"), LineType::Comment);
    assert_eq!(line_type(&ops, "   // indented comment"), LineType::Comment);
}

#[test]
fn label_lines_classify_label() {
    let ops = table();
    assert_eq!(line_type(&ops, "LOOP:"), LineType::Label);
    assert_eq!(line_type(&ops, "  START:  // with comment"), LineType::Label);
}

#[test]
fn known_mnemonic_classifies_opcode() {
    let ops = table();
    assert_eq!(line_type(&ops, "ADD R1"), LineType::Opcode);
    assert_eq!(line_type(&ops, "NOP"), LineType::Opcode);
}

#[test]
fn data_directive_classifies_data() {
    let ops = table();
    assert_eq!(line_type(&ops, "#ABC"), LineType::Data);
}

#[test]
fn unknown_content_classifies_error() {
    let ops = table();
    assert_eq!(line_type(&ops, "FROB R1"), LineType::Error);
}

#[test]
fn classification_is_idempotent() {
    let ops = table();
    for line in ["", "// c", "LOOP:", "ADD R1", "#AB", "FROB"] {
        let first = line_type(&ops, line);
        let second = line_type(&ops, line);
        assert_eq!(first, second);
    }
}

#[test]
fn opcode_arity_is_validated() {
    let ops = table();
    assert!(is_valid_line(&ops, "ADD R1"));
    assert!(!is_valid_line(&ops, "ADD"));
    assert!(!is_valid_line(&ops, "ADD R1 R2"));
    assert!(is_valid_line(&ops, "JMP 17"));
    assert!(!is_valid_line(&ops, "FROB"));
    assert!(is_valid_line(&ops, "LOOP:"));
    assert!(is_valid_line(&ops, "// comment"));
}

#[test]
fn strip_comments_removes_comment_and_trims() {
    assert_eq!(strip_comments(" ADD R1 // increment "), "ADD R1");
    assert_eq!(strip_comments("NOP"), "NOP");
    assert_eq!(strip_comments("// all comment"), "");
}

#[test]
fn data_byte_count_is_payload_length() {
    assert_eq!(num_data_bytes("#ABC"), 3);
    assert_eq!(num_data_bytes("#"), 0);
    assert_eq!(num_data_bytes("  #XY  // c"), 2);
}

#[test]
fn data_encodes_byte_pairs() {
    assert_eq!(data_as_bytes("#AB"), "4142");
    assert_eq!(data_as_bytes("#"), "");
}

#[test]
fn data_with_wide_character_yields_sentinel() {
    assert_eq!(data_as_bytes("#A\u{20AC}"), "ERR!");
}
