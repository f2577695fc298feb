//! The pass records and the operand encoder.
//!
//! An opcode line encodes as its definition's four-character pattern with
//! trailing wildcard positions replaced by register digits, followed by one
//! four-digit hexadecimal word per argument (a decimal literal or a label
//! whose address pass 1 resolved). Any operand that cannot be encoded
//! yields the error sentinel instead of digits.

use vstd::prelude::*;
use crate::files::{LineType, Opcode};
use crate::helper::{
    err_marker, err_marker_chars, find_opcode, name_lookup, opcode_lookup, spec_strip,
    strip_chars,
};
use crate::labels::Label;
use crate::messages::{Message, MessageType, MsgList};
use crate::textscan::{
    all_digits, chars_of, dec_val, find_first, hex4, hex_char, hex_char_of, is_digit,
    lemma_match_found, match_at, parse_decimal, push_hex4, seq_views, split_words,
    string_from_chars, sub_chars, words,
};

verus! {

/// A source line after macro expansion, tagged with the line number of the
/// user-authored line it came from.
#[derive(Debug, Clone)]
pub struct Pass0 {
    pub input: String,
    pub line_counter: u32,
}

/// A classified line with the program counter at which it begins.
#[derive(Debug, Clone)]
pub struct Pass1 {
    pub input: String,
    pub line_counter: u32,
    pub program_counter: u32,
    pub line_type: LineType,
}

/// A fully encoded line: pass 1 plus its hexadecimal machine code.
#[derive(Debug, Clone)]
pub struct Pass2 {
    pub input: String,
    pub line_counter: u32,
    pub program_counter: u32,
    pub line_type: LineType,
    pub opcode: String,
}

/// A register operand: `R` followed by a decimal number up to 15.
pub open spec fn reg_val(w: Seq<char>) -> Option<u32> {
    if w.len() >= 2 && w[0] == 'R' && all_digits(w.drop_first()) && dec_val(w.drop_first())
        <= 15 {
        Some(dec_val(w.drop_first()) as u32)
    } else {
        None
    }
}

/// Parse a register operand.
pub fn parse_register(w: &String) -> (r: Option<u32>)
    ensures
        r == reg_val(w@),
{
    let wc = chars_of(w.as_str());
    if wc.len() < 2 {
        return None;
    }
    if wc[0] != 'R' {
        return None;
    }
    let rest = sub_chars(&wc, 1, wc.len());
    proof {
        assert(rest@ =~= wc@.drop_first());
    }
    match parse_decimal(&rest) {
        Some(v) => {
            if v <= 15 {
                Some(v)
            } else {
                None
            }
        },
        None => None,
    }
}

/// The register substitution succeeds: the line's mnemonic is in the table,
/// its pattern has four characters ending in one wildcard per register
/// slot, and a word parsing as a register stands in each register position.
pub open spec fn spec_add_registers_ok(ops: Seq<Opcode>, s: Seq<char>) -> bool {
    let ws = words(spec_strip(s));
    ws.len() >= 1 && match opcode_lookup(ops, ws[0]) {
        None => false,
        Some(i) => {
            let op = ops[i];
            let pat = op.opcode@;
            if op.registers == 0 {
                pat.len() == 4
            } else if op.registers == 1 {
                pat.len() == 4 && pat[3] == '?' && ws.len() >= 2 && reg_val(ws[1]) is Some
            } else if op.registers == 2 {
                pat.len() == 4 && pat[2] == '?' && pat[3] == '?' && ws.len() >= 3 && reg_val(
                    ws[1],
                ) is Some && reg_val(ws[2]) is Some
            } else {
                false
            }
        },
    }
}

/// The pattern with register digits substituted for its trailing wildcard
/// positions, or the error sentinel when substitution fails.
pub open spec fn spec_add_registers(ops: Seq<Opcode>, s: Seq<char>) -> Seq<char> {
    if !spec_add_registers_ok(ops, s) {
        err_marker()
    } else {
        let ws = words(spec_strip(s));
        let i = opcode_lookup(ops, ws[0])->Some_0;
        let op = ops[i];
        let pat = op.opcode@;
        if op.registers == 0 {
            pat
        } else if op.registers == 1 {
            pat.take(3).push(hex_char(reg_val(ws[1])->Some_0 as int))
        } else {
            pat.take(2).push(hex_char(reg_val(ws[1])->Some_0 as int)).push(
                hex_char(reg_val(ws[2])->Some_0 as int),
            )
        }
    }
}

/// The one message a failed register substitution leaves.
pub open spec fn reg_err_msg(m: Message, s: Seq<char>, lc: u32) -> bool {
    &&& m.name@ == "Bad registers "@ + s
    &&& m.line_number == Some(lc)
    &&& m.msg_type == MessageType::Error
}

/// Report a failed register substitution and hand back the sentinel.
fn fail_registers(msg_list: &mut MsgList, line: &str, line_counter: u32) -> (r: String)
    ensures
        r@ == err_marker(),
        final(msg_list).list@.len() == old(msg_list).list@.len() + 1,
        final(msg_list).list@.drop_last() == old(msg_list).list@,
        reg_err_msg(final(msg_list).list@.last(), line@, line_counter),
{
    let mut text: String = "Bad registers ".to_owned();
    text.append(line);
    msg_list.push(text, Some(line_counter), MessageType::Error);
    proof {
        assert(msg_list.list@.drop_last() =~= old(msg_list).list@);
    }
    string_from_chars(&err_marker_chars())
}

/// Substitute the line's register operands into its opcode's pattern.
///
/// On failure the result is the error sentinel and exactly one
/// error-severity message naming the line is appended; on success the
/// message list is untouched.
pub fn add_registers(oplist: &Vec<Opcode>, line: &str, msg_list: &mut MsgList, line_counter: u32)
    -> (r: String)
    ensures
        r@ == spec_add_registers(oplist@, line@),
        spec_add_registers_ok(oplist@, line@) ==> final(msg_list).list@ == old(msg_list).list@,
        !spec_add_registers_ok(oplist@, line@) ==> final(msg_list).list@.len() == old(
            msg_list,
        ).list@.len() + 1 && final(msg_list).list@.drop_last() == old(msg_list).list@
            && reg_err_msg(final(msg_list).list@.last(), line@, line_counter),
{
    let cs = chars_of(line);
    let t = strip_chars(&cs);
    let ws = split_words(&t);
    if ws.len() == 0 {
        return fail_registers(msg_list, line, line_counter);
    }
    match find_opcode(oplist, &ws[0]) {
        None => fail_registers(msg_list, line, line_counter),
        Some(i) => {
            let regs = oplist[i].registers;
            let pat = chars_of(oplist[i].opcode.as_str());
            if regs == 0 {
                if pat.len() != 4 {
                    return fail_registers(msg_list, line, line_counter);
                }
                oplist[i].opcode.clone()
            } else if regs == 1 {
                if pat.len() != 4 || pat[3] != '?' || ws.len() < 2 {
                    return fail_registers(msg_list, line, line_counter);
                }
                match parse_register(&ws[1]) {
                    None => fail_registers(msg_list, line, line_counter),
                    Some(v) => {
                        proof {
                            crate::textscan::lemma_dec_val_nonneg(ws@[1]@.drop_first());
                        }
                        let mut out = sub_chars(&pat, 0, 3);
                        proof {
                            assert(pat@.subrange(0, 3) =~= pat@.take(3));
                        }
                        out.push(hex_char_of(v));
                        string_from_chars(&out)
                    },
                }
            } else if regs == 2 {
                if pat.len() != 4 || pat[2] != '?' || pat[3] != '?' || ws.len() < 3 {
                    return fail_registers(msg_list, line, line_counter);
                }
                match (parse_register(&ws[1]), parse_register(&ws[2])) {
                    (Some(v1), Some(v2)) => {
                        proof {
                            crate::textscan::lemma_dec_val_nonneg(ws@[1]@.drop_first());
                            crate::textscan::lemma_dec_val_nonneg(ws@[2]@.drop_first());
                        }
                        let mut out = sub_chars(&pat, 0, 2);
                        proof {
                            assert(pat@.subrange(0, 2) =~= pat@.take(2));
                        }
                        out.push(hex_char_of(v1));
                        out.push(hex_char_of(v2));
                        string_from_chars(&out)
                    },
                    _ => fail_registers(msg_list, line, line_counter),
                }
            } else {
                fail_registers(msg_list, line, line_counter)
            }
        },
    }
}

/// The argument count of the line's opcode, when its mnemonic is known.
pub open spec fn spec_num_arguments(ops: Seq<Opcode>, s: Seq<char>) -> Option<u32> {
    let ws = words(spec_strip(s));
    if ws.len() >= 1 && opcode_lookup(ops, ws[0]) is Some {
        Some(ops[opcode_lookup(ops, ws[0])->Some_0].variables)
    } else {
        None
    }
}

/// How many argument words the line's opcode demands, from its definition.
pub fn num_arguments(oplist: &Vec<Opcode>, line: &str) -> (r: Option<u32>)
    ensures
        r == spec_num_arguments(oplist@, line@),
{
    let cs = chars_of(line);
    let t = strip_chars(&cs);
    let ws = split_words(&t);
    if ws.len() == 0 {
        return None;
    }
    match find_opcode(oplist, &ws[0]) {
        Some(i) => Some(oplist[i].variables),
        None => None,
    }
}

/// Round-trip law: an opcode line that is a lone mnemonic whose definition
/// demands no registers and no arguments encodes to exactly the
/// definition's base four-character pattern, with nothing substituted and
/// nothing appended.
pub proof fn lemma_encode_no_operands(ops: Seq<Opcode>, ls: Seq<Label>, s: Seq<char>)
    requires
        words(spec_strip(s)).len() == 1,
        opcode_lookup(ops, words(spec_strip(s))[0]) is Some,
        ops[opcode_lookup(ops, words(spec_strip(s))[0])->Some_0].registers == 0,
        ops[opcode_lookup(ops, words(spec_strip(s))[0])->Some_0].variables == 0,
        ops[opcode_lookup(ops, words(spec_strip(s))[0])->Some_0].opcode@.len() == 4,
    ensures
        spec_add_registers(ops, s) == ops[opcode_lookup(ops, words(spec_strip(s))[0])->Some_0]
            .opcode@,
        spec_add_arguments(ops, ls, s) == Seq::<char>::empty(),
{
    let ws = words(spec_strip(s));
    let i = opcode_lookup(ops, ws[0])->Some_0;
    assert(spec_add_registers_ok(ops, s));
    assert(args_from(ls, ws, 1 + ops[i].registers) =~= Seq::<char>::empty());
}

/// The mnemonic-free names of every label in the table, in order.
pub open spec fn label_names(ls: Seq<Label>) -> Seq<Seq<char>> {
    ls.map_values(|l: Label| l.name@)
}

/// Position of the first label named `name` in the table: the first binding
/// wins when a name is bound twice.
pub open spec fn label_lookup(ls: Seq<Label>, name: Seq<char>) -> Option<int> {
    name_lookup(label_names(ls), name)
}

/// Find the first label with the given name.
pub fn find_label(labels: &Vec<Label>, name: &String) -> (r: Option<usize>)
    ensures
        match r {
            Some(i) => label_lookup(labels@, name@) == Some(i as int) && i < labels@.len(),
            None => label_lookup(labels@, name@) is None,
        },
{
    let mut i: usize = 0;
    while i < labels.len()
        invariant
            i <= labels@.len(),
            forall|j: int| 0 <= j < i ==> label_names(labels@)[j] != name@,
        decreases labels@.len() - i,
    {
        if labels[i].name == *name {
            proof {
                assert(label_names(labels@)[i as int] == name@);
                crate::helper::lemma_name_lookup_skip(label_names(labels@), name@, i as int);
            }
            return Some(i);
        }
        proof {
            assert(label_names(labels@)[i as int] == labels@[i as int].name@);
        }
        i = i + 1;
    }
    proof {
        crate::helper::lemma_name_lookup_skip(label_names(labels@), name@, i as int);
    }
    None
}

/// An argument operand's value: a decimal literal, or the address of a
/// label; either must fit in one 16-bit word.
pub open spec fn arg_val(ls: Seq<Label>, w: Seq<char>) -> Option<u32> {
    if w.len() >= 1 && all_digits(w) {
        if dec_val(w) <= 0xFFFF {
            Some(dec_val(w) as u32)
        } else {
            None
        }
    } else {
        match label_lookup(ls, w) {
            Some(i) => if ls[i].program_counter <= 0xFFFF {
                Some(ls[i].program_counter)
            } else {
                None
            },
            None => None,
        }
    }
}

/// Decide whether `wc` is a non-empty run of decimal digits.
fn is_all_digits(wc: &Vec<char>) -> (r: bool)
    ensures
        r == (wc@.len() >= 1 && all_digits(wc@)),
{
    if wc.len() == 0 {
        return false;
    }
    let mut i: usize = 0;
    while i < wc.len()
        invariant
            i <= wc@.len(),
            all_digits(wc@.take(i as int)),
        decreases wc@.len() - i,
    {
        let v = wc[i] as u32;
        if v < 48 || v > 57 {
            assert(!is_digit(wc@[i as int]));
            return false;
        }
        proof {
            assert(wc@.take(i + 1int) =~= wc@.take(i as int).push(wc@[i as int]));
        }
        i = i + 1;
    }
    proof {
        assert(wc@.take(wc@.len() as int) =~= wc@);
    }
    true
}

/// Parse an argument operand against the label table.
pub fn parse_argument(labels: &Vec<Label>, w: &String) -> (r: Option<u32>)
    ensures
        r == arg_val(labels@, w@),
{
    let wc = chars_of(w.as_str());
    if is_all_digits(&wc) {
        match parse_decimal(&wc) {
            Some(v) => Some(v),
            None => None,
        }
    } else {
        match find_label(labels, w) {
            Some(i) => {
                let pc = labels[i].program_counter;
                if pc <= 0xFFFF {
                    Some(pc)
                } else {
                    None
                }
            },
            None => None,
        }
    }
}

/// Encoding of the argument words from position `k` on: one four-digit word
/// per argument, the error sentinel where one cannot be resolved.
pub open spec fn args_from(ls: Seq<Label>, ws: Seq<Seq<char>>, k: int) -> Seq<char>
    decreases ws.len() - k,
{
    if k < 0 || k >= ws.len() {
        Seq::empty()
    } else {
        (match arg_val(ls, ws[k]) {
            Some(v) => hex4(v as int),
            None => err_marker(),
        }) + args_from(ls, ws, k + 1)
    }
}

/// How many argument words from position `k` on fail to resolve.
pub open spec fn args_fails_from(ls: Seq<Label>, ws: Seq<Seq<char>>, k: int) -> int
    decreases ws.len() - k,
{
    if k < 0 || k >= ws.len() {
        0
    } else {
        (if arg_val(ls, ws[k]) is None {
            1int
        } else {
            0int
        }) + args_fails_from(ls, ws, k + 1)
    }
}

/// A failure count is never negative.
proof fn lemma_args_fails_nonneg(ls: Seq<Label>, ws: Seq<Seq<char>>, k: int)
    ensures
        args_fails_from(ls, ws, k) >= 0,
    decreases ws.len() - k,
{
    if !(k < 0 || k >= ws.len()) {
        lemma_args_fails_nonneg(ls, ws, k + 1);
    }
}

/// Failure counts only shrink as the start advances.
proof fn lemma_args_fails_range(ls: Seq<Label>, ws: Seq<Seq<char>>, a: int, b: int)
    requires
        0 <= a <= b,
    ensures
        args_fails_from(ls, ws, a) >= args_fails_from(ls, ws, b) >= 0,
    decreases b - a,
{
    lemma_args_fails_nonneg(ls, ws, b);
    if a < b {
        lemma_args_fails_range(ls, ws, a + 1, b);
        lemma_args_fails_nonneg(ls, ws, a + 1);
    }
}

/// The line's word count is exactly what its opcode demands: the mnemonic,
/// one word per register slot, one per variable argument.
pub open spec fn spec_arity_ok(ops: Seq<Opcode>, s: Seq<char>) -> bool {
    let ws = words(spec_strip(s));
    ws.len() >= 1 && match opcode_lookup(ops, ws[0]) {
        None => false,
        Some(i) => ws.len() == 1 + ops[i].registers + ops[i].variables,
    }
}

/// Encoding of a line's arguments: one word per declared argument, or the
/// sentinel alone when the mnemonic is unknown or the arity is wrong.
pub open spec fn spec_add_arguments(ops: Seq<Opcode>, ls: Seq<Label>, s: Seq<char>) -> Seq<
    char,
> {
    let ws = words(spec_strip(s));
    if spec_arity_ok(ops, s) {
        let i = opcode_lookup(ops, ws[0])->Some_0;
        args_from(ls, ws, 1 + ops[i].registers)
    } else {
        err_marker()
    }
}

/// How many messages `add_arguments` leaves: one per unresolvable argument,
/// one when the mnemonic is unknown or the arity is wrong.
pub open spec fn spec_add_arguments_fails(ops: Seq<Opcode>, ls: Seq<Label>, s: Seq<char>) -> int {
    let ws = words(spec_strip(s));
    if spec_arity_ok(ops, s) {
        let i = opcode_lookup(ops, ws[0])->Some_0;
        args_fails_from(ls, ws, 1 + ops[i].registers)
    } else {
        1
    }
}

/// The message count of an argument encoding is never negative.
pub proof fn lemma_add_arguments_fails_nonneg(ops: Seq<Opcode>, ls: Seq<Label>, s: Seq<char>)
    ensures
        spec_add_arguments_fails(ops, ls, s) >= 0,
{
    let ws = words(spec_strip(s));
    if spec_arity_ok(ops, s) {
        let i = opcode_lookup(ops, ws[0])->Some_0;
        lemma_args_fails_nonneg(ls, ws, 1 + ops[i].registers);
    }
}

/// A well-formed opcode table: four-character patterns, at most two
/// register slots and two variable arguments per definition. Tables parsed
/// from the opcode file always qualify.
pub open spec fn wf_opcode_table(ops: Seq<Opcode>) -> bool {
    forall|i: int|
        0 <= i < ops.len() ==> (#[trigger] ops[i]).opcode@.len() == 4 && ops[i].registers <= 2
            && ops[i].variables <= 2
}

/// Encoded argument words take four digits each, resolved or not.
pub proof fn lemma_args_from_len(ls: Seq<Label>, ws: Seq<Seq<char>>, k: int)
    requires
        0 <= k <= ws.len(),
    ensures
        args_from(ls, ws, k).len() == 4 * (ws.len() - k),
    decreases ws.len() - k,
{
    if k < ws.len() {
        lemma_args_from_len(ls, ws, k + 1);
    }
}

/// Against a well-formed table, a line whose encoding holds no sentinel is
/// one, two or three machine words long: four, eight or twelve digits.
pub proof fn lemma_opcode_code_len(ops: Seq<Opcode>, ls: Seq<Label>, s: Seq<char>)
    requires
        wf_opcode_table(ops),
        find_first(spec_add_registers(ops, s) + spec_add_arguments(ops, ls, s), err_marker())
            is None,
    ensures
        ({
            let n = (spec_add_registers(ops, s) + spec_add_arguments(ops, ls, s)).len();
            n == 4 || n == 8 || n == 12
        }),
{
    let code = spec_add_registers(ops, s) + spec_add_arguments(ops, ls, s);
    let ws = words(spec_strip(s));
    if !spec_add_registers_ok(ops, s) {
        assert(match_at(code, err_marker(), 0)) by {
            assert(forall|t: int| 0 <= t < 4 ==> code[t] == err_marker()[t]);
        }
        lemma_match_found(code, err_marker(), 0);
        assert(false);
    }
    assert(spec_add_registers(ops, s).len() == 4);
    if !spec_arity_ok(ops, s) {
        assert(match_at(code, err_marker(), 4)) by {
            assert(forall|t: int| 0 <= t < 4 ==> code[4 + t] == err_marker()[t]);
        }
        lemma_match_found(code, err_marker(), 4);
        assert(false);
    }
    let i = opcode_lookup(ops, ws[0])->Some_0;
    crate::helper::lemma_name_lookup_props(crate::helper::opcode_names(ops), ws[0]);
    assert(0 <= i < ops.len());
    lemma_args_from_len(ls, ws, 1 + ops[i].registers);
    assert(spec_add_arguments(ops, ls, s).len() == 4 * ops[i].variables);
}

/// Report one unresolvable argument.
fn fail_argument(msg_list: &mut MsgList, line: &str, line_counter: u32)
    ensures
        final(msg_list).list@.len() == old(msg_list).list@.len() + 1,
        final(msg_list).list@.drop_last() == old(msg_list).list@,
        final(msg_list).list@.last().msg_type == MessageType::Error,
        final(msg_list).list@.last().line_number == Some(line_counter),
{
    let mut text: String = "Bad arguments ".to_owned();
    text.append(line);
    msg_list.push(text, Some(line_counter), MessageType::Error);
    proof {
        assert(msg_list.list@.drop_last() =~= old(msg_list).list@);
    }
}

/// Encode the line's argument operands, resolving labels through the table
/// pass 1 built.
///
/// The result is pinned by [`spec_add_arguments`]; exactly one
/// error-severity message is appended per operand that fails to resolve,
/// and none when every operand resolves.
pub fn add_arguments(
    oplist: &Vec<Opcode>,
    line: &str,
    msg_list: &mut MsgList,
    line_counter: u32,
    labels: &Vec<Label>,
) -> (r: String)
    ensures
        r@ == spec_add_arguments(oplist@, labels@, line@),
        final(msg_list).list@.len() >= old(msg_list).list@.len(),
        final(msg_list).list@.len() == old(msg_list).list@.len() + spec_add_arguments_fails(
            oplist@,
            labels@,
            line@,
        ),
        final(msg_list).list@.take(old(msg_list).list@.len() as int) == old(msg_list).list@,
        forall|m: int|
            old(msg_list).list@.len() <= m < final(msg_list).list@.len() ==> (#[trigger] final(
                msg_list).list@[m]).msg_type == MessageType::Error && final(
                msg_list).list@[m].line_number == Some(line_counter),
{
    let ghost old_msgs = msg_list.list@;
    proof {
        assert(msg_list.list@.take(old_msgs.len() as int) =~= old_msgs);
    }
    let cs = chars_of(line);
    let t = strip_chars(&cs);
    let ws = split_words(&t);
    if ws.len() == 0 {
        fail_argument(msg_list, line, line_counter);
        proof {
            assert(msg_list.list@.take(old_msgs.len() as int) =~= old_msgs);
        }
        return string_from_chars(&err_marker_chars());
    }
    let oi = match find_opcode(oplist, &ws[0]) {
        None => {
            fail_argument(msg_list, line, line_counter);
            proof {
                assert(msg_list.list@.take(old_msgs.len() as int) =~= old_msgs);
            }
            return string_from_chars(&err_marker_chars());
        },
        Some(i) => i,
    };
    let regs = oplist[oi].registers;
    let vars = oplist[oi].variables;
    let ghost start = 1 + oplist@[oi as int].registers as int;
    let start64: u64 = 1u64 + (regs as u64);
    if (ws.len() as u64) != start64 + (vars as u64) {
        assert(!spec_arity_ok(oplist@, line@));
        fail_argument(msg_list, line, line_counter);
        proof {
            assert(msg_list.list@.take(old_msgs.len() as int) =~= old_msgs);
        }
        return string_from_chars(&err_marker_chars());
    }
    if start64 >= ws.len() as u64 {
        proof {
            assert(args_from(labels@, seq_views(ws@), start) =~= Seq::<char>::empty());
            assert(args_fails_from(labels@, seq_views(ws@), start) == 0);
        }
        return String::new();
    }
    let mut k: usize = start64 as usize;
    let mut out: Vec<char> = Vec::new();
    proof {
        assert(out@ + args_from(labels@, seq_views(ws@), start) =~= args_from(
            labels@,
            seq_views(ws@),
            start,
        ));
    }
    while k < ws.len()
        invariant
            seq_views(ws@) == words(spec_strip(line@)),
            0 <= start <= k <= ws@.len(),
            out@ + args_from(labels@, seq_views(ws@), k as int) == args_from(
                labels@,
                seq_views(ws@),
                start,
            ),
            msg_list.list@.len() == old_msgs.len() + args_fails_from(
                labels@,
                seq_views(ws@),
                start,
            ) - args_fails_from(labels@, seq_views(ws@), k as int),
            msg_list.list@.take(old_msgs.len() as int) == old_msgs,
            forall|m: int|
                old_msgs.len() <= m < msg_list.list@.len() ==> (#[trigger] msg_list.list@[m])
                    .msg_type == MessageType::Error && msg_list.list@[m].line_number == Some(
                    line_counter,
                ),
        decreases ws@.len() - k,
    {
        let ghost wsv = seq_views(ws@);
        proof {
            assert(wsv[k as int] == ws@[k as int]@);
        }
        match parse_argument(labels, &ws[k]) {
            Some(v) => {
                proof {
                    if ws@[k as int]@.len() >= 1 && crate::textscan::all_digits(ws@[k as int]@) {
                        crate::textscan::lemma_dec_val_nonneg(ws@[k as int]@);
                    }
                    assert(arg_val(labels@, wsv[k as int]) == Some(v));
                    assert(v <= 0xFFFF);
                }
                let ghost out_before = out@;
                push_hex4(&mut out, v);
                proof {
                    assert(out@ + args_from(labels@, wsv, k + 1int) =~= out_before + args_from(
                        labels@,
                        wsv,
                        k as int,
                    ));
                }
            },
            None => {
                let ghost out_before = out@;
                let em = err_marker_chars();
                crate::textscan::push_all(&mut out, &em);
                proof {
                    lemma_args_fails_range(labels@, wsv, start, k as int);
                }
                fail_argument(msg_list, line, line_counter);
                proof {
                    assert(out@ + args_from(labels@, wsv, k + 1int) =~= out_before + args_from(
                        labels@,
                        wsv,
                        k as int,
                    ));
                    assert(msg_list.list@.take(old_msgs.len() as int) =~= old_msgs);
                }
            },
        }
        k = k + 1;
    }
    proof {
        assert(args_from(labels@, seq_views(ws@), k as int) =~= Seq::<char>::empty());
        assert(out@ =~= args_from(labels@, seq_views(ws@), start));
        assert(args_fails_from(labels@, seq_views(ws@), k as int) == 0);
        lemma_args_fails_nonneg(labels@, seq_views(ws@), start);
    }
    string_from_chars(&out)
}

} // verus!
