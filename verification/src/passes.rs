//! The pass pipeline and the output-stage decisions.
//!
//! Pass 1 classifies every expanded line and stamps it with the running
//! program counter: an opcode line advances the counter by one word per
//! argument plus one for the opcode word itself, a data directive by its
//! byte count, anything else not at all. Pass 2 encodes every line against
//! the completed label table and retypes as `Error` any line whose encoding
//! holds the sentinel. The binary image and the serial transmission are
//! withheld exactly when the message list holds an error.

use vstd::prelude::*;
use crate::files::{LineType, Opcode};
use crate::helper::{
    data_as_bytes, err_marker, err_marker_chars, is_valid_line, line_type, num_data_bytes,
    spec_data_as_bytes, spec_data_len, spec_is_valid, spec_line_type,
};
use crate::labels::{wf_label_line, Label};
use crate::messages::{count_severity, MessageType, MsgList};
use crate::opcodes::{
    add_arguments, add_registers, num_arguments, spec_add_arguments, spec_add_arguments_fails,
    spec_add_registers, spec_add_registers_ok, spec_num_arguments, Pass0, Pass1, Pass2,
};
use crate::textscan::{
    chars_of, find_first, find_sub, hex8, push_all, push_spaces, spaces, string_from_chars,
    to_hex8,
};
use crate::files::{spec_split_opcodes, split_opcodes};

verus! {

/// Saturation at the 32-bit limit.
pub open spec fn sat32(x: int) -> int {
    if x > 0xFFFFFFFF {
        0xFFFFFFFF
    } else {
        x
    }
}

/// How far one line advances the program counter.
pub open spec fn spec_advance(ops: Seq<Opcode>, s: Seq<char>) -> int {
    let lt = spec_line_type(ops, s);
    if lt == LineType::Opcode {
        match spec_num_arguments(ops, s) {
            Some(v) => 1 + v,
            None => 0,
        }
    } else if lt == LineType::Data {
        spec_data_len(s)
    } else {
        0
    }
}

/// The text of each pass-0 record.
pub open spec fn pass0_inputs(p: Seq<Pass0>) -> Seq<Seq<char>> {
    p.map_values(|x: Pass0| x.input@)
}

/// The program counter at which line `i` begins: the saturating sum of the
/// advances of every line before it.
pub open spec fn pc_at(ops: Seq<Opcode>, lines: Seq<Seq<char>>, i: int) -> int
    decreases i,
{
    if i <= 0 {
        0
    } else {
        sat32(pc_at(ops, lines, i - 1) + spec_advance(ops, lines[i - 1]))
    }
}

/// No line moves the counter backwards.
proof fn lemma_advance_nonneg(ops: Seq<Opcode>, s: Seq<char>)
    ensures
        spec_advance(ops, s) >= 0,
{
}

/// The program counter stays within 32 bits.
proof fn lemma_pc_at_range(ops: Seq<Opcode>, lines: Seq<Seq<char>>, i: int)
    ensures
        0 <= pc_at(ops, lines, i) <= 0xFFFFFFFF,
    decreases i,
{
    if i > 0 {
        lemma_pc_at_range(ops, lines, i - 1);
        lemma_advance_nonneg(ops, lines[i - 1]);
    }
}

/// Program counters are non-decreasing along the line stream.
pub proof fn lemma_pc_monotonic(ops: Seq<Opcode>, lines: Seq<Seq<char>>, i: int, j: int)
    requires
        0 <= i <= j,
    ensures
        pc_at(ops, lines, i) <= pc_at(ops, lines, j),
    decreases j - i,
{
    if i < j {
        lemma_pc_monotonic(ops, lines, i, j - 1);
        lemma_pc_at_range(ops, lines, j - 1);
        lemma_advance_nonneg(ops, lines[j - 1]);
    }
}

/// How many lines from position `k` on fail structural validation.
pub open spec fn invalid_from(ops: Seq<Opcode>, p: Seq<Pass0>, k: int) -> int
    decreases p.len() - k,
{
    if k < 0 || k >= p.len() {
        0
    } else {
        (if spec_is_valid(ops, p[k].input@) {
            0int
        } else {
            1int
        }) + invalid_from(ops, p, k + 1)
    }
}

proof fn lemma_invalid_nonneg(ops: Seq<Opcode>, p: Seq<Pass0>, k: int)
    ensures
        invalid_from(ops, p, k) >= 0,
    decreases p.len() - k,
{
    if !(k < 0 || k >= p.len()) {
        lemma_invalid_nonneg(ops, p, k + 1);
    }
}

proof fn lemma_invalid_range(ops: Seq<Opcode>, p: Seq<Pass0>, a: int, b: int)
    requires
        0 <= a <= b,
    ensures
        invalid_from(ops, p, a) >= invalid_from(ops, p, b) >= 0,
    decreases b - a,
{
    lemma_invalid_nonneg(ops, p, b);
    if a < b {
        lemma_invalid_range(ops, p, a + 1, b);
        lemma_invalid_nonneg(ops, p, a + 1);
    }
}

/// Pass 1: classify each expanded line, stamp it with the current program
/// counter, report every structurally invalid line, and advance the
/// counter.
///
/// Classification, counters and the error count are all pinned; counters
/// are non-decreasing, and every line classified `Label` has the
/// single-word `name:` shape the label table demands.
pub fn get_pass1(msg_list: &mut MsgList, pass0: Vec<Pass0>, oplist: Vec<Opcode>) -> (r: Vec<
    Pass1,
>)
    ensures
        r@.len() == pass0@.len(),
        forall|i: int|
            0 <= i < r@.len() ==> (#[trigger] r@[i]).input == pass0@[i].input && r@[i].line_counter
                == pass0@[i].line_counter,
        forall|i: int|
            0 <= i < r@.len() ==> (#[trigger] r@[i]).line_type == spec_line_type(
                oplist@,
                pass0@[i].input@,
            ),
        forall|i: int|
            0 <= i < r@.len() ==> (#[trigger] r@[i]).program_counter == pc_at(
                oplist@,
                pass0_inputs(pass0@),
                i,
            ),
        forall|i: int, j: int|
            0 <= i <= j < r@.len() ==> (#[trigger] r@[i]).program_counter <= (#[trigger] r@[j])
                .program_counter,
        forall|i: int|
            0 <= i < r@.len() && (#[trigger] r@[i]).line_type == LineType::Label
                ==> wf_label_line(r@[i].input@),
        final(msg_list).list@.len() == old(msg_list).list@.len() + invalid_from(
            oplist@,
            pass0@,
            0,
        ),
        final(msg_list).list@.take(old(msg_list).list@.len() as int) == old(msg_list).list@,
        forall|m: int|
            old(msg_list).list@.len() <= m < final(msg_list).list@.len() ==> (#[trigger] final(
                msg_list).list@[m]).msg_type == MessageType::Error && (exists|i: int|
                0 <= i < pass0@.len() && !spec_is_valid(oplist@, (#[trigger] pass0@[i]).input@)
                    && final(msg_list).list@[m].line_number == Some(pass0@[i].line_counter)),
{
    let ghost old_msgs = msg_list.list@;
    let ghost inputs = pass0_inputs(pass0@);
    let mut r: Vec<Pass1> = Vec::new();
    let mut pc: u32 = 0;
    let mut i: usize = 0;
    proof {
        assert(msg_list.list@.take(old_msgs.len() as int) =~= old_msgs);
    }
    while i < pass0.len()
        invariant
            i <= pass0@.len(),
            r@.len() == i,
            inputs == pass0_inputs(pass0@),
            old_msgs == old(msg_list).list@,
            pc == pc_at(oplist@, inputs, i as int),
            forall|k: int|
                0 <= k < i ==> (#[trigger] r@[k]).input == pass0@[k].input && r@[k].line_counter
                    == pass0@[k].line_counter,
            forall|k: int|
                0 <= k < i ==> (#[trigger] r@[k]).line_type == spec_line_type(
                    oplist@,
                    pass0@[k].input@,
                ),
            forall|k: int|
                0 <= k < i ==> (#[trigger] r@[k]).program_counter == pc_at(oplist@, inputs, k),
            msg_list.list@.len() == old_msgs.len() + invalid_from(oplist@, pass0@, 0)
                - invalid_from(oplist@, pass0@, i as int),
            msg_list.list@.take(old_msgs.len() as int) == old_msgs,
            forall|m: int|
                old_msgs.len() <= m < msg_list.list@.len() ==> (#[trigger] msg_list.list@[m])
                    .msg_type == MessageType::Error && (exists|w: int|
                    0 <= w < pass0@.len() && !spec_is_valid(oplist@, (#[trigger] pass0@[w]).input@)
                        && msg_list.list@[m].line_number == Some(pass0@[w].line_counter)),
        decreases pass0@.len() - i,
    {
        proof {
            assert(inputs[i as int] == pass0@[i as int].input@);
        }
        let lt = line_type(&oplist, pass0[i].input.as_str());
        r.push(
            Pass1 {
                input: pass0[i].input.clone(),
                line_counter: pass0[i].line_counter,
                program_counter: pc,
                line_type: lt,
            },
        );
        if !is_valid_line(&oplist, pass0[i].input.as_str()) {
            let mut text: String = "Opcode error ".to_owned();
            text.append(pass0[i].input.as_str());
            let ghost before = msg_list.list@;
            proof {
                lemma_invalid_range(oplist@, pass0@, 0, i as int);
                lemma_invalid_nonneg(oplist@, pass0@, i + 1int);
            }
            msg_list.push(text, Some(pass0[i].line_counter), MessageType::Error);
            proof {
                assert(msg_list.list@.take(old_msgs.len() as int) =~= before.take(
                    old_msgs.len() as int,
                ));
                assert(0 <= i < pass0@.len() && !spec_is_valid(
                    oplist@,
                    pass0@[i as int].input@,
                ) && msg_list.list@.last().line_number == Some(pass0@[i as int].line_counter));
                assert forall|m: int|
                    old_msgs.len() <= m < msg_list.list@.len() - 1 implies msg_list.list@[m]
                    == before[m] by {
                    assert(msg_list.list@.drop_last() =~= before);
                }
            }
        }
        if matches!(lt, LineType::Opcode) {
            match num_arguments(&oplist, pass0[i].input.as_str()) {
                Some(p) => {
                    pc = pc.saturating_add(p).saturating_add(1);
                },
                None => (),
            }
        } else if matches!(lt, LineType::Data) {
            let nb = num_data_bytes(pass0[i].input.as_str());
            let nb32: u32 = if (nb as u64) >= 0xFFFFFFFFu64 {
                0xFFFFFFFFu32
            } else {
                nb as u32
            };
            pc = pc.saturating_add(nb32);
        }
        proof {
            lemma_pc_at_range(oplist@, inputs, i as int);
            assert(pc == pc_at(oplist@, inputs, i + 1int));
        }
        i = i + 1;
    }
    proof {
        assert forall|a: int, b: int| 0 <= a <= b < r@.len() implies (#[trigger] r@[a])
            .program_counter <= (#[trigger] r@[b]).program_counter by {
            lemma_pc_monotonic(oplist@, inputs, a, b);
        }
        assert forall|k: int|
            0 <= k < r@.len() && (#[trigger] r@[k]).line_type == LineType::Label implies
            wf_label_line(r@[k].input@) by {
            assert(r@[k].line_type == spec_line_type(oplist@, pass0@[k].input@));
        }
        lemma_invalid_nonneg(oplist@, pass0@, pass0@.len() as int);
    }
    r
}

/// The encoding of one classified line.
pub open spec fn spec_encode_code(
    ops: Seq<Opcode>,
    ls: Seq<Label>,
    lt: LineType,
    s: Seq<char>,
) -> Seq<char> {
    if lt == LineType::Opcode {
        spec_add_registers(ops, s) + spec_add_arguments(ops, ls, s)
    } else if lt == LineType::Data {
        spec_data_as_bytes(s)
    } else {
        Seq::empty()
    }
}

/// A line whose encoding holds the sentinel is retyped `Error`; any other
/// line keeps its pass-1 type.
pub open spec fn spec_retype(code: Seq<char>, lt: LineType) -> LineType {
    if find_first(code, err_marker()) is Some {
        LineType::Error
    } else {
        lt
    }
}

/// How many messages encoding one line leaves: one for a failed register
/// substitution, one per unresolvable argument.
pub open spec fn pass2_fails(ops: Seq<Opcode>, ls: Seq<Label>, line: Pass1) -> int {
    if line.line_type == LineType::Opcode {
        (if spec_add_registers_ok(ops, line.input@) {
            0int
        } else {
            1int
        }) + spec_add_arguments_fails(ops, ls, line.input@)
    } else {
        0
    }
}

/// Total messages the encoding of lines from position `k` on leaves.
pub open spec fn pass2_fails_from(ops: Seq<Opcode>, ls: Seq<Label>, p: Seq<Pass1>, k: int) -> int
    decreases p.len() - k,
{
    if k < 0 || k >= p.len() {
        0
    } else {
        pass2_fails(ops, ls, p[k]) + pass2_fails_from(ops, ls, p, k + 1)
    }
}

proof fn lemma_pass2_fails_nonneg(ops: Seq<Opcode>, ls: Seq<Label>, p: Seq<Pass1>, k: int)
    ensures
        pass2_fails_from(ops, ls, p, k) >= 0,
    decreases p.len() - k,
{
    if !(k < 0 || k >= p.len()) {
        crate::opcodes::lemma_add_arguments_fails_nonneg(ops, ls, p[k].input@);
        lemma_pass2_fails_nonneg(ops, ls, p, k + 1);
    }
}

proof fn lemma_pass2_fails_range(ops: Seq<Opcode>, ls: Seq<Label>, p: Seq<Pass1>, a: int, b: int)
    requires
        0 <= a <= b,
    ensures
        pass2_fails_from(ops, ls, p, a) >= pass2_fails_from(ops, ls, p, b) >= 0,
    decreases b - a,
{
    lemma_pass2_fails_nonneg(ops, ls, p, b);
    if a < b {
        lemma_pass2_fails_range(ops, ls, p, a + 1, b);
        lemma_pass2_fails_nonneg(ops, ls, p, a + 1);
        if !(a >= p.len()) {
            crate::opcodes::lemma_add_arguments_fails_nonneg(ops, ls, p[a].input@);
        }
    }
}

/// Pass 2: encode every line against the completed label table.
///
/// Each line's machine code and final type are pinned, as is the message
/// count: one error-severity message per operand that fails to resolve.
pub fn get_pass2(
    msg_list: &mut MsgList,
    pass1: Vec<Pass1>,
    oplist: Vec<Opcode>,
    labels: Vec<Label>,
) -> (r: Vec<Pass2>)
    ensures
        r@.len() == pass1@.len(),
        forall|i: int|
            0 <= i < r@.len() ==> (#[trigger] r@[i]).input == pass1@[i].input && r@[i].line_counter
                == pass1@[i].line_counter && r@[i].program_counter == pass1@[i].program_counter,
        forall|i: int|
            0 <= i < r@.len() ==> (#[trigger] r@[i]).opcode@ == spec_encode_code(
                oplist@,
                labels@,
                pass1@[i].line_type,
                pass1@[i].input@,
            ),
        forall|i: int|
            0 <= i < r@.len() ==> (#[trigger] r@[i]).line_type == spec_retype(
                spec_encode_code(oplist@, labels@, pass1@[i].line_type, pass1@[i].input@),
                pass1@[i].line_type,
            ),
        final(msg_list).list@.len() == old(msg_list).list@.len() + pass2_fails_from(
            oplist@,
            labels@,
            pass1@,
            0,
        ),
        final(msg_list).list@.take(old(msg_list).list@.len() as int) == old(msg_list).list@,
        forall|m: int|
            old(msg_list).list@.len() <= m < final(msg_list).list@.len() ==> (#[trigger] final(
                msg_list).list@[m]).msg_type == MessageType::Error && (exists|w: int|
                0 <= w < pass1@.len() && pass2_fails(oplist@, labels@, #[trigger] pass1@[w]) > 0
                    && final(msg_list).list@[m].line_number == Some(pass1@[w].line_counter)),
        crate::opcodes::wf_opcode_table(oplist@) ==> forall|i: int|
            0 <= i < r@.len() && (#[trigger] r@[i]).line_type == LineType::Opcode ==> (
            r@[i].opcode@.len() == 4 || r@[i].opcode@.len() == 8 || r@[i].opcode@.len() == 12),
{
    let ghost old_msgs = msg_list.list@;
    let mut r: Vec<Pass2> = Vec::new();
    let mut i: usize = 0;
    proof {
        assert(msg_list.list@.take(old_msgs.len() as int) =~= old_msgs);
    }
    while i < pass1.len()
        invariant
            i <= pass1@.len(),
            r@.len() == i,
            old_msgs == old(msg_list).list@,
            forall|k: int|
                0 <= k < i ==> (#[trigger] r@[k]).input == pass1@[k].input && r@[k].line_counter
                    == pass1@[k].line_counter && r@[k].program_counter == pass1@[k]
                    .program_counter,
            forall|k: int|
                0 <= k < i ==> (#[trigger] r@[k]).opcode@ == spec_encode_code(
                    oplist@,
                    labels@,
                    pass1@[k].line_type,
                    pass1@[k].input@,
                ),
            forall|k: int|
                0 <= k < i ==> (#[trigger] r@[k]).line_type == spec_retype(
                    spec_encode_code(oplist@, labels@, pass1@[k].line_type, pass1@[k].input@),
                    pass1@[k].line_type,
                ),
            old_msgs.len() <= msg_list.list@.len(),
            msg_list.list@.len() == old_msgs.len() + pass2_fails_from(oplist@, labels@, pass1@, 0)
                - pass2_fails_from(oplist@, labels@, pass1@, i as int),
            msg_list.list@.take(old_msgs.len() as int) == old_msgs,
            forall|m: int|
                old_msgs.len() <= m < msg_list.list@.len() ==> (#[trigger] msg_list.list@[m])
                    .msg_type == MessageType::Error && (exists|w: int|
                    0 <= w < pass1@.len() && pass2_fails(oplist@, labels@, #[trigger] pass1@[w])
                        > 0 && msg_list.list@[m].line_number == Some(pass1@[w].line_counter)),
        decreases pass1@.len() - i,
    {
        let lt = pass1[i].line_type;
        let ghost mid0 = msg_list.list@;
        let code: String = if matches!(lt, LineType::Opcode) {
            let mut c = add_registers(&oplist, pass1[i].input.as_str(), msg_list, pass1[i]
                .line_counter);
            let ghost mid1 = msg_list.list@;
            proof {
                assert(mid1.take(mid0.len() as int) =~= mid0);
                assert(msg_list.list@.take(old_msgs.len() as int) =~= old_msgs);
            }
            let c2 = add_arguments(
                &oplist,
                pass1[i].input.as_str(),
                msg_list,
                pass1[i].line_counter,
                &labels,
            );
            proof {
                let cur = msg_list.list@;
                assert(cur.take(mid1.len() as int) == mid1);
                assert forall|idx: int| 0 <= idx < mid1.len() implies cur[idx] == mid1[idx] by {
                    assert(cur.take(mid1.len() as int)[idx] == cur[idx]);
                }
                assert forall|m: int|
                    old_msgs.len() <= m < mid1.len() implies (#[trigger] mid1[m]).msg_type
                    == MessageType::Error by {
                    if mid1.len() == mid0.len() + 1 {
                        if m < mid0.len() {
                            assert(mid1.drop_last()[m] == mid1[m]);
                        } else {
                            assert(mid1[m] == mid1.last());
                        }
                    }
                }
                assert(cur.take(old_msgs.len() as int) =~= old_msgs);
                crate::opcodes::lemma_add_arguments_fails_nonneg(
                    oplist@,
                    labels@,
                    pass1@[i as int].input@,
                );
                assert forall|m: int|
                    old_msgs.len() <= m < cur.len() implies (#[trigger] cur[m]).msg_type
                    == MessageType::Error && (exists|w: int|
                    0 <= w < pass1@.len() && pass2_fails(oplist@, labels@, #[trigger] pass1@[w])
                        > 0 && cur[m].line_number == Some(pass1@[w].line_counter)) by {
                    if m < mid0.len() {
                        assert(cur[m] == mid1[m]);
                        if mid1.len() == mid0.len() + 1 {
                            assert(mid1.drop_last()[m] == mid1[m]);
                        }
                        assert(cur[m] == mid0[m]);
                    } else {
                        if m < mid1.len() {
                            assert(cur[m] == mid1[m]);
                            assert(mid1[m] == mid1.last());
                            assert(cur[m].line_number == Some(pass1@[i as int].line_counter));
                            assert(!spec_add_registers_ok(oplist@, pass1@[i as int].input@));
                        } else {
                            assert(cur[m].line_number == Some(pass1@[i as int].line_counter));
                            assert(spec_add_arguments_fails(
                                oplist@,
                                labels@,
                                pass1@[i as int].input@,
                            ) >= 1);
                        }
                        assert(0 <= i < pass1@.len() && pass2_fails(
                            oplist@,
                            labels@,
                            pass1@[i as int],
                        ) > 0 && cur[m].line_number == Some(pass1@[i as int].line_counter));
                    }
                }
            }
            c.append(c2.as_str());
            c
        } else if matches!(lt, LineType::Data) {
            data_as_bytes(pass1[i].input.as_str())
        } else {
            String::new()
        };
        let cc = chars_of(code.as_str());
        let em = err_marker_chars();
        let new_lt = match find_sub(&cc, &em) {
            Some(_) => LineType::Error,
            None => lt,
        };
        r.push(
            Pass2 {
                input: pass1[i].input.clone(),
                line_counter: pass1[i].line_counter,
                program_counter: pass1[i].program_counter,
                line_type: new_lt,
                opcode: code,
            },
        );
        proof {
            lemma_pass2_fails_range(oplist@, labels@, pass1@, 0, i + 1int);
            assert(msg_list.list@.len() == old_msgs.len() + pass2_fails_from(
                oplist@,
                labels@,
                pass1@,
                0,
            ) - pass2_fails_from(oplist@, labels@, pass1@, i + 1int));
        }
        i = i + 1;
    }
    proof {
        if crate::opcodes::wf_opcode_table(oplist@) {
            assert forall|ii: int|
                0 <= ii < r@.len() && (#[trigger] r@[ii]).line_type == LineType::Opcode implies (
            r@[ii].opcode@.len() == 4 || r@[ii].opcode@.len() == 8 || r@[ii].opcode@.len()
                == 12) by {
                assert(pass1@[ii].line_type == LineType::Opcode);
                crate::opcodes::lemma_opcode_code_len(oplist@, labels@, pass1@[ii].input@);
            }
        }
    }
    r
}

/// The concatenated machine code of every line, in program order.
pub open spec fn bin_payload(p: Seq<Pass2>) -> Seq<char>
    decreases p.len(),
{
    if p.len() == 0 {
        Seq::empty()
    } else {
        bin_payload(p.drop_last()) + p.last().opcode@
    }
}

/// The binary image: an `S`, the payload, an `X`.
pub open spec fn spec_bin_string(p: Seq<Pass2>) -> Seq<char> {
    seq!['S'] + bin_payload(p) + seq!['X']
}

/// Build the binary image text from the encoded lines.
pub fn create_bin_string(pass2: &Vec<Pass2>) -> (r: String)
    ensures
        r@ == spec_bin_string(pass2@),
{
    let mut out: Vec<char> = Vec::new();
    out.push('S');
    let mut i: usize = 0;
    proof {
        assert(out@ =~= seq!['S'] + bin_payload(pass2@.take(0)));
    }
    while i < pass2.len()
        invariant
            i <= pass2@.len(),
            out@ == seq!['S'] + bin_payload(pass2@.take(i as int)),
        decreases pass2@.len() - i,
    {
        proof {
            assert(pass2@.take(i + 1int).drop_last() =~= pass2@.take(i as int));
            assert(pass2@.take(i + 1int).last() == pass2@[i as int]);
        }
        let oc = chars_of(pass2[i].opcode.as_str());
        push_all(&mut out, &oc);
        proof {
            assert(out@ =~= seq!['S'] + bin_payload(pass2@.take(i + 1int)));
        }
        i = i + 1;
    }
    out.push('X');
    proof {
        assert(pass2@.take(pass2@.len() as int) =~= pass2@);
        assert(out@ =~= spec_bin_string(pass2@));
    }
    string_from_chars(&out)
}

/// A code column padded to the listing's minimum width.
pub open spec fn pad_to8(g: Seq<char>) -> Seq<char> {
    if g.len() < 8 {
        g + spaces(8 - g.len())
    } else {
        g
    }
}

/// One listing line: address and grouped code for an opcode line, a fixed
/// `Error` placeholder for an error line, blank columns otherwise; always
/// followed by the original source text.
pub open spec fn spec_code_line(p: Pass2) -> Seq<char> {
    if p.line_type == LineType::Opcode {
        seq!['0', 'x'] + hex8(p.program_counter as int) + seq![':', ' '] + pad_to8(
            spec_split_opcodes(p.opcode@),
        ) + seq![' ', '-', '-', ' '] + p.input@ + seq!['\n']
    } else if p.line_type == LineType::Error {
        seq!['E', 'r', 'r', 'o', 'r'] + spaces(22) + seq!['-', '-', ' '] + p.input@ + seq!['\n']
    } else {
        spaces(27) + seq!['-', '-', ' '] + p.input@ + seq!['\n']
    }
}

/// Format one encoded line for the listing file.
pub fn format_code_line(pass: &Pass2) -> (r: String)
    ensures
        r@ == spec_code_line(*pass),
{
    let mut out: Vec<char> = Vec::new();
    if matches!(pass.line_type, LineType::Opcode) {
        out.push('0');
        out.push('x');
        let h = to_hex8(pass.program_counter);
        push_all(&mut out, &h);
        out.push(':');
        out.push(' ');
        let g = split_opcodes(&pass.opcode);
        let gc = chars_of(g.as_str());
        push_all(&mut out, &gc);
        if gc.len() < 8 {
            push_spaces(&mut out, 8 - gc.len());
        }
        out.push(' ');
        out.push('-');
        out.push('-');
        out.push(' ');
        let ic = chars_of(pass.input.as_str());
        push_all(&mut out, &ic);
        out.push('\n');
        proof {
            assert(out@ =~= spec_code_line(*pass));
        }
    } else if matches!(pass.line_type, LineType::Error) {
        out.push('E');
        out.push('r');
        out.push('r');
        out.push('o');
        out.push('r');
        push_spaces(&mut out, 22);
        out.push('-');
        out.push('-');
        out.push(' ');
        let ic = chars_of(pass.input.as_str());
        push_all(&mut out, &ic);
        out.push('\n');
        proof {
            assert(out@ =~= spec_code_line(*pass));
        }
    } else {
        push_spaces(&mut out, 27);
        out.push('-');
        out.push('-');
        out.push(' ');
        let ic = chars_of(pass.input.as_str());
        push_all(&mut out, &ic);
        out.push('\n');
        proof {
            assert(out@ =~= spec_code_line(*pass));
        }
    }
    string_from_chars(&out)
}

/// Record the outcome of the serial transmission decision.
///
/// With no error logged, the transmission was attempted and `serial_ok`
/// reports its outcome: success leaves one info message, failure one error
/// message, each naming the port. With errors logged, the transmission is
/// withheld and one warning message says so; `serial_ok` is then ignored.
pub fn write_to_device(msg_list: &mut MsgList, serial_ok: bool, output_serial_port: &str)
    ensures
        final(msg_list).list@.len() == old(msg_list).list@.len() + 1,
        final(msg_list).list@.drop_last() == old(msg_list).list@,
        count_severity(old(msg_list).list@, MessageType::Error) == 0 && serial_ok ==> final(
            msg_list).list@.last().msg_type == MessageType::Info && final(
            msg_list).list@.last().name@ == "Wrote to serial port "@ + output_serial_port@,
        count_severity(old(msg_list).list@, MessageType::Error) == 0 && !serial_ok ==> final(
            msg_list).list@.last().msg_type == MessageType::Error && final(
            msg_list).list@.last().name@ == "Failed to write to serial port "@
            + output_serial_port@,
        count_severity(old(msg_list).list@, MessageType::Error) != 0 ==> final(
            msg_list).list@.last().msg_type == MessageType::Warning && final(
            msg_list).list@.last().name@ == "Not writing to serial port due to assembly errors"@,
        final(msg_list).list@.last().line_number is None,
{
    if msg_list.number_errors() == 0 {
        if serial_ok {
            let mut text: String = "Wrote to serial port ".to_owned();
            text.append(output_serial_port);
            msg_list.push(text, None, MessageType::Info);
        } else {
            let mut text: String = "Failed to write to serial port ".to_owned();
            text.append(output_serial_port);
            msg_list.push(text, None, MessageType::Error);
        }
    } else {
        let text: String = "Not writing to serial port due to assembly errors".to_owned();
        msg_list.push(text, None, MessageType::Warning);
    }
    proof {
        assert(msg_list.list@.drop_last() =~= old(msg_list).list@);
    }
}

/// Record the outcome of writing the binary file.
///
/// One info message always names the file; when the write failed, one
/// error message follows it.
pub fn write_binary_file(msg_list: &mut MsgList, binary_file_name: &str, write_ok: bool)
    ensures
        write_ok ==> final(msg_list).list@.len() == old(msg_list).list@.len() + 1,
        !write_ok ==> final(msg_list).list@.len() == old(msg_list).list@.len() + 2,
        final(msg_list).list@.take(old(msg_list).list@.len() as int) == old(msg_list).list@,
        final(msg_list).list@[old(msg_list).list@.len() as int].msg_type == MessageType::Info,
        final(msg_list).list@[old(msg_list).list@.len() as int].name@
            == "Writing binary file to "@ + binary_file_name@,
        !write_ok ==> final(msg_list).list@.last().msg_type == MessageType::Error && final(
            msg_list).list@.last().name@ == "Unable to write to binary code file "@
            + binary_file_name@,
{
    let ghost old_msgs = msg_list.list@;
    let mut text: String = "Writing binary file to ".to_owned();
    text.append(binary_file_name);
    msg_list.push(text, None, MessageType::Info);
    proof {
        assert(msg_list.list@.take(old_msgs.len() as int) =~= old_msgs);
    }
    if !write_ok {
        let ghost mid = msg_list.list@;
        let mut etext: String = "Unable to write to binary code file ".to_owned();
        etext.append(binary_file_name);
        msg_list.push(etext, None, MessageType::Error);
        proof {
            assert(msg_list.list@.take(old_msgs.len() as int) =~= mid.take(old_msgs.len() as int));
            assert(msg_list.list@[old_msgs.len() as int] == mid[old_msgs.len() as int]);
        }
    }
}

} // verus!
