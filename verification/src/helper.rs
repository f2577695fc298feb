//! Comment stripping, line classification, structural validation and data
//! encoding.
//!
//! A stripped line is the line up to its first `//`, trimmed of surrounding
//! whitespace. Classification looks only at the stripped words: a single
//! word ending in `:` is a label, a first word found in the opcode table is
//! an opcode, a stripped line starting with `#` is a data directive.

use vstd::prelude::*;
use crate::files::{LineType, Opcode};
use crate::textscan::{
    chars_of, comment_marker, comment_marker_chars, find_first, find_sub, hex2, hex_char_of,
    lemma_first_match_from_props, lemma_trim_head, lemma_words_nonempty, split_words,
    string_from_chars, sub_chars, trim_chars, words,
};

verus! {

/// The sentinel marking an operand that could not be encoded.
pub open spec fn err_marker() -> Seq<char> {
    seq!['E', 'R', 'R', '!']
}

/// An executable copy of the error sentinel.
pub fn err_marker_chars() -> (r: Vec<char>)
    ensures
        r@ == err_marker(),
{
    let mut v: Vec<char> = Vec::new();
    v.push('E');
    v.push('R');
    v.push('R');
    v.push('!');
    proof {
        assert(v@ =~= err_marker());
    }
    v
}

/// `s` up to its first `//` comment marker.
pub open spec fn cut_comment(s: Seq<char>) -> Seq<char> {
    match find_first(s, comment_marker()) {
        None => s,
        Some(i) => s.take(i),
    }
}

/// The stripped form of a line: comment removed, whitespace trimmed.
pub open spec fn spec_strip(s: Seq<char>) -> Seq<char> {
    crate::textscan::spec_trim(cut_comment(s))
}

/// Strip a line held as characters.
pub fn strip_chars(cs: &Vec<char>) -> (r: Vec<char>)
    ensures
        r@ == spec_strip(cs@),
{
    let cm = comment_marker_chars();
    match find_sub(cs, &cm) {
        None => trim_chars(cs),
        Some(i) => {
            proof {
                lemma_first_match_from_props(cs@, comment_marker(), 0);
                assert(cs@.subrange(0, i as int) =~= cs@.take(i as int));
            }
            trim_chars(&sub_chars(cs, 0, i))
        },
    }
}

/// Remove the `//` comment and surrounding whitespace from a line.
pub fn strip_comments(line: &str) -> (r: String)
    ensures
        r@ == spec_strip(line@),
{
    string_from_chars(&strip_chars(&chars_of(line)))
}

/// First position at or after `i` where `target` occurs in `names`.
pub open spec fn name_lookup_from(names: Seq<Seq<char>>, target: Seq<char>, i: int) -> Option<
    int,
>
    decreases names.len() - i,
{
    if i < 0 || i >= names.len() {
        None
    } else if names[i] == target {
        Some(i)
    } else {
        name_lookup_from(names, target, i + 1)
    }
}

/// First position where `target` occurs in `names`.
pub open spec fn name_lookup(names: Seq<Seq<char>>, target: Seq<char>) -> Option<int> {
    name_lookup_from(names, target, 0)
}

/// Skipping over non-matching positions does not change a name lookup.
pub proof fn lemma_name_lookup_skip(names: Seq<Seq<char>>, target: Seq<char>, i: int)
    requires
        0 <= i,
        forall|j: int| 0 <= j < i ==> names[j] != target,
    ensures
        name_lookup(names, target) == name_lookup_from(names, target, i),
    decreases i,
{
    if i > 0 {
        lemma_name_lookup_skip(names, target, i - 1);
    }
}

/// What a successful name lookup says about `names`.
pub proof fn lemma_name_lookup_props(names: Seq<Seq<char>>, target: Seq<char>)
    ensures
        match name_lookup(names, target) {
            Some(i) => 0 <= i < names.len() && names[i] == target,
            None => true,
        },
{
    lemma_name_lookup_props_from(names, target, 0);
}

proof fn lemma_name_lookup_props_from(names: Seq<Seq<char>>, target: Seq<char>, a: int)
    requires
        0 <= a,
    ensures
        match name_lookup_from(names, target, a) {
            Some(i) => a <= i < names.len() && names[i] == target,
            None => true,
        },
    decreases names.len() - a,
{
    if a < names.len() && names[a] != target {
        lemma_name_lookup_props_from(names, target, a + 1);
    }
}

/// The mnemonic of every opcode in the table, in order.
pub open spec fn opcode_names(ops: Seq<Opcode>) -> Seq<Seq<char>> {
    ops.map_values(|o: Opcode| o.name@)
}

/// Position of the first opcode named `name` in the table.
pub open spec fn opcode_lookup(ops: Seq<Opcode>, name: Seq<char>) -> Option<int> {
    name_lookup(opcode_names(ops), name)
}

/// Find the first opcode with the given mnemonic.
pub fn find_opcode(oplist: &Vec<Opcode>, name: &String) -> (r: Option<usize>)
    ensures
        match r {
            Some(i) => opcode_lookup(oplist@, name@) == Some(i as int) && i < oplist@.len(),
            None => opcode_lookup(oplist@, name@) is None,
        },
{
    let mut i: usize = 0;
    while i < oplist.len()
        invariant
            i <= oplist@.len(),
            forall|j: int| 0 <= j < i ==> opcode_names(oplist@)[j] != name@,
        decreases oplist@.len() - i,
    {
        if oplist[i].name == *name {
            proof {
                assert(opcode_names(oplist@)[i as int] == name@);
                lemma_name_lookup_skip(opcode_names(oplist@), name@, i as int);
            }
            return Some(i);
        }
        proof {
            assert(opcode_names(oplist@)[i as int] == oplist@[i as int].name@);
        }
        i = i + 1;
    }
    proof {
        lemma_name_lookup_skip(opcode_names(oplist@), name@, i as int);
    }
    None
}

/// Classification of one raw source line against the opcode table.
pub open spec fn spec_line_type(ops: Seq<Opcode>, s: Seq<char>) -> LineType {
    let t = spec_strip(s);
    let ws = words(t);
    if t.len() == 0 {
        if find_first(s, comment_marker()) is Some {
            LineType::Comment
        } else {
            LineType::Blank
        }
    } else if ws.len() == 1 && ws[0].len() >= 2 && ws[0].last() == ':' {
        LineType::Label
    } else if ws.len() >= 1 && opcode_lookup(ops, ws[0]) is Some {
        LineType::Opcode
    } else if t[0] == '#' {
        LineType::Data
    } else {
        LineType::Error
    }
}

/// Classify one source line: blank, comment, label, opcode, data directive,
/// or error. A pure function of the opcode table and the line text.
pub fn line_type(oplist: &Vec<Opcode>, line: &str) -> (r: LineType)
    ensures
        r == spec_line_type(oplist@, line@),
{
    let cs = chars_of(line);
    let t = strip_chars(&cs);
    if t.len() == 0 {
        let cm = comment_marker_chars();
        return match find_sub(&cs, &cm) {
            Some(_) => LineType::Comment,
            None => LineType::Blank,
        };
    }
    proof {
        lemma_trim_head(cut_comment(cs@));
        lemma_words_nonempty(t@);
    }
    let ws = split_words(&t);
    let w0 = chars_of(ws[0].as_str());
    proof {
        assert(w0@ == words(t@)[0]);
    }
    if ws.len() == 1 && w0.len() >= 2 && w0[w0.len() - 1] == ':' {
        return LineType::Label;
    }
    match find_opcode(oplist, &ws[0]) {
        Some(_) => {
            return LineType::Opcode;
        },
        None => (),
    }
    if t[0] == '#' {
        return LineType::Data;
    }
    LineType::Error
}

/// Classification is referentially stable: two classifications of the same
/// line against the same opcode table agree, since each equals the one
/// spec-level classification of the table and the text.
pub proof fn lemma_classification_stable(ops: Seq<Opcode>, s: Seq<char>, a: LineType, b: LineType)
    requires
        a == spec_line_type(ops, s),
        b == spec_line_type(ops, s),
    ensures
        a == b,
{
}

/// A line is structurally valid unless it classifies as `Error`, or it is an
/// opcode line whose word count differs from the arity its opcode demands
/// (mnemonic plus one word per register slot plus one per variable argument).
pub open spec fn spec_is_valid(ops: Seq<Opcode>, s: Seq<char>) -> bool {
    let t = spec_strip(s);
    let ws = words(t);
    let lt = spec_line_type(ops, s);
    if lt == LineType::Error {
        false
    } else if lt == LineType::Opcode {
        let i = opcode_lookup(ops, ws[0])->Some_0;
        ws.len() == 1 + ops[i].registers + ops[i].variables
    } else {
        true
    }
}

/// Structural validation of one source line.
pub fn is_valid_line(oplist: &Vec<Opcode>, line: &str) -> (r: bool)
    ensures
        r == spec_is_valid(oplist@, line@),
{
    let lt = line_type(oplist, line);
    if matches!(lt, LineType::Error) {
        return false;
    }
    if !matches!(lt, LineType::Opcode) {
        return true;
    }
    let cs = chars_of(line);
    let t = strip_chars(&cs);
    proof {
        lemma_trim_head(cut_comment(cs@));
        lemma_words_nonempty(t@);
    }
    let ws = split_words(&t);
    match find_opcode(oplist, &ws[0]) {
        Some(i) => {
            let op_regs = oplist[i].registers;
            let op_vars = oplist[i].variables;
            (ws.len() as u64) == 1u64 + (op_regs as u64) + (op_vars as u64)
        },
        None => {
            // an opcode-classified line always has its mnemonic in the table
            proof {
                assert(spec_line_type(oplist@, line@) != LineType::Opcode);
            }
            false
        },
    }
}

/// Byte count of a data directive: one byte per payload character after the
/// leading `#`.
pub open spec fn spec_data_len(s: Seq<char>) -> int {
    if spec_strip(s).len() >= 1 {
        spec_strip(s).len() - 1
    } else {
        0
    }
}

/// How many bytes a data directive occupies.
pub fn num_data_bytes(line: &str) -> (r: usize)
    ensures
        r == spec_data_len(line@),
{
    let cs = chars_of(line);
    let t = strip_chars(&cs);
    if t.len() >= 1 {
        t.len() - 1
    } else {
        0
    }
}

/// Every character of `p` fits in one byte.
pub open spec fn all_bytes(p: Seq<char>) -> bool {
    forall|i: int| 0 <= i < p.len() ==> (#[trigger] p[i] as u32) <= 255
}

/// Byte-pair hexadecimal representation of the payload characters.
pub open spec fn data_hex(p: Seq<char>) -> Seq<char>
    decreases p.len(),
{
    if p.len() == 0 {
        Seq::empty()
    } else {
        data_hex(p.drop_last()) + hex2((p.last() as u32) as int)
    }
}

/// Encoding of a data directive: the payload after `#`, two hexadecimal
/// digits per character; the error sentinel if a character exceeds one byte.
pub open spec fn spec_data_as_bytes(s: Seq<char>) -> Seq<char> {
    let t = spec_strip(s);
    let p = if t.len() >= 1 {
        t.drop_first()
    } else {
        Seq::<char>::empty()
    };
    if all_bytes(p) {
        data_hex(p)
    } else {
        err_marker()
    }
}

/// Encode a data directive's payload as hexadecimal byte pairs.
pub fn data_as_bytes(line: &str) -> (r: String)
    ensures
        r@ == spec_data_as_bytes(line@),
{
    let cs = chars_of(line);
    let t = strip_chars(&cs);
    let p: Vec<char> = if t.len() >= 1 {
        let q = sub_chars(&t, 1, t.len());
        proof {
            assert(t@.subrange(1, t@.len() as int) =~= t@.drop_first());
        }
        q
    } else {
        Vec::new()
    };
    proof {
        if t@.len() < 1 {
            assert(p@ =~= Seq::<char>::empty());
        }
    }
    let mut out: Vec<char> = Vec::new();
    let mut i: usize = 0;
    proof {
        assert(p@.take(0) =~= Seq::<char>::empty());
        assert(out@ =~= data_hex(p@.take(0)));
    }
    proof {
        assert(p@ == (if spec_strip(line@).len() >= 1 {
            spec_strip(line@).drop_first()
        } else {
            Seq::<char>::empty()
        }));
    }
    while i < p.len()
        invariant
            i <= p@.len(),
            all_bytes(p@.take(i as int)),
            out@ == data_hex(p@.take(i as int)),
            p@ == (if spec_strip(line@).len() >= 1 {
                spec_strip(line@).drop_first()
            } else {
                Seq::<char>::empty()
            }),
        decreases p@.len() - i,
    {
        let c = p[i];
        let v = c as u32;
        if v > 255 {
            proof {
                assert(p@[i as int] as u32 > 255);
                assert(!all_bytes(p@));
                assert(p@ == (if spec_strip(line@).len() >= 1 {
                    spec_strip(line@).drop_first()
                } else {
                    Seq::<char>::empty()
                }));
                assert(spec_data_as_bytes(line@) == err_marker());
            }
            return string_from_chars(&err_marker_chars());
        }
        proof {
            assert(p@.take(i + 1int).drop_last() =~= p@.take(i as int));
            assert(p@.take(i + 1int).last() == p@[i as int]);
        }
        out.push(hex_char_of(v / 16));
        out.push(hex_char_of(v % 16));
        proof {
            assert(out@ =~= data_hex(p@.take(i as int)) + hex2(v as int));
        }
        i = i + 1;
    }
    proof {
        assert(p@.take(p@.len() as int) =~= p@);
    }
    string_from_chars(&out)
}

} // verus!
