//! Opcode and macro table parsing, and the small formatting helpers that the
//! output writers use.
//!
//! The opcode table comes from a hardware-description file: a line defines an
//! opcode exactly when it contains the bit-pattern marker `16'h` followed by a
//! four-character pattern and a trailing `//` comment whose first word is the
//! mnemonic. A line defines a macro exactly when its first character is the
//! `$` sigil. All other lines are ignored.

use vstd::prelude::*;
use crate::textscan::{
    chars_of, comment_marker, comment_marker_chars, find_char_from, find_nonspace_from,
    find_space_from, find_sub, first_char_from, first_nonspace_from, first_space_from, find_first,
    lemma_first_char_from_props, lemma_first_match_from_props, lemma_first_nonspace_from_props,
    lemma_first_space_from_props, lemma_words_nonempty, push_all, push_spaces, seq_views, spaces,
    split_words, string_from_chars, sub_chars, words,
};

verus! {

/// One instruction definition from the opcode table.
#[derive(Debug, Clone)]
pub struct Opcode {
    pub name: String,
    pub opcode: String,
    pub registers: u32,
    pub variables: u32,
    pub comment: String,
}

/// An address together with its encoded machine code, as the output writers
/// consume it.
#[derive(Debug, Clone)]
pub struct CodeLine {
    pub program_counter: u32,
    pub code: String,
}

/// One macro definition: a sigil-prefixed name and its expansion templates.
#[derive(Debug, Clone)]
pub struct Macro {
    pub name: String,
    pub variables: u32,
    pub items: Vec<String>,
}

/// Classification of one source line.
#[derive(Debug, Clone, Copy, PartialEq, Eq, Structural)]
pub enum LineType {
    Comment,
    Blank,
    Label,
    Opcode,
    Data,
    Error,
}

/// The one-line description of an opcode definition: name, pattern, the
/// register and variable counts in decimal, and the comment.
pub open spec fn spec_description(op: Opcode) -> Seq<char> {
    op.name@ + seq![' '] + op.opcode@ + ", regs "@ + crate::textscan::dec_str(
        op.registers as int,
    ) + ", vars "@ + crate::textscan::dec_str(op.variables as int) + " - "@ + op.comment@
}

impl Opcode {
    /// Render the definition for a human reader.
    pub fn description(&self) -> (r: String)
        ensures
            r@ == spec_description(*self),
    {
        let mut out = chars_of(self.name.as_str());
        out.push(' ');
        let oc = chars_of(self.opcode.as_str());
        push_all(&mut out, &oc);
        let regs_lit = chars_of(", regs ");
        push_all(&mut out, &regs_lit);
        let rd = crate::textscan::u32_to_dec(self.registers);
        push_all(&mut out, &rd);
        let vars_lit = chars_of(", vars ");
        push_all(&mut out, &vars_lit);
        let vd = crate::textscan::u32_to_dec(self.variables);
        push_all(&mut out, &vd);
        let dash_lit = chars_of(" - ");
        push_all(&mut out, &dash_lit);
        let cc = chars_of(self.comment.as_str());
        push_all(&mut out, &cc);
        proof {
            assert(out@ =~= spec_description(*self));
        }
        string_from_chars(&out)
    }
}

/// The bit-pattern marker that introduces an opcode definition.
pub open spec fn pattern_marker() -> Seq<char> {
    seq!['1', '6', '\'', 'h']
}

/// The token whose presence marks a variable-argument opcode.
pub open spec fn variable_marker() -> Seq<char> {
    seq!['w', '_', 'v', 'a', 'r', '1']
}

/// The item separator inside a macro definition.
pub open spec fn slash_word() -> Seq<char> {
    seq!['/']
}

/// Mathematical model of a parsed opcode definition.
pub ghost struct OpcodeModel {
    pub name: Seq<char>,
    pub opcode: Seq<char>,
    pub registers: u32,
    pub variables: u32,
    pub comment: Seq<char>,
}

/// Mathematical model of a parsed macro definition.
pub ghost struct MacroModel {
    pub name: Seq<char>,
    pub variables: u32,
    pub items: Seq<Seq<char>>,
}

/// Register slots demanded by a four-character pattern: two trailing
/// wildcards give two slots, exactly one trailing wildcard gives one.
pub open spec fn register_count_of(pat: Seq<char>) -> u32 {
    if pat[2] == '?' && pat[3] == '?' {
        2
    } else if pat[3] == '?' {
        1
    } else {
        0
    }
}

/// What `opcode_from_string` finds in a line, if anything: the pattern after
/// the `16'h` marker, the mnemonic as the first word of the `//` comment,
/// the description after it.
pub open spec fn opcode_model(s: Seq<char>) -> Option<OpcodeModel> {
    match find_first(s, pattern_marker()) {
        None => None,
        Some(mk) => {
            let po = mk + 4;
            if s.len() < po + 4 {
                None
            } else {
                let pat = s.subrange(po, po + 4);
                match find_first(s, comment_marker()) {
                    None => None,
                    Some(cm) => {
                        match first_nonspace_from(s, cm + 2) {
                            None => None,
                            Some(ns) => {
                                let en = match first_space_from(s, ns) {
                                    None => s.len() as int,
                                    Some(e) => e,
                                };
                                Some(
                                    OpcodeModel {
                                        name: s.subrange(ns, en),
                                        opcode: pat,
                                        registers: register_count_of(pat),
                                        variables: if find_first(s, variable_marker()) is Some {
                                            1
                                        } else {
                                            0
                                        },
                                        comment: if s.len() > en + 1 {
                                            s.subrange(en + 1, s.len() as int)
                                        } else {
                                            Seq::empty()
                                        },
                                    },
                                )
                            },
                        }
                    },
                }
            }
        },
    }
}

/// The parsed opcode equals its model, field by field.
pub open spec fn opcode_matches_model(op: Opcode, m: OpcodeModel) -> bool {
    &&& op.name@ == m.name
    &&& op.opcode@ == m.opcode
    &&& op.registers == m.registers
    &&& op.variables == m.variables
    &&& op.comment@ == m.comment
}

/// The parsed macro equals its model, field by field.
pub open spec fn macro_matches_model(mc: Macro, m: MacroModel) -> bool {
    &&& mc.name@ == m.name
    &&& mc.variables == m.variables
    &&& seq_views(mc.items@) == m.items
}

/// Macro items accumulated word by word: a `/` word closes the current item,
/// any other word is appended to it with a single joining space.
pub open spec fn items_acc(ws: Seq<Seq<char>>, cur: Seq<char>, acc: Seq<Seq<char>>) -> Seq<
    Seq<char>,
>
    decreases ws.len(),
{
    if ws.len() == 0 {
        if cur.len() > 0 {
            acc.push(cur)
        } else {
            acc
        }
    } else if ws[0] == slash_word() {
        items_acc(ws.drop_first(), Seq::empty(), acc.push(cur))
    } else if cur.len() > 0 {
        items_acc(ws.drop_first(), cur + seq![' '] + ws[0], acc)
    } else {
        items_acc(ws.drop_first(), ws[0], acc)
    }
}

/// The items of a macro definition, from its word list (first word is the
/// macro name).
pub open spec fn macro_items(ws: Seq<Seq<char>>) -> Seq<Seq<char>> {
    items_acc(ws.drop_first(), Seq::empty(), Seq::empty())
}

/// What `macro_from_string` finds in a line, if anything.
pub open spec fn macro_model(s: Seq<char>) -> Option<MacroModel> {
    if s.len() == 0 || s[0] != '$' {
        None
    } else {
        Some(
            MacroModel { name: words(s)[0], variables: 0, items: macro_items(words(s)) },
        )
    }
}

/// Parse one line of the opcode definition file as an opcode definition.
///
/// Returns `Some` exactly when the line holds the `16'h` marker with four
/// pattern characters after it, and a `//` comment holding at least one
/// word. The mnemonic is the comment's first word, ended by whitespace or
/// the end of the line; the description after it is optional. The result's
/// fields are pinned by [`opcode_model`].
pub fn opcode_from_string(input_line: &str) -> (r: Option<Opcode>)
    ensures
        match r {
            Some(op) => opcode_model(input_line@) is Some && opcode_matches_model(
                op,
                opcode_model(input_line@)->Some_0,
            ),
            None => opcode_model(input_line@) is None,
        },
{
    let cs = chars_of(input_line);
    let n: usize = cs.len();

    let mut marker: Vec<char> = Vec::new();
    marker.push('1');
    marker.push('6');
    marker.push('\'');
    marker.push('h');
    proof {
        assert(marker@ =~= pattern_marker());
    }
    let mk = match find_sub(&cs, &marker) {
        None => {
            return None;
        },
        Some(a) => a,
    };
    proof {
        lemma_first_match_from_props(cs@, pattern_marker(), 0);
    }
    let po = mk + 4;
    if n - po < 4 {
        return None;
    }

    let registers: u32 = if cs[po + 2] == '?' && cs[po + 3] == '?' {
        2
    } else if cs[po + 3] == '?' {
        1
    } else {
        0
    };

    let mut var_marker: Vec<char> = Vec::new();
    var_marker.push('w');
    var_marker.push('_');
    var_marker.push('v');
    var_marker.push('a');
    var_marker.push('r');
    var_marker.push('1');
    proof {
        assert(var_marker@ =~= variable_marker());
    }
    let variables: u32 = match find_sub(&cs, &var_marker) {
        None => 0,
        Some(_) => 1,
    };

    let cmark = comment_marker_chars();
    let cm = match find_sub(&cs, &cmark) {
        None => {
            return None;
        },
        Some(a) => a,
    };
    proof {
        lemma_first_match_from_props(cs@, comment_marker(), 0);
    }
    let ns = match find_nonspace_from(&cs, cm + 2) {
        None => {
            return None;
        },
        Some(a) => a,
    };
    proof {
        lemma_first_nonspace_from_props(cs@, cm + 2int);
    }
    let en = match find_space_from(&cs, ns) {
        None => n,
        Some(a) => a,
    };
    proof {
        lemma_first_space_from_props(cs@, ns as int);
    }

    let name = string_from_chars(&sub_chars(&cs, ns, en));
    let opcode_str = string_from_chars(&sub_chars(&cs, po, po + 4));
    let comment = if n - en > 1 {
        string_from_chars(&sub_chars(&cs, en + 1, n))
    } else {
        String::new()
    };
    proof {
        assert(comment@ =~= if cs@.len() > en + 1 {
            cs@.subrange(en + 1int, cs@.len() as int)
        } else {
            Seq::<char>::empty()
        });
    }
    Some(Opcode { name, opcode: opcode_str, registers, variables, comment })
}

/// Register-slot law: a parsed opcode definition has two register slots
/// exactly when its four-character pattern ends in two wildcards, one slot
/// exactly when it ends in exactly one wildcard, and none otherwise.
pub proof fn lemma_pattern_register_count(s: Seq<char>)
    requires
        opcode_model(s) is Some,
    ensures
        ({
            let m = opcode_model(s)->Some_0;
            &&& m.opcode.len() == 4
            &&& (m.registers == 2 <==> (m.opcode[2] == '?' && m.opcode[3] == '?'))
            &&& (m.registers == 1 <==> (m.opcode[3] == '?' && m.opcode[2] != '?'))
            &&& (m.registers == 0 <==> m.opcode[3] != '?')
        }),
{
    lemma_first_match_from_props(s, pattern_marker(), 0);
    let mk = find_first(s, pattern_marker())->Some_0;
    assert(mk >= 0);
    let po = mk + 4;
    assert(s.len() >= po + 4);
    let pat = s.subrange(po, po + 4);
    assert(pat.len() == 4);
    let m = opcode_model(s)->Some_0;
    assert(m.opcode == pat);
    assert(m.registers == register_count_of(pat));
}

/// Every parsed definition is well-formed: a four-character pattern, at
/// most two register slots, at most one variable argument. A table built
/// from parsed definitions therefore meets the shape the encoder's length
/// bound relies on.
pub proof fn lemma_parsed_opcode_bounds(s: Seq<char>)
    requires
        opcode_model(s) is Some,
    ensures
        ({
            let m = opcode_model(s)->Some_0;
            &&& m.opcode.len() == 4
            &&& m.registers <= 2
            &&& m.variables <= 1
        }),
{
    lemma_pattern_register_count(s);
    let m = opcode_model(s)->Some_0;
    assert(m.variables == 1 || m.variables == 0);
}

/// Parse one line of the opcode definition file as a macro definition.
///
/// Returns `Some` exactly when the line's first character is the `$` sigil;
/// the macro's name is then the first word and its items are the groups of
/// words between `/` separators, pinned by [`macro_model`].
pub fn macro_from_string(input_line: &str) -> (r: Option<Macro>)
    ensures
        match r {
            Some(mc) => macro_model(input_line@) is Some && macro_matches_model(
                mc,
                macro_model(input_line@)->Some_0,
            ),
            None => macro_model(input_line@) is None,
        },
{
    let cs = chars_of(input_line);
    if cs.len() == 0 {
        return None;
    }
    if cs[0] != '$' {
        return None;
    }
    proof {
        lemma_words_nonempty(cs@);
    }
    let ws = split_words(&cs);
    let name = ws[0].clone();
    proof {
        assert(name@ == words(cs@)[0]);
    }

    let mut slash_chars: Vec<char> = Vec::new();
    slash_chars.push('/');
    proof {
        assert(slash_chars@ =~= slash_word());
    }
    let slash = string_from_chars(&slash_chars);

    let mut items: Vec<String> = Vec::new();
    let mut cur: Vec<char> = Vec::new();
    let mut j: usize = 1;
    proof {
        assert(seq_views(ws@).skip(1) =~= words(cs@).drop_first());
        assert(cur@ =~= Seq::<char>::empty());
        assert(seq_views(items@) =~= Seq::<Seq<char>>::empty());
    }
    while j < ws.len()
        invariant
            1 <= j <= ws@.len(),
            seq_views(ws@) == words(cs@),
            slash@ == slash_word(),
            items_acc(seq_views(ws@).skip(j as int), cur@, seq_views(items@)) == macro_items(
                words(cs@),
            ),
        decreases ws@.len() - j,
    {
        let ghost pre = seq_views(ws@).skip(j as int);
        proof {
            assert(pre[0] == ws@[j as int]@);
            assert(pre.drop_first() =~= seq_views(ws@).skip(j + 1int));
        }
        if ws[j] == slash {
            let it = string_from_chars(&cur);
            let ghost old_items = items@;
            items.push(it);
            proof {
                assert(seq_views(items@) =~= seq_views(old_items).push(cur@));
            }
            cur = Vec::new();
            proof {
                assert(cur@ =~= Seq::<char>::empty());
            }
        } else {
            let ghost old_cur = cur@;
            if cur.len() > 0 {
                cur.push(' ');
                let wc = chars_of(ws[j].as_str());
                push_all(&mut cur, &wc);
                proof {
                    assert(cur@ =~= old_cur + seq![' '] + ws@[j as int]@);
                }
            } else {
                let wc = chars_of(ws[j].as_str());
                push_all(&mut cur, &wc);
                proof {
                    assert(cur@ =~= ws@[j as int]@);
                }
            }
        }
        j = j + 1;
    }
    proof {
        assert(seq_views(ws@).skip(j as int) =~= Seq::<Seq<char>>::empty());
    }
    if cur.len() > 0 {
        let it = string_from_chars(&cur);
        let ghost old_items = items@;
        items.push(it);
        proof {
            assert(seq_views(items@) =~= seq_views(old_items).push(cur@));
        }
    }
    Some(Macro { name, variables: 0, items })
}

/// The file name up to its first dot, or the whole name if it has none.
pub open spec fn spec_stem(s: Seq<char>) -> Seq<char> {
    match first_char_from(s, '.', 0) {
        None => s,
        Some(i) => s.take(i),
    }
}

/// Strip the extension from a file name.
pub fn filename_stem(full_name: String) -> (r: String)
    ensures
        r@ == spec_stem(full_name@),
{
    let cs = chars_of(full_name.as_str());
    match find_char_from(&cs, '.', 0) {
        None => full_name,
        Some(i) => {
            proof {
                lemma_first_char_from_props(cs@, '.', 0);
                assert(cs@.subrange(0, i as int) =~= cs@.take(i as int));
            }
            string_from_chars(&sub_chars(&cs, 0, i))
        },
    }
}

/// Encoded machine words grouped four digits at a time and right-padded to a
/// fixed column width; anything that is not one, two or three words long
/// passes through unchanged.
pub open spec fn spec_split_opcodes(s: Seq<char>) -> Seq<char> {
    if s.len() == 4 {
        s + spaces(10)
    } else if s.len() == 8 {
        s.take(4) + seq![' '] + s.skip(4) + spaces(5)
    } else if s.len() == 12 {
        s.take(4) + seq![' '] + s.subrange(4, 8) + seq![' '] + s.skip(8)
    } else {
        s
    }
}

/// Group an encoded opcode into space-separated four-digit clusters, padded
/// to the listing's code column width.
pub fn split_opcodes(input: &String) -> (r: String)
    ensures
        r@ == spec_split_opcodes(input@),
{
    let cs = chars_of(input.as_str());
    if cs.len() == 4 {
        let mut out = sub_chars(&cs, 0, 4);
        push_spaces(&mut out, 10);
        proof {
            assert(cs@.subrange(0, 4) =~= cs@);
            assert(out@ =~= spec_split_opcodes(input@));
        }
        string_from_chars(&out)
    } else if cs.len() == 8 {
        let mut out = sub_chars(&cs, 0, 4);
        out.push(' ');
        let tail = sub_chars(&cs, 4, 8);
        push_all(&mut out, &tail);
        push_spaces(&mut out, 5);
        proof {
            assert(cs@.subrange(0, 4) =~= cs@.take(4));
            assert(cs@.subrange(4, 8) =~= cs@.skip(4));
            assert(out@ =~= spec_split_opcodes(input@));
        }
        string_from_chars(&out)
    } else if cs.len() == 12 {
        let mut out = sub_chars(&cs, 0, 4);
        out.push(' ');
        let mid = sub_chars(&cs, 4, 8);
        push_all(&mut out, &mid);
        out.push(' ');
        let tail = sub_chars(&cs, 8, 12);
        push_all(&mut out, &tail);
        proof {
            assert(cs@.subrange(0, 4) =~= cs@.take(4));
            assert(cs@.subrange(8, 12) =~= cs@.skip(8));
            assert(out@ =~= spec_split_opcodes(input@));
        }
        string_from_chars(&out)
    } else {
        string_from_chars(&cs)
    }
}

/// The models of every opcode definition found in `ls`, in order.
pub open spec fn opcode_models_of(ls: Seq<Seq<char>>) -> Seq<OpcodeModel>
    decreases ls.len(),
{
    if ls.len() == 0 {
        Seq::empty()
    } else {
        let rest = opcode_models_of(ls.drop_last());
        match opcode_model(ls.last()) {
            Some(m) => rest.push(m),
            None => rest,
        }
    }
}

/// The models of every macro definition found in `ls`, in order.
pub open spec fn macro_models_of(ls: Seq<Seq<char>>) -> Seq<MacroModel>
    decreases ls.len(),
{
    if ls.len() == 0 {
        Seq::empty()
    } else {
        let rest = macro_models_of(ls.drop_last());
        match macro_model(ls.last()) {
            Some(m) => rest.push(m),
            None => rest,
        }
    }
}

/// Every parsed opcode matches its model, position by position.
pub open spec fn opcodes_match(v: Seq<Opcode>, ms: Seq<OpcodeModel>) -> bool {
    &&& v.len() == ms.len()
    &&& forall|i: int| 0 <= i < v.len() ==> opcode_matches_model(#[trigger] v[i], ms[i])
}

/// Every parsed macro matches its model, position by position.
pub open spec fn macros_match(v: Seq<Macro>, ms: Seq<MacroModel>) -> bool {
    &&& v.len() == ms.len()
    &&& forall|i: int| 0 <= i < v.len() ==> macro_matches_model(#[trigger] v[i], ms[i])
}

/// Scan the lines of the opcode definition file: collect every line that
/// parses as an opcode definition and every line that parses as a macro
/// definition; all other lines are ignored.
pub fn parse_vh_lines(lines: &Vec<String>) -> (r: (Vec<Opcode>, Vec<Macro>))
    ensures
        opcodes_match(r.0@, opcode_models_of(seq_views(lines@))),
        macros_match(r.1@, macro_models_of(seq_views(lines@))),
{
    let mut opcodes: Vec<Opcode> = Vec::new();
    let mut macros: Vec<Macro> = Vec::new();
    let mut i: usize = 0;
    proof {
        assert(seq_views(lines@).take(0) =~= Seq::<Seq<char>>::empty());
    }
    while i < lines.len()
        invariant
            i <= lines@.len(),
            opcodes_match(opcodes@, opcode_models_of(seq_views(lines@).take(i as int))),
            macros_match(macros@, macro_models_of(seq_views(lines@).take(i as int))),
        decreases lines@.len() - i,
    {
        proof {
            assert(seq_views(lines@).take(i + 1int).drop_last() =~= seq_views(lines@).take(
                i as int,
            ));
            assert(seq_views(lines@).take(i + 1int).last() == lines@[i as int]@);
        }
        match opcode_from_string(lines[i].as_str()) {
            None => (),
            Some(op) => {
                opcodes.push(op);
            },
        }
        match macro_from_string(lines[i].as_str()) {
            None => (),
            Some(mc) => {
                macros.push(mc);
            },
        }
        i = i + 1;
    }
    proof {
        assert(seq_views(lines@).take(lines@.len() as int) =~= seq_views(lines@));
    }
    (opcodes, macros)
}

} // verus!
