//! The label table: built from pass-1 output, it maps label names to the
//! program-counter address of their defining line. Duplicate definitions are
//! reported, one error per extra binding; lookups use the first binding.

use vstd::prelude::*;
use crate::files::LineType;
use crate::helper::spec_strip;
use crate::messages::{MessageType, MsgList};
use crate::opcodes::Pass1;
use crate::textscan::{chars_of, split_words, string_from_chars, sub_chars, words};

verus! {

/// A label binding: the name (without its trailing `:`) and the address of
/// the line that defines it.
#[derive(Debug, Clone)]
pub struct Label {
    pub program_counter: u32,
    pub name: String,
}

/// The name a label line defines: its single word without the trailing `:`.
pub open spec fn label_name_of(s: Seq<char>) -> Seq<char> {
    words(spec_strip(s))[0].drop_last()
}

/// Shape of a line classified as a label: one word, at least two characters,
/// ending in `:`.
pub open spec fn wf_label_line(s: Seq<char>) -> bool {
    let ws = words(spec_strip(s));
    ws.len() == 1 && ws[0].len() >= 2 && ws[0].last() == ':'
}

/// The (name, address) pairs of every label line, in order.
pub open spec fn labels_of(p: Seq<Pass1>) -> Seq<(Seq<char>, u32)>
    decreases p.len(),
{
    if p.len() == 0 {
        Seq::empty()
    } else {
        labels_of(p.drop_last()) + if p.last().line_type == LineType::Label {
            seq![(label_name_of(p.last().input@), p.last().program_counter)]
        } else {
            Seq::empty()
        }
    }
}

/// The built table equals the model, pair by pair.
pub open spec fn labels_match(v: Seq<Label>, m: Seq<(Seq<char>, u32)>) -> bool {
    &&& v.len() == m.len()
    &&& forall|i: int|
        0 <= i < v.len() ==> (#[trigger] v[i]).name@ == m[i].0 && v[i].program_counter == m[i].1
}

/// Scan pass-1 lines and record one binding per label line, each bound to
/// that line's program counter.
pub fn get_labels(pass1: &Vec<Pass1>) -> (r: Vec<Label>)
    requires
        forall|i: int|
            0 <= i < pass1@.len() && (#[trigger] pass1@[i]).line_type == LineType::Label
                ==> wf_label_line(pass1@[i].input@),
    ensures
        labels_match(r@, labels_of(pass1@)),
{
    let mut r: Vec<Label> = Vec::new();
    let mut i: usize = 0;
    proof {
        assert(labels_of(pass1@.take(0)) =~= Seq::<(Seq<char>, u32)>::empty());
    }
    while i < pass1.len()
        invariant
            i <= pass1@.len(),
            forall|k: int|
                0 <= k < pass1@.len() && (#[trigger] pass1@[k]).line_type == LineType::Label
                    ==> wf_label_line(pass1@[k].input@),
            labels_match(r@, labels_of(pass1@.take(i as int))),
        decreases pass1@.len() - i,
    {
        proof {
            assert(pass1@.take(i + 1int).drop_last() =~= pass1@.take(i as int));
            assert(pass1@.take(i + 1int).last() == pass1@[i as int]);
        }
        if matches!(pass1[i].line_type, LineType::Label) {
            let cs = chars_of(pass1[i].input.as_str());
            let t = crate::helper::strip_chars(&cs);
            let ws = split_words(&t);
            let w0 = chars_of(ws[0].as_str());
            proof {
                assert(w0@.subrange(0, w0@.len() - 1) =~= w0@.drop_last());
            }
            let nm = string_from_chars(&sub_chars(&w0, 0, w0.len() - 1));
            r.push(Label { program_counter: pass1[i].program_counter, name: nm });
        }
        i = i + 1;
    }
    proof {
        assert(pass1@.take(pass1@.len() as int) =~= pass1@);
    }
    r
}

/// Every recorded label carries the program counter of a pass-1 line of
/// type `Label` whose name it bears: label addresses come from pass 1.
pub proof fn lemma_label_addresses(p: Seq<Pass1>, k: int)
    requires
        0 <= k < labels_of(p).len(),
    ensures
        exists|i: int|
            0 <= i < p.len() && (#[trigger] p[i]).line_type == LineType::Label && labels_of(p)[k].0
                == label_name_of(p[i].input@) && labels_of(p)[k].1 == p[i].program_counter,
    decreases p.len(),
{
    if p.len() > 0 {
        if p.last().line_type == LineType::Label && k == labels_of(p).len() - 1 {
            assert(p[p.len() - 1].line_type == LineType::Label);
            assert(labels_of(p)[k].0 == label_name_of(p[p.len() - 1].input@));
            assert(labels_of(p)[k].1 == p[p.len() - 1].program_counter);
        } else {
            lemma_label_addresses(p.drop_last(), k);
            let wit = choose|i: int|
                0 <= i < p.drop_last().len() && (#[trigger] p.drop_last()[i]).line_type
                    == LineType::Label && labels_of(p.drop_last())[k].0 == label_name_of(
                    p.drop_last()[i].input@,
                ) && labels_of(p.drop_last())[k].1 == p.drop_last()[i].program_counter;
            assert(p[wit].line_type == LineType::Label);
        }
    }
}

/// A later binding repeats an earlier name.
pub open spec fn is_dup_at(ls: Seq<Label>, i: int) -> bool {
    exists|j: int| 0 <= j < i && (#[trigger] ls[j]).name@ == ls[i].name@
}

/// The duplicate count is never negative.
pub proof fn lemma_dup_count_nonneg(ls: Seq<Label>)
    ensures
        dup_count(ls) >= 0,
    decreases ls.len(),
{
    if ls.len() > 0 {
        lemma_dup_count_nonneg(ls.drop_last());
    }
}

/// How many bindings repeat an earlier name.
pub open spec fn dup_count(ls: Seq<Label>) -> int
    decreases ls.len(),
{
    if ls.len() == 0 {
        0
    } else {
        dup_count(ls.drop_last()) + if is_dup_at(ls, ls.len() - 1) {
            1int
        } else {
            0int
        }
    }
}

/// Report every duplicate label binding: exactly one error-severity message
/// per binding that repeats an earlier name. Table construction goes on
/// regardless; lookups keep using the first binding.
pub fn find_duplicate_label(labels: &Vec<Label>, msg_list: &mut MsgList)
    ensures
        final(msg_list).list@.len() == old(msg_list).list@.len() + dup_count(labels@),
        final(msg_list).list@.take(old(msg_list).list@.len() as int) == old(msg_list).list@,
        forall|m: int|
            old(msg_list).list@.len() <= m < final(msg_list).list@.len() ==> (#[trigger] final(
                msg_list).list@[m]).msg_type == MessageType::Error && final(
                msg_list).list@[m].line_number is None && (exists|w: int|
                0 <= w < labels@.len() && #[trigger] is_dup_at(labels@, w) && final(
                msg_list).list@[m].name@ == "Duplicate label "@ + labels@[w].name@),
{
    let ghost old_msgs = msg_list.list@;
    let mut i: usize = 0;
    proof {
        assert(dup_count(labels@.take(0)) == 0);
        assert(msg_list.list@.take(old_msgs.len() as int) =~= old_msgs);
    }
    while i < labels.len()
        invariant
            i <= labels@.len(),
            msg_list.list@.len() == old_msgs.len() + dup_count(labels@.take(i as int)),
            msg_list.list@.take(old_msgs.len() as int) == old_msgs,
            forall|m: int|
                old_msgs.len() <= m < msg_list.list@.len() ==> (#[trigger] msg_list.list@[m])
                    .msg_type == MessageType::Error && msg_list.list@[m].line_number is None && (
                exists|w: int|
                    0 <= w < labels@.len() && #[trigger] is_dup_at(labels@, w)
                        && msg_list.list@[m].name@ == "Duplicate label "@ + labels@[w].name@),
        decreases labels@.len() - i,
    {
        proof {
            assert(labels@.take(i + 1int).drop_last() =~= labels@.take(i as int));
            assert(labels@.take(i + 1int).last() == labels@[i as int]);
        }
        let mut found = false;
        let mut j: usize = 0;
        while j < i
            invariant
                j <= i < labels@.len(),
                found <==> exists|j2: int|
                    0 <= j2 < j && (#[trigger] labels@[j2]).name@ == labels@[i as int].name@,
            decreases i - j,
        {
            if labels[j].name == labels[i].name {
                found = true;
            }
            j = j + 1;
        }
        proof {
            lemma_dup_count_nonneg(labels@.take(i as int));
            let ghost tk = labels@.take(i + 1int);
            if found {
                let j2 = choose|j2: int|
                    0 <= j2 < i && (#[trigger] labels@[j2]).name@ == labels@[i as int].name@;
                assert(tk[j2].name@ == tk[i as int].name@);
                assert(is_dup_at(tk, i as int));
            } else {
                assert forall|j2: int| 0 <= j2 < i implies (#[trigger] tk[j2]).name@
                    != tk[i as int].name@ by {
                    assert(tk[j2] == labels@[j2]);
                }
                assert(!is_dup_at(tk, i as int));
            }
        }
        if found {
            let mut text: String = "Duplicate label ".to_owned();
            text.append(labels[i].name.as_str());
            let ghost before = msg_list.list@;
            msg_list.push(text, None, MessageType::Error);
            proof {
                assert(msg_list.list@.take(old_msgs.len() as int) =~= before.take(
                    old_msgs.len() as int,
                ));
                assert(0 <= i < labels@.len() && is_dup_at(labels@, i as int) && msg_list
                    .list@.last().name@ == "Duplicate label "@ + labels@[i as int].name@);
                assert forall|m: int|
                    old_msgs.len() <= m < msg_list.list@.len() - 1 implies msg_list.list@[m]
                    == before[m] by {
                    assert(msg_list.list@.drop_last() =~= before);
                }
            }
        }
        i = i + 1;
    }
    proof {
        assert(labels@.take(labels@.len() as int) =~= labels@);
    }
}

} // verus!
