//! Macro flattening and pass-0 source expansion.
//!
//! Flattening substitutes items that name another macro with that macro's
//! own item list until no item names a macro or a round limit is hit; a
//! table that cannot be flattened is reported and left as it stands.
//! Source expansion replaces each line whose first word invokes a macro
//! (the word with a `$` prepended names it) by one line per macro item,
//! substituting the invocation's arguments for `w_var` placeholders; every
//! produced line keeps the originating line's number.

use vstd::prelude::*;
use crate::files::Macro;
use crate::helper::{lemma_name_lookup_skip, name_lookup};
use crate::messages::{MessageType, MsgList};
use crate::opcodes::Pass0;
use crate::textscan::{
    chars_of, digit_val, is_digit, push_all, seq_views, split_words, string_from_chars, words,
};

verus! {

/// The name of every macro in the table, in order (names keep their sigil).
pub open spec fn macro_names(ms: Seq<Macro>) -> Seq<Seq<char>> {
    ms.map_values(|m: Macro| m.name@)
}

/// Position of the first macro with the given name.
pub open spec fn macro_lookup(ms: Seq<Macro>, name: Seq<char>) -> Option<int> {
    name_lookup(macro_names(ms), name)
}

/// Find the first macro with the given name.
pub fn find_macro(list: &Vec<Macro>, name: &String) -> (r: Option<usize>)
    ensures
        match r {
            Some(i) => macro_lookup(list@, name@) == Some(i as int) && i < list@.len(),
            None => macro_lookup(list@, name@) is None,
        },
{
    let mut i: usize = 0;
    while i < list.len()
        invariant
            i <= list@.len(),
            forall|j: int| 0 <= j < i ==> macro_names(list@)[j] != name@,
        decreases list@.len() - i,
    {
        if list[i].name == *name {
            proof {
                assert(macro_names(list@)[i as int] == name@);
                lemma_name_lookup_skip(macro_names(list@), name@, i as int);
            }
            return Some(i);
        }
        proof {
            assert(macro_names(list@)[i as int] == list@[i as int].name@);
        }
        i = i + 1;
    }
    proof {
        lemma_name_lookup_skip(macro_names(list@), name@, i as int);
    }
    None
}

/// An item invokes a macro when its first word is a macro's name.
pub open spec fn item_invokes(ms: Seq<Macro>, it: Seq<char>) -> bool {
    words(it).len() >= 1 && macro_lookup(ms, words(it)[0]) is Some
}

/// No item of `mc` invokes a macro of `ms`.
pub open spec fn macro_is_flat(ms: Seq<Macro>, mc: Macro) -> bool {
    forall|j: int| 0 <= j < mc.items@.len() ==> !item_invokes(ms, (#[trigger] mc.items@[j])@)
}

/// No item of any macro of the table invokes a macro of the table.
pub open spec fn spec_is_flat(ms: Seq<Macro>) -> bool {
    forall|i: int| 0 <= i < ms.len() ==> macro_is_flat(ms, #[trigger] ms[i])
}

/// Two macros agree on name, variable count and item texts.
pub open spec fn same_macro(a: Macro, b: Macro) -> bool {
    &&& a.name@ == b.name@
    &&& a.variables == b.variables
    &&& seq_views(a.items@) == seq_views(b.items@)
}

/// Two tables agree macro by macro.
pub open spec fn same_macros(a: Seq<Macro>, b: Seq<Macro>) -> bool {
    &&& a.len() == b.len()
    &&& forall|i: int| 0 <= i < a.len() ==> same_macro(#[trigger] a[i], b[i])
}

/// How many macros from position `k` on still hold an invoking item.
pub open spec fn unflat_from(ms: Seq<Macro>, k: int) -> int
    decreases ms.len() - k,
{
    if k < 0 || k >= ms.len() {
        0
    } else {
        (if macro_is_flat(ms, ms[k]) {
            0int
        } else {
            1int
        }) + unflat_from(ms, k + 1)
    }
}

/// How many macros of the table still hold an invoking item.
pub open spec fn unflat_count(ms: Seq<Macro>) -> int {
    unflat_from(ms, 0)
}

proof fn lemma_unflat_nonneg(ms: Seq<Macro>, k: int)
    ensures
        unflat_from(ms, k) >= 0,
    decreases ms.len() - k,
{
    if !(k < 0 || k >= ms.len()) {
        lemma_unflat_nonneg(ms, k + 1);
    }
}

proof fn lemma_unflat_range(ms: Seq<Macro>, a: int, b: int)
    requires
        0 <= a <= b,
    ensures
        unflat_from(ms, a) >= unflat_from(ms, b) >= 0,
    decreases b - a,
{
    lemma_unflat_nonneg(ms, b);
    if a < b {
        lemma_unflat_range(ms, a + 1, b);
        lemma_unflat_nonneg(ms, a + 1);
    }
}

/// A table whose unflat count is zero is flat.
pub proof fn lemma_unflat_zero_flat(ms: Seq<Macro>)
    requires
        unflat_count(ms) == 0,
    ensures
        spec_is_flat(ms),
{
    assert forall|i: int| 0 <= i < ms.len() implies macro_is_flat(ms, #[trigger] ms[i]) by {
        lemma_unflat_range(ms, 0, i);
        lemma_unflat_range(ms, i, i + 1);
        lemma_unflat_range(ms, i + 1, ms.len() as int);
        assert(unflat_from(ms, i) == 0);
        assert(unflat_from(ms, i + 1) == 0);
    }
}

/// One substitution step on one item: an item that invokes a macro becomes
/// that macro's item list, any other item stands alone.
pub open spec fn item_step(ms: Seq<Macro>, it: Seq<char>) -> Seq<Seq<char>> {
    if item_invokes(ms, it) {
        seq_views(ms[macro_lookup(ms, words(it)[0])->Some_0].items@)
    } else {
        seq![it]
    }
}

/// One substitution step on an item list: each item replaced by its step,
/// in order.
pub open spec fn items_step(ms: Seq<Macro>, items: Seq<Seq<char>>) -> Seq<Seq<char>>
    decreases items.len(),
{
    if items.len() == 0 {
        Seq::empty()
    } else {
        items_step(ms, items.drop_last()) + item_step(ms, items.last())
    }
}

/// A step leaves an item list without invoking items unchanged.
proof fn lemma_items_step_flat(ms: Seq<Macro>, items: Seq<Seq<char>>)
    requires
        forall|j: int| 0 <= j < items.len() ==> !item_invokes(ms, #[trigger] items[j]),
    ensures
        items_step(ms, items) == items,
    decreases items.len(),
{
    if items.len() > 0 {
        lemma_items_step_flat(ms, items.drop_last());
        assert(items_step(ms, items) =~= items);
    }
}

/// Some item of the first `n` macros invokes a macro of the table.
pub open spec fn has_invoking_upto(ms: Seq<Macro>, n: int) -> bool {
    exists|i: int, j: int|
        0 <= i < n && i < ms.len() && 0 <= j < ms[i].items@.len() && item_invokes(
            ms,
            (#[trigger] ms[i].items@[j])@,
        )
}

/// Some item somewhere in the table invokes a macro of the table.
pub open spec fn table_has_invoking(ms: Seq<Macro>) -> bool {
    has_invoking_upto(ms, ms.len() as int)
}

/// Some of the first `n` items invokes a macro of the table.
pub open spec fn items_have_invoking_upto(ms: Seq<Macro>, items: Seq<String>, n: int) -> bool {
    exists|j: int| 0 <= j < n && j < items.len() && item_invokes(ms, (#[trigger] items[j])@)
}

/// One flattening round over the whole table.
///
/// Every macro keeps its name and variable count; its new item list is
/// exactly the old one with each macro-invoking item replaced by the
/// invoked macro's items. The flag reports whether any substitution
/// happened: it is false exactly when the table was already flat.
pub fn expand_macros_once(table: &Vec<Macro>) -> (r: (Vec<Macro>, bool))
    ensures
        r.0@.len() == table@.len(),
        forall|i: int|
            0 <= i < r.0@.len() ==> (#[trigger] r.0@[i]).name@ == table@[i].name@
                && r.0@[i].variables == table@[i].variables,
        forall|i: int|
            0 <= i < r.0@.len() ==> seq_views((#[trigger] r.0@[i]).items@) == items_step(
                table@,
                seq_views(table@[i].items@),
            ),
        r.1 == table_has_invoking(table@),
{
    let mut changed = false;
    let mut new_table: Vec<Macro> = Vec::new();
    let mut mi: usize = 0;
    while mi < table.len()
        invariant
            mi <= table@.len(),
            new_table@.len() == mi,
            forall|i: int|
                0 <= i < mi ==> (#[trigger] new_table@[i]).name@ == table@[i].name@
                    && new_table@[i].variables == table@[i].variables,
            forall|i: int|
                0 <= i < mi ==> seq_views((#[trigger] new_table@[i]).items@) == items_step(
                    table@,
                    seq_views(table@[i].items@),
                ),
            changed == has_invoking_upto(table@, mi as int),
        decreases table@.len() - mi,
    {
        let mut new_items: Vec<String> = Vec::new();
        let mut mac_changed = false;
        let ghost items0 = table@[mi as int].items@;
        let mut ii: usize = 0;
        proof {
            assert(seq_views(new_items@) =~= items_step(table@, seq_views(items0).take(0)));
        }
        let items_len = table[mi].items.len();
        while ii < items_len
            invariant
                mi < table@.len(),
                items_len == table@[mi as int].items@.len(),
                items0 == table@[mi as int].items@,
                ii <= items_len,
                seq_views(new_items@) == items_step(table@, seq_views(items0).take(ii as int)),
                mac_changed == items_have_invoking_upto(table@, items0, ii as int),
            decreases items_len - ii,
        {
            let ghost itv = items0[ii as int]@;
            proof {
                assert(seq_views(items0)[ii as int] == itv);
                assert(seq_views(items0).take(ii + 1int).drop_last() =~= seq_views(items0).take(
                    ii as int,
                ));
                assert(seq_views(items0).take(ii + 1int).last() == itv);
            }
            let it_chars = chars_of(table[mi].items[ii].as_str());
            let iws = split_words(&it_chars);
            let mut invoked = false;
            if iws.len() >= 1 {
                proof {
                    assert(seq_views(iws@)[0] == iws@[0]@);
                }
                match find_macro(table, &iws[0]) {
                    Some(k) => {
                        proof {
                            assert(item_invokes(table@, itv));
                            assert(item_step(table@, itv) == seq_views(table@[k as int].items@));
                        }
                        let ghost before = new_items@;
                        let mut q: usize = 0;
                        let sub_len = table[k].items.len();
                        while q < sub_len
                            invariant
                                q <= sub_len,
                                k < table@.len(),
                                sub_len == table@[k as int].items@.len(),
                                seq_views(new_items@) == seq_views(before) + seq_views(
                                    table@[k as int].items@,
                                ).take(q as int),
                            decreases sub_len - q,
                        {
                            let ghost nb = new_items@;
                            new_items.push(table[k].items[q].clone());
                            proof {
                                assert(seq_views(new_items@) =~= seq_views(nb).push(
                                    table@[k as int].items@[q as int]@,
                                ));
                                assert(seq_views(table@[k as int].items@).take(q + 1int)
                                    =~= seq_views(table@[k as int].items@).take(q as int).push(
                                    table@[k as int].items@[q as int]@,
                                ));
                                assert(seq_views(new_items@) =~= seq_views(before) + seq_views(
                                    table@[k as int].items@,
                                ).take(q + 1int));
                            }
                            q = q + 1;
                        }
                        proof {
                            assert(seq_views(table@[k as int].items@).take(sub_len as int)
                                =~= seq_views(table@[k as int].items@));
                            assert(seq_views(new_items@) =~= items_step(
                                table@,
                                seq_views(items0).take(ii + 1int),
                            ));
                        }
                        mac_changed = true;
                        invoked = true;
                    },
                    None => (),
                }
            }
            if !invoked {
                proof {
                    assert(!item_invokes(table@, itv));
                    assert(item_step(table@, itv) =~= seq![itv]);
                }
                let ghost before = new_items@;
                new_items.push(table[mi].items[ii].clone());
                proof {
                    assert(seq_views(new_items@) =~= seq_views(before).push(itv));
                    assert(seq_views(new_items@) =~= items_step(
                        table@,
                        seq_views(items0).take(ii + 1int),
                    ));
                }
            }
            proof {
                if mac_changed {
                    assert(items_have_invoking_upto(table@, items0, ii + 1int));
                } else {
                    assert forall|j: int| 0 <= j < ii + 1 && j < items0.len() implies
                        !item_invokes(table@, (#[trigger] items0[j])@) by {
                        if j < ii {
                            assert(!items_have_invoking_upto(table@, items0, ii as int));
                        }
                    }
                    assert(!items_have_invoking_upto(table@, items0, ii + 1int));
                }
            }
            ii = ii + 1;
        }
        let nm = table[mi].name.clone();
        let nv = table[mi].variables;
        new_table.push(Macro { name: nm, variables: nv, items: new_items });
        proof {
            assert(seq_views(items0).take(items_len as int) =~= seq_views(items0));
            if changed || mac_changed {
                if changed {
                    let (wi, wj) = choose|i: int, j: int|
                        0 <= i < mi && i < table@.len() && 0 <= j < table@[i].items@.len()
                            && item_invokes(table@, (#[trigger] table@[i].items@[j])@);
                    assert(item_invokes(table@, table@[wi].items@[wj]@));
                } else {
                    let wj = choose|j: int|
                        0 <= j < items_len && j < items0.len() && item_invokes(
                            table@,
                            (#[trigger] items0[j])@,
                        );
                    assert(item_invokes(table@, table@[mi as int].items@[wj]@));
                }
                assert(has_invoking_upto(table@, mi + 1int));
            } else {
                assert forall|i: int, j: int|
                    0 <= i < mi + 1 && i < table@.len() && 0 <= j < table@[i].items@.len() implies
                    !item_invokes(table@, (#[trigger] table@[i].items@[j])@) by {
                    if i < mi {
                        assert(!has_invoking_upto(table@, mi as int));
                    } else {
                        assert(!items_have_invoking_upto(table@, items0, items_len as int));
                    }
                }
                assert(!has_invoking_upto(table@, mi + 1int));
            }
        }
        if mac_changed {
            changed = true;
        }
        mi = mi + 1;
    }
    (new_table, changed)
}

/// Mathematical view of one macro: its name, variable count and item texts.
pub ghost struct MacroView {
    pub name: Seq<char>,
    pub variables: u32,
    pub items: Seq<Seq<char>>,
}

/// The view of a whole table.
pub open spec fn table_view(ms: Seq<Macro>) -> Seq<MacroView> {
    ms.map_values(
        |m: Macro| MacroView { name: m.name@, variables: m.variables, items: seq_views(m.items@) },
    )
}

/// The names of a table view, in order.
pub open spec fn mv_names(t: Seq<MacroView>) -> Seq<Seq<char>> {
    t.map_values(|m: MacroView| m.name)
}

/// Name lookup in a table view.
pub open spec fn mv_lookup(t: Seq<MacroView>, name: Seq<char>) -> Option<int> {
    name_lookup(mv_names(t), name)
}

/// An item invokes a macro of the view.
pub open spec fn mv_item_invokes(t: Seq<MacroView>, it: Seq<char>) -> bool {
    words(it).len() >= 1 && mv_lookup(t, words(it)[0]) is Some
}

/// One substitution step on one item, at the view level.
pub open spec fn mv_item_step(t: Seq<MacroView>, it: Seq<char>) -> Seq<Seq<char>> {
    if mv_item_invokes(t, it) {
        t[mv_lookup(t, words(it)[0])->Some_0].items
    } else {
        seq![it]
    }
}

/// One substitution step on an item list, at the view level.
pub open spec fn mv_items_step(t: Seq<MacroView>, items: Seq<Seq<char>>) -> Seq<Seq<char>>
    decreases items.len(),
{
    if items.len() == 0 {
        Seq::empty()
    } else {
        mv_items_step(t, items.drop_last()) + mv_item_step(t, items.last())
    }
}

/// One flattening round on a whole table view.
pub open spec fn mv_table_step(t: Seq<MacroView>) -> Seq<MacroView> {
    t.map_values(
        |m: MacroView| MacroView {
            name: m.name,
            variables: m.variables,
            items: mv_items_step(t, m.items),
        },
    )
}

/// `k` flattening rounds on a table view.
pub open spec fn mv_iter(t: Seq<MacroView>, k: int) -> Seq<MacroView>
    decreases k,
{
    if k <= 0 {
        t
    } else {
        mv_table_step(mv_iter(t, k - 1))
    }
}

/// Some item of the view invokes a macro of the view.
pub open spec fn mv_has_invoking(t: Seq<MacroView>) -> bool {
    exists|i: int, j: int|
        0 <= i < t.len() && 0 <= j < t[i].items.len() && mv_item_invokes(
            t,
            #[trigger] t[i].items[j],
        )
}

/// The view's names are the table's names.
proof fn lemma_view_names(ms: Seq<Macro>)
    ensures
        mv_names(table_view(ms)) == macro_names(ms),
{
    assert forall|i: int| 0 <= i < ms.len() implies mv_names(table_view(ms))[i] == macro_names(
        ms,
    )[i] by {
        assert(table_view(ms)[i].name == ms[i].name@);
    }
    assert(mv_names(table_view(ms)) =~= macro_names(ms));
}

/// A step on an item list agrees between a table and its view.
proof fn lemma_items_step_view(ms: Seq<Macro>, items: Seq<Seq<char>>)
    ensures
        mv_items_step(table_view(ms), items) == items_step(ms, items),
    decreases items.len(),
{
    lemma_view_names(ms);
    if items.len() > 0 {
        lemma_items_step_view(ms, items.drop_last());
        let it = items.last();
        if item_invokes(ms, it) {
            crate::helper::lemma_name_lookup_props(macro_names(ms), words(it)[0]);
            let k = macro_lookup(ms, words(it)[0])->Some_0;
            assert(table_view(ms)[k].items == seq_views(ms[k].items@));
            assert(mv_item_step(table_view(ms), it) == item_step(ms, it));
        } else {
            assert(!mv_item_invokes(table_view(ms), it));
        }
        assert(mv_items_step(table_view(ms), items) =~= items_step(ms, items));
    }
}

/// A table produced by one round is, in views, one step of its input.
proof fn lemma_once_view(ms: Seq<Macro>, r: Seq<Macro>)
    requires
        r.len() == ms.len(),
        forall|i: int|
            0 <= i < r.len() ==> (#[trigger] r[i]).name@ == ms[i].name@ && r[i].variables
                == ms[i].variables,
        forall|i: int|
            0 <= i < r.len() ==> seq_views((#[trigger] r[i]).items@) == items_step(
                ms,
                seq_views(ms[i].items@),
            ),
    ensures
        table_view(r) == mv_table_step(table_view(ms)),
{
    assert forall|i: int| 0 <= i < r.len() implies table_view(r)[i] == mv_table_step(
        table_view(ms),
    )[i] by {
        lemma_items_step_view(ms, seq_views(ms[i].items@));
        assert(table_view(ms)[i].items == seq_views(ms[i].items@));
        assert(table_view(r)[i].name == mv_table_step(table_view(ms))[i].name);
        assert(table_view(r)[i].items == mv_table_step(table_view(ms))[i].items);
    }
    assert(table_view(r) =~= mv_table_step(table_view(ms)));
}

/// A table and its view agree on whether any item still invokes a macro.
proof fn lemma_has_invoking_view(ms: Seq<Macro>)
    ensures
        table_has_invoking(ms) == mv_has_invoking(table_view(ms)),
{
    lemma_view_names(ms);
    let t = table_view(ms);
    if table_has_invoking(ms) {
        let (wi, wj) = choose|i: int, j: int|
            0 <= i < ms.len() && i < ms.len() && 0 <= j < ms[i].items@.len() && item_invokes(
                ms,
                (#[trigger] ms[i].items@[j])@,
            );
        assert(t[wi].items == seq_views(ms[wi].items@));
        assert(t[wi].items[wj] == ms[wi].items@[wj]@);
        assert(mv_item_invokes(t, t[wi].items[wj]));
        assert(mv_has_invoking(t));
    }
    if mv_has_invoking(t) {
        let (wi, wj) = choose|i: int, j: int|
            0 <= i < t.len() && 0 <= j < t[i].items.len() && mv_item_invokes(
                t,
                #[trigger] t[i].items[j],
            );
        assert(t[wi].items == seq_views(ms[wi].items@));
        assert(t[wi].items[wj] == ms[wi].items@[wj]@);
        assert(item_invokes(ms, ms[wi].items@[wj]@));
        assert(has_invoking_upto(ms, ms.len() as int));
    }
}

/// A step on an item list without invoking items changes nothing.
proof fn lemma_mv_items_step_flat(t: Seq<MacroView>, items: Seq<Seq<char>>)
    requires
        forall|j: int| 0 <= j < items.len() ==> !mv_item_invokes(t, #[trigger] items[j]),
    ensures
        mv_items_step(t, items) == items,
    decreases items.len(),
{
    if items.len() > 0 {
        lemma_mv_items_step_flat(t, items.drop_last());
        assert(mv_items_step(t, items) =~= items);
    }
}

/// A step on a view without invoking items changes nothing.
proof fn lemma_mv_step_flat(t: Seq<MacroView>)
    requires
        !mv_has_invoking(t),
    ensures
        mv_table_step(t) == t,
{
    assert forall|i: int| 0 <= i < t.len() implies mv_table_step(t)[i] == t[i] by {
        assert forall|j: int| 0 <= j < t[i].items.len() implies !mv_item_invokes(
            t,
            #[trigger] t[i].items[j],
        ) by {
            if mv_item_invokes(t, t[i].items[j]) {
                assert(mv_has_invoking(t));
            }
        }
        lemma_mv_items_step_flat(t, t[i].items);
        assert(mv_table_step(t)[i].items == t[i].items);
    }
    assert(mv_table_step(t) =~= t);
}

/// Flatten the macro table: substitute items that name another macro with
/// that macro's items, repeating up to a fixed round limit.
///
/// Each round is one [`expand_macros_once`] step; rounds stop as soon as a
/// step substitutes nothing. In views, the result is some number of rounds
/// (at most ten) applied to the input, and a table still holding an
/// invoking item is only returned once all ten rounds ran. Names and
/// variable counts are preserved. An already-flat table comes back
/// unchanged with no message. Afterwards, one error-severity message is
/// left per macro that still holds a macro-naming item, so a run without
/// messages guarantees a flat table.
pub fn expand_macros_multi(macros: Vec<Macro>, msg_list: &mut MsgList) -> (r: Vec<Macro>)
    ensures
        r@.len() == macros@.len(),
        forall|i: int|
            0 <= i < r@.len() ==> (#[trigger] r@[i]).name@ == macros@[i].name@ && r@[i].variables
                == macros@[i].variables,
        spec_is_flat(macros@) ==> same_macros(r@, macros@),
        exists|k: int|
            0 <= k <= 10 && table_view(r@) == #[trigger] mv_iter(table_view(macros@), k) && (
            mv_has_invoking(table_view(r@)) ==> k == 10),
        final(msg_list).list@.len() == old(msg_list).list@.len() + unflat_count(r@),
        final(msg_list).list@.take(old(msg_list).list@.len() as int) == old(msg_list).list@,
        forall|m: int|
            old(msg_list).list@.len() <= m < final(msg_list).list@.len() ==> (#[trigger] final(
                msg_list).list@[m]).msg_type == MessageType::Error,
{
    let ghost old_msgs = msg_list.list@;
    let mut table = macros;
    let ghost input = table@;
    let mut round: usize = 0;
    let mut changed = true;
    while changed && round < 10
        invariant
            table@.len() == input.len(),
            forall|i: int|
                0 <= i < table@.len() ==> (#[trigger] table@[i]).name@ == input[i].name@
                    && table@[i].variables == input[i].variables,
            spec_is_flat(input) ==> same_macros(table@, input),
            input == macros@,
            msg_list.list@ == old(msg_list).list@,
            round <= 10,
            table_view(table@) == mv_iter(table_view(input), round as int),
            !changed ==> !mv_has_invoking(table_view(table@)),
        decreases 10 - round,
    {
        let stepped = expand_macros_once(&table);
        proof {
            lemma_once_view(table@, stepped.0@);
            lemma_has_invoking_view(table@);
            assert(table_view(stepped.0@) == mv_iter(table_view(input), round + 1int));
            if !stepped.1 {
                lemma_mv_step_flat(table_view(table@));
                assert(table_view(stepped.0@) == table_view(table@));
            }
            if spec_is_flat(input) {
                assert(macro_names(table@) =~= macro_names(input));
                assert forall|i: int| 0 <= i < table@.len() implies macro_is_flat(
                    table@,
                    #[trigger] table@[i],
                ) by {
                    assert(same_macro(table@[i], input[i]));
                    assert(macro_is_flat(input, input[i]));
                    assert(seq_views(input[i].items@).len() == input[i].items@.len());
                    assert(seq_views(table@[i].items@).len() == table@[i].items@.len());
                    assert forall|j: int| 0 <= j < table@[i].items@.len() implies !item_invokes(
                        table@,
                        (#[trigger] table@[i].items@[j])@,
                    ) by {
                        assert(seq_views(table@[i].items@)[j] == table@[i].items@[j]@);
                        assert(seq_views(input[i].items@)[j] == input[i].items@[j]@);
                        assert(!item_invokes(input, input[i].items@[j]@));
                    }
                }
                assert forall|i: int| 0 <= i < stepped.0@.len() implies same_macro(
                    #[trigger] stepped.0@[i],
                    input[i],
                ) by {
                    assert(macro_is_flat(table@, table@[i]));
                    assert forall|j: int|
                        0 <= j < seq_views(table@[i].items@).len() implies !item_invokes(
                        table@,
                        #[trigger] seq_views(table@[i].items@)[j],
                    ) by {
                        assert(seq_views(table@[i].items@)[j] == table@[i].items@[j]@);
                    }
                    lemma_items_step_flat(table@, seq_views(table@[i].items@));
                    assert(same_macro(table@[i], input[i]));
                }
                assert(same_macros(stepped.0@, input));
            }
        }
        table = stepped.0;
        changed = stepped.1;
        round = round + 1;
    }
    proof {
        assert(table_view(table@) == mv_iter(table_view(macros@), round as int));
        if mv_has_invoking(table_view(table@)) {
            assert(changed && round == 10);
        }
    }
    // report every macro that still holds a macro-naming item
    let mut mi: usize = 0;
    proof {
        assert(msg_list.list@.take(old_msgs.len() as int) =~= old_msgs);
    }
    while mi < table.len()
        invariant
            mi <= table@.len(),
            table@.len() == input.len(),
            forall|i: int|
                0 <= i < table@.len() ==> (#[trigger] table@[i]).name@ == input[i].name@
                    && table@[i].variables == input[i].variables,
            spec_is_flat(input) ==> same_macros(table@, input),
            input == macros@,
            msg_list.list@.len() == old_msgs.len() + unflat_from(table@, 0) - unflat_from(
                table@,
                mi as int,
            ),
            msg_list.list@.take(old_msgs.len() as int) == old_msgs,
            spec_is_flat(input) ==> msg_list.list@ == old_msgs,
            forall|m: int|
                old_msgs.len() <= m < msg_list.list@.len() ==> (#[trigger] msg_list.list@[m])
                    .msg_type == MessageType::Error,
        decreases table@.len() - mi,
    {
        let mut has_invoking = false;
        let ghost items0 = table@[mi as int].items@;
        let mut ii: usize = 0;
        let items_len = table[mi].items.len();
        while ii < items_len
            invariant
                mi < table@.len(),
                items_len == table@[mi as int].items@.len(),
                items0 == table@[mi as int].items@,
                ii <= items_len,
                has_invoking <==> exists|j: int|
                    0 <= j < ii && item_invokes(table@, (#[trigger] items0[j])@),
            decreases items_len - ii,
        {
            let it_chars = chars_of(table[mi].items[ii].as_str());
            let iws = split_words(&it_chars);
            if iws.len() >= 1 {
                match find_macro(&table, &iws[0]) {
                    Some(_) => {
                        proof {
                            assert(item_invokes(table@, items0[ii as int]@));
                        }
                        has_invoking = true;
                    },
                    None => (),
                }
            }
            ii = ii + 1;
        }
        proof {
            assert(has_invoking <==> !macro_is_flat(table@, table@[mi as int]));
            lemma_unflat_range(table@, 0, mi as int);
            lemma_unflat_range(table@, mi as int, mi + 1int);
        }
        if has_invoking {
            proof {
                if spec_is_flat(input) {
                    assert(macro_names(table@) =~= macro_names(input));
                    assert(same_macro(table@[mi as int], input[mi as int]));
                    assert(macro_is_flat(input, input[mi as int]));
                    assert(seq_views(input[mi as int].items@).len() == input[mi as int]
                        .items@.len());
                    assert(seq_views(table@[mi as int].items@).len() == table@[mi as int]
                        .items@.len());
                    assert(input[mi as int].items@.len() == table@[mi as int].items@.len());
                    assert forall|j: int| 0 <= j < table@[mi as int].items@.len() implies
                        !item_invokes(table@, (#[trigger] table@[mi as int].items@[j])@) by {
                        assert(seq_views(table@[mi as int].items@)[j] == table@[mi as int]
                            .items@[j]@);
                        assert(seq_views(input[mi as int].items@)[j] == input[mi as int]
                            .items@[j]@);
                        assert(table@[mi as int].items@[j]@ == input[mi as int].items@[j]@);
                        assert(!item_invokes(input, input[mi as int].items@[j]@));
                    }
                    assert(macro_is_flat(table@, table@[mi as int]));
                    assert(false);
                }
            }
            let mut text: String = "Macro expansion failed for ".to_owned();
            text.append(table[mi].name.as_str());
            let ghost before = msg_list.list@;
            msg_list.push(text, None, MessageType::Error);
            proof {
                assert(msg_list.list@.take(old_msgs.len() as int) =~= before.take(
                    old_msgs.len() as int,
                ));
            }
        }
        mi = mi + 1;
    }
    proof {
        lemma_unflat_nonneg(table@, table@.len() as int);
    }
    table
}

/// The `w_var` placeholder prefix.
pub open spec fn var_prefix() -> Seq<char> {
    seq!['w', '_', 'v', 'a', 'r']
}

/// A word of a macro item after argument substitution: `w_var`N becomes the
/// N-th invocation argument when one was given; any other word stands.
pub open spec fn subst_word(w: Seq<char>, args: Seq<Seq<char>>) -> Seq<char> {
    if w.len() == 6 && w.take(5) == var_prefix() && is_digit(w[5]) && 1 <= digit_val(w[5])
        <= args.len() {
        args[digit_val(w[5]) - 1]
    } else {
        w
    }
}

/// Words joined by single spaces.
pub open spec fn join_words(ws: Seq<Seq<char>>) -> Seq<char>
    decreases ws.len(),
{
    if ws.len() == 0 {
        Seq::empty()
    } else if ws.len() == 1 {
        ws[0]
    } else {
        join_words(ws.drop_last()) + seq![' '] + ws.last()
    }
}

/// A macro item with the invocation's arguments substituted, word by word.
pub open spec fn subst_item(it: Seq<char>, args: Seq<Seq<char>>) -> Seq<char> {
    join_words(words(it).map_values(|w: Seq<char>| subst_word(w, args)))
}

/// Substitute the invocation's trailing words into one macro item.
fn subst_item_exec(item: &String, ws: &Vec<String>) -> (r: String)
    requires
        ws@.len() >= 1,
    ensures
        r@ == subst_item(item@, seq_views(ws@).drop_first()),
{
    let ghost args = seq_views(ws@).drop_first();
    let ic = chars_of(item.as_str());
    let iws = split_words(&ic);
    let ghost mapped = words(item@).map_values(|w: Seq<char>| subst_word(w, args));
    let mut cur: Vec<char> = Vec::new();
    let mut k: usize = 0;
    proof {
        assert(cur@ =~= join_words(mapped.take(0)));
    }
    while k < iws.len()
        invariant
            k <= iws@.len(),
            seq_views(iws@) == words(item@),
            args == seq_views(ws@).drop_first(),
            ws@.len() >= 1,
            mapped == words(item@).map_values(|w: Seq<char>| subst_word(w, args)),
            cur@ == join_words(mapped.take(k as int)),
        decreases iws@.len() - k,
    {
        let wc = chars_of(iws[k].as_str());
        let is_var: bool = wc.len() == 6 && wc[0] == 'w' && wc[1] == '_' && wc[2] == 'v'
            && wc[3] == 'a' && wc[4] == 'r' && (wc[5] as u32) >= 49 && (wc[5] as u32) <= 57
            && ((wc[5] as u32) - 48) as usize <= ws.len() - 1;
        proof {
            if wc@.len() == 6 && wc@.take(5) == var_prefix() && is_digit(wc@[5]) && 1 <= digit_val(
                wc@[5],
            ) && digit_val(wc@[5]) <= args.len() {
                assert(wc@.take(5)[0] == var_prefix()[0]);
                assert(wc@.take(5)[1] == var_prefix()[1]);
                assert(wc@.take(5)[2] == var_prefix()[2]);
                assert(wc@.take(5)[3] == var_prefix()[3]);
                assert(wc@.take(5)[4] == var_prefix()[4]);
                assert(is_var);
            }
            if is_var {
                assert(wc@.take(5) =~= var_prefix());
            }
        }
        let subbed: Vec<char> = if is_var {
            proof {
                assert(args[digit_val(wc@[5]) - 1] == ws@[((wc@[5] as u32) - 48) as int]@);
            }
            let d = ((wc[5] as u32) - 48) as usize;
            chars_of(ws[d].as_str())
        } else {
            wc
        };
        proof {
            assert(subbed@ == subst_word(words(item@)[k as int], args));
            assert(mapped[k as int] == subst_word(words(item@)[k as int], args));
            assert(mapped.take(k + 1int).drop_last() =~= mapped.take(k as int));
            assert(mapped.take(k + 1int).last() == mapped[k as int]);
        }
        if k > 0 {
            cur.push(' ');
        }
        push_all(&mut cur, &subbed);
        proof {
            if k == 0 {
                assert(cur@ =~= mapped[0]);
                assert(join_words(mapped.take(1)) == mapped.take(1)[0]);
            } else {
                assert(cur@ =~= join_words(mapped.take(k as int)) + seq![' '] + mapped[k as int]);
            }
        }
        k = k + 1;
    }
    proof {
        assert(mapped.take(mapped.len() as int) =~= mapped);
    }
    string_from_chars(&cur)
}

/// The name a line's first word invokes: the word with the `$` sigil
/// prepended.
pub open spec fn invocation_name(w: Seq<char>) -> Seq<char> {
    seq!['$'] + w
}

/// The lines one source line expands to: the invoked macro's items with
/// arguments substituted, or the line itself when it invokes nothing.
pub open spec fn line_expansion(ms: Seq<Macro>, s: Seq<char>) -> Seq<Seq<char>> {
    let ws = words(s);
    if ws.len() >= 1 && macro_lookup(ms, invocation_name(ws[0])) is Some {
        let k = macro_lookup(ms, invocation_name(ws[0]))->Some_0;
        seq_views(ms[k].items@).map_values(|it: Seq<char>| subst_item(it, ws.drop_first()))
    } else {
        seq![s]
    }
}

/// Items paired with one source line number.
pub open spec fn numbered(items: Seq<Seq<char>>, n: u32) -> Seq<(Seq<char>, u32)> {
    items.map_values(|it: Seq<char>| (it, n))
}

/// The 1-based line number of position `i`, saturated to 32 bits.
pub open spec fn line_number_of(i: int) -> u32 {
    if i + 1 > 0xFFFFFFFF {
        0xFFFFFFFFu32
    } else {
        (i + 1) as u32
    }
}

/// The expansion of the whole source, with originating line numbers.
pub open spec fn expansion(ms: Seq<Macro>, lines: Seq<Seq<char>>) -> Seq<(Seq<char>, u32)>
    decreases lines.len(),
{
    if lines.len() == 0 {
        Seq::empty()
    } else {
        expansion(ms, lines.drop_last()) + numbered(
            line_expansion(ms, lines.last()),
            line_number_of(lines.len() - 1),
        )
    }
}

/// The text and line number of each pass-0 record.
pub open spec fn pass0_views(p: Seq<Pass0>) -> Seq<(Seq<char>, u32)> {
    p.map_values(|x: Pass0| (x.input@, x.line_counter))
}

/// Pass 0: expand macro invocations in the source, line by line.
///
/// A line whose first word names a macro (with the sigil prepended) becomes
/// one line per macro item, arguments substituted; any other line passes
/// through unchanged. Every produced line keeps the number of the source
/// line it came from.
pub fn expand_macros(input_lines: &Vec<String>, macro_list: &Vec<Macro>) -> (r: Vec<Pass0>)
    ensures
        pass0_views(r@) == expansion(macro_list@, seq_views(input_lines@)),
{
    let mut out: Vec<Pass0> = Vec::new();
    let mut i: usize = 0;
    proof {
        assert(pass0_views(out@) =~= expansion(macro_list@, seq_views(input_lines@).take(0)));
    }
    while i < input_lines.len()
        invariant
            i <= input_lines@.len(),
            pass0_views(out@) == expansion(macro_list@, seq_views(input_lines@).take(i as int)),
        decreases input_lines@.len() - i,
    {
        proof {
            assert(seq_views(input_lines@).take(i + 1int).drop_last() =~= seq_views(
                input_lines@,
            ).take(i as int));
            assert(seq_views(input_lines@).take(i + 1int).last() == input_lines@[i as int]@);
        }
        let lc: u32 = if (i as u64) >= 0xFFFFFFFFu64 {
            0xFFFFFFFFu32
        } else {
            (i + 1) as u32
        };
        proof {
            assert(lc == line_number_of(i as int));
        }
        let cs = chars_of(input_lines[i].as_str());
        let ws = split_words(&cs);
        let mut plain = true;
        if ws.len() >= 1 {
            let mut nv: Vec<char> = Vec::new();
            nv.push('$');
            let w0c = chars_of(ws[0].as_str());
            push_all(&mut nv, &w0c);
            proof {
                assert(nv@ =~= invocation_name(words(input_lines@[i as int]@)[0]));
            }
            let nm = string_from_chars(&nv);
            match find_macro(macro_list, &nm) {
                Some(k) => {
                    plain = false;
                    let ghost exp = line_expansion(macro_list@, input_lines@[i as int]@);
                    proof {
                        assert(exp == seq_views(macro_list@[k as int].items@).map_values(
                            |it: Seq<char>| subst_item(it, words(input_lines@[i as int]@)
                                .drop_first()),
                        ));
                    }
                    let ghost out0 = pass0_views(out@);
                    let mut q: usize = 0;
                    let n_items = macro_list[k].items.len();
                    proof {
                        assert(out0 + numbered(exp, lc).take(0) =~= out0);
                    }
                    while q < n_items
                        invariant
                            q <= n_items,
                            k < macro_list@.len(),
                            n_items == macro_list@[k as int].items@.len(),
                            ws@.len() >= 1,
                            seq_views(ws@) == words(input_lines@[i as int]@),
                            i < input_lines@.len(),
                            exp == line_expansion(macro_list@, input_lines@[i as int]@),
                            exp == seq_views(macro_list@[k as int].items@).map_values(
                                |it: Seq<char>| subst_item(it, words(input_lines@[i as int]@)
                                    .drop_first()),
                            ),
                            out0 == pass0_views(out@.take((out@.len() - q) as int)),
                            q <= out@.len(),
                            pass0_views(out@) == out0 + numbered(exp, lc).take(q as int),
                        decreases n_items - q,
                    {
                        let sub = subst_item_exec(&macro_list[k].items[q], &ws);
                        let ghost before = out@;
                        out.push(Pass0 { input: sub, line_counter: lc });
                        proof {
                            assert(exp[q as int] == subst_item(
                                macro_list@[k as int].items@[q as int]@,
                                words(input_lines@[i as int]@).drop_first(),
                            ));
                            assert(pass0_views(out@) =~= pass0_views(before).push(
                                (sub@, lc),
                            ));
                            assert(numbered(exp, lc).take(q + 1int) =~= numbered(exp, lc).take(
                                q as int,
                            ).push((exp[q as int], lc)));
                            assert(out@.take((out@.len() - (q + 1)) as int) =~= before.take(
                                (before.len() - q) as int,
                            ));
                        }
                        q = q + 1;
                    }
                    proof {
                        assert(numbered(exp, lc).take(numbered(exp, lc).len() as int) =~= numbered(
                            exp,
                            lc,
                        ));
                        assert(pass0_views(out@) =~= expansion(
                            macro_list@,
                            seq_views(input_lines@).take(i + 1int),
                        ));
                    }
                },
                None => (),
            }
        }
        if plain {
            let ghost before = out@;
            out.push(Pass0 { input: input_lines[i].clone(), line_counter: lc });
            proof {
                assert(line_expansion(macro_list@, input_lines@[i as int]@) =~= seq![
                    input_lines@[i as int]@,
                ]);
                assert(pass0_views(out@) =~= pass0_views(before).push(
                    (input_lines@[i as int]@, lc),
                ));
                assert(numbered(seq![input_lines@[i as int]@], lc) =~= seq![
                    (input_lines@[i as int]@, lc),
                ]);
                assert(pass0_views(out@) =~= expansion(
                    macro_list@,
                    seq_views(input_lines@).take(i + 1int),
                ));
            }
        }
        i = i + 1;
    }
    proof {
        assert(seq_views(input_lines@).take(input_lines@.len() as int) =~= seq_views(
            input_lines@,
        ));
    }
    out
}

} // verus!
