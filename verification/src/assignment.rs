//! What the id assignment of the reader guarantees: an id spelled out in the
//! source is never handed to another issue.
use vstd::prelude::*;

use crate::parse::{
    assign_ids_spec, assign_upto, lemma_assign_err_stays, decimal_chars, line_of, name_text, next_free, reserved_ids, IdState,
    ParseErrorView,
};
use crate::reader::RawView;

verus! {

/// Item `i` is kept (not demoted) and spells out `x` as its id.
pub open spec fn spells(raws: Seq<RawView>, dropped: Seq<bool>, i: int, x: u64) -> bool {
    0 <= i < raws.len() && !dropped[i] && raws[i].id_override == Some(x)
}

/// Two kept items spell out the same id.
pub open spec fn has_repeat(raws: Seq<RawView>, dropped: Seq<bool>) -> bool {
    exists|i: int, j: int, x: u64|
        #![trigger spells(raws, dropped, i, x), spells(raws, dropped, j, x)]
        i < j && spells(raws, dropped, i, x) && spells(raws, dropped, j, x)
}

proof fn lemma_next_free(c: int, reserved: Set<u64>, assigned: Map<u64, usize>)
    ensures
        next_free(c, reserved, assigned) matches Some(g) ==> c <= g && !reserved.contains(g)
            && !assigned.contains_key(g),
    decreases u64::MAX + 1 - c,
{
    if 0 <= c <= u64::MAX && (reserved.contains(c as u64) || assigned.contains_key(c as u64)) {
        lemma_next_free(c + 1, reserved, assigned);
    }
}

/// What holds of the assignment over the first `n` items, when it succeeds.
spec fn assigned_well(st: IdState, raws: Seq<RawView>, dropped: Seq<bool>, n: int) -> bool {
    &&& st.ids.len() == n
    &&& forall|i: int| 0 <= i < n ==> (dropped[i] <==> #[trigger] st.ids[i] is None)
    &&& forall|i: int| 0 <= i < n && !dropped[i] ==> st.assigned.contains_key(#[trigger] st.ids[i]->Some_0)
        && st.assigned[st.ids[i]->Some_0] == i
    &&& forall|x: u64| #[trigger] st.assigned.contains_key(x) ==> 0 <= st.assigned[x] < n && !dropped[st.assigned[x] as int]
        && st.ids[st.assigned[x] as int] == Some(x)
    &&& forall|i: int| 0 <= i < n && !dropped[i] && raws[i].id_override is Some ==> #[trigger] st.ids[i]
        == raws[i].id_override
    &&& forall|i: int| 0 <= i < n && !dropped[i] && raws[i].id_override is None ==> !reserved_ids(raws, dropped).contains(
        #[trigger] st.ids[i]->Some_0,
    )
}

proof fn lemma_assigned_well(raws: Seq<RawView>, dropped: Seq<bool>, src: Seq<u8>, start: u64, n: int)
    requires
        0 <= n <= raws.len() <= usize::MAX,
        dropped.len() == raws.len(),
    ensures
        assign_upto(raws, dropped, src, start, n) matches Ok(st) ==> assigned_well(st, raws, dropped, n),
    decreases n,
{
    if n > 0 {
        lemma_assigned_well(raws, dropped, src, start, n - 1);
        let k = n - 1;
        match assign_upto(raws, dropped, src, start, n - 1) {
            Ok(st) => {
                let reserved = reserved_ids(raws, dropped);
                lemma_next_free(st.counter, reserved, st.assigned);
                match assign_upto(raws, dropped, src, start, n) {
                    Ok(st2) => {
                        assert forall|i: int| 0 <= i < n && !dropped[i] implies st2.assigned.contains_key(
                            #[trigger] st2.ids[i]->Some_0,
                        ) && st2.assigned[st2.ids[i]->Some_0] == i by {
                            if i < k {
                                assert(st2.ids[i] == st.ids[i]);
                                assert(st.assigned.contains_key(st.ids[i]->Some_0));
                                if !dropped[k] {
                                    let new_id = st2.ids[k]->Some_0;
                                    assert(!st.assigned.contains_key(new_id));
                                    assert(st2.assigned == st.assigned.insert(new_id, k as usize));
                                }
                            }
                        }
                        assert forall|x: u64| #[trigger] st2.assigned.contains_key(x) implies 0 <= st2.assigned[x] < n
                            && !dropped[st2.assigned[x] as int] && st2.ids[st2.assigned[x] as int] == Some(x) by {
                            if st.assigned.contains_key(x) && st2.assigned[x] == st.assigned[x] {
                                assert(st2.ids[st.assigned[x] as int] == st.ids[st.assigned[x] as int]);
                            }
                        }
                        assert forall|i: int| 0 <= i < n && !dropped[i] && raws[i].id_override is None implies !reserved.contains(
                            #[trigger] st2.ids[i]->Some_0,
                        ) by {
                            if i < k {
                                assert(st2.ids[i] == st.ids[i]);
                            }
                        }
                        assert forall|i: int| 0 <= i < n && !dropped[i] && raws[i].id_override is Some implies #[trigger] st2.ids[i]
                            == raws[i].id_override by {
                            if i < k {
                                assert(st2.ids[i] == st.ids[i]);
                            }
                        }
                        assert forall|i: int| 0 <= i < n implies (dropped[i] <==> #[trigger] st2.ids[i] is None) by {
                            if i < k {
                                assert(st2.ids[i] == st.ids[i]);
                            }
                        }
                    },
                    Err(_) => {},
                }
            },
            Err(_) => {},
        }
    }
}

/// Every kept item gets an id, the items of a demoted list get none, and no
/// two kept items share an id.
pub proof fn lemma_ids_distinct(raws: Seq<RawView>, dropped: Seq<bool>, src: Seq<u8>, start: u64)
    requires
        dropped.len() == raws.len() <= usize::MAX,
    ensures
        assign_ids_spec(raws, dropped, src, start) matches Ok(ids) ==> {
            &&& ids.len() == raws.len()
            &&& forall|i: int| 0 <= i < raws.len() ==> (dropped[i] <==> #[trigger] ids[i] is None)
            &&& forall|i: int, j: int|
                0 <= i < j < raws.len() && !dropped[i] && !dropped[j] ==> #[trigger] ids[i] != #[trigger] ids[j]
        },
{
    lemma_assigned_well(raws, dropped, src, start, raws.len() as int);
    match assign_upto(raws, dropped, src, start, raws.len() as int) {
        Ok(st) => {
            assert forall|i: int, j: int| 0 <= i < j < raws.len() && !dropped[i] && !dropped[j] implies #[trigger] st.ids[i]
                != #[trigger] st.ids[j] by {
                assert(st.assigned[st.ids[i]->Some_0] == i);
                assert(st.assigned[st.ids[j]->Some_0] == j);
            }
        },
        Err(_) => {},
    }
}

/// A kept item that spells out its id gets exactly that id.
pub proof fn lemma_explicit_id_kept(raws: Seq<RawView>, dropped: Seq<bool>, src: Seq<u8>, start: u64, i: int, x: u64)
    requires
        dropped.len() == raws.len() <= usize::MAX,
        spells(raws, dropped, i, x),
    ensures
        assign_ids_spec(raws, dropped, src, start) matches Ok(ids) ==> ids[i] == Some(x),
{
    lemma_assigned_well(raws, dropped, src, start, raws.len() as int);
}

/// A generated id is never one that a kept item spells out.
pub proof fn lemma_generated_id_free(raws: Seq<RawView>, dropped: Seq<bool>, src: Seq<u8>, start: u64, i: int, j: int)
    requires
        dropped.len() == raws.len() <= usize::MAX,
        0 <= i < raws.len(),
        !dropped[i],
        raws[i].id_override is None,
        0 <= j < raws.len(),
        !dropped[j],
        raws[j].id_override is Some,
    ensures
        assign_ids_spec(raws, dropped, src, start) matches Ok(ids) ==> ids[i] is Some && ids[i]
            != raws[j].id_override,
{
    lemma_assigned_well(raws, dropped, src, start, raws.len() as int);
    match assign_upto(raws, dropped, src, start, raws.len() as int) {
        Ok(st) => {
            assert(reserved_ids(raws, dropped).contains(raws[j].id_override->Some_0));
        },
        Err(_) => {},
    }
}

/// The assignment fails once two kept items spell out the same id.
pub proof fn lemma_repeat_is_error(raws: Seq<RawView>, dropped: Seq<bool>, src: Seq<u8>, start: u64)
    requires
        dropped.len() == raws.len() <= usize::MAX,
        has_repeat(raws, dropped),
    ensures
        assign_ids_spec(raws, dropped, src, start) is Err,
{
    let (i, j, x) = choose|i: int, j: int, x: u64|
        #![trigger spells(raws, dropped, i, x), spells(raws, dropped, j, x)]
        i < j && spells(raws, dropped, i, x) && spells(raws, dropped, j, x);
    lemma_assigned_well(raws, dropped, src, start, j);
    match assign_upto(raws, dropped, src, start, j) {
        Ok(st) => {
            assert(st.assigned.contains_key(x));
            assert(assign_upto(raws, dropped, src, start, j + 1) is Err);
            lemma_assign_err_stays(raws, dropped, src, start, j + 1, raws.len() as int);
        },
        Err(_) => {
            lemma_assign_err_stays(raws, dropped, src, start, j, raws.len() as int);
        },
    }
}

/// A duplicate-id error names a real repeat: the id that the item opening in
/// `line` spells out, and the name of the earlier item that spelled it first.
pub proof fn lemma_duplicate_error_names_repeat(raws: Seq<RawView>, dropped: Seq<bool>, src: Seq<u8>, start: u64)
    requires
        dropped.len() == raws.len() <= usize::MAX,
    ensures
        assign_ids_spec(raws, dropped, src, start) matches Err(ParseErrorView::DuplicateId { line, id, owner }) ==> exists|
            i: int,
            j: int,
            x: u64,
        |
            #![trigger spells(raws, dropped, i, x), spells(raws, dropped, j, x)]
            i < j && spells(raws, dropped, i, x) && spells(raws, dropped, j, x) && id == decimal_chars(x as nat)
                && owner == name_text(raws[i], src) && line == line_of(src, raws[j].item_range.start),
{
    lemma_duplicate_upto(raws, dropped, src, start, raws.len() as int);
}

proof fn lemma_duplicate_upto(raws: Seq<RawView>, dropped: Seq<bool>, src: Seq<u8>, start: u64, n: int)
    requires
        dropped.len() == raws.len() <= usize::MAX,
        0 <= n <= raws.len(),
    ensures
        assign_upto(raws, dropped, src, start, n) matches Err(ParseErrorView::DuplicateId { line, id, owner }) ==> exists|
            i: int,
            j: int,
            x: u64,
        |
            #![trigger spells(raws, dropped, i, x), spells(raws, dropped, j, x)]
            i < j && spells(raws, dropped, i, x) && spells(raws, dropped, j, x) && id == decimal_chars(x as nat)
                && owner == name_text(raws[i], src) && line == line_of(src, raws[j].item_range.start),
    decreases n,
{
    if n > 0 {
        lemma_duplicate_upto(raws, dropped, src, start, n - 1);
        let k = n - 1;
        match assign_upto(raws, dropped, src, start, n - 1) {
            Ok(st) => {
                lemma_assigned_well(raws, dropped, src, start, n - 1);
                if !dropped[k] && raws[k].id_override is Some {
                    let x = raws[k].id_override->Some_0;
                    if st.assigned.contains_key(x) {
                        let i = st.assigned[x] as int;
                        assert(st.ids[i] == Some(x));
                        if raws[i].id_override is None {
                            assert(reserved_ids(raws, dropped).contains(x));
                            assert(false);
                        }
                        assert(spells(raws, dropped, i, x));
                        assert(spells(raws, dropped, k, x));
                    }
                }
            },
            Err(_) => {},
        }
    }
}

} // verus!
