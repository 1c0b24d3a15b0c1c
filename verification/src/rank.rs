use vstd::prelude::*;

use crate::style::{score_le, score_le_exec, score_lt, Score};
use vstd::slice::SliceAdditionalExecFns;

verus! {

/// A classified text candidate: its whitespace-stripped value and its
/// proximity score.
pub struct Item {
    pub val: String,
    pub score: Score,
}

/// The mathematical shadow of an [`Item`].
pub ghost struct ItemView {
    pub val: Seq<char>,
    pub score: Score,
}

impl View for Item {
    type V = ItemView;

    open spec fn view(&self) -> ItemView {
        ItemView { val: self.val@, score: self.score }
    }
}

/// The views of a sequence of items.
pub open spec fn item_views(s: Seq<Item>) -> Seq<ItemView> {
    s.map_values(|it: Item| it@)
}

/// First index holding an item with the given value, or `-1`.
pub open spec fn index_of_val(s: Seq<ItemView>, val: Seq<char>) -> int
    decreases s.len(),
{
    if s.len() == 0 {
        -1
    } else if s[0].val == val {
        0
    } else {
        let r = index_of_val(s.drop_first(), val);
        if r == -1 {
            -1
        } else {
            1 + r
        }
    }
}

proof fn lemma_index_of_val_is(s: Seq<ItemView>, val: Seq<char>, n: int)
    requires
        0 <= n <= s.len(),
        forall|j: int| 0 <= j < n ==> s[j].val != val,
        n < s.len() ==> s[n].val == val,
    ensures
        n == s.len() ==> index_of_val(s, val) == -1,
        n < s.len() ==> index_of_val(s, val) == n,
    decreases n,
{
    if n == 0 {
    } else {
        lemma_index_of_val_is(s.drop_first(), val, n - 1);
    }
}

proof fn lemma_index_of_val_found(s: Seq<ItemView>, val: Seq<char>)
    requires
        index_of_val(s, val) != -1,
    ensures
        0 <= index_of_val(s, val) < s.len(),
        s[index_of_val(s, val)].val == val,
    decreases s.len(),
{
    if s.len() == 0 {
    } else if s[0].val == val {
    } else {
        lemma_index_of_val_found(s.drop_first(), val);
    }
}

/// One deduplication step: a new candidate either joins the set, replaces a
/// worse-scored candidate with its value, or is dropped.
pub open spec fn dedup_step(acc: Seq<ItemView>, it: ItemView) -> Seq<ItemView> {
    let i = index_of_val(acc, it.val);
    if i == -1 {
        acc.push(it)
    } else if score_lt(it.score, acc[i].score) {
        acc.update(i, it)
    } else {
        acc
    }
}

/// Deduplication of candidates by value: of all candidates sharing one
/// stripped value, only one with the minimum score survives.
pub open spec fn dedup_best(items: Seq<ItemView>) -> Seq<ItemView>
    decreases items.len(),
{
    if items.len() == 0 {
        Seq::empty()
    } else {
        dedup_step(dedup_best(items.drop_last()), items.last())
    }
}

/// Insertion of an item into a score-sorted run, after every item that does
/// not exceed it.
pub open spec fn insert_item(s: Seq<ItemView>, it: ItemView) -> Seq<ItemView>
    decreases s.len(),
{
    if s.len() == 0 {
        seq![it]
    } else if score_le(s.last().score, it.score) {
        s.push(it)
    } else {
        insert_item(s.drop_last(), it).push(s.last())
    }
}

/// Stable insertion sort of candidates by ascending score.
pub open spec fn sort_items(s: Seq<ItemView>) -> Seq<ItemView>
    decreases s.len(),
{
    if s.len() == 0 {
        Seq::empty()
    } else {
        insert_item(sort_items(s.drop_last()), s.last())
    }
}

/// The rank-ordered candidate list: duplicates collapsed to their best
/// occurrence, then sorted ascending by score.
pub open spec fn rank_spec(items: Seq<ItemView>) -> Seq<ItemView> {
    sort_items(dedup_best(items))
}

fn find_val(acc: &Vec<Item>, val: &String) -> (r: Option<usize>)
    ensures
        match r {
            Some(i) => 0 <= i < acc@.len() && index_of_val(item_views(acc@), val@) == i as int,
            None => index_of_val(item_views(acc@), val@) == -1,
        },
{
    let ghost vs: Seq<ItemView> = item_views(acc@);
    let mut i: usize = 0;
    while i < acc.len()
        invariant
            0 <= i <= acc@.len(),
            vs == item_views(acc@),
            forall|j: int| 0 <= j < i ==> vs[j].val != val@,
        decreases acc@.len() - i,
    {
        if acc[i].val == *val {
            proof {
                assert(vs[i as int].val == val@);
                lemma_index_of_val_is(vs, val@, i as int);
            }
            return Some(i);
        }
        proof {
            assert(vs[i as int].val != val@);
        }
        i = i + 1;
    }
    proof {
        lemma_index_of_val_is(vs, val@, acc@.len() as int);
    }
    None
}

/// Collapses candidates sharing a stripped value to the best-scored one.
#[verifier::loop_isolation(false)]
pub fn dedup_items(items: Vec<Item>) -> (r: Vec<Item>)
    ensures
        item_views(r@) == dedup_best(item_views(items@)),
{
    let mut acc: Vec<Item> = Vec::new();
    let mut i: usize = 0;
    proof {
        assert(item_views(acc@) =~= Seq::<ItemView>::empty());
        assert(item_views(items@.take(0)) =~= Seq::<ItemView>::empty());
    }
    let n = items.len();
    while i < n
        invariant
            0 <= i <= n,
            n == items@.len(),
            item_views(acc@) == dedup_best(item_views(items@.take(i as int))),
        decreases n - i,
    {
        let ghost pre: Seq<ItemView> = item_views(acc@);
        let it = Item { val: items[i].val.clone(), score: items[i].score };
        proof {
            assert(it@ == items@[i as int]@);
            assert(item_views(items@.take(i + 1)).drop_last() =~= item_views(
                items@.take(i as int),
            ));
            assert(item_views(items@.take(i + 1)).last() == items@[i as int]@);
        }
        match find_val(&acc, &it.val) {
            None => {
                acc.push(it);
                proof {
                    assert(item_views(acc@) =~= pre.push(items@[i as int]@));
                }
            },
            Some(j) => {
                if score_le_exec(acc[j].score, it.score) {
                    proof {
                        assert(!score_lt(items@[i as int]@.score, pre[j as int].score));
                        assert(item_views(acc@) =~= pre);
                    }
                } else {
                    acc.as_mut_slice().set(j, it);
                    proof {
                        assert(item_views(acc@) =~= pre.update(j as int, items@[i as int]@));
                    }
                }
            },
        }
        i = i + 1;
    }
    proof {
        assert(items@.take(n as int) =~= items@);
    }
    acc
}

proof fn lemma_insert_item_at(s: Seq<ItemView>, it: ItemView, p: int)
    requires
        0 <= p <= s.len(),
        forall|j: int| p <= j < s.len() ==> !score_le((#[trigger] s[j]).score, it.score),
        p > 0 ==> score_le(s[p - 1].score, it.score),
    ensures
        insert_item(s, it) == s.take(p) + seq![it] + s.skip(p),
    decreases s.len() - p,
{
    if p == s.len() {
        if s.len() == 0 {
            assert(insert_item(s, it) =~= s.take(p) + seq![it] + s.skip(p));
        } else {
            assert(score_le(s.last().score, it.score));
            assert(insert_item(s, it) == s.push(it));
            assert(s.push(it) =~= s.take(p) + seq![it] + s.skip(p));
        }
    } else {
        assert(!score_le(s.last().score, it.score)) by {
            assert(s.last() == s[s.len() - 1]);
        }
        lemma_insert_item_at(s.drop_last(), it, p);
        assert(s.drop_last().take(p) =~= s.take(p));
        assert(insert_item(s, it) == insert_item(s.drop_last(), it).push(s.last()));
        assert((s.drop_last().take(p) + seq![it] + s.drop_last().skip(p)).push(s.last()) =~= s.take(
            p,
        ) + seq![it] + s.skip(p));
    }
}

/// Sorts candidates ascending by score; insertion keeps the given relative
/// order among equal scores.
#[verifier::loop_isolation(false)]
pub fn sort_items_exec(items: Vec<Item>) -> (r: Vec<Item>)
    ensures
        item_views(r@) == sort_items(item_views(items@)),
{
    let n = items.len();
    let mut out: Vec<Item> = Vec::new();
    let mut i: usize = 0;
    proof {
        assert(item_views(out@) =~= Seq::<ItemView>::empty());
        assert(item_views(items@.take(0)) =~= Seq::<ItemView>::empty());
    }
    while i < n
        invariant
            0 <= i <= n,
            n == items@.len(),
            item_views(out@) == sort_items(item_views(items@.take(i as int))),
        decreases n - i,
    {
        let ghost pre: Seq<ItemView> = item_views(out@);
        let it = Item { val: items[i].val.clone(), score: items[i].score };
        proof {
            assert(it@ == items@[i as int]@);
            assert(item_views(items@.take(i + 1)).drop_last() =~= item_views(
                items@.take(i as int),
            ));
            assert(item_views(items@.take(i + 1)).last() == items@[i as int]@);
        }
        let mut p: usize = out.len();
        while p > 0 && !score_le_exec(out[p - 1].score, it.score)
            invariant
                0 <= p <= out@.len(),
                forall|j: int|
                    p <= j < out@.len() ==> !score_le((#[trigger] pre[j]).score, it@.score),
                pre == item_views(out@),
            decreases p,
        {
            p = p - 1;
        }
        proof {
            lemma_insert_item_at(pre, it@, p as int);
        }
        out.insert(p, it);
        proof {
            assert(item_views(out@) =~= pre.take(p as int) + seq![items@[i as int]@] + pre.skip(
                p as int,
            ));
        }
        i = i + 1;
    }
    proof {
        assert(items@.take(n as int) =~= items@);
    }
    out
}

// ---------------------------------------------------------------------------
// Laws of deduplication and ranking.
// ---------------------------------------------------------------------------

/// Scores never decrease along the sequence.
pub open spec fn sorted_by_score(s: Seq<ItemView>) -> bool {
    forall|i: int, j: int| 0 <= i <= j < s.len() ==> score_le(s[i].score, s[j].score)
}

/// No two entries share a value.
pub open spec fn unique_vals(s: Seq<ItemView>) -> bool {
    forall|i: int, j: int| 0 <= i < j < s.len() ==> s[i].val != s[j].val
}

proof fn lemma_index_of_val_ge(s: Seq<ItemView>, val: Seq<char>)
    ensures
        index_of_val(s, val) >= -1,
    decreases s.len(),
{
    if s.len() > 0 {
        lemma_index_of_val_ge(s.drop_first(), val);
    }
}

proof fn lemma_index_of_val_none(s: Seq<ItemView>, val: Seq<char>)
    requires
        index_of_val(s, val) == -1,
    ensures
        forall|j: int| 0 <= j < s.len() ==> (#[trigger] s[j]).val != val,
    decreases s.len(),
{
    if s.len() > 0 {
        assert(s[0].val != val);
        lemma_index_of_val_ge(s.drop_first(), val);
        assert(index_of_val(s.drop_first(), val) == -1);
        lemma_index_of_val_none(s.drop_first(), val);
        assert(forall|j: int| 1 <= j < s.len() ==> s[j] == s.drop_first()[j - 1]);
    }
}

/// The deduplication laws, as one predicate: the surviving candidates `d`
/// of an input collection `items` have pairwise distinct values, each
/// survivor occurs among the inputs and carries the minimum score among the
/// inputs sharing its value, and every input value survives.
pub open spec fn dedup_props(items: Seq<ItemView>, d: Seq<ItemView>) -> bool {
    &&& unique_vals(d)
    &&& (forall|i: int| 0 <= i < d.len() ==> items.contains(#[trigger] d[i]))
    &&& (forall|i: int, k: int|
        0 <= i < d.len() && 0 <= k < items.len() && (#[trigger] items[k]).val == (
        #[trigger] d[i]).val ==> score_le(d[i].score, items[k].score))
    &&& (forall|k: int|
        0 <= k < items.len() ==> exists|i: int|
            0 <= i < d.len() && (#[trigger] d[i]).val == (#[trigger] items[k]).val)
}

#[verifier::rlimit(100)]
proof fn lemma_dedup_step_new(prev: Seq<ItemView>, it: ItemView)
    requires
        dedup_props(prev, dedup_best(prev)),
        index_of_val(dedup_best(prev), it.val) == -1,
    ensures
        dedup_props(prev.push(it), dedup_best(prev).push(it)),
{
    let d0 = dedup_best(prev);
    let items = prev.push(it);
    let d = d0.push(it);
    lemma_index_of_val_none(d0, it.val);
    assert(forall|k: int| 0 <= k < prev.len() ==> items[k] == prev[k]);
    assert(items[items.len() - 1] == it);
    assert(forall|i: int| 0 <= i < d0.len() ==> d[i] == d0[i]);
    assert(d[d.len() - 1] == it);
    assert(forall|x: ItemView| prev.contains(x) ==> items.contains(x));
    assert(items.contains(it)) by {
        assert(items[items.len() - 1] == it);
    }
    assert forall|i: int, k: int|
        0 <= i < d.len() && 0 <= k < items.len() && (#[trigger] items[k]).val == (
        #[trigger] d[i]).val implies score_le(d[i].score, items[k].score) by {
        if i < d0.len() {
            if k < prev.len() {
                assert(score_le(d0[i].score, prev[k].score));
            } else {
                // the new input's value is fresh among the survivors
                assert(d0[i].val != it.val);
                assert(false);
            }
        } else {
            assert(d[i] == it);
            if k < prev.len() {
                let i0 = choose|i0: int|
                    0 <= i0 < d0.len() && (#[trigger] d0[i0]).val == prev[k].val;
                assert(d0[i0].val != it.val);
                assert(false);
            } else {
                assert(items[k] == it);
            }
        }
    }
    assert forall|k: int| 0 <= k < items.len() implies exists|i: int|
        0 <= i < d.len() && (#[trigger] d[i]).val == (#[trigger] items[k]).val by {
        if k < prev.len() {
            let i0 = choose|i0: int| 0 <= i0 < d0.len() && (#[trigger] d0[i0]).val == prev[k].val;
            assert(d[i0].val == items[k].val);
        } else {
            assert(d[d.len() - 1].val == items[k].val);
        }
    }
}

#[verifier::rlimit(100)]
proof fn lemma_dedup_step_update(prev: Seq<ItemView>, it: ItemView)
    requires
        dedup_props(prev, dedup_best(prev)),
        index_of_val(dedup_best(prev), it.val) != -1,
        score_lt(it.score, dedup_best(prev)[index_of_val(dedup_best(prev), it.val)].score),
    ensures
        dedup_props(
            prev.push(it),
            dedup_best(prev).update(index_of_val(dedup_best(prev), it.val), it),
        ),
{
    let d0 = dedup_best(prev);
    let idx = index_of_val(d0, it.val);
    lemma_index_of_val_found(d0, it.val);
    let items = prev.push(it);
    let d = d0.update(idx, it);
    assert(forall|k: int| 0 <= k < prev.len() ==> items[k] == prev[k]);
    assert(items[items.len() - 1] == it);
    assert(d.len() == d0.len());
    assert(forall|i: int| 0 <= i < d.len() && i != idx ==> d[i] == d0[i]);
    assert(d[idx] == it);
    assert(unique_vals(d)) by {
        assert(forall|i: int| 0 <= i < d.len() ==> (#[trigger] d[i]).val == d0[i].val);
    }
    assert(forall|x: ItemView| prev.contains(x) ==> items.contains(x));
    assert(items.contains(it)) by {
        assert(items[items.len() - 1] == it);
    }
    assert forall|i: int, k: int|
        0 <= i < d.len() && 0 <= k < items.len() && (#[trigger] items[k]).val == (
        #[trigger] d[i]).val implies score_le(d[i].score, items[k].score) by {
        if k < prev.len() {
            if i == idx {
                assert(score_le(d0[idx].score, prev[k].score));
            } else {
                assert(score_le(d0[i].score, prev[k].score));
            }
        } else {
            assert(items[k] == it);
            if i != idx {
                assert(d0[i].val != d0[idx].val);
                assert(false);
            }
        }
    }
    assert forall|k: int| 0 <= k < items.len() implies exists|i: int|
        0 <= i < d.len() && (#[trigger] d[i]).val == (#[trigger] items[k]).val by {
        if k < prev.len() {
            let i0 = choose|i0: int| 0 <= i0 < d0.len() && (#[trigger] d0[i0]).val == prev[k].val;
            assert(d[i0].val == items[k].val);
        } else {
            assert(d[idx].val == items[k].val);
        }
    }
}

#[verifier::rlimit(100)]
proof fn lemma_dedup_step_keep(prev: Seq<ItemView>, it: ItemView)
    requires
        dedup_props(prev, dedup_best(prev)),
        index_of_val(dedup_best(prev), it.val) != -1,
        !score_lt(it.score, dedup_best(prev)[index_of_val(dedup_best(prev), it.val)].score),
    ensures
        dedup_props(prev.push(it), dedup_best(prev)),
{
    let d0 = dedup_best(prev);
    let idx = index_of_val(d0, it.val);
    lemma_index_of_val_found(d0, it.val);
    let items = prev.push(it);
    assert(forall|k: int| 0 <= k < prev.len() ==> items[k] == prev[k]);
    assert(items[items.len() - 1] == it);
    assert(forall|x: ItemView| prev.contains(x) ==> items.contains(x));
    assert forall|i: int, k: int|
        0 <= i < d0.len() && 0 <= k < items.len() && (#[trigger] items[k]).val == (
        #[trigger] d0[i]).val implies score_le(d0[i].score, items[k].score) by {
        if k < prev.len() {
            assert(score_le(d0[i].score, prev[k].score));
        } else {
            assert(items[k] == it);
            if i == idx {
                assert(score_le(d0[idx].score, it.score));
            } else {
                assert(d0[i].val != d0[idx].val);
                assert(false);
            }
        }
    }
    assert forall|k: int| 0 <= k < items.len() implies exists|i: int|
        0 <= i < d0.len() && (#[trigger] d0[i]).val == (#[trigger] items[k]).val by {
        if k < prev.len() {
            let i0 = choose|i0: int| 0 <= i0 < d0.len() && (#[trigger] d0[i0]).val == prev[k].val;
            assert(d0[i0].val == items[k].val);
        } else {
            assert(d0[idx].val == items[k].val);
        }
    }
}

/// The deduplication laws hold of every candidate collection.
pub proof fn lemma_dedup_best_props(items: Seq<ItemView>)
    ensures
        dedup_props(items, dedup_best(items)),
    decreases items.len(),
{
    if items.len() == 0 {
    } else {
        let prev = items.drop_last();
        let it = items.last();
        lemma_dedup_best_props(prev);
        assert(prev.push(it) =~= items);
        let d0 = dedup_best(prev);
        assert(dedup_best(items) == dedup_step(d0, it));
        let idx = index_of_val(d0, it.val);
        if idx == -1 {
            lemma_dedup_step_new(prev, it);
        } else if score_lt(it.score, d0[idx].score) {
            lemma_dedup_step_update(prev, it);
        } else {
            lemma_dedup_step_keep(prev, it);
        }
    }
}

#[verifier::rlimit(100)]
proof fn lemma_insert_item_props(s: Seq<ItemView>, it: ItemView)
    ensures
        insert_item(s, it).len() == s.len() + 1,
        forall|i: int|
            0 <= i < insert_item(s, it).len() ==> s.contains(#[trigger] insert_item(s, it)[i])
                || insert_item(s, it)[i] == it,
        forall|k: int| 0 <= k < s.len() ==> insert_item(s, it).contains(#[trigger] s[k]),
        insert_item(s, it).contains(it),
        sorted_by_score(s) ==> sorted_by_score(insert_item(s, it)),
        (unique_vals(s) && (forall|k: int| 0 <= k < s.len() ==> (#[trigger] s[k]).val != it.val))
            ==> unique_vals(insert_item(s, it)),
    decreases s.len(),
{
    let r = insert_item(s, it);
    if s.len() == 0 {
        assert(r == seq![it]);
        assert(r[0] == it);
    } else if score_le(s.last().score, it.score) {
        assert(r == s.push(it));
        assert(forall|i: int| 0 <= i < s.len() ==> r[i] == s[i]);
        assert(r[s.len() as int] == it);
        assert forall|k: int| 0 <= k < s.len() implies r.contains(#[trigger] s[k]) by {
            assert(r[k] == s[k]);
        }
        assert forall|i: int|
            0 <= i < r.len() implies s.contains(#[trigger] r[i]) || r[i] == it by {
            if i < s.len() {
                assert(s[i] == r[i]);
            }
        }
        if sorted_by_score(s) {
            assert forall|i: int, j: int|
                0 <= i <= j < r.len() implies score_le(r[i].score, r[j].score) by {
                if j < s.len() {
                } else if i < s.len() {
                    assert(score_le(s[i].score, s.last().score));
                }
            }
        }
    } else {
        lemma_insert_item_props(s.drop_last(), it);
        let r0 = insert_item(s.drop_last(), it);
        assert(r == r0.push(s.last()));
        assert(forall|i: int| 0 <= i < r0.len() ==> r[i] == r0[i]);
        assert(r[r.len() - 1] == s.last());
        assert(forall|k: int| 0 <= k < s.len() - 1 ==> s.drop_last()[k] == s[k]);
        assert forall|i: int|
            0 <= i < r.len() implies s.contains(#[trigger] r[i]) || r[i] == it by {
            if i < r0.len() {
                if s.drop_last().contains(r0[i]) {
                    let j = choose|j: int|
                        0 <= j < s.drop_last().len() && s.drop_last()[j] == r0[i];
                    assert(s[j] == r[i]);
                }
            } else {
                assert(s[s.len() - 1] == r[i]);
            }
        }
        assert forall|k: int| 0 <= k < s.len() implies r.contains(#[trigger] s[k]) by {
            if k < s.len() - 1 {
                assert(r0.contains(s.drop_last()[k]));
                let j = choose|j: int| 0 <= j < r0.len() && r0[j] == s.drop_last()[k];
                assert(r[j] == s[k]);
            } else {
                assert(r[r.len() - 1] == s[k]);
            }
        }
        assert(r.contains(it)) by {
            assert(r0.contains(it));
            let j = choose|j: int| 0 <= j < r0.len() && r0[j] == it;
            assert(r[j] == it);
        }
        if sorted_by_score(s) {
            assert(sorted_by_score(s.drop_last()));
            assert(score_le(it.score, s.last().score));
            assert forall|i: int, j: int|
                0 <= i <= j < r.len() implies score_le(r[i].score, r[j].score) by {
                if j < r0.len() {
                } else if i < r0.len() {
                    // the moved-up last element exceeds it and every earlier element
                    if s.drop_last().contains(r0[i]) {
                        let k = choose|k: int|
                            0 <= k < s.drop_last().len() && s.drop_last()[k] == r0[i];
                        assert(score_le(s[k].score, s.last().score));
                    } else {
                        assert(r0[i] == it);
                    }
                }
            }
        }
        if unique_vals(s) && (forall|k: int|
            0 <= k < s.len() ==> (#[trigger] s[k]).val != it.val) {
            assert(unique_vals(s.drop_last()));
            assert(forall|k: int|
                0 <= k < s.drop_last().len() ==> (#[trigger] s.drop_last()[k]).val != it.val);
            assert(unique_vals(r0));
            assert forall|i: int, j: int| 0 <= i < j < r.len() implies r[i].val != r[j].val by {
                if j < r0.len() {
                } else {
                    // r[j] is the old last element of s
                    if s.drop_last().contains(r0[i]) {
                        let k = choose|k: int|
                            0 <= k < s.drop_last().len() && s.drop_last()[k] == r0[i];
                        assert(s[k].val != s[s.len() - 1].val);
                    } else {
                        assert(r0[i] == it);
                        assert(s[s.len() - 1].val != it.val);
                    }
                }
            }
        }
    }
}

#[verifier::rlimit(100)]
proof fn lemma_sort_items_props(s: Seq<ItemView>)
    requires
        unique_vals(s),
    ensures
        sort_items(s).len() == s.len(),
        forall|i: int| 0 <= i < sort_items(s).len() ==> s.contains(#[trigger] sort_items(s)[i]),
        forall|k: int| 0 <= k < s.len() ==> sort_items(s).contains(#[trigger] s[k]),
        sorted_by_score(sort_items(s)),
        unique_vals(sort_items(s)),
    decreases s.len(),
{
    if s.len() == 0 {
    } else {
        let prev = s.drop_last();
        let it = s.last();
        assert(forall|i: int| 0 <= i < prev.len() ==> prev[i] == s[i]);
        assert(unique_vals(prev));
        lemma_sort_items_props(prev);
        let s0 = sort_items(prev);
        lemma_insert_item_props(s0, it);
        let r = sort_items(s);
        assert(r == insert_item(s0, it));
        // the new value is fresh among the sorted prefix
        assert forall|k: int| 0 <= k < s0.len() implies (#[trigger] s0[k]).val != it.val by {
            assert(prev.contains(s0[k]));
            let j = choose|j: int| 0 <= j < prev.len() && prev[j] == s0[k];
            assert(s[j] == s0[k]);
            assert(s[j].val != s[s.len() - 1].val);
        }
        assert forall|i: int| 0 <= i < r.len() implies s.contains(#[trigger] r[i]) by {
            if s0.contains(r[i]) {
                let j = choose|j: int| 0 <= j < s0.len() && s0[j] == r[i];
                assert(prev.contains(s0[j]));
                let j2 = choose|j2: int| 0 <= j2 < prev.len() && prev[j2] == s0[j];
                assert(s[j2] == r[i]);
            } else {
                assert(r[i] == it);
                assert(s[s.len() - 1] == r[i]);
            }
        }
        assert forall|k: int| 0 <= k < s.len() implies r.contains(#[trigger] s[k]) by {
            if k < s.len() - 1 {
                assert(s0.contains(prev[k]));
                let j = choose|j: int| 0 <= j < s0.len() && s0[j] == prev[k];
                assert(r.contains(s0[j]));
            } else {
                assert(r.contains(it));
            }
        }
    }
}

/// The ranking laws: the rank-ordered list of a candidate collection is
/// ascending in score; no two of its entries share a value; each entry is one
/// of the collected candidates and scores no worse than any candidate sharing
/// its value; and every collected candidate's value appears.
#[verifier::rlimit(100)]
pub proof fn lemma_rank_spec_properties(items: Seq<ItemView>)
    ensures
        sorted_by_score(rank_spec(items)),
        unique_vals(rank_spec(items)),
        forall|i: int|
            0 <= i < rank_spec(items).len() ==> items.contains(#[trigger] rank_spec(items)[i]),
        forall|i: int, k: int|
            0 <= i < rank_spec(items).len() && 0 <= k < items.len() && (#[trigger] items[k]).val
                == (#[trigger] rank_spec(items)[i]).val ==> score_le(
                rank_spec(items)[i].score,
                items[k].score,
            ),
        forall|k: int|
            0 <= k < items.len() ==> exists|i: int|
                0 <= i < rank_spec(items).len() && (#[trigger] rank_spec(items)[i]).val == (
                #[trigger] items[k]).val,
{
    lemma_dedup_best_props(items);
    let d = dedup_best(items);
    lemma_sort_items_props(d);
    let r = rank_spec(items);
    assert(r == sort_items(d));
    assert forall|i: int| 0 <= i < r.len() implies items.contains(#[trigger] r[i]) by {
        assert(d.contains(r[i]));
        let j = choose|j: int| 0 <= j < d.len() && d[j] == r[i];
        assert(items.contains(d[j]));
    }
    assert forall|i: int, k: int|
        0 <= i < r.len() && 0 <= k < items.len() && (#[trigger] items[k]).val == (
        #[trigger] r[i]).val implies score_le(r[i].score, items[k].score) by {
        assert(d.contains(r[i]));
        let j = choose|j: int| 0 <= j < d.len() && d[j] == r[i];
        assert(score_le(d[j].score, items[k].score));
    }
    assert forall|k: int| 0 <= k < items.len() implies exists|i: int|
        0 <= i < r.len() && (#[trigger] r[i]).val == (#[trigger] items[k]).val by {
        let j = choose|j: int| 0 <= j < d.len() && (#[trigger] d[j]).val == items[k].val;
        assert(r.contains(d[j]));
        let i = choose|i: int| 0 <= i < r.len() && r[i] == d[j];
        assert(r[i].val == items[k].val);
    }
}

/// The rank-ordered candidate list of one page and one kind.
pub fn rank_items(items: Vec<Item>) -> (r: Vec<Item>)
    ensures
        item_views(r@) == rank_spec(item_views(items@)),
{
    let d = dedup_items(items);
    sort_items_exec(d)
}

} // verus!
