//! The mathematical model of the store: sequences of writes and the maps
//! they add up to.
//!
//! A key is modelled by its rank, a record by `Some(value)` or `None` for a
//! deletion, a write by the pair of the two.

use vstd::prelude::*;

verus! {

/// The map that a sequence of writes adds up to: for each key the record
/// written last.
pub open spec fn fold_entries(s: Seq<(u128, Option<Seq<u8>>)>) -> Map<u128, Option<Seq<u8>>>
    decreases s.len(),
{
    if s.len() == 0 {
        Map::empty()
    } else {
        fold_entries(s.drop_last()).insert(s.last().0, s.last().1)
    }
}

/// The keys of the sequence ascend strictly.
pub open spec fn strictly_sorted(s: Seq<(u128, Option<Seq<u8>>)>) -> bool {
    forall|i: int, j: int| 0 <= i < j < s.len() ==> s[i].0 < s[j].0
}

/// What a map holds for a key, if anything.
pub open spec fn lookup(m: Map<u128, Option<Seq<u8>>>, k: u128) -> Option<Option<Seq<u8>>> {
    if m.dom().contains(k) {
        Some(m[k])
    } else {
        None
    }
}

/// What a reader of the store is told: the value, unless the key is absent
/// or deleted.
pub open spec fn visible(r: Option<Option<Seq<u8>>>) -> Option<Seq<u8>> {
    match r {
        Some(Some(v)) => Some(v),
        _ => None,
    }
}

/// The younger map laid over the older one: where both hold a key, the
/// younger record counts.
pub open spec fn overlay(
    young: Map<u128, Option<Seq<u8>>>,
    old: Map<u128, Option<Seq<u8>>>,
) -> Map<u128, Option<Seq<u8>>> {
    old.union_prefer_right(young)
}

/// A stack of maps, youngest first, seen as one map.
pub open spec fn stack(layers: Seq<Map<u128, Option<Seq<u8>>>>) -> Map<u128, Option<Seq<u8>>>
    decreases layers.len(),
{
    if layers.len() == 0 {
        Map::empty()
    } else {
        overlay(layers.first(), stack(layers.drop_first()))
    }
}

/// The keys of the map are the keys that occur in the sequence.
pub proof fn lemma_fold_dom(s: Seq<(u128, Option<Seq<u8>>)>)
    ensures
        fold_entries(s).dom().finite(),
        forall|k: u128|
            fold_entries(s).dom().contains(k) <==> exists|i: int|
                0 <= i < s.len() && #[trigger] s[i].0 == k,
    decreases s.len(),
{
    if s.len() > 0 {
        let p = s.drop_last();
        lemma_fold_dom(p);
        assert forall|k: u128|
            fold_entries(s).dom().contains(k) <==> exists|i: int|
                0 <= i < s.len() && #[trigger] s[i].0 == k by {
            if fold_entries(s).dom().contains(k) {
                if k == s.last().0 {
                    assert(s[s.len() - 1].0 == k);
                } else {
                    let i = choose|i: int| 0 <= i < p.len() && #[trigger] p[i].0 == k;
                    assert(s[i].0 == k);
                }
            }
            if exists|i: int| 0 <= i < s.len() && #[trigger] s[i].0 == k {
                let i = choose|i: int| 0 <= i < s.len() && #[trigger] s[i].0 == k;
                if i < s.len() - 1 {
                    assert(p[i].0 == k);
                }
            }
        }
    }
}

/// The last write to a key decides what the map holds for it.
pub proof fn lemma_fold_last_write(s: Seq<(u128, Option<Seq<u8>>)>, i: int)
    requires
        0 <= i < s.len(),
        forall|j: int| i < j < s.len() ==> s[j].0 != s[i].0,
    ensures
        lookup(fold_entries(s), s[i].0) == Some(s[i].1),
    decreases s.len(),
{
    if i < s.len() - 1 {
        let p = s.drop_last();
        assert(s[s.len() - 1].0 != s[i].0);
        assert forall|j: int| i < j < p.len() implies p[j].0 != p[i].0 by {
            assert(s[j].0 != s[i].0);
        }
        lemma_fold_last_write(p, i);
    }
}

/// A key that no write names is not in the map.
pub proof fn lemma_fold_untouched(s: Seq<(u128, Option<Seq<u8>>)>, k: u128)
    requires
        forall|i: int| 0 <= i < s.len() ==> s[i].0 != k,
    ensures
        lookup(fold_entries(s), k) == None::<Option<Seq<u8>>>,
{
    lemma_fold_dom(s);
}

/// In a strictly sorted sequence every entry is what the map holds for its key.
pub proof fn lemma_fold_sorted(s: Seq<(u128, Option<Seq<u8>>)>, i: int)
    requires
        strictly_sorted(s),
        0 <= i < s.len(),
    ensures
        lookup(fold_entries(s), s[i].0) == Some(s[i].1),
{
    lemma_fold_last_write(s, i);
}

/// A strictly sorted sequence has as many entries as its map has keys.
pub proof fn lemma_sorted_len(s: Seq<(u128, Option<Seq<u8>>)>)
    requires
        strictly_sorted(s),
    ensures
        fold_entries(s).dom().finite(),
        fold_entries(s).dom().len() == s.len(),
    decreases s.len(),
{
    if s.len() > 0 {
        let p = s.drop_last();
        assert(strictly_sorted(p)) by {
            assert forall|i: int, j: int| 0 <= i < j < p.len() implies p[i].0 < p[j].0 by {
                assert(s[i].0 < s[j].0);
            }
        }
        lemma_sorted_len(p);
        lemma_fold_dom(p);
        assert(!fold_entries(p).dom().contains(s.last().0)) by {
            if fold_entries(p).dom().contains(s.last().0) {
                let i = choose|i: int| 0 <= i < p.len() && #[trigger] p[i].0 == s.last().0;
                assert(s[i].0 < s[s.len() - 1].0);
            }
        }
        assert(fold_entries(s).dom() =~= fold_entries(p).dom().insert(s.last().0));
    } else {
        assert(fold_entries(s).dom() =~= Set::empty());
    }
}

/// A strictly sorted sequence is determined by the map it adds up to.
pub proof fn lemma_sorted_unique(a: Seq<(u128, Option<Seq<u8>>)>, b: Seq<(u128, Option<Seq<u8>>)>)
    requires
        strictly_sorted(a),
        strictly_sorted(b),
        fold_entries(a) == fold_entries(b),
    ensures
        a == b,
    decreases a.len(),
{
    lemma_fold_dom(a);
    lemma_fold_dom(b);
    if a.len() == 0 {
        if b.len() > 0 {
            assert(b[0].0 == b[0].0);
            assert(fold_entries(b).dom().contains(b[0].0));
        }
        assert(a =~= b);
    } else if b.len() == 0 {
        assert(a[0].0 == a[0].0);
        assert(fold_entries(a).dom().contains(a[0].0));
    } else {
        let la = a.last();
        let lb = b.last();
        // the largest key of each is a key of the other
        assert(a[a.len() - 1].0 == la.0);
        assert(b[b.len() - 1].0 == lb.0);
        assert(fold_entries(b).dom().contains(la.0));
        assert(fold_entries(a).dom().contains(lb.0));
        let ib = choose|i: int| 0 <= i < b.len() && #[trigger] b[i].0 == la.0;
        let ia = choose|i: int| 0 <= i < a.len() && #[trigger] a[i].0 == lb.0;
        assert(la.0 == lb.0) by {
            if ib < b.len() - 1 {
                assert(b[ib].0 < b[b.len() - 1].0);
            }
            if ia < a.len() - 1 {
                assert(a[ia].0 < a[a.len() - 1].0);
            }
        }
        lemma_fold_sorted(a, a.len() - 1);
        lemma_fold_sorted(b, b.len() - 1);
        assert(la.1 == lb.1);
        let pa = a.drop_last();
        let pb = b.drop_last();
        assert(strictly_sorted(pa)) by {
            assert forall|i: int, j: int| 0 <= i < j < pa.len() implies pa[i].0 < pa[j].0 by {
                assert(a[i].0 < a[j].0);
            }
        }
        assert(strictly_sorted(pb)) by {
            assert forall|i: int, j: int| 0 <= i < j < pb.len() implies pb[i].0 < pb[j].0 by {
                assert(b[i].0 < b[j].0);
            }
        }
        lemma_fold_dom(pa);
        lemma_fold_dom(pb);
        assert(!fold_entries(pa).dom().contains(la.0)) by {
            if fold_entries(pa).dom().contains(la.0) {
                let i = choose|i: int| 0 <= i < pa.len() && #[trigger] pa[i].0 == la.0;
                assert(a[i].0 < a[a.len() - 1].0);
            }
        }
        assert(!fold_entries(pb).dom().contains(lb.0)) by {
            if fold_entries(pb).dom().contains(lb.0) {
                let i = choose|i: int| 0 <= i < pb.len() && #[trigger] pb[i].0 == lb.0;
                assert(b[i].0 < b[b.len() - 1].0);
            }
        }
        assert(fold_entries(pa) =~= fold_entries(a).remove(la.0));
        assert(fold_entries(pb) =~= fold_entries(b).remove(lb.0));
        lemma_sorted_unique(pa, pb);
        assert(a =~= pa.push(la));
        assert(b =~= pb.push(lb));
    }
}

/// A lookup in the younger map laid over the older one is answered by the
/// younger map where it holds the key, and by the older one where it does not.
pub proof fn lemma_overlay_lookup(
    young: Map<u128, Option<Seq<u8>>>,
    old: Map<u128, Option<Seq<u8>>>,
    k: u128,
)
    ensures
        lookup(overlay(young, old), k) == if lookup(young, k) is Some {
            lookup(young, k)
        } else {
            lookup(old, k)
        },
{
}

/// Taking one more entry of a sequence adds that entry's write to the map.
pub proof fn lemma_fold_take(s: Seq<(u128, Option<Seq<u8>>)>, i: int)
    requires
        0 <= i < s.len(),
    ensures
        fold_entries(s.take(i + 1)) == fold_entries(s.take(i)).insert(s[i].0, s[i].1),
        s.take(i + 1) == s.take(i).push(s[i]),
{
    assert(s.take(i + 1).drop_last() =~= s.take(i));
    assert(s.take(i + 1) =~= s.take(i).push(s[i]));
}

/// Adding a write at the end of a sequence adds it to the map.
pub proof fn lemma_fold_push(s: Seq<(u128, Option<Seq<u8>>)>, e: (u128, Option<Seq<u8>>))
    ensures
        fold_entries(s.push(e)) == fold_entries(s).insert(e.0, e.1),
{
    assert(s.push(e).drop_last() =~= s);
}

/// Where the first `t` maps of a stack do not hold a key and the next one
/// does, the stack holds for the key what that map holds.
pub proof fn lemma_stack_first_hit(layers: Seq<Map<u128, Option<Seq<u8>>>>, t: int, k: u128)
    requires
        0 <= t < layers.len(),
        forall|u: int| 0 <= u < t ==> !(#[trigger] layers[u]).dom().contains(k),
        layers[t].dom().contains(k),
    ensures
        lookup(stack(layers), k) == Some(layers[t][k]),
    decreases t,
{
    if t > 0 {
        let rest = layers.drop_first();
        assert(!layers[0].dom().contains(k));
        assert forall|u: int| 0 <= u < t - 1 implies !(#[trigger] rest[u]).dom().contains(k) by {
            assert(rest[u] == layers[u + 1]);
        }
        lemma_stack_first_hit(rest, t - 1, k);
    }
}

/// A stack of maps none of which holds a key does not hold the key.
pub proof fn lemma_stack_miss(layers: Seq<Map<u128, Option<Seq<u8>>>>, k: u128)
    requires
        forall|u: int| 0 <= u < layers.len() ==> !(#[trigger] layers[u]).dom().contains(k),
    ensures
        lookup(stack(layers), k) == None::<Option<Seq<u8>>>,
    decreases layers.len(),
{
    if layers.len() > 0 {
        let rest = layers.drop_first();
        assert(!layers[0].dom().contains(k));
        assert forall|u: int| 0 <= u < rest.len() implies !(#[trigger] rest[u]).dom().contains(
            k,
        ) by {
            assert(rest[u] == layers[u + 1]);
        }
        lemma_stack_miss(rest, k);
    }
}

/// A stack of one map is that map.
pub proof fn lemma_stack_one(m: Map<u128, Option<Seq<u8>>>)
    ensures
        stack(seq![m]) == m,
{
    let s = seq![m];
    assert(s.drop_first().len() == 0);
    assert(stack(s.drop_first()) =~= Map::empty());
    assert(stack(s) =~= m);
}

/// A stack of two maps is the first laid over the second.
pub proof fn lemma_stack_two(a: Map<u128, Option<Seq<u8>>>, b: Map<u128, Option<Seq<u8>>>)
    ensures
        stack(seq![a, b]) == overlay(a, b),
{
    let s = seq![a, b];
    assert(s.drop_first() =~= seq![b]);
    lemma_stack_one(b);
}

/// A stack of two stacks is the first laid over the second.
pub proof fn lemma_stack_concat(
    a: Seq<Map<u128, Option<Seq<u8>>>>,
    b: Seq<Map<u128, Option<Seq<u8>>>>,
)
    ensures
        stack(a + b) == overlay(stack(a), stack(b)),
    decreases a.len(),
{
    if a.len() == 0 {
        assert(a + b =~= b);
        assert(stack(a + b) =~= overlay(stack(a), stack(b)));
    } else {
        assert((a + b).drop_first() =~= a.drop_first() + b);
        lemma_stack_concat(a.drop_first(), b);
        assert(stack(a + b) =~= overlay(stack(a), stack(b)));
    }
}

/// The map after a sequence of writes to a store that held `before`.
pub open spec fn after_writes(
    before: Map<u128, Option<Seq<u8>>>,
    ops: Seq<(u128, Option<Seq<u8>>)>,
) -> Map<u128, Option<Seq<u8>>> {
    overlay(fold_entries(ops), before)
}

/// No write leaves the store as it was; one more write puts its record at
/// its key.
pub proof fn lemma_after_writes_step(
    before: Map<u128, Option<Seq<u8>>>,
    ops: Seq<(u128, Option<Seq<u8>>)>,
    e: (u128, Option<Seq<u8>>),
)
    ensures
        after_writes(before, Seq::empty()) == before,
        after_writes(before, ops.push(e)) == after_writes(before, ops).insert(e.0, e.1),
{
    lemma_fold_push(ops, e);
    assert(after_writes(before, Seq::empty()) =~= before);
    assert(after_writes(before, ops.push(e)) =~= after_writes(before, ops).insert(e.0, e.1));
}

/// Where the last write to a key puts a value, a read of the key gives that
/// value.
pub proof fn lemma_read_your_writes(
    before: Map<u128, Option<Seq<u8>>>,
    ops: Seq<(u128, Option<Seq<u8>>)>,
    i: int,
    v: Seq<u8>,
)
    requires
        0 <= i < ops.len(),
        ops[i].1 == Some(v),
        forall|j: int| i < j < ops.len() ==> ops[j].0 != ops[i].0,
    ensures
        visible(lookup(after_writes(before, ops), ops[i].0)) == Some(v),
{
    lemma_fold_last_write(ops, i);
}

/// Where the last write to a key is a deletion, a read of the key gives
/// nothing.
pub proof fn lemma_deleted_reads_none(
    before: Map<u128, Option<Seq<u8>>>,
    ops: Seq<(u128, Option<Seq<u8>>)>,
    i: int,
)
    requires
        0 <= i < ops.len(),
        ops[i].1 is None,
        forall|j: int| i < j < ops.len() ==> ops[j].0 != ops[i].0,
    ensures
        visible(lookup(after_writes(before, ops), ops[i].0)) == None::<Seq<u8>>,
{
    lemma_fold_last_write(ops, i);
}

/// A key that no write names reads as it did before the writes; in a store
/// that was empty, it reads as nothing.
pub proof fn lemma_untouched_reads_as_before(
    before: Map<u128, Option<Seq<u8>>>,
    ops: Seq<(u128, Option<Seq<u8>>)>,
    k: u128,
)
    requires
        forall|i: int| 0 <= i < ops.len() ==> ops[i].0 != k,
    ensures
        lookup(after_writes(before, ops), k) == lookup(before, k),
        before == Map::<u128, Option<Seq<u8>>>::empty() ==> visible(
            lookup(after_writes(before, ops), k),
        ) == None::<Seq<u8>>,
{
    lemma_fold_untouched(ops, k);
}

} // verus!
