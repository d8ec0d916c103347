use vstd::prelude::*;

use crate::item::Keyed;
use crate::order::{precedes, rank_better, precedes_at, rank_better_at, Entry};
use std::collections::HashSet;

verus! {

broadcast use vstd::std_specs::hash::group_hash_axioms;

/// The mathematical state of a bounded selector: the resident entries in
/// stored order (best first, eviction boundary last), the number of insert
/// calls made so far, the fixed capacity, the orientation and the
/// uniqueness switch.
#[verifier::ext_equal]
pub struct SelView<T> {
    pub items: Seq<Entry<T>>,
    pub pushed: usize,
    pub cap: usize,
    pub maxed: bool,
    pub uniq: bool,
}

/// The entries stand in strictly ascending distance from the boundary.
pub open spec fn sorted<T>(maxed: bool, s: Seq<Entry<T>>) -> bool {
    forall|i: int, j: int|
        #![trigger s[i], s[j]]
        0 <= i < j < s.len() ==> precedes(maxed, s[i], s[j])
}

/// Every arrival stamp was taken from the insert counter.
pub open spec fn stamps_ok<T>(s: Seq<Entry<T>>, pushed: usize) -> bool {
    forall|i: int| 0 <= i < s.len() ==> 1 <= (#[trigger] s[i]).seq <= pushed
}

/// No two residents carry the same arrival stamp.
pub open spec fn stamps_distinct<T>(s: Seq<Entry<T>>) -> bool {
    forall|i: int, j: int| #![trigger s[i], s[j]] 0 <= i < j < s.len() ==> s[i].seq != s[j].seq
}

/// No two residents carry the same logical key.
pub open spec fn keys_distinct<T>(s: Seq<Entry<T>>) -> bool {
    forall|i: int, j: int| #![trigger s[i], s[j]] 0 <= i < j < s.len() ==> s[i].key != s[j].key
}

/// The well-formedness invariant of a selector state.
pub open spec fn sel_wf<T>(v: SelView<T>) -> bool {
    &&& v.cap >= 1
    &&& v.items.len() <= v.cap
    &&& sorted(v.maxed, v.items)
    &&& stamps_ok(v.items, v.pushed)
    &&& stamps_distinct(v.items)
    &&& (v.uniq ==> keys_distinct(v.items))
}

/// Whether some entry of `s` carries exactly this rank.
pub open spec fn has_rank<T>(s: Seq<Entry<T>>, rank: u64) -> bool {
    exists|i: int| 0 <= i < s.len() && (#[trigger] s[i]).rank == rank
}

/// The set of logical keys resident in `s`.
pub open spec fn key_set<T>(s: Seq<Entry<T>>) -> Set<u64> {
    Set::new(|k: u64| exists|i: int| 0 <= i < s.len() && (#[trigger] s[i]).key == k)
}

/// The position at which `e` belongs in the sorted sequence `s`: the first
/// index whose entry `e` precedes, or the length if there is none.
pub open spec fn pos_of<T>(maxed: bool, s: Seq<Entry<T>>, e: Entry<T>) -> int
    decreases s.len(),
{
    if s.len() == 0 {
        0
    } else if precedes(maxed, e, s[0]) {
        0
    } else {
        1 + pos_of(maxed, s.drop_first(), e)
    }
}

/// `s` with `e` inserted at its sorted position.
pub open spec fn ins_sorted<T>(maxed: bool, s: Seq<Entry<T>>, e: Entry<T>) -> Seq<Entry<T>> {
    s.insert(pos_of(maxed, s, e), e)
}

/// The index of the first entry of `s` that carries `key`, or -1.
pub open spec fn key_idx<T>(s: Seq<Entry<T>>, key: u64) -> int
    decreases s.len(),
{
    if s.len() == 0 {
        -1
    } else if s[0].key == key {
        0
    } else if key_idx(s.drop_first(), key) < 0 {
        -1
    } else {
        1 + key_idx(s.drop_first(), key)
    }
}

/// The index of the first entry of `s` whose rank is `r`, or -1. On a
/// sorted sequence whose boundary rank is `r`, this is the latest arrival
/// among the boundary-rank residents: ranks weaken towards the boundary and
/// equal ranks stand youngest first, so the suffix from this index on is
/// exactly the boundary-rank group.
pub open spec fn rank_idx<T>(s: Seq<Entry<T>>, r: u64) -> int
    decreases s.len(),
{
    if s.len() == 0 {
        -1
    } else if s[0].rank == r {
        0
    } else if rank_idx(s.drop_first(), r) < 0 {
        -1
    } else {
        1 + rank_idx(s.drop_first(), r)
    }
}

/// The transition a single insert call makes on a selector state, paired
/// with the call's result. The result is `true` exactly when a new logical
/// entry was admitted; a duplicate key never counts as newly admitted, even
/// when it improves the stored entry in place. A full selector admits only
/// an entry whose rank strictly beats the boundary rank — a rank tie is
/// rejected, keeping the earlier arrivals — and it then evicts the latest
/// arrival among the boundary-rank residents.
pub open spec fn sel_step<T>(v: SelView<T>, key: u64, rank: u64, value: T) -> (SelView<T>, bool) {
    let p = (v.pushed + 1) as usize;
    let j = key_idx(v.items, key);
    if v.uniq && j >= 0 {
        if rank_better(v.maxed, rank, v.items[j].rank) {
            let e = Entry { key, rank, seq: v.items[j].seq, value };
            (
                SelView {
                    items: ins_sorted(v.maxed, v.items.remove(j), e),
                    pushed: p,
                    cap: v.cap,
                    maxed: v.maxed,
                    uniq: v.uniq,
                },
                false,
            )
        } else {
            (SelView { items: v.items, pushed: p, cap: v.cap, maxed: v.maxed, uniq: v.uniq }, false)
        }
    } else if v.items.len() < v.cap {
        let e = Entry { key, rank, seq: p, value };
        (
            SelView {
                items: ins_sorted(v.maxed, v.items, e),
                pushed: p,
                cap: v.cap,
                maxed: v.maxed,
                uniq: v.uniq,
            },
            true,
        )
    } else {
        let e = Entry { key, rank, seq: p, value };
        if rank_better(v.maxed, rank, v.items.last().rank) {
            let g = rank_idx(v.items, v.items.last().rank);
            (
                SelView {
                    items: ins_sorted(v.maxed, v.items.remove(g), e),
                    pushed: p,
                    cap: v.cap,
                    maxed: v.maxed,
                    uniq: v.uniq,
                },
                true,
            )
        } else {
            (SelView { items: v.items, pushed: p, cap: v.cap, maxed: v.maxed, uniq: v.uniq }, false)
        }
    }
}

/// `pos_of` returns a position within bounds, everything before it fails to
/// be preceded by `e`, and the entry at it (if any) is preceded by `e`.
pub proof fn lemma_pos_of<T>(maxed: bool, s: Seq<Entry<T>>, e: Entry<T>)
    ensures
        0 <= pos_of(maxed, s, e) <= s.len(),
        forall|j: int| 0 <= j < pos_of(maxed, s, e) ==> !precedes(maxed, e, #[trigger] s[j]),
        pos_of(maxed, s, e) < s.len() ==> precedes(maxed, e, s[pos_of(maxed, s, e)]),
    decreases s.len(),
{
    if s.len() == 0 {
    } else if precedes(maxed, e, s[0]) {
    } else {
        lemma_pos_of(maxed, s.drop_first(), e);
        let p = pos_of(maxed, s, e);
        assert forall|j: int| 0 <= j < p implies !precedes(maxed, e, #[trigger] s[j]) by {
            if j > 0 {
                assert(s.drop_first()[j - 1] == s[j]);
            }
        }
        if p < s.len() {
            assert(s.drop_first()[p - 1] == s[p]);
        }
    }
}

/// Any index with the properties of `pos_of` equals `pos_of`.
pub proof fn lemma_pos_of_unique<T>(maxed: bool, s: Seq<Entry<T>>, e: Entry<T>, i: int)
    requires
        0 <= i <= s.len(),
        forall|j: int| 0 <= j < i ==> !precedes(maxed, e, #[trigger] s[j]),
        i < s.len() ==> precedes(maxed, e, s[i]),
    ensures
        i == pos_of(maxed, s, e),
{
    lemma_pos_of(maxed, s, e);
    let p = pos_of(maxed, s, e);
    if i < p {
        assert(!precedes(maxed, e, s[i]));
    } else if p < i {
        assert(!precedes(maxed, e, s[p]));
    }
}

/// What `key_idx` finds: the first occurrence of the key, or none at all.
pub proof fn lemma_key_idx<T>(s: Seq<Entry<T>>, key: u64)
    ensures
        -1 <= key_idx(s, key) < s.len(),
        key_idx(s, key) >= 0 ==> s[key_idx(s, key)].key == key,
        forall|j: int| 0 <= j < key_idx(s, key) ==> (#[trigger] s[j]).key != key,
        key_idx(s, key) == -1 ==> forall|j: int| 0 <= j < s.len() ==> (#[trigger] s[j]).key != key,
    decreases s.len(),
{
    if s.len() == 0 {
    } else if s[0].key == key {
    } else {
        lemma_key_idx(s.drop_first(), key);
        let r = key_idx(s, key);
        if r >= 0 {
            assert(s.drop_first()[r - 1] == s[r]);
            assert forall|j: int| 0 <= j < r implies (#[trigger] s[j]).key != key by {
                if j > 0 {
                    assert(s.drop_first()[j - 1] == s[j]);
                }
            }
        } else {
            assert forall|j: int| 0 <= j < s.len() implies (#[trigger] s[j]).key != key by {
                if j > 0 {
                    assert(s.drop_first()[j - 1] == s[j]);
                }
            }
        }
    }
}

/// What `rank_idx` finds: the first occurrence of the rank, or none at all.
pub proof fn lemma_rank_idx<T>(s: Seq<Entry<T>>, r: u64)
    ensures
        -1 <= rank_idx(s, r) < s.len(),
        rank_idx(s, r) >= 0 ==> s[rank_idx(s, r)].rank == r,
        forall|j: int| 0 <= j < rank_idx(s, r) ==> (#[trigger] s[j]).rank != r,
        rank_idx(s, r) == -1 ==> forall|j: int| 0 <= j < s.len() ==> (#[trigger] s[j]).rank != r,
    decreases s.len(),
{
    if s.len() == 0 {
    } else if s[0].rank == r {
    } else {
        lemma_rank_idx(s.drop_first(), r);
        let g = rank_idx(s, r);
        if g >= 0 {
            assert(s.drop_first()[g - 1] == s[g]);
            assert forall|j: int| 0 <= j < g implies (#[trigger] s[j]).rank != r by {
                if j > 0 {
                    assert(s.drop_first()[j - 1] == s[j]);
                }
            }
        } else {
            assert forall|j: int| 0 <= j < s.len() implies (#[trigger] s[j]).rank != r by {
                if j > 0 {
                    assert(s.drop_first()[j - 1] == s[j]);
                }
            }
        }
    }
}

/// On a sorted, non-empty sequence, the first index carrying the boundary
/// rank opens the suffix that holds exactly the boundary-rank entries; its
/// entry is the latest arrival among them.
pub proof fn lemma_rank_idx_boundary<T>(maxed: bool, s: Seq<Entry<T>>)
    requires
        sorted(maxed, s),
        s.len() > 0,
    ensures
        0 <= rank_idx(s, s.last().rank) < s.len(),
        forall|j: int|
            rank_idx(s, s.last().rank) <= j < s.len() ==> (#[trigger] s[j]).rank == s.last().rank,
        forall|j: int|
            0 <= j < rank_idx(s, s.last().rank) ==> (#[trigger] s[j]).rank != s.last().rank,
{
    let r = s.last().rank;
    lemma_rank_idx(s, r);
    let g = rank_idx(s, r);
    if g == -1 {
        assert(s[s.len() - 1].rank == r);
    }
    assert forall|j: int| g <= j < s.len() implies (#[trigger] s[j]).rank == r by {
        if j > g {
            assert(precedes(maxed, s[g], s[j]));
        }
        if j < s.len() - 1 {
            assert(precedes(maxed, s[j], s[s.len() - 1]));
        }
    }
}

/// How `ins_sorted` lays the result out, index by index, and that it is
/// sorted again. The stamp of `e` must be fresh so that the order is total.
pub proof fn lemma_ins_sorted<T>(maxed: bool, s: Seq<Entry<T>>, e: Entry<T>)
    requires
        sorted(maxed, s),
        forall|i: int| 0 <= i < s.len() ==> (#[trigger] s[i]).seq != e.seq,
    ensures
        ins_sorted(maxed, s, e).len() == s.len() + 1,
        0 <= pos_of(maxed, s, e) <= s.len(),
        forall|i: int|
            0 <= i < pos_of(maxed, s, e) ==> #[trigger] ins_sorted(maxed, s, e)[i] == s[i],
        ins_sorted(maxed, s, e)[pos_of(maxed, s, e)] == e,
        forall|i: int|
            pos_of(maxed, s, e) < i < s.len() + 1 ==> #[trigger] ins_sorted(maxed, s, e)[i] == s[i
                - 1],
        sorted(maxed, ins_sorted(maxed, s, e)),
{
    lemma_pos_of(maxed, s, e);
    let p = pos_of(maxed, s, e);
    s.insert_ensures(p, e);
    let t = ins_sorted(maxed, s, e);
    assert forall|i: int| p < i < s.len() + 1 implies #[trigger] t[i] == s[i - 1] by {
        assert(t[(i - 1) + 1] == s[i - 1]);
    }
    assert forall|i: int, j: int| #![trigger t[i], t[j]] 0 <= i < j < t.len() implies precedes(
        maxed,
        t[i],
        t[j],
    ) by {
        if j < p {
            assert(t[i] == s[i] && t[j] == s[j]);
        } else if i < p && j == p {
            assert(t[i] == s[i]);
            crate::order::lemma_precedes_total(maxed, s[i], e);
        } else if i < p && j > p {
            assert(t[i] == s[i] && t[j] == s[j - 1]);
            if i == j - 1 {
                crate::order::lemma_precedes_total(maxed, s[i], e);
                crate::order::lemma_precedes_trans(maxed, s[i], e, e);
            }
        } else if i == p {
            assert(t[j] == s[j - 1]);
            if j - 1 == p {
                assert(precedes(maxed, e, s[p]));
            } else {
                crate::order::lemma_precedes_trans(maxed, e, s[p], s[j - 1]);
            }
        } else {
            assert(t[i] == s[i - 1] && t[j] == s[j - 1]);
        }
    }
}

/// Removing an index keeps the stored order and shifts the tail down.
pub proof fn lemma_remove_keeps<T>(maxed: bool, s: Seq<Entry<T>>, j: int)
    requires
        0 <= j < s.len(),
        sorted(maxed, s),
    ensures
        s.remove(j).len() == s.len() - 1,
        forall|i: int| 0 <= i < j ==> #[trigger] s.remove(j)[i] == s[i],
        forall|i: int| j <= i < s.len() - 1 ==> #[trigger] s.remove(j)[i] == s[i + 1],
        sorted(maxed, s.remove(j)),
{
    s.remove_ensures(j);
    let t = s.remove(j);
    assert forall|a: int, b: int| #![trigger t[a], t[b]] 0 <= a < b < t.len() implies precedes(
        maxed,
        t[a],
        t[b],
    ) by {
        let a2: int = if a < j { a } else { a + 1 };
        let b2: int = if b < j { b } else { b + 1 };
        assert(t[a] == s[a2] && t[b] == s[b2]);
    }
}

/// Inserting an entry adds its key to the key set.
pub proof fn lemma_key_set_insert<T>(maxed: bool, s: Seq<Entry<T>>, e: Entry<T>)
    ensures
        key_set(ins_sorted(maxed, s, e)) =~= key_set(s).insert(e.key),
{
    lemma_pos_of(maxed, s, e);
    let p = pos_of(maxed, s, e);
    s.insert_ensures(p, e);
    let t = ins_sorted(maxed, s, e);
    assert forall|i: int| p < i < s.len() + 1 implies #[trigger] t[i] == s[i - 1] by {
        assert(t[(i - 1) + 1] == s[i - 1]);
    }
    assert forall|k: u64| key_set(t).contains(k) implies key_set(s).insert(e.key).contains(k) by {
        let i = choose|i: int| 0 <= i < t.len() && (#[trigger] t[i]).key == k;
        if i < p {
            assert(s[i].key == k);
        } else if i > p {
            assert(s[i - 1].key == k);
        }
    }
    assert forall|k: u64| key_set(s).insert(e.key).contains(k) implies key_set(t).contains(k) by {
        if k == e.key {
            assert(t[p].key == k);
        } else {
            let i = choose|i: int| 0 <= i < s.len() && (#[trigger] s[i]).key == k;
            if i < p {
                assert(t[i].key == k);
            } else {
                assert(t[i + 1].key == k);
            }
        }
    }
}

/// Removing the only entry that carries a key deletes that key from the
/// key set.
pub proof fn lemma_key_set_remove<T>(s: Seq<Entry<T>>, j: int)
    requires
        0 <= j < s.len(),
        keys_distinct(s),
    ensures
        key_set(s.remove(j)) =~= key_set(s).remove(s[j].key),
{
    s.remove_ensures(j);
    let t = s.remove(j);
    assert forall|k: u64| key_set(t).contains(k) implies key_set(s).remove(s[j].key).contains(
        k,
    ) by {
        let i = choose|i: int| 0 <= i < t.len() && (#[trigger] t[i]).key == k;
        if i < j {
            assert(s[i].key == k);
        } else {
            assert(s[i + 1].key == k);
        }
    }
    assert forall|k: u64| key_set(s).remove(s[j].key).contains(k) implies key_set(t).contains(
        k,
    ) by {
        let i = choose|i: int| 0 <= i < s.len() && (#[trigger] s[i]).key == k;
        if i < j {
            assert(t[i].key == k);
        } else {
            assert(t[i - 1].key == k);
        }
    }
}

/// Inserting a fresh-stamped entry at its sorted position keeps every part
/// of the well-formedness invariant.
pub proof fn lemma_ins_wf<T>(maxed: bool, s: Seq<Entry<T>>, e: Entry<T>, p: usize, keyed: bool)
    requires
        sorted(maxed, s),
        stamps_ok(s, p),
        stamps_distinct(s),
        1 <= e.seq <= p,
        forall|i: int| 0 <= i < s.len() ==> (#[trigger] s[i]).seq != e.seq,
        keyed ==> keys_distinct(s),
        keyed ==> forall|i: int| 0 <= i < s.len() ==> (#[trigger] s[i]).key != e.key,
    ensures
        ins_sorted(maxed, s, e).len() == s.len() + 1,
        sorted(maxed, ins_sorted(maxed, s, e)),
        stamps_ok(ins_sorted(maxed, s, e), p),
        stamps_distinct(ins_sorted(maxed, s, e)),
        keyed ==> keys_distinct(ins_sorted(maxed, s, e)),
{
    lemma_ins_sorted(maxed, s, e);
    let q = pos_of(maxed, s, e);
    let t = ins_sorted(maxed, s, e);
    assert forall|a: int| 0 <= a < t.len() implies 1 <= (#[trigger] t[a]).seq <= p by {
        if a < q {
            assert(t[a] == s[a]);
        } else if a > q {
            assert(t[a] == s[a - 1]);
        }
    }
    assert forall|a: int, b: int| #![trigger t[a], t[b]] 0 <= a < b < t.len() implies t[a].seq
        != t[b].seq by {
        if a < q {
            assert(t[a] == s[a]);
        } else if a > q {
            assert(t[a] == s[a - 1]);
        }
        if b < q {
            assert(t[b] == s[b]);
        } else if b > q {
            assert(t[b] == s[b - 1]);
        }
    }
    if keyed {
        assert forall|a: int, b: int| #![trigger t[a], t[b]] 0 <= a < b < t.len() implies t[a].key
            != t[b].key by {
            if a < q {
                assert(t[a] == s[a]);
            } else if a > q {
                assert(t[a] == s[a - 1]);
            }
            if b < q {
                assert(t[b] == s[b]);
            } else if b > q {
                assert(t[b] == s[b - 1]);
            }
        }
    }
}

/// An insert call leads from a well-formed state to a well-formed state; it
/// always counts the call, never grows past the capacity, and never touches
/// the configuration.
pub proof fn lemma_step_wf<T>(v: SelView<T>, key: u64, rank: u64, value: T)
    requires
        sel_wf(v),
        v.pushed < usize::MAX,
    ensures
        sel_wf(sel_step(v, key, rank, value).0),
        sel_step(v, key, rank, value).0.pushed == v.pushed + 1,
        sel_step(v, key, rank, value).0.cap == v.cap,
        sel_step(v, key, rank, value).0.maxed == v.maxed,
        sel_step(v, key, rank, value).0.uniq == v.uniq,
{
    let p = (v.pushed + 1) as usize;
    let s = v.items;
    let j = key_idx(s, key);
    lemma_key_idx(s, key);
    assert(stamps_ok(s, p));
    if v.uniq && j >= 0 {
        if rank_better(v.maxed, rank, s[j].rank) {
            let e = Entry { key, rank, seq: s[j].seq, value };
            lemma_remove_keeps(v.maxed, s, j);
            let s2 = s.remove(j);
            assert forall|i: int| 0 <= i < s2.len() implies (#[trigger] s2[i]).seq != e.seq
                && 1 <= s2[i].seq <= p && s2[i].key != e.key by {
                if i < j {
                    assert(s2[i] == s[i]);
                } else {
                    assert(s2[i] == s[i + 1]);
                }
            }
            assert(stamps_distinct(s2) && keys_distinct(s2)) by {
                assert forall|a: int, b: int|
                    #![trigger s2[a], s2[b]]
                    0 <= a < b < s2.len() implies s2[a].seq != s2[b].seq && s2[a].key
                    != s2[b].key by {
                    let a2: int = if a < j { a } else { a + 1 };
                    let b2: int = if b < j { b } else { b + 1 };
                    assert(s2[a] == s[a2] && s2[b] == s[b2]);
                }
            }
            lemma_ins_wf(v.maxed, s2, e, p, v.uniq);
        }
    } else if s.len() < v.cap {
        let e = Entry { key, rank, seq: p, value };
        if v.uniq {
            assert(forall|i: int| 0 <= i < s.len() ==> (#[trigger] s[i]).key != e.key);
        }
        lemma_ins_wf(v.maxed, s, e, p, v.uniq);
    } else {
        let e = Entry { key, rank, seq: p, value };
        if rank_better(v.maxed, rank, s.last().rank) {
            lemma_rank_idx_boundary(v.maxed, s);
            let g = rank_idx(s, s.last().rank);
            lemma_remove_keeps(v.maxed, s, g);
            let s2 = s.remove(g);
            assert forall|i: int| 0 <= i < s2.len() implies (#[trigger] s2[i]).seq != e.seq
                && 1 <= s2[i].seq <= p && (v.uniq ==> s2[i].key != e.key) by {
                if i < g {
                    assert(s2[i] == s[i]);
                } else {
                    assert(s2[i] == s[i + 1]);
                }
            }
            assert(stamps_distinct(s2) && (v.uniq ==> keys_distinct(s2))) by {
                assert forall|a: int, b: int|
                    #![trigger s2[a], s2[b]]
                    0 <= a < b < s2.len() implies s2[a].seq != s2[b].seq && (v.uniq ==> s2[a].key
                    != s2[b].key) by {
                    let a2: int = if a < g { a } else { a + 1 };
                    let b2: int = if b < g { b } else { b + 1 };
                    assert(s2[a] == s[a2] && s2[b] == s[b2]);
                }
            }
            lemma_ins_wf(v.maxed, s2, e, p, v.uniq);
        }
    }
}

/// Find the index of the resident entry that carries `key`.
fn find_key<T>(v: &Vec<Entry<T>>, key: u64) -> (r: usize)
    requires
        key_idx(v@, key) >= 0,
    ensures
        r == key_idx(v@, key),
{
    proof {
        lemma_key_idx(v@, key);
    }
    let n = v.len();
    let mut i: usize = 0;
    loop
        invariant
            key_idx(v@, key) >= 0,
            n == v@.len(),
            i <= key_idx(v@, key) < n,
            v@[key_idx(v@, key)].key == key,
            forall|j: int| 0 <= j < key_idx(v@, key) ==> (#[trigger] v@[j]).key != key,
        decreases v@.len() - i,
    {
        if v[i].key == key {
            return i;
        }
        i = i + 1;
    }
}

/// Find by binary search the sorted position for a fresh-stamped entry.
fn position_for<T>(maxed: bool, v: &Vec<Entry<T>>, e: &Entry<T>) -> (r: usize)
    requires
        sorted(maxed, v@),
        forall|i: int| 0 <= i < v@.len() ==> (#[trigger] v@[i]).seq != e.seq,
    ensures
        r == pos_of(maxed, v@, *e),
        r <= v@.len(),
{
    let mut lo: usize = 0;
    let mut hi: usize = v.len();
    while lo < hi
        invariant
            lo <= hi <= v@.len(),
            sorted(maxed, v@),
            forall|i: int| 0 <= i < v@.len() ==> (#[trigger] v@[i]).seq != e.seq,
            forall|j: int| 0 <= j < lo ==> !precedes(maxed, *e, #[trigger] v@[j]),
            forall|j: int| hi <= j < v@.len() ==> precedes(maxed, *e, #[trigger] v@[j]),
        decreases hi - lo,
    {
        let mid = lo + (hi - lo) / 2;
        if precedes_at(maxed, e, &v[mid]) {
            proof {
                assert forall|j: int| mid <= j < v@.len() implies precedes(
                    maxed,
                    *e,
                    #[trigger] v@[j],
                ) by {
                    if j > mid {
                        crate::order::lemma_precedes_trans(maxed, *e, v@[mid as int], v@[j]);
                    }
                }
            }
            hi = mid;
        } else {
            proof {
                assert forall|j: int| 0 <= j <= mid implies !precedes(
                    maxed,
                    *e,
                    #[trigger] v@[j],
                ) by {
                    crate::order::lemma_precedes_total(maxed, *e, v@[mid as int]);
                    if j < mid {
                        crate::order::lemma_precedes_trans(maxed, v@[j], v@[mid as int], *e);
                        crate::order::lemma_precedes_total(maxed, *e, v@[j]);
                    }
                }
            }
            lo = mid + 1;
        }
    }
    proof {
        lemma_pos_of_unique(maxed, v@, *e, lo as int);
    }
    lo
}

/// The core bounded selector: it retains, among the entries offered to it,
/// the `cap` best-ranked under the configured orientation, with optional
/// key-uniqueness. The stored order always breaks exact rank ties by
/// arrival, which is what the stable container variants promise. The other
/// containers of this crate delegate to it, each fixing one configuration.
pub struct Selector<T> {
    /// The resident entries, in stored order: best first, boundary last.
    pub entries: Vec<Entry<T>>,
    /// The membership index of the uniqueness layer: exactly the keys of
    /// the resident entries whenever `uniq` is set.
    pub index: HashSet<u64>,
    /// The fixed capacity; at least 1.
    pub cap: usize,
    /// How many insert calls were made, duplicates and rejections included.
    pub pushed: usize,
    /// Orientation: keep the greatest ranks instead of the least.
    pub maxed: bool,
    /// Uniqueness: at most one resident entry per logical key.
    pub uniq: bool,
}

impl<T> View for Selector<T> {
    type V = SelView<T>;

    open spec fn view(&self) -> SelView<T> {
        SelView {
            items: self.entries@,
            pushed: self.pushed,
            cap: self.cap,
            maxed: self.maxed,
            uniq: self.uniq,
        }
    }
}

impl<T> Selector<T> {
    /// The selector's invariant: a well-formed state whose membership index
    /// carries exactly the resident keys.
    pub open spec fn wf(&self) -> bool {
        &&& sel_wf(self@)
        &&& (self.uniq ==> self.index@ == key_set(self.entries@))
    }

    /// Create a selector with the given capacity and configuration,
    /// pre-reserving room for `reserve` entries (capped at the capacity).
    pub fn new(capacity: usize, reserve: usize, maxed: bool, uniq: bool) -> (s: Self)
        requires
            capacity >= 1,
        ensures
            s.wf(),
            s@.items.len() == 0,
            s@.pushed == 0,
            s@.cap == capacity,
            s@.maxed == maxed,
            s@.uniq == uniq,
    {
        let keep = if reserve < capacity {
            reserve
        } else {
            capacity
        };
        let mut entries: Vec<Entry<T>> = Vec::new();
        entries.reserve(keep);
        let index: HashSet<u64> = HashSet::new();
        let s = Selector { entries, index, cap: capacity, pushed: 0, maxed, uniq };
        proof {
            assert(s.index@ =~= key_set(s.entries@));
        }
        s
    }

    /// The number of resident entries.
    pub fn len(&self) -> (r: usize)
        ensures
            r == self@.items.len(),
    {
        self.entries.len()
    }

    /// The fixed capacity.
    pub fn capacity(&self) -> (r: usize)
        ensures
            r == self@.cap,
    {
        self.cap
    }

    /// How many insert calls were made so far.
    pub fn total_pushed(&self) -> (r: usize)
        ensures
            r == self@.pushed,
    {
        self.pushed
    }

    /// Whether no entry is resident.
    pub fn is_empty(&self) -> (r: bool)
        ensures
            r == (self@.items.len() == 0),
    {
        self.entries.len() == 0
    }

    /// Add `delta` to the insert counter without offering an entry.
    pub fn inc_push(&mut self, delta: usize)
        requires
            old(self).wf(),
            old(self)@.pushed + delta <= usize::MAX,
        ensures
            final(self).wf(),
            final(self)@ == (SelView { pushed: (old(self)@.pushed + delta) as usize, ..old(self)@ }),
    {
        self.pushed = self.pushed + delta;
    }

    /// Whether an entry with this logical key is resident; only the
    /// uniqueness layer keeps the index that answers this.
    pub fn contains_key(&self, key: u64) -> (r: bool)
        requires
            self.wf(),
            self@.uniq,
        ensures
            r == key_set(self@.items).contains(key),
    {
        self.index.contains(&key)
    }

    /// Whether some resident entry carries exactly this rank.
    pub fn contains_rank(&self, rank: u64) -> (r: bool)
        ensures
            r == has_rank(self@.items, rank),
    {
        let mut i: usize = 0;
        while i < self.entries.len()
            invariant
                i <= self@.items.len(),
                forall|j: int| 0 <= j < i ==> (#[trigger] self@.items[j]).rank != rank,
            decreases self@.items.len() - i,
        {
            if self.entries[i].rank == rank {
                return true;
            }
            i = i + 1;
        }
        false
    }

    /// Surrender the resident entries, in stored order.
    pub fn into_entries(self) -> (v: Vec<Entry<T>>)
        ensures
            v@ == self@.items,
    {
        self.entries
    }

    /// Offer one entry. Exactly the transition `sel_step` happens: the call
    /// is counted, a resident duplicate key absorbs the offer (improving the
    /// resident entry in place when strictly better), a selector below
    /// capacity admits, and a full one admits only an offer whose rank
    /// strictly beats the boundary rank, evicting the latest arrival among
    /// the boundary-rank residents.
    pub fn insert(&mut self, key: u64, rank: u64, value: T) -> (r: bool)
        requires
            old(self).wf(),
            old(self)@.pushed < usize::MAX,
        ensures
            final(self).wf(),
            final(self)@ == sel_step(old(self)@, key, rank, value).0,
            r == sel_step(old(self)@, key, rank, value).1,
    {
        proof {
            lemma_step_wf(old(self)@, key, rank, value);
            lemma_key_idx(old(self)@.items, key);
        }
        let ghost v0 = self@;
        self.pushed = self.pushed + 1;
        if self.uniq && self.index.contains(&key) {
            proof {
                assert(key_set(v0.items).contains(key));
                if key_idx(v0.items, key) < 0 {
                    let i = choose|i: int|
                        0 <= i < v0.items.len() && (#[trigger] v0.items[i]).key == key;
                    assert(v0.items[i].key != key);
                }
            }
            let j = find_key(&self.entries, key);
            let better = rank_better_at(self.maxed, rank, self.entries[j].rank);
            if better {
                let held = self.entries.remove(j);
                let e = Entry { key, rank, seq: held.seq, value };
                proof {
                    lemma_remove_keeps(v0.maxed, v0.items, j as int);
                    assert forall|i: int| 0 <= i < self.entries@.len() implies (#[trigger] self
                        .entries@[i]).seq != e.seq by {
                        if i < j {
                            assert(self.entries@[i] == v0.items[i]);
                        } else {
                            assert(self.entries@[i] == v0.items[i + 1]);
                        }
                    }
                }
                let pos = position_for(self.maxed, &self.entries, &e);
                self.entries.insert(pos, e);
                proof {
                    lemma_key_set_insert(v0.maxed, v0.items.remove(j as int), e);
                    lemma_key_set_remove(v0.items, j as int);
                    assert(self.index@ =~= key_set(self.entries@));
                }
                false
            } else {
                false
            }
        } else {
            proof {
                if self.uniq {
                    assert(!key_set(v0.items).contains(key));
                    if key_idx(v0.items, key) >= 0 {
                        assert(v0.items[key_idx(v0.items, key)].key == key);
                        assert(key_set(v0.items).contains(key));
                    }
                }
            }
            if self.entries.len() < self.cap {
                let e = Entry { key, rank, seq: self.pushed, value };
                let pos = position_for(self.maxed, &self.entries, &e);
                self.entries.insert(pos, e);
                if self.uniq {
                    let _ = self.index.insert(key);
                    proof {
                        lemma_key_set_insert(v0.maxed, v0.items, e);
                        assert(self.index@ =~= key_set(self.entries@));
                    }
                }
                true
            } else {
                let bl = self.entries.len() - 1;
                let e = Entry { key, rank, seq: self.pushed, value };
                let last_rank = self.entries[bl].rank;
                let take = rank_better_at(self.maxed, e.rank, last_rank);
                if take {
                    proof {
                        lemma_rank_idx_boundary(v0.maxed, v0.items);
                    }
                    let mut g: usize = bl;
                    loop
                        invariant
                            self@ == (SelView { pushed: (v0.pushed + 1) as usize, ..v0 }),
                            self.index@ == old(self).index@,
                            bl == v0.items.len() - 1,
                            g <= bl,
                            last_rank == v0.items.last().rank,
                            forall|t: int|
                                g <= t <= bl ==> (#[trigger] v0.items[t]).rank == last_rank,
                        ensures
                            self@ == (SelView { pushed: (v0.pushed + 1) as usize, ..v0 }),
                            self.index@ == old(self).index@,
                            bl == v0.items.len() - 1,
                            g <= bl,
                            last_rank == v0.items.last().rank,
                            forall|t: int|
                                g <= t <= bl ==> (#[trigger] v0.items[t]).rank == last_rank,
                            g == 0 || v0.items[g - 1].rank != last_rank,
                        decreases g,
                    {
                        if g == 0 {
                            break;
                        }
                        if self.entries[g - 1].rank != last_rank {
                            break;
                        }
                        g = g - 1;
                    }
                    proof {
                        lemma_rank_idx_boundary(v0.maxed, v0.items);
                        let ri = rank_idx(v0.items, last_rank);
                        assert(0 <= ri < v0.items.len());
                        assert(v0.items[g as int].rank == last_rank);
                        if ri < g {
                            assert(v0.items[g - 1].rank == last_rank);
                            assert(false);
                        }
                        if ri > g {
                            assert(v0.items[g as int].rank != last_rank);
                            assert(false);
                        }
                        assert(g == ri);
                    }
                    let evicted = self.entries.remove(g);
                    if self.uniq {
                        let _ = self.index.remove(&evicted.key);
                    }
                    proof {
                        lemma_remove_keeps(v0.maxed, v0.items, g as int);
                        assert forall|i: int| 0 <= i < self.entries@.len() implies (
                        #[trigger] self.entries@[i]).seq != e.seq by {
                            if i < g {
                                assert(self.entries@[i] == v0.items[i]);
                            } else {
                                assert(self.entries@[i] == v0.items[i + 1]);
                            }
                        }
                    }
                    let pos = position_for(self.maxed, &self.entries, &e);
                    self.entries.insert(pos, e);
                    if self.uniq {
                        let _ = self.index.insert(key);
                        proof {
                            lemma_key_set_remove(v0.items, g as int);
                            lemma_key_set_insert(v0.maxed, v0.items.remove(g as int), e);
                            assert(self.index@ =~= key_set(self.entries@));
                        }
                    }
                    true
                } else {
                    false
                }
            }
        }
    }
}

/// An empty selector state with the given configuration.
pub open spec fn fresh_view<T>(cap: usize, maxed: bool, uniq: bool) -> SelView<T> {
    SelView { items: Seq::empty(), pushed: 0, cap, maxed, uniq }
}

/// The state a selector reaches after offering the given items in order.
pub open spec fn run_steps<T>(v: SelView<T>, inputs: Seq<Keyed<T>>) -> SelView<T>
    decreases inputs.len(),
{
    if inputs.len() == 0 {
        v
    } else {
        run_steps(
            sel_step(v, inputs[0].key, inputs[0].rank, inputs[0].value).0,
            inputs.drop_first(),
        )
    }
}

/// The results the insert calls of such a run return, in order.
pub open spec fn run_accepts<T>(v: SelView<T>, inputs: Seq<Keyed<T>>) -> Seq<bool>
    decreases inputs.len(),
{
    if inputs.len() == 0 {
        Seq::empty()
    } else {
        seq![sel_step(v, inputs[0].key, inputs[0].rank, inputs[0].value).1] + run_accepts(
            sel_step(v, inputs[0].key, inputs[0].rank, inputs[0].value).0,
            inputs.drop_first(),
        )
    }
}

/// A run over one more item is the run followed by one more step.
pub proof fn lemma_run_snoc<T>(v: SelView<T>, inputs: Seq<Keyed<T>>, x: Keyed<T>)
    ensures
        run_steps(v, inputs.push(x)) == sel_step(
            run_steps(v, inputs),
            x.key,
            x.rank,
            x.value,
        ).0,
        run_accepts(v, inputs.push(x)) == run_accepts(v, inputs).push(
            sel_step(run_steps(v, inputs), x.key, x.rank, x.value).1,
        ),
    decreases inputs.len(),
{
    if inputs.len() == 0 {
        let w = sel_step(v, x.key, x.rank, x.value);
        assert(inputs.push(x)[0] == x);
        assert(inputs.push(x).drop_first() =~= inputs);
        assert(run_steps(v, inputs.push(x)) == run_steps(w.0, inputs));
        assert(run_steps(w.0, inputs) == w.0);
        assert(run_steps(v, inputs) == v);
        assert(run_accepts(v, inputs.push(x)) == seq![w.1] + run_accepts(w.0, inputs));
        assert(run_accepts(w.0, inputs) =~= Seq::<bool>::empty());
        assert(run_accepts(v, inputs) =~= Seq::<bool>::empty());
        assert(seq![w.1] + run_accepts(w.0, inputs) =~= run_accepts(v, inputs).push(w.1));
    } else {
        let h = inputs[0];
        let v2 = sel_step(v, h.key, h.rank, h.value).0;
        let a2 = sel_step(v, h.key, h.rank, h.value).1;
        assert(inputs.push(x)[0] == h);
        assert(inputs.push(x).drop_first() =~= inputs.drop_first().push(x));
        lemma_run_snoc(v2, inputs.drop_first(), x);
        let y = sel_step(run_steps(v2, inputs.drop_first()), x.key, x.rank, x.value);
        assert(run_steps(v, inputs.push(x)) == run_steps(v2, inputs.drop_first().push(x)));
        assert(run_steps(v, inputs) == run_steps(v2, inputs.drop_first()));
        assert(run_accepts(v, inputs.push(x)) == seq![a2] + run_accepts(
            v2,
            inputs.drop_first().push(x),
        ));
        assert(run_accepts(v, inputs) == seq![a2] + run_accepts(v2, inputs.drop_first()));
        assert(seq![a2] + run_accepts(v2, inputs.drop_first()).push(y.1) =~= (seq![a2]
            + run_accepts(v2, inputs.drop_first())).push(y.1));
    }
}

/// A run from a well-formed state stays well-formed, counts every call, and
/// never touches the configuration.
pub proof fn lemma_run_wf<T>(v: SelView<T>, inputs: Seq<Keyed<T>>)
    requires
        sel_wf(v),
        v.pushed + inputs.len() <= usize::MAX,
    ensures
        sel_wf(run_steps(v, inputs)),
        run_steps(v, inputs).pushed == v.pushed + inputs.len(),
        run_steps(v, inputs).cap == v.cap,
        run_steps(v, inputs).maxed == v.maxed,
        run_steps(v, inputs).uniq == v.uniq,
    decreases inputs.len(),
{
    if inputs.len() > 0 {
        lemma_step_wf(v, inputs[0].key, inputs[0].rank, inputs[0].value);
        lemma_run_wf(
            sel_step(v, inputs[0].key, inputs[0].rank, inputs[0].value).0,
            inputs.drop_first(),
        );
    }
}

} // verus!
