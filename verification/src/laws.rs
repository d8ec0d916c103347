//! The general guarantees of the bounded selectors, stated over the
//! transition `sel_step` and the fold `run_steps` that every container's
//! `insert` and `extend` are proved to implement exactly.

use vstd::prelude::*;

use crate::item::Keyed;
use crate::order::{rank_better, Entry};
use crate::selector::{
    fresh_view, ins_sorted, key_idx, run_accepts, run_steps, sel_step, sel_wf, lemma_run_wf,
    lemma_step_wf, SelView,
};

verus! {

/// Bound invariant: however many items are offered to a well-formed
/// selector, after every single call the resident count stays within the
/// fixed capacity.
pub proof fn lemma_bound_invariant<T>(v: SelView<T>, inputs: Seq<Keyed<T>>)
    requires
        sel_wf(v),
        v.pushed + inputs.len() <= usize::MAX,
    ensures
        forall|i: int|
            0 <= i <= inputs.len() ==> #[trigger] run_steps(
                v,
                inputs.subrange(0, i),
            ).items.len() <= v.cap,
{
    assert forall|i: int| 0 <= i <= inputs.len() implies #[trigger] run_steps(
        v,
        inputs.subrange(0, i),
    ).items.len() <= v.cap by {
        lemma_run_wf(v, inputs.subrange(0, i));
    }
}

/// Stable tie order: in any well-formed selector state, equal-rank
/// residents stand with the later arrival farther from the boundary. A
/// drain walks from the boundary inwards, so it emits equal-rank items in
/// arrival order; and since the drained sequence is a function of the
/// inserted sequence alone, re-running the same input reproduces it.
pub proof fn lemma_stable_tie_order<T>(v: SelView<T>)
    requires
        sel_wf(v),
    ensures
        forall|a: int, b: int|
            #![trigger v.items[a], v.items[b]]
            0 <= a < b < v.items.len() && v.items[a].rank == v.items[b].rank ==> v.items[a].seq
                > v.items[b].seq,
{
}

/// Helper for the idempotence law: a unique selector holding exactly one
/// entry, offered only that entry's key with ever-improving ranks, keeps a
/// single entry carrying the latest rank and value but the original arrival
/// stamp, and reports every such offer as a duplicate.
proof fn lemma_unique_absorbs<T>(v: SelView<T>, e0: Entry<T>, inputs: Seq<Keyed<T>>)
    requires
        sel_wf(v),
        v.uniq,
        v.items == seq![e0],
        v.pushed + inputs.len() <= usize::MAX,
        forall|i: int| 0 <= i < inputs.len() ==> (#[trigger] inputs[i]).key == e0.key,
        inputs.len() > 0 ==> rank_better(v.maxed, inputs[0].rank, e0.rank),
        forall|i: int|
            0 <= i < inputs.len() - 1 ==> rank_better(
                v.maxed,
                inputs[i + 1].rank,
                (#[trigger] inputs[i]).rank,
            ),
    ensures
        run_steps(v, inputs).items == if inputs.len() == 0 {
            seq![e0]
        } else {
            seq![
                Entry {
                    key: e0.key,
                    rank: inputs.last().rank,
                    seq: e0.seq,
                    value: inputs.last().value,
                },
            ]
        },
        run_accepts(v, inputs).len() == inputs.len(),
        forall|i: int| 0 <= i < inputs.len() ==> !(#[trigger] run_accepts(v, inputs)[i]),
    decreases inputs.len(),
{
    if inputs.len() > 0 {
        let x = inputs[0];
        lemma_step_wf(v, x.key, x.rank, x.value);
        let (v2, acc) = sel_step(v, x.key, x.rank, x.value);
        assert(key_idx(v.items, x.key) == 0);
        let e1 = Entry { key: e0.key, rank: x.rank, seq: e0.seq, value: x.value };
        assert(v.items.remove(0) =~= Seq::<Entry<T>>::empty());
        assert(v2.items == ins_sorted(v.maxed, Seq::<Entry<T>>::empty(), e1));
        assert(v2.items =~= seq![e1]);
        assert(!acc);
        assert forall|i: int| 0 <= i < inputs.drop_first().len() implies (#[trigger] inputs
            .drop_first()[i]).key == e1.key by {
            assert(inputs.drop_first()[i] == inputs[i + 1]);
        }
        assert forall|i: int| 0 <= i < inputs.drop_first().len() - 1 implies rank_better(
            v2.maxed,
            inputs.drop_first()[i + 1].rank,
            (#[trigger] inputs.drop_first()[i]).rank,
        ) by {
            assert(inputs.drop_first()[i] == inputs[i + 1]);
            assert(inputs.drop_first()[i + 1] == inputs[i + 2]);
        }
        if inputs.drop_first().len() > 0 {
            assert(inputs.drop_first()[0] == inputs[1]);
        }
        lemma_unique_absorbs(v2, e1, inputs.drop_first());
        if inputs.len() > 1 {
            assert(inputs.drop_first().last() == inputs.last());
        }
        assert forall|i: int| 0 <= i < inputs.len() implies !(#[trigger] run_accepts(
            v,
            inputs,
        )[i]) by {
            if i > 0 {
                assert(run_accepts(v, inputs)[i] == run_accepts(v2, inputs.drop_first())[i - 1]);
            }
        }
    }
}

/// Uniqueness idempotence: offering the same logical key over and over with
/// a strictly improving rank sequence leaves exactly one resident entry. It
/// carries the best (latest) rank and value, but the arrival stamp of the
/// first offer; only the first offer is reported as newly admitted.
pub proof fn lemma_unique_idempotence<T>(cap: usize, maxed: bool, k: u64, inputs: Seq<Keyed<T>>)
    requires
        cap >= 1,
        1 <= inputs.len() <= usize::MAX,
        forall|i: int| 0 <= i < inputs.len() ==> (#[trigger] inputs[i]).key == k,
        forall|i: int|
            0 <= i < inputs.len() - 1 ==> rank_better(
                maxed,
                inputs[i + 1].rank,
                (#[trigger] inputs[i]).rank,
            ),
    ensures
        ({
            let w = run_steps(fresh_view::<T>(cap, maxed, true), inputs);
            &&& w.items.len() == 1
            &&& w.items[0].key == k
            &&& w.items[0].rank == inputs.last().rank
            &&& w.items[0].value == inputs.last().value
            &&& w.items[0].seq == 1
        }),
        run_accepts(fresh_view::<T>(cap, maxed, true), inputs).len() == inputs.len(),
        run_accepts(fresh_view::<T>(cap, maxed, true), inputs)[0],
        forall|i: int|
            1 <= i < inputs.len() ==> !(#[trigger] run_accepts(
                fresh_view::<T>(cap, maxed, true),
                inputs,
            )[i]),
{
    let v = fresh_view::<T>(cap, maxed, true);
    let x = inputs[0];
    lemma_step_wf(v, x.key, x.rank, x.value);
    let (v2, acc) = sel_step(v, x.key, x.rank, x.value);
    assert(key_idx(v.items, x.key) == -1);
    let e0 = Entry { key: k, rank: x.rank, seq: 1, value: x.value };
    assert(v2.items == ins_sorted(v.maxed, Seq::<Entry<T>>::empty(), e0));
    assert(v2.items =~= seq![e0]);
    assert(acc);
    assert forall|i: int| 0 <= i < inputs.drop_first().len() implies (#[trigger] inputs
        .drop_first()[i]).key == e0.key by {
        assert(inputs.drop_first()[i] == inputs[i + 1]);
    }
    assert forall|i: int| 0 <= i < inputs.drop_first().len() - 1 implies rank_better(
        v2.maxed,
        inputs.drop_first()[i + 1].rank,
        (#[trigger] inputs.drop_first()[i]).rank,
    ) by {
        assert(inputs.drop_first()[i] == inputs[i + 1]);
        assert(inputs.drop_first()[i + 1] == inputs[i + 2]);
    }
    if inputs.drop_first().len() > 0 {
        assert(inputs.drop_first()[0] == inputs[1]);
    }
    lemma_unique_absorbs(v2, e0, inputs.drop_first());
    if inputs.len() > 1 {
        assert(inputs.drop_first().last() == inputs.last());
    }
    assert forall|i: int| 1 <= i < inputs.len() implies !(#[trigger] run_accepts(v, inputs)[i]) by {
        assert(run_accepts(v, inputs)[i] == run_accepts(v2, inputs.drop_first())[i - 1]);
    }
}

/// An input index is represented among the residents: some resident entry
/// carries the arrival stamp that call was given.
pub open spec fn resident_for<T>(s: Seq<Entry<T>>, i: int) -> bool {
    exists|j: int| 0 <= j < s.len() && (#[trigger] s[j]).seq == i + 1
}

/// The optimality statement for a selector without uniqueness that started
/// empty and was offered `inputs`: it holds exactly min(capacity, n) of
/// them; every resident entry is one of the offers, unchanged, named by its
/// arrival stamp; while below capacity nothing was ever dropped; and no
/// dropped offer ranks strictly better than any resident — the residents
/// are the best of the offers under the configured orientation.
pub open spec fn kept_are_best<T>(v: SelView<T>, inputs: Seq<Keyed<T>>) -> bool {
    &&& v.pushed == inputs.len()
    &&& v.items.len() == if inputs.len() < v.cap {
        inputs.len() as int
    } else {
        v.cap as int
    }
    &&& (v.items.len() < v.cap ==> forall|i: int|
        0 <= i < inputs.len() ==> #[trigger] resident_for(v.items, i))
    &&& forall|j: int|
        0 <= j < v.items.len() ==> {
            let i = (#[trigger] v.items[j]).seq - 1;
            &&& 0 <= i < inputs.len()
            &&& v.items[j].key == inputs[i].key
            &&& v.items[j].rank == inputs[i].rank
            &&& v.items[j].value == inputs[i].value
        }
    &&& forall|i: int|
        0 <= i < inputs.len() && !(#[trigger] resident_for(v.items, i)) ==> forall|j: int|
            0 <= j < v.items.len() ==> !rank_better(
                v.maxed,
                inputs[i].rank,
                (#[trigger] v.items[j]).rank,
            )
}

/// One insert call preserves the optimality statement.
proof fn lemma_kept_are_best_step<T>(v: SelView<T>, inputs: Seq<Keyed<T>>, x: Keyed<T>)
    requires
        sel_wf(v),
        !v.uniq,
        kept_are_best(v, inputs),
        inputs.len() < usize::MAX,
    ensures
        kept_are_best(sel_step(v, x.key, x.rank, x.value).0, inputs.push(x)),
{
    let n = inputs.len() as int;
    let s = v.items;
    let inputs2 = inputs.push(x);
    let p = (v.pushed + 1) as usize;
    let w = sel_step(v, x.key, x.rank, x.value).0;
    assert(forall|i: int| 0 <= i < n ==> inputs2[i] == inputs[i]);
    assert(inputs2[n] == x);
    if s.len() < v.cap {
        let e = Entry { key: x.key, rank: x.rank, seq: p, value: x.value };
        crate::selector::lemma_ins_sorted(v.maxed, s, e);
        let q = crate::selector::pos_of(v.maxed, s, e);
        let t = w.items;
        assert(s.len() == n);
        assert forall|i: int| 0 <= i < inputs2.len() implies #[trigger] resident_for(t, i) by {
            if i < n {
                assert(resident_for(s, i));
                let j = choose|j: int| 0 <= j < s.len() && (#[trigger] s[j]).seq == i + 1;
                if j < q {
                    assert(t[j].seq == i + 1);
                } else {
                    assert(t[j + 1] == s[j]);
                    assert(t[j + 1].seq == i + 1);
                }
            } else {
                assert(t[q].seq == i + 1);
            }
        }
        assert forall|j: int| 0 <= j < t.len() implies {
            let i = (#[trigger] t[j]).seq - 1;
            &&& 0 <= i < inputs2.len()
            &&& t[j].key == inputs2[i].key
            &&& t[j].rank == inputs2[i].rank
            &&& t[j].value == inputs2[i].value
        } by {
            if j < q {
                assert(t[j] == s[j]);
            } else if j > q {
                assert(t[j] == s[j - 1]);
            } else {
                assert(t[j] == e);
            }
        }
    } else {
        let e = Entry { key: x.key, rank: x.rank, seq: p, value: x.value };
        let b = s.last();
        assert(s.len() == v.cap) by {
            assert(s.len() <= v.cap);
        }
        assert(n >= v.cap);
        if rank_better(v.maxed, x.rank, b.rank) {
            crate::selector::lemma_rank_idx_boundary(v.maxed, s);
            let g = crate::selector::rank_idx(s, b.rank);
            let s2 = s.remove(g);
            crate::selector::lemma_remove_keeps(v.maxed, s, g);
            assert forall|i: int| 0 <= i < s2.len() implies (#[trigger] s2[i]).seq != e.seq by {
                if i < g {
                    assert(s2[i] == s[i]);
                } else {
                    assert(s2[i] == s[i + 1]);
                }
            }
            crate::selector::lemma_ins_sorted(v.maxed, s2, e);
            let q = crate::selector::pos_of(v.maxed, s2, e);
            let t = w.items;
            // the offer ranks strictly better than the boundary rank, which
            // the evicted entry shares
            assert(s[g].rank == b.rank);
            // every old resident ranks no worse than the boundary
            assert forall|j: int| 0 <= j < s.len() implies !rank_better(
                v.maxed,
                b.rank,
                (#[trigger] s[j]).rank,
            ) by {
                if j < s.len() - 1 {
                    assert(crate::order::precedes(v.maxed, s[j], b));
                }
            }
            assert forall|j: int| 0 <= j < t.len() implies {
                let i = (#[trigger] t[j]).seq - 1;
                &&& 0 <= i < inputs2.len()
                &&& t[j].key == inputs2[i].key
                &&& t[j].rank == inputs2[i].rank
                &&& t[j].value == inputs2[i].value
            } by {
                if j < q {
                    assert(t[j] == s2[j]);
                    if j < g {
                        assert(s2[j] == s[j]);
                    } else {
                        assert(s2[j] == s[j + 1]);
                    }
                } else if j > q {
                    assert(t[j] == s2[j - 1]);
                    if j - 1 < g {
                        assert(s2[j - 1] == s[j - 1]);
                    } else {
                        assert(s2[j - 1] == s[j]);
                    }
                } else {
                    assert(t[j] == e);
                }
            }
            // every entry of t is e or a surviving old entry
            assert forall|j: int| 0 <= j < t.len() implies t[j] == e || exists|j2: int|
                0 <= j2 < s.len() && j2 != g && #[trigger] t[j] == s[j2] by {
                if j < q {
                    assert(t[j] == s2[j]);
                    if j < g {
                        assert(s2[j] == s[j]);
                    } else {
                        assert(s2[j] == s[j + 1]);
                    }
                } else if j > q {
                    assert(t[j] == s2[j - 1]);
                    if j - 1 < g {
                        assert(s2[j - 1] == s[j - 1]);
                    } else {
                        assert(s2[j - 1] == s[j]);
                    }
                }
            }
            assert forall|i: int|
                0 <= i < inputs2.len() && !(#[trigger] resident_for(t, i)) implies forall|j: int|
                0 <= j < t.len() ==> !rank_better(
                    v.maxed,
                    inputs2[i].rank,
                    (#[trigger] t[j]).rank,
                ) by {
                assert(t[q] == e && e.seq == n + 1);
                assert(i < n);
                let dropped_rank = inputs[i].rank;
                // the dropped offer ranks no better than the old boundary
                assert(!rank_better(v.maxed, dropped_rank, b.rank)) by {
                    if resident_for(s, i) {
                        let j0 = choose|j0: int|
                            0 <= j0 < s.len() && (#[trigger] s[j0]).seq == i + 1;
                        if j0 != g {
                            let j1: int = if j0 < g {
                                j0
                            } else {
                                j0 - 1
                            };
                            assert(s2[j1] == s[j0]);
                            assert(t[if j1 < q {
                                j1
                            } else {
                                j1 + 1
                            }] == s2[j1]);
                            assert(resident_for(t, i));
                        }
                        assert(s[j0] == s[g]);
                        assert(dropped_rank == b.rank);
                    } else {
                        assert(!rank_better(v.maxed, inputs[i].rank, b.rank));
                    }
                }
                assert forall|j: int| 0 <= j < t.len() implies !rank_better(
                    v.maxed,
                    inputs2[i].rank,
                    (#[trigger] t[j]).rank,
                ) by {
                    if t[j] == e {
                        // better than e would be strictly better than the
                        // boundary, which no dropped offer is
                        if rank_better(v.maxed, dropped_rank, e.rank) {
                            assert(rank_better(v.maxed, dropped_rank, b.rank));
                        }
                    } else {
                        let j2 = choose|j2: int|
                            0 <= j2 < s.len() && j2 != g && #[trigger] t[j] == s[j2];
                        if !resident_for(s, i) {
                            assert(!rank_better(v.maxed, inputs[i].rank, s[j2].rank));
                        } else {
                            // the dropped offer shares the boundary rank,
                            // and no resident ranks worse than the boundary
                            assert(!rank_better(v.maxed, b.rank, s[j2].rank));
                        }
                    }
                }
            }
        } else {
            // rejected: the offer ranks no better than the boundary, hence
            // no better than any resident
            assert(!rank_better(v.maxed, x.rank, b.rank));
            let t = w.items;
            assert(t == s);
            assert forall|i: int|
                0 <= i < inputs2.len() && !(#[trigger] resident_for(t, i)) implies forall|j: int|
                0 <= j < t.len() ==> !rank_better(
                    v.maxed,
                    inputs2[i].rank,
                    (#[trigger] t[j]).rank,
                ) by {
                if i < n {
                    assert(!resident_for(s, i));
                } else {
                    assert forall|j: int| 0 <= j < t.len() implies !rank_better(
                        v.maxed,
                        x.rank,
                        (#[trigger] t[j]).rank,
                    ) by {
                        if j < s.len() - 1 {
                            assert(crate::order::precedes(v.maxed, s[j], b));
                        }
                    }
                }
            }
        }
    }
}

/// Optimality: a selector without uniqueness, started empty and offered any
/// sequence of items, retains exactly the best min(capacity, n) of them
/// under the configured orientation; its drained, sorted output is the
/// sort-and-truncate of the offers.
pub proof fn lemma_optimality<T>(cap: usize, maxed: bool, inputs: Seq<Keyed<T>>)
    requires
        cap >= 1,
        inputs.len() <= usize::MAX,
    ensures
        sel_wf(run_steps(fresh_view::<T>(cap, maxed, false), inputs)),
        kept_are_best(run_steps(fresh_view::<T>(cap, maxed, false), inputs), inputs),
    decreases inputs.len(),
{
    let v0 = fresh_view::<T>(cap, maxed, false);
    lemma_run_wf(v0, inputs);
    if inputs.len() == 0 {
    } else {
        let pre = inputs.drop_last();
        let x = inputs.last();
        lemma_optimality::<T>(cap, maxed, pre);
        crate::selector::lemma_run_snoc(v0, pre, x);
        assert(pre.push(x) =~= inputs);
        lemma_kept_are_best_step(run_steps(v0, pre), pre, x);
    }
}

/// The order-inverting rank bijection that carries a least-K selector onto
/// a greatest-K selector.
pub open spec fn flip_rank(r: u64) -> u64 {
    (u64::MAX - r) as u64
}

/// An offer with its rank inverted.
pub open spec fn flip_offer<T>(x: Keyed<T>) -> Keyed<T> {
    Keyed { key: x.key, rank: flip_rank(x.rank), value: x.value }
}

/// A resident entry with its rank inverted.
pub open spec fn flip_entry<T>(e: Entry<T>) -> Entry<T> {
    Entry { key: e.key, rank: flip_rank(e.rank), seq: e.seq, value: e.value }
}

/// All entries of a sequence with their ranks inverted.
pub open spec fn flip_entries<T>(s: Seq<Entry<T>>) -> Seq<Entry<T>> {
    s.map_values(|e: Entry<T>| flip_entry(e))
}

/// A selector state carried onto the opposite orientation: the ranks are
/// inverted and the orientation switch flipped; keys, stamps, payloads, the
/// counter and the capacity stay.
pub open spec fn flip_state<T>(v: SelView<T>) -> SelView<T> {
    SelView { items: flip_entries(v.items), maxed: !v.maxed, ..v }
}

/// The stored order is carried exactly onto the opposite orientation.
proof fn lemma_flip_precedes<T>(maxed: bool, a: Entry<T>, b: Entry<T>)
    ensures
        crate::order::precedes(!maxed, flip_entry(a), flip_entry(b)) == crate::order::precedes(
            maxed,
            a,
            b,
        ),
{
}

/// The sorted position of an entry is carried onto the opposite
/// orientation.
proof fn lemma_flip_pos_of<T>(maxed: bool, s: Seq<Entry<T>>, e: Entry<T>)
    ensures
        crate::selector::pos_of(!maxed, flip_entries(s), flip_entry(e)) == crate::selector::pos_of(
            maxed,
            s,
            e,
        ),
    decreases s.len(),
{
    let fs = flip_entries(s);
    if s.len() == 0 {
    } else {
        assert(fs[0] == flip_entry(s[0]));
        lemma_flip_precedes(maxed, e, s[0]);
        assert(fs.drop_first() =~= flip_entries(s.drop_first()));
        lemma_flip_pos_of(maxed, s.drop_first(), e);
    }
}

/// The index of a key is carried onto the opposite orientation.
proof fn lemma_flip_key_idx<T>(s: Seq<Entry<T>>, key: u64)
    ensures
        key_idx(flip_entries(s), key) == key_idx(s, key),
    decreases s.len(),
{
    let fs = flip_entries(s);
    if s.len() == 0 {
    } else {
        assert(fs[0] == flip_entry(s[0]));
        assert(fs.drop_first() =~= flip_entries(s.drop_first()));
        lemma_flip_key_idx(s.drop_first(), key);
    }
}

/// Sorted insertion is carried onto the opposite orientation.
proof fn lemma_flip_ins_sorted<T>(maxed: bool, s: Seq<Entry<T>>, e: Entry<T>)
    ensures
        ins_sorted(!maxed, flip_entries(s), flip_entry(e)) == flip_entries(
            ins_sorted(maxed, s, e),
        ),
{
    lemma_flip_pos_of(maxed, s, e);
    crate::selector::lemma_pos_of(maxed, s, e);
    let p = crate::selector::pos_of(maxed, s, e);
    assert(ins_sorted(!maxed, flip_entries(s), flip_entry(e)) =~= flip_entries(
        ins_sorted(maxed, s, e),
    )) by {
        s.insert_ensures(p, e);
        flip_entries(s).insert_ensures(p, flip_entry(e));
    }
}

/// One insert call is carried exactly onto the opposite orientation: the
/// flipped state, offered the original rank, moves to the flip of where the
/// original state moves under the inverted rank, and returns the same
/// answer.
proof fn lemma_flip_step<T>(v: SelView<T>, key: u64, rank: u64, value: T)
    requires
        v.cap >= 1,
    ensures
        sel_step(flip_state(v), key, rank, value).0 == flip_state(
            sel_step(v, key, flip_rank(rank), value).0,
        ),
        sel_step(flip_state(v), key, rank, value).1 == sel_step(v, key, flip_rank(rank), value).1,
{
    let fv = flip_state(v);
    let m = v.maxed;
    let s = v.items;
    let fs = fv.items;
    let j = key_idx(s, key);
    lemma_flip_key_idx(s, key);
    crate::selector::lemma_key_idx(s, key);
    if v.uniq && j >= 0 {
        assert(fs[j] == flip_entry(s[j]));
        if rank_better(m, flip_rank(rank), s[j].rank) {
            let e = Entry { key, rank: flip_rank(rank), seq: s[j].seq, value };
            assert(fs.remove(j) =~= flip_entries(s.remove(j)));
            assert(flip_entry(e) == (Entry { key, rank, seq: s[j].seq, value }));
            lemma_flip_ins_sorted(m, s.remove(j), e);
            assert(sel_step(fv, key, rank, value).0 =~= flip_state(
                sel_step(v, key, flip_rank(rank), value).0,
            ));
        } else {
            assert(sel_step(fv, key, rank, value).0 =~= flip_state(
                sel_step(v, key, flip_rank(rank), value).0,
            ));
        }
    } else if s.len() < v.cap {
        let p = (v.pushed + 1) as usize;
        let e = Entry { key, rank: flip_rank(rank), seq: p, value };
        assert(flip_entry(e) == (Entry { key, rank, seq: p, value }));
        lemma_flip_ins_sorted(m, s, e);
        assert(sel_step(fv, key, rank, value).0 =~= flip_state(
            sel_step(v, key, flip_rank(rank), value).0,
        ));
    } else {
        let p = (v.pushed + 1) as usize;
        let e = Entry { key, rank: flip_rank(rank), seq: p, value };
        assert(flip_entry(e) == (Entry { key, rank, seq: p, value }));
        assert(fs.len() == s.len());
        assert(fs[s.len() - 1] == flip_entry(s[s.len() - 1]));
        if rank_better(m, flip_rank(rank), s.last().rank) {
            lemma_flip_rank_idx(s, s.last().rank);
            crate::selector::lemma_rank_idx(s, s.last().rank);
            let g = crate::selector::rank_idx(s, s.last().rank);
            assert(s[s.len() - 1].rank == s.last().rank);
            assert(g >= 0);
            assert(fs.remove(g) =~= flip_entries(s.remove(g)));
            lemma_flip_ins_sorted(m, s.remove(g), e);
            assert(sel_step(fv, key, rank, value).0 =~= flip_state(
                sel_step(v, key, flip_rank(rank), value).0,
            ));
        } else {
            assert(sel_step(fv, key, rank, value).0 =~= flip_state(
                sel_step(v, key, flip_rank(rank), value).0,
            ));
        }
    }
}

/// The first index of a rank is carried onto the opposite orientation.
proof fn lemma_flip_rank_idx<T>(s: Seq<Entry<T>>, r: u64)
    ensures
        crate::selector::rank_idx(flip_entries(s), flip_rank(r)) == crate::selector::rank_idx(
            s,
            r,
        ),
    decreases s.len(),
{
    let fs = flip_entries(s);
    if s.len() == 0 {
    } else {
        assert(fs[0] == flip_entry(s[0]));
        assert((fs[0].rank == flip_rank(r)) == (s[0].rank == r));
        assert(fs.drop_first() =~= flip_entries(s.drop_first()));
        lemma_flip_rank_idx(s.drop_first(), r);
    }
}

/// A whole run is carried exactly onto the opposite orientation.
proof fn lemma_flip_run<T>(v: SelView<T>, inputs: Seq<Keyed<T>>)
    requires
        v.cap >= 1,
    ensures
        run_steps(flip_state(v), inputs) == flip_state(
            run_steps(v, inputs.map_values(|x: Keyed<T>| flip_offer(x))),
        ),
        run_accepts(flip_state(v), inputs) == run_accepts(
            v,
            inputs.map_values(|x: Keyed<T>| flip_offer(x)),
        ),
    decreases inputs.len(),
{
    let fin = inputs.map_values(|x: Keyed<T>| flip_offer(x));
    if inputs.len() == 0 {
        assert(run_accepts(flip_state(v), inputs) =~= run_accepts(v, fin));
    } else {
        let x = inputs[0];
        assert(fin[0] == flip_offer(x));
        lemma_flip_step(v, x.key, x.rank, x.value);
        let v2 = sel_step(v, x.key, flip_rank(x.rank), x.value).0;
        assert(fin.drop_first() =~= inputs.drop_first().map_values(
            |y: Keyed<T>| flip_offer(y),
        ));
        lemma_flip_run(v2, inputs.drop_first());
        assert(run_steps(flip_state(v), inputs) == run_steps(
            sel_step(flip_state(v), x.key, x.rank, x.value).0,
            inputs.drop_first(),
        ));
        assert(run_accepts(flip_state(v), inputs) =~= run_accepts(v, fin));
    }
}

/// Orientation duality: on the same offers and capacity, the greatest-K
/// selector is the exact image of the least-K selector run on rank-inverted
/// offers — entry for entry under the rank bijection, with the same stored
/// order, the same arrival stamps and the same sequence of answers. The two
/// orientations are order-inverses of each other on the same data.
pub proof fn lemma_orientation_duality<T>(cap: usize, uniq: bool, inputs: Seq<Keyed<T>>)
    requires
        cap >= 1,
    ensures
        run_steps(fresh_view::<T>(cap, true, uniq), inputs) == flip_state(
            run_steps(
                fresh_view::<T>(cap, false, uniq),
                inputs.map_values(|x: Keyed<T>| flip_offer(x)),
            ),
        ),
        run_accepts(fresh_view::<T>(cap, true, uniq), inputs) == run_accepts(
            fresh_view::<T>(cap, false, uniq),
            inputs.map_values(|x: Keyed<T>| flip_offer(x)),
        ),
{
    let vmin = fresh_view::<T>(cap, false, uniq);
    assert(flip_state(vmin) =~= fresh_view::<T>(cap, true, uniq)) by {
        assert(flip_entries::<T>(Seq::empty()) =~= Seq::<Entry<T>>::empty());
    }
    lemma_flip_run(vmin, inputs);
}

} // verus!
