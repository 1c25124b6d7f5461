use vstd::prelude::*;
use crate::flatten::{obj_insert, make_chain, unflatten_entries, unflatten_spec};
use crate::merge::{merge_entries_local, merge_entries_remote, merge_one};
use crate::translation::{diff_spec, missing_keys_spec};
use crate::tree::TreeV;

verus! {

/// Every object of the tree holds each key once.
pub open spec fn tree_distinct(t: TreeV) -> bool
    decreases t,
{
    match t {
        TreeV::Leaf(_) => true,
        TreeV::Obj(es) => TreeV::distinct_keys(es) && (forall|i: int|
            0 <= i < es.len() ==> tree_distinct(#[trigger] es[i].1)),
    }
}

/// Law: merging a tree with itself returns it unchanged. Every common
/// key carries equal values on both sides, so each leaf keeps its
/// value whichever branch of the policy applies, and no key is lost or
/// duplicated.
pub proof fn lemma_merge_idempotent(t: TreeV)
    requires
        tree_distinct(t),
    ensures
        merge_one(t, t) == t,
    decreases t, 1int,
{
    match t {
        TreeV::Leaf(_) => {},
        TreeV::Obj(es) => {
            lemma_self_lookup(es);
            assert forall|j: int| 0 <= j < es.len() implies TreeV::entry_has_key(
                es,
                #[trigger] es[j].0,
            ) by {
                assert(0 <= j < es.len() && es[j].0 == es[j].0);
            }
            lemma_merge_local_self(es, es);
            lemma_merge_remote_self(es, es);
            assert(merge_entries_local(es, es) + merge_entries_remote(es, es) =~= es);
        },
    }
}

/// Merging each entry of `les` against a side that answers every key
/// with the entry's own value leaves `les` unchanged.
proof fn lemma_merge_local_self(les: Seq<(Seq<char>, TreeV)>, res: Seq<(Seq<char>, TreeV)>)
    requires
        forall|i: int|
            0 <= i < les.len() ==> TreeV::entry_lookup(res, #[trigger] les[i].0) == Some(
                les[i].1,
            ) && tree_distinct(les[i].1),
    ensures
        merge_entries_local(les, res) == les,
    decreases les, 0int,
{
    if les.len() > 0 {
        let e = les.last();
        assert(les[les.len() - 1] == e);
        lemma_merge_idempotent(e.1);
        lemma_merge_local_self(les.drop_last(), res);
        assert(merge_entries_local(les, res) =~= les);
    }
}

/// A remote side whose keys the local side all holds adds nothing.
proof fn lemma_merge_remote_self(les: Seq<(Seq<char>, TreeV)>, res: Seq<(Seq<char>, TreeV)>)
    requires
        forall|j: int| 0 <= j < res.len() ==> TreeV::entry_has_key(les, #[trigger] res[j].0),
    ensures
        merge_entries_remote(les, res) == Seq::<(Seq<char>, TreeV)>::empty(),
    decreases res,
{
    if res.len() > 0 {
        assert(TreeV::entry_has_key(les, res[res.len() - 1].0));
        lemma_merge_remote_self(les, res.drop_last());
    }
}

/// On a tree whose objects each hold every key of `les`, the self-merge
/// requirement of `lemma_merge_local_self` holds of `les` against
/// itself.
proof fn lemma_self_lookup(es: Seq<(Seq<char>, TreeV)>)
    requires
        TreeV::distinct_keys(es),
    ensures
        forall|i: int|
            0 <= i < es.len() ==> TreeV::entry_lookup(es, #[trigger] es[i].0) == Some(es[i].1),
{
    assert forall|i: int|
        0 <= i < es.len() implies TreeV::entry_lookup(es, #[trigger] es[i].0) == Some(
        es[i].1,
    ) by {
        crate::merge::lemma_entry_lookup_at(es, es[i].0, i);
    }
}

/// Law: pushing with no cached remote state sends exactly the local
/// content, unchanged.
pub proof fn lemma_diff_full_upload(local: Map<Seq<char>, Seq<char>>)
    ensures
        diff_spec(local, None) == local,
{
}

/// Law: a language that already holds every key of the base needs no
/// backfill.
pub proof fn lemma_missing_keys_superset(
    base: Map<Seq<char>, Seq<char>>,
    other: Map<Seq<char>, Seq<char>>,
)
    requires
        forall|k: Seq<char>| base.dom().contains(k) ==> other.dom().contains(k),
    ensures
        missing_keys_spec(base, other) == Map::<Seq<char>, Seq<char>>::empty(),
{
    assert(missing_keys_spec(base, other) =~= Map::<Seq<char>, Seq<char>>::empty());
}

/// The single-path chain of an insertion holds each key once at every
/// level.
proof fn lemma_make_chain_distinct(path: Seq<Seq<char>>, v: Seq<char>)
    ensures
        tree_distinct(make_chain(path, v)),
    decreases path.len(),
{
    if path.len() > 0 {
        lemma_make_chain_distinct(path.drop_first(), v);
        let es = seq![(path[0], make_chain(path.drop_first(), v))];
        assert(forall|i: int| 0 <= i < es.len() ==> tree_distinct(#[trigger] es[i].1));
    }
}

/// Every key after an insertion is the inserted path's head or a key
/// that was already there.
proof fn lemma_obj_insert_keys(es: Seq<(Seq<char>, TreeV)>, path: Seq<Seq<char>>, v: Seq<char>)
    requires
        path.len() >= 1,
    ensures
        obj_insert(es, path, v) matches Ok(out) ==> forall|j: int|
            0 <= j < out.len() ==> (#[trigger] out[j].0 == path[0] || TreeV::entry_has_key(
                es,
                out[j].0,
            )),
    decreases path.len(), es.len(),
{
    if es.len() == 0 {
    } else if es[0].0 == path[0] {
        if path.len() == 1 {
            let out = seq![(path[0], TreeV::Leaf(v))] + es.drop_first();
            assert forall|j: int| 0 <= j < out.len() implies (#[trigger] out[j].0 == path[0]
                || TreeV::entry_has_key(es, out[j].0)) by {
                if j > 0 {
                    assert(out[j] == es[j]);
                    assert(es[j].0 == out[j].0);
                }
            }
        } else {
            match es[0].1 {
                TreeV::Leaf(_) => {},
                TreeV::Obj(ces) => {
                    match obj_insert(ces, path.drop_first(), v) {
                        Ok(c2) => {
                            let out = seq![(path[0], TreeV::Obj(c2))] + es.drop_first();
                            assert forall|j: int| 0 <= j < out.len() implies (#[trigger] out[j].0
                                == path[0] || TreeV::entry_has_key(es, out[j].0)) by {
                                if j > 0 {
                                    assert(out[j] == es[j]);
                                    assert(es[j].0 == out[j].0);
                                }
                            }
                        },
                        Err(_) => {},
                    }
                },
            }
        }
    } else {
        let t = es.drop_first();
        lemma_obj_insert_keys(t, path, v);
        match obj_insert(t, path, v) {
            Ok(rest) => {
                let out = seq![es[0]] + rest;
                assert forall|j: int| 0 <= j < out.len() implies (#[trigger] out[j].0 == path[0]
                    || TreeV::entry_has_key(es, out[j].0)) by {
                    if j == 0 {
                        assert(out[0] == es[0]);
                        assert(es[0].0 == out[0].0);
                    } else {
                        assert(out[j] == rest[j - 1]);
                        if rest[j - 1].0 != path[0] {
                            let l = choose|l: int|
                                0 <= l < t.len() && #[trigger] t[l].0 == rest[j - 1].0;
                            assert(es[l + 1].0 == rest[j - 1].0);
                        }
                    }
                }
            },
            Err(_) => {},
        }
    }
}

/// Setting a leaf at a path keeps every object's keys distinct.
proof fn lemma_obj_insert_distinct(
    es: Seq<(Seq<char>, TreeV)>,
    path: Seq<Seq<char>>,
    v: Seq<char>,
)
    requires
        tree_distinct(TreeV::Obj(es)),
    ensures
        obj_insert(es, path, v) matches Ok(out) ==> tree_distinct(TreeV::Obj(out)),
    decreases path.len(), es.len(),
{
    if path.len() == 0 {
    } else if es.len() == 0 {
        lemma_make_chain_distinct(path.drop_first(), v);
        let out = seq![(path[0], make_chain(path.drop_first(), v))];
        assert(forall|i: int| 0 <= i < out.len() ==> tree_distinct(#[trigger] out[i].1));
        assert(tree_distinct(TreeV::Obj(out)));
    } else if es[0].0 == path[0] {
        if path.len() == 1 {
            let out = seq![(path[0], TreeV::Leaf(v))] + es.drop_first();
            assert(forall|i: int| 0 < i < es.len() ==> out[i] == es[i]);
            assert(TreeV::distinct_keys(out));
            assert(forall|i: int| 0 <= i < out.len() ==> tree_distinct(#[trigger] out[i].1)) by {
                assert(forall|i: int|
                    0 < i < out.len() ==> out[i] == es[i] && tree_distinct(es[i].1));
            }
            assert(tree_distinct(TreeV::Obj(out)));
        } else {
            match es[0].1 {
                TreeV::Leaf(_) => {},
                TreeV::Obj(ces) => {
                    assert(tree_distinct(es[0].1));
                    lemma_obj_insert_distinct(ces, path.drop_first(), v);
                    match obj_insert(ces, path.drop_first(), v) {
                        Ok(c2) => {
                            let out = seq![(path[0], TreeV::Obj(c2))] + es.drop_first();
                            assert(forall|i: int| 0 < i < es.len() ==> out[i] == es[i]);
                            assert(TreeV::distinct_keys(out));
                            assert(forall|i: int|
                                0 <= i < out.len() ==> tree_distinct(#[trigger] out[i].1)) by {
                                assert(forall|i: int|
                                    0 < i < out.len() ==> out[i] == es[i] && tree_distinct(
                                        es[i].1,
                                    ));
                            }
                            assert(tree_distinct(TreeV::Obj(out)));
                        },
                        Err(_) => {},
                    }
                },
            }
        }
    } else {
        let t = es.drop_first();
        assert(tree_distinct(TreeV::Obj(t))) by {
            assert(forall|i: int| 0 <= i < t.len() ==> t[i] == es[i + 1]);
        }
        lemma_obj_insert_distinct(t, path, v);
        match obj_insert(t, path, v) {
            Ok(rest) => {
                let out = seq![es[0]] + rest;
                lemma_obj_insert_keys(t, path, v);
                assert forall|i: int, j: int| 0 <= i < j < out.len() implies #[trigger] out[i].0
                    != #[trigger] out[j].0 by {
                    if i == 0 {
                        assert(out[j] == rest[j - 1]);
                    } else {
                        assert(out[i] == rest[i - 1] && out[j] == rest[j - 1]);
                    }
                }
                assert(forall|i: int| 0 <= i < out.len() ==> tree_distinct(#[trigger] out[i].1))
                    by {
                    assert(tree_distinct(es[0].1));
                    assert(forall|i: int|
                        0 < i < out.len() ==> out[i] == rest[i - 1] && tree_distinct(
                            rest[i - 1].1,
                        ));
                }
                assert(tree_distinct(TreeV::Obj(out)));
            },
            Err(_) => {},
        }
    }
}

/// What a flat mapping unflattens to holds each key once at every
/// level.
pub proof fn lemma_unflatten_distinct(es: Seq<(Seq<char>, Seq<char>)>)
    ensures
        unflatten_entries(es) matches Ok(acc) ==> tree_distinct(TreeV::Obj(acc)),
    decreases es.len(),
{
    if es.len() == 0 {
        let acc = Seq::<(Seq<char>, TreeV)>::empty();
        assert(tree_distinct(TreeV::Obj(acc)));
    } else {
        lemma_unflatten_distinct(es.drop_last());
        match unflatten_entries(es.drop_last()) {
            Ok(acc) => {
                lemma_obj_insert_distinct(acc, crate::strutil::split_key(es.last().0), es.last().1);
            },
            Err(_) => {},
        }
    }
}

/// Law: merging the tree a flat mapping unflattens to with that same
/// tree gives it back unchanged.
pub proof fn lemma_merge_unflatten_idempotent(m: Seq<(Seq<char>, Seq<char>)>)
    requires
        unflatten_spec(m) is Ok,
    ensures
        merge_one(unflatten_spec(m)->Ok_0, unflatten_spec(m)->Ok_0) == unflatten_spec(m)->Ok_0,
{
    lemma_unflatten_distinct(m);
    lemma_merge_idempotent(unflatten_spec(m)->Ok_0);
}

} // verus!
