use vstd::prelude::*;
use crate::strutil::{is_blank, is_blank_chars};
use crate::tree::{entries_view, lemma_entries_view, tree_view, JsonTree, TreeV};

verus! {

/// The combined tree for one key both sides hold. Two objects merge
/// entry-wise; a non-blank remote scalar wins over anything local; a
/// blank remote scalar counts as "not yet translated" and keeps the
/// local value; a remote object replaces a local scalar.
pub open spec fn merge_one(lv: TreeV, rv: TreeV) -> TreeV
    decreases lv,
{
    match rv {
        TreeV::Leaf(rs) => if is_blank_chars(rs) {
            lv
        } else {
            TreeV::Leaf(rs)
        },
        TreeV::Obj(res) => match lv {
            TreeV::Obj(les) => TreeV::Obj(
                merge_entries_local(les, res) + merge_entries_remote(les, res),
            ),
            TreeV::Leaf(_) => TreeV::Obj(res),
        },
    }
}

/// The local entries after a merge, in local order: a key the remote
/// also holds merges with the remote value; a local-only key is kept.
pub open spec fn merge_entries_local(
    les: Seq<(Seq<char>, TreeV)>,
    res: Seq<(Seq<char>, TreeV)>,
) -> Seq<(Seq<char>, TreeV)>
    decreases les,
{
    if les.len() == 0 {
        Seq::empty()
    } else {
        let e = les.last();
        let head = match TreeV::entry_lookup(res, e.0) {
            Some(rv) => (e.0, merge_one(e.1, rv)),
            None => e,
        };
        merge_entries_local(les.drop_last(), res) + seq![head]
    }
}

/// The remote-only entries appended after a merge, in remote order:
/// every key the local side lacks is added with the remote's value.
pub open spec fn merge_entries_remote(
    les: Seq<(Seq<char>, TreeV)>,
    res: Seq<(Seq<char>, TreeV)>,
) -> Seq<(Seq<char>, TreeV)>
    decreases res,
{
    if res.len() == 0 {
        Seq::empty()
    } else {
        let e = res.last();
        let rest = merge_entries_remote(les, res.drop_last());
        if TreeV::entry_has_key(les, e.0) {
            rest
        } else {
            rest + seq![e]
        }
    }
}

/// The first entry with `key` decides `entry_lookup`; absence decides
/// `None`.
pub proof fn lemma_entry_lookup_at(es: Seq<(Seq<char>, TreeV)>, key: Seq<char>, j: int)
    requires
        0 <= j < es.len(),
        es[j].0 == key,
        forall|l: int| 0 <= l < j ==> #[trigger] es[l].0 != key,
    ensures
        TreeV::entry_lookup(es, key) == Some(es[j].1),
    decreases j,
{
    if j > 0 {
        let t = es.drop_first();
        assert(t[j - 1].0 == key);
        assert(forall|l: int| 0 <= l < j - 1 ==> #[trigger] t[l].0 != key);
        lemma_entry_lookup_at(t, key, j - 1);
    }
}

/// Deep copy of a tree.
#[verifier::loop_isolation(false)]
pub fn clone_tree(t: &JsonTree) -> (r: JsonTree)
    ensures
        r@ == t@,
    decreases *t,
{
    match t {
        JsonTree::Leaf(s) => JsonTree::Leaf(s.clone()),
        JsonTree::Obj(es) => {
            let n = es.len();
            let mut out: Vec<(String, JsonTree)> = Vec::new();
            let mut i: usize = 0;
            proof {
                lemma_entries_view(es@);
            }
            while i < n
                invariant
                    0 <= i <= n,
                    n == es@.len(),
                    entries_view(out@) == entries_view(es@).take(i as int),
                decreases n - i,
            {
                proof {
                    assert(decreases_to!(*t => *es));
                    assert(decreases_to!(*es => es@));
                    assert(decreases_to!(es@ => es@[i as int]));
                    assert(decreases_to!(es@[i as int] => es@[i as int].1));
                }
                let c = clone_tree(&es[i].1);
                let ghost prev = out@;
                let k = es[i].0.clone();
                let ghost pushed = (k, c);
                out.push((k, c));
                proof {
                    crate::tree::lemma_entries_view_push(prev, pushed);
                    assert((pushed.0@, tree_view(pushed.1)) == entries_view(es@)[i as int]);
                    assert(entries_view(es@).take(i + 1).drop_last() =~= entries_view(es@).take(
                        i as int,
                    ));
                    assert(entries_view(es@).take(i + 1).last() == entries_view(es@)[i as int]);
                    assert(entries_view(out@) =~= entries_view(es@).take(i + 1));
                }
                i = i + 1;
            }
            proof {
                assert(entries_view(es@).take(n as int) =~= entries_view(es@));
            }
            JsonTree::Obj(out)
        },
    }
}

/// The subtree at `key` among `es`, if any; the first occurrence
/// decides.
#[verifier::loop_isolation(false)]
pub fn obj_get<'a>(es: &'a Vec<(String, JsonTree)>, key: &str) -> (r: Option<&'a JsonTree>)
    ensures
        match r {
            Some(c) => TreeV::entry_lookup(entries_view(es@), key@) == Some(c@),
            None => TreeV::entry_lookup(entries_view(es@), key@) is None,
        },
{
    proof {
        lemma_entries_view(es@);
    }
    let ghost esv = entries_view(es@);
    let n = es.len();
    let mut i: usize = 0;
    while i < n
        invariant
            0 <= i <= n,
            n == es@.len(),
            forall|l: int| 0 <= l < i ==> #[trigger] esv[l].0 != key@,
        decreases n - i,
    {
        if crate::strutil::str_eq(es[i].0.as_str(), key) {
            proof {
                assert(esv[i as int] == (es@[i as int].0@, tree_view(es@[i as int].1)));
                lemma_entry_lookup_at(esv, key@, i as int);
            }
            return Some(&es[i].1);
        }
        proof {
            assert(esv[i as int] == (es@[i as int].0@, tree_view(es@[i as int].1)));
        }
        i = i + 1;
    }
    proof {
        crate::tree::lemma_entry_lookup_some(esv, key@);
        if TreeV::entry_has_key(esv, key@) {
            let l = choose|l: int| 0 <= l < esv.len() && #[trigger] esv[l].0 == key@;
            assert(false);
        }
    }
    None
}

/// Combines a local and a remote translation tree: remote wins on
/// every key it holds a non-blank value for; a key the remote left
/// blank keeps its local value; local-only keys are kept and
/// remote-only keys are added.
#[verifier::loop_isolation(false)]
pub fn merge_json_content(local: &JsonTree, remote: &JsonTree) -> (r: JsonTree)
    ensures
        r@ == merge_one(local@, remote@),
    decreases *local, *remote,
{
    match remote {
        JsonTree::Leaf(rs) => {
            if is_blank(rs.as_str()) {
                clone_tree(local)
            } else {
                JsonTree::Leaf(rs.clone())
            }
        },
        JsonTree::Obj(res) => {
            match local {
                JsonTree::Leaf(_) => clone_tree(remote),
                JsonTree::Obj(les) => {
                    let ghost lesv = entries_view(les@);
                    let ghost resv = entries_view(res@);
                    proof {
                        lemma_entries_view(les@);
                        lemma_entries_view(res@);
                    }
                    let mut out: Vec<(String, JsonTree)> = Vec::new();
                    let nl = les.len();
                    let mut i: usize = 0;
                    while i < nl
                        invariant
                            0 <= i <= nl,
                            nl == les@.len(),
                            entries_view(out@) == merge_entries_local(
                                lesv.take(i as int),
                                resv,
                            ),
                        decreases nl - i,
                    {
                        let key = &les[i].0;
                        let merged_child: JsonTree = match obj_get(res, key.as_str()) {
                            Some(rv) => {
                                proof {
                                    assert(decreases_to!(*local => *les));
                                    assert(decreases_to!(*les => les@));
                                    assert(decreases_to!(les@ => les@[i as int]));
                                    assert(decreases_to!(les@[i as int] => les@[i as int].1));
                                }
                                merge_json_content(&les[i].1, rv)
                            },
                            None => clone_tree(&les[i].1),
                        };
                        let ghost prev = out@;
                        let k = key.clone();
                        let ghost pushed = (k, merged_child);
                        out.push((k, merged_child));
                        proof {
                            crate::tree::lemma_entries_view_push(prev, pushed);
                            assert(lesv.take(i + 1).drop_last() =~= lesv.take(i as int));
                            assert(lesv.take(i + 1).last() == lesv[i as int]);
                            assert(lesv[i as int] == (les@[i as int].0@, tree_view(les@[i as int].1)));
                            assert(entries_view(out@) =~= merge_entries_local(
                                lesv.take(i + 1),
                                resv,
                            ));
                        }
                        i = i + 1;
                    }
                    proof {
                        assert(lesv.take(nl as int) =~= lesv);
                    }
                    let nr = res.len();
                    let mut j: usize = 0;
                    while j < nr
                        invariant
                            0 <= j <= nr,
                            nr == res@.len(),
                            entries_view(out@) == merge_entries_local(lesv, resv)
                                + merge_entries_remote(lesv, resv.take(j as int)),
                        decreases nr - j,
                    {
                        let rkey = &res[j].0;
                        let ghost out_before = entries_view(out@);
                        proof {
                            assert(resv.take(j + 1).drop_last() =~= resv.take(j as int));
                            assert(resv.take(j + 1).last() == resv[j as int]);
                            assert(resv[j as int] == (res@[j as int].0@, tree_view(res@[j as int].1)));
                            crate::tree::lemma_entry_lookup_some(lesv, rkey@);
                        }
                        match obj_get(les, rkey.as_str()) {
                            Some(_) => {
                                proof {
                                    assert(merge_entries_remote(lesv, resv.take(j + 1))
                                        =~= merge_entries_remote(lesv, resv.take(j as int)));
                                }
                            },
                            None => {
                                let c = clone_tree(&res[j].1);
                                let ghost prev = out@;
                                let k = rkey.clone();
                                let ghost pushed = (k, c);
                                out.push((k, c));
                                proof {
                                    crate::tree::lemma_entries_view_push(prev, pushed);
                                    assert((pushed.0@, tree_view(pushed.1)) == resv[j as int]);
                                    assert(entries_view(out@) =~= out_before + seq![
                                        resv[j as int],
                                    ]);
                                    assert(merge_entries_remote(lesv, resv.take(j + 1))
                                        =~= merge_entries_remote(lesv, resv.take(j as int))
                                        + seq![resv[j as int]]);
                                    assert(entries_view(out@) =~= merge_entries_local(
                                        lesv,
                                        resv,
                                    ) + merge_entries_remote(lesv, resv.take(j + 1)));
                                }
                            },
                        }
                        j = j + 1;
                    }
                    proof {
                        assert(resv.take(nr as int) =~= resv);
                        assert(local@ == TreeV::Obj(lesv));
                        assert(remote@ == TreeV::Obj(resv));
                    }
                    JsonTree::Obj(out)
                },
            }
        },
    }
}

} // verus!
