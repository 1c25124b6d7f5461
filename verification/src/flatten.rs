use vstd::prelude::*;
use crate::flatmap::{fm_insert, map_of, distinct_pair_keys, lemma_fm_insert, FlatMap};
use crate::strutil::{joined_key, join_prefix};
use crate::tree::{entries_view, lemma_entries_view, tree_view, JsonTree, TreeV};
use crate::errors::StructureConflict;
use crate::strutil::{split_key, views_of};

verus! {

/// The flat projection of a tree under a key prefix: one entry per leaf,
/// keyed by the dotted path down to it, in document order.
pub open spec fn flat_entries(t: TreeV, prefix: Seq<char>) -> Seq<(Seq<char>, Seq<char>)>
    decreases t,
{
    match t {
        TreeV::Leaf(s) => seq![(prefix, s)],
        TreeV::Obj(es) => flat_entries_list(es, prefix),
    }
}

/// The flat projections of an entry list, concatenated in order.
pub open spec fn flat_entries_list(
    es: Seq<(Seq<char>, TreeV)>,
    prefix: Seq<char>,
) -> Seq<(Seq<char>, Seq<char>)>
    decreases es,
{
    if es.len() == 0 {
        Seq::empty()
    } else {
        flat_entries(es[0].1, joined_key(prefix, es[0].0)) + flat_entries_list(
            es.drop_first(),
            prefix,
        )
    }
}

/// Inserts the entries of `es` into `acc` left to right; a repeated key
/// keeps its first position and takes the later value.
pub open spec fn fm_insert_all(
    acc: Seq<(Seq<char>, Seq<char>)>,
    es: Seq<(Seq<char>, Seq<char>)>,
) -> Seq<(Seq<char>, Seq<char>)>
    decreases es.len(),
{
    if es.len() == 0 {
        acc
    } else {
        fm_insert_all(fm_insert(acc, es[0].0, es[0].1), es.drop_first())
    }
}

/// The mapping of an appended entry list: the right-hand entries override
/// the left.
pub proof fn lemma_map_of_append(
    xs: Seq<(Seq<char>, Seq<char>)>,
    ys: Seq<(Seq<char>, Seq<char>)>,
)
    ensures
        map_of(xs + ys) == map_of(xs).union_prefer_right(map_of(ys)),
    decreases ys.len(),
{
    if ys.len() == 0 {
        assert(xs + ys =~= xs);
        assert(map_of(xs + ys) =~= map_of(xs).union_prefer_right(map_of(ys)));
    } else {
        lemma_map_of_append(xs, ys.drop_last());
        assert((xs + ys).drop_last() =~= xs + ys.drop_last());
        assert((xs + ys).last() == ys.last());
        assert(map_of(xs + ys) =~= map_of(xs).union_prefer_right(map_of(ys)));
    }
}

/// Folding entries in keeps distinctness and denotes the combined
/// mapping, the folded entries winning over `acc`.
pub proof fn lemma_fm_insert_all(
    acc: Seq<(Seq<char>, Seq<char>)>,
    es: Seq<(Seq<char>, Seq<char>)>,
)
    requires
        distinct_pair_keys(acc),
    ensures
        distinct_pair_keys(fm_insert_all(acc, es)),
        map_of(fm_insert_all(acc, es)) == map_of(acc + es),
    decreases es.len(),
{
    if es.len() == 0 {
        assert(acc + es =~= acc);
    } else {
        lemma_fm_insert(acc, es[0].0, es[0].1);
        let acc1 = fm_insert(acc, es[0].0, es[0].1);
        lemma_fm_insert_all(acc1, es.drop_first());
        lemma_map_of_append(acc1, es.drop_first());
        lemma_map_of_append(acc, es);
        crate::flatmap::lemma_map_of_cons(es[0], es.drop_first());
        crate::flatmap::lemma_map_of_dom(es.drop_first());
        assert(es =~= seq![es[0]] + es.drop_first());
        if crate::flatmap::has_key(es.drop_first(), es[0].0) {
            assert(map_of(acc1 + es.drop_first()) =~= map_of(acc + es));
        } else {
            assert(map_of(acc1 + es.drop_first()) =~= map_of(acc + es));
        }
    }
}

/// When `acc` and `es` together hold no repeated key, folding in is plain
/// concatenation.
pub proof fn lemma_fm_insert_all_distinct(
    acc: Seq<(Seq<char>, Seq<char>)>,
    es: Seq<(Seq<char>, Seq<char>)>,
)
    requires
        distinct_pair_keys(acc + es),
    ensures
        fm_insert_all(acc, es) == acc + es,
    decreases es.len(),
{
    if es.len() == 0 {
        assert(fm_insert_all(acc, es) =~= acc + es);
    } else {
        let c = acc + es;
        assert(distinct_pair_keys(acc)) by {
            assert(forall|i: int| 0 <= i < acc.len() ==> acc[i] == c[i]);
        }
        assert(!crate::flatmap::has_key(acc, es[0].0)) by {
            if crate::flatmap::has_key(acc, es[0].0) {
                let i = choose|i: int|
                    0 <= i < acc.len() && #[trigger] acc[i].0 == es[0].0;
                assert(c[i].0 == c[acc.len() as int].0);
            }
        }
        lemma_fm_insert(acc, es[0].0, es[0].1);
        let acc1 = fm_insert(acc, es[0].0, es[0].1);
        assert(acc1 == acc.push((es[0].0, es[0].1)));
        assert(acc1 =~= acc + seq![es[0]]) by {
            assert(es[0] == (es[0].0, es[0].1));
        }
        assert(acc1 + es.drop_first() =~= acc + es);
        lemma_fm_insert_all_distinct(acc1, es.drop_first());
        assert(fm_insert_all(acc, es) =~= acc + es);
    }
}

/// A partial entry list flattens to a prefix of the whole: peeling one
/// entry off the end.
pub proof fn lemma_flat_entries_list_snoc(
    es: Seq<(Seq<char>, TreeV)>,
    prefix: Seq<char>,
)
    requires
        es.len() > 0,
    ensures
        flat_entries_list(es, prefix) == flat_entries_list(es.drop_last(), prefix) + flat_entries(
            es.last().1,
            joined_key(prefix, es.last().0),
        ),
    decreases es.len(),
{
    if es.len() == 1 {
        assert(es.drop_last() =~= Seq::<(Seq<char>, TreeV)>::empty());
        assert(es.drop_first() =~= Seq::<(Seq<char>, TreeV)>::empty());
        assert(es.last() == es[0]);
        assert(flat_entries_list(es, prefix) =~= flat_entries_list(es.drop_last(), prefix)
            + flat_entries(es.last().1, joined_key(prefix, es.last().0)));
    } else {
        let t = es.drop_first();
        lemma_flat_entries_list_snoc(t, prefix);
        assert(t.drop_last() =~= es.drop_last().drop_first());
        assert(t.last() == es.last());
        assert(es.drop_last()[0] == es[0]);
        assert(flat_entries_list(es, prefix) =~= flat_entries_list(es.drop_last(), prefix)
            + flat_entries(es.last().1, joined_key(prefix, es.last().0)));
    }
}

/// Folding a concatenation folds the parts in turn.
pub proof fn lemma_fm_insert_all_append(
    acc: Seq<(Seq<char>, Seq<char>)>,
    xs: Seq<(Seq<char>, Seq<char>)>,
    ys: Seq<(Seq<char>, Seq<char>)>,
)
    ensures
        fm_insert_all(acc, xs + ys) == fm_insert_all(fm_insert_all(acc, xs), ys),
    decreases xs.len(),
{
    if xs.len() == 0 {
        assert(xs + ys =~= ys);
    } else {
        let acc1 = fm_insert(acc, xs[0].0, xs[0].1);
        assert((xs + ys)[0] == xs[0]);
        assert((xs + ys).drop_first() =~= xs.drop_first() + ys);
        lemma_fm_insert_all_append(acc1, xs.drop_first(), ys);
    }
}

/// Flattens one subtree under `prefix` into `map`, as the recursive walk
/// of the source nested document goes: leaves become entries keyed by
/// their dotted path; a later equal key overrides an earlier one.
#[verifier::loop_isolation(false)]
pub fn flatten_json_inner(t: &JsonTree, prefix: String, map: &mut FlatMap)
    requires
        old(map).wf(),
    ensures
        final(map).wf(),
        final(map).entries() == fm_insert_all(old(map).entries(), flat_entries(t@, prefix@)),
        final(map)@ == map_of(old(map).entries() + flat_entries(t@, prefix@)),
    decreases *t,
{
    proof {
        lemma_fm_insert_all(old(map).entries(), flat_entries(t@, prefix@));
    }
    match t {
        JsonTree::Leaf(s) => {
            let ghost oldm = map.entries();
            let ghost fe = flat_entries(t@, prefix@);
            map.insert(prefix, s.clone());
            proof {
                assert(t@ == TreeV::Leaf(s@));
                assert(fe.len() == 1 && fe[0] == (prefix@, s@));
                assert(fe.drop_first() =~= Seq::<(Seq<char>, Seq<char>)>::empty());
                assert(fm_insert_all(oldm, fe) == fm_insert_all(
                    fm_insert(oldm, fe[0].0, fe[0].1),
                    fe.drop_first(),
                ));
                assert(fm_insert_all(fm_insert(oldm, fe[0].0, fe[0].1), fe.drop_first())
                    == fm_insert(oldm, prefix@, s@));
            }
        }
        JsonTree::Obj(es) => {
            let ghost evs = entries_view(es@);
            proof {
                lemma_entries_view(es@);
                assert(t@ == TreeV::Obj(evs));
            }
            let n = es.len();
            let mut i: usize = 0;
            while i < n
                invariant
                    0 <= i <= n,
                    n == es@.len(),
                    evs == entries_view(es@),
                    evs.len() == n,
                    forall|j: int|
                        0 <= j < es@.len() ==> #[trigger] evs[j] == (
                        es@[j].0@,
                        tree_view(es@[j].1),
                        ),
                    map.wf(),
                    map.entries() == fm_insert_all(
                        old(map).entries(),
                        flat_entries_list(evs.take(i as int), prefix@),
                    ),
                decreases n - i,
            {
                let key = &es[i].0;
                let new_prefix = join_prefix(prefix.as_str(), key.as_str());
                let ghost before = map.entries();
                proof {
                    assert(decreases_to!(*t => *es));
                    assert(decreases_to!(*es => es@));
                    assert(decreases_to!(es@ => es@[i as int]));
                    assert(decreases_to!(es@[i as int] => es@[i as int].1));
                    assert(decreases_to!(*t => es@[i as int].1));
                }
                flatten_json_inner(&es[i].1, new_prefix, map);
                proof {
                    let part = flat_entries_list(evs.take(i as int), prefix@);
                    let child = flat_entries(evs[i as int].1, joined_key(prefix@, evs[i as int].0));
                    assert(evs.take(i + 1).drop_last() =~= evs.take(i as int));
                    assert(evs.take(i + 1).last() == evs[i as int]);
                    lemma_flat_entries_list_snoc(evs.take(i + 1), prefix@);
                    assert(flat_entries_list(evs.take(i + 1), prefix@) == part + child);
                    lemma_fm_insert_all_append(old(map).entries(), part, child);
                }
                i = i + 1;
            }
            proof {
                assert(evs.take(n as int) =~= evs);
                assert(flat_entries(t@, prefix@) == flat_entries_list(evs, prefix@));
                lemma_fm_insert_all(old(map).entries(), flat_entries(t@, prefix@));
            }
        }
    }
}

/// Flattens a whole tree: the mapping from each leaf's dotted key path
/// to its text.
pub fn flatten_json(t: &JsonTree) -> (r: FlatMap)
    ensures
        r.wf(),
        r.entries() == fm_insert_all(
            Seq::<(Seq<char>, Seq<char>)>::empty(),
            flat_entries(t@, Seq::<char>::empty()),
        ),
        r@ == map_of(flat_entries(t@, Seq::<char>::empty())),
{
    let mut map = FlatMap::new();
    let prefix = String::new();
    flatten_json_inner(t, prefix, &mut map);
    proof {
        assert(Seq::<(Seq<char>, Seq<char>)>::empty() + flat_entries(t@, Seq::<char>::empty())
            =~= flat_entries(t@, Seq::<char>::empty()));
    }
    map
}

/// The tree a single dotted path builds: nested single-entry objects
/// down to a leaf holding the value.
pub open spec fn make_chain(path: Seq<Seq<char>>, v: Seq<char>) -> TreeV
    decreases path.len(),
{
    if path.len() == 0 {
        TreeV::Leaf(v)
    } else {
        TreeV::Obj(seq![(path[0], make_chain(path.drop_first(), v))])
    }
}

/// Sets the leaf at `path` among `es`, building missing intermediate
/// objects. The final path segment replaces whatever the key holds; an
/// intermediate segment whose key already holds a scalar is a
/// `StructureConflict`.
pub open spec fn obj_insert(
    es: Seq<(Seq<char>, TreeV)>,
    path: Seq<Seq<char>>,
    v: Seq<char>,
) -> Result<Seq<(Seq<char>, TreeV)>, StructureConflict>
    decreases path.len(), es.len(),
{
    if path.len() == 0 {
        Ok(es)
    } else if es.len() == 0 {
        Ok(seq![(path[0], make_chain(path.drop_first(), v))])
    } else if es[0].0 == path[0] {
        if path.len() == 1 {
            Ok(seq![(path[0], TreeV::Leaf(v))] + es.drop_first())
        } else {
            match es[0].1 {
                TreeV::Leaf(_) => Err(StructureConflict),
                TreeV::Obj(ces) => match obj_insert(ces, path.drop_first(), v) {
                    Ok(c2) => Ok(seq![(path[0], TreeV::Obj(c2))] + es.drop_first()),
                    Err(e) => Err(e),
                },
            }
        }
    } else {
        match obj_insert(es.drop_first(), path, v) {
            Ok(rest) => Ok(seq![es[0]] + rest),
            Err(e) => Err(e),
        }
    }
}

/// The tree a flat mapping builds back up: each entry's key is split at
/// its dots and the value set at that path, entry by entry in order.
pub open spec fn unflatten_entries(
    es: Seq<(Seq<char>, Seq<char>)>,
) -> Result<Seq<(Seq<char>, TreeV)>, StructureConflict>
    decreases es.len(),
{
    if es.len() == 0 {
        Ok(Seq::empty())
    } else {
        match unflatten_entries(es.drop_last()) {
            Ok(acc) => obj_insert(acc, split_key(es.last().0), es.last().1),
            Err(e) => Err(e),
        }
    }
}

/// The whole unflattened tree: an object at the root.
pub open spec fn unflatten_spec(
    es: Seq<(Seq<char>, Seq<char>)>,
) -> Result<TreeV, StructureConflict> {
    match unflatten_entries(es) {
        Ok(acc) => Ok(TreeV::Obj(acc)),
        Err(e) => Err(e),
    }
}

/// `obj_insert` on a key held at position `j` (and nowhere earlier)
/// works in place at `j`.
pub proof fn lemma_obj_insert_found(
    es: Seq<(Seq<char>, TreeV)>,
    path: Seq<Seq<char>>,
    v: Seq<char>,
    j: int,
)
    requires
        path.len() >= 1,
        0 <= j < es.len(),
        es[j].0 == path[0],
        forall|l: int| 0 <= l < j ==> #[trigger] es[l].0 != path[0],
    ensures
        path.len() == 1 ==> obj_insert(es, path, v) == Ok::<_, StructureConflict>(
            es.update(j, (path[0], TreeV::Leaf(v))),
        ),
        path.len() > 1 && es[j].1 is Leaf ==> obj_insert(es, path, v) == Err::<
            Seq<(Seq<char>, TreeV)>,
            _,
        >(StructureConflict),
        path.len() > 1 && es[j].1 is Obj ==> obj_insert(es, path, v) == (match obj_insert(
            es[j].1->Obj_0,
            path.drop_first(),
            v,
        ) {
            Ok(c2) => Ok::<_, StructureConflict>(es.update(j, (path[0], TreeV::Obj(c2)))),
            Err(e) => Err(e),
        }),
    decreases j,
{
    if j == 0 {
        if path.len() == 1 {
            assert(seq![(path[0], TreeV::Leaf(v))] + es.drop_first() =~= es.update(
                0,
                (path[0], TreeV::Leaf(v)),
            ));
        } else if es[0].1 is Obj {
            match obj_insert(es[0].1->Obj_0, path.drop_first(), v) {
                Ok(c2) => {
                    assert(seq![(path[0], TreeV::Obj(c2))] + es.drop_first() =~= es.update(
                        0,
                        (path[0], TreeV::Obj(c2)),
                    ));
                },
                Err(_) => {},
            }
        }
    } else {
        let t = es.drop_first();
        assert(t[j - 1].0 == path[0]);
        assert(forall|l: int| 0 <= l < j - 1 ==> #[trigger] t[l].0 != path[0]);
        lemma_obj_insert_found(t, path, v, j - 1);
        assert(es[0].0 != path[0]);
        if path.len() == 1 {
            assert(seq![es[0]] + t.update(j - 1, (path[0], TreeV::Leaf(v))) =~= es.update(
                j,
                (path[0], TreeV::Leaf(v)),
            ));
        } else {
            assert(t[j - 1] == es[j]);
            if es[j].1 is Obj {
                match obj_insert(es[j].1->Obj_0, path.drop_first(), v) {
                    Ok(c2) => {
                        assert(seq![es[0]] + t.update(j - 1, (path[0], TreeV::Obj(c2)))
                            =~= es.update(j, (path[0], TreeV::Obj(c2))));
                    },
                    Err(_) => {},
                }
            }
        }
    }
}

/// `obj_insert` on a key held nowhere appends a fresh chain at the end.
pub proof fn lemma_obj_insert_absent(es: Seq<(Seq<char>, TreeV)>, path: Seq<Seq<char>>, v: Seq<char>)
    requires
        path.len() >= 1,
        forall|l: int| 0 <= l < es.len() ==> #[trigger] es[l].0 != path[0],
    ensures
        obj_insert(es, path, v) == Ok::<_, StructureConflict>(
            es.push((path[0], make_chain(path.drop_first(), v))),
        ),
    decreases es.len(),
{
    if es.len() == 0 {
        assert(seq![(path[0], make_chain(path.drop_first(), v))] =~= es.push(
            (path[0], make_chain(path.drop_first(), v)),
        ));
    } else {
        let t = es.drop_first();
        assert(forall|l: int| 0 <= l < t.len() ==> #[trigger] t[l].0 != path[0]);
        lemma_obj_insert_absent(t, path, v);
        assert(seq![es[0]] + t.push((path[0], make_chain(path.drop_first(), v))) =~= es.push(
            (path[0], make_chain(path.drop_first(), v)),
        ));
    }
}

/// Builds the nested single-entry objects for the path segments from
/// `pidx` on, ending in a leaf with `value`.
fn make_chain_exec(path: &Vec<String>, pidx: usize, value: String) -> (r: JsonTree)
    requires
        pidx <= path@.len(),
    ensures
        r@ == make_chain(views_of(path@).skip(pidx as int), value@),
    decreases path@.len() - pidx,
{
    if pidx == path.len() {
        let r = JsonTree::Leaf(value);
        proof {
            assert(views_of(path@).skip(pidx as int) =~= Seq::<Seq<char>>::empty());
        }
        r
    } else {
        let key = path[pidx].clone();
        let ghost keyv = key@;
        let child = make_chain_exec(path, pidx + 1, value);
        let ghost childv = child@;
        let mut v: Vec<(String, JsonTree)> = Vec::new();
        v.push((key, child));
        let r = JsonTree::Obj(v);
        proof {
            let p = views_of(path@).skip(pidx as int);
            assert(p[0] == views_of(path@)[pidx as int]);
            assert(p.drop_first() =~= views_of(path@).skip(pidx + 1));
            assert(v@.drop_last() =~= Seq::<(String, JsonTree)>::empty());
            assert(entries_view(v@.drop_last()) =~= Seq::<(Seq<char>, TreeV)>::empty());
            assert(v@.last() == (path@[pidx as int], child)) by {
                assert(v@.last().0@ == keyv);
            }
            assert(entries_view(v@) =~= seq![(keyv, childv)]);
            assert(r@ == TreeV::Obj(seq![(keyv, childv)]));
            assert(make_chain(p, value@) == TreeV::Obj(
                seq![(p[0], make_chain(p.drop_first(), value@))],
            ));
        }
        r
    }
}

/// Sets the leaf at the path segments from `pidx` on among the entries
/// `es`, as `obj_insert` describes.
#[verifier::loop_isolation(false)]
fn obj_insert_exec(
    es: Vec<(String, JsonTree)>,
    path: &Vec<String>,
    pidx: usize,
    value: String,
) -> (r: Result<Vec<(String, JsonTree)>, StructureConflict>)
    requires
        pidx < path@.len(),
    ensures
        match r {
            Ok(out) => obj_insert(
                entries_view(es@),
                views_of(path@).skip(pidx as int),
                value@,
            ) == Ok::<_, StructureConflict>(entries_view(out@)),
            Err(e) => obj_insert(
                entries_view(es@),
                views_of(path@).skip(pidx as int),
                value@,
            ) == Err::<Seq<(Seq<char>, TreeV)>, _>(e),
        },
    decreases path@.len() - pidx,
{
    let ghost esv = entries_view(es@);
    let ghost p = views_of(path@).skip(pidx as int);
    let plen = path.len();
    proof {
        lemma_entries_view(es@);
        assert(p[0] == views_of(path@)[pidx as int]);
        assert(p.len() >= 1);
    }
    let mut es = es;
    let n = es.len();
    let mut j: usize = 0;
    while j < n && !crate::strutil::str_eq(es[j].0.as_str(), path[pidx].as_str())
        invariant
            0 <= j <= n,
            es@.len() == n,
            entries_view(es@) == esv,
            forall|l: int| 0 <= l < j ==> #[trigger] esv[l].0 != p[0],
        decreases n - j,
    {
        proof {
            assert(esv[j as int] == (es@[j as int].0@, tree_view(es@[j as int].1)));
        }
        j = j + 1;
    }
    if j == n {
        proof {
            lemma_obj_insert_absent(esv, p, value@);
        }
        let chain = make_chain_exec(path, pidx + 1, value);
        let ghost chainv = chain@;
        let key = path[pidx].clone();
        es.push((key, chain));
        proof {
            lemma_entries_view(es@);
            assert(views_of(path@).skip(pidx + 1) =~= p.drop_first());
            assert(entries_view(es@) =~= esv.push((p[0], chainv)));
        }
        Ok(es)
    } else {
        proof {
            assert(esv[j as int] == (es@[j as int].0@, tree_view(es@[j as int].1)));
            assert(esv[j as int].0 == p[0]);
            lemma_obj_insert_found(esv, p, value@, j as int);
        }
        if pidx + 1 == plen {
            let e = &mut es[j];
            e.1 = JsonTree::Leaf(value);
            proof {
                lemma_entries_view(es@);
                assert(p.len() == 1);
                assert(entries_view(es@) =~= esv.update(j as int, (p[0], TreeV::Leaf(value@))));
            }
            Ok(es)
        } else {
            let (key, child) = es.remove(j);
            match child {
                JsonTree::Leaf(_) => {
                    proof {
                        assert(esv[j as int].1 is Leaf);
                    }
                    Err(StructureConflict)
                },
                JsonTree::Obj(ces) => {
                    let ghost cesv = entries_view(ces@);
                    proof {
                        assert(esv[j as int].1 == TreeV::Obj(cesv));
                        assert(views_of(path@).skip(pidx + 1) =~= p.drop_first());
                    }
                    match obj_insert_exec(ces, path, pidx + 1, value) {
                        Ok(c2) => {
                            let ghost c2v = entries_view(c2@);
                            es.insert(j, (key, JsonTree::Obj(c2)));
                            proof {
                                lemma_entries_view(es@);
                                lemma_entries_view(c2@);
                                assert(entries_view(es@) =~= esv.update(
                                    j as int,
                                    (p[0], TreeV::Obj(c2v)),
                                ));
                            }
                            Ok(es)
                        },
                        Err(e) => Err(e),
                    }
                },
            }
        }
    }
}

/// Rebuilds the nested tree a flat mapping describes: the inverse of
/// `flatten_json` on trees the flattening did not collapse. Later keys
/// may deepen a path an earlier key began; a key that needs an already
/// scalar-valued prefix as an object is a `StructureConflict`.
pub fn unflatten(map: &FlatMap) -> (r: Result<JsonTree, StructureConflict>)
    ensures
        r is Ok <==> unflatten_spec(map.entries()) is Ok,
        r is Ok ==> r->Ok_0@ == unflatten_spec(map.entries())->Ok_0,
{
    let ghost all = map.entries();
    let mut acc: Vec<(String, JsonTree)> = Vec::new();
    let n = map.len();
    let mut i: usize = 0;
    proof {
        assert(entries_view(acc@) =~= Seq::<(Seq<char>, TreeV)>::empty());
        assert(all.take(0) =~= Seq::<(Seq<char>, Seq<char>)>::empty());
    }
    while i < n
        invariant
            0 <= i <= n,
            n == all.len(),
            all == map.entries(),
            unflatten_entries(all.take(i as int)) == Ok::<_, StructureConflict>(
                entries_view(acc@),
            ),
        decreases n - i,
    {
        let pair = map.pair_at(i);
        let key = pair.0;
        let value = pair.1.clone();
        let path = crate::strutil::split_dots(key.as_str());
        proof {
            assert(all.take(i + 1).drop_last() =~= all.take(i as int));
            assert(all.take(i + 1).last() == all[i as int]);
            assert(views_of(path@).skip(0) =~= views_of(path@));
        }
        match obj_insert_exec(acc, &path, 0, value) {
            Ok(next) => {
                acc = next;
            },
            Err(e) => {
                proof {
                    assert(unflatten_entries(all.take(i + 1)) == Err::<
                        Seq<(Seq<char>, TreeV)>,
                        _,
                    >(e));
                    lemma_unflatten_err_persists(all, i + 1);
                }
                return Err(e);
            },
        }
        i = i + 1;
    }
    proof {
        assert(all.take(n as int) =~= all);
    }
    Ok(JsonTree::Obj(acc))
}

/// Once a prefix of the entries fails to unflatten, the whole list does.
pub proof fn lemma_unflatten_err_persists(es: Seq<(Seq<char>, Seq<char>)>, i: int)
    requires
        0 <= i <= es.len(),
        unflatten_entries(es.take(i)) is Err,
    ensures
        unflatten_entries(es) is Err,
        unflatten_entries(es) == unflatten_entries(es.take(i)),
    decreases es.len() - i,
{
    if i < es.len() {
        assert(es.take(i + 1).drop_last() =~= es.take(i));
        lemma_unflatten_err_persists(es, i + 1);
    } else {
        assert(es.take(i) =~= es);
    }
}

} // verus!
