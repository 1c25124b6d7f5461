use vstd::prelude::*;
use crate::errors::StructureConflict;
use crate::flatten::{flat_entries, flat_entries_list, make_chain, obj_insert, unflatten_entries,
    unflatten_spec};
use crate::strutil::{joined_key, lemma_split_key_at_first_dot, split_key};
use crate::tree::TreeV;

verus! {

/// A usable key segment: non-empty and free of dots. Only keys built
/// from such segments survive the flatten/unflatten round trip, since
/// a dot inside a key or an empty segment is indistinguishable from
/// path structure in the flat form.
pub open spec fn seg_ok(k: Seq<char>) -> bool {
    k.len() > 0 && forall|i: int| 0 <= i < k.len() ==> k[i] != '.'
}

/// A tree the flattening loses nothing of: distinct, non-empty,
/// dot-free keys at every object, and no empty objects below the root
/// (an empty object leaves no flat entry behind).
pub open spec fn canonical_entries(es: Seq<(Seq<char>, TreeV)>) -> bool
    decreases es,
{
    TreeV::distinct_keys(es) && (forall|i: int|
        0 <= i < es.len() ==> seg_ok(#[trigger] es[i].0) && canonical_subtree(es[i].1))
}

pub open spec fn canonical_subtree(t: TreeV) -> bool
    decreases t,
{
    match t {
        TreeV::Leaf(_) => true,
        TreeV::Obj(es) => es.len() > 0 && canonical_entries(es),
    }
}

/// The dotted key of a segment path.
pub open spec fn join_path(p: Seq<Seq<char>>) -> Seq<char>
    decreases p.len(),
{
    if p.len() == 0 {
        Seq::empty()
    } else if p.len() == 1 {
        p[0]
    } else {
        p[0] + seq!['.'] + join_path(p.drop_first())
    }
}

/// Splitting recovers the segments of a joined dot-free path.
proof fn lemma_split_join(p: Seq<Seq<char>>)
    requires
        p.len() >= 1,
        forall|i: int, c: int|
            0 <= i < p.len() && 0 <= c < p[i].len() ==> #[trigger] p[i][c] != '.',
    ensures
        split_key(join_path(p)) == p,
    decreases p.len(),
{
    if p.len() == 1 {
        lemma_split_key_at_first_dot(p[0], p[0].len() as int);
        assert(split_key(join_path(p)) =~~= p);
    } else {
        let j = join_path(p);
        let d = p[0].len() as int;
        let rest = p.drop_first();
        assert(forall|i: int, c: int|
            0 <= i < rest.len() && 0 <= c < rest[i].len() ==> #[trigger] rest[i][c] != '.') by {
            assert(forall|i: int| 0 <= i < rest.len() ==> rest[i] == p[i + 1]);
        }
        lemma_split_join(rest);
        assert(forall|c: int| 0 <= c < d ==> j[c] == p[0][c] && j[c] != '.');
        assert(j[d] == '.');
        lemma_split_key_at_first_dot(j, d);
        assert(j.subrange(0, d) =~= p[0]);
        assert(j.subrange(d + 1, j.len() as int) =~= join_path(rest));
        assert(split_key(j) =~= seq![p[0]] + rest);
        assert(seq![p[0]] + rest =~= p);
    }
}

/// Appending a segment appends it to the dotted key.
proof fn lemma_join_push(p: Seq<Seq<char>>, k: Seq<char>)
    requires
        p.len() >= 1,
    ensures
        join_path(p.push(k)) == join_path(p) + seq!['.'] + k,
    decreases p.len(),
{
    if p.len() == 1 {
        assert(p.push(k).drop_first() =~= seq![k]);
        assert(p.push(k)[0] == p[0]);
        assert(join_path(seq![k]) == k);
        assert(join_path(p.push(k)) == p.push(k)[0] + seq!['.'] + join_path(
            p.push(k).drop_first(),
        ));
        assert(join_path(p.push(k)) =~= p[0] + seq!['.'] + k);
    } else {
        assert(p.push(k).drop_first() =~= p.drop_first().push(k));
        lemma_join_push(p.drop_first(), k);
        assert(p.push(k)[0] == p[0]);
        assert(join_path(p.push(k)) =~= join_path(p) + seq!['.'] + k) by {
            assert(join_path(p.push(k)) == p[0] + seq!['.'] + (join_path(p.drop_first()) + seq![
                '.',
            ] + k));
            assert(join_path(p) == p[0] + seq!['.'] + join_path(p.drop_first()));
        }
    }
}

/// A non-empty path of non-empty segments joins to a non-empty key, so
/// `joined_key` extends it with a dot rather than starting over.
proof fn lemma_join_nonempty(p: Seq<Seq<char>>)
    requires
        p.len() >= 1,
        p[0].len() > 0,
    ensures
        join_path(p).len() > 0,
{
}

/// `joined_key` on a joined path appends a segment.
proof fn lemma_joined_key_join(p: Seq<Seq<char>>, k: Seq<char>)
    requires
        forall|i: int| 0 <= i < p.len() ==> (#[trigger] p[i]).len() > 0,
    ensures
        joined_key(join_path(p), k) == join_path(p.push(k)),
{
    if p.len() == 0 {
        assert(p.push(k) =~= seq![k]);
        assert(join_path(seq![k]) == k);
    } else {
        lemma_join_nonempty(p);
        lemma_join_push(p, k);
    }
}

/// The flat entries of a subtree, with each key still a segment path
/// rather than a dotted string.
pub open spec fn pe(t: TreeV, pre: Seq<Seq<char>>) -> Seq<(Seq<Seq<char>>, Seq<char>)>
    decreases t,
{
    match t {
        TreeV::Leaf(s) => seq![(pre, s)],
        TreeV::Obj(es) => pe_list(es, pre),
    }
}

pub open spec fn pe_list(
    es: Seq<(Seq<char>, TreeV)>,
    pre: Seq<Seq<char>>,
) -> Seq<(Seq<Seq<char>>, Seq<char>)>
    decreases es,
{
    if es.len() == 0 {
        Seq::empty()
    } else {
        pe(es[0].1, pre.push(es[0].0)) + pe_list(es.drop_first(), pre)
    }
}

/// The flat entries are the path entries with their paths joined.
proof fn lemma_fe_pe(t: TreeV, pre: Seq<Seq<char>>)
    requires
        canonical_subtree(t),
        forall|i: int| 0 <= i < pre.len() ==> (#[trigger] pre[i]).len() > 0,
    ensures
        flat_entries(t, join_path(pre)).len() == pe(t, pre).len(),
        forall|m: int|
            0 <= m < pe(t, pre).len() ==> #[trigger] flat_entries(t, join_path(pre))[m] == (
            join_path(pe(t, pre)[m].0),
            pe(t, pre)[m].1,
            ),
    decreases t, 0int,
{
    match t {
        TreeV::Leaf(_) => {},
        TreeV::Obj(es) => {
            lemma_fe_pe_list(es, pre);
        },
    }
}

proof fn lemma_fe_pe_list(es: Seq<(Seq<char>, TreeV)>, pre: Seq<Seq<char>>)
    requires
        canonical_entries(es),
        forall|i: int| 0 <= i < pre.len() ==> (#[trigger] pre[i]).len() > 0,
    ensures
        flat_entries_list(es, join_path(pre)).len() == pe_list(es, pre).len(),
        forall|m: int|
            0 <= m < pe_list(es, pre).len() ==> #[trigger] flat_entries_list(
                es,
                join_path(pre),
            )[m] == (join_path(pe_list(es, pre)[m].0), pe_list(es, pre)[m].1),
    decreases es, 1int,
{
    if es.len() > 0 {
        let e = es[0];
        let pre1 = pre.push(e.0);
        assert(seg_ok(e.0) && canonical_subtree(e.1));
        assert(forall|i: int| 0 <= i < pre1.len() ==> (#[trigger] pre1[i]).len() > 0) by {
            assert(forall|i: int| 0 <= i < pre.len() ==> pre1[i] == pre[i]);
            assert(pre1[pre.len() as int] == e.0);
        }
        lemma_joined_key_join(pre, e.0);
        lemma_fe_pe(e.1, pre1);
        let rest = es.drop_first();
        lemma_canonical_drop_first(es);
        lemma_fe_pe_list(rest, pre);
        let fhead = flat_entries(e.1, joined_key(join_path(pre), e.0));
        let phead = pe(e.1, pre1);
        let ftail = flat_entries_list(rest, join_path(pre));
        let ptail = pe_list(rest, pre);
        assert(flat_entries_list(es, join_path(pre)) == fhead + ftail);
        assert(pe_list(es, pre) == phead + ptail);
        assert forall|m: int|
            0 <= m < pe_list(es, pre).len() implies #[trigger] flat_entries_list(
                es,
                join_path(pre),
            )[m] == (join_path(pe_list(es, pre)[m].0), pe_list(es, pre)[m].1) by {
            if m < phead.len() {
                assert((fhead + ftail)[m] == fhead[m]);
                assert((phead + ptail)[m] == phead[m]);
            } else {
                assert((fhead + ftail)[m] == ftail[m - phead.len()]);
                assert((phead + ptail)[m] == ptail[m - phead.len()]);
            }
        }
    }
}

/// Every path of `pe(t, pre)` starts with `pre`, is strictly longer
/// where `t` is an object, and its segments beyond `pre` are usable
/// key segments.
proof fn lemma_pe_paths(t: TreeV, pre: Seq<Seq<char>>)
    requires
        canonical_subtree(t),
    ensures
        forall|m: int|
            0 <= m < pe(t, pre).len() ==> (#[trigger] pe(t, pre)[m]).0.len() >= pre.len(),
        forall|m: int|
            0 <= m < pe(t, pre).len() ==> (#[trigger] pe(t, pre)[m]).0.take(pre.len() as int)
                == pre,
        t is Obj ==> forall|m: int|
            0 <= m < pe(t, pre).len() ==> (#[trigger] pe(t, pre)[m]).0.len() >= pre.len() + 1,
        forall|m: int, idx: int|
            #![trigger pe(t, pre)[m].0[idx]]
            0 <= m < pe(t, pre).len() && pre.len() <= idx < pe(t, pre)[m].0.len() ==> seg_ok(
                pe(t, pre)[m].0[idx],
            ),
    decreases t, 0int,
{
    match t {
        TreeV::Leaf(s) => {
            assert(pe(t, pre) == seq![(pre, s)]);
            assert(pe(t, pre).len() == 1);
            assert(pe(t, pre)[0].0 == pre);
            assert(pre.take(pre.len() as int) =~= pre);
            assert forall|m: int|
                0 <= m < pe(t, pre).len() implies (#[trigger] pe(t, pre)[m]).0.len()
                >= pre.len() by {
                assert(m == 0);
                assert(pe(t, pre)[m].0 == pre);
            }
            assert forall|m: int|
                0 <= m < pe(t, pre).len() implies (#[trigger] pe(t, pre)[m]).0.take(
                pre.len() as int,
            ) == pre by {
                assert(m == 0);
                assert(pe(t, pre)[m].0 == pre);
            }
        },
        TreeV::Obj(es) => {
            lemma_pe_list_paths(es, pre);
            assert(pe(t, pre) == pe_list(es, pre));
            assert forall|m: int|
                0 <= m < pe(t, pre).len() implies (#[trigger] pe(t, pre)[m]).0.len() >= pre.len()
                + 1 by {
                assert(pe(t, pre)[m] == pe_list(es, pre)[m]);
                assert(pe_list(es, pre)[m].0.len() >= pre.len() + 1);
            }
            assert forall|m: int|
                0 <= m < pe(t, pre).len() implies (#[trigger] pe(t, pre)[m]).0.take(
                pre.len() as int,
            ) == pre by {
                assert(pe(t, pre)[m] == pe_list(es, pre)[m]);
                assert(pe_list(es, pre)[m].0.take(pre.len() as int) == pre);
            }
            assert forall|m: int, idx: int|
                #![trigger pe(t, pre)[m].0[idx]]
                0 <= m < pe(t, pre).len() && pre.len() <= idx < pe(t, pre)[m].0.len()
                implies seg_ok(pe(t, pre)[m].0[idx]) by {
                assert(pe(t, pre)[m] == pe_list(es, pre)[m]);
                assert(seg_ok(pe_list(es, pre)[m].0[idx]));
            }
        },
    }
}

proof fn lemma_pe_list_paths(es: Seq<(Seq<char>, TreeV)>, pre: Seq<Seq<char>>)
    requires
        canonical_entries(es),
    ensures
        forall|m: int|
            0 <= m < pe_list(es, pre).len() ==> (#[trigger] pe_list(es, pre)[m]).0.len()
                >= pre.len() + 1,
        forall|m: int|
            0 <= m < pe_list(es, pre).len() ==> (#[trigger] pe_list(es, pre)[m]).0.take(
                pre.len() as int,
            ) == pre,
        forall|m: int, idx: int|
            #![trigger pe_list(es, pre)[m].0[idx]]
            0 <= m < pe_list(es, pre).len() && pre.len() <= idx < pe_list(es, pre)[m].0.len()
                ==> seg_ok(pe_list(es, pre)[m].0[idx]),
    decreases es, 1int,
{
    if es.len() > 0 {
        let e = es[0];
        let pre1 = pre.push(e.0);
        assert(seg_ok(e.0) && canonical_subtree(e.1));
        lemma_pe_paths(e.1, pre1);
        let rest = es.drop_first();
        lemma_canonical_drop_first(es);
        lemma_pe_list_paths(rest, pre);
        let phead = pe(e.1, pre1);
        let ptail = pe_list(rest, pre);
        let whole = pe_list(es, pre);
        assert(whole == phead + ptail);
        assert forall|m: int|
            0 <= m < whole.len() implies (#[trigger] whole[m]).0.len() >= pre.len() + 1 && whole[
            m
        ].0.take(pre.len() as int) == pre by {
            if m < phead.len() {
                assert(whole[m] == phead[m]);
                assert(phead[m].0.take(pre1.len() as int) == pre1);
                assert(whole[m].0.take(pre.len() as int) =~= pre) by {
                    assert(forall|i: int|
                        0 <= i < pre.len() ==> phead[m].0.take(pre1.len() as int)[i] == pre1[i]);
                    assert(forall|i: int| 0 <= i < pre.len() ==> pre1[i] == pre[i]);
                }
            } else {
                assert(whole[m] == ptail[m - phead.len()]);
            }
        }
        assert forall|m: int, idx: int|
            0 <= m < whole.len() && pre.len() <= idx < whole[m].0.len() implies seg_ok(
            #[trigger] whole[m].0[idx],
        ) by {
            if m < phead.len() {
                assert(whole[m] == phead[m]);
                if idx == pre.len() {
                    assert(phead[m].0.take(pre1.len() as int) == pre1);
                    assert(phead[m].0.take(pre1.len() as int)[idx] == phead[m].0[idx]);
                    assert(pre1[pre.len() as int] == e.0);
                } else {
                    assert(pre1.len() <= idx < phead[m].0.len());
                    assert(seg_ok(phead[m].0[idx]));
                }
            } else {
                assert(whole[m] == ptail[m - phead.len()]);
                assert(seg_ok(ptail[m - phead.len()].0[idx]));
            }
        }
    }
}

/// `pe` of a canonical subtree is never empty: nothing is lost.
proof fn lemma_pe_nonempty(t: TreeV, pre: Seq<Seq<char>>)
    requires
        canonical_subtree(t),
    ensures
        pe(t, pre).len() >= 1,
    decreases t, 0int,
{
    match t {
        TreeV::Leaf(_) => {},
        TreeV::Obj(es) => {
            lemma_pe_list_nonempty(es, pre);
        },
    }
}

proof fn lemma_pe_list_nonempty(es: Seq<(Seq<char>, TreeV)>, pre: Seq<Seq<char>>)
    requires
        canonical_entries(es),
        es.len() >= 1,
    ensures
        pe_list(es, pre).len() >= 1,
    decreases es, 1int,
{
    assert(seg_ok(es[0].0) && canonical_subtree(es[0].1));
    lemma_pe_nonempty(es[0].1, pre.push(es[0].0));
}

/// The same entries with the first segment of every path removed.
pub open spec fn strip1(
    pes: Seq<(Seq<Seq<char>>, Seq<char>)>,
) -> Seq<(Seq<Seq<char>>, Seq<char>)> {
    pes.map_values(|e: (Seq<Seq<char>>, Seq<char>)| (e.0.drop_first(), e.1))
}

/// Sets each path entry in turn, as `unflatten_entries` does after
/// splitting keys.
pub open spec fn insert_paths(
    acc: Seq<(Seq<char>, TreeV)>,
    pes: Seq<(Seq<Seq<char>>, Seq<char>)>,
) -> Result<Seq<(Seq<char>, TreeV)>, StructureConflict>
    decreases pes.len(),
{
    if pes.len() == 0 {
        Ok(acc)
    } else {
        match insert_paths(acc, pes.drop_last()) {
            Ok(a) => obj_insert(a, pes.last().0, pes.last().1),
            Err(e) => Err(e),
        }
    }
}

proof fn lemma_insert_paths_append(
    acc: Seq<(Seq<char>, TreeV)>,
    xs: Seq<(Seq<Seq<char>>, Seq<char>)>,
    ys: Seq<(Seq<Seq<char>>, Seq<char>)>,
)
    ensures
        insert_paths(acc, xs + ys) == (match insert_paths(acc, xs) {
            Ok(a) => insert_paths(a, ys),
            Err(e) => Err(e),
        }),
    decreases ys.len(),
{
    if ys.len() == 0 {
        assert(xs + ys =~= xs);
    } else {
        lemma_insert_paths_append(acc, xs, ys.drop_last());
        assert((xs + ys).drop_last() =~= xs + ys.drop_last());
        assert((xs + ys).last() == ys.last());
    }
}

/// Unflattening the joined keys is inserting the paths.
proof fn lemma_unflatten_as_paths(
    fs: Seq<(Seq<char>, Seq<char>)>,
    ps: Seq<(Seq<Seq<char>>, Seq<char>)>,
)
    requires
        fs.len() == ps.len(),
        forall|m: int|
            0 <= m < ps.len() ==> #[trigger] fs[m] == (join_path(ps[m].0), ps[m].1),
        forall|m: int| 0 <= m < ps.len() ==> (#[trigger] ps[m]).0.len() >= 1,
        forall|m: int, idx: int|
            #![trigger ps[m].0[idx]]
            0 <= m < ps.len() && 0 <= idx < ps[m].0.len() ==> seg_ok(ps[m].0[idx]),
    ensures
        unflatten_entries(fs) == insert_paths(Seq::<(Seq<char>, TreeV)>::empty(), ps),
    decreases fs.len(),
{
    if fs.len() > 0 {
        let fd = fs.drop_last();
        let pd = ps.drop_last();
        assert(forall|m: int| 0 <= m < pd.len() ==> fd[m] == fs[m] && pd[m] == ps[m]);
        assert(forall|m: int|
            0 <= m < pd.len() ==> #[trigger] fd[m] == (join_path(pd[m].0), pd[m].1));
        assert(forall|m: int| 0 <= m < pd.len() ==> (#[trigger] pd[m]).0.len() >= 1);
        assert forall|m: int, idx: int|
            #![trigger pd[m].0[idx]]
            0 <= m < pd.len() && 0 <= idx < pd[m].0.len() implies seg_ok(pd[m].0[idx]) by {
            assert(pd[m] == ps[m]);
            assert(seg_ok(ps[m].0[idx]));
        }
        lemma_unflatten_as_paths(fd, pd);
        let p = ps.last().0;
        assert(ps[ps.len() - 1] == ps.last());
        assert(fs[fs.len() - 1] == fs.last());
        assert(fs.last() == (join_path(p), ps.last().1));
        assert forall|c: int, i: int|
            0 <= i < p.len() && 0 <= c < p[i].len() implies #[trigger] p[i][c] != '.' by {
            assert(seg_ok(ps[ps.len() - 1].0[i]));
        }
        lemma_split_join(p);
    }
}

/// Inserting entries whose paths all pass through a key the
/// accumulator already holds as an object works inside that object.
proof fn lemma_nest(
    acc: Seq<(Seq<char>, TreeV)>,
    j: int,
    k: Seq<char>,
    pes: Seq<(Seq<Seq<char>>, Seq<char>)>,
)
    requires
        0 <= j < acc.len(),
        acc[j].0 == k,
        acc[j].1 is Obj,
        forall|l: int| 0 <= l < j ==> #[trigger] acc[l].0 != k,
        forall|m: int|
            0 <= m < pes.len() ==> (#[trigger] pes[m]).0.len() >= 2 && pes[m].0[0] == k,
    ensures
        insert_paths(acc, pes) == (match insert_paths(acc[j].1->Obj_0, strip1(pes)) {
            Ok(d2) => Ok::<_, StructureConflict>(acc.update(j, (k, TreeV::Obj(d2)))),
            Err(e) => Err(e),
        }),
    decreases pes.len(),
{
    let d = acc[j].1->Obj_0;
    if pes.len() == 0 {
        assert(strip1(pes) =~= Seq::<(Seq<Seq<char>>, Seq<char>)>::empty());
        assert(acc[j].1 == TreeV::Obj(d));
        assert(acc[j] == (k, TreeV::Obj(d)));
        assert(acc.update(j, (k, TreeV::Obj(d))) =~= acc);
    } else {
        let pd = pes.drop_last();
        assert(forall|m: int| 0 <= m < pd.len() ==> pd[m] == pes[m]);
        lemma_nest(acc, j, k, pd);
        assert(strip1(pes).drop_last() =~= strip1(pd));
        assert(pes[pes.len() - 1] == pes.last());
        assert(strip1(pes)[pes.len() - 1] == (pes.last().0.drop_first(), pes.last().1));
        assert(strip1(pes).last() == (pes.last().0.drop_first(), pes.last().1));
        let plast = pes.last().0;
        let vlast = pes.last().1;
        match insert_paths(d, strip1(pd)) {
            Ok(d1) => {
                let a1 = acc.update(j, (k, TreeV::Obj(d1)));
                assert(insert_paths(acc, pd) == Ok::<_, StructureConflict>(a1));
                assert(a1[j].0 == k && a1[j].1 == TreeV::Obj(d1));
                assert(forall|l: int| 0 <= l < j ==> #[trigger] a1[l].0 != k) by {
                    assert(forall|l: int| 0 <= l < j ==> a1[l] == acc[l]);
                }
                assert(plast.len() >= 2 && plast[0] == k);
                crate::flatten::lemma_obj_insert_found(a1, plast, vlast, j);
                match obj_insert(d1, plast.drop_first(), vlast) {
                    Ok(c2) => {
                        assert(obj_insert(a1, plast, vlast) == Ok::<_, StructureConflict>(
                            a1.update(j, (plast[0], TreeV::Obj(c2))),
                        ));
                        assert(a1.update(j, (k, TreeV::Obj(c2))) =~= acc.update(
                            j,
                            (k, TreeV::Obj(c2)),
                        ));
                    },
                    Err(_) => {},
                }
            },
            Err(e) => {
                assert(insert_paths(acc, pd) == Err::<Seq<(Seq<char>, TreeV)>, _>(e));
            },
        }
    }
}

/// Inserting such entries where the key is absent creates it once and
/// then works inside it.
proof fn lemma_absent_nest(
    acc: Seq<(Seq<char>, TreeV)>,
    k: Seq<char>,
    pes: Seq<(Seq<Seq<char>>, Seq<char>)>,
)
    requires
        pes.len() >= 1,
        forall|l: int| 0 <= l < acc.len() ==> #[trigger] acc[l].0 != k,
        forall|m: int|
            0 <= m < pes.len() ==> (#[trigger] pes[m]).0.len() >= 2 && pes[m].0[0] == k,
    ensures
        insert_paths(acc, pes) == (match insert_paths(
            Seq::<(Seq<char>, TreeV)>::empty(),
            strip1(pes),
        ) {
            Ok(d2) => Ok::<_, StructureConflict>(acc.push((k, TreeV::Obj(d2)))),
            Err(e) => Err(e),
        }),
{
    let first = pes[0];
    let rest = pes.drop_first();
    let p0 = first.0.drop_first();
    let v0 = first.1;
    assert(pes =~= seq![first] + rest);
    lemma_insert_paths_append(acc, seq![first], rest);
    // the one-entry prefix
    assert(seq![first].drop_last() =~= Seq::<(Seq<Seq<char>>, Seq<char>)>::empty());
    assert(seq![first].last() == first);
    assert(first.0[0] == k);
    crate::flatten::lemma_obj_insert_absent(acc, first.0, v0);
    assert(insert_paths(acc, seq![first].drop_last()) == Ok::<_, StructureConflict>(acc));
    assert(insert_paths(acc, seq![first]) == obj_insert(acc, first.0, v0));
    assert(insert_paths(acc, seq![first]) == Ok::<_, StructureConflict>(
        acc.push((k, make_chain(p0, v0))),
    ));
    // the chain is what inserting into nothing builds
    assert(p0.len() >= 1);
    let d1 = seq![(p0[0], make_chain(p0.drop_first(), v0))];
    assert(obj_insert(Seq::<(Seq<char>, TreeV)>::empty(), p0, v0) == Ok::<
        _,
        StructureConflict,
    >(d1));
    assert(make_chain(p0, v0) == TreeV::Obj(d1));
    let acc1 = acc.push((k, TreeV::Obj(d1)));
    // the rest nests inside the fresh object
    assert(acc1[acc.len() as int].0 == k && acc1[acc.len() as int].1 == TreeV::Obj(d1));
    assert(forall|l: int| 0 <= l < acc.len() ==> #[trigger] acc1[l].0 != k) by {
        assert(forall|l: int| 0 <= l < acc.len() ==> acc1[l] == acc[l]);
    }
    assert(forall|m: int|
        0 <= m < rest.len() ==> (#[trigger] rest[m]).0.len() >= 2 && rest[m].0[0] == k) by {
        assert(forall|m: int| 0 <= m < rest.len() ==> rest[m] == pes[m + 1]);
        assert(forall|m: int|
            0 <= m < rest.len() ==> (#[trigger] pes[m + 1]).0.len() >= 2 && pes[m + 1].0[0]
                == k);
    }
    lemma_nest(acc1, acc.len() as int, k, rest);
    // split the stripped fold the same way
    assert(strip1(pes) =~= seq![(p0, v0)] + strip1(rest)) by {
        assert(strip1(pes).len() == pes.len());
        assert(forall|m: int|
            0 <= m < pes.len() ==> #[trigger] strip1(pes)[m] == (
            pes[m].0.drop_first(),
            pes[m].1,
            ));
        assert(forall|m: int| 0 <= m < rest.len() ==> rest[m] == pes[m + 1]);
        assert(forall|m: int|
            0 <= m < rest.len() ==> #[trigger] strip1(rest)[m] == (
            rest[m].0.drop_first(),
            rest[m].1,
            ));
    }
    lemma_insert_paths_append(Seq::<(Seq<char>, TreeV)>::empty(), seq![(p0, v0)], strip1(rest));
    assert(seq![(p0, v0)].drop_last() =~= Seq::<(Seq<Seq<char>>, Seq<char>)>::empty());
    assert(seq![(p0, v0)].last() == (p0, v0));
    assert(insert_paths(
        Seq::<(Seq<char>, TreeV)>::empty(),
        seq![(p0, v0)].drop_last(),
    ) == Ok::<_, StructureConflict>(Seq::<(Seq<char>, TreeV)>::empty()));
    assert(insert_paths(Seq::<(Seq<char>, TreeV)>::empty(), seq![(p0, v0)]) == obj_insert(
        Seq::<(Seq<char>, TreeV)>::empty(),
        p0,
        v0,
    ));
    assert(insert_paths(Seq::<(Seq<char>, TreeV)>::empty(), seq![(p0, v0)]) == Ok::<
        _,
        StructureConflict,
    >(d1));
    match insert_paths(d1, strip1(rest)) {
        Ok(d2) => {
            assert(acc1.update(acc.len() as int, (k, TreeV::Obj(d2))) =~= acc.push(
                (k, TreeV::Obj(d2)),
            ));
        },
        Err(_) => {},
    }
}

/// Removing the shared first segment moves the flat entries one level
/// down.
proof fn lemma_pe_strip(t: TreeV, pre: Seq<Seq<char>>)
    requires
        pre.len() >= 1,
    ensures
        strip1(pe(t, pre)) == pe(t, pre.drop_first()),
    decreases t, 0int,
{
    match t {
        TreeV::Leaf(s) => {
            assert(strip1(pe(t, pre)) =~= pe(t, pre.drop_first()));
        },
        TreeV::Obj(es) => {
            lemma_pe_strip_list(es, pre);
        },
    }
}

proof fn lemma_pe_strip_list(es: Seq<(Seq<char>, TreeV)>, pre: Seq<Seq<char>>)
    requires
        pre.len() >= 1,
    ensures
        strip1(pe_list(es, pre)) == pe_list(es, pre.drop_first()),
    decreases es, 1int,
{
    if es.len() > 0 {
        let e = es[0];
        lemma_pe_strip(e.1, pre.push(e.0));
        assert(pre.push(e.0).drop_first() =~= pre.drop_first().push(e.0));
        lemma_pe_strip_list(es.drop_first(), pre);
        let head = pe(e.1, pre.push(e.0));
        let tail = pe_list(es.drop_first(), pre);
        assert(pe_list(es, pre) == head + tail);
        assert(strip1(head + tail) =~= strip1(head) + strip1(tail)) by {
            assert(forall|m: int|
                0 <= m < head.len() ==> (head + tail)[m] == head[m]);
            assert(forall|m: int|
                head.len() <= m < head.len() + tail.len() ==> (head + tail)[m] == tail[m
                    - head.len()]);
        }
        assert(strip1(pe_list(es, pre)) =~= pe_list(es, pre.drop_first()));
    } else {
        assert(strip1(pe_list(es, pre)) =~= pe_list(es, pre.drop_first()));
    }
}

/// Inserting the flat entries of a canonical subtree under a fresh key
/// adds exactly that subtree under that key.
proof fn lemma_ins(c: TreeV, k: Seq<char>, acc: Seq<(Seq<char>, TreeV)>)
    requires
        canonical_subtree(c),
        seg_ok(k),
        forall|l: int| 0 <= l < acc.len() ==> #[trigger] acc[l].0 != k,
    ensures
        insert_paths(acc, pe(c, seq![k])) == Ok::<_, StructureConflict>(acc.push((k, c))),
    decreases c, 0int,
{
    match c {
        TreeV::Leaf(s) => {
            let pes = pe(c, seq![k]);
            assert(pes == seq![(seq![k], s)]);
            assert(pes.drop_last() =~= Seq::<(Seq<Seq<char>>, Seq<char>)>::empty());
            assert(pes.last() == (seq![k], s));
            crate::flatten::lemma_obj_insert_absent(acc, seq![k], s);
            assert(seq![k].drop_first() =~= Seq::<Seq<char>>::empty());
            assert(make_chain(Seq::<Seq<char>>::empty(), s) == TreeV::Leaf(s));
            assert(insert_paths(acc, pes.drop_last()) == Ok::<_, StructureConflict>(acc));
            assert(insert_paths(acc, pes) == obj_insert(acc, seq![k], s));
            assert(insert_paths(acc, pes) == Ok::<_, StructureConflict>(
                acc.push((k, TreeV::Leaf(s))),
            ));
        },
        TreeV::Obj(ces) => {
            let pes = pe_list(ces, seq![k]);
            lemma_pe_list_paths(ces, seq![k]);
            lemma_pe_list_nonempty(ces, seq![k]);
            assert(forall|m: int|
                0 <= m < pes.len() ==> (#[trigger] pes[m]).0.len() >= 2 && pes[m].0[0] == k) by {
                assert(forall|m: int|
                    0 <= m < pes.len() ==> (#[trigger] pes[m]).0.take(1) == seq![k]);
                assert(forall|m: int|
                    0 <= m < pes.len() ==> (#[trigger] pes[m]).0.take(1)[0] == pes[m].0[0]);
                assert(seq![k][0] == k);
            }
            lemma_absent_nest(acc, k, pes);
            lemma_pe_strip_list(ces, seq![k]);
            assert(seq![k].drop_first() =~= Seq::<Seq<char>>::empty());
            lemma_groups(ces, Seq::<(Seq<char>, TreeV)>::empty());
            assert(Seq::<(Seq<char>, TreeV)>::empty() + ces =~= ces);
            assert(insert_paths(acc, pe(c, seq![k])) == Ok::<_, StructureConflict>(
                acc.push((k, c)),
            ));
        },
    }
}

/// Inserting the flat entries of a canonical entry list appends
/// exactly those entries, in order.
proof fn lemma_groups(es: Seq<(Seq<char>, TreeV)>, acc: Seq<(Seq<char>, TreeV)>)
    requires
        canonical_entries(es),
        forall|i: int, l: int|
            0 <= i < es.len() && 0 <= l < acc.len() ==> #[trigger] acc[l].0 != #[trigger] es[i].0,
    ensures
        insert_paths(acc, pe_list(es, Seq::<Seq<char>>::empty())) == Ok::<_, StructureConflict>(
            acc + es,
        ),
    decreases es, 1int,
{
    if es.len() == 0 {
        assert(pe_list(es, Seq::<Seq<char>>::empty()) =~= Seq::<(
            Seq<Seq<char>>,
            Seq<char>,
        )>::empty());
        assert(acc + es =~= acc);
    } else {
        let e = es[0];
        let rest = es.drop_first();
        assert(seg_ok(e.0) && canonical_subtree(e.1));
        assert(Seq::<Seq<char>>::empty().push(e.0) =~= seq![e.0]);
        let head = pe(e.1, seq![e.0]);
        let tail = pe_list(rest, Seq::<Seq<char>>::empty());
        assert(pe_list(es, Seq::<Seq<char>>::empty()) == head + tail);
        lemma_insert_paths_append(acc, head, tail);
        assert(forall|l: int| 0 <= l < acc.len() ==> #[trigger] acc[l].0 != e.0);
        lemma_ins(e.1, e.0, acc);
        assert(e == (e.0, e.1));
        let acc1 = acc.push(e);
        lemma_canonical_drop_first(es);
        assert(forall|i: int, l: int|
            0 <= i < rest.len() && 0 <= l < acc1.len() ==> #[trigger] acc1[l].0
                != #[trigger] rest[i].0) by {
            assert(forall|l: int| 0 <= l < acc.len() ==> acc1[l] == acc[l]);
            assert(acc1[acc.len() as int] == e);
            assert forall|i: int| 0 <= i < rest.len() implies (#[trigger] rest[i]).0 != es[0].0 by {
                assert(rest[i] == es[i + 1]);
                assert(es[0].0 != es[i + 1].0);
            }
        }
        lemma_groups(rest, acc1);
        assert(acc1 + rest =~= acc + es);
    }
}

/// Law: a tree whose objects carry distinct, non-empty, dot-free keys
/// and hold no empty object below the root is reconstructed exactly by
/// unflattening its flattening. Keys with dots or empty segments, and
/// empty objects, are collapsed by the flat form and cannot round-trip.
pub proof fn lemma_unflatten_flatten(es: Seq<(Seq<char>, TreeV)>)
    requires
        canonical_entries(es),
    ensures
        unflatten_spec(flat_entries_list(es, Seq::<char>::empty())) == Ok::<
            TreeV,
            StructureConflict,
        >(TreeV::Obj(es)),
{
    let pre0 = Seq::<Seq<char>>::empty();
    let fe = flat_entries_list(es, Seq::<char>::empty());
    let ps = pe_list(es, pre0);
    assert(join_path(pre0) == Seq::<char>::empty());
    lemma_fe_pe_list(es, pre0);
    lemma_pe_list_paths(es, pre0);
    assert(fe.len() == ps.len());
    assert forall|m: int|
        0 <= m < ps.len() implies #[trigger] fe[m] == (join_path(ps[m].0), ps[m].1) by {
        assert(flat_entries_list(es, join_path(pre0))[m] == (
            join_path(pe_list(es, pre0)[m].0),
            pe_list(es, pre0)[m].1,
        ));
    }
    assert forall|m: int| 0 <= m < ps.len() implies (#[trigger] ps[m]).0.len() >= 1 by {
        assert(pe_list(es, pre0)[m].0.len() >= pre0.len() + 1);
    }
    assert forall|m: int, idx: int|
        #![trigger ps[m].0[idx]]
        0 <= m < ps.len() && 0 <= idx < ps[m].0.len() implies seg_ok(ps[m].0[idx]) by {
        assert(seg_ok(pe_list(es, pre0)[m].0[idx]));
    }
    lemma_unflatten_as_paths(fe, ps);
    lemma_groups(es, Seq::<(Seq<char>, TreeV)>::empty());
    assert(Seq::<(Seq<char>, TreeV)>::empty() + es =~= es);
}

/// Dropping the first entry keeps an entry list canonical.
proof fn lemma_canonical_drop_first(es: Seq<(Seq<char>, TreeV)>)
    requires
        canonical_entries(es),
        es.len() > 0,
    ensures
        canonical_entries(es.drop_first()),
{
    let rest = es.drop_first();
    assert(forall|i: int| 0 <= i < rest.len() ==> rest[i] == es[i + 1]);
    assert(canonical_entries(rest));
}

/// No two leaves of a subtree share a path.
proof fn lemma_pe_paths_distinct(t: TreeV, pre: Seq<Seq<char>>)
    requires
        canonical_subtree(t),
    ensures
        forall|m1: int, m2: int|
            0 <= m1 < m2 < pe(t, pre).len() ==> (#[trigger] pe(t, pre)[m1]).0 != (
            #[trigger] pe(t, pre)[m2]).0,
    decreases t, 0int,
{
    match t {
        TreeV::Leaf(_) => {},
        TreeV::Obj(es) => {
            lemma_pe_list_paths_distinct(es, pre);
            assert(pe(t, pre) == pe_list(es, pre));
            assert forall|m1: int, m2: int|
                0 <= m1 < m2 < pe(t, pre).len() implies (#[trigger] pe(t, pre)[m1]).0 != (
                #[trigger] pe(t, pre)[m2]).0 by {
                assert(pe(t, pre)[m1] == pe_list(es, pre)[m1]);
                assert(pe(t, pre)[m2] == pe_list(es, pre)[m2]);
            }
        },
    }
}

proof fn lemma_pe_list_paths_distinct(es: Seq<(Seq<char>, TreeV)>, pre: Seq<Seq<char>>)
    requires
        canonical_entries(es),
    ensures
        forall|m1: int, m2: int|
            0 <= m1 < m2 < pe_list(es, pre).len() ==> (#[trigger] pe_list(es, pre)[m1]).0 != (
            #[trigger] pe_list(es, pre)[m2]).0,
    decreases es, 1int,
{
    if es.len() > 0 {
        let e = es[0];
        let pre1 = pre.push(e.0);
        assert(seg_ok(e.0) && canonical_subtree(e.1));
        lemma_pe_paths_distinct(e.1, pre1);
        lemma_pe_paths(e.1, pre1);
        let rest = es.drop_first();
        lemma_canonical_drop_first(es);
        lemma_pe_list_paths_distinct(rest, pre);
        lemma_pe_list_paths(rest, pre);
        let phead = pe(e.1, pre1);
        let ptail = pe_list(rest, pre);
        let whole = pe_list(es, pre);
        assert(whole == phead + ptail);
        // a head path carries e.0 right after `pre`; a tail path carries a
        // different sibling key there
        assert forall|m: int|
            0 <= m < ptail.len() implies (#[trigger] ptail[m]).0.len() > pre.len() && ptail[
            m
        ].0[pre.len() as int] != e.0 by {
            let p = ptail[m].0;
            assert(p.len() >= pre.len() + 1);
            let i = tail_key_index(rest, pre, m);
            assert(0 <= i < rest.len() && p[pre.len() as int] == rest[i].0);
            assert(rest[i] == es[i + 1]);
            assert(es[i + 1].0 != es[0].0);
        }
        assert forall|m1: int, m2: int|
            0 <= m1 < m2 < whole.len() implies (#[trigger] whole[m1]).0 != (
            #[trigger] whole[m2]).0 by {
            if m2 < phead.len() {
                assert(whole[m1] == phead[m1] && whole[m2] == phead[m2]);
            } else if m1 >= phead.len() {
                assert(whole[m1] == ptail[m1 - phead.len()] && whole[m2] == ptail[m2
                    - phead.len()]);
            } else {
                assert(whole[m1] == phead[m1] && whole[m2] == ptail[m2 - phead.len()]);
                let p1 = phead[m1].0;
                assert(p1.take(pre1.len() as int) == pre1);
                assert(p1.len() >= pre1.len());
                assert(p1.take(pre1.len() as int)[pre.len() as int] == p1[pre.len() as int]);
                assert(pre1[pre.len() as int] == e.0);
                assert(whole[m2].0[pre.len() as int] != e.0);
            }
        }
    }
}

/// The entry at `m` of a tail list belongs to some child: the key right
/// after the prefix is that child's key.
proof fn tail_key_index(es: Seq<(Seq<char>, TreeV)>, pre: Seq<Seq<char>>, m: int) -> (i: int)
    requires
        canonical_entries(es),
        0 <= m < pe_list(es, pre).len(),
    ensures
        0 <= i < es.len(),
        pe_list(es, pre)[m].0.len() > pre.len(),
        pe_list(es, pre)[m].0[pre.len() as int] == es[i].0,
    decreases es, 1int,
{
    let e = es[0];
    let pre1 = pre.push(e.0);
    assert(seg_ok(e.0) && canonical_subtree(e.1));
    let phead = pe(e.1, pre1);
    let ptail = pe_list(es.drop_first(), pre);
    assert(pe_list(es, pre) == phead + ptail);
    if m < phead.len() {
        lemma_pe_paths(e.1, pre1);
        let p = phead[m].0;
        assert(pe_list(es, pre)[m] == phead[m]);
        assert(p.len() >= pre1.len() && p.take(pre1.len() as int) == pre1);
        assert(p.take(pre1.len() as int)[pre.len() as int] == p[pre.len() as int]);
        assert(pre1[pre.len() as int] == e.0);
        0
    } else {
        let rest = es.drop_first();
        lemma_canonical_drop_first(es);
        let i = tail_key_index(rest, pre, m - phead.len());
        assert(pe_list(es, pre)[m] == ptail[m - phead.len()]);
        assert(rest[i] == es[i + 1]);
        i + 1
    }
}

/// The flat keys of a canonical tree are pairwise distinct, so the
/// executable flattening's fold changes nothing.
pub proof fn lemma_flat_entries_distinct(es: Seq<(Seq<char>, TreeV)>)
    requires
        canonical_entries(es),
    ensures
        crate::flatmap::distinct_pair_keys(flat_entries_list(es, Seq::<char>::empty())),
        crate::flatten::fm_insert_all(
            Seq::<(Seq<char>, Seq<char>)>::empty(),
            flat_entries_list(es, Seq::<char>::empty()),
        ) == flat_entries_list(es, Seq::<char>::empty()),
{
    let pre0 = Seq::<Seq<char>>::empty();
    let fe = flat_entries_list(es, Seq::<char>::empty());
    let ps = pe_list(es, pre0);
    assert(join_path(pre0) == Seq::<char>::empty());
    lemma_fe_pe_list(es, pre0);
    lemma_pe_list_paths(es, pre0);
    lemma_pe_list_paths_distinct(es, pre0);
    assert forall|m1: int, m2: int|
        0 <= m1 < m2 < fe.len() implies (#[trigger] fe[m1]).0 != (#[trigger] fe[m2]).0 by {
        assert(flat_entries_list(es, join_path(pre0))[m1] == (join_path(ps[m1].0), ps[m1].1));
        assert(flat_entries_list(es, join_path(pre0))[m2] == (join_path(ps[m2].0), ps[m2].1));
        assert(ps[m1].0 != ps[m2].0);
        // joined keys of distinct segment paths differ: splitting recovers
        // the segments
        assert forall|c: int, i: int|
            0 <= i < ps[m1].0.len() && 0 <= c < ps[m1].0[i].len() implies #[trigger] ps[m1].0[i][c]
            != '.' by {
            assert(seg_ok(ps[m1].0[i]));
        }
        assert forall|c: int, i: int|
            0 <= i < ps[m2].0.len() && 0 <= c < ps[m2].0[i].len() implies #[trigger] ps[m2].0[i][c]
            != '.' by {
            assert(seg_ok(ps[m2].0[i]));
        }
        assert(ps[m1].0.len() >= 1 && ps[m2].0.len() >= 1);
        lemma_split_join(ps[m1].0);
        lemma_split_join(ps[m2].0);
        if join_path(ps[m1].0) == join_path(ps[m2].0) {
            assert(ps[m1].0 == ps[m2].0);
        }
    }
    assert(Seq::<(Seq<char>, Seq<char>)>::empty() + fe =~= fe);
    assert(crate::flatmap::distinct_pair_keys(Seq::<(Seq<char>, Seq<char>)>::empty() + fe));
    crate::flatten::lemma_fm_insert_all_distinct(Seq::<(Seq<char>, Seq<char>)>::empty(), fe);
}

/// Law, in the executable functions' own terms: the entry sequence
/// `flatten_json` produces for a canonical tree unflattens back to
/// exactly that tree.
pub proof fn lemma_unflatten_flatten_exec(es: Seq<(Seq<char>, TreeV)>)
    requires
        canonical_entries(es),
    ensures
        unflatten_spec(
            crate::flatten::fm_insert_all(
                Seq::<(Seq<char>, Seq<char>)>::empty(),
                flat_entries(TreeV::Obj(es), Seq::<char>::empty()),
            ),
        ) == Ok::<TreeV, StructureConflict>(TreeV::Obj(es)),
{
    assert(flat_entries(TreeV::Obj(es), Seq::<char>::empty()) == flat_entries_list(
        es,
        Seq::<char>::empty(),
    ));
    lemma_flat_entries_distinct(es);
    lemma_unflatten_flatten(es);
}

} // verus!
