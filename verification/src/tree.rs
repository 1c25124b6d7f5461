use vstd::prelude::*;

verus! {

/// A nested translation document: either a text leaf or an object of
/// key/subtree entries kept in document order. Arrays and non-string
/// scalars of a source document are rendered to their text form when a
/// value of this type is built, so every leaf is a string.
pub enum JsonTree {
    Leaf(String),
    Obj(Vec<(String, JsonTree)>),
}

/// The mathematical shape of a `JsonTree`: the same structure over
/// sequences of characters.
pub enum TreeV {
    Leaf(Seq<char>),
    Obj(Seq<(Seq<char>, TreeV)>),
}

pub open spec fn tree_view(t: JsonTree) -> TreeV
    decreases t,
{
    match t {
        JsonTree::Leaf(s) => TreeV::Leaf(s@),
        JsonTree::Obj(es) => TreeV::Obj(entries_view(es@)),
    }
}

pub open spec fn entries_view(es: Seq<(String, JsonTree)>) -> Seq<(Seq<char>, TreeV)>
    decreases es,
{
    if es.len() == 0 {
        Seq::empty()
    } else {
        entries_view(es.drop_last()).push((es.last().0@, tree_view(es.last().1)))
    }
}

impl View for JsonTree {
    type V = TreeV;

    open spec fn view(&self) -> TreeV {
        tree_view(*self)
    }
}

/// Each view entry is the view of the corresponding entry.
pub proof fn lemma_entries_view(es: Seq<(String, JsonTree)>)
    ensures
        entries_view(es).len() == es.len(),
        forall|i: int|
            0 <= i < es.len() ==> #[trigger] entries_view(es)[i] == (
            es[i].0@,
            tree_view(es[i].1),
            ),
    decreases es,
{
    if es.len() > 0 {
        lemma_entries_view(es.drop_last());
    }
}

/// Appending one entry appends its view.
pub proof fn lemma_entries_view_push(es: Seq<(String, JsonTree)>, e: (String, JsonTree))
    ensures
        entries_view(es.push(e)) == entries_view(es).push((e.0@, tree_view(e.1))),
{
    assert(es.push(e).drop_last() =~= es);
    assert(es.push(e).last() == e);
}

impl TreeV {
    /// The value of `key` among `es`, if any; the first occurrence decides.
    pub open spec fn entry_lookup(es: Seq<(Seq<char>, TreeV)>, key: Seq<char>) -> Option<TreeV>
        decreases es,
    {
        if es.len() == 0 {
            None
        } else if es[0].0 == key {
            Some(es[0].1)
        } else {
            Self::entry_lookup(es.drop_first(), key)
        }
    }

    pub open spec fn entry_has_key(es: Seq<(Seq<char>, TreeV)>, key: Seq<char>) -> bool {
        exists|i: int| 0 <= i < es.len() && #[trigger] es[i].0 == key
    }

    /// Keys are pairwise distinct within one object level.
    pub open spec fn distinct_keys(es: Seq<(Seq<char>, TreeV)>) -> bool {
        forall|i: int, j: int|
            0 <= i < j < es.len() ==> #[trigger] es[i].0 != #[trigger] es[j].0
    }
}

pub proof fn lemma_entry_lookup_some(es: Seq<(Seq<char>, TreeV)>, key: Seq<char>)
    ensures
        TreeV::entry_lookup(es, key) is Some <==> TreeV::entry_has_key(es, key),
    decreases es,
{
    if es.len() > 0 {
        lemma_entry_lookup_some(es.drop_first(), key);
        if es[0].0 != key {
            assert(TreeV::entry_has_key(es, key) ==> TreeV::entry_has_key(
                es.drop_first(),
                key,
            )) by {
                if TreeV::entry_has_key(es, key) {
                    let i = choose|i: int| 0 <= i < es.len() && #[trigger] es[i].0 == key;
                    assert(es.drop_first()[i - 1].0 == key);
                }
            }
            assert(TreeV::entry_has_key(es.drop_first(), key) ==> TreeV::entry_has_key(es, key))
                by {
                if TreeV::entry_has_key(es.drop_first(), key) {
                    let i = choose|i: int|
                        0 <= i < es.drop_first().len() && #[trigger] es.drop_first()[i].0 == key;
                    assert(es[i + 1].0 == key);
                }
            }
        }
    }
}

} // verus!
