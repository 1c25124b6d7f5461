use vstd::prelude::*;
use crate::strutil::str_eq;

verus! {

/// A flat translation mapping: dotted key paths to text values, with no
/// nesting and each key held at most once. This is the flattened
/// projection of a translation tree.
pub struct FlatMap {
    entries: Vec<(String, String)>,
}

/// The views of a sequence of key/value string pairs.
pub open spec fn pairs_view(es: Seq<(String, String)>) -> Seq<(Seq<char>, Seq<char>)> {
    es.map_values(|p: (String, String)| (p.0@, p.1@))
}

/// Whether some entry carries the key.
pub open spec fn has_key(es: Seq<(Seq<char>, Seq<char>)>, key: Seq<char>) -> bool {
    exists|i: int| 0 <= i < es.len() && #[trigger] es[i].0 == key
}

/// Keys pairwise distinct.
pub open spec fn distinct_pair_keys(es: Seq<(Seq<char>, Seq<char>)>) -> bool {
    forall|i: int, j: int| 0 <= i < j < es.len() ==> #[trigger] es[i].0 != #[trigger] es[j].0
}

/// The mapping an entry sequence denotes; on a repeated key the later
/// entry wins.
pub open spec fn map_of(es: Seq<(Seq<char>, Seq<char>)>) -> Map<Seq<char>, Seq<char>>
    decreases es.len(),
{
    if es.len() == 0 {
        Map::empty()
    } else {
        map_of(es.drop_last()).insert(es.last().0, es.last().1)
    }
}

/// Replaces the value of the first entry with the key, or appends a new
/// entry at the end.
pub open spec fn fm_insert(
    es: Seq<(Seq<char>, Seq<char>)>,
    key: Seq<char>,
    value: Seq<char>,
) -> Seq<(Seq<char>, Seq<char>)>
    decreases es.len(),
{
    if es.len() == 0 {
        seq![(key, value)]
    } else if es[0].0 == key {
        seq![(key, value)] + es.drop_first()
    } else {
        seq![es[0]] + fm_insert(es.drop_first(), key, value)
    }
}

/// Inserting at two distinct keys in either order gives the same mapping.
pub proof fn lemma_map_insert_commute(
    m: Map<Seq<char>, Seq<char>>,
    k1: Seq<char>,
    v1: Seq<char>,
    k2: Seq<char>,
    v2: Seq<char>,
)
    requires
        k1 != k2,
    ensures
        m.insert(k1, v1).insert(k2, v2) == m.insert(k2, v2).insert(k1, v1),
{
    let a = m.insert(k1, v1).insert(k2, v2);
    let b = m.insert(k2, v2).insert(k1, v1);
    assert(a.dom() =~= b.dom());
    assert forall|k: Seq<char>| a.dom().contains(k) implies a[k] == b[k] by {}
    assert(a =~= b);
}

/// A key is in the denoted mapping exactly when some entry carries it.
pub proof fn lemma_map_of_dom(es: Seq<(Seq<char>, Seq<char>)>)
    ensures
        forall|k: Seq<char>| #[trigger] map_of(es).dom().contains(k) <==> has_key(es, k),
    decreases es.len(),
{
    if es.len() > 0 {
        lemma_map_of_dom(es.drop_last());
        assert forall|k: Seq<char>| #[trigger] map_of(es).dom().contains(k) implies has_key(
            es,
            k,
        ) by {
            if k == es.last().0 {
                assert(es[es.len() - 1].0 == k);
            } else {
                assert(map_of(es.drop_last()).dom().contains(k));
                assert(has_key(es.drop_last(), k));
                let i = choose|i: int|
                    0 <= i < es.drop_last().len() && #[trigger] es.drop_last()[i].0 == k;
                assert(es.drop_last()[i] == es[i]);
                assert(es[i].0 == k);
            }
        }
        assert forall|k: Seq<char>| has_key(es, k) implies #[trigger] map_of(es).dom().contains(
            k,
        ) by {
            let i = choose|i: int| 0 <= i < es.len() && #[trigger] es[i].0 == k;
            if i < es.len() - 1 {
                assert(es.drop_last()[i].0 == k);
                assert(has_key(es.drop_last(), k));
                assert(map_of(es.drop_last()).dom().contains(k));
            } else {
                assert(k == es.last().0);
            }
        }
    }
}

/// With distinct keys, each entry's value is the mapping's value.
pub proof fn lemma_map_of_distinct(es: Seq<(Seq<char>, Seq<char>)>)
    requires
        distinct_pair_keys(es),
    ensures
        forall|i: int|
            0 <= i < es.len() ==> map_of(es).dom().contains(#[trigger] es[i].0) && map_of(es)[
                es[i].0
            ] == es[i].1,
    decreases es.len(),
{
    if es.len() > 0 {
        assert(distinct_pair_keys(es.drop_last())) by {
            assert(forall|i: int, j: int|
                0 <= i < j < es.drop_last().len() ==> es.drop_last()[i] == es[i]
                    && es.drop_last()[j] == es[j]);
        }
        lemma_map_of_distinct(es.drop_last());
        assert forall|i: int|
            0 <= i < es.len() implies map_of(es).dom().contains(#[trigger] es[i].0) && map_of(es)[
            es[i].0
        ] == es[i].1 by {
            if i < es.len() - 1 {
                assert(es.drop_last()[i] == es[i]);
                assert(es[i].0 != es.last().0);
            }
        }
    }
}

/// `fm_insert` denotes insertion into the mapping, keeps other entries,
/// and preserves distinctness.
pub proof fn lemma_fm_insert(es: Seq<(Seq<char>, Seq<char>)>, key: Seq<char>, value: Seq<char>)
    requires
        distinct_pair_keys(es),
    ensures
        distinct_pair_keys(fm_insert(es, key, value)),
        map_of(fm_insert(es, key, value)) == map_of(es).insert(key, value),
        !has_key(es, key) ==> fm_insert(es, key, value) == es.push((key, value)),
        forall|i: int|
            0 <= i < es.len() && #[trigger] es[i].0 == key ==> fm_insert(es, key, value)
                == es.update(i, (key, value)),
    decreases es.len(),
{
    let r = fm_insert(es, key, value);
    if es.len() == 0 {
        assert(map_of(r) =~= map_of(es).insert(key, value)) by {
            assert(r.drop_last() =~= es);
        }
        assert(r =~= es.push((key, value)));
    } else if es[0].0 == key {
        assert(r =~= es.update(0, (key, value)));
        assert(forall|i: int| 0 < i < es.len() ==> #[trigger] es[i].0 != key);
        lemma_map_of_update_last_wins(es, 0, key, value);
    } else {
        let t = es.drop_first();
        assert(distinct_pair_keys(t)) by {
            assert(forall|i: int, j: int|
                0 <= i < j < t.len() ==> t[i] == es[i + 1] && t[j] == es[j + 1]);
        }
        lemma_fm_insert(t, key, value);
        let rt = fm_insert(t, key, value);
        assert(r == seq![es[0]] + rt);
        // distinctness: rt's keys are t's keys plus possibly `key`
        lemma_fm_insert_keys(t, key, value);
        assert forall|i: int, j: int| 0 <= i < j < r.len() implies #[trigger] r[i].0
            != #[trigger] r[j].0 by {
            if i == 0 {
                assert(r[j] == rt[j - 1]);
                assert(r[j].0 == key || has_key(t, r[j].0));
            } else {
                assert(r[i] == rt[i - 1] && r[j] == rt[j - 1]);
            }
        }
        // map equality
        assert(es =~= seq![es[0]] + t);
        assert(!has_key(t, es[0].0)) by {
            if has_key(t, es[0].0) {
                let i = choose|i: int| 0 <= i < t.len() && #[trigger] t[i].0 == es[0].0;
                assert(es[i + 1].0 == es[0].0);
            }
        }
        assert(!has_key(rt, es[0].0)) by {
            if has_key(rt, es[0].0) {
                let i = choose|i: int| 0 <= i < rt.len() && #[trigger] rt[i].0 == es[0].0;
                assert(rt[i].0 == key || has_key(t, rt[i].0));
            }
        }
        lemma_map_of_cons(es[0], t);
        lemma_map_of_cons(es[0], rt);
        assert(map_of(es) == map_of(t).insert(es[0].0, es[0].1));
        assert(map_of(r) == map_of(rt).insert(es[0].0, es[0].1));
        lemma_map_insert_commute(map_of(t), key, value, es[0].0, es[0].1);
        assert(map_of(r) == map_of(es).insert(key, value));
        if !has_key(es, key) {
            assert(!has_key(t, key)) by {
                if has_key(t, key) {
                    let i = choose|i: int| 0 <= i < t.len() && #[trigger] t[i].0 == key;
                    assert(es[i + 1].0 == key);
                }
            }
            assert(r =~= es.push((key, value)));
        }
        assert forall|i: int|
            0 <= i < es.len() && #[trigger] es[i].0 == key implies r == es.update(
            i,
            (key, value),
        ) by {
            assert(i > 0);
            assert(t[i - 1].0 == key);
            assert(rt == t.update(i - 1, (key, value)));
            assert(r =~= es.update(i, (key, value)));
        }
    }
}

/// Every key of `fm_insert(es, key, value)` is a key of `es` or `key`.
pub proof fn lemma_fm_insert_keys(es: Seq<(Seq<char>, Seq<char>)>, key: Seq<char>, value: Seq<char>)
    ensures
        forall|j: int|
            0 <= j < fm_insert(es, key, value).len() ==> (#[trigger] fm_insert(es, key, value)[j].0
                == key || has_key(es, fm_insert(es, key, value)[j].0)),
        fm_insert(es, key, value).len() == if has_key(es, key) {
            es.len() as int
        } else {
            es.len() + 1 as int
        },
    decreases es.len(),
{
    let r = fm_insert(es, key, value);
    if es.len() == 0 {
        assert(!has_key(es, key));
    } else if es[0].0 == key {
        assert(es[0].0 == key && has_key(es, key));
        assert forall|j: int| 0 <= j < r.len() implies (#[trigger] r[j].0 == key || has_key(
            es,
            r[j].0,
        )) by {
            if j > 0 {
                assert(r[j] == es.drop_first()[j - 1]);
                assert(es[j].0 == r[j].0);
            }
        }
    } else {
        let t = es.drop_first();
        lemma_fm_insert_keys(t, key, value);
        let rt = fm_insert(t, key, value);
        assert(has_key(t, key) ==> has_key(es, key)) by {
            if has_key(t, key) {
                let i = choose|i: int| 0 <= i < t.len() && #[trigger] t[i].0 == key;
                assert(es[i + 1].0 == key);
            }
        }
        assert(has_key(es, key) ==> has_key(t, key)) by {
            if has_key(es, key) {
                let i = choose|i: int| 0 <= i < es.len() && #[trigger] es[i].0 == key;
                assert(i > 0);
                assert(t[i - 1].0 == key);
            }
        }
        assert forall|j: int| 0 <= j < r.len() implies (#[trigger] r[j].0 == key || has_key(
            es,
            r[j].0,
        )) by {
            if j == 0 {
                assert(r[0] == es[0]);
                assert(es[0].0 == r[0].0);
            } else {
                assert(r[j] == rt[j - 1]);
                if rt[j - 1].0 != key {
                    let i = choose|i: int| 0 <= i < t.len() && #[trigger] t[i].0 == rt[j - 1].0;
                    assert(es[i + 1].0 == rt[j - 1].0);
                }
            }
        }
    }
}

/// Prepending one entry inserts it below the rest of the fold.
pub proof fn lemma_map_of_cons(e: (Seq<char>, Seq<char>), es: Seq<(Seq<char>, Seq<char>)>)
    ensures
        !has_key(es, e.0) ==> map_of(seq![e] + es) == map_of(es).insert(e.0, e.1),
        has_key(es, e.0) ==> map_of(seq![e] + es) == map_of(es),
    decreases es.len(),
{
    let c = seq![e] + es;
    if es.len() == 0 {
        assert(c.drop_last() =~= Seq::<(Seq<char>, Seq<char>)>::empty());
        assert(c.last() == e);
        assert(map_of(c) == map_of(c.drop_last()).insert(e.0, e.1));
        assert(map_of(c) =~= map_of(es).insert(e.0, e.1));
    } else {
        lemma_map_of_cons(e, es.drop_last());
        assert(c.drop_last() =~= seq![e] + es.drop_last());
        assert(c.last() == es.last());
        assert(has_key(es.drop_last(), e.0) ==> has_key(es, e.0)) by {
            if has_key(es.drop_last(), e.0) {
                let i = choose|i: int|
                    0 <= i < es.drop_last().len() && #[trigger] es.drop_last()[i].0 == e.0;
                assert(es[i].0 == e.0);
            }
        }
        if has_key(es, e.0) {
            if es.last().0 == e.0 {
                if has_key(es.drop_last(), e.0) {
                    assert(map_of(c) =~= map_of(es));
                } else {
                    assert(map_of(c) =~= map_of(es));
                }
            } else {
                let i = choose|i: int| 0 <= i < es.len() && #[trigger] es[i].0 == e.0;
                assert(es.drop_last()[i].0 == e.0);
                assert(map_of(c) =~= map_of(es));
            }
        } else {
            assert(es[es.len() - 1].0 == es.last().0);
            assert(es.last().0 != e.0);
            assert(!has_key(es.drop_last(), e.0));
            assert(map_of(c.drop_last()) == map_of(es.drop_last()).insert(e.0, e.1));
            assert(map_of(c) == map_of(es.drop_last()).insert(e.0, e.1).insert(
                es.last().0,
                es.last().1,
            ));
            assert(map_of(es) == map_of(es.drop_last()).insert(es.last().0, es.last().1));
            lemma_map_insert_commute(
                map_of(es.drop_last()),
                e.0,
                e.1,
                es.last().0,
                es.last().1,
            );
            assert(map_of(c) == map_of(es).insert(e.0, e.1));
        }
    }
}

/// If the only repeated key among `es` is at `i`, updating `i` updates
/// the denoted mapping. Helper for `lemma_fm_insert`.
proof fn lemma_map_of_update_last_wins(
    es: Seq<(Seq<char>, Seq<char>)>,
    i: int,
    key: Seq<char>,
    value: Seq<char>,
)
    requires
        0 <= i < es.len(),
        es[i].0 == key,
        forall|j: int| 0 <= j < es.len() && j != i ==> #[trigger] es[j].0 != key,
    ensures
        map_of(es.update(i, (key, value))) == map_of(es).insert(key, value),
    decreases es.len(),
{
    let u = es.update(i, (key, value));
    if i == es.len() - 1 {
        assert(u.drop_last() =~= es.drop_last());
        assert(map_of(u) =~= map_of(es).insert(key, value));
    } else {
        assert(u.drop_last() =~= es.drop_last().update(i, (key, value)));
        assert(es.drop_last()[i].0 == key);
        lemma_map_of_update_last_wins(es.drop_last(), i, key, value);
        assert(es.last().0 != key);
        assert(map_of(u) =~= map_of(es).insert(key, value));
    }
}

impl FlatMap {
    /// The entry sequence, in insertion order.
    pub closed spec fn entries(self) -> Seq<(Seq<char>, Seq<char>)> {
        pairs_view(self.entries@)
    }

    /// Each key occurs at most once.
    pub open spec fn wf(self) -> bool {
        distinct_pair_keys(self.entries())
    }

    pub fn new() -> (r: FlatMap)
        ensures
            r.wf(),
            r@ == Map::<Seq<char>, Seq<char>>::empty(),
            r.entries() == Seq::<(Seq<char>, Seq<char>)>::empty(),
    {
        let r = FlatMap { entries: Vec::new() };
        proof {
            assert(r.entries() =~= Seq::<(Seq<char>, Seq<char>)>::empty());
        }
        r
    }

    pub fn len(&self) -> (r: usize)
        ensures
            r == self.entries().len(),
    {
        self.entries.len()
    }

    pub fn is_empty(&self) -> (r: bool)
        ensures
            r == (self.entries().len() == 0),
            r == (self@ == Map::<Seq<char>, Seq<char>>::empty()),
    {
        proof {
            lemma_map_of_dom(self.entries());
            if self.entries().len() == 0 {
                assert(self@ =~= Map::<Seq<char>, Seq<char>>::empty());
            } else {
                let k0 = self.entries()[0].0;
                assert(has_key(self.entries(), k0));
                assert(self@.dom().contains(k0));
                assert(self@ != Map::<Seq<char>, Seq<char>>::empty()) by {
                    if self@ == Map::<Seq<char>, Seq<char>>::empty() {
                        assert(!Map::<Seq<char>, Seq<char>>::empty().dom().contains(k0));
                    }
                }
            }
        }
        self.entries.len() == 0
    }

    /// The key and value of the entry at `i`, in insertion order.
    pub fn pair_at(&self, i: usize) -> (r: (&String, &String))
        requires
            i < self.entries().len(),
        ensures
            (r.0@, r.1@) == self.entries()[i as int],
            self.wf() ==> self@.dom().contains(r.0@) && self@[r.0@] == r.1@,
    {
        proof {
            if self.wf() {
                lemma_map_of_distinct(self.entries());
            }
            assert(self.entries()[i as int] == (
                self.entries@[i as int].0@,
                self.entries@[i as int].1@,
            ));
            assert(self.entries()[i as int].0 == self.entries@[i as int].0@);
            assert(self.entries()[i as int].1 == self.entries@[i as int].1@);
        }
        let p = &self.entries[i];
        (&p.0, &p.1)
    }

    /// The value at `key`, if the mapping holds the key.
    #[verifier::loop_isolation(false)]
    pub fn get(&self, key: &str) -> (r: Option<&String>)
        requires
            self.wf(),
        ensures
            r is Some <==> self@.dom().contains(key@),
            r is Some ==> r->Some_0@ == self@[key@],
    {
        proof {
            lemma_map_of_dom(self.entries());
            lemma_map_of_distinct(self.entries());
        }
        let n = self.entries.len();
        let mut i: usize = 0;
        while i < n
            invariant
                0 <= i <= n,
                n == self.entries().len(),
                self.wf(),
                forall|k: Seq<char>| #[trigger] self@.dom().contains(k) <==> has_key(
                    self.entries(),
                    k,
                ),
                forall|j: int|
                    0 <= j < self.entries().len() ==> self@.dom().contains(
                        #[trigger] self.entries()[j].0,
                    ) && self@[self.entries()[j].0] == self.entries()[j].1,
                forall|j: int| 0 <= j < i ==> #[trigger] self.entries()[j].0 != key@,
            decreases n - i,
        {
            if str_eq(self.entries[i].0.as_str(), key) {
                proof {
                    assert(self.entries()[i as int] == (
                        self.entries@[i as int].0@,
                        self.entries@[i as int].1@,
                    ));
                    assert(self@.dom().contains(self.entries()[i as int].0));
                }
                return Some(&self.entries[i].1);
            }
            i = i + 1;
        }
        proof {
            if self@.dom().contains(key@) {
                let j = choose|j: int|
                    0 <= j < self.entries().len() && #[trigger] self.entries()[j].0 == key@;
                assert(false);
            }
        }
        None
    }

    pub fn contains_key(&self, key: &str) -> (r: bool)
        requires
            self.wf(),
        ensures
            r == self@.dom().contains(key@),
    {
        matches!(self.get(key), Some(_))
    }

    /// Sets `key` to `value`: replaces the held value, or appends the key.
    #[verifier::loop_isolation(false)]
    pub fn insert(&mut self, key: String, value: String)
        requires
            old(self).wf(),
        ensures
            final(self).wf(),
            final(self)@ == old(self)@.insert(key@, value@),
            final(self).entries() == fm_insert(old(self).entries(), key@, value@),
    {
        proof {
            lemma_fm_insert(self.entries(), key@, value@);
        }
        let n = self.entries.len();
        let mut i: usize = 0;
        while i < n
            invariant
                0 <= i <= n,
                n == self.entries().len(),
                self == old(self),
                forall|j: int| 0 <= j < i ==> #[trigger] self.entries()[j].0 != key@,
            decreases n - i,
        {
            if str_eq(self.entries[i].0.as_str(), key.as_str()) {
                let ghost old_entries = self.entries();
                let e = &mut self.entries[i];
                e.1 = value;
                proof {
                    assert(old_entries[i as int].0 == key@);
                    assert forall|j: int| 0 <= j < self.entries().len() implies
                        #[trigger] self.entries()[j] == old_entries.update(
                        i as int,
                        (key@, value@),
                    )[j] by {
                        assert(self.entries()[j] == (self.entries@[j].0@, self.entries@[j].1@));
                    }
                    assert(self.entries() =~= old_entries.update(i as int, (key@, value@)));
                    lemma_fm_insert(old_entries, key@, value@);
                }
                return;
            }
            i = i + 1;
        }
        let ghost old_entries = self.entries();
        proof {
            if has_key(old_entries, key@) {
                let j = choose|j: int|
                    0 <= j < old_entries.len() && #[trigger] old_entries[j].0 == key@;
                assert(false);
            }
        }
        let ghost kv = (key@, value@);
        self.entries.push((key, value));
        proof {
            assert forall|j: int| 0 <= j < self.entries().len() implies #[trigger] self.entries()[j]
                == old_entries.push(kv)[j] by {
                if j < old_entries.len() {
                    assert(self.entries()[j] == pairs_view(old(self).entries@)[j]);
                }
            }
            assert(self.entries() =~= old_entries.push(kv));
        }
    }

    /// Copies every entry of `other` into `self`; on a common key,
    /// `other`'s value wins.
    #[verifier::loop_isolation(false)]
    pub fn extend_from(&mut self, other: &FlatMap)
        requires
            old(self).wf(),
        ensures
            final(self).wf(),
            final(self)@ == old(self)@.union_prefer_right(other@),
    {
        proof {
            lemma_map_of_dom(other.entries());
        }
        let n = other.entries.len();
        let mut i: usize = 0;
        while i < n
            invariant
                n == other.entries().len(),
                0 <= i <= n,
                self.wf(),
                self@ == old(self)@.union_prefer_right(map_of(other.entries().take(i as int))),
            decreases n - i,
        {
            let key = other.entries[i].0.clone();
            let value = other.entries[i].1.clone();
            let ghost pre = self@;
            self.insert(key, value);
            proof {
                assert(other.entries().take(i + 1).drop_last() =~= other.entries().take(i as int));
                assert(other.entries().take(i + 1).last() == other.entries()[i as int]);
                assert(self@ =~= old(self)@.union_prefer_right(
                    map_of(other.entries().take(i + 1)),
                ));
            }
            i = i + 1;
        }
        proof {
            assert(other.entries().take(n as int) =~= other.entries());
            assert(self@ =~= old(self)@.union_prefer_right(other@));
        }
    }

    /// An entry-for-entry copy.
    #[verifier::loop_isolation(false)]
    pub fn duplicate(&self) -> (r: FlatMap)
        ensures
            r.entries() == self.entries(),
            r@ == self@,
            r.wf() == self.wf(),
    {
        let n = self.entries.len();
        let mut out: Vec<(String, String)> = Vec::new();
        let mut i: usize = 0;
        while i < n
            invariant
                n == self.entries().len(),
                0 <= i <= n,
                pairs_view(out@) =~= self.entries().take(i as int),
            decreases n - i,
        {
            out.push((self.entries[i].0.clone(), self.entries[i].1.clone()));
            proof {
                assert forall|j: int| 0 <= j < i + 1 implies pairs_view(out@)[j]
                    == self.entries().take(i + 1)[j] by {
                    if j < i {
                        assert(pairs_view(out@.drop_last())[j] == self.entries().take(i as int)[j]);
                        assert(out@.drop_last()[j] == out@[j]);
                    }
                }
                assert(pairs_view(out@) =~= self.entries().take(i + 1));
            }
            i = i + 1;
        }
        let r = FlatMap { entries: out };
        proof {
            assert(self.entries().take(n as int) =~= self.entries());
            assert(r.entries() =~= self.entries());
        }
        r
    }
}

impl View for FlatMap {
    type V = Map<Seq<char>, Seq<char>>;

    open spec fn view(&self) -> Map<Seq<char>, Seq<char>> {
        map_of(self.entries())
    }
}

} // verus!
