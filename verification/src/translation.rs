use vstd::prelude::*;
use crate::codec::{parse_tree, parsed_tree, pretty_text_of, tree_to_pretty};
use crate::errors::{ParseError, StructureConflict};
use crate::flatmap::{map_of, FlatMap};
use crate::flatten::{flat_entries, flatten_json, unflatten, unflatten_spec};
use crate::strutil::is_blank_chars;
use crate::tree::TreeV;

verus! {

/// One language variant of one logical resource: its language code, its
/// on-disk location relative to the configured base directory, and its
/// flattened content.
pub struct TranslationFile {
    pub language_code: String,
    pub relative_path: String,
    pub content: FlatMap,
}

/// The flat mapping a parsed document flattens to.
pub open spec fn flattened_of(t: TreeV) -> Map<Seq<char>, Seq<char>> {
    map_of(flat_entries(t, Seq::<char>::empty()))
}

impl TranslationFile {
    /// The content holds each key once.
    pub open spec fn wf(self) -> bool {
        self.content.wf()
    }

    pub fn from_content(language_code: String, relative_path: String, content: FlatMap) -> (r:
        TranslationFile)
        ensures
            r.language_code == language_code,
            r.relative_path == relative_path,
            r.content == content,
    {
        TranslationFile { language_code, relative_path, content }
    }

    /// Builds a translation set from the text of a JSON document: the
    /// compute half of reading a translation file, after the I/O.
    pub fn from_json_text(language_code: String, relative_path: String, text: &str) -> (r: Result<
        TranslationFile,
        ParseError,
    >)
        ensures
            r is Ok <==> parsed_tree(text@) is Some,
            r is Ok ==> r->Ok_0.wf() && r->Ok_0.language_code@ == language_code@
                && r->Ok_0.relative_path@ == relative_path@ && r->Ok_0.content@ == flattened_of(
                parsed_tree(text@)->Some_0,
            ),
    {
        match parse_tree(text) {
            Ok(tree) => {
                let content = flatten_json(&tree);
                Ok(TranslationFile { language_code, relative_path, content })
            },
            Err(e) => Err(e),
        }
    }

    /// A field-for-field copy.
    pub fn duplicate(&self) -> (r: TranslationFile)
        ensures
            r.language_code@ == self.language_code@,
            r.relative_path@ == self.relative_path@,
            r.content@ == self.content@,
            r.content.entries() == self.content.entries(),
            r.wf() == self.wf(),
    {
        TranslationFile {
            language_code: self.language_code.clone(),
            relative_path: self.relative_path.clone(),
            content: self.content.duplicate(),
        }
    }
}

/// The keys the base language holds that `other` lacks, with the base's
/// values: what a lagging language must be backfilled with.
pub open spec fn missing_keys_spec(
    base: Map<Seq<char>, Seq<char>>,
    other: Map<Seq<char>, Seq<char>>,
) -> Map<Seq<char>, Seq<char>> {
    Map::new(
        |k: Seq<char>| base.dom().contains(k) && !other.dom().contains(k),
        |k: Seq<char>| base[k],
    )
}

/// Compare two translation files and return the missing keys from base
/// translation.
#[verifier::loop_isolation(false)]
pub fn get_missing_keys(base: &TranslationFile, other: &TranslationFile) -> (r: FlatMap)
    requires
        base.wf(),
        other.wf(),
    ensures
        r.wf(),
        r@ == missing_keys_spec(base.content@, other.content@),
{
    let mut r = FlatMap::new();
    let n = base.content.len();
    let mut i: usize = 0;
    proof {
        crate::flatmap::lemma_map_of_distinct(base.content.entries());
        assert(r@ =~= missing_keys_spec(
            map_of(base.content.entries().take(0)),
            other.content@,
        ));
    }
    while i < n
        invariant
            0 <= i <= n,
            n == base.content.entries().len(),
            r.wf(),
            r@ == missing_keys_spec(map_of(base.content.entries().take(i as int)), other.content@),
        decreases n - i,
    {
        let pair = base.content.pair_at(i);
        let ghost bes = base.content.entries();
        proof {
            assert(bes.take(i + 1).drop_last() =~= bes.take(i as int));
            assert(bes.take(i + 1).last() == bes[i as int]);
        }
        if !other.content.contains_key(pair.0.as_str()) {
            r.insert(pair.0.clone(), pair.1.clone());
        }
        proof {
            assert(r@ =~= missing_keys_spec(map_of(bes.take(i + 1)), other.content@));
        }
        i = i + 1;
    }
    proof {
        assert(base.content.entries().take(n as int) =~= base.content.entries());
    }
    r
}

/// The delta to push for one language: every local key the cached
/// remote state lacks or holds only blank, with the local values. With
/// no cached remote state at all, the whole local content.
pub open spec fn diff_spec(
    local: Map<Seq<char>, Seq<char>>,
    cached_remote: Option<Map<Seq<char>, Seq<char>>>,
) -> Map<Seq<char>, Seq<char>> {
    match cached_remote {
        None => local,
        Some(remote) => Map::new(
            |k: Seq<char>|
                local.dom().contains(k) && (!remote.dom().contains(k) || is_blank_chars(
                    remote[k],
                )),
            |k: Seq<char>| local[k],
        ),
    }
}

/// The keys to upload for one language, per the conflict policy: keys
/// the remote lacks and keys it holds only blank are pushed with the
/// local values; a key the remote holds non-blank is left alone, the
/// remote being authoritative once populated. With no cached remote
/// state (a first-time sync) the whole local content is pushed.
#[verifier::loop_isolation(false)]
pub fn diff(local: &TranslationFile, cached_remote: Option<&TranslationFile>) -> (r: FlatMap)
    requires
        local.wf(),
        cached_remote matches Some(c) ==> c.wf(),
    ensures
        r.wf(),
        r@ == diff_spec(
            local.content@,
            match cached_remote {
                Some(c) => Some(c.content@),
                None => None,
            },
        ),
{
    let remote = match cached_remote {
        None => {
            return local.content.duplicate();
        },
        Some(c) => c,
    };
    let mut r = FlatMap::new();
    let n = local.content.len();
    let mut i: usize = 0;
    proof {
        crate::flatmap::lemma_map_of_distinct(local.content.entries());
        assert(r@ =~= diff_spec(
            map_of(local.content.entries().take(0)),
            Some(remote.content@),
        ));
    }
    while i < n
        invariant
            0 <= i <= n,
            n == local.content.entries().len(),
            r.wf(),
            r@ == diff_spec(
                map_of(local.content.entries().take(i as int)),
                Some(remote.content@),
            ),
        decreases n - i,
    {
        let pair = local.content.pair_at(i);
        let ghost les = local.content.entries();
        proof {
            assert(les.take(i + 1).drop_last() =~= les.take(i as int));
            assert(les.take(i + 1).last() == les[i as int]);
        }
        let push = match remote.content.get(pair.0.as_str()) {
            None => true,
            Some(remote_value) => crate::strutil::is_blank(remote_value.as_str()),
        };
        if push {
            r.insert(pair.0.clone(), pair.1.clone());
        }
        proof {
            assert(r@ =~= diff_spec(map_of(les.take(i + 1)), Some(remote.content@)));
        }
        i = i + 1;
    }
    proof {
        assert(local.content.entries().take(n as int) =~= local.content.entries());
    }
    r
}

/// The nested JSON text a flat content round-trips back to disk as:
/// the unflattened tree, pretty-printed. The error is the unflattener's.
pub fn render_translation_file(content: &FlatMap) -> (r: Result<String, StructureConflict>)
    ensures
        r is Ok <==> unflatten_spec(content.entries()) is Ok,
        r is Ok ==> r->Ok_0@ == pretty_text_of(unflatten_spec(content.entries())->Ok_0),
{
    match unflatten(content) {
        Ok(tree) => Ok(tree_to_pretty(&tree)),
        Err(e) => Err(e),
    }
}

} // verus!
