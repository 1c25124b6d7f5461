use vstd::prelude::*;
use vstd::string::StringExecFns;
use crate::api::FileGroup;
use crate::codec::{parse_tree, parsed_tree, pretty_text_of, tree_to_pretty};
use crate::config::Config;
use crate::errors::{RemoteFetchError, ConfigError, NoProgress};
use crate::flatmap::FlatMap;
use crate::merge::{clone_tree, merge_json_content, merge_one, obj_get};
use crate::strutil::{remove_all, removed_all, str_eq, str_starts_with, views_of};
use crate::translation::{flattened_of, get_missing_keys, missing_keys_spec, TranslationFile};
use crate::tree::{JsonTree, TreeV};

verus! {

/// The reconciliation orchestrator: carries the run's configuration
/// and makes every decision of the push, download and sync workflows;
/// the surrounding program only performs the I/O those decisions call
/// for.
pub struct TranslationService {
    pub config: Config,
}

/// The per-run tally of languages that synced and languages that
/// failed. A failed language never aborts the run; only a run in which
/// nothing succeeded fails as a whole.
#[derive(Clone, Copy, Debug, PartialEq, Eq, Structural)]
pub struct RunTally {
    pub succeeded: u64,
    pub failed: u64,
}

/// What a finished run reports.
#[derive(Clone, Copy, Debug, PartialEq, Eq, Structural)]
pub struct RunSummary {
    pub succeeded: u64,
    pub failed: u64,
    pub total: u64,
}

impl RunTally {
    pub fn new() -> (r: RunTally)
        ensures
            r.succeeded == 0,
            r.failed == 0,
    {
        RunTally { succeeded: 0, failed: 0 }
    }

    pub fn record_success(&mut self)
        requires
            old(self).succeeded < u64::MAX,
        ensures
            final(self).succeeded == old(self).succeeded + 1,
            final(self).failed == old(self).failed,
    {
        self.succeeded = self.succeeded + 1;
    }

    pub fn record_failure(&mut self)
        requires
            old(self).failed < u64::MAX,
        ensures
            final(self).failed == old(self).failed + 1,
            final(self).succeeded == old(self).succeeded,
    {
        self.failed = self.failed + 1;
    }

    /// Closes the run: a summary when anything succeeded or there was
    /// nothing to do, the terminal no-progress error when every
    /// language failed.
    pub fn finish(&self) -> (r: Result<RunSummary, NoProgress>)
        requires
            self.succeeded + self.failed <= u64::MAX,
        ensures
            r is Err <==> (self.succeeded == 0 && self.failed > 0),
            r matches Ok(s) ==> s.succeeded == self.succeeded && s.failed == self.failed
                && s.total == self.succeeded + self.failed,
            r matches Err(e) ==> e.failed == self.failed && e.total == self.failed,
    {
        if self.succeeded == 0 && self.failed > 0 {
            Err(NoProgress { failed: self.failed, total: self.failed })
        } else {
            Ok(RunSummary {
                succeeded: self.succeeded,
                failed: self.failed,
                total: self.succeeded + self.failed,
            })
        }
    }
}

/// The language subtree a downloaded blob holds under `key`, if the
/// blob parses to an object that holds the key.
pub open spec fn blob_subtree(text: Seq<char>, key: Seq<char>) -> Option<TreeV> {
    match parsed_tree(text) {
        Some(t) => match t {
            TreeV::Obj(es) => TreeV::entry_lookup(es, key),
            TreeV::Leaf(_) => None,
        },
        None => None,
    }
}

impl TranslationService {
    pub fn new(config: Config) -> (r: Self)
        ensures
            r.config == config,
    {
        TranslationService { config }
    }

    /// The key under which a downloaded blob holds this system's
    /// language subtree.
    pub fn remote_blob_key(&self) -> (r: String)
        ensures
            r@ == self.config.path_prefix@ + "/languages"@,
    {
        let mut out = String::from_str(self.config.path_prefix.as_str());
        out.append("/languages");
        out
    }

    /// The display path a file is reported under when pushing: kept
    /// as-is for paths already rooted in the fixtures tree, else put
    /// under the base directory.
    pub fn get_full_path(&self, translation: &TranslationFile, base_path: &str) -> (r: String)
        ensures
            "fixtures/"@.is_prefix_of(translation.relative_path@) ==> r@
                == translation.relative_path@,
            !"fixtures/"@.is_prefix_of(translation.relative_path@) ==> r@ == base_path@ + seq![
                '/',
            ] + translation.relative_path@,
    {
        if str_starts_with(translation.relative_path.as_str(), "fixtures/") {
            String::from_str(translation.relative_path.as_str())
        } else {
            let mut out = String::from_str(base_path);
            out.append("/");
            out.append(translation.relative_path.as_str());
            proof {
                reveal_strlit("/");
                assert(out@ =~= base_path@ + seq!['/'] + translation.relative_path@);
            }
            out
        }
    }

    /// The glob patterns local files are read with: as configured, but
    /// with the fixtures tree prefix dropped when the caller named an
    /// explicit base directory.
    #[verifier::loop_isolation(false)]
    pub fn effective_include_patterns(&self, custom_path: bool) -> (r: Vec<String>)
        ensures
            r@.len() == self.config.includes@.len(),
            !custom_path ==> forall|i: int|
                0 <= i < r@.len() ==> (#[trigger] r@[i])@ == self.config.includes@[i]@,
            custom_path ==> forall|i: int|
                0 <= i < r@.len() ==> (#[trigger] r@[i])@ == removed_all(
                    self.config.includes@[i]@,
                    "fixtures/"@,
                ),
    {
        proof {
            reveal_strlit("fixtures/");
        }
        let n = self.config.includes.len();
        let mut out: Vec<String> = Vec::new();
        let mut i: usize = 0;
        while i < n
            invariant
                0 <= i <= n,
                n == self.config.includes@.len(),
                out@.len() == i,
                !custom_path ==> forall|j: int|
                    0 <= j < i ==> (#[trigger] out@[j])@ == self.config.includes@[j]@,
                custom_path ==> forall|j: int|
                    0 <= j < i ==> (#[trigger] out@[j])@ == removed_all(
                        self.config.includes@[j]@,
                        "fixtures/"@,
                    ),
            decreases n - i,
        {
            let p = &self.config.includes[i];
            if custom_path {
                out.push(remove_all(p.as_str(), "fixtures/"));
            } else {
                out.push(String::from_str(p.as_str()));
            }
            i = i + 1;
        }
        out
    }
}

/// The index of the base language's set among the local files; the run
/// cannot start without it.
#[verifier::loop_isolation(false)]
pub fn find_base(locals: &Vec<TranslationFile>, base_language: &str) -> (r: Result<
    usize,
    ConfigError,
>)
    ensures
        r matches Ok(i) ==> 0 <= i < locals@.len() && locals@[i as int].language_code@
            == base_language@ && forall|j: int|
            0 <= j < i ==> (#[trigger] locals@[j]).language_code@ != base_language@,
        r is Err <==> forall|j: int|
            0 <= j < locals@.len() ==> (#[trigger] locals@[j]).language_code@ != base_language@,
{
    let n = locals.len();
    let mut i: usize = 0;
    while i < n
        invariant
            0 <= i <= n,
            n == locals@.len(),
            forall|j: int| 0 <= j < i ==> (#[trigger] locals@[j]).language_code@ != base_language@,
        decreases n - i,
    {
        if str_eq(locals[i].language_code.as_str(), base_language) {
            return Ok(i);
        }
        i = i + 1;
    }
    Err(ConfigError)
}

/// The locator group for one language among the remote manifest, if
/// any; the first match decides.
#[verifier::loop_isolation(false)]
pub fn find_file_group(groups: &Vec<FileGroup>, lang: &str) -> (r: Option<usize>)
    ensures
        r matches Some(i) ==> 0 <= i < groups@.len() && groups@[i as int].language_code@ == lang@
            && forall|j: int|
            0 <= j < i ==> (#[trigger] groups@[j]).language_code@ != lang@,
        r is None <==> forall|j: int|
            0 <= j < groups@.len() ==> (#[trigger] groups@[j]).language_code@ != lang@,
{
    let n = groups.len();
    let mut i: usize = 0;
    while i < n
        invariant
            0 <= i <= n,
            n == groups@.len(),
            forall|j: int| 0 <= j < i ==> (#[trigger] groups@[j]).language_code@ != lang@,
        decreases n - i,
    {
        if str_eq(groups[i].language_code.as_str(), lang) {
            return Some(i);
        }
        i = i + 1;
    }
    None
}

/// Backfills one non-base language in memory: every key the base holds
/// and this language lacks is added with the base's value, so the
/// local file carries base-language placeholders before an upload. The
/// added keys are returned so the caller can save the file when any
/// were found.
pub fn backfill_from_base(base: &TranslationFile, other: &mut TranslationFile) -> (missing:
    FlatMap)
    requires
        base.wf(),
        old(other).wf(),
    ensures
        missing.wf(),
        missing@ == missing_keys_spec(base.content@, old(other).content@),
        final(other).wf(),
        final(other).content@ == old(other).content@.union_prefer_right(missing@),
        final(other).language_code == old(other).language_code,
        final(other).relative_path == old(other).relative_path,
{
    let missing = get_missing_keys(base, other);
    other.content.extend_from(&missing);
    missing
}

/// The language subtree of a downloaded blob, cloned out of the parsed
/// document, or which of the two things went wrong: the blob is not
/// JSON, or the lookup key is absent (also when the blob is not an
/// object at all).
fn fetch_subtree(blob_text: &str, lookup_key: &str) -> (r: Result<JsonTree, RemoteFetchError>)
    ensures
        r is Ok <==> blob_subtree(blob_text@, lookup_key@) is Some,
        r matches Ok(t) ==> t@ == blob_subtree(blob_text@, lookup_key@)->Some_0,
        r matches Err(e) ==> (e == RemoteFetchError::Parse <==> parsed_tree(blob_text@) is None),
{
    let tree = match parse_tree(blob_text) {
        Ok(t) => t,
        Err(_) => {
            return Err(RemoteFetchError::Parse);
        },
    };
    match &tree {
        JsonTree::Obj(es) => {
            match obj_get(es, lookup_key) {
                Some(sub) => Ok(clone_tree(sub)),
                None => Err(RemoteFetchError::NoLanguageContent),
            }
        },
        JsonTree::Leaf(_) => Err(RemoteFetchError::NoLanguageContent),
    }
}

/// The pretty text of the language subtree held in a downloaded blob:
/// what the download workflow writes to the local preview file for one
/// language.
pub fn extract_language_document(blob_text: &str, lookup_key: &str) -> (r: Result<
    String,
    RemoteFetchError,
>)
    ensures
        r is Ok <==> blob_subtree(blob_text@, lookup_key@) is Some,
        r matches Ok(text) ==> text@ == pretty_text_of(
            blob_subtree(blob_text@, lookup_key@)->Some_0,
        ),
        r matches Err(e) ==> (e == RemoteFetchError::Parse <==> parsed_tree(blob_text@) is None),
{
    match fetch_subtree(blob_text, lookup_key) {
        Ok(sub) => Ok(tree_to_pretty(&sub)),
        Err(e) => Err(e),
    }
}

/// Takes one downloaded blob into the in-memory remote cache: the
/// language subtree is flattened and merged into the language's cached
/// set, or a fresh set is created for the language. Returns the
/// subtree's pretty text, for the on-disk cache copy.
#[verifier::loop_isolation(false)]
pub fn ingest_remote_blob(
    cache: &mut Vec<TranslationFile>,
    lang: &str,
    blob_text: &str,
    lookup_key: &str,
) -> (r: Result<String, RemoteFetchError>)
    requires
        forall|i: int| 0 <= i < old(cache)@.len() ==> (#[trigger] old(cache)@[i]).wf(),
    ensures
        forall|i: int| 0 <= i < final(cache)@.len() ==> (#[trigger] final(cache)@[i]).wf(),
        r is Ok <==> blob_subtree(blob_text@, lookup_key@) is Some,
        r matches Err(e) ==> *final(cache) == *old(cache) && (e == RemoteFetchError::Parse
            <==> parsed_tree(blob_text@) is None),
        r matches Ok(text) ==> text@ == pretty_text_of(
            blob_subtree(blob_text@, lookup_key@)->Some_0,
        ),
        r is Ok && (forall|j: int|
            0 <= j < old(cache)@.len() ==> (#[trigger] old(cache)@[j]).language_code@ != lang@)
            ==> final(cache)@.len() == old(cache)@.len() + 1 && (forall|j: int|
            0 <= j < old(cache)@.len() ==> final(cache)@[j] == old(cache)@[j]) && final(cache)@.last().language_code@ == lang@ && final(cache)@.last().relative_path@ == lang@
            + ".json"@ && final(cache)@.last().content@ == flattened_of(
            blob_subtree(blob_text@, lookup_key@)->Some_0,
        ),
        forall|i: int|
            r is Ok && 0 <= i < old(cache)@.len() && (#[trigger] old(cache)@[i]).language_code@ == lang@ && (forall|j: int|
                0 <= j < i ==> (#[trigger] old(cache)@[j]).language_code@ != lang@) ==> final(cache)@.len() == old(cache)@.len() && (forall|j: int|
                0 <= j < old(cache)@.len() && j != i ==> final(cache)@[j] == old(cache)@[j])
                && final(cache)@[i].language_code == old(cache)@[i].language_code && final(cache)@[i].relative_path == old(cache)@[i].relative_path && final(cache)@[i].content@
                == old(cache)@[i].content@.union_prefer_right(
                flattened_of(blob_subtree(blob_text@, lookup_key@)->Some_0),
            ),
{
    let sub = match fetch_subtree(blob_text, lookup_key) {
        Ok(t) => t,
        Err(e) => {
            return Err(e);
        },
    };
    let fm = crate::flatten::flatten_json(&sub);
    let pretty = tree_to_pretty(&sub);
    let n = cache.len();
    let mut i: usize = 0;
    while i < n
        invariant
            0 <= i <= n,
            n == cache@.len(),
            cache == old(cache),
            forall|j: int| 0 <= j < i ==> (#[trigger] cache@[j]).language_code@ != lang@,
        decreases n - i,
    {
        if str_eq(cache[i].language_code.as_str(), lang) {
            let f = &mut cache[i];
            f.content.extend_from(&fm);
            return Ok(pretty);
        }
        i = i + 1;
    }
    let file = TranslationFile {
        language_code: String::from_str(lang),
        relative_path: String::from_str(lang).concat(".json"),
        content: fm,
    };
    cache.push(file);
    Ok(pretty)
}

/// The merged document text for one language of the sync workflow: the
/// local file's tree combined with the remote subtree under the
/// conflict policy, pretty-printed for writing back. Fails exactly
/// when the local text is not JSON.
pub fn merge_remote_document(local_text: &str, remote_subtree: &JsonTree) -> (r: Result<
    String,
    crate::errors::ParseError,
>)
    ensures
        r is Ok <==> parsed_tree(local_text@) is Some,
        r matches Ok(text) ==> text@ == pretty_text_of(
            merge_one(parsed_tree(local_text@)->Some_0, remote_subtree@),
        ),
{
    match parse_tree(local_text) {
        Ok(local) => Ok(tree_to_pretty(&merge_json_content(&local, remote_subtree))),
        Err(e) => Err(e),
    }
}

/// The keys among `es` that the mapping `m` lacks, in entry order.
pub open spec fn keys_missing_from(
    es: Seq<(Seq<char>, Seq<char>)>,
    m: Map<Seq<char>, Seq<char>>,
) -> Seq<Seq<char>>
    decreases es.len(),
{
    if es.len() == 0 {
        Seq::empty()
    } else {
        let r = keys_missing_from(es.drop_last(), m);
        if !m.dom().contains(es.last().0) {
            r.push(es.last().0)
        } else {
            r
        }
    }
}

/// The keys among `es` that the mapping `m` holds with a different
/// value, in entry order.
pub open spec fn keys_changed(
    es: Seq<(Seq<char>, Seq<char>)>,
    m: Map<Seq<char>, Seq<char>>,
) -> Seq<Seq<char>>
    decreases es.len(),
{
    if es.len() == 0 {
        Seq::empty()
    } else {
        let r = keys_changed(es.drop_last(), m);
        if m.dom().contains(es.last().0) && m[es.last().0] != es.last().1 {
            r.push(es.last().0)
        } else {
            r
        }
    }
}

/// What a sync will do to one language's file, key by key: the keys
/// only the local side holds (kept), the keys only the remote side
/// holds (added), and the keys whose remote value differs (updated).
pub struct DiffReport {
    pub local_only: Vec<String>,
    pub remote_only: Vec<String>,
    pub changed: Vec<String>,
}

/// Flattens both trees and compares them key by key; the compute part
/// of the sync preview report.
#[verifier::loop_isolation(false)]
pub fn json_diff_report(local: &JsonTree, remote: &JsonTree) -> (r: DiffReport)
    ensures
        views_of(r.local_only@) == keys_missing_from(
            crate::flatten::fm_insert_all(
                Seq::<(Seq<char>, Seq<char>)>::empty(),
                crate::flatten::flat_entries(local@, Seq::<char>::empty()),
            ),
            flattened_of(remote@),
        ),
        views_of(r.remote_only@) == keys_missing_from(
            crate::flatten::fm_insert_all(
                Seq::<(Seq<char>, Seq<char>)>::empty(),
                crate::flatten::flat_entries(remote@, Seq::<char>::empty()),
            ),
            flattened_of(local@),
        ),
        views_of(r.changed@) == keys_changed(
            crate::flatten::fm_insert_all(
                Seq::<(Seq<char>, Seq<char>)>::empty(),
                crate::flatten::flat_entries(local@, Seq::<char>::empty()),
            ),
            flattened_of(remote@),
        ),
{
    let lf = crate::flatten::flatten_json(local);
    let rf = crate::flatten::flatten_json(remote);
    let mut local_only: Vec<String> = Vec::new();
    let mut remote_only: Vec<String> = Vec::new();
    let mut changed: Vec<String> = Vec::new();
    let nl = lf.len();
    let mut i: usize = 0;
    proof {
        assert(lf.entries().take(0) =~= Seq::<(Seq<char>, Seq<char>)>::empty());
    }
    while i < nl
        invariant
            0 <= i <= nl,
            nl == lf.entries().len(),
            views_of(local_only@) == keys_missing_from(lf.entries().take(i as int), rf@),
            views_of(changed@) == keys_changed(lf.entries().take(i as int), rf@),
        decreases nl - i,
    {
        let pair = lf.pair_at(i);
        proof {
            assert(lf.entries().take(i + 1).drop_last() =~= lf.entries().take(i as int));
            assert(lf.entries().take(i + 1).last() == lf.entries()[i as int]);
        }
        match rf.get(pair.0.as_str()) {
            None => {
                let ghost prev = local_only@;
                local_only.push(pair.0.clone());
                proof {
                    assert(views_of(local_only@) =~= views_of(prev).push(
                        lf.entries()[i as int].0,
                    ));
                }
            },
            Some(remote_value) => {
                if !str_eq(remote_value.as_str(), pair.1.as_str()) {
                    let ghost prev = changed@;
                    changed.push(pair.0.clone());
                    proof {
                        assert(views_of(changed@) =~= views_of(prev).push(
                            lf.entries()[i as int].0,
                        ));
                    }
                }
            },
        }
        i = i + 1;
    }
    proof {
        assert(lf.entries().take(nl as int) =~= lf.entries());
    }
    let nr = rf.len();
    let mut j: usize = 0;
    proof {
        assert(rf.entries().take(0) =~= Seq::<(Seq<char>, Seq<char>)>::empty());
    }
    while j < nr
        invariant
            0 <= j <= nr,
            nr == rf.entries().len(),
            views_of(remote_only@) == keys_missing_from(rf.entries().take(j as int), lf@),
        decreases nr - j,
    {
        let pair = rf.pair_at(j);
        proof {
            assert(rf.entries().take(j + 1).drop_last() =~= rf.entries().take(j as int));
            assert(rf.entries().take(j + 1).last() == rf.entries()[j as int]);
        }
        if !lf.contains_key(pair.0.as_str()) {
            let ghost prev = remote_only@;
            remote_only.push(pair.0.clone());
            proof {
                assert(views_of(remote_only@) =~= views_of(prev).push(rf.entries()[j as int].0));
            }
        }
        j = j + 1;
    }
    proof {
        assert(rf.entries().take(nr as int) =~= rf.entries());
    }
    DiffReport { local_only, remote_only, changed }
}

/// The order uploads are submitted in: the base language's index
/// first, then the remaining indices in their original order. Uploads
/// are serialized behind the base language's completion, which must
/// reach the server before the languages that depend on it.
#[verifier::loop_isolation(false)]
pub fn upload_order(count: usize, base_idx: usize) -> (r: Vec<usize>)
    requires
        base_idx < count,
    ensures
        r@.len() == count,
        r@[0] == base_idx,
        forall|j: int|
            1 <= j < count ==> (#[trigger] r@[j]) as int == if j <= base_idx {
                j - 1
            } else {
                j
            },
{
    let mut r: Vec<usize> = Vec::new();
    r.push(base_idx);
    let mut i: usize = 0;
    while i < count
        invariant
            0 <= i <= count,
            r@[0] == base_idx,
            r@.len() == if i <= base_idx {
                i + 1
            } else {
                i as int
            },
            forall|j: int|
                1 <= j < r@.len() ==> (#[trigger] r@[j]) as int == if j <= base_idx {
                    j - 1
                } else {
                    j
                },
        decreases count - i,
    {
        if i != base_idx {
            r.push(i);
        }
        i = i + 1;
    }
    r
}

} // verus!
