use vstd::prelude::*;
use vstd::string::StrSliceExecFns;
use vstd::string::StringExecFns;

verus! {

/// The characters a value may consist of and still count as
/// untranslated: the Unicode White_Space set, as `str::trim` removes.
pub open spec fn is_space_char(c: char) -> bool {
    c == '\u{0009}' || c == '\u{000A}' || c == '\u{000B}' || c == '\u{000C}' || c == '\u{000D}'
        || c == '\u{0020}' || c == '\u{0085}' || c == '\u{00A0}' || c == '\u{1680}' || c
        == '\u{2000}' || c == '\u{2001}' || c == '\u{2002}' || c == '\u{2003}' || c == '\u{2004}'
        || c == '\u{2005}' || c == '\u{2006}' || c == '\u{2007}' || c == '\u{2008}' || c
        == '\u{2009}' || c == '\u{200A}' || c == '\u{2028}' || c == '\u{2029}' || c == '\u{202F}'
        || c == '\u{205F}' || c == '\u{3000}'
}

/// Whether `c` counts as whitespace.
pub fn is_space(c: char) -> (r: bool)
    ensures
        r == is_space_char(c),
{
    c == '\u{0009}' || c == '\u{000A}' || c == '\u{000B}' || c == '\u{000C}' || c == '\u{000D}'
        || c == '\u{0020}' || c == '\u{0085}' || c == '\u{00A0}' || c == '\u{1680}' || c
        == '\u{2000}' || c == '\u{2001}' || c == '\u{2002}' || c == '\u{2003}' || c == '\u{2004}'
        || c == '\u{2005}' || c == '\u{2006}' || c == '\u{2007}' || c == '\u{2008}' || c
        == '\u{2009}' || c == '\u{200A}' || c == '\u{2028}' || c == '\u{2029}' || c == '\u{202F}'
        || c == '\u{205F}' || c == '\u{3000}'
}

/// A value that holds no visible text: empty, or whitespace only. A remote
/// value of this shape counts as "not yet translated".
pub open spec fn is_blank_chars(s: Seq<char>) -> bool {
    forall|i: int| 0 <= i < s.len() ==> is_space_char(#[trigger] s[i])
}

/// Joins a parent key path and a child key with a dot, as flattened
/// translation keys are formed; an empty parent stands for the tree root
/// and adds no separator.
pub open spec fn joined_key(prefix: Seq<char>, key: Seq<char>) -> Seq<char> {
    if prefix.len() == 0 {
        key
    } else {
        prefix + seq!['.'] + key
    }
}

/// The segments of a dotted key: the key split at every dot. Never empty;
/// a key without dots is its own single segment.
pub open spec fn split_key(k: Seq<char>) -> Seq<Seq<char>>
    decreases k.len(),
{
    if k.len() == 0 {
        seq![Seq::<char>::empty()]
    } else if k[0] == '.' {
        seq![Seq::<char>::empty()] + split_key(k.drop_first())
    } else {
        let rest = split_key(k.drop_first());
        seq![seq![k[0]] + rest[0]] + rest.drop_first()
    }
}

/// The views of a sequence of strings.
pub open spec fn views_of(v: Seq<String>) -> Seq<Seq<char>> {
    v.map_values(|x: String| x@)
}

pub proof fn lemma_split_key_len(k: Seq<char>)
    ensures
        split_key(k).len() >= 1,
    decreases k.len(),
{
    if k.len() > 0 {
        lemma_split_key_len(k.drop_first());
    }
}

/// Splitting a key at its first dot: if the first `d` characters hold no
/// dot, the first segment is exactly those characters.
pub proof fn lemma_split_key_at_first_dot(k: Seq<char>, d: int)
    requires
        0 <= d <= k.len(),
        forall|i: int| 0 <= i < d ==> #[trigger] k[i] != '.',
        d < k.len() ==> k[d] == '.',
    ensures
        d == k.len() ==> split_key(k) == seq![k],
        d < k.len() ==> split_key(k) == seq![k.subrange(0, d)] + split_key(
            k.subrange(d + 1, k.len() as int),
        ),
    decreases k.len(),
{
    lemma_split_key_len(k);
    if k.len() == 0 {
        assert(split_key(k) =~~= seq![k]);
    } else if d == 0 {
        if d < k.len() {
            assert(k[0] == '.');
            assert(split_key(k) =~~= seq![k.subrange(0, 0)] + split_key(
                k.subrange(1, k.len() as int),
            ));
        }
    } else {
        let t = k.drop_first();
        lemma_split_key_at_first_dot(t, d - 1);
        lemma_split_key_len(t);
        if d == k.len() {
            assert(t.subrange(0, d - 1) =~= t);
            assert(split_key(t) == seq![t]);
            assert(seq![k[0]] + t =~= k);
            assert(split_key(k) =~~= seq![k]);
        } else {
            assert(t[d - 1] == '.');
            assert(split_key(t) == seq![t.subrange(0, d - 1)] + split_key(
                t.subrange(d, t.len() as int),
            ));
            assert(seq![k[0]] + t.subrange(0, d - 1) =~= k.subrange(0, d));
            assert(t.subrange(d, t.len() as int) =~= k.subrange(d + 1, k.len() as int));
            assert(split_key(k) =~= seq![k.subrange(0, d)] + split_key(
                k.subrange(d + 1, k.len() as int),
            ));
        }
    }
}

/// Character-for-character equality of two string slices.
pub fn str_eq(a: &str, b: &str) -> (r: bool)
    ensures
        r == (a@ == b@),
{
    let na = a.unicode_len();
    let nb = b.unicode_len();
    if na != nb {
        return false;
    }
    let mut i: usize = 0;
    while i < na
        invariant
            0 <= i <= na,
            na == a@.len(),
            na == b@.len(),
            forall|j: int| 0 <= j < i ==> a@[j] == b@[j],
        decreases na - i,
    {
        if a.get_char(i) != b.get_char(i) {
            return false;
        }
        i = i + 1;
    }
    proof {
        assert(a@ =~= b@);
    }
    true
}

/// Whether the slice holds no visible text.
pub fn is_blank(s: &str) -> (r: bool)
    ensures
        r == is_blank_chars(s@),
{
    let n = s.unicode_len();
    let mut i: usize = 0;
    while i < n
        invariant
            0 <= i <= n,
            n == s@.len(),
            forall|j: int| 0 <= j < i ==> is_space_char(#[trigger] s@[j]),
        decreases n - i,
    {
        let c = s.get_char(i);
        if !is_space(c) {
            return false;
        }
        i = i + 1;
    }
    true
}

/// Whether `p` is a prefix of `s`.
pub fn str_starts_with(s: &str, p: &str) -> (r: bool)
    ensures
        r == p@.is_prefix_of(s@),
{
    let np = p.unicode_len();
    let ns = s.unicode_len();
    if np > ns {
        return false;
    }
    let mut i: usize = 0;
    while i < np
        invariant
            0 <= i <= np,
            np == p@.len(),
            ns == s@.len(),
            np <= ns,
            forall|j: int| 0 <= j < i ==> s@[j] == p@[j],
        decreases np - i,
    {
        if s.get_char(i) != p.get_char(i) {
            return false;
        }
        i = i + 1;
    }
    proof {
        assert(s@.subrange(0, np as int) =~= p@);
    }
    true
}

/// Appends `key` to the dotted path `prefix`.
pub fn join_prefix(prefix: &str, key: &str) -> (r: String)
    ensures
        r@ == joined_key(prefix@, key@),
{
    if prefix.is_empty() {
        key.to_owned()
    } else {
        let mut out = prefix.to_owned();
        out.append(".");
        out.append(key);
        proof {
            reveal_strlit(".");
            assert(out@ =~= prefix@ + seq!['.'] + key@);
        }
        out
    }
}

/// Splits a dotted key into its segments.
pub fn split_dots(s: &str) -> (r: Vec<String>)
    ensures
        views_of(r@) == split_key(s@),
        r@.len() >= 1,
    decreases s@.len(),
{
    let n = s.unicode_len();
    let mut d: usize = 0;
    while d < n && s.get_char(d) != '.'
        invariant
            0 <= d <= n,
            n == s@.len(),
            forall|j: int| 0 <= j < d ==> #[trigger] s@[j] != '.',
        decreases n - d,
    {
        d = d + 1;
    }
    if d == n {
        let mut v: Vec<String> = Vec::new();
        v.push(s.to_owned());
        proof {
            lemma_split_key_at_first_dot(s@, d as int);
            assert(views_of(v@) =~= seq![s@]);
        }
        v
    } else {
        let head = s.substring_char(0, d).to_owned();
        let tail = s.substring_char(d + 1, n);
        let mut rest = split_dots(tail);
        rest.insert(0, head);
        proof {
            lemma_split_key_at_first_dot(s@, d as int);
            assert(views_of(rest@) =~= seq![s@.subrange(0, d as int)] + split_key(
                s@.subrange(d + 1, s@.len() as int),
            ));
        }
        rest
    }
}

/// `s` with every occurrence of `pat` removed, scanning left to right.
pub open spec fn removed_all(s: Seq<char>, pat: Seq<char>) -> Seq<char>
    decreases s.len(),
    when pat.len() > 0
{
    if s.len() == 0 {
        s
    } else if pat.is_prefix_of(s) {
        removed_all(s.skip(pat.len() as int), pat)
    } else {
        seq![s[0]] + removed_all(s.drop_first(), pat)
    }
}

/// `s` with every trailing `c` removed.
pub open spec fn trimmed_end(s: Seq<char>, c: char) -> Seq<char>
    decreases s.len(),
{
    if s.len() > 0 && s.last() == c {
        trimmed_end(s.drop_last(), c)
    } else {
        s
    }
}

/// `s` with every leading `c` removed.
pub open spec fn trimmed_start(s: Seq<char>, c: char) -> Seq<char>
    decreases s.len(),
{
    if s.len() > 0 && s[0] == c {
        trimmed_start(s.drop_first(), c)
    } else {
        s
    }
}

/// `s` with every leading and trailing `c` removed.
pub open spec fn trimmed_both(s: Seq<char>, c: char) -> Seq<char> {
    trimmed_start(trimmed_end(s, c), c)
}

/// The text before the last slash of a relative path; empty where the
/// path has no slash.
pub open spec fn parent_dir(s: Seq<char>) -> Seq<char>
    decreases s.len(),
{
    if s.len() == 0 {
        s
    } else if s.last() == '/' {
        s.drop_last()
    } else {
        parent_dir(s.drop_last())
    }
}

/// Removes every occurrence of `pat` from `s`.
pub fn remove_all(s: &str, pat: &str) -> (r: String)
    requires
        pat@.len() > 0,
    ensures
        r@ == removed_all(s@, pat@),
    decreases s@.len(),
{
    let n = s.unicode_len();
    let np = pat.unicode_len();
    if n == 0 {
        return String::new();
    }
    if str_starts_with(s, pat) {
        let rest = s.substring_char(np, n);
        proof {
            assert(rest@ =~= s@.skip(np as int));
        }
        remove_all(rest, pat)
    } else {
        let head = s.substring_char(0, 1);
        let tail = s.substring_char(1, n);
        proof {
            assert(tail@ =~= s@.drop_first());
        }
        let mut out = head.to_owned();
        let rest = remove_all(tail, pat);
        out.append(rest.as_str());
        proof {
            assert(head@ =~= seq![s@[0]]);
            assert(out@ =~= seq![s@[0]] + removed_all(s@.drop_first(), pat@));
        }
        out
    }
}

/// Whether the trailing characters from `i` on are all `c` and `i` is
/// the first such position decides where trimming ends.
proof fn lemma_trimmed_end_at(s: Seq<char>, c: char, i: int)
    requires
        0 <= i <= s.len(),
        forall|j: int| i <= j < s.len() ==> s[j] == c,
        i > 0 ==> s[i - 1] != c,
    ensures
        trimmed_end(s, c) == s.take(i),
    decreases s.len(),
{
    if i == s.len() {
        assert(s.take(i) =~= s);
    } else {
        assert(s.last() == c);
        lemma_trimmed_end_at(s.drop_last(), c, i);
        assert(s.drop_last().take(i) =~= s.take(i));
    }
}

proof fn lemma_trimmed_start_at(s: Seq<char>, c: char, i: int)
    requires
        0 <= i <= s.len(),
        forall|j: int| 0 <= j < i ==> s[j] == c,
        i < s.len() ==> s[i] != c,
    ensures
        trimmed_start(s, c) == s.skip(i),
    decreases i,
{
    if i == 0 {
        assert(s.skip(0) =~= s);
    } else {
        assert(s[0] == c);
        lemma_trimmed_start_at(s.drop_first(), c, i - 1);
        assert(s.drop_first().skip(i - 1) =~= s.skip(i));
    }
}

/// Removes every trailing `c`.
#[verifier::loop_isolation(false)]
pub fn trim_end_char(s: &str, c: char) -> (r: String)
    ensures
        r@ == trimmed_end(s@, c),
{
    let n = s.unicode_len();
    let mut i: usize = n;
    while i > 0 && s.get_char(i - 1) == c
        invariant
            0 <= i <= n,
            forall|j: int| i <= j < n ==> s@[j] == c,
        decreases i,
    {
        i = i - 1;
    }
    proof {
        lemma_trimmed_end_at(s@, c, i as int);
    }
    let out = s.substring_char(0, i);
    proof {
        assert(out@ =~= s@.take(i as int));
    }
    out.to_owned()
}

/// Removes every leading and trailing `c`.
#[verifier::loop_isolation(false)]
pub fn trim_both_char(s: &str, c: char) -> (r: String)
    ensures
        r@ == trimmed_both(s@, c),
{
    let e = trim_end_char(s, c);
    let t = e.as_str();
    let n = t.unicode_len();
    let mut i: usize = 0;
    while i < n && t.get_char(i) == c
        invariant
            0 <= i <= n,
            forall|j: int| 0 <= j < i ==> t@[j] == c,
        decreases n - i,
    {
        i = i + 1;
    }
    proof {
        lemma_trimmed_start_at(t@, c, i as int);
    }
    let out = t.substring_char(i, n);
    proof {
        assert(out@ =~= t@.skip(i as int));
    }
    out.to_owned()
}

/// The directory part of a relative path: everything before its last
/// slash, or empty.
#[verifier::loop_isolation(false)]
pub fn parent_of_path(s: &str) -> (r: String)
    ensures
        r@ == parent_dir(s@),
{
    let n = s.unicode_len();
    let mut i: usize = n;
    while i > 0 && s.get_char(i - 1) != '/'
        invariant
            0 <= i <= n,
            forall|j: int| i <= j < n ==> s@[j] != '/',
        decreases i,
    {
        i = i - 1;
    }
    proof {
        lemma_parent_dir_at(s@, i as int);
    }
    if i == 0 {
        String::new()
    } else {
        let out = s.substring_char(0, i - 1);
        proof {
            assert(out@ =~= s@.take(i - 1));
        }
        out.to_owned()
    }
}

proof fn lemma_parent_dir_at(s: Seq<char>, i: int)
    requires
        0 <= i <= s.len(),
        forall|j: int| i <= j < s.len() ==> s[j] != '/',
        i > 0 ==> s[i - 1] == '/',
    ensures
        i == 0 ==> parent_dir(s) == Seq::<char>::empty(),
        i > 0 ==> parent_dir(s) == s.take(i - 1),
    decreases s.len(),
{
    if i == s.len() {
        if i > 0 {
            assert(s.take(i - 1) =~= s.drop_last());
        }
    } else {
        assert(s.last() != '/');
        lemma_parent_dir_at(s.drop_last(), i);
        if i == 0 {
        } else {
            assert(s.drop_last().take(i - 1) =~= s.take(i - 1));
        }
    }
}

} // verus!
