//! The incremental cache of extracted route names.
//!
//! A `Cache` binds file paths to the route names last extracted from them,
//! together with the file's modification time at extraction.  A rescan
//! reuses the entry of any file whose modification time is unchanged, and
//! re-extracts the rest; entries of files that have disappeared are kept.
//! Timestamps are carried as their serialized text, so the change detector
//! compares exactly what the on-disk cache round-trips.

use vstd::prelude::*;
use vstd::string::*;

use crate::extract::extract_url_patterns;
use crate::extract::spec_extracted;
use crate::text::str_eq;

verus! {

/// The cache entry of one file: its path, the route names extracted from
/// it, and its modification time at extraction.
pub struct FileEntry {
    /// The path of the file, as the scanner observed it.
    pub path: String,
    /// The route names extracted from the file, in extraction order.
    pub patterns: Vec<String>,
    /// The file's modification time when the patterns were extracted.
    pub mtime: String,
}

/// The mathematical value of a `FileEntry`.
#[verifier::ext_equal]
pub struct EntryV {
    pub path: Seq<char>,
    pub patterns: Seq<Seq<char>>,
    pub mtime: Seq<char>,
}

impl View for FileEntry {
    type V = EntryV;

    open spec fn view(&self) -> EntryV {
        EntryV { path: self.path@, patterns: self.patterns.deep_view(), mtime: self.mtime@ }
    }
}

/// The whole cache: file entries, the time of the last scan, and the
/// version of the producer.
pub struct Cache {
    /// One entry per scanned file, keyed by path.
    pub urls: Vec<FileEntry>,
    /// When the cache was last written.
    pub last_modified_at: String,
    /// The producer version the cache was written by.
    pub version: String,
}

/// The mathematical value of a `Cache`.
#[verifier::ext_equal]
pub struct CacheV {
    pub urls: Seq<EntryV>,
    pub last_modified_at: Seq<char>,
    pub version: Seq<char>,
}

impl View for Cache {
    type V = CacheV;

    open spec fn view(&self) -> CacheV {
        CacheV {
            urls: entries_view(self.urls@),
            last_modified_at: self.last_modified_at@,
            version: self.version@,
        }
    }
}

/// The entry values of a vector of entries, in order.
pub open spec fn entries_view(urls: Seq<FileEntry>) -> Seq<EntryV> {
    urls.map_values(|e: FileEntry| e@)
}

/// Whether no two entries bind the same path.
pub open spec fn unique_paths(urls: Seq<EntryV>) -> bool {
    forall|i: int, j: int| 0 <= i < j < urls.len() ==> urls[i].path != urls[j].path
}

/// The index of the first entry bound to `p`, or `urls.len()` if none is.
pub open spec fn index_of_path(urls: Seq<EntryV>, p: Seq<char>) -> int
    decreases urls.len(),
{
    if urls.len() == 0 {
        0
    } else if urls[0].path == p {
        0
    } else {
        1 + index_of_path(urls.drop_first(), p)
    }
}

/// The first entry bound to `p`, if any.
pub open spec fn lookup(urls: Seq<EntryV>, p: Seq<char>) -> Option<EntryV> {
    if index_of_path(urls, p) < urls.len() {
        Some(urls[index_of_path(urls, p)])
    } else {
        None
    }
}

/// `urls` with `e` bound to its path: the first entry of the same path is
/// replaced, or `e` is appended if the path is new.
pub open spec fn upsert(urls: Seq<EntryV>, e: EntryV) -> Seq<EntryV> {
    if index_of_path(urls, e.path) < urls.len() {
        urls.update(index_of_path(urls, e.path), e)
    } else {
        urls.push(e)
    }
}

/// `urls` after upserting every element of `updates`, in order.
pub open spec fn merge_seq(urls: Seq<EntryV>, updates: Seq<EntryV>) -> Seq<EntryV>
    decreases updates.len(),
{
    if updates.len() == 0 {
        urls
    } else {
        merge_seq(upsert(urls, updates[0]), updates.drop_first())
    }
}

pub proof fn lemma_index_of_path_char(urls: Seq<EntryV>, p: Seq<char>)
    ensures
        0 <= index_of_path(urls, p) <= urls.len(),
        forall|j: int| 0 <= j < index_of_path(urls, p) ==> urls[j].path != p,
        index_of_path(urls, p) < urls.len() ==> urls[index_of_path(urls, p)].path == p,
    decreases urls.len(),
{
    if urls.len() == 0 {
    } else if urls[0].path == p {
    } else {
        lemma_index_of_path_char(urls.drop_first(), p);
        assert forall|j: int| 0 <= j < index_of_path(urls, p) implies urls[j].path != p by {
            if j > 0 {
                assert(urls.drop_first()[j - 1] == urls[j]);
            }
        }
        if index_of_path(urls, p) < urls.len() {
            assert(urls.drop_first()[index_of_path(urls, p) - 1] == urls[index_of_path(urls, p)]);
        }
    }
}

proof fn lemma_index_of_path_is(urls: Seq<EntryV>, p: Seq<char>, i: int)
    requires
        0 <= i <= urls.len(),
        forall|j: int| 0 <= j < i ==> urls[j].path != p,
        i < urls.len() ==> urls[i].path == p,
    ensures
        index_of_path(urls, p) == i,
    decreases i,
{
    if urls.len() == 0 {
    } else if urls[0].path == p {
        assert(i == 0);
    } else {
        lemma_index_of_path_is(urls.drop_first(), p, i - 1);
    }
}

/// Upserting keeps the paths unique.
pub proof fn lemma_upsert_unique(urls: Seq<EntryV>, e: EntryV)
    requires
        unique_paths(urls),
    ensures
        unique_paths(upsert(urls, e)),
{
    lemma_index_of_path_char(urls, e.path);
    let idx = index_of_path(urls, e.path);
    if idx < urls.len() {
        let u = urls.update(idx, e);
        assert forall|i: int, j: int| 0 <= i < j < u.len() implies u[i].path != u[j].path by {
            assert(u[i].path == urls[i].path);
            assert(u[j].path == urls[j].path);
        }
    } else {
        let u = urls.push(e);
        assert forall|i: int, j: int| 0 <= i < j < u.len() implies u[i].path != u[j].path by {
            if j < urls.len() {
                assert(u[i].path == urls[i].path);
                assert(u[j].path == urls[j].path);
            } else {
                assert(u[j] == e);
                assert(u[i].path == urls[i].path);
            }
        }
    }
}

/// Reusing the entry of an unchanged file leaves the map as it was: writing
/// back what `lookup` returned changes nothing.
pub proof fn lemma_reuse_unchanged(urls: Seq<EntryV>, e: EntryV)
    requires
        lookup(urls, e.path) == Some(e),
    ensures
        upsert(urls, e) == urls,
{
    lemma_index_of_path_char(urls, e.path);
    let idx = index_of_path(urls, e.path);
    assert(urls[idx] == e);
    assert(urls.update(idx, e) =~= urls);
}

/// A rescan in which every file is unchanged reproduces the map of entries
/// exactly: merging entries that `lookup` already returns is the identity.
pub proof fn lemma_rescan_unchanged(urls: Seq<EntryV>, updates: Seq<EntryV>)
    requires
        forall|k: int|
            0 <= k < updates.len() ==> lookup(urls, #[trigger] updates[k].path) == Some(
                updates[k],
            ),
    ensures
        merge_seq(urls, updates) == urls,
    decreases updates.len(),
{
    if updates.len() > 0 {
        lemma_reuse_unchanged(urls, updates[0]);
        assert forall|k: int| 0 <= k < updates.drop_first().len() implies lookup(
            urls,
            #[trigger] updates.drop_first()[k].path,
        ) == Some(updates.drop_first()[k]) by {
            assert(updates.drop_first()[k] == updates[k + 1]);
        }
        lemma_rescan_unchanged(urls, updates.drop_first());
    }
}

/// A copy of `e`, of the same value.
pub fn clone_entry(e: &FileEntry) -> (r: FileEntry)
    ensures
        r@ == e@,
{
    let mut patterns: Vec<String> = Vec::new();
    let mut i: usize = 0;
    while i < e.patterns.len()
        invariant
            i <= e.patterns@.len(),
            patterns@ == e.patterns@.subrange(0, i as int),
        decreases e.patterns@.len() - i,
    {
        patterns.push(e.patterns[i].clone());
        proof {
            assert(e.patterns@.subrange(0, i as int).push(e.patterns@[i as int]) =~= e.patterns@
                .subrange(0, i as int + 1));
        }
        i = i + 1;
    }
    proof {
        assert(e.patterns@.subrange(0, e.patterns@.len() as int) =~= e.patterns@);
        assert(patterns.deep_view() =~= e.patterns.deep_view());
    }
    let r = FileEntry { path: e.path.clone(), patterns, mtime: e.mtime.clone() };
    proof {
        assert(r@ =~= e@);
    }
    r
}

/// A fresh entry for a file whose content was just read: the route names
/// extracted from `source`, stamped with the file's modification time.
pub fn fresh_entry(path: String, mtime: String, source: &str) -> (r: FileEntry)
    ensures
        r@.path == path@,
        r@.mtime == mtime@,
        r@.patterns == spec_extracted(source@),
{
    FileEntry { path, patterns: extract_url_patterns(source), mtime }
}

/// Binds `e` to its path in `urls`: replaces the first entry of the same
/// path, or appends.
pub fn upsert_entry(urls: &mut Vec<FileEntry>, e: FileEntry)
    ensures
        entries_view(final (urls)@) == upsert(entries_view(old(urls)@), e@),
{
    let n = urls.len();
    let mut i: usize = 0;
    while i < n
        invariant
            i <= n,
            n == urls@.len(),
            urls@ == old(urls)@,
            forall|j: int| 0 <= j < i ==> entries_view(urls@)[j].path != e@.path,
        decreases n - i,
    {
        proof {
            assert(entries_view(urls@)[i as int] == urls@[i as int]@);
        }
        if str_eq(urls[i].path.as_str(), e.path.as_str()) {
            proof {
                lemma_index_of_path_is(entries_view(urls@), e@.path, i as int);
            }
            let ghost pre = entries_view(urls@);
            urls[i] = e;
            proof {
                assert(entries_view(urls@) =~= pre.update(i as int, e@));
            }
            return ;
        }
        i = i + 1;
    }
    proof {
        lemma_index_of_path_is(entries_view(urls@), e@.path, n as int);
    }
    let ghost pre = entries_view(urls@);
    urls.push(e);
    proof {
        assert(entries_view(urls@) =~= pre.push(e@));
    }
}

/// Relies on chrono's `Utc::now` and `to_rfc3339_opts`: a textual timestamp
/// of the present moment.  Nothing is assumed of the value.
#[verifier::external_body]
fn now_rfc3339() -> String {
    chrono::Utc::now().to_rfc3339_opts(chrono::SecondsFormat::Micros, true)
}

/// The version tag written into caches this library produces.
pub open spec fn spec_cache_version() -> Seq<char> {
    "0.1.0"@
}

/// The basename of the cache file inside a project root.
pub fn cache_file_name() -> (r: String)
    ensures
        r@ == ".djazzy_cache.json"@,
{
    String::from_str(".djazzy_cache.json")
}

/// Whether a directory of this basename is skipped by the scan.
pub open spec fn spec_is_ignored_dir(name: Seq<char>) -> bool {
    name == ".venv"@ || name == "node_modules"@ || name == "__pycache__"@ || name == "migrations"@
}

/// Whether a directory of basename `name` is skipped by the scan.
pub fn is_ignored_dir(name: &str) -> (r: bool)
    ensures
        r == spec_is_ignored_dir(name@),
{
    str_eq(name, ".venv") || str_eq(name, "node_modules") || str_eq(name, "__pycache__") || str_eq(
        name,
        "migrations",
    )
}

/// Whether a file of basename `name` is a URL-configuration file.
pub fn is_urls_file(name: &str) -> (r: bool)
    ensures
        r == (name@ == "urls.py"@),
{
    str_eq(name, "urls.py")
}

impl Cache {
    /// Whether the cache is well formed: no path is bound twice.
    pub open spec fn wf(&self) -> bool {
        unique_paths(self@.urls)
    }

    /// A cache holding `urls`, stamped with the present moment and this
    /// library's version tag.
    pub fn new(urls: Vec<FileEntry>) -> (r: Cache)
        ensures
            r@.urls == entries_view(urls@),
            r@.version == spec_cache_version(),
    {
        Cache { urls, last_modified_at: now_rfc3339(), version: String::from_str("0.1.0") }
    }

    /// The entry of `path`, provided its recorded modification time is
    /// exactly `mtime`; the file need not be re-read in that case.
    pub fn cached_entry(&self, path: &str, mtime: &str) -> (r: Option<FileEntry>)
        ensures
            match r {
                Some(e) => lookup(self@.urls, path@) == Some(e@) && e@.mtime == mtime@,
                None => (lookup(self@.urls, path@) matches Some(f) ==> f.mtime != mtime@),
            },
    {
        let n = self.urls.len();
        let mut i: usize = 0;
        while i < n
            invariant
                i <= n,
                n == self.urls@.len(),
                forall|j: int| 0 <= j < i ==> entries_view(self.urls@)[j].path != path@,
            decreases n - i,
        {
            proof {
                assert(entries_view(self.urls@)[i as int] == self.urls@[i as int]@);
            }
            if str_eq(self.urls[i].path.as_str(), path) {
                proof {
                    lemma_index_of_path_is(entries_view(self.urls@), path@, i as int);
                }
                if str_eq(self.urls[i].mtime.as_str(), mtime) {
                    return Some(clone_entry(&self.urls[i]));
                } else {
                    return None;
                }
            }
            i = i + 1;
        }
        proof {
            lemma_index_of_path_is(entries_view(self.urls@), path@, n as int);
        }
        None
    }

    /// Merges the results of a scan into the cache: every scanned file's
    /// entry replaces or joins the map, entries of unseen paths stay, and
    /// the cache is stamped with the present moment.
    pub fn merge_results(&mut self, results: Vec<FileEntry>)
        requires
            old(self).wf(),
        ensures
            final (self)@.urls == merge_seq(old(self)@.urls, entries_view(results@)),
            final (self).wf(),
            final (self)@.version == old(self)@.version,
    {
        let m = results.len();
        proof {
            assert(entries_view(results@).subrange(0, m as int) =~= entries_view(results@));
        }
        let mut k: usize = 0;
        while k < m
            invariant
                k <= m,
                m == results@.len(),
                unique_paths(entries_view(self.urls@)),
                merge_seq(old(self)@.urls, entries_view(results@)) == merge_seq(
                    entries_view(self.urls@),
                    entries_view(results@).subrange(k as int, m as int),
                ),
                self.version@ == old(self)@.version,
            decreases m - k,
        {
            let ghost pre = entries_view(self.urls@);
            let ghost rest = entries_view(results@).subrange(k as int, m as int);
            upsert_entry(&mut self.urls, clone_entry(&results[k]));
            proof {
                lemma_upsert_unique(pre, results@[k as int]@);
                assert(rest[0] == results@[k as int]@);
                assert(rest.drop_first() =~= entries_view(results@).subrange(
                    k as int + 1,
                    m as int,
                ));
            }
            k = k + 1;
        }
        proof {
            assert(entries_view(results@).subrange(m as int, m as int) =~= Seq::<
                EntryV,
            >::empty());
        }
        self.last_modified_at = now_rfc3339();
    }
}

} // verus!
