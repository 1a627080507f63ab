//! The upstream catalog: download metadata per published version, and
//! the selection of the one file entry matching the running platform.

use crate::version::{version_lt, GoVersion};
use crate::version_set::{strictly_sorted, VersionSet};
use vstd::prelude::*;
use vstd::string::*;

verus! {

/// Download metadata for one file of one release, as read from the
/// catalog.  Not persisted.
#[derive(Debug)]
pub struct FileInfo {
    pub filename: String,
    pub os: String,
    pub arch: String,
    pub size: u64,
    pub kind: String,
}

/// The mathematical content of a `FileInfo`.
pub struct FileInfoModel {
    pub filename: Seq<char>,
    pub os: Seq<char>,
    pub arch: Seq<char>,
    pub size: u64,
    pub kind: Seq<char>,
}

impl View for FileInfo {
    type V = FileInfoModel;

    open spec fn view(&self) -> FileInfoModel {
        FileInfoModel {
            filename: self.filename@,
            os: self.os@,
            arch: self.arch@,
            size: self.size,
            kind: self.kind@,
        }
    }
}

impl Clone for FileInfo {
    /// A field-for-field copy.
    fn clone(&self) -> (r: Self)
        ensures
            r@ == self@,
    {
        let r = FileInfo {
            filename: self.filename.clone(),
            os: self.os.clone(),
            arch: self.arch.clone(),
            size: self.size,
            kind: self.kind.clone(),
        };
        proof {
            assert(r@ == self@);
        }
        r
    }
}

/// One release group of the catalog: a version and its per-platform
/// files.
#[derive(Debug)]
pub struct VersionGroup {
    pub version: GoVersion,
    pub files: Vec<FileInfo>,
}

/// The catalog offered no version with a download for this platform.
#[derive(Debug, Clone, Copy, PartialEq, Eq, Structural)]
pub struct CatalogError;

impl CatalogError {
    /// A human-readable description of the failure.
    pub fn message(&self) -> String {
        "No versions found for target".to_owned()
    }
}

/// Character-for-character string equality.
pub(crate) fn str_eq(a: &str, b: &str) -> (r: bool)
    ensures
        r == (a@ == b@),
{
    let n = a.unicode_len();
    let m = b.unicode_len();
    if n != m {
        return false;
    }
    let mut i: usize = 0;
    while i < n
        invariant
            0 <= i <= n,
            n == a@.len(),
            n == b@.len(),
            forall|k: int| 0 <= k < i ==> a@[k] == b@[k],
        decreases n - i,
    {
        if a.get_char(i) != b.get_char(i) {
            return false;
        }
        i = i + 1;
    }
    proof {
        assert(a@ =~= b@);
    }
    true
}

/// Whether a catalog file entry is the full archive for the platform
/// with the given tags.
pub open spec fn file_matches(f: FileInfoModel, os: Seq<char>, arch: Seq<char>) -> bool {
    &&& f.os == os
    &&& f.arch == arch
    &&& f.kind == "archive"@
}

/// The first file of a group that matches the platform, if any.
pub open spec fn first_match(files: Seq<FileInfo>, os: Seq<char>, arch: Seq<char>) -> Option<
    FileInfoModel,
>
    decreases files.len(),
{
    if files.len() == 0 {
        None
    } else if file_matches(files[0]@, os, arch) {
        Some(files[0]@)
    } else {
        first_match(files.drop_first(), os, arch)
    }
}

/// The version keys of a list of catalog entries.
pub open spec fn entry_keys(es: Seq<(GoVersion, FileInfo)>) -> Seq<GoVersion> {
    es.map_values(|e: (GoVersion, FileInfo)| e.0)
}

/// The mapping denoted by a list of catalog entries, later entries
/// overriding earlier ones with the same version.
pub open spec fn entries_map(es: Seq<(GoVersion, FileInfo)>) -> Map<GoVersion, FileInfoModel>
    decreases es.len(),
{
    if es.len() == 0 {
        Map::empty()
    } else {
        entries_map(es.drop_last()).insert(es.last().0, es.last().1@)
    }
}

/// The mapping the whole catalog denotes for a platform: for each
/// group with a matching file, the first such file, later groups
/// overriding earlier ones with the same version.
pub open spec fn catalog_map(
    groups: Seq<VersionGroup>,
    os: Seq<char>,
    arch: Seq<char>,
) -> Map<GoVersion, FileInfoModel>
    decreases groups.len(),
{
    if groups.len() == 0 {
        Map::empty()
    } else {
        let m = catalog_map(groups.drop_last(), os, arch);
        match first_match(groups.last().files@, os, arch) {
            Some(f) => m.insert(groups.last().version, f),
            None => m,
        }
    }
}

/// The downloadable versions for the running platform, ordered
/// ascending by version, viewed as a mapping from version to file.
#[derive(Debug)]
pub struct Available {
    pub entries: Vec<(GoVersion, FileInfo)>,
}

impl View for Available {
    type V = Map<GoVersion, FileInfoModel>;

    open spec fn view(&self) -> Map<GoVersion, FileInfoModel> {
        entries_map(self.entries@)
    }
}

/// With distinct (strictly ascending) keys, the denoted mapping has
/// exactly the keys as domain and each entry's file as value.
proof fn lemma_entries_map(es: Seq<(GoVersion, FileInfo)>)
    requires
        strictly_sorted(entry_keys(es)),
    ensures
        forall|v: GoVersion| entries_map(es).dom().contains(v) <==> entry_keys(es).contains(v),
        forall|k: int| 0 <= k < es.len() ==> entries_map(es)[#[trigger] es[k].0] == es[k].1@,
    decreases es.len(),
{
    if es.len() > 0 {
        let head = es.drop_last();
        assert(entry_keys(head) =~= entry_keys(es).drop_last());
        assert(strictly_sorted(entry_keys(head)));
        lemma_entries_map(head);
        let m = entries_map(es);
        assert(m == entries_map(head).insert(es.last().0, es.last().1@));
        assert(entry_keys(es).len() == es.len());
        assert(entry_keys(head).len() == head.len());
        assert forall|v: GoVersion| m.dom().contains(v) implies entry_keys(es).contains(v) by {
            if v == es.last().0 {
                assert(entry_keys(es)[es.len() - 1] == v);
            } else {
                assert(entries_map(head).dom().contains(v));
                assert(entry_keys(head).contains(v));
                let k = choose|k: int| 0 <= k < entry_keys(head).len() && entry_keys(head)[k] == v;
                assert(entry_keys(es)[k] == v);
            }
        }
        assert forall|v: GoVersion| entry_keys(es).contains(v) implies m.dom().contains(v) by {
            let k = choose|k: int| 0 <= k < entry_keys(es).len() && entry_keys(es)[k] == v;
            if k < es.len() - 1 {
                assert(entry_keys(head)[k] == v);
                assert(entry_keys(head).contains(v));
                assert(entries_map(head).dom().contains(v));
            }
        }
        assert forall|k: int| 0 <= k < es.len() implies m[#[trigger] es[k].0] == es[k].1@ by {
            if k < es.len() - 1 {
                // Distinct keys: the final insert does not disturb this entry.
                assert(version_lt(entry_keys(es)[k], entry_keys(es)[es.len() - 1]));
                assert(entry_keys(es)[k] == es[k].0);
                assert(entry_keys(es)[es.len() - 1] == es.last().0);
                assert(es[k].0 != es.last().0);
                assert(head[k] == es[k]);
                assert(entries_map(head)[es[k].0] == es[k].1@);
            }
        }
    }
}

impl Available {
    /// Strictly ascending version keys.
    pub open spec fn wf(self) -> bool {
        strictly_sorted(entry_keys(self.entries@))
    }

    /// An empty catalog selection.
    pub fn new() -> (r: Self)
        ensures
            r.wf(),
            r@ == Map::<GoVersion, FileInfoModel>::empty(),
            r.entries@.len() == 0,
    {
        Available { entries: Vec::new() }
    }

    /// Whether no version is available.
    pub fn is_empty(&self) -> (r: bool)
        requires
            self.wf(),
        ensures
            r == (self@.dom() == Set::<GoVersion>::empty()),
    {
        let r = self.entries.len() == 0;
        proof {
            lemma_entries_map(self.entries@);
            if r {
                assert(self@.dom() =~= Set::<GoVersion>::empty());
            } else {
                assert(entry_keys(self.entries@)[0] == self.entries@[0].0);
                assert(entry_keys(self.entries@).contains(self.entries@[0].0));
                assert(self@.dom().contains(self.entries@[0].0));
            }
        }
        r
    }

    /// The download for a version, when the catalog offers one.
    pub fn get(&self, v: &GoVersion) -> (r: Option<FileInfo>)
        requires
            self.wf(),
        ensures
            match r {
                Some(f) => self@.dom().contains(*v) && f@ == self@[*v],
                None => !self@.dom().contains(*v),
            },
    {
        proof {
            lemma_entries_map(self.entries@);
        }
        let n = self.entries.len();
        let mut i: usize = 0;
        while i < n
            invariant
                0 <= i <= n,
                n == self.entries@.len(),
                strictly_sorted(entry_keys(self.entries@)),
                forall|k: int| 0 <= k < i ==> #[trigger] self.entries@[k].0 != *v,
            decreases n - i,
        {
            if self.entries[i].0 == *v {
                let f = self.entries[i].1.clone();
                proof {
                    lemma_entries_map(self.entries@);
                    assert(entry_keys(self.entries@)[i as int] == *v);
                    assert(entry_keys(self.entries@).contains(*v));
                    assert(self@[self.entries@[i as int].0] == self.entries@[i as int].1@);
                }
                return Some(f);
            }
            i = i + 1;
        }
        proof {
            if self@.dom().contains(*v) {
                assert(entry_keys(self.entries@).contains(*v));
                let k = choose|k: int|
                    0 <= k < entry_keys(self.entries@).len() && entry_keys(self.entries@)[k] == *v;
                assert(self.entries@[k].0 == *v);
            }
        }
        None
    }

    /// The newest available version and its download, when any version
    /// is available at all.
    pub fn max_entry(&self) -> (r: Option<(GoVersion, FileInfo)>)
        requires
            self.wf(),
        ensures
            match r {
                Some(p) => {
                    &&& self@.dom().contains(p.0)
                    &&& p.1@ == self@[p.0]
                    &&& forall|x: GoVersion|
                        self@.dom().contains(x) ==> x == p.0 || version_lt(x, p.0)
                },
                None => self@.dom() == Set::<GoVersion>::empty(),
            },
    {
        proof {
            lemma_entries_map(self.entries@);
        }
        let n = self.entries.len();
        if n == 0 {
            proof {
                assert(self@.dom() =~= Set::<GoVersion>::empty());
            }
            None
        } else {
            let v = self.entries[n - 1].0;
            let f = self.entries[n - 1].1.clone();
            proof {
                assert(entry_keys(self.entries@)[n - 1] == v);
                assert(entry_keys(self.entries@).contains(v));
                assert(self@[self.entries@[n - 1].0] == self.entries@[n - 1].1@);
                assert forall|x: GoVersion| self@.dom().contains(x) implies x == v || version_lt(
                    x,
                    v,
                ) by {
                    assert(entry_keys(self.entries@).contains(x));
                    let k = choose|k: int|
                        0 <= k < entry_keys(self.entries@).len() && entry_keys(self.entries@)[k]
                            == x;
                    if k < n - 1 {
                        assert(version_lt(
                            entry_keys(self.entries@)[k],
                            entry_keys(self.entries@)[n - 1],
                        ));
                    }
                }
            }
            Some((v, f))
        }
    }

    /// The selection with the download for `v` added, overriding any
    /// earlier download recorded for `v`.
    fn insert_entry(&self, v: GoVersion, f: FileInfo) -> (r: Self)
        requires
            self.wf(),
        ensures
            r.wf(),
            r@ == self@.insert(v, f@),
    {
        let n = self.entries.len();
        let mut pos: usize = 0;
        while pos < n && self.entries[pos].0.lt(&v)
            invariant
                0 <= pos <= n,
                n == self.entries@.len(),
                forall|k: int| 0 <= k < pos ==> version_lt(#[trigger] self.entries@[k].0, v),
            decreases n - pos,
        {
            pos = pos + 1;
        }
        let found = pos < n && self.entries[pos].0 == v;
        let ghost off: int = if found {
            1int
        } else {
            0int
        };
        let mut out: Vec<(GoVersion, FileInfo)> = Vec::new();
        let mut j: usize = 0;
        while j < pos
            invariant
                0 <= j <= pos <= n,
                n == self.entries@.len(),
                out@.len() == j,
                forall|k: int|
                    0 <= k < j ==> #[trigger] out@[k].0 == self.entries@[k].0 && out@[k].1@
                        == self.entries@[k].1@,
            decreases pos - j,
        {
            out.push((self.entries[j].0, self.entries[j].1.clone()));
            j = j + 1;
        }
        let ghost prefix = out@;
        out.push((v, f));
        proof {
            assert forall|k: int| 0 <= k < pos implies #[trigger] out@[k].0 == self.entries@[k].0
                && out@[k].1@ == self.entries@[k].1@ by {
                assert(out@[k] == prefix[k]);
                assert(prefix[k].0 == self.entries@[k].0);
                assert(prefix[k].1@ == self.entries@[k].1@);
            }
        }
        let mut j2: usize = if found {
            pos + 1
        } else {
            pos
        };
        while j2 < n
            invariant
                pos + off <= j2 <= n,
                pos <= n,
                n == self.entries@.len(),
                out@.len() == j2 + 1 - off,
                forall|k: int|
                    0 <= k < pos ==> #[trigger] out@[k].0 == self.entries@[k].0 && out@[k].1@
                        == self.entries@[k].1@,
                out@[pos as int].0 == v && out@[pos as int].1@ == f@,
                forall|k: int|
                    pos < k < out@.len() ==> #[trigger] out@[k].0 == self.entries@[k - 1 + off].0
                        && out@[k].1@ == self.entries@[k - 1 + off].1@,
            decreases n - j2,
        {
            out.push((self.entries[j2].0, self.entries[j2].1.clone()));
            j2 = j2 + 1;
        }
        let r = Available { entries: out };
        proof {
            let olds = self.entries@;
            let outs = out@;
            let keys_o = entry_keys(olds);
            let keys_n = entry_keys(outs);
            assert(keys_o.len() == olds.len());
            assert(keys_n.len() == outs.len());
            assert(outs.len() == n + 1 - off);
            if found {
                assert(olds[pos as int].0 == v);
            }
            // Everything at or past `pos` in the old entries is at or above `v`.
            assert forall|m: int| pos + off <= m < n implies version_lt(
                v,
                #[trigger] olds[m].0,
            ) by {
                if found {
                    assert(version_lt(keys_o[pos as int], keys_o[m]));
                } else {
                    crate::version::lemma_version_order_total(olds[pos as int].0, v, v);
                    if m > pos {
                        assert(version_lt(keys_o[pos as int], keys_o[m]));
                        crate::version::lemma_version_order_total(v, olds[pos as int].0, olds[m].0);
                    }
                }
            }
            assert forall|a: int, b: int| 0 <= a < b < keys_n.len() implies version_lt(
                keys_n[a],
                keys_n[b],
            ) by {
                if b < pos {
                    assert(version_lt(keys_o[a], keys_o[b]));
                } else if b == pos {
                    assert(keys_n[b] == v);
                    assert(version_lt(olds[a].0, v));
                } else {
                    assert(keys_n[b] == olds[b - 1 + off].0);
                    if a < pos {
                        assert(version_lt(keys_o[a], keys_o[b - 1 + off]));
                    } else if a == pos {
                        assert(version_lt(v, olds[b - 1 + off].0));
                    } else {
                        assert(version_lt(keys_o[a - 1 + off], keys_o[b - 1 + off]));
                    }
                }
            }
            assert(r.wf());
            lemma_entries_map(olds);
            lemma_entries_map(outs);
            let target = self@.insert(v, f@);
            assert forall|x: GoVersion| #[trigger] r@.dom().contains(x) implies target.dom().contains(
                x,
            ) && r@[x] == target[x] by {
                assert(keys_n.contains(x));
                let k = choose|k: int| 0 <= k < keys_n.len() && keys_n[k] == x;
                assert(outs[k].0 == x);
                assert(r@[outs[k].0] == outs[k].1@);
                if k < pos {
                    assert(olds[k].0 == x);
                    assert(keys_o[k] == x);
                    assert(keys_o.contains(x));
                    assert(self@[olds[k].0] == olds[k].1@);
                    assert(version_lt(olds[k].0, v));
                    assert(x != v);
                    assert(r@[x] == olds[k].1@);
                } else if k == pos {
                    assert(x == v);
                    assert(r@[x] == f@);
                } else {
                    assert(olds[k - 1 + off].0 == x);
                    assert(keys_o[k - 1 + off] == x);
                    assert(keys_o.contains(x));
                    assert(self@[olds[k - 1 + off].0] == olds[k - 1 + off].1@);
                    assert(version_lt(v, olds[k - 1 + off].0));
                    assert(x != v);
                    assert(r@[x] == olds[k - 1 + off].1@);
                }
            }
            assert forall|x: GoVersion| #[trigger] target.dom().contains(x) implies r@.dom().contains(
                x,
            ) by {
                if x == v {
                    assert(keys_n[pos as int] == x);
                    assert(keys_n.contains(x));
                } else {
                    assert(self@.dom().contains(x));
                    assert(keys_o.contains(x));
                    let k = choose|k: int| 0 <= k < keys_o.len() && keys_o[k] == x;
                    assert(olds[k].0 == x);
                    if k < pos {
                        assert(keys_n[k] == x);
                    } else {
                        if found && k == pos {
                            assert(x == v);
                        } else {
                            assert(keys_n[k + 1 - off] == x);
                        }
                    }
                    assert(keys_n.contains(x));
                }
            }
            assert forall|x: GoVersion| #[trigger] r@.dom().contains(x)
                == target.dom().contains(x) by {
                if r@.dom().contains(x) {
                    assert(target.dom().contains(x));
                }
                if target.dom().contains(x) {
                    assert(r@.dom().contains(x));
                }
            }
            assert(r@.dom() =~= target.dom());
            assert(r@ =~= target);
        }
        r
    }

    /// The set of available versions.
    pub fn versions_set(&self) -> (r: VersionSet)
        requires
            self.wf(),
        ensures
            r.wf(),
            r@ == self@.dom(),
    {
        proof {
            lemma_entries_map(self.entries@);
        }
        let n = self.entries.len();
        let mut keys: Vec<GoVersion> = Vec::new();
        let mut i: usize = 0;
        while i < n
            invariant
                0 <= i <= n,
                n == self.entries@.len(),
                keys@ == entry_keys(self.entries@).subrange(0, i as int),
            decreases n - i,
        {
            keys.push(self.entries[i].0);
            proof {
                assert(keys@ =~= entry_keys(self.entries@).subrange(0, i + 1));
            }
            i = i + 1;
        }
        let r = VersionSet { items: keys };
        proof {
            assert(r.items@ =~= entry_keys(self.entries@));
            assert forall|x: GoVersion| r@.contains(x) <==> self@.dom().contains(x) by {}
            assert(r@ =~= self@.dom());
        }
        r
    }
}

proof fn lemma_first_match_at(files: Seq<FileInfo>, os: Seq<char>, arch: Seq<char>, j: int)
    requires
        0 <= j < files.len(),
        file_matches(files[j]@, os, arch),
        forall|k: int| 0 <= k < j ==> !file_matches(#[trigger] files[k]@, os, arch),
    ensures
        first_match(files, os, arch) == Some(files[j]@),
    decreases j,
{
    if j > 0 {
        let rest = files.drop_first();
        assert(rest[j - 1] == files[j]);
        assert forall|k: int| 0 <= k < j - 1 implies !file_matches(
            #[trigger] rest[k]@,
            os,
            arch,
        ) by {
            assert(rest[k] == files[k + 1]);
        }
        lemma_first_match_at(rest, os, arch, j - 1);
    }
}

proof fn lemma_first_match_none(files: Seq<FileInfo>, os: Seq<char>, arch: Seq<char>)
    requires
        forall|k: int| 0 <= k < files.len() ==> !file_matches(#[trigger] files[k]@, os, arch),
    ensures
        first_match(files, os, arch) is None,
    decreases files.len(),
{
    if files.len() > 0 {
        let rest = files.drop_first();
        assert forall|k: int| 0 <= k < rest.len() implies !file_matches(
            #[trigger] rest[k]@,
            os,
            arch,
        ) by {
            assert(rest[k] == files[k + 1]);
        }
        lemma_first_match_none(rest, os, arch);
    }
}

/// Whether this file is the full archive for the platform with the
/// given tags.
fn file_match_exec(f: &FileInfo, os: &str, arch: &str) -> (r: bool)
    ensures
        r == file_matches(f@, os@, arch@),
{
    str_eq(f.os.as_str(), os) && str_eq(f.arch.as_str(), arch) && str_eq(
        f.kind.as_str(),
        "archive",
    )
}

/// Selects, for every catalog group, the one file matching the given
/// platform tags; groups with no matching file are dropped.  Fails
/// when nothing at all is available for the platform.
pub fn available_go_versions(groups: &Vec<VersionGroup>, os: &str, arch: &str) -> (r: Result<
    Available,
    CatalogError,
>)
    ensures
        match r {
            Ok(a) => {
                &&& a.wf()
                &&& a@ == catalog_map(groups@, os@, arch@)
                &&& a@.dom() != Set::<GoVersion>::empty()
            },
            Err(_) => catalog_map(groups@, os@, arch@).dom() == Set::<GoVersion>::empty(),
        },
{
    let mut acc = Available::new();
    let n = groups.len();
    let mut i: usize = 0;
    proof {
        assert(groups@.subrange(0, 0).len() == 0);
        assert(acc@ =~= catalog_map(groups@.subrange(0, 0), os@, arch@));
    }
    while i < n
        invariant
            0 <= i <= n,
            n == groups@.len(),
            acc.wf(),
            acc@ == catalog_map(groups@.subrange(0, i as int), os@, arch@),
        decreases n - i,
    {
        let g = &groups[i];
        let m = g.files.len();
        let mut j: usize = 0;
        while j < m && !file_match_exec(&g.files[j], os, arch)
            invariant
                0 <= j <= m,
                m == g.files@.len(),
                forall|k: int| 0 <= k < j ==> !file_matches(#[trigger] g.files@[k]@, os@, arch@),
            decreases m - j,
        {
            j = j + 1;
        }
        if j < m {
            proof {
                lemma_first_match_at(g.files@, os@, arch@, j as int);
            }
            acc = acc.insert_entry(g.version, g.files[j].clone());
        } else {
            proof {
                lemma_first_match_none(g.files@, os@, arch@);
            }
        }
        proof {
            assert(groups@.subrange(0, i + 1).drop_last() =~= groups@.subrange(0, i as int));
            assert(groups@.subrange(0, i + 1).last() == groups@[i as int]);
        }
        i = i + 1;
    }
    proof {
        assert(groups@.subrange(0, n as int) =~= groups@);
    }
    if acc.is_empty() {
        Err(CatalogError)
    } else {
        Ok(acc)
    }
}

/// The catalog's name for a host architecture: a fixed translation
/// table; unmapped architectures yield `unknown`, which matches no
/// catalog entry.
pub open spec fn arch_tag(s: Seq<char>) -> Seq<char> {
    if s == "x86"@ {
        "386"@
    } else if s == "x86_64"@ {
        "amd64"@
    } else if s == "arm"@ {
        "arm"@
    } else if s == "aarch64"@ {
        "arm64"@
    } else if s == "loongarch64"@ {
        "loong64"@
    } else if s == "mips"@ {
        "mips"@
    } else if s == "mips64"@ {
        "mips64"@
    } else if s == "powerpc64"@ {
        "ppc64"@
    } else if s == "riscv64"@ {
        "riscv64"@
    } else if s == "s390x"@ {
        "s390x"@
    } else {
        "unknown"@
    }
}

/// Maps the host's architecture name to the catalog's.
pub fn arch(host: &str) -> (r: &'static str)
    ensures
        r@ == arch_tag(host@),
{
    if str_eq(host, "x86") {
        "386"
    } else if str_eq(host, "x86_64") {
        "amd64"
    } else if str_eq(host, "arm") {
        "arm"
    } else if str_eq(host, "aarch64") {
        "arm64"
    } else if str_eq(host, "loongarch64") {
        "loong64"
    } else if str_eq(host, "mips") {
        "mips"
    } else if str_eq(host, "mips64") {
        "mips64"
    } else if str_eq(host, "powerpc64") {
        "ppc64"
    } else if str_eq(host, "riscv64") {
        "riscv64"
    } else if str_eq(host, "s390x") {
        "s390x"
    } else {
        "unknown"
    }
}

/// The catalog's name for a host operating system: a fixed translation
/// table; unmapped systems yield `unknown`, which matches no catalog
/// entry.
pub open spec fn os_tag(s: Seq<char>) -> Seq<char> {
    if s == "aix"@ {
        "aix"@
    } else if s == "macos"@ {
        "darwin"@
    } else if s == "dragonfly"@ {
        "dragonfly"@
    } else if s == "freebsd"@ {
        "freebsd"@
    } else if s == "illumos"@ {
        "illumos"@
    } else if s == "linux"@ {
        "linux"@
    } else if s == "netbsd"@ {
        "netbsd"@
    } else if s == "openbsd"@ {
        "openbsd"@
    } else if s == "solaris"@ {
        "solaris"@
    } else if s == "windows"@ {
        "windows"@
    } else {
        "unknown"@
    }
}

/// Maps the host's operating system name to the catalog's.
pub fn os(host: &str) -> (r: &'static str)
    ensures
        r@ == os_tag(host@),
{
    if str_eq(host, "aix") {
        "aix"
    } else if str_eq(host, "macos") {
        "darwin"
    } else if str_eq(host, "dragonfly") {
        "dragonfly"
    } else if str_eq(host, "freebsd") {
        "freebsd"
    } else if str_eq(host, "illumos") {
        "illumos"
    } else if str_eq(host, "linux") {
        "linux"
    } else if str_eq(host, "netbsd") {
        "netbsd"
    } else if str_eq(host, "openbsd") {
        "openbsd"
    } else if str_eq(host, "solaris") {
        "solaris"
    } else if str_eq(host, "windows") {
        "windows"
    } else {
        "unknown"
    }
}

} // verus!
