//! The version engine: the state transition behind each subcommand.
//!
//! Every operation is a pure function from the loaded record (and the
//! catalog or filesystem facts it needs, handed in as plain values) to
//! the record to persist, plus whatever the caller must still do —
//! download an archive, swap the activation symlink, delete
//! directories.  The surrounding application performs those effects
//! and persists the returned record only when they succeed.

use crate::catalog::{Available, CatalogError, FileInfo};
use crate::state::{consistent, StateModel, VersionFile};
use crate::version::{version_lt, GoVersion};
use crate::version_set::VersionSet;
use vstd::prelude::*;
use vstd::string::*;

verus! {

/// Why an engine operation refused to act.
#[derive(Debug, Clone, Copy, PartialEq, Eq, Structural)]
pub enum EngineError {
    /// The version is not installed.
    NotInstalled,
    /// The version is pinned, which blocks its removal.
    Pinned,
    /// The catalog offers no download for the version.
    NotAvailable,
}

impl EngineError {
    /// A human-readable description of the failure, to follow the
    /// version's name.
    pub fn message(&self) -> String {
        match self {
            EngineError::NotInstalled => "is not installed".to_owned(),
            EngineError::Pinned => "is pinned".to_owned(),
            EngineError::NotAvailable => "not available for download".to_owned(),
        }
    }
}

/// What `pin` does to the record.
pub open spec fn pin_model(m: StateModel, v: GoVersion) -> Result<StateModel, EngineError> {
    if m.installed.contains(v) {
        Ok(StateModel { enabled: m.enabled, installed: m.installed, pinned: m.pinned.insert(v) })
    } else {
        Err(EngineError::NotInstalled)
    }
}

/// What `unpin` does to the record: unconditional; unpinning a
/// non-pinned version changes nothing.
pub open spec fn unpin_model(m: StateModel, v: GoVersion) -> StateModel {
    StateModel { enabled: m.enabled, installed: m.installed, pinned: m.pinned.remove(v) }
}

/// What `enable` does to the record.
pub open spec fn enable_model(m: StateModel, v: GoVersion) -> Result<StateModel, EngineError> {
    if m.installed.contains(v) {
        Ok(StateModel { enabled: Some(v), installed: m.installed, pinned: m.pinned })
    } else {
        Err(EngineError::NotInstalled)
    }
}

/// What `remove` does to the record.  A pinned version cannot be
/// removed; removing the enabled version clears the enabled slot.
pub open spec fn remove_model(m: StateModel, v: GoVersion) -> Result<StateModel, EngineError> {
    if !m.installed.contains(v) {
        Err(EngineError::NotInstalled)
    } else if m.pinned.contains(v) {
        Err(EngineError::Pinned)
    } else {
        Ok(
            StateModel {
                enabled: if m.enabled == Some(v) {
                    None
                } else {
                    m.enabled
                },
                installed: m.installed.remove(v),
                pinned: m.pinned,
            },
        )
    }
}

/// What recording an installation does to the record.
pub open spec fn install_model(m: StateModel, v: GoVersion) -> StateModel {
    StateModel { enabled: m.enabled, installed: m.installed.insert(v), pinned: m.pinned }
}

/// What `clean` does to the record, and which versions it dooms:
/// installed versions missing from disk are forgotten, pins on
/// no-longer-installed versions are dropped, and every on-disk version
/// outside the allow-list (available, pinned, or enabled) is doomed
/// and forgotten.
pub open spec fn clean_model(
    m: StateModel,
    folders: Set<GoVersion>,
    available: Set<GoVersion>,
) -> (StateModel, Set<GoVersion>) {
    let installed = m.installed.intersect(folders);
    let pinned = installed.intersect(m.pinned);
    let allow = match m.enabled {
        Some(v) => available.union(pinned).insert(v),
        None => available.union(pinned),
    };
    let doomed = folders.difference(allow);
    (StateModel { enabled: m.enabled, installed: installed.difference(doomed), pinned }, doomed)
}

/// Pins a version, blocking its removal.  Fails when the version is
/// not installed.
pub fn pin(state: &VersionFile, version: GoVersion) -> (r: Result<VersionFile, EngineError>)
    requires
        state.wf(),
    ensures
        match r {
            Ok(t) => t.wf() && pin_model(state@, version) == Ok::<StateModel, EngineError>(t@),
            Err(e) => pin_model(state@, version) == Err::<StateModel, EngineError>(e),
        },
{
    if !state.installed.contains(&version) {
        return Err(EngineError::NotInstalled);
    }
    Ok(
        VersionFile {
            enabled: state.enabled,
            installed: state.installed.clone(),
            pinned: state.pinned.insert(version),
        },
    )
}

/// Unpins a version, allowing its removal again.  Unpinning a version
/// that is not pinned is a no-op, not an error.
pub fn unpin(state: &VersionFile, version: GoVersion) -> (r: VersionFile)
    requires
        state.wf(),
    ensures
        r.wf(),
        r@ == unpin_model(state@, version),
{
    VersionFile {
        enabled: state.enabled,
        installed: state.installed.clone(),
        pinned: state.pinned.remove(&version),
    }
}

/// The record change of enabling a version.  Fails when the version is
/// not installed; the caller swaps the activation symlink and persists
/// the returned record only when the swap succeeded.
pub fn enable(state: &VersionFile, version: GoVersion) -> (r: Result<VersionFile, EngineError>)
    requires
        state.wf(),
    ensures
        match r {
            Ok(t) => t.wf() && enable_model(state@, version) == Ok::<StateModel, EngineError>(t@),
            Err(e) => enable_model(state@, version) == Err::<StateModel, EngineError>(e),
        },
{
    if !state.installed.contains(&version) {
        return Err(EngineError::NotInstalled);
    }
    Ok(
        VersionFile {
            enabled: Some(version),
            installed: state.installed.clone(),
            pinned: state.pinned.clone(),
        },
    )
}

/// The record change of removing a version, and whether it was the
/// enabled one (so the caller can say so).  The caller deletes the
/// version's directory and then persists the returned record.
pub fn remove(state: &VersionFile, version: GoVersion) -> (r: Result<
    (VersionFile, bool),
    EngineError,
>)
    requires
        state.wf(),
    ensures
        match r {
            Ok(p) => {
                &&& p.0.wf()
                &&& remove_model(state@, version) == Ok::<StateModel, EngineError>(p.0@)
                &&& p.1 == (state@.enabled == Some(version))
            },
            Err(e) => remove_model(state@, version) == Err::<StateModel, EngineError>(e),
        },
{
    if !state.installed.contains(&version) {
        return Err(EngineError::NotInstalled);
    }
    if state.pinned.contains(&version) {
        return Err(EngineError::Pinned);
    }
    let was_enabled = match state.enabled {
        Some(e) => e == version,
        None => false,
    };
    let t = VersionFile {
        enabled: if was_enabled {
            None
        } else {
            state.enabled
        },
        installed: state.installed.remove(&version),
        pinned: state.pinned.clone(),
    };
    Ok((t, was_enabled))
}

/// The outcome of planning an installation: the record to persist once
/// the work is done, and the download still to perform — nothing when
/// the version is already installed.
#[derive(Debug)]
pub struct InstallPlan {
    pub state: VersionFile,
    pub download: Option<FileInfo>,
}

/// Plans `install <version>`: fails when the catalog offers no
/// download for it; otherwise records it installed (idempotently — an
/// already-installed version needs no download and the record keeps
/// exactly one copy of it).
pub fn install(state: &VersionFile, version: GoVersion, available: &Available) -> (r: Result<
    InstallPlan,
    EngineError,
>)
    requires
        state.wf(),
        available.wf(),
    ensures
        match r {
            Ok(p) => {
                &&& p.state.wf()
                &&& available@.dom().contains(version)
                &&& p.state@ == install_model(state@, version)
                &&& match p.download {
                    Some(f) => !state@.installed.contains(version) && f@ == available@[version],
                    None => state@.installed.contains(version),
                }
                &&& state@.installed.contains(version) ==> p.state.installed.items@
                    == state.installed.items@
            },
            Err(e) => e == EngineError::NotAvailable && !available@.dom().contains(version),
        },
{
    let file = match available.get(&version) {
        Some(f) => f,
        None => {
            return Err(EngineError::NotAvailable);
        },
    };
    let already = state.installed.contains(&version);
    let t = VersionFile {
        enabled: state.enabled,
        installed: state.installed.insert(version),
        pinned: state.pinned.clone(),
    };
    Ok(
        InstallPlan {
            state: t,
            download: if already {
                None
            } else {
                Some(file)
            },
        },
    )
}

/// The decision for `update`: the newest available version, and the
/// download still to perform — nothing when it is already installed,
/// in which case enabling it is all that is left.
#[derive(Debug)]
pub struct UpdatePlan {
    pub latest: GoVersion,
    pub download: Option<FileInfo>,
}

/// Plans `update`: picks the newest available version.  Fails when
/// nothing at all is available — for `update` an empty catalog is a
/// hard error.
pub fn update(state: &VersionFile, available: &Available) -> (r: Result<UpdatePlan, CatalogError>)
    requires
        state.wf(),
        available.wf(),
    ensures
        match r {
            Ok(p) => {
                &&& available@.dom().contains(p.latest)
                &&& forall|x: GoVersion|
                    available@.dom().contains(x) ==> x == p.latest || version_lt(x, p.latest)
                &&& match p.download {
                    Some(f) => !state@.installed.contains(p.latest) && f@ == available@[p.latest],
                    None => state@.installed.contains(p.latest),
                }
            },
            Err(_) => available@.dom() == Set::<GoVersion>::empty(),
        },
{
    let (latest, file) = match available.max_entry() {
        Some(p) => p,
        None => {
            return Err(CatalogError);
        },
    };
    let download = if state.installed.contains(&latest) {
        None
    } else {
        Some(file)
    };
    Ok(UpdatePlan { latest, download })
}

/// The record change of fetching and unpacking a version: records it
/// installed, and says whether any fetching is needed at all — none
/// when it is already installed, in which case the record keeps
/// exactly one copy of it.
pub fn download_version(state: &VersionFile, version: GoVersion) -> (r: (VersionFile, bool))
    requires
        state.wf(),
    ensures
        r.0.wf(),
        r.0@ == install_model(state@, version),
        r.1 == !state@.installed.contains(version),
        state@.installed.contains(version) ==> r.0.installed.items@ == state.installed.items@,
{
    let needs_install = !state.installed.contains(&version);
    let t = VersionFile {
        enabled: state.enabled,
        installed: state.installed.insert(version),
        pinned: state.pinned.clone(),
    };
    (t, needs_install)
}

/// The versions named by the entries of the install root: every name
/// in which a version can be read contributes it; other names are
/// ignored.
pub fn version_folders(names: &Vec<String>) -> (r: VersionSet)
    ensures
        r.wf(),
        forall|v: GoVersion|
            #[trigger] r@.contains(v) <==> exists|k: int|
                0 <= k < names@.len() && crate::version::parses_to(#[trigger] names@[k]@, v),
{
    let mut r = VersionSet::new();
    let n = names.len();
    let mut i: usize = 0;
    while i < n
        invariant
            0 <= i <= n,
            n == names@.len(),
            r.wf(),
            forall|v: GoVersion|
                #[trigger] r@.contains(v) <==> exists|k: int|
                    0 <= k < i && crate::version::parses_to(#[trigger] names@[k]@, v),
        decreases n - i,
    {
        let ghost prev = r@;
        match GoVersion::parse(names[i].as_str()) {
            Ok(v) => {
                r = r.insert(v);
                proof {
                    assert(crate::version::parses_to(names@[i as int]@, v));
                    assert forall|x: GoVersion| #[trigger] r@.contains(x) implies exists|k: int|
                        0 <= k < i + 1 && crate::version::parses_to(#[trigger] names@[k]@, x) by {
                        if x == v {
                            assert(crate::version::parses_to(names@[i as int]@, x));
                        } else {
                            assert(prev.contains(x));
                        }
                    }
                    assert forall|x: GoVersion|
                        (exists|k: int|
                            0 <= k < i + 1 && crate::version::parses_to(
                                #[trigger] names@[k]@,
                                x,
                            )) implies #[trigger] r@.contains(x) by {
                        let k = choose|k: int|
                            0 <= k < i + 1 && crate::version::parses_to(names@[k]@, x);
                        if k < i {
                            assert(prev.contains(x));
                        } else {
                            // The same text reads as only one version.
                            assert(x == v);
                        }
                    }
                }
            },
            Err(_) => {
                proof {
                    assert forall|x: GoVersion| #[trigger] r@.contains(x) implies exists|k: int|
                        0 <= k < i + 1 && crate::version::parses_to(#[trigger] names@[k]@, x) by {
                        assert(prev.contains(x));
                    }
                    assert forall|x: GoVersion|
                        (exists|k: int|
                            0 <= k < i + 1 && crate::version::parses_to(
                                #[trigger] names@[k]@,
                                x,
                            )) implies #[trigger] r@.contains(x) by {
                        let k = choose|k: int|
                            0 <= k < i + 1 && crate::version::parses_to(names@[k]@, x);
                        assert(k < i);
                    }
                }
            },
        }
        i = i + 1;
    }
    r
}

/// One line of the listing: a version and how it stands.
#[derive(Debug, Clone, Copy, PartialEq, Eq, Structural)]
pub struct ListEntry {
    pub version: GoVersion,
    pub installed: bool,
    pub available: bool,
    pub enabled: bool,
    pub pinned: bool,
}

/// Whether a listing entry reports its version's standing truthfully.
pub open spec fn entry_correct(m: StateModel, avail: Set<GoVersion>, e: ListEntry) -> bool {
    &&& e.installed == m.installed.contains(e.version)
    &&& e.available == avail.contains(e.version)
    &&& e.enabled == (m.enabled == Some(e.version))
    &&& e.pinned == m.pinned.contains(e.version)
}

/// The listing for `list`: the union of the installed and the
/// available versions, ascending, each entry tagged with its standing.
/// No mutation.
pub fn list_versions(state: &VersionFile, available: &VersionSet) -> (r: Vec<ListEntry>)
    requires
        state.wf(),
        available.wf(),
    ensures
        forall|a: int, b: int|
            0 <= a < b < r@.len() ==> version_lt(
                (#[trigger] r@[a]).version,
                (#[trigger] r@[b]).version,
            ),
        forall|k: int| 0 <= k < r@.len() ==> entry_correct(state@, available@, #[trigger] r@[k]),
        forall|k: int|
            0 <= k < r@.len() ==> state@.installed.contains((#[trigger] r@[k]).version)
                || available@.contains(r@[k].version),
        forall|v: GoVersion|
            (state@.installed.contains(v) || available@.contains(v)) ==> exists|k: int|
                0 <= k < r@.len() && (#[trigger] r@[k]).version == v,
{
    let u = state.installed.union(available);
    let n = u.items.len();
    let mut r: Vec<ListEntry> = Vec::new();
    let mut i: usize = 0;
    while i < n
        invariant
            0 <= i <= n,
            n == u.items@.len(),
            r@.len() == i,
            state.wf(),
            forall|k: int| 0 <= k < i ==> (#[trigger] r@[k]).version == u.items@[k],
            forall|k: int| 0 <= k < i ==> entry_correct(state@, available@, #[trigger] r@[k]),
        decreases n - i,
    {
        let v = u.items[i];
        let is_enabled = match state.enabled {
            Some(e) => e == v,
            None => false,
        };
        let entry = ListEntry {
            version: v,
            installed: state.installed.contains(&v),
            available: available.contains(&v),
            enabled: is_enabled,
            pinned: state.pinned.contains(&v),
        };
        r.push(entry);
        i = i + 1;
    }
    proof {
        assert forall|v: GoVersion|
            #![trigger state@.installed.contains(v)]
            #![trigger available@.contains(v)]
            (state@.installed.contains(v) || available@.contains(v)) implies exists|k: int|
            0 <= k < r@.len() && (#[trigger] r@[k]).version == v by {
            assert(u@.contains(v));
            let k = choose|k: int| 0 <= k < u.items@.len() && u.items@[k] == v;
            assert(r@[k].version == v);
        }
        assert forall|k: int|
            0 <= k < r@.len() implies state@.installed.contains((#[trigger] r@[k]).version)
            || available@.contains(r@[k].version) by {
            assert(u.items@[k] == r@[k].version);
            assert(u.items@.contains(r@[k].version));
            assert(u@.contains(r@[k].version));
        }
    }
    r
}

/// The reconciliation pass for `clean`: the record to persist, and the
/// versions whose directories are to be deleted.  The caller deletes
/// those directories and persists the record once all deletions
/// succeed.
pub fn clean(state: &VersionFile, folders: &VersionSet, available: &VersionSet) -> (r: (
    VersionFile,
    VersionSet,
))
    requires
        state.wf(),
        folders.wf(),
        available.wf(),
    ensures
        r.0.wf(),
        r.1.wf(),
        clean_model(state@, folders@, available@) == (r.0@, r.1@),
{
    let installed = state.installed.intersect(folders);
    let pinned = installed.intersect(&state.pinned);
    let allow = match state.enabled {
        Some(v) => available.union(&pinned).insert(v),
        None => available.union(&pinned),
    };
    let doomed = folders.difference(&allow);
    let new_installed = installed.difference(&doomed);
    let t = VersionFile { enabled: state.enabled, installed: new_installed, pinned };
    (t, doomed)
}

/// Pinning preserves the record's consistency: afterwards the pinned
/// versions are still all installed, since `pin` succeeds only on an
/// installed version.
pub proof fn lemma_pin_preserves_consistency(m: StateModel, v: GoVersion)
    requires
        consistent(m),
    ensures
        pin_model(m, v) matches Ok(t) ==> consistent(t),
{
}

/// Unpinning preserves the record's consistency.
pub proof fn lemma_unpin_preserves_consistency(m: StateModel, v: GoVersion)
    requires
        consistent(m),
    ensures
        consistent(unpin_model(m, v)),
{
}

/// Enabling preserves the record's consistency, succeeds exactly on
/// installed versions, and changes nothing else of the record.
pub proof fn lemma_enable_preserves_consistency(m: StateModel, v: GoVersion)
    requires
        consistent(m),
    ensures
        enable_model(m, v) matches Ok(t) ==> consistent(t) && t.installed == m.installed
            && t.pinned == m.pinned,
        enable_model(m, v) == Err::<StateModel, EngineError>(EngineError::NotInstalled)
            <==> !m.installed.contains(v),
{
}

/// Removal preserves the record's consistency, and removing the
/// enabled version clears the enabled slot.
pub proof fn lemma_remove_preserves_consistency(m: StateModel, v: GoVersion)
    requires
        consistent(m),
    ensures
        remove_model(m, v) matches Ok(t) ==> consistent(t),
        m.enabled == Some(v) ==> (remove_model(m, v) matches Ok(t) ==> t.enabled is None),
{
    if m.installed.contains(v) && !m.pinned.contains(v) {
        let t = remove_model(m, v)->Ok_0;
        assert forall|x: GoVersion| t.pinned.contains(x) implies t.installed.contains(x) by {
            assert(m.installed.contains(x));
            assert(x != v);
        }
    }
}

/// Recording an installation preserves the record's consistency.
pub proof fn lemma_install_preserves_consistency(m: StateModel, v: GoVersion)
    requires
        consistent(m),
    ensures
        consistent(install_model(m, v)),
{
    assert forall|x: GoVersion| install_model(m, v).pinned.contains(x) implies install_model(
        m,
        v,
    ).installed.contains(x) by {
        assert(m.installed.contains(x));
    }
}

/// A pinned version cannot be removed, and can be removed as soon as
/// it is unpinned.
pub proof fn lemma_pin_blocks_removal(m: StateModel, v: GoVersion)
    requires
        m.installed.contains(v),
        m.pinned.contains(v),
    ensures
        remove_model(m, v) == Err::<StateModel, EngineError>(EngineError::Pinned),
        remove_model(unpin_model(m, v), v) is Ok,
{
}

/// Recording the installation of an already-installed version leaves
/// the record exactly as it was.
pub proof fn lemma_install_idempotent(m: StateModel, v: GoVersion)
    requires
        m.installed.contains(v),
    ensures
        install_model(m, v) == m,
{
    assert(m.installed.insert(v) =~= m.installed);
}

/// Clean dooms no available, pinned or enabled version, dooms only
/// versions present on disk, and leaves a record whose pinned versions
/// are all installed — whatever state it started from.
pub proof fn lemma_clean_spares_allowlist(
    m: StateModel,
    folders: Set<GoVersion>,
    available: Set<GoVersion>,
)
    ensures
        ({
            let (t, doomed) = clean_model(m, folders, available);
            &&& forall|v: GoVersion|
                #[trigger] doomed.contains(v) ==> !available.contains(v) && !t.pinned.contains(v)
                    && m.enabled != Some(v)
            &&& doomed.subset_of(folders)
            &&& t.pinned.subset_of(t.installed)
        }),
{
    let (t, doomed) = clean_model(m, folders, available);
    assert forall|v: GoVersion| t.pinned.contains(v) implies t.installed.contains(v) by {
        assert(m.installed.intersect(folders).contains(v));
        assert(!doomed.contains(v));
    }
}

} // verus!
