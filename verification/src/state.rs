//! The persisted state record: which versions are installed, which one
//! is enabled, and which are pinned.

use crate::version::{version_chars, GoVersion};
use crate::version_set::VersionSet;
use vstd::prelude::*;
use vstd::string::*;

verus! {

/// The mathematical content of a state record.
pub struct StateModel {
    pub enabled: Option<GoVersion>,
    pub installed: Set<GoVersion>,
    pub pinned: Set<GoVersion>,
}

/// The zero-value record: nothing installed, nothing enabled, nothing
/// pinned.  A missing state file denotes this record.
pub open spec fn empty_model() -> StateModel {
    StateModel { enabled: None, installed: Set::empty(), pinned: Set::empty() }
}

/// The consistency invariants of a record: pinned versions are
/// installed, and the enabled version, if any, is installed.  Every
/// mutating operation preserves these.
pub open spec fn consistent(m: StateModel) -> bool {
    &&& m.pinned.subset_of(m.installed)
    &&& match m.enabled {
        Some(v) => m.installed.contains(v),
        None => true,
    }
}

/// The record of installed, enabled and pinned versions, the single
/// source of truth that every mutating operation reads and rewrites.
#[derive(Debug)]
pub struct VersionFile {
    pub enabled: Option<GoVersion>,
    pub installed: VersionSet,
    pub pinned: VersionSet,
}

impl View for VersionFile {
    type V = StateModel;

    open spec fn view(&self) -> StateModel {
        StateModel { enabled: self.enabled, installed: self.installed@, pinned: self.pinned@ }
    }
}

impl VersionFile {
    /// Sortedness of the two underlying vectors.
    pub open spec fn wf(self) -> bool {
        self.installed.wf() && self.pinned.wf()
    }

    /// The zero-value record.
    pub fn empty() -> (r: Self)
        ensures
            r.wf(),
            r@ == empty_model(),
            r.installed.items@.len() == 0,
            r.pinned.items@.len() == 0,
    {
        VersionFile { enabled: None, installed: VersionSet::new(), pinned: VersionSet::new() }
    }
}

impl Clone for VersionFile {
    /// A field-for-field copy.
    fn clone(&self) -> (r: Self)
        ensures
            r.enabled == self.enabled,
            r.installed.items@ == self.installed.items@,
            r.pinned.items@ == self.pinned.items@,
            r@ == self@,
            r.wf() == self.wf(),
    {
        VersionFile {
            enabled: self.enabled,
            installed: self.installed.clone(),
            pinned: self.pinned.clone(),
        }
    }
}

impl Default for VersionFile {
    /// The zero-value record.
    fn default() -> (r: Self)
        ensures
            r.wf(),
            r@ == empty_model(),
            r.installed.items@.len() == 0,
            r.pinned.items@.len() == 0,
    {
        VersionFile::empty()
    }
}

/// The install directory of a version: a directory under the
/// configuration root, named by the version's canonical string.
pub fn install_dir(goup_dir: &str, version: GoVersion) -> (r: String)
    ensures
        r@ == goup_dir@ + seq!['/'] + version_chars(version),
{
    proof {
        reveal_strlit("/");
    }
    let mut s = goup_dir.to_owned();
    s.append("/");
    s.append(version.to_version_string().as_str());
    proof {
        assert(s@ =~= goup_dir@ + seq!['/'] + version_chars(version));
    }
    s
}

/// The path of the state file under the configuration root.
pub fn version_file(goup_dir: &str) -> (r: String)
    ensures
        r@ == goup_dir@ + "/versions.json"@,
{
    let mut s = goup_dir.to_owned();
    s.append("/versions.json");
    s
}

} // verus!

