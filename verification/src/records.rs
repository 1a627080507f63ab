//! The home-directory record layout: a smaller record kept under a
//! `.goup` directory in the user's home, with an always-set enabled
//! version and no pins.  The program proper works with the richer
//! record of [`crate::state`]; this layout shares the version-named
//! directory scheme and the activation rules.

use crate::state::install_dir as state_install_dir;
use crate::version::{version_chars, GoVersion};
use crate::version_set::VersionSet;
use vstd::prelude::*;
use vstd::string::*;

verus! {

/// The record kept under the home-directory root: the enabled version
/// (the zero version when none has been enabled yet) and the installed
/// set.
#[derive(Debug)]
pub struct RecordFile {
    pub enabled: GoVersion,
    pub installed: VersionSet,
}

impl RecordFile {
    /// Sortedness of the underlying vector.
    pub open spec fn wf(self) -> bool {
        self.installed.wf()
    }
}

impl Default for RecordFile {
    /// The zero-value record: the zero version enabled, nothing
    /// installed.
    fn default() -> (r: Self)
        ensures
            r.wf(),
            r.enabled == (GoVersion { major: 0, minor: 0, patch: 0 }),
            r.installed@ == Set::<GoVersion>::empty(),
    {
        RecordFile { enabled: GoVersion { major: 0, minor: 0, patch: 0 }, installed: VersionSet::new() }
    }
}

/// The install directory of a version under the home-directory root:
/// named by the version's canonical string, like the main layout.
pub fn install_dir(goup_dir: &str, version: GoVersion) -> (r: String)
    ensures
        r@ == goup_dir@ + seq!['/'] + version_chars(version),
{
    state_install_dir(goup_dir, version)
}

/// The path of the record file under the home-directory root.
pub fn record_file(goup_dir: &str) -> (r: String)
    ensures
        r@ == goup_dir@ + "/versions.json"@,
{
    let mut s = goup_dir.to_owned();
    s.append("/versions.json");
    s
}

/// The record change of enabling a version under this layout.  Fails
/// when the version is not installed; the caller swaps the activation
/// symlink and persists the returned record only when the swap
/// succeeded.
pub fn enable_version(record: &RecordFile, version: GoVersion) -> (r: Option<RecordFile>)
    requires
        record.wf(),
    ensures
        match r {
            Some(t) => {
                &&& t.wf()
                &&& record.installed@.contains(version)
                &&& t.enabled == version
                &&& t.installed@ == record.installed@
            },
            None => !record.installed@.contains(version),
        },
{
    if !record.installed.contains(&version) {
        return None;
    }
    Some(RecordFile { enabled: version, installed: record.installed.clone() })
}

} // verus!
