use goup::catalog::{arch, available_go_versions, os, Available, FileInfo, VersionGroup};
use goup::engine::{
    clean, download_version, enable, install, list_versions, pin, remove, unpin, update,
    version_folders, EngineError,
};
use goup::records::{enable_version, RecordFile};
use goup::state::{install_dir, version_file, VersionFile};
use goup::version::GoVersion;
use goup::version_set::VersionSet;

fn v(major: u32, minor: u32, patch: u32) -> GoVersion {
    GoVersion { major, minor, patch }
}

fn set_of(items: Vec<GoVersion>) -> VersionSet {
    VersionSet::from_vec(&items)
}

fn file(name: &str, os_tag: &str, arch_tag: &str, size: u64, kind: &str) -> FileInfo {
    FileInfo {
        filename: String::from(name),
        os: String::from(os_tag),
        arch: String::from(arch_tag),
        size,
        kind: String::from(kind),
    }
}

fn state(enabled: Option<GoVersion>, installed: Vec<GoVersion>, pinned: Vec<GoVersion>) -> VersionFile {
    VersionFile {
        enabled,
        installed: set_of(installed),
        pinned: set_of(pinned),
    }
}

// ---- version parsing and formatting ----

#[test]
fn parse_full_version() {
    assert_eq!(GoVersion::parse("go1.19.1"), Ok(v(1, 19, 1)));
}

#[test]
fn parse_missing_patch_defaults_to_zero() {
    assert_eq!(GoVersion::parse("go1.19"), Ok(v(1, 19, 0)));
}

#[test]
fn parse_ignores_surrounding_text() {
    assert_eq!(
        GoVersion::parse("go version go1.22.1 linux/amd64"),
        Ok(v(1, 22, 1))
    );
}

#[test]
fn parse_takes_leftmost_match() {
    assert_eq!(GoVersion::parse("go1.2.3 and go4.5.6"), Ok(v(1, 2, 3)));
}

#[test]
fn parse_skips_incomplete_prefix() {
    // "go1x" matches no full pattern; the later occurrence does.
    assert_eq!(GoVersion::parse("go1x go2.3"), Ok(v(2, 3, 0)));
}

#[test]
fn parse_rejects_versionless_text() {
    assert!(GoVersion::parse("banana").is_err());
    assert!(GoVersion::parse("").is_err());
    assert!(GoVersion::parse("go").is_err());
    assert!(GoVersion::parse("go1").is_err());
    assert!(GoVersion::parse("go1..2").is_err());
}

#[test]
fn parse_rejects_component_overflow() {
    assert!(GoVersion::parse("go99999999999.1").is_err());
    assert_eq!(GoVersion::parse("go4294967295.1"), Ok(v(4294967295, 1, 0)));
}

#[test]
fn parse_accepts_leading_zeros() {
    assert_eq!(GoVersion::parse("go01.002"), Ok(v(1, 2, 0)));
}

#[test]
fn format_canonical() {
    assert_eq!(v(1, 21, 3).to_version_string(), "go1.21.3");
    assert_eq!(v(0, 0, 0).to_version_string(), "go0.0.0");
    assert_eq!(v(10, 200, 3000).to_version_string(), "go10.200.3000");
}

#[test]
fn parse_format_round_trip() {
    for ver in [v(1, 9, 0), v(1, 10, 1), v(0, 0, 0), v(4294967295, 0, 7)] {
        assert_eq!(GoVersion::parse(&ver.to_version_string()), Ok(ver));
    }
}

#[test]
fn ordering_is_numeric_not_lexicographic() {
    let a = v(1, 9, 0);
    let b = v(1, 10, 0);
    let c = v(1, 10, 1);
    assert!(a.lt(&b));
    assert!(b.lt(&c));
    assert!(a.lt(&c));
    assert!(!b.lt(&a));
    assert!(!a.lt(&a));
}

// ---- version sets ----

#[test]
fn set_insert_contains_remove() {
    let s = VersionSet::new();
    assert!(s.is_empty());
    let s = s.insert(v(1, 2, 3));
    let s = s.insert(v(1, 1, 0));
    assert!(s.contains(&v(1, 2, 3)));
    assert!(s.contains(&v(1, 1, 0)));
    assert!(!s.contains(&v(2, 0, 0)));
    assert_eq!(s.len(), 2);
    let s = s.remove(&v(1, 1, 0));
    assert!(!s.contains(&v(1, 1, 0)));
    assert_eq!(s.len(), 1);
}

#[test]
fn set_insert_is_idempotent() {
    let s = set_of(vec![v(1, 2, 3)]);
    let s2 = s.insert(v(1, 2, 3));
    assert_eq!(s2.items, vec![v(1, 2, 3)]);
}

#[test]
fn set_from_vec_sorts_and_dedups() {
    let s = set_of(vec![v(1, 10, 0), v(1, 9, 0), v(1, 10, 0), v(1, 2, 3)]);
    assert_eq!(s.items, vec![v(1, 2, 3), v(1, 9, 0), v(1, 10, 0)]);
}

#[test]
fn set_operations() {
    let a = set_of(vec![v(1, 0, 0), v(2, 0, 0), v(3, 0, 0)]);
    let b = set_of(vec![v(2, 0, 0), v(4, 0, 0)]);
    assert_eq!(a.intersect(&b).items, vec![v(2, 0, 0)]);
    assert_eq!(a.difference(&b).items, vec![v(1, 0, 0), v(3, 0, 0)]);
    assert_eq!(
        a.union(&b).items,
        vec![v(1, 0, 0), v(2, 0, 0), v(3, 0, 0), v(4, 0, 0)]
    );
    assert_eq!(a.max(), Some(v(3, 0, 0)));
    assert_eq!(VersionSet::new().max(), None);
}

// ---- state file text ----

#[test]
fn store_renders_exact_json() {
    let empty = VersionFile::empty();
    assert_eq!(empty.store(), "{\"enabled\":null,\"installed\":[],\"pinned\":[]}");

    let full = state(
        Some(v(1, 21, 0)),
        vec![v(1, 20, 0), v(1, 21, 0)],
        vec![v(1, 20, 0)],
    );
    assert_eq!(
        full.store(),
        "{\"enabled\":\"go1.21.0\",\"installed\":[\"go1.20.0\",\"go1.21.0\"],\"pinned\":[\"go1.20.0\"]}"
    );
}

#[test]
fn load_missing_file_yields_zero_record() {
    let r = VersionFile::load(None).unwrap();
    assert_eq!(r.enabled, None);
    assert!(r.installed.items.is_empty());
    assert!(r.pinned.items.is_empty());
}

#[test]
fn store_load_round_trip() {
    let written = state(
        Some(v(1, 21, 0)),
        vec![v(1, 19, 5), v(1, 21, 0)],
        vec![v(1, 19, 5)],
    );
    let text = written.store();
    let back = VersionFile::load(Some(&text)).unwrap();
    assert_eq!(back.enabled, written.enabled);
    assert_eq!(back.installed.items, written.installed.items);
    assert_eq!(back.pinned.items, written.pinned.items);
}

#[test]
fn load_rejects_malformed_text() {
    assert!(VersionFile::load(Some("")).is_err());
    assert!(VersionFile::load(Some("{}")).is_err());
    assert!(VersionFile::load(Some("not json at all")).is_err());
    assert!(VersionFile::load(Some("{\"enabled\":null,\"installed\":[],\"pinned\":[]} ")).is_err());
    assert!(VersionFile::load(Some("{\"enabled\":null,\"installed\":[\"nope\"],\"pinned\":[]}")).is_err());
}

// ---- engine: pin / unpin / remove (pin invariant) ----

#[test]
fn pin_requires_installed() {
    let st = state(None, vec![], vec![]);
    assert_eq!(pin(&st, v(1, 2, 3)).unwrap_err(), EngineError::NotInstalled);
}

#[test]
fn pin_then_remove_is_blocked_until_unpin() {
    let st = state(None, vec![v(1, 2, 3)], vec![]);
    let pinned = pin(&st, v(1, 2, 3)).unwrap();
    assert!(pinned.pinned.contains(&v(1, 2, 3)));
    // Every pinned version is installed.
    for p in &pinned.pinned.items {
        assert!(pinned.installed.contains(p));
    }
    assert_eq!(
        remove(&pinned, v(1, 2, 3)).unwrap_err(),
        EngineError::Pinned
    );
    let unpinned = unpin(&pinned, v(1, 2, 3));
    let (after, was_enabled) = remove(&unpinned, v(1, 2, 3)).unwrap();
    assert!(!was_enabled);
    assert!(!after.installed.contains(&v(1, 2, 3)));
}

#[test]
fn unpin_of_unpinned_version_is_noop() {
    let st = state(None, vec![v(1, 2, 3)], vec![]);
    let after = unpin(&st, v(9, 9, 9));
    assert_eq!(after.installed.items, st.installed.items);
    assert_eq!(after.pinned.items, st.pinned.items);
}

// ---- engine: enable / remove (enabled invariant) ----

#[test]
fn remove_enabled_version_clears_enabled() {
    let st = state(Some(v(1, 2, 3)), vec![v(1, 2, 3), v(1, 3, 0)], vec![]);
    let (after, was_enabled) = remove(&st, v(1, 2, 3)).unwrap();
    assert!(was_enabled);
    assert_eq!(after.enabled, None);
    // A later listing shows no enabled entry.
    let entries = list_versions(&after, &VersionSet::new());
    assert!(entries.iter().all(|e| !e.enabled));
}

#[test]
fn enable_uninstalled_fails_and_leaves_state_unchanged() {
    let st = state(None, vec![v(1, 2, 3)], vec![]);
    let before = st.store();
    assert_eq!(enable(&st, v(9, 9, 9)).unwrap_err(), EngineError::NotInstalled);
    assert_eq!(st.store(), before);
}

#[test]
fn enable_installed_sets_enabled() {
    let st = state(None, vec![v(1, 2, 3)], vec![]);
    let after = enable(&st, v(1, 2, 3)).unwrap();
    assert_eq!(after.enabled, Some(v(1, 2, 3)));
    assert_eq!(after.installed.items, st.installed.items);
}

#[test]
fn remove_requires_installed() {
    let st = state(None, vec![], vec![]);
    assert_eq!(
        remove(&st, v(1, 2, 3)).unwrap_err(),
        EngineError::NotInstalled
    );
}

// ---- engine: install / update (idempotence) ----

fn one_version_catalog(ver: GoVersion, name: &str) -> Available {
    let groups = vec![VersionGroup {
        version: ver,
        files: vec![file(name, "linux", "amd64", 1000, "archive")],
    }];
    available_go_versions(&groups, "linux", "amd64").unwrap()
}

#[test]
fn install_resolves_catalog_and_records_version() {
    let catalog = one_version_catalog(v(1, 21, 0), "go1.21.0.linux-amd64.tar.gz");
    let st = state(None, vec![], vec![]);
    let plan = install(&st, v(1, 21, 0), &catalog).unwrap();
    assert!(plan.state.installed.contains(&v(1, 21, 0)));
    assert_eq!(
        plan.download.as_ref().map(|f| f.filename.as_str()),
        Some("go1.21.0.linux-amd64.tar.gz")
    );
}

#[test]
fn install_fails_when_version_not_available() {
    let catalog = one_version_catalog(v(1, 21, 0), "go1.21.0.linux-amd64.tar.gz");
    let st = state(None, vec![], vec![]);
    assert_eq!(
        install(&st, v(1, 99, 0), &catalog).unwrap_err(),
        EngineError::NotAvailable
    );
}

#[test]
fn install_twice_is_idempotent() {
    let catalog = one_version_catalog(v(1, 21, 0), "go1.21.0.linux-amd64.tar.gz");
    let st = state(None, vec![], vec![]);
    let first = install(&st, v(1, 21, 0), &catalog).unwrap();
    assert!(first.download.is_some());
    let second = install(&first.state, v(1, 21, 0), &catalog).unwrap();
    // No second download, and `installed` still holds exactly one copy.
    assert!(second.download.is_none());
    assert_eq!(second.state.installed.items, vec![v(1, 21, 0)]);
    assert_eq!(second.state.installed.items, first.state.installed.items);
}

#[test]
fn download_version_skips_installed() {
    let st = state(None, vec![v(1, 21, 0)], vec![]);
    let (after, needs_install) = download_version(&st, v(1, 21, 0));
    assert!(!needs_install);
    assert_eq!(after.installed.items, vec![v(1, 21, 0)]);
    let (after2, needs_install2) = download_version(&st, v(1, 22, 0));
    assert!(needs_install2);
    assert!(after2.installed.contains(&v(1, 22, 0)));
}

#[test]
fn update_picks_newest_version() {
    let groups = vec![
        VersionGroup {
            version: v(1, 20, 0),
            files: vec![file("a.tar.gz", "linux", "amd64", 1, "archive")],
        },
        VersionGroup {
            version: v(1, 21, 3),
            files: vec![file("b.tar.gz", "linux", "amd64", 1, "archive")],
        },
    ];
    let catalog = available_go_versions(&groups, "linux", "amd64").unwrap();
    let st = state(None, vec![], vec![]);
    let plan = update(&st, &catalog).unwrap();
    assert_eq!(plan.latest, v(1, 21, 3));
    assert_eq!(
        plan.download.as_ref().map(|f| f.filename.as_str()),
        Some("b.tar.gz")
    );

    let st2 = state(None, vec![v(1, 21, 3)], vec![]);
    let plan2 = update(&st2, &catalog).unwrap();
    assert_eq!(plan2.latest, v(1, 21, 3));
    assert!(plan2.download.is_none());
}

#[test]
fn update_fails_on_empty_catalog() {
    let st = state(None, vec![], vec![]);
    let groups: Vec<VersionGroup> = vec![];
    assert!(available_go_versions(&groups, "linux", "amd64").is_err());
    let empty = Available { entries: vec![] };
    assert!(update(&st, &empty).is_err());
}

// ---- engine: clean ----

#[test]
fn clean_preserves_allow_list() {
    let st = state(
        Some(v(1, 21, 0)),
        vec![v(1, 20, 0), v(1, 21, 0)],
        vec![v(1, 20, 0)],
    );
    let folders = set_of(vec![v(1, 20, 0), v(1, 21, 0)]);
    let available = VersionSet::new();
    let (after, doomed) = clean(&st, &folders, &available);
    assert!(doomed.is_empty());
    assert_eq!(after.installed.items, vec![v(1, 20, 0), v(1, 21, 0)]);
    assert_eq!(after.pinned.items, vec![v(1, 20, 0)]);
    assert_eq!(after.enabled, Some(v(1, 21, 0)));
}

#[test]
fn clean_removes_stale_versions() {
    let st = state(Some(v(1, 21, 0)), vec![v(1, 19, 0), v(1, 21, 0)], vec![]);
    let folders = set_of(vec![v(1, 19, 0), v(1, 21, 0)]);
    let available = set_of(vec![v(1, 21, 0)]);
    let (after, doomed) = clean(&st, &folders, &available);
    assert_eq!(doomed.items, vec![v(1, 19, 0)]);
    assert_eq!(after.installed.items, vec![v(1, 21, 0)]);
}

#[test]
fn clean_forgets_versions_missing_from_disk() {
    // A version recorded as installed but absent on disk is dropped,
    // and a pin on it is dropped too.
    let st = state(None, vec![v(1, 19, 0), v(1, 21, 0)], vec![v(1, 19, 0)]);
    let folders = set_of(vec![v(1, 21, 0)]);
    let available = set_of(vec![v(1, 21, 0)]);
    let (after, doomed) = clean(&st, &folders, &available);
    assert!(doomed.is_empty());
    assert_eq!(after.installed.items, vec![v(1, 21, 0)]);
    assert!(after.pinned.items.is_empty());
}

// ---- engine: list ----

#[test]
fn list_tags_each_version() {
    let st = state(Some(v(1, 21, 0)), vec![v(1, 20, 0), v(1, 21, 0)], vec![v(1, 20, 0)]);
    let available = set_of(vec![v(1, 21, 0), v(1, 22, 0)]);
    let entries = list_versions(&st, &available);
    let versions: Vec<GoVersion> = entries.iter().map(|e| e.version).collect();
    assert_eq!(versions, vec![v(1, 20, 0), v(1, 21, 0), v(1, 22, 0)]);

    assert!(entries[0].installed && !entries[0].available && entries[0].pinned);
    assert!(!entries[0].enabled);
    assert!(entries[1].installed && entries[1].available && entries[1].enabled);
    assert!(!entries[1].pinned);
    assert!(!entries[2].installed && entries[2].available);
    assert!(!entries[2].enabled && !entries[2].pinned);
}

// ---- catalog selection ----

#[test]
fn catalog_selects_first_matching_archive() {
    let groups = vec![VersionGroup {
        version: v(1, 21, 0),
        files: vec![
            file("src.tar.gz", "", "", 1, "source"),
            file("installer.msi", "windows", "amd64", 1, "installer"),
            file("first.tar.gz", "linux", "amd64", 1, "archive"),
            file("second.tar.gz", "linux", "amd64", 1, "archive"),
        ],
    }];
    let catalog = available_go_versions(&groups, "linux", "amd64").unwrap();
    assert_eq!(catalog.entries.len(), 1);
    assert_eq!(catalog.entries[0].1.filename, "first.tar.gz");
}

#[test]
fn catalog_drops_groups_without_matching_file() {
    let groups = vec![
        VersionGroup {
            version: v(1, 20, 0),
            files: vec![file("w.zip", "windows", "amd64", 1, "archive")],
        },
        VersionGroup {
            version: v(1, 21, 0),
            files: vec![file("l.tar.gz", "linux", "amd64", 1, "archive")],
        },
    ];
    let catalog = available_go_versions(&groups, "linux", "amd64").unwrap();
    assert_eq!(catalog.entries.len(), 1);
    assert_eq!(catalog.entries[0].0, v(1, 21, 0));
}

#[test]
fn catalog_fails_when_nothing_matches_platform() {
    let groups = vec![VersionGroup {
        version: v(1, 21, 0),
        files: vec![file("w.zip", "windows", "amd64", 1, "archive")],
    }];
    assert!(available_go_versions(&groups, "linux", "arm64").is_err());
}

#[test]
fn catalog_orders_versions_ascending() {
    let groups = vec![
        VersionGroup {
            version: v(1, 21, 0),
            files: vec![file("b.tar.gz", "linux", "amd64", 1, "archive")],
        },
        VersionGroup {
            version: v(1, 9, 0),
            files: vec![file("a.tar.gz", "linux", "amd64", 1, "archive")],
        },
    ];
    let catalog = available_go_versions(&groups, "linux", "amd64").unwrap();
    let versions: Vec<GoVersion> = catalog.entries.iter().map(|e| e.0).collect();
    assert_eq!(versions, vec![v(1, 9, 0), v(1, 21, 0)]);
}

// ---- platform tags ----

#[test]
fn platform_tag_tables() {
    assert_eq!(arch("x86_64"), "amd64");
    assert_eq!(arch("x86"), "386");
    assert_eq!(arch("aarch64"), "arm64");
    assert_eq!(arch("sparc"), "unknown");
    assert_eq!(os("linux"), "linux");
    assert_eq!(os("macos"), "darwin");
    assert_eq!(os("beos"), "unknown");
}

// ---- filesystem names ----

#[test]
fn install_dir_is_named_by_canonical_version() {
    assert_eq!(
        install_dir("/home/me/.goup", v(1, 21, 3)),
        "/home/me/.goup/go1.21.3"
    );
}

#[test]
fn version_file_path() {
    assert_eq!(version_file("/home/me/goup"), "/home/me/goup/versions.json");
}

#[test]
fn version_folders_reads_versions_from_names() {
    let names = vec![
        String::from("go1.20.0"),
        String::from("versions.json"),
        String::from("go1.21.3"),
        String::from("go"),
    ];
    let found = version_folders(&names);
    assert_eq!(found.items, vec![v(1, 20, 0), v(1, 21, 3)]);
}

// ---- home-directory record layout ----

#[test]
fn record_file_enable_requires_installed() {
    let rec = RecordFile {
        enabled: v(0, 0, 0),
        installed: set_of(vec![v(1, 2, 3)]),
    };
    assert!(enable_version(&rec, v(9, 9, 9)).is_none());
    let enabled = enable_version(&rec, v(1, 2, 3)).unwrap();
    assert_eq!(enabled.enabled, v(1, 2, 3));
    assert_eq!(enabled.installed.items, rec.installed.items);
}

#[test]
fn record_file_defaults_to_zero_version() {
    let rec = RecordFile::default();
    assert_eq!(rec.enabled, v(0, 0, 0));
    assert!(rec.installed.items.is_empty());
}

#[test]
fn record_file_path() {
    assert_eq!(
        goup::records::record_file("/home/me/.goup"),
        "/home/me/.goup/versions.json"
    );
    assert_eq!(
        goup::records::install_dir("/home/me/.goup", v(1, 2, 3)),
        "/home/me/.goup/go1.2.3"
    );
}
