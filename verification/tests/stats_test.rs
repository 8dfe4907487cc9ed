//! Tests of the `stats` command's counting, ordering and rendering.

use libra::command::stats::{
    classify_entry, count_file_entries, file_extension_key, is_ignored_dir, render_stats,
    scan_directory, stats_output_mode, summarize, DirEntryInfo, EntryAction, EntryKind,
    ExtensionCounts, ExtensionGroup, StatsArgs, StatsOutput, StatsOutputMode,
};

/// Scans a directory tree given as a list of entries (path from the root,
/// kind) the way the command walks a real one: each directory's entries go
/// to `scan_directory`, and the walk enters the directories it names.
fn scan(entries: &[(&str, EntryKind)]) -> StatsOutput {
    fn walk(entries: &[(&str, EntryKind)], dir: &str, counts: &mut ExtensionCounts) {
        let children: Vec<&(&str, EntryKind)> = entries
            .iter()
            .filter(|(path, _)| match path.rsplit_once('/') {
                Some((parent, _)) => parent == dir,
                None => dir.is_empty(),
            })
            .collect();
        let infos: Vec<DirEntryInfo> = children
            .iter()
            .map(|(path, kind)| DirEntryInfo {
                kind: *kind,
                name: path.rsplit('/').next().unwrap().as_bytes().to_vec(),
            })
            .collect();
        for index in scan_directory(counts, &infos) {
            walk(entries, children[index].0, counts);
        }
    }
    let mut counts = ExtensionCounts::new();
    walk(entries, "", &mut counts);
    summarize(counts)
}

fn group(extension: &str, count: usize) -> ExtensionGroup {
    ExtensionGroup { extension: extension.to_string(), count }
}

fn listing(stats: &StatsOutput) -> Vec<(String, usize)> {
    stats.groups.iter().map(|g| (g.extension.clone(), g.count)).collect()
}

#[test]
fn test_parse_args() {
    let args = StatsArgs::parse_from(&["stats"]).unwrap();
    // StatsArgs has no fields — just verify parsing succeeds.
    let _ = args;
}

#[test]
fn test_parse_args_rejects_unknown_flag() {
    let err = StatsArgs::parse_from(&["stats", "--bogus"]).unwrap_err();
    assert_eq!(err.exit_code, 2);
    assert!(err.to_stderr);
    assert!(err.message.contains("--bogus"));
}

#[test]
fn test_parse_args_help_shows_examples() {
    let err = StatsArgs::parse_from(&["stats", "--help"]).unwrap_err();
    assert_eq!(err.exit_code, 0);
    assert!(!err.to_stderr);
    assert!(err.message.contains("libra stats --json"));
}

#[test]
fn test_collect_stats_in_tempdir() {
    let stats = scan(&[
        ("main.rs", EntryKind::File),
        ("lib.rs", EntryKind::File),
        ("README.md", EntryKind::File),
        ("Makefile", EntryKind::File),
        ("config.toml", EntryKind::File),
        ("script", EntryKind::File),
        ("src", EntryKind::Directory),
        ("src/parser.rs", EntryKind::File),
    ]);

    assert_eq!(stats.total_files, 7);
    assert_eq!(stats.groups.len(), 4); // rs, md, toml, no_extension

    // rs should have the most (3 files: main.rs, lib.rs, src/parser.rs)
    let rs_group = stats.groups.iter().find(|g| g.extension == "rs").unwrap();
    assert_eq!(rs_group.count, 3);

    // Verify sort order: rs (3) first, then alphabetically by extension
    assert_eq!(stats.groups[0].extension, "rs");
    assert_eq!(
        listing(&stats),
        vec![
            ("rs".to_string(), 3),
            ("no_extension".to_string(), 2),
            ("md".to_string(), 1),
            ("toml".to_string(), 1),
        ]
    );
}

#[test]
fn test_stats_ignores_libra_and_target_dirs() {
    let stats = scan(&[
        ("root_file.txt", EntryKind::File),
        (".libra", EntryKind::Directory),
        (".libra/config", EntryKind::File),
        (".libra/HEAD", EntryKind::File),
        ("target", EntryKind::Directory),
        ("target/debug.o", EntryKind::File),
    ]);

    // Only root_file.txt should be counted
    assert_eq!(stats.total_files, 1);
    assert_eq!(stats.groups.len(), 1);
    assert_eq!(stats.groups[0].extension, "txt");
    assert_eq!(stats.groups[0].count, 1);
}

#[test]
fn test_stats_ignores_nested_libra_dir() {
    let stats = scan(&[
        ("visible.txt", EntryKind::File),
        ("subdir", EntryKind::Directory),
        ("subdir/.libra", EntryKind::Directory),
        ("subdir/.libra/hidden", EntryKind::File),
        ("target", EntryKind::Directory),
        ("target/release.o", EntryKind::File),
    ]);
    assert_eq!(stats.total_files, 1);
    assert_eq!(listing(&stats), vec![("txt".to_string(), 1)]);
}

#[test]
fn test_stats_empty_tree() {
    let stats = scan(&[("empty_subdir", EntryKind::Directory)]);
    assert_eq!(stats.total_files, 0);
    assert!(stats.groups.is_empty());
}

#[test]
fn test_render_stats_output() {
    let stats = StatsOutput {
        total_files: 5,
        groups: vec![group("rs", 3), group("md", 1), group("no_extension", 1)],
    };

    let mut buf = Vec::new();
    render_stats(&stats, &mut buf);
    let output = String::from_utf8(buf).unwrap();

    assert!(output.contains("Total files: 5"));
    assert!(output.contains("rs"));
    assert!(output.contains("md"));
    assert!(output.contains("no_extension"));
    // rs group count of 3 should appear in the output
    assert!(output.contains("3"));
}

#[test]
fn test_render_stats_exact_layout() {
    let stats = StatsOutput {
        total_files: 5,
        groups: vec![group("rs", 3), group("md", 1), group("no_extension", 1)],
    };
    let mut buf = Vec::new();
    render_stats(&stats, &mut buf);
    assert_eq!(
        String::from_utf8(buf).unwrap(),
        "Total files: 5\n\n   3  rs\n   1  md\n   1  no_extension\n"
    );
}

#[test]
fn test_render_stats_wide_counts_and_appends() {
    let stats = StatsOutput {
        total_files: 123461,
        groups: vec![group("c", 123456), group("h", 5)],
    };
    let mut buf = b"before\n".to_vec();
    render_stats(&stats, &mut buf);
    assert_eq!(
        String::from_utf8(buf).unwrap(),
        "before\nTotal files: 123461\n\n123456  c\n     5  h\n"
    );
}

#[test]
fn test_render_stats_empty() {
    let stats = StatsOutput { total_files: 0, groups: vec![] };
    let mut buf = Vec::new();
    render_stats(&stats, &mut buf);
    assert_eq!(String::from_utf8(buf).unwrap(), "Total files: 0\n\n");
}

#[test]
fn test_extension_keys() {
    assert_eq!(file_extension_key(b"main.rs"), "rs");
    assert_eq!(file_extension_key(b"archive.tar.gz"), "gz");
    assert_eq!(file_extension_key(b"Makefile"), "no_extension");
    assert_eq!(file_extension_key(b".gitignore"), "no_extension");
    assert_eq!(file_extension_key(b".config.toml"), "toml");
    assert_eq!(file_extension_key(b"trailing."), "");
    assert_eq!(file_extension_key(b".."), "no_extension");
    assert_eq!(file_extension_key(b""), "no_extension");
    assert_eq!(file_extension_key("noté.méd".as_bytes()), "méd");
    // An extension that is not valid UTF-8 cannot be shown.
    assert_eq!(file_extension_key(&[b'a', b'.', 0xff, 0xfe]), "no_extension");
    // The name before the dot may be anything.
    assert_eq!(file_extension_key(&[0xff, b'.', b'r', b's']), "rs");
}

#[test]
fn test_ignored_dirs() {
    assert!(is_ignored_dir(b".libra"));
    assert!(is_ignored_dir(b"target"));
    assert!(!is_ignored_dir(b"Target"));
    assert!(!is_ignored_dir(b"targets"));
    assert!(!is_ignored_dir(b".lib"));
    assert!(!is_ignored_dir(b"src"));
}

#[test]
fn test_classify_entry() {
    assert!(matches!(classify_entry(EntryKind::Directory, b"src"), EntryAction::Descend));
    assert!(matches!(classify_entry(EntryKind::Directory, b"target"), EntryAction::Skip));
    assert!(matches!(classify_entry(EntryKind::Other, b"link.rs"), EntryAction::Skip));
    match classify_entry(EntryKind::File, b"lib.rs") {
        EntryAction::Count(key) => assert_eq!(key, "rs"),
        other => panic!("unexpected {other:?}"),
    }
    // A file named like an ignored directory is still counted.
    match classify_entry(EntryKind::File, b"target") {
        EntryAction::Count(key) => assert_eq!(key, "no_extension"),
        other => panic!("unexpected {other:?}"),
    }
}

#[test]
fn test_record_counts() {
    let mut counts = ExtensionCounts::new();
    assert_eq!(counts.total_files(), 0);
    counts.record("rs".to_string());
    counts.record("md".to_string());
    counts.record("rs".to_string());
    assert_eq!(counts.total_files(), 3);
    assert_eq!(counts.count_of(&"rs".to_string()), 2);
    assert_eq!(counts.count_of(&"md".to_string()), 1);
    assert_eq!(counts.count_of(&"toml".to_string()), 0);
}

#[test]
fn test_summary_order_ties_by_bytes() {
    let mut counts = ExtensionCounts::new();
    for key in ["b", "a", "Z", "ä", "z", "a", "aa"] {
        counts.record(key.to_string());
    }
    let stats = summarize(counts);
    assert_eq!(stats.total_files, 7);
    assert_eq!(
        listing(&stats),
        vec![
            ("a".to_string(), 2),
            ("Z".to_string(), 1),
            ("aa".to_string(), 1),
            ("b".to_string(), 1),
            ("z".to_string(), 1),
            ("ä".to_string(), 1),
        ]
    );
}

#[test]
fn test_summary_independent_of_recording_order() {
    let keys = ["rs", "md", "rs", "toml", "md", "rs", "txt"];
    let mut forward = ExtensionCounts::new();
    for key in keys {
        forward.record(key.to_string());
    }
    let mut backward = ExtensionCounts::new();
    for key in keys.iter().rev() {
        backward.record(key.to_string());
    }
    let a = summarize(forward);
    let b = summarize(backward);
    assert_eq!(listing(&a), listing(&b));
    assert_eq!(a.total_files, b.total_files);
    let sum: usize = a.groups.iter().map(|g| g.count).sum();
    assert_eq!(sum, a.total_files);
}

#[test]
fn test_parse_args_accepts_only_escape() {
    assert!(StatsArgs::parse_from(&[]).is_ok());
    assert!(StatsArgs::parse_from(&["libra"]).is_ok());
    assert!(StatsArgs::parse_from(&["stats", "--"]).is_ok());
    assert!(StatsArgs::parse_from(&["stats", "--", "--"]).is_err());
    assert!(StatsArgs::parse_from(&["stats", "--", "x"]).is_err());
    assert!(StatsArgs::parse_from(&["stats", ""]).is_err());
    assert!(StatsArgs::parse_from(&["stats", "-"]).is_err());
    assert!(StatsArgs::parse_from(&["stats", "help"]).is_err());
    assert!(StatsArgs::parse_from(&["stats", "-V"]).is_err());
}

fn entry(kind: EntryKind, name: &str) -> DirEntryInfo {
    DirEntryInfo { kind, name: name.as_bytes().to_vec() }
}

#[test]
fn test_scan_directory_counts_and_enters() {
    let entries = vec![
        entry(EntryKind::File, "a.rs"),
        entry(EntryKind::Directory, "src"),
        entry(EntryKind::Directory, ".libra"),
        entry(EntryKind::File, "Makefile"),
        entry(EntryKind::Other, "dangling.rs"),
        entry(EntryKind::File, "b.rs"),
        entry(EntryKind::Directory, "target"),
        entry(EntryKind::Directory, "docs"),
    ];
    assert_eq!(count_file_entries(&entries), 3);
    let mut counts = ExtensionCounts::new();
    counts.record("rs".to_string());
    let enter = scan_directory(&mut counts, &entries);
    assert_eq!(enter, vec![1, 7]);
    assert_eq!(counts.total_files(), 4);
    assert_eq!(counts.count_of(&"rs".to_string()), 3);
    assert_eq!(counts.count_of(&"no_extension".to_string()), 1);
    assert_eq!(counts.count_of(&"o".to_string()), 0);
}

#[test]
fn test_summary_groups_are_nonempty() {
    let stats = summarize(ExtensionCounts::new());
    assert_eq!(stats.total_files, 0);
    assert!(stats.groups.is_empty());
    let mut counts = ExtensionCounts::new();
    counts.record("md".to_string());
    let stats = summarize(counts);
    assert_eq!(stats.total_files, 1);
    assert!(stats.groups.iter().all(|g| g.count >= 1));
}

#[test]
fn test_one_more_file_changes_only_its_group() {
    let mut before = ExtensionCounts::new();
    let mut after = ExtensionCounts::new();
    for key in ["rs", "md", "rs"] {
        before.record(key.to_string());
        after.record(key.to_string());
    }
    after.record("md".to_string());
    let a = summarize(before);
    let b = summarize(after);
    assert_eq!(b.total_files, a.total_files + 1);
    assert_eq!(listing(&a), vec![("rs".to_string(), 2), ("md".to_string(), 1)]);
    assert_eq!(listing(&b), vec![("md".to_string(), 2), ("rs".to_string(), 2)]);
}

#[test]
fn test_parse_args_short_help() {
    let err = StatsArgs::parse_from(&["stats", "-h"]).unwrap_err();
    assert_eq!(err.exit_code, 0);
    assert!(!err.to_stderr);
    let again = StatsArgs::parse_from(&["stats", "-h"]).unwrap_err();
    assert_eq!(err.message, again.message);
}

#[test]
fn test_stats_output_mode() {
    assert_eq!(stats_output_mode(true, false), StatsOutputMode::Json);
    assert_eq!(stats_output_mode(true, true), StatsOutputMode::Json);
    assert_eq!(stats_output_mode(false, true), StatsOutputMode::Quiet);
    assert_eq!(stats_output_mode(false, false), StatsOutputMode::Human);
}
