//! The `stats` command: counts the files of a directory tree grouped by
//! extension and renders the distribution.
//!
//! Directories named `.libra` or `target` are skipped; files without an
//! extension are counted under `"no_extension"`; groups come out sorted by
//! count, largest first, then by extension name.
use vstd::prelude::*;
use vstd::utf8::*;

use crate::command::decimal::{decimal_len, decimal_text, pad_left, push_decimal, push_decimal_padded};
use crate::command::byte_order::{
    bytes_equal, bytes_less, bytes_lt, lemma_bytes_lt_irreflexive, lemma_bytes_lt_total,
    lemma_bytes_lt_transitive,
};

verus! {

broadcast use vstd::utf8::encode_utf8_decode_utf8;

/// Usage examples shown after the generated help.
pub const STATS_EXAMPLES: &'static str = "EXAMPLES:
    libra stats                     Count files grouped by extension
    libra stats --json              JSON output for agents";

/// Command-line arguments of `stats`. The command takes no arguments of its
/// own; output format flags are global to the command-line interface.
#[derive(Debug)]
pub struct StatsArgs {}

/// Arguments that the `stats` command rejects, or a request for help or for
/// the version, as clap reports it.
#[derive(Debug)]
pub struct ArgsError {
    /// The text clap prints.
    pub message: String,
    /// The exit status clap uses.
    pub exit_code: i32,
    /// Whether clap prints the text to standard error (otherwise to standard output).
    pub to_stderr: bool,
}

/// Whether clap accepts `args` (program name first) for the `stats` command,
/// which declares no arguments: nothing may follow the program name but a
/// single `--`. Anything else (a flag such as `--help`, a value, a second
/// `--`) is an error or a request for help.
pub open spec fn stats_args_accepted(args: Seq<Seq<char>>) -> bool {
    args.len() <= 1 || (args.len() == 2 && args[1] == "--"@)
}

/// The text and the stream of clap's error for `args` (program name first)
/// given to the `stats` command: `true` when it goes to standard error.
pub uninterp spec fn stats_args_error(args: Seq<Seq<char>>) -> (Seq<char>, bool);

/// A lone `-h` or `--help` after the program name asks for help.
pub open spec fn asks_for_help(args: Seq<Seq<char>>) -> bool {
    args.len() == 2 && (args[1] == "-h"@ || args[1] == "--help"@)
}

/// The error a rejected command line gets: the text and stream that clap
/// gives for those arguments, exit status 2 for a message on standard error
/// and 0 for help printed to standard output.
pub open spec fn is_stats_args_error(args: Seq<Seq<char>>, e: ArgsError) -> bool {
    &&& (e.message@, e.to_stderr) == stats_args_error(args)
    &&& e.exit_code == (if e.to_stderr {
        2i32
    } else {
        0i32
    })
    &&& asks_for_help(args) ==> !e.to_stderr
}

/// Builds the `stats` command (no arguments, the examples as after-help) and
/// parses `args` with clap's `Command::try_get_matches_from`. clap's parser
/// takes the first argument as the program name, treats the first `--` as
/// the end of options, and rejects every other argument of a command that
/// declares none; the contract states that. An error's text and stream
/// (`to_string`, `use_stderr`) depend on the arguments alone, and the
/// contract names them; `exit_code` is 2 for standard error and 0 otherwise,
/// and the automatic `-h`/`--help` flag yields help on standard output, as
/// clap's source shows.
#[verifier::external_body]
fn stats_command_matches(args: &[&str]) -> (r: Result<(), ArgsError>)
    ensures
        r is Ok <==> stats_args_accepted(args@.map_values(|a: &str| a@)),
        r matches Err(e) ==> (e.message@, e.to_stderr) == stats_args_error(
            args@.map_values(|a: &str| a@),
        ) && is_stats_args_error(args@.map_values(|a: &str| a@), e),
{
    match clap::Command::new("stats").after_help(STATS_EXAMPLES).try_get_matches_from(args) {
        Ok(_) => Ok(()),
        Err(e) => Err(
            ArgsError { message: e.to_string(), exit_code: e.exit_code(), to_stderr: e.use_stderr() },
        ),
    }
}

impl StatsArgs {
    /// Parses the command line `args`, the program name first.
    pub fn parse_from(args: &[&str]) -> (r: Result<StatsArgs, ArgsError>)
        ensures
            r is Ok <==> stats_args_accepted(args@.map_values(|a: &str| a@)),
            r matches Err(e) ==> is_stats_args_error(args@.map_values(|a: &str| a@), e),
    {
        match stats_command_matches(args) {
            Ok(()) => Ok(StatsArgs {  }),
            Err(e) => Err(e),
        }
    }
}

/// How a run of `stats` reports its result.
#[derive(Debug, Clone, Copy, PartialEq, Eq)]
pub enum StatsOutputMode {
    /// A JSON document.
    Json,
    /// Nothing.
    Quiet,
    /// The human-readable report.
    Human,
}

/// Picks the report: JSON when asked for, even in quiet mode; otherwise
/// nothing in quiet mode and the human-readable report else.
pub fn stats_output_mode(json: bool, quiet: bool) -> (mode: StatsOutputMode)
    ensures
        mode == (if json {
            StatsOutputMode::Json
        } else if quiet {
            StatsOutputMode::Quiet
        } else {
            StatsOutputMode::Human
        }),
{
    if json {
        StatsOutputMode::Json
    } else if quiet {
        StatsOutputMode::Quiet
    } else {
        StatsOutputMode::Human
    }
}

/// Index of the last `.` byte in `name`, or -1 when there is none.
pub open spec fn last_dot(name: Seq<u8>) -> int
    decreases name.len(),
{
    if name.len() == 0 {
        -1
    } else if name.last() == 46u8 {
        name.len() - 1
    } else {
        last_dot(name.drop_last())
    }
}

/// The extension of a file name, as `Path::extension` defines it: the bytes
/// after the last `.`, provided that some bytes precede that `.` and that the
/// name is not `..`.
pub open spec fn extension_bytes(name: Seq<u8>) -> Option<Seq<u8>> {
    if name == seq![46u8, 46u8] || last_dot(name) <= 0 {
        None
    } else {
        Some(name.subrange(last_dot(name) + 1, name.len() as int))
    }
}

/// The group a file is counted in: its extension when it has one that is
/// valid UTF-8, `"no_extension"` otherwise.
pub open spec fn extension_key(name: Seq<u8>) -> Seq<char> {
    match extension_bytes(name) {
        Some(ext) => if valid_utf8(ext) {
            decode_utf8(ext)
        } else {
            "no_extension"@
        },
        None => "no_extension"@,
    }
}

/// A directory that the scan never enters: `.libra` or `target`.
pub open spec fn is_ignored_dir_name(name: Seq<u8>) -> bool {
    name == encode_utf8(".libra"@) || name == encode_utf8("target"@)
}

proof fn lemma_last_dot(name: Seq<u8>, i: int)
    requires
        0 <= i <= name.len(),
        forall|k: int| i <= k < name.len() ==> name[k] != 46u8,
        i == 0 || name[i - 1] == 46u8,
    ensures
        last_dot(name) == i - 1,
    decreases name.len(),
{
    if name.len() > 0 && i < name.len() {
        lemma_last_dot(name.drop_last(), i);
    }
}

/// Calls `std::str::from_utf8`. As its documentation says, it succeeds
/// exactly on valid UTF-8 and then returns the text those bytes encode.
#[verifier::external_body]
fn utf8_to_str(bytes: &[u8]) -> (r: Option<&str>)
    ensures
        r is Some <==> valid_utf8(bytes@),
        r matches Some(s) ==> s@ == decode_utf8(bytes@),
{
    std::str::from_utf8(bytes).ok()
}

/// The key under which a file with the given name (its raw bytes) is counted.
pub fn file_extension_key(file_name: &[u8]) -> (key: String)
    ensures
        key@ == extension_key(file_name@),
{
    let n = file_name.len();
    if n == 2 && file_name[0] == 46u8 && file_name[1] == 46u8 {
        assert(file_name@ =~= seq![46u8, 46u8]);
        return "no_extension".to_owned();
    }
    assert(file_name@ != seq![46u8, 46u8]);
    let mut i = n;
    while i > 0 && file_name[i - 1] != 46u8
        invariant
            i <= n,
            n == file_name@.len(),
            forall|k: int| i <= k < n ==> file_name@[k] != 46u8,
        decreases i,
    {
        i = i - 1;
    }
    proof {
        lemma_last_dot(file_name@, i as int);
    }
    if i <= 1 {
        return "no_extension".to_owned();
    }
    let ext = &file_name[i..n];
    match utf8_to_str(ext) {
        Some(s) => s.to_owned(),
        None => "no_extension".to_owned(),
    }
}

/// Whether a directory with the given name is skipped by the scan.
pub fn is_ignored_dir(name: &[u8]) -> (r: bool)
    ensures
        r == is_ignored_dir_name(name@),
{
    bytes_equal(name, ".libra".as_bytes()) || bytes_equal(name, "target".as_bytes())
}

/// Exactly two directory names are skipped, the six bytes `.libra` and the
/// six bytes `target`; every other directory is entered.
pub proof fn lemma_only_two_ignored_dirs(name: Seq<u8>)
    ensures
        is_ignored_dir_name(name) <==> (name == seq![46u8, 108u8, 105u8, 98u8, 114u8, 97u8]
            || name == seq![116u8, 97u8, 114u8, 103u8, 101u8, 116u8]),
{
    reveal_strlit(".libra");
    reveal_strlit("target");
    let l = ".libra"@;
    let t = "target"@;
    assert(is_ascii_chars(l));
    assert(is_ascii_chars(t));
    is_ascii_chars_encode_utf8(l);
    is_ascii_chars_encode_utf8(t);
    assert(encode_utf8(l) =~= seq![46u8, 108u8, 105u8, 98u8, 114u8, 97u8]) by {
        assert(l[0] as u8 == 46u8);
        assert(l[1] as u8 == 108u8);
        assert(l[2] as u8 == 105u8);
        assert(l[3] as u8 == 98u8);
        assert(l[4] as u8 == 114u8);
        assert(l[5] as u8 == 97u8);
    }
    assert(encode_utf8(t) =~= seq![116u8, 97u8, 114u8, 103u8, 101u8, 116u8]) by {
        assert(t[0] as u8 == 116u8);
        assert(t[1] as u8 == 97u8);
        assert(t[2] as u8 == 114u8);
        assert(t[3] as u8 == 103u8);
        assert(t[4] as u8 == 101u8);
        assert(t[5] as u8 == 116u8);
    }
}

/// A name without any `.` has no extension.
pub proof fn lemma_no_dot_no_extension(name: Seq<u8>)
    requires
        forall|i: int| 0 <= i < name.len() ==> name[i] != 46u8,
    ensures
        extension_key(name) == "no_extension"@,
{
    lemma_last_dot(name, 0);
    if name == seq![46u8, 46u8] {
        assert(name[0] == 46u8);
    }
}

/// A name whose only `.` is its first byte (a hidden file such as
/// `.gitignore`) has no extension.
pub proof fn lemma_leading_dot_no_extension(name: Seq<u8>)
    requires
        name.len() > 0,
        name[0] == 46u8,
        forall|i: int| 1 <= i < name.len() ==> name[i] != 46u8,
    ensures
        extension_key(name) == "no_extension"@,
{
    lemma_last_dot(name, 1);
}

/// A file `<stem>.<ext>`, where `ext` holds no `.` and is valid UTF-8 and
/// the stem is not empty, is counted under the text of `ext` (the name `..`
/// excepted).
pub proof fn lemma_extension_after_last_dot(stem: Seq<u8>, ext: Seq<u8>)
    requires
        stem.len() > 0,
        forall|i: int| 0 <= i < ext.len() ==> ext[i] != 46u8,
        valid_utf8(ext),
        !(stem == seq![46u8] && ext.len() == 0),
    ensures
        extension_key(stem + seq![46u8] + ext) == decode_utf8(ext),
{
    let name = stem + seq![46u8] + ext;
    let d: int = stem.len() as int + 1;
    lemma_last_dot(name, d);
    assert(name.subrange(d, name.len() as int) =~= ext);
    if name == seq![46u8, 46u8] {
        assert(stem.len() == 1 && ext.len() == 0);
        assert(stem =~= seq![46u8]);
    }
}

/// What a directory entry is.
#[derive(Debug, Clone, Copy, PartialEq, Eq)]
pub enum EntryKind {
    Directory,
    File,
    /// Neither a directory nor a regular file (a broken link, a socket, ...).
    Other,
}

/// What the scan does with a directory entry.
#[derive(Debug)]
pub enum EntryAction {
    /// Leave it out.
    Skip,
    /// Scan the directory's contents.
    Descend,
    /// Count one file under this extension key.
    Count(String),
}

/// Decides what the scan does with an entry of the given kind and name:
/// directories are entered unless ignored, regular files are counted under
/// their extension key, anything else is left out.
pub fn classify_entry(kind: EntryKind, file_name: &[u8]) -> (action: EntryAction)
    ensures
        match kind {
            EntryKind::Directory => if is_ignored_dir_name(file_name@) {
                action is Skip
            } else {
                action is Descend
            },
            EntryKind::File => action matches EntryAction::Count(key) && key@ == extension_key(
                file_name@,
            ),
            EntryKind::Other => action is Skip,
        },
{
    match kind {
        EntryKind::Directory => if is_ignored_dir(file_name) {
            EntryAction::Skip
        } else {
            EntryAction::Descend
        },
        EntryKind::File => EntryAction::Count(file_extension_key(file_name)),
        EntryKind::Other => EntryAction::Skip,
    }
}

/// A directory entry as the scan sees it: its kind and its name's bytes.
#[derive(Debug)]
pub struct DirEntryInfo {
    pub kind: EntryKind,
    pub name: Vec<u8>,
}

/// Whether the scan enters this entry.
pub open spec fn enters(e: DirEntryInfo) -> bool {
    e.kind == EntryKind::Directory && !is_ignored_dir_name(e.name@)
}

/// The keys of the regular files among `entries`, in order.
pub open spec fn file_keys(entries: Seq<DirEntryInfo>) -> Seq<Seq<char>>
    decreases entries.len(),
{
    if entries.len() == 0 {
        Seq::empty()
    } else if entries.last().kind == EntryKind::File {
        file_keys(entries.drop_last()).push(extension_key(entries.last().name@))
    } else {
        file_keys(entries.drop_last())
    }
}

/// The positions of the directories among `entries` that the scan enters,
/// in order.
pub open spec fn dirs_to_enter(entries: Seq<DirEntryInfo>) -> Seq<int>
    decreases entries.len(),
{
    if entries.len() == 0 {
        Seq::empty()
    } else if enters(entries.last()) {
        dirs_to_enter(entries.drop_last()).push(entries.len() - 1)
    } else {
        dirs_to_enter(entries.drop_last())
    }
}

/// The number of regular files among `entries`.
pub open spec fn file_count(entries: Seq<DirEntryInfo>) -> nat {
    file_keys(entries).len()
}

/// The regular files among `entries`.
pub open spec fn file_entries(entries: Seq<DirEntryInfo>) -> Seq<DirEntryInfo> {
    entries.filter(|e: DirEntryInfo| e.kind == EntryKind::File)
}

/// The regular files among `entries` whose key is `k`.
pub open spec fn file_entries_with_key(entries: Seq<DirEntryInfo>, k: Seq<char>) -> Seq<DirEntryInfo> {
    entries.filter(|e: DirEntryInfo| e.kind == EntryKind::File && extension_key(e.name@) == k)
}

/// Every regular file is counted, whatever its name: there is one key per
/// regular file, and each key occurs once per regular file that has it.
pub proof fn lemma_every_file_counted(entries: Seq<DirEntryInfo>, k: Seq<char>)
    ensures
        file_count(entries) == file_entries(entries).len(),
        occurrences(file_keys(entries), k) == file_entries_with_key(entries, k).len(),
    decreases entries.len(),
{
    reveal(Seq::filter);
    if entries.len() > 0 {
        lemma_every_file_counted(entries.drop_last(), k);
        let rest = file_keys(entries.drop_last());
        if entries.last().kind == EntryKind::File {
            assert(rest.push(extension_key(entries.last().name@)).drop_last() =~= rest);
        }
    }
}

proof fn lemma_file_count_prefix(entries: Seq<DirEntryInfo>, i: int)
    requires
        0 <= i <= entries.len(),
    ensures
        file_count(entries.take(i)) <= file_count(entries),
    decreases entries.len(),
{
    if i < entries.len() {
        assert(entries.take(i) =~= entries.drop_last().take(i));
        lemma_file_count_prefix(entries.drop_last(), i);
    } else {
        assert(entries.take(i) =~= entries);
    }
}

proof fn lemma_file_count_le_len(entries: Seq<DirEntryInfo>)
    ensures
        file_count(entries) <= entries.len(),
    decreases entries.len(),
{
    if entries.len() > 0 {
        lemma_file_count_le_len(entries.drop_last());
    }
}

/// The number of regular files among `entries`.
pub fn count_file_entries(entries: &Vec<DirEntryInfo>) -> (n: usize)
    ensures
        n == file_count(entries@),
{
    let mut n: usize = 0;
    let mut i: usize = 0;
    assert(entries@.take(0) =~= Seq::<DirEntryInfo>::empty());
    while i < entries.len()
        invariant
            i <= entries@.len(),
            n == file_count(entries@.take(i as int)),
        decreases entries@.len() - i,
    {
        assert(entries@.take(i + 1).drop_last() =~= entries@.take(i as int));
        proof {
            lemma_file_count_le_len(entries@.take(i + 1));
        }
        if matches!(entries[i].kind, EntryKind::File) {
            n = n + 1;
        }
        i = i + 1;
    }
    assert(entries@.take(entries@.len() as int) =~= entries@);
    n
}

/// Scans the entries of one directory: counts each regular file under its
/// extension key and returns, in order, the positions of the directories to
/// enter next (those not named `.libra` or `target`). Every key's count
/// grows by the number of files in `entries` that have it.
pub fn scan_directory(counts: &mut ExtensionCounts, entries: &Vec<DirEntryInfo>) -> (enter: Vec<usize>)
    requires
        old(counts).total() + file_count(entries@) <= usize::MAX,
    ensures
        final(counts)@ == record_all(old(counts)@, file_keys(entries@)),
        final(counts).total() == old(counts).total() + file_count(entries@),
        forall|k: Seq<char>|
            #![trigger key_count(final(counts)@, k)]
            key_count(final(counts)@, k) == key_count(old(counts)@, k) + occurrences(
                file_keys(entries@),
                k,
            ),
        forall|k: Seq<char>|
            #[trigger] final(counts)@.contains_key(k) <==> (old(counts)@.contains_key(k)
                || occurrences(file_keys(entries@), k) > 0),
        enter@.len() == dirs_to_enter(entries@).len(),
        forall|j: int| 0 <= j < enter@.len() ==> enter@[j] as int == #[trigger] dirs_to_enter(entries@)[j],
{
    let ghost start = counts@;
    let ghost start_total = counts.total();
    let mut enter: Vec<usize> = Vec::new();
    let mut i: usize = 0;
    assert(entries@.take(0) =~= Seq::<DirEntryInfo>::empty());
    while i < entries.len()
        invariant
            i <= entries@.len(),
            start_total + file_count(entries@) <= usize::MAX,
            counts@ == record_all(start, file_keys(entries@.take(i as int))),
            counts.total() == start_total + file_count(entries@.take(i as int)),
            enter@.len() == dirs_to_enter(entries@.take(i as int)).len(),
            forall|j: int|
                0 <= j < enter@.len() ==> enter@[j] as int == #[trigger] dirs_to_enter(
                    entries@.take(i as int),
                )[j],
        decreases entries@.len() - i,
    {
        let ghost prefix = entries@.take(i + 1);
        assert(prefix.drop_last() =~= entries@.take(i as int));
        assert(prefix.last() == entries@[i as int]);
        proof {
            lemma_file_count_prefix(entries@, i + 1);
        }
        let ghost ks = file_keys(entries@.take(i as int));
        let ghost ds = dirs_to_enter(entries@.take(i as int));
        match classify_entry(entries[i].kind, entries[i].name.as_slice()) {
            EntryAction::Skip => {},
            EntryAction::Descend => {
                enter.push(i);
            },
            EntryAction::Count(key) => {
                counts.record(key);
                assert(file_keys(prefix) == ks.push(key@));
                assert(ks.push(key@).drop_last() =~= ks);
            },
        }
        i = i + 1;
    }
    assert(entries@.take(entries@.len() as int) =~= entries@);
    proof {
        assert forall|k: Seq<char>| #[trigger] key_count(counts@, k) == key_count(start, k) + occurrences(
            file_keys(entries@),
            k,
        ) by {
            lemma_record_all(start, file_keys(entries@), k);
        }
        assert forall|k: Seq<char>| #[trigger] counts@.contains_key(k) <==> (start.contains_key(k)
            || occurrences(file_keys(entries@), k) > 0) by {
            lemma_record_all(start, file_keys(entries@), k);
        }
    }
    enter
}

/// One extension with the number of files counted under it.
#[derive(Debug, Clone)]
pub struct ExtensionGroup {
    pub extension: String,
    pub count: usize,
}

/// The result of a scan: the number of files and their groups.
#[derive(Debug, Clone)]
pub struct StatsOutput {
    pub total_files: usize,
    pub groups: Vec<ExtensionGroup>,
}

/// `a` is listed before `b`: it has more files, or as many files and an
/// extension that sorts first (byte by byte, as Rust compares strings).
pub open spec fn group_precedes(a: ExtensionGroup, b: ExtensionGroup) -> bool {
    ||| a.count > b.count
    ||| (a.count == b.count && bytes_lt(encode_utf8(a.extension@), encode_utf8(b.extension@)))
}

/// Every group is listed before all groups that follow it.
pub open spec fn groups_sorted(gs: Seq<ExtensionGroup>) -> bool {
    forall|i: int, j: int| 0 <= i < j < gs.len() ==> #[trigger] group_precedes(gs[i], gs[j])
}

/// No extension has two groups.
pub open spec fn distinct_extensions(gs: Seq<ExtensionGroup>) -> bool {
    forall|i: int, j: int|
        0 <= i < gs.len() && 0 <= j < gs.len() && i != j ==> #[trigger] gs[i].extension@
            != #[trigger] gs[j].extension@
}

/// The number of files over all groups.
pub open spec fn sum_counts(gs: Seq<ExtensionGroup>) -> nat
    decreases gs.len(),
{
    if gs.len() == 0 {
        0
    } else {
        sum_counts(gs.drop_last()) + gs.last().count as nat
    }
}

/// Whether group `i` of `gs` has extension `k`.
pub open spec fn group_has_key(gs: Seq<ExtensionGroup>, i: int, k: Seq<char>) -> bool {
    0 <= i < gs.len() && gs[i].extension@ == k
}

/// The count of each extension that has a group.
pub open spec fn groups_map(gs: Seq<ExtensionGroup>) -> Map<Seq<char>, nat> {
    Map::new(
        |k: Seq<char>| exists|i: int| #[trigger] group_has_key(gs, i, k),
        |k: Seq<char>| gs[choose|i: int| #[trigger] group_has_key(gs, i, k)].count as nat,
    )
}

proof fn lemma_groups_map_at(gs: Seq<ExtensionGroup>, i: int)
    requires
        distinct_extensions(gs),
        0 <= i < gs.len(),
    ensures
        groups_map(gs).contains_key(gs[i].extension@),
        groups_map(gs)[gs[i].extension@] == gs[i].count,
{
    let k = gs[i].extension@;
    assert(group_has_key(gs, i, k));
    let j = choose|j: int| #[trigger] group_has_key(gs, j, k);
    assert(j == i);
}

proof fn lemma_groups_map_update(gs: Seq<ExtensionGroup>, i: int, g: ExtensionGroup)
    requires
        distinct_extensions(gs),
        0 <= i < gs.len(),
        g.extension@ == gs[i].extension@,
    ensures
        distinct_extensions(gs.update(i, g)),
        groups_map(gs.update(i, g)) =~= groups_map(gs).insert(g.extension@, g.count as nat),
{
    let ns = gs.update(i, g);
    assert(distinct_extensions(ns)) by {
        assert forall|a: int, b: int|
            0 <= a < ns.len() && 0 <= b < ns.len() && a != b implies #[trigger] ns[a].extension@
            != #[trigger] ns[b].extension@ by {
            assert(gs[a].extension@ != gs[b].extension@);
        }
    }
    let m1 = groups_map(ns);
    let m2 = groups_map(gs).insert(g.extension@, g.count as nat);
    assert forall|k: Seq<char>| #[trigger] m1.contains_key(k) <==> m2.contains_key(k) by {
        if m1.contains_key(k) {
            let j = choose|j: int| #[trigger] group_has_key(ns, j, k);
            if j != i {
                assert(group_has_key(gs, j, k));
            }
        }
        if m2.contains_key(k) && k != g.extension@ {
            let j = choose|j: int| #[trigger] group_has_key(gs, j, k);
            assert(group_has_key(ns, j, k));
        }
        if k == g.extension@ {
            assert(group_has_key(ns, i, k));
        }
    }
    assert forall|k: Seq<char>| m1.contains_key(k) implies #[trigger] m1[k] == m2[k] by {
        let j = choose|j: int| #[trigger] group_has_key(ns, j, k);
        lemma_groups_map_at(ns, j);
        if j != i {
            lemma_groups_map_at(gs, j);
        }
    }
}

proof fn lemma_groups_map_push(gs: Seq<ExtensionGroup>, g: ExtensionGroup)
    requires
        distinct_extensions(gs),
        !groups_map(gs).contains_key(g.extension@),
    ensures
        distinct_extensions(gs.push(g)),
        groups_map(gs.push(g)) =~= groups_map(gs).insert(g.extension@, g.count as nat),
{
    let ns = gs.push(g);
    assert(distinct_extensions(ns)) by {
        assert forall|a: int, b: int|
            0 <= a < ns.len() && 0 <= b < ns.len() && a != b implies #[trigger] ns[a].extension@
            != #[trigger] ns[b].extension@ by {
            if a == gs.len() {
                assert(group_has_key(gs, b, ns[b].extension@));
            } else if b == gs.len() {
                assert(group_has_key(gs, a, ns[a].extension@));
            }
        }
    }
    let m1 = groups_map(ns);
    let m2 = groups_map(gs).insert(g.extension@, g.count as nat);
    assert forall|k: Seq<char>| #[trigger] m1.contains_key(k) <==> m2.contains_key(k) by {
        if m1.contains_key(k) {
            let j = choose|j: int| #[trigger] group_has_key(ns, j, k);
            if j < gs.len() {
                assert(group_has_key(gs, j, k));
            }
        }
        if m2.contains_key(k) && k != g.extension@ {
            let j = choose|j: int| #[trigger] group_has_key(gs, j, k);
            assert(group_has_key(ns, j, k));
        }
        if k == g.extension@ {
            assert(group_has_key(ns, gs.len() as int, k));
        }
    }
    assert forall|k: Seq<char>| m1.contains_key(k) implies #[trigger] m1[k] == m2[k] by {
        let j = choose|j: int| #[trigger] group_has_key(ns, j, k);
        lemma_groups_map_at(ns, j);
        if j < gs.len() {
            lemma_groups_map_at(gs, j);
        }
    }
}

proof fn lemma_sum_update(gs: Seq<ExtensionGroup>, i: int, g: ExtensionGroup)
    requires
        0 <= i < gs.len(),
    ensures
        sum_counts(gs.update(i, g)) + gs[i].count == sum_counts(gs) + g.count,
    decreases gs.len(),
{
    if i == gs.len() - 1 {
        assert(gs.update(i, g).drop_last() =~= gs.drop_last());
    } else {
        assert(gs.update(i, g).drop_last() =~= gs.drop_last().update(i, g));
        lemma_sum_update(gs.drop_last(), i, g);
    }
}

proof fn lemma_sum_remove(gs: Seq<ExtensionGroup>, i: int)
    requires
        0 <= i < gs.len(),
    ensures
        sum_counts(gs.remove(i)) + gs[i].count == sum_counts(gs),
    decreases gs.len(),
{
    if i == gs.len() - 1 {
        assert(gs.remove(i) =~= gs.drop_last());
    } else {
        assert(gs.remove(i).drop_last() =~= gs.drop_last().remove(i));
        lemma_sum_remove(gs.drop_last(), i);
    }
}

proof fn lemma_count_le_sum(gs: Seq<ExtensionGroup>, i: int)
    requires
        0 <= i < gs.len(),
    ensures
        gs[i].count <= sum_counts(gs),
    decreases gs.len(),
{
    if i < gs.len() - 1 {
        lemma_count_le_sum(gs.drop_last(), i);
    }
}

proof fn lemma_sum_push(gs: Seq<ExtensionGroup>, g: ExtensionGroup)
    ensures
        sum_counts(gs.push(g)) == sum_counts(gs) + g.count,
{
    assert(gs.push(g).drop_last() =~= gs);
}

/// The number of files counted under `k` in `m`, 0 when `k` is absent.
pub open spec fn key_count(m: Map<Seq<char>, nat>, k: Seq<char>) -> nat {
    if m.contains_key(k) {
        m[k]
    } else {
        0
    }
}

/// The counts after one more file with key `k`.
pub open spec fn record_key(m: Map<Seq<char>, nat>, k: Seq<char>) -> Map<Seq<char>, nat> {
    m.insert(k, key_count(m, k) + 1)
}

/// The counts after one more file for each key of `keys`, in order.
pub open spec fn record_all(m: Map<Seq<char>, nat>, keys: Seq<Seq<char>>) -> Map<Seq<char>, nat>
    decreases keys.len(),
{
    if keys.len() == 0 {
        m
    } else {
        record_key(record_all(m, keys.drop_last()), keys.last())
    }
}

/// How often `k` occurs in `keys`.
pub open spec fn occurrences(keys: Seq<Seq<char>>, k: Seq<char>) -> nat
    decreases keys.len(),
{
    if keys.len() == 0 {
        0
    } else {
        occurrences(keys.drop_last(), k) + if keys.last() == k {
            1nat
        } else {
            0nat
        }
    }
}

/// Counting a list of files: each key's count grows by the number of files
/// that have it, and the keys counted are those seen before or in the list.
pub proof fn lemma_record_all(m: Map<Seq<char>, nat>, keys: Seq<Seq<char>>, k: Seq<char>)
    ensures
        key_count(record_all(m, keys), k) == key_count(m, k) + occurrences(keys, k),
        record_all(m, keys).contains_key(k) <==> (m.contains_key(k) || occurrences(keys, k) > 0),
    decreases keys.len(),
{
    if keys.len() > 0 {
        lemma_record_all(m, keys.drop_last(), k);
    }
}

/// Per-extension file counts gathered during a scan. Each extension has at
/// most one group, and the running total is the sum of all counts.
pub struct ExtensionCounts {
    groups: Vec<ExtensionGroup>,
    total: usize,
}

impl View for ExtensionCounts {
    type V = Map<Seq<char>, nat>;

    /// The number of files counted under each extension seen so far.
    closed spec fn view(&self) -> Map<Seq<char>, nat> {
        groups_map(self.groups@)
    }
}

impl ExtensionCounts {
    #[verifier::type_invariant]
    spec fn well_formed(self) -> bool {
        &&& distinct_extensions(self.groups@)
        &&& self.total == sum_counts(self.groups@)
        &&& forall|i: int| 0 <= i < self.groups@.len() ==> #[trigger] self.groups@[i].count >= 1
    }

    /// The number of files counted so far.
    pub closed spec fn total(self) -> nat {
        self.total as nat
    }

    /// No files counted yet.
    pub fn new() -> (r: ExtensionCounts)
        ensures
            r@ == Map::<Seq<char>, nat>::empty(),
            r.total() == 0,
    {
        let r = ExtensionCounts { groups: Vec::new(), total: 0 };
        assert(r@ =~= Map::<Seq<char>, nat>::empty());
        r
    }

    /// The number of files counted so far.
    pub fn total_files(&self) -> (n: usize)
        ensures
            n == self.total(),
    {
        self.total
    }

    /// The number of files counted under `key` so far.
    pub fn count_of(&self, key: &String) -> (n: usize)
        ensures
            n == (if self@.contains_key(key@) {
                self@[key@]
            } else {
                0
            }),
    {
        proof {
            use_type_invariant(self);
        }
        let mut i: usize = 0;
        while i < self.groups.len()
            invariant
                i <= self.groups@.len(),
                distinct_extensions(self.groups@),
                forall|j: int| 0 <= j < i ==> self.groups@[j].extension@ != key@,
            decreases self.groups@.len() - i,
        {
            if self.groups[i].extension == *key {
                proof {
                    lemma_groups_map_at(self.groups@, i as int);
                }
                return self.groups[i].count;
            }
            i = i + 1;
        }
        proof {
            if self@.contains_key(key@) {
                let j = choose|j: int| #[trigger] group_has_key(self.groups@, j, key@);
                assert(self.groups@[j].extension@ == key@);
            }
        }
        0
    }

    /// Counts one more file under `key`.
    pub fn record(&mut self, key: String)
        requires
            old(self).total() < usize::MAX,
        ensures
            final(self)@ == record_key(old(self)@, key@),
            final(self).total() == old(self).total() + 1,
            forall|k: Seq<char>| #[trigger] final(self)@.contains_key(k) ==> final(self)@[k] >= 1,
    {
        proof {
            use_type_invariant(&*self);
        }
        let mut taken = ExtensionCounts::new();
        std::mem::swap(&mut taken, self);
        proof {
            use_type_invariant(&taken);
        }
        let ghost old_map = taken@;
        let total = taken.total;
        let mut groups = taken.groups;
        let ghost gs = groups@;
        let mut i: usize = 0;
        while i < groups.len()
            invariant
                groups@ == gs,
                i <= gs.len(),
                forall|j: int| 0 <= j < i ==> gs[j].extension@ != key@,
            ensures
                i <= gs.len(),
                forall|j: int| 0 <= j < i ==> gs[j].extension@ != key@,
                i < gs.len() ==> gs[i as int].extension@ == key@,
            decreases gs.len() - i,
        {
            if groups[i].extension == key {
                break;
            }
            i = i + 1;
        }
        if i < groups.len() {
            let c = groups[i].count;
            proof {
                lemma_count_le_sum(gs, i as int);
                lemma_groups_map_at(gs, i as int);
            }
            let g = ExtensionGroup { extension: key, count: c + 1 };
            proof {
                lemma_sum_update(gs, i as int, g);
                lemma_groups_map_update(gs, i as int, g);
            }
            groups.set(i, g);
        } else {
            let g = ExtensionGroup { extension: key, count: 1 };
            proof {
                if groups_map(gs).contains_key(g.extension@) {
                    let j = choose|j: int| #[trigger] group_has_key(gs, j, g.extension@);
                    assert(gs[j].extension@ == key@);
                }
                lemma_sum_push(gs, g);
                lemma_groups_map_push(gs, g);
            }
            groups.push(g);
        }
        proof {
            assert forall|k: Seq<char>| #[trigger] groups_map(groups@).contains_key(k) implies groups_map(
                groups@,
            )[k] >= 1 by {
                let j = choose|j: int| #[trigger] group_has_key(groups@, j, k);
                lemma_groups_map_at(groups@, j);
            }
        }
        *self = ExtensionCounts { groups, total: total + 1 };
    }
}

/// No group is listed before itself.
pub proof fn lemma_group_precedes_irreflexive(a: ExtensionGroup)
    ensures
        !group_precedes(a, a),
{
    lemma_bytes_lt_irreflexive(encode_utf8(a.extension@));
}

/// Listing order is transitive.
pub proof fn lemma_group_precedes_transitive(a: ExtensionGroup, b: ExtensionGroup, c: ExtensionGroup)
    requires
        group_precedes(a, b),
        group_precedes(b, c),
    ensures
        group_precedes(a, c),
{
    if a.count == b.count && b.count == c.count {
        lemma_bytes_lt_transitive(
            encode_utf8(a.extension@),
            encode_utf8(b.extension@),
            encode_utf8(c.extension@),
        );
    }
}

/// Groups of different extensions are listed in one order or the other.
pub proof fn lemma_group_precedes_total(a: ExtensionGroup, b: ExtensionGroup)
    requires
        a.extension@ != b.extension@,
    ensures
        group_precedes(a, b) || group_precedes(b, a),
{
    if a.count == b.count {
        assert(decode_utf8(encode_utf8(a.extension@)) == a.extension@);
        assert(decode_utf8(encode_utf8(b.extension@)) == b.extension@);
        lemma_bytes_lt_total(encode_utf8(a.extension@), encode_utf8(b.extension@));
    }
}

/// Whether group `a` is listed before group `b`.
fn precedes(a: &ExtensionGroup, b: &ExtensionGroup) -> (r: bool)
    ensures
        r == group_precedes(*a, *b),
{
    if a.count != b.count {
        a.count > b.count
    } else {
        bytes_less(a.extension.as_str().as_bytes(), b.extension.as_str().as_bytes())
    }
}

/// Index of the group that is listed before every other one.
fn index_of_first(gs: &Vec<ExtensionGroup>) -> (m: usize)
    requires
        gs@.len() > 0,
        distinct_extensions(gs@),
    ensures
        m < gs@.len(),
        forall|j: int| 0 <= j < gs@.len() && j != m ==> group_precedes(gs@[m as int], #[trigger] gs@[j]),
{
    let mut m: usize = 0;
    let mut j: usize = 1;
    while j < gs.len()
        invariant
            m < j <= gs@.len(),
            distinct_extensions(gs@),
            forall|k: int| 0 <= k < j && k != m ==> group_precedes(gs@[m as int], #[trigger] gs@[k]),
        decreases gs@.len() - j,
    {
        if precedes(&gs[j], &gs[m]) {
            proof {
                assert forall|k: int| 0 <= k < j + 1 && k != j implies group_precedes(
                    gs@[j as int],
                    #[trigger] gs@[k],
                ) by {
                    if k != m {
                        lemma_group_precedes_transitive(gs@[j as int], gs@[m as int], gs@[k]);
                    }
                }
            }
            m = j;
        } else {
            proof {
                assert(gs@[j as int].extension@ != gs@[m as int].extension@);
                lemma_group_precedes_total(gs@[j as int], gs@[m as int]);
            }
        }
        j = j + 1;
    }
    m
}

/// What a group says: its extension and its count.
pub open spec fn group_view(g: ExtensionGroup) -> (Seq<char>, nat) {
    (g.extension@, g.count as nat)
}

/// `gs` lists `counts`: one group per counted extension, with its count, in
/// listing order.
pub open spec fn is_summary_of(counts: Map<Seq<char>, nat>, gs: Seq<ExtensionGroup>) -> bool {
    &&& groups_sorted(gs)
    &&& distinct_extensions(gs)
    &&& forall|i: int|
        0 <= i < gs.len() ==> counts.contains_key(#[trigger] gs[i].extension@) && counts[gs[i].extension@]
            == gs[i].count
    &&& forall|k: Seq<char>|
        counts.contains_key(k) ==> exists|i: int| 0 <= i < gs.len() && #[trigger] gs[i].extension@ == k
}

/// The listing is determined by the counts alone: whatever order the files
/// were counted in, the groups come out the same, in the same order.
pub proof fn lemma_summary_unique(
    counts: Map<Seq<char>, nat>,
    a: Seq<ExtensionGroup>,
    b: Seq<ExtensionGroup>,
)
    requires
        is_summary_of(counts, a),
        is_summary_of(counts, b),
    ensures
        a.map_values(|g: ExtensionGroup| group_view(g)) =~= b.map_values(
            |g: ExtensionGroup| group_view(g),
        ),
    decreases a.len(),
{
    if a.len() == 0 {
        if b.len() > 0 {
            assert(counts.contains_key(b[0].extension@));
        }
    } else {
        assert(counts.contains_key(a[0].extension@));
        let k = a[0].extension@;
        let j = choose|j: int| 0 <= j < b.len() && #[trigger] b[j].extension@ == k;
        if j != 0 {
            assert(counts.contains_key(b[0].extension@));
            let k0 = b[0].extension@;
            let i = choose|i: int| 0 <= i < a.len() && #[trigger] a[i].extension@ == k0;
            assert(i != 0);
            assert(group_precedes(a[0], a[i]));
            assert(group_precedes(b[0], b[j]));
            assert(group_precedes(b[j], b[0]));
            lemma_group_precedes_transitive(b[0], b[j], b[0]);
            lemma_group_precedes_irreflexive(b[0]);
        }
        let m2 = counts.remove(k);
        let a2 = a.drop_first();
        let b2 = b.drop_first();
        assert forall|i: int| 0 <= i < a2.len() implies m2.contains_key(#[trigger] a2[i].extension@)
            && m2[a2[i].extension@] == a2[i].count by {
            assert(a[i + 1].extension@ != a[0].extension@);
        }
        assert forall|i: int| 0 <= i < b2.len() implies m2.contains_key(#[trigger] b2[i].extension@)
            && m2[b2[i].extension@] == b2[i].count by {
            assert(b[i + 1].extension@ != b[0].extension@);
        }
        assert forall|k2: Seq<char>| m2.contains_key(k2) implies exists|i: int|
            0 <= i < a2.len() && #[trigger] a2[i].extension@ == k2 by {
            let i = choose|i: int| 0 <= i < a.len() && #[trigger] a[i].extension@ == k2;
            assert(a2[i - 1].extension@ == k2);
        }
        assert forall|k2: Seq<char>| m2.contains_key(k2) implies exists|i: int|
            0 <= i < b2.len() && #[trigger] b2[i].extension@ == k2 by {
            let i = choose|i: int| 0 <= i < b.len() && #[trigger] b[i].extension@ == k2;
            assert(b2[i - 1].extension@ == k2);
        }
        assert(groups_sorted(a2)) by {
            assert forall|x: int, y: int| 0 <= x < y < a2.len() implies #[trigger] group_precedes(
                a2[x],
                a2[y],
            ) by {
                assert(group_precedes(a[x + 1], a[y + 1]));
            }
        }
        assert(groups_sorted(b2)) by {
            assert forall|x: int, y: int| 0 <= x < y < b2.len() implies #[trigger] group_precedes(
                b2[x],
                b2[y],
            ) by {
                assert(group_precedes(b[x + 1], b[y + 1]));
            }
        }
        assert(distinct_extensions(a2)) by {
            assert forall|x: int, y: int|
                0 <= x < a2.len() && 0 <= y < a2.len() && x != y implies #[trigger] a2[x].extension@
                != #[trigger] a2[y].extension@ by {
                assert(a[x + 1].extension@ != a[y + 1].extension@);
            }
        }
        assert(distinct_extensions(b2)) by {
            assert forall|x: int, y: int|
                0 <= x < b2.len() && 0 <= y < b2.len() && x != y implies #[trigger] b2[x].extension@
                != #[trigger] b2[y].extension@ by {
                assert(b[x + 1].extension@ != b[y + 1].extension@);
            }
        }
        lemma_summary_unique(m2, a2, b2);
        let fa = a.map_values(|g: ExtensionGroup| group_view(g));
        let fb = b.map_values(|g: ExtensionGroup| group_view(g));
        let fa2 = a2.map_values(|g: ExtensionGroup| group_view(g));
        let fb2 = b2.map_values(|g: ExtensionGroup| group_view(g));
        assert forall|i: int| 0 <= i < fa.len() implies fa[i] == fb[i] by {
            if i > 0 {
                assert(fa[i] == fa2[i - 1]);
                assert(fb[i] == fb2[i - 1]);
            }
        }
    }
}

/// Lists the counted extensions: one group per extension, sorted by file
/// count (largest first) and then by extension, and the total number of
/// files.
pub fn summarize(counts: ExtensionCounts) -> (out: StatsOutput)
    ensures
        is_summary_of(counts@, out.groups@),
        out.total_files == counts.total(),
        out.total_files == sum_counts(out.groups@),
        forall|i: int| 0 <= i < out.groups@.len() ==> #[trigger] out.groups@[i].count >= 1,
        out.groups@.len() == 0 <==> out.total_files == 0,
{
    proof {
        use_type_invariant(&counts);
    }
    let ghost input = counts.groups@;
    let total = counts.total;
    let mut rest = counts.groups;
    let mut sorted: Vec<ExtensionGroup> = Vec::new();
    while rest.len() > 0
        invariant
            distinct_extensions(input),
            total == sum_counts(input),
            forall|i: int| 0 <= i < input.len() ==> #[trigger] input[i].count >= 1,
            distinct_extensions(rest@),
            groups_sorted(sorted@),
            forall|i: int, j: int|
                0 <= i < sorted@.len() && 0 <= j < rest@.len() ==> group_precedes(
                    #[trigger] sorted@[i],
                    #[trigger] rest@[j],
                ),
            forall|x: ExtensionGroup| #[trigger]
                input.contains(x) <==> sorted@.contains(x) || rest@.contains(x),
            sum_counts(sorted@) + sum_counts(rest@) == sum_counts(input),
        decreases rest@.len(),
    {
        let ghost old_rest = rest@;
        let ghost old_sorted = sorted@;
        let m = index_of_first(&rest);
        let g = rest.remove(m);
        proof {
            lemma_sum_remove(old_rest, m as int);
            lemma_sum_push(old_sorted, g);
            assert forall|a: int, b: int|
                0 <= a < rest@.len() && 0 <= b < rest@.len() && a != b implies #[trigger] rest@[a].extension@
                != #[trigger] rest@[b].extension@ by {
                let a2 = if a < m { a } else { a + 1 };
                let b2 = if b < m { b } else { b + 1 };
                assert(rest@[a] == old_rest[a2]);
                assert(rest@[b] == old_rest[b2]);
            }
            assert forall|x: ExtensionGroup| #[trigger]
                input.contains(x) <==> sorted@.push(g).contains(x) || rest@.contains(x) by {
                if old_sorted.contains(x) {
                    let j = choose|j: int| 0 <= j < old_sorted.len() && old_sorted[j] == x;
                    assert(sorted@.push(g)[j] == x);
                }
                if old_rest.contains(x) {
                    let j = choose|j: int| 0 <= j < old_rest.len() && old_rest[j] == x;
                    if j < m {
                        assert(rest@[j] == x);
                    } else if j > m {
                        assert(rest@[j - 1] == x);
                    } else {
                        assert(sorted@.push(g)[sorted@.len() as int] == x);
                    }
                }
                if rest@.contains(x) {
                    let j = choose|j: int| 0 <= j < rest@.len() && rest@[j] == x;
                    if j < m {
                        assert(old_rest[j] == x);
                    } else {
                        assert(old_rest[j + 1] == x);
                    }
                }
                if sorted@.push(g).contains(x) {
                    let j = choose|j: int| 0 <= j < sorted@.push(g).len() && sorted@.push(g)[j] == x;
                    if j < sorted@.len() {
                        assert(sorted@[j] == x);
                    } else {
                        assert(old_rest[m as int] == x);
                    }
                }
            }
            assert forall|i: int, j: int|
                0 <= i < sorted@.push(g).len() && 0 <= j < rest@.len() implies group_precedes(
                #[trigger] sorted@.push(g)[i],
                #[trigger] rest@[j],
            ) by {
                let j2 = if j < m { j } else { j + 1 };
                assert(rest@[j] == old_rest[j2]);
                if i == sorted@.len() {
                } else {
                    assert(sorted@.push(g)[i] == sorted@[i]);
                }
            }
            assert forall|i: int, j: int| 0 <= i < j < sorted@.push(g).len() implies #[trigger] group_precedes(
                sorted@.push(g)[i],
                sorted@.push(g)[j],
            ) by {
                if j == sorted@.len() {
                    assert(sorted@.push(g)[i] == sorted@[i]);
                    assert(group_precedes(sorted@[i], old_rest[m as int]));
                } else {
                    assert(sorted@.push(g)[i] == sorted@[i]);
                    assert(sorted@.push(g)[j] == sorted@[j]);
                }
            }
        }
        sorted.push(g);
    }
    proof {
        let gs = sorted@;
        assert forall|i: int, j: int|
            0 <= i < gs.len() && 0 <= j < gs.len() && i != j implies #[trigger] gs[i].extension@
            != #[trigger] gs[j].extension@ by {
            assert(input.contains(gs[i]));
            assert(input.contains(gs[j]));
            let a = choose|a: int| 0 <= a < input.len() && input[a] == gs[i];
            let b = choose|b: int| 0 <= b < input.len() && input[b] == gs[j];
            if a == b {
                if i < j {
                    assert(group_precedes(gs[i], gs[j]));
                } else {
                    assert(group_precedes(gs[j], gs[i]));
                }
                lemma_group_precedes_irreflexive(gs[i]);
            }
        }
        assert forall|i: int| 0 <= i < gs.len() implies counts@.contains_key(#[trigger] gs[i].extension@)
            && counts@[gs[i].extension@] == gs[i].count by {
            assert(input.contains(gs[i]));
            let a = choose|a: int| 0 <= a < input.len() && input[a] == gs[i];
            lemma_groups_map_at(input, a);
        }
        assert forall|k: Seq<char>| counts@.contains_key(k) implies exists|i: int|
            0 <= i < gs.len() && #[trigger] gs[i].extension@ == k by {
            let a = choose|a: int| #[trigger] group_has_key(input, a, k);
            assert(input.contains(input[a]));
            let i = choose|i: int| 0 <= i < gs.len() && gs[i] == input[a];
            assert(gs[i].extension@ == k);
        }
        assert forall|i: int| 0 <= i < gs.len() implies #[trigger] gs[i].count >= 1 by {
            assert(input.contains(gs[i]));
            let a = choose|a: int| 0 <= a < input.len() && input[a] == gs[i];
            assert(input[a].count >= 1);
        }
        if gs.len() > 0 {
            lemma_count_le_sum(gs, 0);
        }
    }
    StatsOutput { total_files: total, groups: sorted }
}

/// The count listed for extension `k` in `gs`, 0 when `k` is not listed.
pub open spec fn listed_count(gs: Seq<ExtensionGroup>, k: Seq<char>) -> nat {
    if exists|i: int| #[trigger] group_has_key(gs, i, k) {
        gs[choose|i: int| #[trigger] group_has_key(gs, i, k)].count as nat
    } else {
        0
    }
}

/// A summary lists for each extension exactly its count.
pub proof fn lemma_listed_count(counts: Map<Seq<char>, nat>, gs: Seq<ExtensionGroup>, k: Seq<char>)
    requires
        is_summary_of(counts, gs),
    ensures
        listed_count(gs, k) == key_count(counts, k),
{
    if exists|i: int| #[trigger] group_has_key(gs, i, k) {
        let i = choose|i: int| #[trigger] group_has_key(gs, i, k);
        assert(gs[i].extension@ == k);
    } else if counts.contains_key(k) {
        let i = choose|i: int| 0 <= i < gs.len() && #[trigger] gs[i].extension@ == k;
        assert(group_has_key(gs, i, k));
    }
}

/// One more file changes the listing only in its own extension, whose count
/// grows by one.
pub proof fn lemma_summary_after_record(
    counts: Map<Seq<char>, nat>,
    before: Seq<ExtensionGroup>,
    after: Seq<ExtensionGroup>,
    k: Seq<char>,
    x: Seq<char>,
)
    requires
        is_summary_of(counts, before),
        is_summary_of(record_key(counts, k), after),
    ensures
        listed_count(after, k) == listed_count(before, k) + 1,
        x != k ==> listed_count(after, x) == listed_count(before, x),
{
    lemma_listed_count(counts, before, k);
    lemma_listed_count(record_key(counts, k), after, k);
    lemma_listed_count(counts, before, x);
    lemma_listed_count(record_key(counts, k), after, x);
}

/// The listing of a scan gives every extension the number of counted files
/// that have it.
pub proof fn lemma_summary_of_scan(keys: Seq<Seq<char>>, gs: Seq<ExtensionGroup>, k: Seq<char>)
    requires
        is_summary_of(record_all(Map::empty(), keys), gs),
    ensures
        listed_count(gs, k) == occurrences(keys, k),
{
    lemma_record_all(Map::empty(), keys, k);
    lemma_listed_count(record_all(Map::empty(), keys), gs, k);
}

/// The largest count of any group, 0 when there is none.
pub open spec fn max_count(gs: Seq<ExtensionGroup>) -> nat
    decreases gs.len(),
{
    if gs.len() == 0 {
        0
    } else if gs.last().count > max_count(gs.drop_last()) {
        gs.last().count as nat
    } else {
        max_count(gs.drop_last())
    }
}

/// Width of the count column: the digits of the largest count, at least 4.
pub open spec fn count_width(gs: Seq<ExtensionGroup>) -> nat {
    let d = decimal_text(max_count(gs)).len();
    if d > 4 {
        d
    } else {
        4
    }
}

/// One line of the table: the count right-aligned in the count column, two
/// spaces, the extension.
pub open spec fn group_line(g: ExtensionGroup, width: nat) -> Seq<char> {
    pad_left(decimal_text(g.count as nat), width) + "  "@ + g.extension@ + "\n"@
}

/// The lines of all groups, in order.
pub open spec fn group_lines(gs: Seq<ExtensionGroup>, width: nat) -> Seq<char>
    decreases gs.len(),
{
    if gs.len() == 0 {
        Seq::empty()
    } else {
        group_lines(gs.drop_last(), width) + group_line(gs.last(), width)
    }
}

/// The human-readable report:
///
/// ```text
/// Total files: <N>
///
///   <count>  <extension>
///   ...
/// ```
pub open spec fn rendered_stats(stats: StatsOutput) -> Seq<char> {
    "Total files: "@ + decimal_text(stats.total_files as nat) + "\n"@ + "\n"@ + group_lines(
        stats.groups@,
        count_width(stats.groups@),
    )
}

fn largest_count(gs: &Vec<ExtensionGroup>) -> (m: usize)
    ensures
        m == max_count(gs@),
{
    let mut m: usize = 0;
    let mut i: usize = 0;
    assert(gs@.take(0) =~= Seq::<ExtensionGroup>::empty());
    while i < gs.len()
        invariant
            i <= gs@.len(),
            m == max_count(gs@.take(i as int)),
        decreases gs@.len() - i,
    {
        assert(gs@.take(i + 1).drop_last() =~= gs@.take(i as int));
        if gs[i].count > m {
            m = gs[i].count;
        }
        i = i + 1;
    }
    assert(gs@.take(gs@.len() as int) =~= gs@);
    m
}

/// Appends the report of `stats` to `out`.
fn push_report(out: &mut String, stats: &StatsOutput)
    ensures
        final(out)@ == old(out)@ + rendered_stats(*stats),
{
    let ghost start = out@;
    out.append("Total files: ");
    push_decimal(out, stats.total_files);
    out.append("\n");
    out.append("\n");
    let ghost head = out@;
    assert(head =~= start + ("Total files: "@ + decimal_text(stats.total_files as nat) + "\n"@
        + "\n"@));
    let d = decimal_len(largest_count(&stats.groups));
    let width = if d > 4 {
        d
    } else {
        4
    };
    let gs = &stats.groups;
    let mut i: usize = 0;
    assert(gs@.take(0) =~= Seq::<ExtensionGroup>::empty());
    while i < gs.len()
        invariant
            i <= gs@.len(),
            width == count_width(gs@),
            out@ == head + group_lines(gs@.take(i as int), width as nat),
        decreases gs@.len() - i,
    {
        push_decimal_padded(out, gs[i].count, width);
        out.append("  ");
        out.append(gs[i].extension.as_str());
        out.append("\n");
        assert(gs@.take(i + 1).drop_last() =~= gs@.take(i as int));
        i = i + 1;
        assert(out@ =~= head + group_lines(gs@.take(i as int), width as nat));
    }
    assert(gs@.take(gs@.len() as int) =~= gs@);
    assert(out@ =~= start + rendered_stats(*stats));
}

/// Writes the human-readable report of `stats`, UTF-8 encoded, after what
/// `writer` already holds.
pub fn render_stats(stats: &StatsOutput, writer: &mut Vec<u8>)
    ensures
        final(writer)@ == old(writer)@ + encode_utf8(rendered_stats(*stats)),
{
    let mut text = String::new();
    push_report(&mut text, stats);
    let bytes = text.as_str().as_bytes();
    let ghost start = writer@;
    let mut i: usize = 0;
    while i < bytes.len()
        invariant
            i <= bytes@.len(),
            writer@ == start + bytes@.take(i as int),
        decreases bytes@.len() - i,
    {
        writer.push(bytes[i]);
        i = i + 1;
        assert(writer@ =~= start + bytes@.take(i as int));
    }
    assert(bytes@.take(bytes@.len() as int) =~= bytes@);
}

} // verus!
