//! Which files are scanned, and where a file hands execution to other code.

use crate::pyleak::path::{
    law_path_order_total, law_path_order_transitive, path_precedes, path_side, path_texts,
    same_path, FilePath, PathText, Side,
};
use crate::pyleak::pattern::{match_lines, matching, regex_accepts, regex_matches};
use crate::text::{
    begins, begins_with, joined, law_joined, opt_text, same, str_texts, trim_start, trimmed_start,
};
use vstd::prelude::*;

verus! {

// ---- files ---------------------------------------------------------------------------------

/// Whether a directory of this name is left out of the scan, with all that is below it.
pub open spec fn skipped_dir(name: Seq<char>) -> bool {
    ||| name == ".venv"@
    ||| name == "__pycache__"@
    ||| name == ".git"@
}

/// Whether an entry of a directory is left out of the scan, with all that is below it.
pub fn is_skipped(name: &str, is_dir: bool) -> (r: bool)
    ensures
        r == (is_dir && skipped_dir(name@)),
{
    is_dir && (same(name, ".venv") || same(name, "__pycache__") || same(name, ".git"))
}

/// An entry that was met in the walk: its path, whether it is a file, and what follows the
/// last dot of its name.
#[derive(Debug)]
pub struct WalkEntry {
    pub path: FilePath,
    pub is_file: bool,
    pub extension: Option<String>,
}

/// What an entry says.
pub struct EntryText {
    pub path: PathText,
    pub is_file: bool,
    pub extension: Option<Seq<char>>,
}

impl View for WalkEntry {
    type V = EntryText;

    open spec fn view(&self) -> EntryText {
        EntryText {
            path: self.path@,
            is_file: self.is_file,
            extension: opt_text(self.extension),
        }
    }
}

/// What entries say.
pub open spec fn entry_texts(entries: Seq<WalkEntry>) -> Seq<EntryText> {
    Seq::new(entries.len(), |i: int| entries[i]@)
}

/// Whether an entry is a Python file.
pub open spec fn is_python(entry: EntryText) -> bool {
    entry.is_file && entry.extension == Some("py"@)
}

/// The paths of the Python files among the entries.
pub open spec fn python_paths(entries: Seq<EntryText>) -> Seq<PathText>
    decreases entries.len(),
{
    if entries.len() == 0 {
        seq![]
    } else if is_python(entries.last()) {
        python_paths(entries.drop_last()).push(entries.last().path)
    } else {
        python_paths(entries.drop_last())
    }
}

/// The position of the first path from `i` on that does not come before `path`, or the
/// number of paths.
pub open spec fn path_place(paths: Seq<PathText>, path: PathText, i: int) -> int
    decreases paths.len() - i,
{
    if i >= paths.len() {
        paths.len() as int
    } else if !path_precedes(paths[i], path) {
        i
    } else {
        path_place(paths, path, i + 1)
    }
}

/// The paths in order, with one more put in its place; the one that is there already stays
/// where the two are the same.
pub open spec fn with_path(paths: Seq<PathText>, path: PathText) -> Seq<PathText> {
    let i = path_place(paths, path, 0);
    if i < paths.len() && same_path(paths[i], path) {
        paths
    } else {
        paths.insert(i, path)
    }
}

/// The paths in order, each once: of paths that are the same the first is kept.
pub open spec fn ordered_paths(paths: Seq<PathText>) -> Seq<PathText>
    decreases paths.len(),
{
    if paths.len() == 0 {
        seq![]
    } else {
        with_path(ordered_paths(paths.drop_last()), paths.last())
    }
}

/// The files to scan: the Python files among the entries and, where the scan was started
/// from a file, that file.
pub open spec fn files_to_scan(entries: Seq<EntryText>, root: Option<PathText>) -> Seq<PathText> {
    match root {
        Some(root) => ordered_paths(python_paths(entries).push(root)),
        None => ordered_paths(python_paths(entries)),
    }
}

proof fn lemma_path_place(paths: Seq<PathText>, path: PathText, i: int)
    requires
        0 <= i <= paths.len(),
    ensures
        i <= path_place(paths, path, i) <= paths.len(),
        forall|k: int|
            i <= k < path_place(paths, path, i) ==> path_precedes(#[trigger] paths[k], path),
        path_place(paths, path, i) < paths.len() ==> !path_precedes(
            paths[path_place(paths, path, i)],
            path,
        ),
    decreases paths.len() - i,
{
    if i < paths.len() && path_precedes(paths[i], path) {
        lemma_path_place(paths, path, i + 1);
    }
}

/// Whether paths stand in strictly rising order.
pub open spec fn rising(paths: Seq<PathText>) -> bool {
    forall|i: int, j: int|
        0 <= i < j < paths.len() ==> path_precedes(#[trigger] paths[i], #[trigger] paths[j])
}

/// Whether one of the paths is the same as `path`.
pub open spec fn has_path(paths: Seq<PathText>, path: PathText) -> bool {
    exists|i: int| 0 <= i < paths.len() && same_path(#[trigger] paths[i], path)
}

/// Putting a path in its place keeps the order, and adds that path and no other.
pub proof fn law_with_path(paths: Seq<PathText>, path: PathText)
    requires
        rising(paths),
    ensures
        rising(with_path(paths, path)),
        forall|p: PathText|
            has_path(with_path(paths, path), p) <==> has_path(paths, p) || same_path(path, p),
        forall|k: int|
            0 <= k < with_path(paths, path).len() ==> paths.contains(
                #[trigger] with_path(paths, path)[k],
            ) || with_path(paths, path)[k] == path,
{
    let s = path_place(paths, path, 0);
    let after = with_path(paths, path);
    lemma_path_place(paths, path, 0);
    let met = s < paths.len() && same_path(paths[s], path);
    if !met {
        assert forall|k: int| s <= k < paths.len() implies path_precedes(
            path,
            #[trigger] paths[k],
        ) by {
            law_path_order_total(path, paths[s]);
            if k > s {
                law_path_order_transitive(path, paths[s], paths[k]);
            }
        }
        assert(after[s] == path);
        assert(forall|i: int| 0 <= i < s ==> #[trigger] after[i] == paths[i]);
        assert(forall|i: int| s < i < after.len() ==> #[trigger] after[i] == paths[i - 1]);
    }
    assert forall|p: PathText|
        has_path(after, p) <==> has_path(paths, p) || same_path(path, p) by {
        if has_path(after, p) && !met {
            let i = choose|i: int| 0 <= i < after.len() && same_path(#[trigger] after[i], p);
            if i < s {
                assert(same_path(paths[i], p));
            } else if i > s {
                assert(same_path(paths[i - 1], p));
            }
        }
        if has_path(paths, p) && !met {
            let i = choose|i: int| 0 <= i < paths.len() && same_path(#[trigger] paths[i], p);
            if i < s {
                assert(same_path(after[i], p));
            } else {
                assert(same_path(after[i + 1], p));
            }
        }
        if same_path(path, p) {
            assert(same_path(after[s], p));
        }
    }
    assert forall|k: int| 0 <= k < after.len() implies paths.contains(#[trigger] after[k])
        || after[k] == path by {
        if met || k < s {
            assert(after[k] == paths[k]);
        } else if k > s {
            assert(after[k] == paths[k - 1]);
        }
    }
}

/// The ordered paths stand in strictly rising order, so none occurs twice, and they are the
/// given ones.
pub proof fn law_ordered_paths(paths: Seq<PathText>)
    ensures
        rising(ordered_paths(paths)),
        forall|p: PathText| has_path(ordered_paths(paths), p) <==> has_path(paths, p),
        forall|k: int|
            0 <= k < ordered_paths(paths).len() ==> paths.contains(
                #[trigger] ordered_paths(paths)[k],
            ),
    decreases paths.len(),
{
    if paths.len() > 0 {
        let fewer = paths.drop_last();
        law_ordered_paths(fewer);
        law_with_path(ordered_paths(fewer), paths.last());
        assert forall|p: PathText| has_path(ordered_paths(paths), p) <==> has_path(paths, p) by {
            if has_path(fewer, p) {
                let i = choose|i: int| 0 <= i < fewer.len() && same_path(#[trigger] fewer[i], p);
                assert(same_path(paths[i], p));
            }
            if same_path(paths.last(), p) {
                assert(same_path(paths[paths.len() - 1], p));
            }
            if has_path(paths, p) {
                let i = choose|i: int| 0 <= i < paths.len() && same_path(#[trigger] paths[i], p);
                if i < paths.len() - 1 {
                    assert(same_path(fewer[i], p));
                }
            }
        }
        assert forall|k: int| 0 <= k < ordered_paths(paths).len() implies paths.contains(
            #[trigger] ordered_paths(paths)[k],
        ) by {
            let p = ordered_paths(paths)[k];
            if ordered_paths(fewer).contains(p) {
                let m = choose|m: int|
                    0 <= m < ordered_paths(fewer).len() && ordered_paths(fewer)[m] == p;
                assert(fewer.contains(ordered_paths(fewer)[m]));
                let i = choose|i: int| 0 <= i < fewer.len() && fewer[i] == p;
                assert(paths[i] == p);
            } else {
                assert(paths[paths.len() - 1] == p);
            }
        }
    }
}

/// Every Python file that the walk met is scanned, the file that the scan was started from
/// is scanned too, and nothing else is.
pub proof fn law_files_to_scan(entries: Seq<EntryText>, root: Option<PathText>, path: PathText)
    ensures
        rising(files_to_scan(entries, root)),
        has_path(files_to_scan(entries, root), path) <==> {
            ||| exists|i: int|
                0 <= i < entries.len() && is_python(#[trigger] entries[i]) && same_path(
                    entries[i].path,
                    path,
                )
            ||| (root matches Some(r) && same_path(r, path))
        },
{
    lemma_python_paths(entries, path);
    let found = python_paths(entries);
    law_ordered_paths(found);
    if let Some(r) = root {
        let all = found.push(r);
        law_ordered_paths(all);
        if has_path(found, path) {
            let i = choose|i: int| 0 <= i < found.len() && same_path(#[trigger] found[i], path);
            assert(same_path(all[i], path));
        }
        if same_path(r, path) {
            assert(same_path(all[found.len() as int], path));
        }
        if has_path(all, path) {
            let i = choose|i: int| 0 <= i < all.len() && same_path(#[trigger] all[i], path);
            if i < found.len() {
                assert(same_path(found[i], path));
            }
        }
    }
}

proof fn lemma_python_paths(entries: Seq<EntryText>, path: PathText)
    ensures
        has_path(python_paths(entries), path) <==> exists|i: int|
            0 <= i < entries.len() && is_python(#[trigger] entries[i]) && same_path(
                entries[i].path,
                path,
            ),
    decreases entries.len(),
{
    if entries.len() > 0 {
        let fewer = entries.drop_last();
        let found = python_paths(fewer);
        let all = python_paths(entries);
        lemma_python_paths(fewer, path);
        if has_path(all, path) {
            let i = choose|i: int| 0 <= i < all.len() && same_path(#[trigger] all[i], path);
            if i < found.len() {
                assert(same_path(found[i], path));
                let k = choose|k: int|
                    0 <= k < fewer.len() && is_python(#[trigger] fewer[k]) && same_path(
                        fewer[k].path,
                        path,
                    );
                assert(is_python(entries[k]));
            } else {
                assert(is_python(entries[entries.len() - 1]));
            }
        }
        if exists|i: int|
            0 <= i < entries.len() && is_python(#[trigger] entries[i]) && same_path(
                entries[i].path,
                path,
            ) {
            let k = choose|k: int|
                0 <= k < entries.len() && is_python(#[trigger] entries[k]) && same_path(
                    entries[k].path,
                    path,
                );
            if k < fewer.len() {
                assert(is_python(fewer[k]));
                let i = choose|i: int|
                    0 <= i < found.len() && same_path(#[trigger] found[i], path);
                assert(same_path(all[i], path));
            } else {
                assert(same_path(all[found.len() as int], path));
            }
        }
    }
}

/// Puts a path in its place among ordered ones, unless it is there already.
pub(crate) fn put_path(paths: &mut Vec<FilePath>, path: FilePath)
    ensures
        path_texts(final(paths)@) == with_path(path_texts(old(paths)@), path@),
{
    let ghost before = path_texts(paths@);
    let mut i: usize = 0;
    while i < paths.len()
        invariant
            i <= paths@.len(),
            before == path_texts(paths@),
            path_place(before, path@, 0) == path_place(before, path@, i as int),
            *paths == *old(paths),
        decreases paths@.len() - i,
    {
        assert(before[i as int] == paths@[i as int]@);
        match path_side(&paths[i], &path) {
            Side::Before => {},
            Side::Same => {
                proof {
                    law_path_order_total(before[i as int], path@);
                }
                return;
            },
            Side::After => {
                proof {
                    law_path_order_total(before[i as int], path@);
                }
                paths.insert(i, path);
                assert(path_texts(paths@) =~= before.insert(i as int, path@));
                return;
            },
        }
        i = i + 1;
    }
    paths.insert(i, path);
    assert(path_texts(paths@) =~= before.insert(i as int, path@));
}

/// The files to scan, told by the entries that the walk met and, where the scan was started
/// from a file, by that file.
pub fn select_py_files(entries: &Vec<WalkEntry>, root: Option<&FilePath>) -> (files: Vec<FilePath>)
    ensures
        path_texts(files@) == files_to_scan(
            entry_texts(entries@),
            (match root {
                Some(r) => Some(r@),
                None => None,
            }),
        ),
{
    let mut files: Vec<FilePath> = Vec::new();
    let ghost all = entry_texts(entries@);
    let mut n: usize = 0;
    assert(path_texts(files@) =~= ordered_paths(python_paths(all.take(0))));
    while n < entries.len()
        invariant
            n <= entries@.len(),
            all == entry_texts(entries@),
            path_texts(files@) == ordered_paths(python_paths(all.take(n as int))),
        decreases entries@.len() - n,
    {
        proof {
            assert(all.take(n + 1).drop_last() =~= all.take(n as int));
            assert(all.take(n + 1).last() == entries@[n as int]@);
            let found = python_paths(all.take(n as int));
            assert(found.push(entries@[n as int]@.path).drop_last() =~= found);
        }
        let entry = &entries[n];
        let python = match &entry.extension {
            Some(extension) => entry.is_file && same(extension, "py"),
            None => false,
        };
        if python {
            put_path(&mut files, entry.path.clone());
        }
        n = n + 1;
    }
    assert(all.take(n as int) =~= all);
    if let Some(r) = root {
        proof {
            let found = python_paths(all);
            assert(found.push(r@).drop_last() =~= found);
        }
        put_path(&mut files, r.clone());
    }
    files
}

// ---- spawn points --------------------------------------------------------------------------

/// How a line hands execution to other code.
#[derive(Debug, Clone, Copy, PartialEq, Eq, Structural)]
pub enum SpawnKind {
    Subprocess,
    OsSystem,
    Multiprocessing,
    Import,
}

/// A line, counted from zero, that hands execution to other code, and its text.
#[derive(Debug)]
pub struct SpawnPoint {
    pub line: usize,
    pub kind: SpawnKind,
    pub raw: String,
}

/// What a spawn point says.
pub struct SpawnText {
    pub line: int,
    pub kind: SpawnKind,
    pub raw: Seq<char>,
}

impl View for SpawnPoint {
    type V = SpawnText;

    open spec fn view(&self) -> SpawnText {
        SpawnText { line: self.line as int, kind: self.kind, raw: self.raw@ }
    }
}

impl Clone for SpawnPoint {
    fn clone(&self) -> (r: Self)
        ensures
            r@ == self@,
    {
        SpawnPoint { line: self.line, kind: self.kind, raw: self.raw.clone() }
    }
}

/// What spawn points say.
pub open spec fn spawn_texts(s: Seq<SpawnPoint>) -> Seq<SpawnText> {
    Seq::new(s.len(), |i: int| s[i]@)
}

/// A call of the `subprocess` module.
pub const SUBPROCESS_PATTERN: &'static str =
    r"subprocess\.(run|Popen|call|check_call|check_output)\s*\(";

/// A call of `os.system`.
pub const OS_SYSTEM_PATTERN: &'static str = r"os\.system\s*\(";

/// A new process of the `multiprocessing` module.
pub const MULTIPROCESSING_PATTERN: &'static str =
    r"multiprocessing\.Process\s*\(|^\s*Process\s*\(";

/// An import.
pub const IMPORT_PATTERN: &'static str = r"^\s*(import\s+[\w\.]+|from\s+[\w\.]+\s+import\s+.+)";

/// Whether the patterns of spawn points compile.
pub open spec fn spawn_patterns_compile() -> bool {
    &&& regex_accepts(SUBPROCESS_PATTERN@)
    &&& regex_accepts(OS_SYSTEM_PATTERN@)
    &&& regex_accepts(MULTIPROCESSING_PATTERN@)
    &&& regex_accepts(IMPORT_PATTERN@)
}

/// The kind that a line is taken for, where what was found in it may speak for several.
pub open spec fn spawn_kind(
    subprocess: bool,
    os_system: bool,
    multiprocessing: bool,
    import: bool,
) -> Option<SpawnKind> {
    if subprocess {
        Some(SpawnKind::Subprocess)
    } else if os_system {
        Some(SpawnKind::OsSystem)
    } else if multiprocessing {
        Some(SpawnKind::Multiprocessing)
    } else if import {
        Some(SpawnKind::Import)
    } else {
        None
    }
}

/// The kind that the patterns take a line for.
pub open spec fn spawn_kind_of(line: Seq<char>) -> Option<SpawnKind> {
    spawn_kind(
        regex_matches(SUBPROCESS_PATTERN@, line),
        regex_matches(OS_SYSTEM_PATTERN@, line),
        regex_matches(MULTIPROCESSING_PATTERN@, line),
        regex_matches(IMPORT_PATTERN@, line),
    )
}

/// For each line, the kind that the patterns take it for.
pub open spec fn spawn_kinds(lines: Seq<Seq<char>>) -> Seq<Option<SpawnKind>> {
    Seq::new(lines.len(), |i: int| spawn_kind_of(lines[i]))
}

/// The spawn points among the first `n` lines: the lines that have a kind and are not
/// comments.
pub open spec fn spawns_in(
    kinds: Seq<Option<SpawnKind>>,
    lines: Seq<Seq<char>>,
    n: int,
) -> Seq<SpawnText>
    decreases n,
{
    if n <= 0 {
        seq![]
    } else {
        let raw = trimmed_start(lines[n - 1]);
        match kinds[n - 1] {
            Some(kind) => if begins(raw, '#') {
                spawns_in(kinds, lines, n - 1)
            } else {
                spawns_in(kinds, lines, n - 1).push(SpawnText { line: n - 1, kind, raw })
            },
            None => spawns_in(kinds, lines, n - 1),
        }
    }
}

/// For each line, the kind that the patterns take it for. `None` if a pattern is not one
/// that compiles.
pub fn find_spawn_kinds(lines: &[&str]) -> (r: Option<Vec<Option<SpawnKind>>>)
    ensures
        r is Some <==> spawn_patterns_compile(),
        r matches Some(v) ==> v@ == spawn_kinds(str_texts(lines@)),
{
    match (
        match_lines(SUBPROCESS_PATTERN, lines),
        match_lines(OS_SYSTEM_PATTERN, lines),
        match_lines(MULTIPROCESSING_PATTERN, lines),
        match_lines(IMPORT_PATTERN, lines),
    ) {
        (Some(subprocess), Some(os_system), Some(multiprocessing), Some(import)) => {
            let ghost all = str_texts(lines@);
            let mut kinds: Vec<Option<SpawnKind>> = Vec::new();
            let mut i: usize = 0;
            while i < lines.len()
                invariant
                    i <= lines@.len(),
                    kinds@.len() == i,
                    all == str_texts(lines@),
                    subprocess@ == matching(SUBPROCESS_PATTERN@, all),
                    os_system@ == matching(OS_SYSTEM_PATTERN@, all),
                    multiprocessing@ == matching(MULTIPROCESSING_PATTERN@, all),
                    import@ == matching(IMPORT_PATTERN@, all),
                    forall|k: int| 0 <= k < i ==> kinds@[k] == spawn_kind_of(all[k]),
                decreases lines@.len() - i,
            {
                let kind = if subprocess[i] {
                    Some(SpawnKind::Subprocess)
                } else if os_system[i] {
                    Some(SpawnKind::OsSystem)
                } else if multiprocessing[i] {
                    Some(SpawnKind::Multiprocessing)
                } else if import[i] {
                    Some(SpawnKind::Import)
                } else {
                    None
                };
                kinds.push(kind);
                i = i + 1;
            }
            assert(kinds@ =~= spawn_kinds(all));
            Some(kinds)
        },
        _ => None,
    }
}

/// The spawn points among the lines, where `kinds[i]` is the kind of line `i`.
pub fn spawns_at(kinds: &Vec<Option<SpawnKind>>, lines: &[&str]) -> (spawns: Vec<SpawnPoint>)
    requires
        kinds@.len() == lines@.len(),
    ensures
        spawn_texts(spawns@) == spawns_in(kinds@, str_texts(lines@), lines@.len() as int),
{
    let mut spawns: Vec<SpawnPoint> = Vec::new();
    let mut i: usize = 0;
    assert(spawn_texts(spawns@) =~= seq![]);
    while i < lines.len()
        invariant
            i <= lines@.len() == kinds@.len(),
            spawn_texts(spawns@) == spawns_in(kinds@, str_texts(lines@), i as int),
        decreases lines@.len() - i,
    {
        assert(str_texts(lines@)[i as int] == lines@[i as int]@);
        let raw = trim_start(lines[i]);
        if !begins_with(&raw, '#') {
            if let Some(kind) = kinds[i] {
                let ghost before = spawn_texts(spawns@);
                spawns.push(SpawnPoint { line: i, kind, raw });
                assert(spawn_texts(spawns@) =~= before.push(spawns@.last()@));
            }
        }
        i = i + 1;
    }
    spawns
}

/// The spawn points of a file.
pub open spec fn spawns_of(lines: Seq<Seq<char>>) -> Seq<SpawnText> {
    spawns_in(spawn_kinds(lines), lines, lines.len() as int)
}

/// Detects the points in a file where it hands off execution to other code: subprocess
/// calls, `os.system`, multiprocessing, and plain imports.
pub fn detect_spawns(lines: &[&str]) -> (spawns: Vec<SpawnPoint>)
    requires
        spawn_patterns_compile(),
    ensures
        spawn_texts(spawns@) == spawns_of(str_texts(lines@)),
{
    match find_spawn_kinds(lines) {
        Some(kinds) => spawns_at(&kinds, lines),
        None => Vec::new(),
    }
}

/// `detect_spawns`, where its patterns compile.
pub fn try_detect_spawns(lines: &[&str]) -> (r: Option<Vec<SpawnPoint>>)
    ensures
        r is Some <==> spawn_patterns_compile(),
        r matches Some(spawns) ==> spawn_texts(spawns@) == spawns_of(str_texts(lines@)),
{
    match find_spawn_kinds(lines) {
        Some(_) => Some(detect_spawns(lines)),
        None => None,
    }
}

/// A line is a spawn point exactly where it has a kind and is no comment; the spawn points
/// come in the order of the lines.
pub proof fn law_spawns(kinds: Seq<Option<SpawnKind>>, lines: Seq<Seq<char>>, n: int)
    requires
        0 <= n <= lines.len(),
        kinds.len() == lines.len(),
    ensures
        forall|k: int|
            0 <= k < spawns_in(kinds, lines, n).len() ==> {
                let p = #[trigger] spawns_in(kinds, lines, n)[k];
                &&& 0 <= p.line < n
                &&& kinds[p.line] == Some(p.kind)
                &&& p.raw == trimmed_start(lines[p.line])
                &&& !begins(p.raw, '#')
            },
        forall|i: int, j: int|
            0 <= i < j < spawns_in(kinds, lines, n).len() ==> (#[trigger] spawns_in(
                kinds,
                lines,
                n,
            )[i]).line < (#[trigger] spawns_in(kinds, lines, n)[j]).line,
        forall|i: int|
            0 <= i < n && (#[trigger] kinds[i]) is Some && !begins(trimmed_start(lines[i]), '#')
                ==> exists|k: int|
                0 <= k < spawns_in(kinds, lines, n).len() && (#[trigger] spawns_in(
                    kinds,
                    lines,
                    n,
                )[k]).line == i,
    decreases n,
{
    if n > 0 {
        law_spawns(kinds, lines, n - 1);
        let fewer = spawns_in(kinds, lines, n - 1);
        let all = spawns_in(kinds, lines, n);
        assert(forall|k: int| 0 <= k < fewer.len() ==> fewer[k] == #[trigger] all[k]);
        assert forall|i: int|
            0 <= i < n && (#[trigger] kinds[i]) is Some && !begins(
                trimmed_start(lines[i]),
                '#',
            ) implies exists|k: int| 0 <= k < all.len() && (#[trigger] all[k]).line == i by {
            if i == n - 1 {
                assert(all[fewer.len() as int].line == i);
            } else {
                let k = choose|k: int| 0 <= k < fewer.len() && (#[trigger] fewer[k]).line == i;
                assert(all[k].line == i);
            }
        }
    }
}

// ---- spawn points by file ------------------------------------------------------------------

/// The spawn points of one file.
#[derive(Debug)]
pub struct FileSpawns {
    pub file: FilePath,
    pub points: Vec<SpawnPoint>,
}

/// What the spawn points of one file say.
pub struct FileSpawnsText {
    pub file: PathText,
    pub points: Seq<SpawnText>,
}

impl View for FileSpawns {
    type V = FileSpawnsText;

    open spec fn view(&self) -> FileSpawnsText {
        FileSpawnsText { file: self.file@, points: spawn_texts(self.points@) }
    }
}

/// What the spawn points of files say.
pub open spec fn file_spawns(s: Seq<FileSpawns>) -> Seq<FileSpawnsText> {
    Seq::new(s.len(), |i: int| s[i]@)
}

/// The spawn points of the files of a run, by file. The files stand in the order of their
/// paths, none twice.
#[derive(Debug)]
pub struct SpawnMap {
    entries: Vec<FileSpawns>,
}

/// The paths of the files.
pub open spec fn spawn_files(s: Seq<FileSpawnsText>) -> Seq<PathText> {
    Seq::new(s.len(), |i: int| s[i].file)
}

/// The entries with those of one more file put in place of what was there for it.
pub open spec fn with_spawns(s: Seq<FileSpawnsText>, file: PathText, points: Seq<SpawnText>) -> Seq<
    FileSpawnsText,
> {
    let i = path_place(spawn_files(s), file, 0);
    if i < s.len() && same_path(s[i].file, file) {
        s.update(i, FileSpawnsText { file: s[i].file, points })
    } else {
        s.insert(i, FileSpawnsText { file, points })
    }
}

impl View for SpawnMap {
    type V = Seq<FileSpawnsText>;

    closed spec fn view(&self) -> Seq<FileSpawnsText> {
        file_spawns(self.entries@)
    }
}

impl SpawnMap {
    /// Whether the files stand in strictly rising order.
    pub open spec fn wf(&self) -> bool {
        rising(spawn_files(self@))
    }

    /// A map without files.
    pub fn new() -> (r: Self)
        ensures
            r.wf(),
            r@ == Seq::<FileSpawnsText>::empty(),
    {
        let r = SpawnMap { entries: Vec::new() };
        assert(r@ =~= Seq::<FileSpawnsText>::empty());
        r
    }

    /// Sets the spawn points of a file.
    pub fn insert(&mut self, file: FilePath, points: Vec<SpawnPoint>)
        requires
            old(self).wf(),
        ensures
            final(self).wf(),
            final(self)@ == with_spawns(old(self)@, file@, spawn_texts(points@)),
    {
        let ghost before = file_spawns(self.entries@);
        let ghost paths = spawn_files(before);
        proof {
            law_with_path(paths, file@);
            lemma_path_place(paths, file@, 0);
        }
        let mut i: usize = 0;
        while i < self.entries.len()
            invariant
                i <= self.entries@.len(),
                *self == *old(self),
                before == file_spawns(self.entries@),
                before == old(self)@,
                paths == spawn_files(before),
                rising(paths),
                rising(with_path(paths, file@)),
                path_place(paths, file@, 0) == path_place(paths, file@, i as int),
            ensures
                path_place(paths, file@, 0) == i,
                i < paths.len() ==> !same_path(paths[i as int], file@),
            decreases self.entries@.len() - i,
        {
            assert(paths[i as int] == self.entries@[i as int].file@);
            match path_side(&self.entries[i].file, &file) {
                Side::Before => {},
                Side::Same => {
                    proof {
                        law_path_order_total(paths[i as int], file@);
                    }
                    let kept = self.entries[i].file.clone();
                    self.entries.set(i, FileSpawns { file: kept, points });
                    proof {
                        let after = file_spawns(self.entries@);
                        assert(after =~= with_spawns(before, file@, spawn_texts(points@)));
                        assert(spawn_files(after) =~= paths);
                    }
                    return;
                },
                Side::After => {
                    proof {
                        law_path_order_total(paths[i as int], file@);
                    }
                    break;
                },
            }
            i = i + 1;
        }
        self.entries.insert(i, FileSpawns { file, points });
        proof {
            let after = file_spawns(self.entries@);
            assert(after =~= with_spawns(before, file@, spawn_texts(points@)));
            assert(spawn_files(after) =~= with_path(paths, file@));
        }
    }

    /// The spawn points of the files, in the order of their paths.
    pub fn entries(&self) -> (r: &Vec<FileSpawns>)
        ensures
            file_spawns(r@) == self@,
    {
        &self.entries
    }
}

// ---- what is left out, and what is taken ---------------------------------------------------

/// The directories that are left out are `.venv`, `__pycache__` and `.git`, and no other.
pub proof fn law_skipped_dir(name: Seq<char>)
    ensures
        skipped_dir(name) <==> {
            ||| name == seq!['.', 'v', 'e', 'n', 'v']
            ||| name == seq!['_', '_', 'p', 'y', 'c', 'a', 'c', 'h', 'e', '_', '_']
            ||| name == seq!['.', 'g', 'i', 't']
        },
{
    reveal_strlit(".venv");
    reveal_strlit("__pycache__");
    reveal_strlit(".git");
    assert(".venv"@ =~= seq!['.', 'v', 'e', 'n', 'v']);
    assert("__pycache__"@ =~= seq!['_', '_', 'p', 'y', 'c', 'a', 'c', 'h', 'e', '_', '_']);
    assert(".git"@ =~= seq!['.', 'g', 'i', 't']);
}

/// A Python file is a file whose extension is `py`; a directory of such a name is none.
pub proof fn law_is_python(entry: EntryText)
    ensures
        is_python(entry) <==> entry.is_file && (entry.extension matches Some(e) && e == seq![
            'p',
            'y',
        ]),
{
    reveal_strlit("py");
    assert("py"@ =~= seq!['p', 'y']);
}

/// How many of the first `n` entries are Python files.
pub open spec fn python_count(entries: Seq<EntryText>, n: int) -> nat
    decreases n,
{
    if n <= 0 {
        0
    } else {
        python_count(entries, n - 1) + if is_python(entries[n - 1]) {
            1nat
        } else {
            0nat
        }
    }
}

/// The paths of the Python files are those of all of them, in the order in which they were met.
pub proof fn law_python_paths(entries: Seq<EntryText>, k: int)
    requires
        0 <= k < entries.len(),
    ensures
        python_paths(entries).len() == python_count(entries, entries.len() as int),
        is_python(entries[k]) ==> {
            &&& python_count(entries, k) < python_paths(entries).len()
            &&& python_paths(entries)[python_count(entries, k) as int] == entries[k].path
        },
    decreases entries.len(),
{
    let fewer = entries.drop_last();
    let n = fewer.len() as int;
    lemma_python_count(entries, n);
    if n > 0 {
        let m = if k < n {
            k
        } else {
            0
        };
        law_python_paths(fewer, m);
        lemma_python_count(entries, k);
    } else {
        assert(python_paths(fewer).len() == 0);
        assert(python_count(entries, 0) == 0);
    }
}

proof fn lemma_python_count(entries: Seq<EntryText>, n: int)
    requires
        0 <= n < entries.len(),
    ensures
        python_count(entries, n) == python_count(entries.drop_last(), n),
    decreases n,
{
    if n > 0 {
        lemma_python_count(entries, n - 1);
    }
}

/// A line is taken for the first of these that is found in it: a call of `subprocess`, of
/// `os.system`, a new process, an import. It is taken for nothing just where none is found.
pub proof fn law_spawn_kind(line: Seq<char>)
    ensures
        spawn_kind_of(line) == Some(SpawnKind::Subprocess) <==> regex_matches(
            SUBPROCESS_PATTERN@,
            line,
        ),
        spawn_kind_of(line) == Some(SpawnKind::OsSystem) <==> regex_matches(
            OS_SYSTEM_PATTERN@,
            line,
        ) && !regex_matches(SUBPROCESS_PATTERN@, line),
        spawn_kind_of(line) == Some(SpawnKind::Multiprocessing) <==> regex_matches(
            MULTIPROCESSING_PATTERN@,
            line,
        ) && !regex_matches(SUBPROCESS_PATTERN@, line) && !regex_matches(OS_SYSTEM_PATTERN@, line),
        spawn_kind_of(line) == Some(SpawnKind::Import) <==> regex_matches(IMPORT_PATTERN@, line)
            && !regex_matches(SUBPROCESS_PATTERN@, line) && !regex_matches(OS_SYSTEM_PATTERN@, line)
            && !regex_matches(MULTIPROCESSING_PATTERN@, line),
        spawn_kind_of(line) is None <==> !regex_matches(IMPORT_PATTERN@, line) && !regex_matches(
            SUBPROCESS_PATTERN@,
            line,
        ) && !regex_matches(OS_SYSTEM_PATTERN@, line) && !regex_matches(
            MULTIPROCESSING_PATTERN@,
            line,
        ),
{
}

/// The patterns of spawn points name the five functions of `subprocess`, `os.system`, the
/// processes of `multiprocessing` and the two forms of an import.
pub proof fn law_spawn_patterns()
    ensures
        SUBPROCESS_PATTERN@ == r"subprocess\.("@ + joined(
            seq!["run"@, "Popen"@, "call"@, "check_call"@, "check_output"@],
            seq!['|'],
        ) + r")\s*\("@,
        OS_SYSTEM_PATTERN@ == r"os\."@ + "system"@ + r"\s*\("@,
        MULTIPROCESSING_PATTERN@ == joined(
            seq![r"multiprocessing\.Process\s*\("@, r"^\s*Process\s*\("@],
            seq!['|'],
        ),
        IMPORT_PATTERN@ == r"^\s*("@ + joined(
            seq![r"import\s+[\w\.]+"@, r"from\s+[\w\.]+\s+import\s+.+"@],
            seq!['|'],
        ) + ")"@,
{
    lemma_subprocess_pattern();
    reveal_strlit(r"os\.system\s*\(");
    reveal_strlit(r"os\.");
    reveal_strlit("system");
    reveal_strlit(r"\s*\(");
    let first = r"multiprocessing\.Process\s*\("@;
    let second = r"^\s*Process\s*\("@;
    reveal_strlit(r"multiprocessing\.Process\s*\(|^\s*Process\s*\(");
    reveal_strlit(r"multiprocessing\.Process\s*\(");
    reveal_strlit(r"^\s*Process\s*\(");
    law_joined(first, seq![second], seq!['|']);
    law_joined(second, seq![], seq!['|']);
    assert(seq![first, second] =~= seq![first] + seq![second]);
    let plain = r"import\s+[\w\.]+"@;
    let from = r"from\s+[\w\.]+\s+import\s+.+"@;
    reveal_strlit(r"^\s*(import\s+[\w\.]+|from\s+[\w\.]+\s+import\s+.+)");
    reveal_strlit(r"^\s*(");
    reveal_strlit(r"import\s+[\w\.]+");
    reveal_strlit(r"from\s+[\w\.]+\s+import\s+.+");
    reveal_strlit(")");
    law_joined(plain, seq![from], seq!['|']);
    law_joined(from, seq![], seq!['|']);
    assert(seq![plain, from] =~= seq![plain] + seq![from]);
}

proof fn lemma_subprocess_pattern()
    ensures
        SUBPROCESS_PATTERN@ == r"subprocess\.("@ + joined(
            seq!["run"@, "Popen"@, "call"@, "check_call"@, "check_output"@],
            seq!['|'],
        ) + r")\s*\("@,
{
    let bar = seq!['|'];
    let words = seq!["run"@, "Popen"@, "call"@, "check_call"@, "check_output"@];
    reveal_strlit(r"subprocess\.(run|Popen|call|check_call|check_output)\s*\(");
    reveal_strlit(r"subprocess\.(");
    reveal_strlit(r")\s*\(");
    reveal_strlit("run");
    reveal_strlit("Popen");
    reveal_strlit("call");
    reveal_strlit("check_call");
    reveal_strlit("check_output");
    law_joined("run"@, words.skip(1), bar);
    law_joined("Popen"@, words.skip(2), bar);
    law_joined("call"@, words.skip(3), bar);
    law_joined("check_call"@, words.skip(4), bar);
    law_joined("check_output"@, seq![], bar);
    assert(words =~= seq!["run"@] + words.skip(1));
    assert(words.skip(1) =~= seq!["Popen"@] + words.skip(2));
    assert(words.skip(2) =~= seq!["call"@] + words.skip(3));
    assert(words.skip(3) =~= seq!["check_call"@] + words.skip(4));
    assert(words.skip(4) =~= seq!["check_output"@]);
}

/// Setting the spawn points of a file sets them for that file and leaves those of every other as
/// they were.
pub proof fn law_with_spawns(
    s: Seq<FileSpawnsText>,
    file: PathText,
    points: Seq<SpawnText>,
    other: FileSpawnsText,
)
    requires
        rising(spawn_files(s)),
    ensures
        exists|i: int|
            0 <= i < with_spawns(s, file, points).len() && same_path(
                (#[trigger] with_spawns(s, file, points)[i]).file,
                file,
            ) && with_spawns(s, file, points)[i].points == points,
        !same_path(other.file, file) ==> (with_spawns(s, file, points).contains(other)
            <==> s.contains(other)),
        forall|i: int|
            0 <= i < with_spawns(s, file, points).len() && same_path(
                (#[trigger] with_spawns(s, file, points)[i]).file,
                file,
            ) ==> with_spawns(s, file, points)[i].points == points,
{
    let paths = spawn_files(s);
    let at = path_place(paths, file, 0);
    let after = with_spawns(s, file, points);
    lemma_path_place(paths, file, 0);
    let met = at < s.len() && same_path(s[at].file, file);
    assert(same_path(after[at].file, file) && after[at].points == points);
    if !same_path(other.file, file) {
        if s.contains(other) {
            let i = choose|i: int| 0 <= i < s.len() && s[i] == other;
            if met || i < at {
                assert(after[i] == other);
            } else {
                assert(after[i + 1] == other);
            }
        }
        if after.contains(other) {
            let i = choose|i: int| 0 <= i < after.len() && after[i] == other;
            if met || i < at {
                assert(s[i] == other);
            } else {
                assert(i != at);
                assert(s[i - 1] == other);
            }
        }
    }
    assert forall|i: int|
        0 <= i < after.len() && same_path((#[trigger] after[i]).file, file) && i != at implies false by {
        let k = if met || i < at {
            i
        } else {
            i - 1
        };
        assert(paths[k] == s[k].file);
        assert(after[i] == s[k]);
        if k < at {
            assert(path_precedes(paths[k], file));
            law_path_order_total(paths[k], file);
        } else {
            law_path_order_total(paths[at], file);
            if met {
                assert(paths[at] == s[at].file);
                assert(path_precedes(paths[at], paths[k]));
                law_path_order_total(paths[at], paths[k]);
            } else {
                assert(!path_precedes(paths[at], file));
                assert(path_precedes(file, paths[at]));
                if k > at {
                    assert(path_precedes(paths[at], paths[k]));
                    law_path_order_transitive(file, paths[at], paths[k]);
                }
                law_path_order_total(file, paths[k]);
            }
        }
    }
}

/// Of paths that are the same the first one stays, as it was written: a path that is there
/// already is not put in again.
pub proof fn law_first_path_stays(paths: Seq<PathText>, path: PathText)
    requires
        rising(paths),
    ensures
        has_path(paths, path) ==> with_path(paths, path) == paths,
        !has_path(paths, path) ==> with_path(paths, path).len() == paths.len() + 1
            && with_path(paths, path).contains(path),
{
    let at = path_place(paths, path, 0);
    lemma_path_place(paths, path, 0);
    if has_path(paths, path) {
        let i = choose|i: int| 0 <= i < paths.len() && same_path(#[trigger] paths[i], path);
        law_path_order_total(paths[i], path);
        if i < at {
            assert(path_precedes(paths[i], path));
        }
        if at < i {
            assert(path_precedes(paths[at], paths[i]));
            assert(!path_precedes(paths[at], path));
        }
        assert(at == i);
    } else {
        if at < paths.len() {
            assert(!same_path(paths[at], path));
        }
        assert(with_path(paths, path)[at] == path);
    }
}

} // verus!
