//! Changed `.rs` files and their new-side line numbers.
//!
//! Line numbers are **1-based** (git convention); symbol positions are 0-based, so callers
//! convert.

use crate::number::{parse_unsigned, unsigned_value};
use crate::path::{path_of, Part, PathBuf};
use crate::text::{
    chars_are, chars_of, find_char, find_text, first_index, first_index_props, first_index_unique,
    first_occurrence, first_occurrence_is, has_prefix, is_space, lines, lines_of, occurs_at,
    slice_to_vec, string_of, without_cr, words, words_of, words_stand_between_spaces,
};
use vstd::prelude::*;

verus! {

/// A changed file and the lines that its new version adds.
#[derive(Debug, PartialEq, Eq)]
pub struct ChangedFile {
    /// New-side path, relative to the workspace root.
    pub path: PathBuf,
    /// 1-based line numbers, sorted and deduplicated.
    pub lines: Vec<u32>,
}

/// Why a unified diff could not be read. Each case carries the offending line.
#[derive(Debug, Clone, PartialEq, Eq)]
pub enum DiffError {
    /// A hunk header without its closing marker.
    MalformedHunkHeader(String),
    /// A hunk header that names no new-side range.
    MissingNewRange(String),
    /// A new-side start that is no line number.
    BadHunkStart(String),
    /// A new-side count that is no number of lines.
    BadHunkCount(String),
    /// A new-side range that runs past the last line number.
    RangeTooLong(String),
}

/// A fault of a hunk header, as contracts see it.
pub enum HunkFault {
    Malformed,
    NoRange,
    BadStart,
    BadCount,
    TooLong,
}

/// A changed file, as contracts see it: the path, how it is spelled, and the set of its lines.
pub struct Marked {
    pub path: Seq<Part>,
    pub spelled: Seq<char>,
    pub lines: Set<u32>,
}

/// What has been read of a diff: the files that are done, the file being read, and how many
/// new-side and old-side lines of its last hunk are still to come.
pub struct Scan {
    pub files: Seq<Marked>,
    pub current: Option<Marked>,
    pub new_left: nat,
    pub old_left: nat,
}

/// What a diff amounts to, or the line that could not be read.
pub enum Outcome {
    Read(Scan),
    Failed(HunkFault, Seq<char>),
}

/// A prefix taken off, where it is there.
pub open spec fn stripped(s: Seq<char>, prefix: Seq<char>) -> Option<Seq<char>> {
    if prefix.is_prefix_of(s) {
        Some(s.skip(prefix.len() as int))
    } else {
        None
    }
}

/// The first word of a row that begins with a mark.
pub open spec fn first_marked(row: Seq<Seq<char>>, mark: char) -> Option<Seq<char>>
    decreases row.len(),
{
    if row.len() == 0 {
        None
    } else if row[0].len() > 0 && row[0][0] == mark {
        Some(row[0])
    } else {
        first_marked(row.drop_first(), mark)
    }
}

/// The start and the count that a range such as `12,3` or `7` names.
pub open spec fn range_of(token: Seq<char>) -> Result<(nat, nat), HunkFault> {
    let comma = first_index(token, ',');
    let max = u32::MAX as nat;
    let (start, count) = if comma < token.len() {
        (unsigned_value(token.take(comma), max), unsigned_value(token.skip(comma + 1), max))
    } else {
        (unsigned_value(token, max), Some(1))
    };
    match start {
        None => Err(HunkFault::BadStart),
        Some(a) => match count {
            None => Err(HunkFault::BadCount),
            Some(n) => if a + n > u32::MAX + 1 {
                Err(HunkFault::TooLong)
            } else {
                Ok((a, n))
            },
        },
    }
}

/// The new-side range of a hunk header, given what stands behind its opening marker.
pub open spec fn hunk_range(rest: Seq<char>) -> Result<(nat, nat), HunkFault> {
    match first_occurrence(rest, " @@"@) {
        None => Err(HunkFault::Malformed),
        Some(k) => match first_marked(words_of(rest.take(k)), '+') {
            None => Err(HunkFault::NoRange),
            Some(word) => range_of(word.skip(1)),
        },
    }
}

/// The number of lines that a range such as `12,3` or `7` names. What is no number counts for
/// none.
pub open spec fn count_of(token: Seq<char>) -> nat {
    let comma = first_index(token, ',');
    if comma < token.len() {
        match unsigned_value(token.skip(comma + 1), u32::MAX as nat) {
            Some(n) => n,
            None => 0,
        }
    } else {
        1
    }
}

/// The number of old-side lines of a hunk, given what stands behind the opening marker of its
/// header.
pub open spec fn old_count(rest: Seq<char>) -> nat {
    match first_occurrence(rest, " @@"@) {
        None => 0,
        Some(k) => match first_marked(words_of(rest.take(k)), '-') {
            None => 0,
            Some(word) => count_of(word.skip(1)),
        },
    }
}

/// The lines of a range.
pub open spec fn lines_in(start: nat, count: nat) -> Set<u32> {
    Set::new(|n: u32| start <= n < start + count)
}

/// The files that are done once the current one is closed. A file without lines is left out.
pub open spec fn closed_files(s: Scan) -> Seq<Marked> {
    match s.current {
        Some(f) => if f.lines =~= Set::empty() {
            s.files
        } else {
            s.files.push(f)
        },
        None => s.files,
    }
}

/// The file that a `+++` line opens. A deleted file opens none.
pub open spec fn opened(rest: Seq<char>) -> Option<Marked> {
    if rest == "/dev/null"@ {
        None
    } else {
        let name = match stripped(rest, "b/"@) {
            Some(t) => t,
            None => rest,
        };
        Some(Marked { path: path_of(name), spelled: name, lines: Set::empty() })
    }
}

/// How many new-side and old-side lines of a hunk are left behind a line, where the line is one
/// of the hunk: an added line takes up a new-side line, a removed line an old-side line, a line
/// of context one of each, and a remark none. What such a line holds may look like a header.
pub open spec fn left_behind(new_left: nat, old_left: nat, line: Seq<char>) -> Option<(nat, nat)> {
    if line.len() == 0 || (new_left == 0 && old_left == 0) {
        None
    } else if line[0] == '+' && new_left > 0 {
        Some(((new_left - 1) as nat, old_left))
    } else if line[0] == '-' && old_left > 0 {
        Some((new_left, (old_left - 1) as nat))
    } else if line[0] == ' ' && new_left > 0 && old_left > 0 {
        Some(((new_left - 1) as nat, (old_left - 1) as nat))
    } else if line[0] == '\\' {
        Some((new_left, old_left))
    } else {
        None
    }
}

/// One line read that is not one of a hunk. It ends the last hunk.
pub open spec fn scan_header(s: Scan, line: Seq<char>) -> Outcome {
    match stripped(line, "+++ "@) {
        Some(rest) => Outcome::Read(
            Scan { files: closed_files(s), current: opened(rest), new_left: 0, old_left: 0 },
        ),
        None => match (stripped(line, "@@ "@), s.current) {
            (Some(rest), Some(f)) => match hunk_range(rest) {
                Ok((start, count)) => Outcome::Read(
                    Scan {
                        files: s.files,
                        current: Some(
                            Marked {
                                path: f.path,
                                spelled: f.spelled,
                                lines: f.lines.union(lines_in(start, count)),
                            },
                        ),
                        new_left: count,
                        old_left: old_count(rest),
                    },
                ),
                Err(fault) => Outcome::Failed(fault, line),
            },
            _ => Outcome::Read(Scan { new_left: 0, old_left: 0, ..s }),
        },
    }
}

/// One line read.
pub open spec fn scan_line(s: Scan, line: Seq<char>) -> Outcome {
    match left_behind(s.new_left, s.old_left, line) {
        Some((new_left, old_left)) => Outcome::Read(Scan { new_left, old_left, ..s }),
        None => scan_header(s, line),
    }
}

/// A row of lines read in order, up to the first fault.
pub open spec fn scan(rows: Seq<Seq<char>>) -> Outcome
    decreases rows.len(),
{
    if rows.len() == 0 {
        Outcome::Read(Scan { files: Seq::empty(), current: None, new_left: 0, old_left: 0 })
    } else {
        match scan(rows.drop_last()) {
            Outcome::Read(s) => scan_line(s, rows.last()),
            failed => failed,
        }
    }
}

/// Numbers in ascending order, none twice.
pub open spec fn ascending(lines: Seq<u32>) -> bool {
    forall|i: int, j: int| 0 <= i < j < lines.len() ==> lines[i] < lines[j]
}

/// Whether a changed file is the one that a contract speaks of.
pub open spec fn file_is(f: ChangedFile, m: Marked) -> bool {
    &&& f.path@ == m.path
    &&& f.path.spelling() == m.spelled
    &&& ascending(f.lines@)
    &&& f.lines@.to_set() =~= m.lines
}

/// Whether changed files are the ones that a contract speaks of, in order.
pub open spec fn files_are(v: Seq<ChangedFile>, ms: Seq<Marked>) -> bool {
    &&& v.len() == ms.len()
    &&& forall|i: int| 0 <= i < v.len() ==> file_is(#[trigger] v[i], ms[i])
}

/// Whether an error reports the given fault on the given line.
pub open spec fn error_is(e: DiffError, fault: HunkFault, line: Seq<char>) -> bool {
    match (e, fault) {
        (DiffError::MalformedHunkHeader(t), HunkFault::Malformed) => t@ == line,
        (DiffError::MissingNewRange(t), HunkFault::NoRange) => t@ == line,
        (DiffError::BadHunkStart(t), HunkFault::BadStart) => t@ == line,
        (DiffError::BadHunkCount(t), HunkFault::BadCount) => t@ == line,
        (DiffError::RangeTooLong(t), HunkFault::TooLong) => t@ == line,
        _ => false,
    }
}

/// Puts a number into an ascending row.
fn insert_line(rows: &mut Vec<u32>, n: u32)
    requires
        ascending(old(rows)@),
    ensures
        ascending(final(rows)@),
        final(rows)@.to_set() =~= old(rows)@.to_set().insert(n),
{
    let ghost before = rows@;
    let mut i: usize = rows.len();
    while i > 0 && rows[i - 1] > n
        invariant
            i <= rows@.len(),
            rows@ == before,
            forall|j: int| i <= j < rows@.len() ==> rows@[j] > n,
        decreases i,
    {
        i = i - 1;
    }
    if i > 0 && rows[i - 1] == n {
        proof {
            assert(before[i - 1] == n);
            assert(before.to_set().contains(n));
        }
        return;
    }
    rows.insert(i, n);
    proof {
        let after = rows@;
        assert(after == before.insert(i as int, n));
        assert forall|a: int, b: int| 0 <= a < b < after.len() implies after[a] < after[b] by {
            if a < i && b > i {
                assert(before[a] < before[b - 1]);
            }
        }
        assert forall|x: u32| after.to_set().contains(x) <==> before.to_set().insert(n).contains(
            x,
        ) by {
            if before.contains(x) {
                let k = choose|k: int| 0 <= k < before.len() && before[k] == x;
                if k < i {
                    assert(after[k] == x);
                } else {
                    assert(after[k + 1] == x);
                }
            }
            if x == n {
                assert(after[i as int] == n);
            }
            if after.contains(x) {
                let k = choose|k: int| 0 <= k < after.len() && after[k] == x;
                if k < i {
                    assert(before[k] == x);
                } else if k > i {
                    assert(before[k - 1] == x);
                }
            }
        }
    }
}

/// Puts a range of lines into an ascending row.
fn insert_range(rows: &mut Vec<u32>, start: u32, count: u32)
    requires
        ascending(old(rows)@),
        start + count <= u32::MAX + 1,
    ensures
        ascending(final(rows)@),
        final(rows)@.to_set() =~= old(rows)@.to_set().union(lines_in(start as nat, count as nat)),
{
    let ghost before = rows@.to_set();
    let mut i: u32 = 0;
    while i < count
        invariant
            i <= count,
            start + count <= u32::MAX + 1,
            ascending(rows@),
            rows@.to_set() =~= before.union(lines_in(start as nat, i as nat)),
        decreases count - i,
    {
        insert_line(rows, start + i);
        i = i + 1;
        proof {
            assert(before.union(lines_in(start as nat, i as nat)) =~= before.union(
                lines_in(start as nat, (i - 1) as nat),
            ).insert((start + i - 1) as u32));
        }
    }
}

/// Reads the start and the count of a range.
fn read_range(token: &[char]) -> (r: Result<(u32, u32), HunkFault>)
    ensures
        match r {
            Ok((a, n)) => range_of(token@) == Ok::<(nat, nat), HunkFault>((a as nat, n as nat))
                && a + n <= u32::MAX + 1,
            Err(e) => range_of(token@) == Err::<(nat, nat), HunkFault>(e),
        },
{
    let comma = find_char(token, 0, ',');
    proof {
        assert(token@.skip(0) =~= token@);
        first_index_props(token@, ',');
    }
    let start: Option<u64>;
    let count: Option<u64>;
    if comma < token.len() {
        start = parse_unsigned(&token[0..comma], u32::MAX as u64);
        count = parse_unsigned(&token[comma + 1..token.len()], u32::MAX as u64);
        assert(token@.subrange(0, comma as int) =~= token@.take(comma as int));
        assert(token@.subrange(comma + 1, token@.len() as int) =~= token@.skip(comma + 1));
    } else {
        start = parse_unsigned(token, u32::MAX as u64);
        count = Some(1);
    }
    match (start, count) {
        (None, _) => Err(HunkFault::BadStart),
        (_, None) => Err(HunkFault::BadCount),
        (Some(a), Some(n)) => {
            if a + n > u32::MAX as u64 + 1 {
                Err(HunkFault::TooLong)
            } else {
                Ok((a as u32, n as u32))
            }
        },
    }
}

/// What stands behind the mark of the first word of a row that begins with it.
fn find_marked(row: &Vec<Vec<char>>, mark: char, Ghost(all): Ghost<Seq<Seq<char>>>) -> (r: Option<
    Vec<char>,
>)
    requires
        row@.len() == all.len(),
        forall|j: int| 0 <= j < all.len() ==> (#[trigger] row@[j])@ == all[j],
    ensures
        match first_marked(all, mark) {
            Some(word) => r matches Some(token) && token@ == word.skip(1),
            None => r is None,
        },
{
    let mut i: usize = 0;
    assert(all.skip(0) =~= all);
    while i < row.len()
        invariant
            i <= row@.len() == all.len(),
            forall|j: int| 0 <= j < all.len() ==> (#[trigger] row@[j])@ == all[j],
            first_marked(all, mark) == first_marked(all.skip(i as int), mark),
        decreases row.len() - i,
    {
        let word = &row[i];
        proof {
            assert(all.skip(i as int)[0] == word@);
            assert(all.skip(i as int).drop_first() =~= all.skip(i + 1));
        }
        if word.len() > 0 && word[0] == mark {
            let token = slice_to_vec(&word[1..word.len()]);
            assert(token@ =~= word@.skip(1));
            return Some(token);
        }
        i = i + 1;
    }
    None
}

/// Reads the number of lines of a range.
fn read_count(token: &[char]) -> (r: u32)
    ensures
        r == count_of(token@),
{
    let comma = find_char(token, 0, ',');
    proof {
        assert(token@.skip(0) =~= token@);
        first_index_props(token@, ',');
    }
    if comma < token.len() {
        assert(token@.subrange(comma + 1, token@.len() as int) =~= token@.skip(comma + 1));
        match parse_unsigned(&token[comma + 1..token.len()], u32::MAX as u64) {
            Some(n) => n as u32,
            None => 0,
        }
    } else {
        1
    }
}

/// Finds the new-side range of a hunk header, and the number of its old-side lines.
fn read_hunk(rest: &[char]) -> (r: Result<(u32, u32, u32), HunkFault>)
    ensures
        match r {
            Ok((a, n, o)) => hunk_range(rest@) == Ok::<(nat, nat), HunkFault>((a as nat, n as nat))
                && a + n <= u32::MAX + 1 && o == old_count(rest@),
            Err(e) => hunk_range(rest@) == Err::<(nat, nat), HunkFault>(e),
        },
{
    let k = match find_text(rest, " @@") {
        Some(k) => k,
        None => return Err(HunkFault::Malformed),
    };
    let header = &rest[0..k];
    assert(header@ =~= rest@.take(k as int));
    let row = words(header);
    let ghost all = words_of(header@);
    let old = match find_marked(&row, '-', Ghost(all)) {
        Some(token) => read_count(token.as_slice()),
        None => 0,
    };
    match find_marked(&row, '+', Ghost(all)) {
        Some(token) => match read_range(token.as_slice()) {
            Ok((start, count)) => Ok((start, count, old)),
            Err(fault) => Err(fault),
        },
        None => Err(HunkFault::NoRange),
    }
}

/// How many new-side and old-side lines of a hunk are left behind a line, where the line is one
/// of the hunk.
fn take_line(new_left: u32, old_left: u32, line: &[char]) -> (r: Option<(u32, u32)>)
    ensures
        left_behind(new_left as nat, old_left as nat, line@) == match r {
            Some((a, b)) => Some((a as nat, b as nat)),
            None => None,
        },
{
    if line.len() == 0 || (new_left == 0 && old_left == 0) {
        return None;
    }
    let mark: char = line[0];
    if mark == '+' && new_left > 0 {
        Some((new_left - 1, old_left))
    } else if mark == '-' && old_left > 0 {
        Some((new_left, old_left - 1))
    } else if mark == ' ' && new_left > 0 && old_left > 0 {
        Some((new_left - 1, old_left - 1))
    } else if mark == '\\' {
        Some((new_left, old_left))
    } else {
        None
    }
}

fn report(fault: HunkFault, line: &[char]) -> (e: DiffError)
    ensures
        error_is(e, fault, line@),
{
    let text = string_of(line);
    match fault {
        HunkFault::Malformed => DiffError::MalformedHunkHeader(text),
        HunkFault::NoRange => DiffError::MissingNewRange(text),
        HunkFault::BadStart => DiffError::BadHunkStart(text),
        HunkFault::BadCount => DiffError::BadHunkCount(text),
        HunkFault::TooLong => DiffError::RangeTooLong(text),
    }
}

/// Whether the file being read is the one that a contract speaks of.
pub open spec fn current_is(f: Option<ChangedFile>, m: Option<Marked>) -> bool {
    match (f, m) {
        (Some(f), Some(m)) => file_is(f, m),
        (None, None) => true,
        _ => false,
    }
}

fn push_if_lines(files: &mut Vec<ChangedFile>, current: Option<ChangedFile>, Ghost(s): Ghost<
    Scan,
>)
    requires
        files_are(old(files)@, s.files),
        current_is(current, s.current),
    ensures
        files_are(final(files)@, closed_files(s)),
{
    if let Some(file) = current {
        let ghost m = s.current->0;
        proof {
            if file.lines@.len() > 0 {
                assert(m.lines.contains(file.lines@[0]));
            } else {
                assert(m.lines =~= Set::empty());
            }
        }
        if file.lines.len() > 0 {
            files.push(file);
        }
    }
}

/// The file that a `+++` line opens.
fn open_file(rest: &[char]) -> (r: Option<ChangedFile>)
    ensures
        current_is(r, opened(rest@)),
{
    proof {
        reveal_strlit("b/");
    }
    if chars_are(rest, "/dev/null") {
        return None;
    }
    let from: usize = if has_prefix(rest, "b/") {
        2
    } else {
        0
    };
    let name = string_of(&rest[from..rest.len()]);
    proof {
        assert(rest@.subrange(0, rest@.len() as int) =~= rest@);
        if from == 2 {
            assert(rest@.subrange(2, rest@.len() as int) =~= rest@.skip(2));
        }
    }
    let file = ChangedFile { path: PathBuf::parse(name.as_str()), lines: Vec::new() };
    assert(file.lines@.to_set() =~= Set::empty());
    Some(file)
}

/// The changed files of a unified diff, with the lines that their new versions add.
pub fn parse_unified_diff(text: &str) -> (r: Result<Vec<ChangedFile>, DiffError>)
    ensures
        match scan(lines_of(text@)) {
            Outcome::Read(s) => r matches Ok(files) && files_are(files@, closed_files(s)),
            Outcome::Failed(fault, line) => r matches Err(e) && error_is(e, fault, line),
        },
{
    let chars = chars_of(text);
    let rows = lines(chars.as_slice());
    let ghost all = lines_of(text@);
    let mut files: Vec<ChangedFile> = Vec::new();
    let mut current: Option<ChangedFile> = None;
    let mut new_left: u32 = 0;
    let mut old_left: u32 = 0;
    let ghost mut state = Scan { files: Seq::empty(), current: None, new_left: 0, old_left: 0 };
    let mut i: usize = 0;
    proof {
        reveal_strlit("+++ ");
        reveal_strlit("@@ ");
    }
    assert(all.take(0) =~= Seq::<Seq<char>>::empty());
    while i < rows.len()
        invariant
            i <= rows@.len() == all.len(),
            all == lines_of(text@),
            "+++ "@.len() == 4,
            "@@ "@.len() == 3,
            forall|j: int| 0 <= j < all.len() ==> (#[trigger] rows@[j])@ == all[j],
            scan(all.take(i as int)) == Outcome::Read(state),
            files_are(files@, state.files),
            current_is(current, state.current),
            new_left == state.new_left,
            old_left == state.old_left,
        decreases rows.len() - i,
    {
        let line = rows[i].as_slice();
        proof {
            assert(all.take(i + 1).drop_last() =~= all.take(i as int));
            assert(all.take(i + 1).last() == line@);
        }
        let taken = take_line(new_left, old_left, line);
        new_left = 0;
        old_left = 0;
        if let Some((new_now, old_now)) = taken {
            new_left = new_now;
            old_left = old_now;
        } else if has_prefix(line, "+++ ") {
            let rest = &line[4..line.len()];
            assert(rest@ =~= line@.skip(4));
            push_if_lines(&mut files, current, Ghost(state));
            current = open_file(rest);
        } else if has_prefix(line, "@@ ") {
            let rest = &line[3..line.len()];
            assert(rest@ =~= line@.skip(3));
            if let Some(file) = current {
                match read_hunk(rest) {
                    Ok((start, count, old)) => {
                        let mut added = file.lines;
                        insert_range(&mut added, start, count);
                        current = Some(ChangedFile { path: file.path, lines: added });
                        new_left = count;
                        old_left = old;
                    },
                    Err(fault) => {
                        proof {
                            scan_fails(all, i + 1);
                        }
                        return Err(report(fault, line));
                    },
                }
            }
        }
        proof {
            state = scan_line(state, line@)->Read_0;
        }
        i = i + 1;
    }
    assert(all.take(i as int) =~= all);
    push_if_lines(&mut files, current, Ghost(state));
    Ok(files)
}

/// Once a line has failed, what follows does not count.
proof fn scan_fails(rows: Seq<Seq<char>>, n: int)
    requires
        0 <= n <= rows.len(),
        scan(rows.take(n)) is Failed,
    ensures
        scan(rows) == scan(rows.take(n)),
    decreases rows.len() - n,
{
    if n < rows.len() {
        assert(rows.take(n + 1).drop_last() =~= rows.take(n));
        scan_fails(rows, n + 1);
    } else {
        assert(rows.take(n) =~= rows);
    }
}

impl DiffError {
    /// The message of the error.
    pub fn message(&self) -> (r: String)
        ensures
            r@ == match self {
                DiffError::MalformedHunkHeader(line) => "malformed hunk header: "@ + line@,
                DiffError::MissingNewRange(line) => "hunk header missing new-file range: "@ + line@,
                DiffError::BadHunkStart(line) => "bad hunk start: "@ + line@,
                DiffError::BadHunkCount(line) => "bad hunk count: "@ + line@,
                DiffError::RangeTooLong(line) => "hunk range too long: "@ + line@,
            },
    {
        let (label, line) = match self {
            DiffError::MalformedHunkHeader(line) => ("malformed hunk header: ", line),
            DiffError::MissingNewRange(line) => ("hunk header missing new-file range: ", line),
            DiffError::BadHunkStart(line) => ("bad hunk start: ", line),
            DiffError::BadHunkCount(line) => ("bad hunk count: ", line),
            DiffError::RangeTooLong(line) => ("hunk range too long: ", line),
        };
        let mut out = label.to_owned();
        out.append(line.as_str());
        out
    }
}

/// A file that is reported has lines: files without new lines and deleted files are left out.
pub proof fn reported_files_have_lines(rows: Seq<Seq<char>>)
    ensures
        scan(rows) matches Outcome::Read(s) ==> forall|i: int|
            0 <= i < closed_files(s).len() ==> (#[trigger] closed_files(s)[i]).lines
                != Set::<u32>::empty(),
    decreases rows.len(),
{
    if rows.len() > 0 {
        reported_files_have_lines(rows.drop_last());
        if let Outcome::Read(s) = scan(rows) {
            let before = scan(rows.drop_last())->Read_0;
            assert forall|i: int| 0 <= i < s.files.len() implies (#[trigger] s.files[i]).lines
                != Set::<u32>::empty() by {
                assert(closed_files(before)[i] == s.files[i]);
            }
        }
    }
}

/// The lines that a hunk adds name no file and no hunk, whatever their texts are.
pub proof fn added_lines_are_no_headers(rows: Seq<Seq<char>>, added: Seq<Seq<char>>)
    requires
        scan(rows) matches Outcome::Read(s) && added.len() <= s.new_left,
        forall|i: int|
            0 <= i < added.len() ==> (#[trigger] added[i]).len() > 0 && added[i][0] == '+',
    ensures
        scan(rows + added) == Outcome::Read(
            Scan {
                new_left: (scan(rows)->Read_0.new_left - added.len()) as nat,
                ..scan(rows)->Read_0
            },
        ),
    decreases added.len(),
{
    if added.len() == 0 {
        assert(rows + added =~= rows);
    } else {
        added_lines_are_no_headers(rows, added.drop_last());
        assert((rows + added).drop_last() =~= rows + added.drop_last());
        assert((rows + added).last() == added[added.len() - 1]);
    }
}

/// What reading a text gives, put behind files that are done.
pub open spec fn behind(files: Seq<Marked>, o: Outcome) -> Outcome {
    match o {
        Outcome::Read(u) => Outcome::Read(Scan { files: files + u.files, ..u }),
        failed => failed,
    }
}

proof fn rows_are_independent(a: Seq<Seq<char>>, b: Seq<Seq<char>>)
    requires
        scan(a) matches Outcome::Read(s) && s.new_left == 0,
        b.len() > 0,
        "+++ "@.is_prefix_of(b[0]),
    ensures
        scan(a + b) == behind(closed_files(scan(a)->Read_0), scan(b)),
    decreases b.len(),
{
    let s = scan(a)->Read_0;
    let front = b.drop_last();
    assert((a + b).drop_last() =~= a + front);
    assert((a + b).last() == b.last());
    if b.len() == 1 {
        reveal_strlit("+++ ");
        assert(b[0][0] == "+++ "@[0]);
        assert(a + front =~= a);
        assert(scan(front) == Outcome::Read(
            Scan { files: Seq::empty(), current: None, new_left: 0, old_left: 0 },
        ));
        assert(closed_files(s) + Seq::<Marked>::empty() =~= closed_files(s));
    } else {
        rows_are_independent(a, front);
        if let Outcome::Read(u) = scan(front) {
            let v = Scan { files: closed_files(s) + u.files, ..u };
            assert(closed_files(v) =~= closed_files(s) + closed_files(u));
        }
    }
}

/// The lines of two texts put together, where the first ends with a line.
proof fn lines_of_joined(a: Seq<char>, b: Seq<char>)
    requires
        a.len() == 0 || a.last() == '\n',
    ensures
        lines_of(a + b) == lines_of(a) + lines_of(b),
    decreases a.len(),
{
    if a.len() == 0 {
        assert(a + b =~= b);
        assert(lines_of(a) + lines_of(b) =~= lines_of(b));
    } else {
        first_index_props(a, '\n');
        let i = first_index(a, '\n');
        if i == a.len() {
            assert(a[a.len() - 1] != '\n');
        }
        assert forall|j: int| 0 <= j < i implies (a + b)[j] != '\n' by {
            assert((a + b)[j] == a[j]);
        }
        first_index_unique(a + b, '\n', i);
        let rest = a.skip(i + 1);
        if rest.len() > 0 {
            assert(rest.last() == a.last());
        }
        lines_of_joined(rest, b);
        assert((a + b).take(i) =~= a.take(i));
        assert((a + b).skip(i + 1) =~= rest + b);
        assert(lines_of(a + b) =~= lines_of(a) + lines_of(b));
    }
}

/// The sections of a diff are independent: where a text ends with a whole line and its last hunk
/// is whole, and another begins with the header of a file, the two put together give the files of
/// the first and behind them those of the second, and fail where the second fails.
pub proof fn sections_are_independent(a: Seq<char>, b: Seq<char>)
    requires
        a.len() == 0 || a.last() == '\n',
        "+++ "@.is_prefix_of(b),
        scan(lines_of(a)) matches Outcome::Read(s) && s.new_left == 0,
    ensures
        match scan(lines_of(b)) {
            Outcome::Read(u) => scan(lines_of(a + b)) matches Outcome::Read(v) && closed_files(v)
                == closed_files(scan(lines_of(a))->Read_0) + closed_files(u),
            failed => scan(lines_of(a + b)) == failed,
        },
{
    reveal_strlit("+++ ");
    lines_of_joined(a, b);
    first_index_props(b, '\n');
    let i = first_index(b, '\n');
    let rows = lines_of(b);
    assert forall|j: int| 0 <= j < 4 implies b[j] == "+++ "@[j] by {
        assert(b.subrange(0, 4)[j] == "+++ "@[j]);
    }
    assert(i >= 4);
    assert(rows[0] =~= if i < b.len() {
        without_cr(b.take(i))
    } else {
        b
    });
    assert(rows[0].len() >= 4) by {
        if i < b.len() && i == 4 {
            assert(b.take(i).last() == b[3]);
        }
    }
    assert("+++ "@.is_prefix_of(rows[0])) by {
        assert(rows[0].subrange(0, 4) =~= "+++ "@);
    }
    rows_are_independent(lines_of(a), rows);
    if let Outcome::Read(u) = scan(rows) {
        let done = closed_files(scan(lines_of(a))->Read_0);
        assert(closed_files(Scan { files: done + u.files, ..u }) =~= done + closed_files(u));
    }
}

/// A range of a hunk header is a first line and, behind a comma, a number of lines, which is one
/// where it is left out.
pub proof fn ranges_are_a_start_and_a_count(start: Seq<char>, count: Seq<char>)
    requires
        !start.contains(','),
    ensures
        range_of(start + seq![','] + count) == match (
            unsigned_value(start, u32::MAX as nat),
            unsigned_value(count, u32::MAX as nat),
        ) {
            (None, _) => Err::<(nat, nat), HunkFault>(HunkFault::BadStart),
            (Some(_), None) => Err::<(nat, nat), HunkFault>(HunkFault::BadCount),
            (Some(a), Some(n)) => if a + n <= u32::MAX + 1 {
                Ok::<(nat, nat), HunkFault>((a, n))
            } else {
                Err::<(nat, nat), HunkFault>(HunkFault::TooLong)
            },
        },
        range_of(start) == match unsigned_value(start, u32::MAX as nat) {
            None => Err::<(nat, nat), HunkFault>(HunkFault::BadStart),
            Some(a) => Ok::<(nat, nat), HunkFault>((a, 1)),
        },
        count_of(start + seq![','] + count) == match unsigned_value(count, u32::MAX as nat) {
            Some(n) => n,
            None => 0,
        },
        count_of(start) == 1,
{
    let s = start + seq![','] + count;
    assert forall|j: int| 0 <= j < start.len() implies s[j] != ',' && start[j] != ',' by {
        assert(s[j] == start[j]);
        assert(start.contains(start[j]));
    }
    assert(s[start.len() as int] == ',');
    first_index_unique(s, ',', start.len() as int);
    first_index_unique(start, ',', start.len() as int);
    assert(s.take(start.len() as int) =~= start);
    assert(s.skip(start.len() as int + 1) =~= count);
}

/// A hunk header names the lines of the old side behind a `-` and those of the new side behind a
/// `+`, up to the closing marker; what stands behind that does not count.
pub proof fn hunk_headers_name_both_sides(old: Seq<char>, new: Seq<char>, tail: Seq<char>)
    requires
        forall|i: int| 0 <= i < old.len() ==> !is_space(#[trigger] old[i]),
        forall|i: int| 0 <= i < new.len() ==> !is_space(#[trigger] new[i]),
    ensures
        ({
            let rest = seq!['-'] + old + seq![' ', '+'] + new + " @@"@ + tail;
            &&& hunk_range(rest) == range_of(new)
            &&& old_count(rest) == count_of(old)
        }),
{
    reveal_strlit(" @@");
    let a = seq!['-'] + old;
    let b = seq!['+'] + new;
    let pat = " @@"@;
    let rest = seq!['-'] + old + seq![' ', '+'] + new + pat + tail;
    let k = a.len() + 1 + b.len();
    assert(pat =~= seq![' ', '@', '@']);
    assert(rest =~= a + seq![' '] + b + pat + tail);
    assert(rest.subrange(k as int, k as int + 3) =~= pat);
    assert(occurs_at(rest, pat, k as int));
    assert(!is_space('-') && !is_space('+') && is_space(' '));
    assert forall|i: int| 0 <= i < k implies !occurs_at(rest, pat, i) by {
        if occurs_at(rest, pat, i) {
            let w = rest.subrange(i, i + 3);
            assert(w[0] == ' ' && w[1] == '@');
            assert(rest[i] == w[0] && rest[i + 1] == w[1]);
            if i < a.len() {
                assert(rest[i] == a[i]);
                if i > 0 {
                    assert(a[i] == old[i - 1]);
                }
            } else if i == a.len() {
                assert(rest[i + 1] == '+');
            } else {
                assert(rest[i] == b[i - a.len() - 1]);
                if i > a.len() + 1 {
                    assert(b[i - a.len() - 1] == new[i - a.len() - 2]);
                }
            }
        }
    }
    first_occurrence_is(rest, pat, k as int);
    let head = rest.take(k as int);
    let none = Seq::<char>::empty();
    assert(head =~= none + a + (seq![' '] + b));
    assert forall|i: int| 0 <= i < a.len() implies !is_space(#[trigger] a[i]) by {
        if i > 0 {
            assert(a[i] == old[i - 1]);
        }
    }
    assert forall|i: int| 0 <= i < b.len() implies !is_space(#[trigger] b[i]) by {
        if i > 0 {
            assert(b[i] == new[i - 1]);
        }
    }
    words_stand_between_spaces(none, a, seq![' '] + b);
    words_stand_between_spaces(seq![' '], b, none);
    assert(seq![' '] + b + none =~= seq![' '] + b);
    let gap = Seq::<char>::empty();
    words_stand_between_spaces(gap, b, none);
    let words = words_of(head);
    assert(words_of(none).len() == 0);
    assert(words_of(seq![' '] + b) =~= seq![b]);
    assert(words =~= seq![a, b]);
    assert(words[0] == a && words[1] == b);
    assert(words.drop_first() =~= seq![b]);
    assert(first_marked(seq![b], '+') == Some(b));
    assert(first_marked(words, '+') == Some(b));
    assert(first_marked(words, '-') == Some(a));
    assert(b.skip(1) =~= new);
    assert(a.skip(1) =~= old);
}

/// The lines of a range are those from its first line on, as many as it counts.
pub proof fn lines_of_a_range(start: nat, count: nat, n: u32)
    ensures
        lines_in(start, count).contains(n) <==> start <= n && n < start + count,
{
}

/// A line that names a file ends the one before, which is kept where it has lines, and begins
/// the named one, without the `b/` in front of it; a deleted file begins none.
pub proof fn file_lines_begin_files(rows: Seq<Seq<char>>, name: Seq<char>)
    requires
        scan(rows) matches Outcome::Read(s) && s.new_left == 0 && s.old_left == 0,
        !(seq!['b', '/'].is_prefix_of(name)),
        name != "/dev/null"@,
    ensures
        ({
            let s = scan(rows)->Read_0;
            let kept = match s.current {
                Some(f) => if f.lines == Set::<u32>::empty() {
                    s.files
                } else {
                    s.files.push(f)
                },
                None => s.files,
            };
            let begun = Some(
                Marked { path: path_of(name), spelled: name, lines: Set::<u32>::empty() },
            );
            &&& scan(rows.push("+++ "@ + name)) == Outcome::Read(
                Scan { files: kept, current: begun, new_left: 0, old_left: 0 },
            )
            &&& scan(rows.push("+++ "@ + (seq!['b', '/'] + name))) == Outcome::Read(
                Scan { files: kept, current: begun, new_left: 0, old_left: 0 },
            )
            &&& scan(rows.push("+++ "@ + "/dev/null"@)) == Outcome::Read(
                Scan { files: kept, current: None, new_left: 0, old_left: 0 },
            )
            &&& closed_files(s) == kept
        }),
{
    reveal_strlit("+++ ");
    reveal_strlit("b/");
    reveal_strlit("/dev/null");
    let s = scan(rows)->Read_0;
    let b = seq!['b', '/'];
    assert("b/"@ =~= b);
    let label = "+++ "@;
    assert(label.len() == 4 && label[0] == '+');
    assert forall|x: Seq<char>| #[trigger] stripped(label + x, label) == Some(x) by {
        assert(label =~= (label + x).subrange(0, 4));
        assert((label + x).skip(4) =~= x);
    }
    assert(stripped(b + name, b) == Some(name)) by {
        assert(b =~= (b + name).subrange(0, 2));
        assert((b + name).skip(2) =~= name);
    }
    assert("/dev/null"@[0] == '/');
    assert((b + name)[0] == 'b');
    assert(b + name != "/dev/null"@);
    if let Some(f) = s.current {
        assert((f.lines =~= Set::<u32>::empty()) <==> f.lines == Set::<u32>::empty());
    }
    assert(stripped(label + name, label) == Some(name));
    assert(stripped(label + (b + name), label) == Some(b + name));
    assert(stripped(label + "/dev/null"@, label) == Some("/dev/null"@));
    assert(rows.push(label + name).drop_last() =~= rows);
    assert(rows.push(label + (b + name)).drop_last() =~= rows);
    assert(rows.push(label + "/dev/null"@).drop_last() =~= rows);
}

/// A hunk header adds the lines of its new side to the file that was begun, and leaves all else;
/// one that cannot be read is an error with that line.
pub proof fn hunks_add_their_lines(rows: Seq<Seq<char>>, rest: Seq<char>, f: Marked)
    requires
        scan(rows) matches Outcome::Read(s) && s.new_left == 0 && s.old_left == 0 && s.current
            == Some(f),
    ensures
        match hunk_range(rest) {
            Ok((start, count)) => scan(rows.push("@@ "@ + rest)) matches Outcome::Read(u) && u.files
                == scan(rows)->Read_0.files && u.new_left == count && u.old_left == old_count(rest)
                && u.current is Some && u.current->0.path == f.path && u.current->0.spelled
                == f.spelled && forall|n: u32| #[trigger]
                u.current->0.lines.contains(n) <==> f.lines.contains(n) || (start <= n && n < start
                    + count),
            Err(fault) => scan(rows.push("@@ "@ + rest)) == Outcome::Failed(
                fault,
                "@@ "@ + rest,
            ),
        },
{
    reveal_strlit("@@ ");
    reveal_strlit("+++ ");
    let label = "@@ "@;
    let line = label + rest;
    assert(label.len() == 3 && label[0] == '@');
    assert(label =~= line.subrange(0, 3));
    assert(line.skip(3) =~= rest);
    assert(stripped(line, label) == Some(rest));
    assert(line[0] == '@');
    assert(!("+++ "@.is_prefix_of(line))) by {
        if "+++ "@.is_prefix_of(line) {
            assert("+++ "@ =~= line.subrange(0, 4));
            assert("+++ "@[0] == line.subrange(0, 4)[0]);
        }
    }
    assert(rows.push(line).drop_last() =~= rows);
}

/// Outside of hunks, lines that neither name a file nor begin a hunk change nothing; and once
/// something could not be read, nothing that follows is.
pub proof fn other_lines_change_nothing(rows: Seq<Seq<char>>, line: Seq<char>)
    ensures
        scan(rows) matches Outcome::Read(s) ==> s.new_left == 0 && s.old_left == 0
            && !"+++ "@.is_prefix_of(line) && !"@@ "@.is_prefix_of(line) ==> scan(rows.push(line))
            == scan(rows),
        scan(rows) is Failed ==> scan(rows.push(line)) == scan(rows),
        scan(Seq::empty()) == Outcome::Read(
            Scan { files: Seq::empty(), current: None, new_left: 0, old_left: 0 },
        ),
{
    assert(rows.push(line).drop_last() =~= rows);
}

/// Within a hunk, an added line counts on the new side, a removed one on the old side and a
/// context line on both; each is passed over.
pub proof fn lines_of_a_hunk_are_passed_over(rows: Seq<Seq<char>>, line: Seq<char>)
    requires
        scan(rows) is Read,
        line.len() > 0,
    ensures
        ({
            let s = scan(rows)->Read_0;
            let t = scan(rows.push(line));
            &&& line[0] == '+' && s.new_left > 0 ==> t == Outcome::Read(
                Scan { new_left: (s.new_left - 1) as nat, ..s },
            )
            &&& line[0] == '-' && s.old_left > 0 ==> t == Outcome::Read(
                Scan { old_left: (s.old_left - 1) as nat, ..s },
            )
            &&& line[0] == ' ' && s.new_left > 0 && s.old_left > 0 ==> t == Outcome::Read(
                Scan {
                    new_left: (s.new_left - 1) as nat,
                    old_left: (s.old_left - 1) as nat,
                    ..s
                },
            )
            &&& line[0] == '\\' && (s.new_left > 0 || s.old_left > 0) ==> t == Outcome::Read(s)
        }),
{
    assert(rows.push(line).drop_last() =~= rows);
}

/// What is read of a file is its path as it was spelled and its lines, each once and in order.
pub proof fn files_have_their_lines_once(v: Seq<ChangedFile>, ms: Seq<Marked>)
    requires
        files_are(v, ms),
    ensures
        v.len() == ms.len(),
        forall|i: int|
            #![trigger v[i]]
            0 <= i < v.len() ==> v[i].path@ == ms[i].path && v[i].path.spelling() == ms[i].spelled
                && (forall|n: u32| #[trigger]
                v[i].lines@.contains(n) <==> ms[i].lines.contains(n)) && (forall|a: int, b: int|
                0 <= a < b < v[i].lines@.len() ==> v[i].lines@[a] < v[i].lines@[b]),
{
    assert forall|i: int| #![trigger v[i]] 0 <= i < v.len() implies v[i].path@ == ms[i].path
        && v[i].path.spelling() == ms[i].spelled && (forall|n: u32| #[trigger]
        v[i].lines@.contains(n) <==> ms[i].lines.contains(n)) && (forall|a: int, b: int|
        0 <= a < b < v[i].lines@.len() ==> v[i].lines@[a] < v[i].lines@[b]) by {
        assert(file_is(v[i], ms[i]));
        assert forall|n: u32| #[trigger] v[i].lines@.contains(n) <==> ms[i].lines.contains(n) by {
            assert(v[i].lines@.to_set().contains(n) <==> ms[i].lines.contains(n));
        }
    }
}

/// An error tells the fault and the line that it was found in.
pub proof fn errors_tell_their_line(e: DiffError, fault: HunkFault, line: Seq<char>)
    ensures
        error_is(e, fault, line) <==> match fault {
            HunkFault::Malformed => e is MalformedHunkHeader && e->MalformedHunkHeader_0@ == line,
            HunkFault::NoRange => e is MissingNewRange && e->MissingNewRange_0@ == line,
            HunkFault::BadStart => e is BadHunkStart && e->BadHunkStart_0@ == line,
            HunkFault::BadCount => e is BadHunkCount && e->BadHunkCount_0@ == line,
            HunkFault::TooLong => e is RangeTooLong && e->RangeTooLong_0@ == line,
        },
{
}

} // verus!
