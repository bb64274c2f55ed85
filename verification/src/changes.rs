//! The changed `.rs` files between two trees, from the blobs of their changes.

use crate::diff::{ascending, ChangedFile};
use crate::number::{decimal, push_decimal};
use crate::path::{path_has_extension, PathBuf};
use gix::diff::blob::{diff_with_slider_heuristics, Algorithm, InternedInput};
use vstd::prelude::*;

verus! {

/// How a tree entry changed.
#[derive(Debug, Clone, Copy, PartialEq, Eq, Structural)]
pub enum ChangeKind {
    Deletion,
    Addition,
    Modification,
    Rewrite,
}

/// The blobs of a change that have to be compared.
#[derive(Debug, Clone, Copy, PartialEq, Eq, Structural)]
pub enum Blobs {
    /// The change is of no interest.
    Neither,
    /// The new blob alone; there is nothing before it.
    New,
    /// The blob before and the new one.
    Both,
}

/// The blobs that decide which lines a change adds. Only `.rs` files that still exist count.
pub open spec fn blobs_of(kind: ChangeKind, rust_file: bool) -> Blobs {
    if kind == ChangeKind::Deletion || !rust_file {
        Blobs::Neither
    } else if kind == ChangeKind::Addition {
        Blobs::New
    } else {
        Blobs::Both
    }
}

/// The blobs to read for a change of the given path.
pub fn blobs_to_compare(kind: ChangeKind, path: &PathBuf) -> (r: Blobs)
    ensures
        r == blobs_of(kind, path_has_extension(path@, "rs"@)),
        r == Blobs::Neither <==> kind == ChangeKind::Deletion || !path_has_extension(
            path@,
            "rs"@,
        ),
        r == Blobs::New <==> kind == ChangeKind::Addition && path_has_extension(path@, "rs"@),
        r == Blobs::Both <==> (kind == ChangeKind::Modification || kind == ChangeKind::Rewrite)
            && path_has_extension(path@, "rs"@),
{
    if matches!(kind, ChangeKind::Deletion) || !path.has_extension("rs") {
        return Blobs::Neither;
    }
    if matches!(kind, ChangeKind::Addition) {
        Blobs::New
    } else {
        Blobs::Both
    }
}

/// Number of line feeds.
pub open spec fn line_feeds(data: Seq<u8>) -> nat
    decreases data.len(),
{
    if data.len() == 0 {
        0
    } else if data.last() == 10 {
        line_feeds(data.drop_last()) + 1
    } else {
        line_feeds(data.drop_last())
    }
}

/// Number of lines of a blob. A last line without an ending counts.
pub open spec fn line_total(data: Seq<u8>) -> nat {
    if data.len() == 0 {
        0
    } else {
        1 + line_feeds(data.drop_last())
    }
}

/// Whether two blobs are within what the line diff can take: both and the sum of both are
/// short enough for its 32-bit line numbers, and their sizes for its estimate of the lines.
pub open spec fn within_limits(before: Seq<u8>, after: Seq<u8>) -> bool {
    &&& line_total(before) + line_total(after) < i32::MAX
    &&& before.len() * 20 <= usize::MAX
    &&& after.len() * 20 <= usize::MAX
}

/// Counts the lines of a blob.
fn count_lines(data: &[u8]) -> (r: usize)
    ensures
        r == line_total(data@),
{
    if data.len() == 0 {
        return 0;
    }
    let n = data.len() - 1;
    let ghost body = data@.drop_last();
    let mut feeds: usize = 0;
    let mut i: usize = 0;
    assert(body.take(0) =~= Seq::<u8>::empty());
    while i < n
        invariant
            i <= n,
            n == data@.len() - 1,
            body == data@.drop_last(),
            feeds <= i,
            feeds == line_feeds(body.take(i as int)),
        decreases n - i,
    {
        proof {
            assert(body.take(i + 1).drop_last() =~= body.take(i as int));
            assert(body.take(i + 1).last() == data@[i as int]);
        }
        if data[i] == 10 {
            feeds = feeds + 1;
        }
        i = i + 1;
    }
    assert(body.take(i as int) =~= body);
    feeds + 1
}

/// Whether two blobs are within what the line diff can take.
pub fn can_compare(before: &[u8], after: &[u8]) -> (r: bool)
    ensures
        r == within_limits(before@, after@),
{
    let a = count_lines(before);
    let b = count_lines(after);
    a < i32::MAX as usize && b < i32::MAX as usize - a && before.len() <= usize::MAX / 20
        && after.len() <= usize::MAX / 20
}

/// The ranges of 0-based lines of the new blob that a line diff of two blobs adds, as
/// [`added_ranges`] gives them.
pub uninterp spec fn ranges_added(before: Seq<u8>, after: Seq<u8>) -> Seq<(u32, u32)>;

/// The new-side ranges of `gix::diff::blob::Diff::hunks`, for the diff that
/// `diff_with_slider_heuristics` computes of the lines of two blobs by the histogram
/// algorithm. The ranges are a function of the two blobs. They lie within the lines of the new
/// blob and come in ascending order with a gap between any two, some of them may be empty.
/// Nothing is added to a blob that did not change, and all of a blob that follows an empty
/// one is added, in one range.
#[verifier::external_body]
fn added_ranges(before: &[u8], after: &[u8]) -> (r: Vec<(u32, u32)>)
    requires
        within_limits(before@, after@),
    ensures
        r@ == ranges_added(before@, after@),
        forall|i: int|
            0 <= i < r@.len() ==> (#[trigger] r@[i]).0 <= r@[i].1 && r@[i].1 <= line_total(after@),
        forall|i: int, j: int| 0 <= i < j < r@.len() ==> (#[trigger] r@[i]).1 < (#[trigger] r@[j]).0,
        before@ == after@ ==> r@.len() == 0,
        before@.len() == 0 && after@.len() > 0 ==> r@ == seq![(0u32, line_total(after@) as u32)],
{
    let input = InternedInput::new(before, after);
    let diff = diff_with_slider_heuristics(Algorithm::Histogram, &input);
    diff.hunks().map(|hunk| (hunk.after.start, hunk.after.end)).collect()
}

/// The 1-based numbers of a range of 0-based lines.
pub open spec fn numbers_of(range: (u32, u32)) -> Seq<u32> {
    Seq::new(
        if range.0 <= range.1 {
            (range.1 - range.0) as nat
        } else {
            0
        },
        |k: int| (range.0 + k + 1) as u32,
    )
}

/// The 1-based numbers of a row of ranges of 0-based lines.
pub open spec fn numbers_in(ranges: Seq<(u32, u32)>) -> Seq<u32>
    decreases ranges.len(),
{
    if ranges.len() == 0 {
        Seq::empty()
    } else {
        numbers_in(ranges.drop_last()) + numbers_of(ranges.last())
    }
}

/// A number is among those of a row of ranges exactly where it lies behind the start of one of
/// them and not behind its end, wherever in the file that range stands.
pub proof fn numbers_lie_in_ranges(ranges: Seq<(u32, u32)>, n: u32)
    ensures
        numbers_in(ranges).contains(n) <==> exists|i: int|
            0 <= i < ranges.len() && (#[trigger] ranges[i]).0 < n && n <= ranges[i].1,
    decreases ranges.len(),
{
    let all = numbers_in(ranges);
    if ranges.len() > 0 {
        let front = ranges.drop_last();
        numbers_lie_in_ranges(front, n);
        let done = numbers_in(front);
        let last = ranges.last();
        let more = numbers_of(last);
        assert(ranges[ranges.len() - 1] == last);
        if done.contains(n) {
            let k = choose|k: int| 0 <= k < done.len() && done[k] == n;
            assert(all[k] == n);
            let i = choose|i: int|
                0 <= i < front.len() && (#[trigger] front[i]).0 < n && n <= front[i].1;
            assert(ranges[i] == front[i]);
        }
        if last.0 < n && n <= last.1 {
            assert(more[n - last.0 - 1] == n);
            assert(all[done.len() + n - last.0 - 1] == n);
        }
        if all.contains(n) && !done.contains(n) {
            let k = choose|k: int| 0 <= k < all.len() && all[k] == n;
            if k < done.len() {
                assert(done[k] == n);
            } else {
                assert(more[k - done.len()] == n);
            }
        }
        if exists|i: int| 0 <= i < ranges.len() && (#[trigger] ranges[i]).0 < n && n <= ranges[i].1 {
            let i = choose|i: int|
                0 <= i < ranges.len() && (#[trigger] ranges[i]).0 < n && n <= ranges[i].1;
            if i < front.len() {
                assert(front[i] == ranges[i]);
            }
        }
    }
}

/// Two rows of ranges put together have the numbers of the one and then those of the other.
pub proof fn numbers_of_joined(a: Seq<(u32, u32)>, b: Seq<(u32, u32)>)
    ensures
        numbers_in(a + b) == numbers_in(a) + numbers_in(b),
    decreases b.len(),
{
    if b.len() == 0 {
        assert(a + b =~= a);
        assert(numbers_in(a) + numbers_in(b) =~= numbers_in(a));
    } else {
        assert((a + b).drop_last() =~= a + b.drop_last());
        numbers_of_joined(a, b.drop_last());
        assert(numbers_in(a + b) =~= numbers_in(a) + numbers_in(b));
    }
}

/// A range has as many numbers as lines.
pub proof fn a_range_has_all_its_numbers(start: u32, end: u32)
    requires
        start <= end,
    ensures
        numbers_in(seq![(start, end)]) == Seq::new(
            (end - start) as nat,
            |k: int| (start + 1 + k) as u32,
        ),
{
    let row = seq![(start, end)];
    assert(row.drop_last() =~= Seq::<(u32, u32)>::empty());
    assert(numbers_in(row.drop_last()) =~= Seq::<u32>::empty());
    assert(numbers_in(row) =~= Seq::new((end - start) as nat, |k: int| (start + 1 + k) as u32));
}

/// Line feeds are counted: those of two blobs put together are those of both.
pub proof fn line_feeds_add_up(a: Seq<u8>, b: Seq<u8>)
    ensures
        line_feeds(a + b) == line_feeds(a) + line_feeds(b),
    decreases b.len(),
{
    if b.len() == 0 {
        assert(a + b =~= a);
    } else {
        assert((a + b).drop_last() =~= a + b.drop_last());
        line_feeds_add_up(a, b.drop_last());
    }
}

/// A blob that ends in a line feed and one behind it have the lines of both.
pub proof fn lines_add_up(a: Seq<u8>, b: Seq<u8>)
    requires
        a.len() > 0,
        a.last() == 10,
    ensures
        line_total(a + b) == line_total(a) + line_total(b),
{
    if b.len() == 0 {
        assert(a + b =~= a);
    } else {
        assert((a + b).drop_last() =~= a + b.drop_last());
        line_feeds_add_up(a, b.drop_last());
    }
}

/// A blob that holds a line feed at its end at most is one line, unless it is empty.
pub proof fn a_line_is_one_line(data: Seq<u8>)
    requires
        data.len() > 0,
        forall|i: int| 0 <= i < data.len() - 1 ==> #[trigger] data[i] != 10,
    ensures
        line_total(data) == 1,
{
    no_line_feeds(data.drop_last());
}

proof fn no_line_feeds(data: Seq<u8>)
    requires
        forall|i: int| 0 <= i < data.len() ==> #[trigger] data[i] != 10,
    ensures
        line_feeds(data) == 0,
    decreases data.len(),
{
    if data.len() > 0 {
        let front = data.drop_last();
        assert forall|i: int| 0 <= i < front.len() implies #[trigger] front[i] != 10 by {
            assert(front[i] == data[i]);
        }
        no_line_feeds(front);
        assert(data[data.len() - 1] == data.last());
    }
}

/// Whether ranges come in order, one behind the other, and leave room for 1-based numbers.
pub open spec fn in_order(ranges: Seq<(u32, u32)>) -> bool {
    &&& forall|i: int|
        0 <= i < ranges.len() ==> (#[trigger] ranges[i]).0 <= ranges[i].1 && ranges[i].1 < u32::MAX
    &&& forall|i: int, j: int|
        0 <= i < j < ranges.len() ==> (#[trigger] ranges[i]).1 < (#[trigger] ranges[j]).0
}

/// The numbers of ranges in order are ascending.
pub proof fn numbers_ascend(ranges: Seq<(u32, u32)>)
    requires
        in_order(ranges),
    ensures
        ascending(numbers_in(ranges)),
        forall|i: int|
            0 <= i < numbers_in(ranges).len() ==> 1 <= #[trigger] numbers_in(ranges)[i]
                && numbers_in(ranges)[i] <= ranges.last().1,
    decreases ranges.len(),
{
    if ranges.len() > 0 {
        let front = ranges.drop_last();
        assert forall|i: int| 0 <= i < front.len() implies #[trigger] front[i] == ranges[i] by {}
        numbers_ascend(front);
        let done = numbers_in(front);
        let more = numbers_of(ranges.last());
        let all = numbers_in(ranges);
        assert(ranges[ranges.len() - 1].1 < u32::MAX);
        if front.len() > 0 {
            assert(front.last() == ranges[front.len() - 1]);
            assert(ranges[front.len() - 1].1 < ranges[ranges.len() - 1].0);
        }
        assert forall|i: int| 0 <= i < all.len() implies 1 <= #[trigger] all[i] && all[i]
            <= ranges.last().1 by {
            if i < done.len() {
                assert(all[i] == done[i]);
            } else {
                assert(all[i] == more[i - done.len()]);
            }
        }
        assert forall|i: int, j: int| 0 <= i < j < all.len() implies all[i] < all[j] by {
            if j < done.len() {
                assert(all[i] == done[i] && all[j] == done[j]);
            } else {
                assert(all[j] == more[j - done.len()]);
                if i < done.len() {
                    assert(all[i] == done[i]);
                } else {
                    assert(all[i] == more[i - done.len()]);
                }
            }
        }
    }
}

/// The 1-based numbers of a row of ranges.
pub fn range_numbers(ranges: &Vec<(u32, u32)>) -> (out: Vec<u32>)
    requires
        in_order(ranges@),
    ensures
        out@ == numbers_in(ranges@),
        ascending(out@),
        forall|n: u32| #[trigger]
            out@.contains(n) <==> exists|i: int|
                0 <= i < ranges@.len() && (#[trigger] ranges@[i]).0 < n && n <= ranges@[i].1,
{
    let mut out: Vec<u32> = Vec::new();
    let mut i: usize = 0;
    assert(ranges@.take(0) =~= Seq::<(u32, u32)>::empty());
    while i < ranges.len()
        invariant
            i <= ranges@.len(),
            in_order(ranges@),
            out@ == numbers_in(ranges@.take(i as int)),
        decreases ranges.len() - i,
    {
        let (start, end) = ranges[i];
        let ghost done = out@;
        let mut n: u32 = start;
        assert(ranges@[i as int] == (start, end));
        while n < end
            invariant
                start <= n <= end < u32::MAX,
                out@ == done + numbers_of((start, end)).take(n - start),
            decreases end - n,
        {
            out.push(n + 1);
            proof {
                let row = numbers_of((start, end));
                assert(row.take(n + 1 - start) =~= row.take(n - start).push((n + 1) as u32));
                assert(out@ =~= done + row.take(n + 1 - start));
            }
            n = n + 1;
        }
        proof {
            let row = numbers_of((start, end));
            assert(row.take(n - start) =~= row);
            assert(ranges@.take(i + 1).drop_last() =~= ranges@.take(i as int));
            assert(ranges@.take(i + 1).last() == (start, end));
        }
        i = i + 1;
    }
    proof {
        assert(ranges@.take(i as int) =~= ranges@);
        numbers_ascend(ranges@);
        assert forall|n: u32| #[trigger] out@.contains(n) <==> exists|i: int|
            0 <= i < ranges@.len() && (#[trigger] ranges@[i]).0 < n && n <= ranges@[i].1 by {
            numbers_lie_in_ranges(ranges@, n);
        }
    }
    out
}

/// Whether numbers are 1-based numbers of lines of a blob.
pub open spec fn numbered(lines: Seq<u32>, data: Seq<u8>) -> bool {
    forall|i: int| 0 <= i < lines.len() ==> 1 <= #[trigger] lines[i] <= line_total(data)
}

/// The 1-based numbers of the lines that the new blob adds.
pub fn added_lines(before: &[u8], after: &[u8]) -> (out: Vec<u32>)
    requires
        within_limits(before@, after@),
    ensures
        out@ == numbers_in(ranges_added(before@, after@)),
        ascending(out@),
        numbered(out@, after@),
        before@ == after@ ==> out@.len() == 0,
        before@.len() == 0 ==> out@ == Seq::new(line_total(after@), |k: int| (k + 1) as u32),
        forall|n: u32| #[trigger]
            out@.contains(n) <==> exists|i: int|
                0 <= i < ranges_added(before@, after@).len() && (#[trigger] ranges_added(
                    before@,
                    after@,
                )[i]).0 < n && n <= ranges_added(before@, after@)[i].1,
{
    let ranges = added_ranges(before, after);
    proof {
        numbers_ascend(ranges@);
        if ranges@.len() > 0 {
            assert(ranges@[ranges@.len() - 1].1 <= line_total(after@));
        }
        if before@ == after@ {
            assert(numbers_in(ranges@) =~= Seq::<u32>::empty());
        }
        if before@.len() == 0 {
            if after@.len() == 0 {
                assert(before@ =~= after@);
                assert(numbers_in(ranges@) =~= Seq::new(0, |k: int| (k + 1) as u32));
            } else {
                assert(ranges@.drop_last() =~= Seq::<(u32, u32)>::empty());
                assert(numbers_in(ranges@.drop_last()) =~= Seq::<u32>::empty());
                assert(numbers_in(ranges@) =~= Seq::new(
                    line_total(after@),
                    |k: int| (k + 1) as u32,
                ));
            }
        }
    }
    range_numbers(&ranges)
}

/// The changed file that two blobs amount to. One without added lines is left out.
pub fn changed_file_from(path: PathBuf, prev_data: &[u8], new_data: &[u8]) -> (r: Option<
    ChangedFile,
>)
    requires
        within_limits(prev_data@, new_data@),
    ensures
        match r {
            Some(f) => f.path == path && f.lines@ == numbers_in(
                ranges_added(prev_data@, new_data@),
            ) && f.lines@.len() > 0 && ascending(f.lines@) && numbered(f.lines@, new_data@),
            None => numbers_in(ranges_added(prev_data@, new_data@)).len() == 0,
        },
        prev_data@ == new_data@ ==> r is None,
        prev_data@.len() == 0 && new_data@.len() > 0 ==> (r matches Some(f) && f.lines@ == Seq::new(
            line_total(new_data@),
            |k: int| (k + 1) as u32,
        )),
{
    let lines = added_lines(prev_data, new_data);
    if lines.len() == 0 {
        None
    } else {
        Some(ChangedFile { path, lines })
    }
}

/// The reference specification that fetches the head of a pull request into a local branch.
pub fn pr_refspec(pr: u32, local_ref: &str) -> (r: String)
    ensures
        r@ == "+refs/pull/"@ + decimal(pr as nat) + "/head:refs/heads/"@ + local_ref@,
{
    let mut out = "+refs/pull/".to_owned();
    push_decimal(&mut out, pr as u64);
    out.append("/head:refs/heads/");
    out.append(local_ref);
    out
}

} // verus!
