//! Text as sequences of characters: searching, splitting, trimming and decimal numbers.
//!
//! Executable functions work on character slices; their contracts speak of the same
//! text as a `Seq<char>`.

use vstd::prelude::*;

verus! {

/// `String::push` appends one character to the end of the string.
pub assume_specification[ String::push ](s: &mut String, c: char)
    ensures
        final(s)@ == old(s)@.push(c),
;

/// The texts of a sequence of strings.
pub open spec fn texts(v: Seq<String>) -> Seq<Seq<char>> {
    v.map_values(|s: String| s@)
}

/// The texts of a sequence of character vectors.
pub open spec fn char_rows(v: Seq<Vec<char>>) -> Seq<Seq<char>> {
    v.map_values(|s: Vec<char>| s@)
}

/// The characters of a string, in order.
pub fn chars_of(s: &str) -> (out: Vec<char>)
    ensures
        out@ == s@,
{
    let mut out: Vec<char> = Vec::new();
    for c in it: s.chars()
        invariant
            it.seq() == s@,
            out@ == s@.take(it.index() as int),
    {
        out.push(c);
        assert(s@.take(it.index() as int).push(c) =~= s@.take(it.index() + 1));
    }
    assert(s@.take(s@.len() as int) =~= s@);
    out
}

/// The string with the given characters.
pub fn string_of(s: &[char]) -> (out: String)
    ensures
        out@ == s@,
{
    let mut out = String::new();
    let mut i: usize = 0;
    assert(out@ =~= s@.take(0));
    while i < s.len()
        invariant
            i <= s@.len(),
            out@ == s@.take(i as int),
        decreases s@.len() - i,
    {
        out.push(s[i]);
        assert(s@.take(i as int).push(s@[i as int]) =~= s@.take(i + 1));
        i = i + 1;
    }
    assert(s@.take(s@.len() as int) =~= s@);
    out
}

/// Whether two character slices hold the same text.
pub fn same_chars(a: &[char], b: &[char]) -> (r: bool)
    ensures
        r == (a@ == b@),
{
    if a.len() != b.len() {
        return false;
    }
    let mut i: usize = 0;
    while i < a.len()
        invariant
            i <= a@.len(),
            a@.len() == b@.len(),
            forall|j: int| 0 <= j < i ==> a@[j] == b@[j],
        decreases a@.len() - i,
    {
        if a[i] != b[i] {
            return false;
        }
        i = i + 1;
    }
    assert(a@ =~= b@);
    true
}

/// Whether two strings hold the same text.
pub fn same_text(a: &str, b: &str) -> (r: bool)
    ensures
        r == (a@ == b@),
{
    let x = a.to_owned();
    let y = b.to_owned();
    x == y
}

/// Whether a slice holds exactly the given literal.
pub fn chars_are(s: &[char], lit: &str) -> (r: bool)
    ensures
        r == (s@ == lit@),
{
    let l = chars_of(lit);
    same_chars(s, l.as_slice())
}

/// Whether `s` begins with `prefix`.
pub fn has_prefix(s: &[char], prefix: &str) -> (r: bool)
    ensures
        r == prefix@.is_prefix_of(s@),
{
    let p = chars_of(prefix);
    if s.len() < p.len() {
        return false;
    }
    let head = &s[0..p.len()];
    let r = same_chars(head, p.as_slice());
    r
}

/// The index of the first `c` in `s`, or the length of `s` where there is none.
pub open spec fn first_index(s: Seq<char>, c: char) -> int
    decreases s.len(),
{
    if s.len() == 0 {
        0
    } else if s[0] == c {
        0
    } else {
        1 + first_index(s.drop_first(), c)
    }
}

/// [`first_index`] is the only index with no `c` before it and `c` at it (or the end).
pub proof fn first_index_unique(s: Seq<char>, c: char, i: int)
    requires
        0 <= i <= s.len(),
        forall|j: int| 0 <= j < i ==> s[j] != c,
        i < s.len() ==> s[i] == c,
    ensures
        first_index(s, c) == i,
    decreases s.len(),
{
    if s.len() > 0 && i > 0 {
        assert(s[0] != c);
        let t = s.drop_first();
        assert forall|j: int| 0 <= j < i - 1 implies t[j] != c by {
            assert(t[j] == s[j + 1]);
        }
        first_index_unique(t, c, i - 1);
    }
}

/// What [`first_index`] means.
pub proof fn first_index_props(s: Seq<char>, c: char)
    ensures
        0 <= first_index(s, c) <= s.len(),
        forall|j: int| 0 <= j < first_index(s, c) ==> s[j] != c,
        first_index(s, c) < s.len() ==> s[first_index(s, c)] == c,
    decreases s.len(),
{
    if s.len() > 0 && s[0] != c {
        let t = s.drop_first();
        first_index_props(t, c);
        assert forall|j: int| 0 <= j < first_index(s, c) implies s[j] != c by {
            if j > 0 {
                assert(s[j] == t[j - 1]);
            }
        }
        if first_index(s, c) < s.len() {
            assert(s[first_index(s, c)] == t[first_index(t, c)]);
        }
    }
}

/// The index of the first `c` at or behind `from`, or the length of `s`.
pub fn find_char(s: &[char], from: usize, c: char) -> (r: usize)
    requires
        from <= s@.len(),
    ensures
        from <= r <= s@.len(),
        r == from + first_index(s@.skip(from as int), c),
{
    let mut i: usize = from;
    while i < s.len() && s[i] != c
        invariant
            from <= i <= s@.len(),
            forall|j: int| from <= j < i ==> s@[j] != c,
        decreases s@.len() - i,
    {
        i = i + 1;
    }
    proof {
        let t = s@.skip(from as int);
        assert forall|j: int| 0 <= j < i - from implies t[j] != c by {
            assert(t[j] == s@[j + from]);
        }
        if i < s@.len() {
            assert(t[i - from] == s@[i as int]);
        }
        first_index_unique(t, c, i - from);
    }
    i
}

/// A line without the carriage return that ended it.
pub open spec fn without_cr(line: Seq<char>) -> Seq<char> {
    if line.len() > 0 && line.last() == '\r' {
        line.drop_last()
    } else {
        line
    }
}

/// The lines of a text: cut at `\n` or `\r\n`, the ending not kept. A last line without
/// an ending counts when it is not empty.
pub open spec fn lines_of(s: Seq<char>) -> Seq<Seq<char>>
    decreases s.len(),
    via lines_of_decreases
{
    if s.len() == 0 {
        Seq::empty()
    } else if first_index(s, '\n') < s.len() {
        seq![without_cr(s.take(first_index(s, '\n')))] + lines_of(s.skip(first_index(s, '\n') + 1))
    } else {
        seq![s]
    }
}

#[via_fn]
proof fn lines_of_decreases(s: Seq<char>) {
    first_index_props(s, '\n');
}

/// Cuts a text into its lines.
pub fn lines(s: &[char]) -> (out: Vec<Vec<char>>)
    ensures
        char_rows(out@) == lines_of(s@),
{
    let mut out: Vec<Vec<char>> = Vec::new();
    let mut pos: usize = 0;
    assert(s@.skip(0) =~= s@);
    assert(char_rows(out@) + lines_of(s@.skip(0)) =~= lines_of(s@));
    while pos < s.len()
        invariant
            pos <= s@.len(),
            char_rows(out@) + lines_of(s@.skip(pos as int)) == lines_of(s@),
        decreases s@.len() - pos,
    {
        let end = find_char(s, pos, '\n');
        let ghost rest = s@.skip(pos as int);
        let ghost done = char_rows(out@);
        proof {
            first_index_props(rest, '\n');
        }
        if end < s.len() {
            let mut stop: usize = end;
            if stop > pos && s[stop - 1] == '\r' {
                stop = stop - 1;
            }
            let line = slice_to_vec(&s[pos..stop]);
            proof {
                let raw = rest.take(end - pos);
                assert(raw =~= s@.subrange(pos as int, end as int));
                assert(without_cr(raw) =~= s@.subrange(pos as int, stop as int));
                assert(rest.skip(end - pos + 1) =~= s@.skip(end + 1));
            }
            let ghost line_view = line@;
            out.push(line);
            proof {
                assert(char_rows(out@) =~= done.push(line_view));
                assert(char_rows(out@) + lines_of(s@.skip(end + 1)) =~= done + (seq![line_view]
                    + lines_of(s@.skip(end + 1))));
            }
            pos = end + 1;
        } else {
            let line = slice_to_vec(&s[pos..end]);
            proof {
                assert(rest =~= s@.subrange(pos as int, end as int));
            }
            let ghost line_view = line@;
            out.push(line);
            proof {
                assert(char_rows(out@) =~= done.push(line_view));
                assert(lines_of(rest) =~= seq![rest]);
                assert(done.push(line_view) =~= done + seq![rest]);
                assert(lines_of(s@.skip(end as int)) =~= Seq::<Seq<char>>::empty());
                assert(char_rows(out@) + Seq::<Seq<char>>::empty() =~= char_rows(out@));
            }
            pos = end;
        }
    }
    proof {
        assert(s@.skip(pos as int) =~= Seq::<char>::empty());
        assert(char_rows(out@) + Seq::<Seq<char>>::empty() =~= char_rows(out@));
    }
    out
}

/// A copy of a slice.
pub fn slice_to_vec(s: &[char]) -> (out: Vec<char>)
    ensures
        out@ == s@,
{
    let mut out: Vec<char> = Vec::new();
    let mut i: usize = 0;
    assert(out@ =~= s@.take(0));
    while i < s.len()
        invariant
            i <= s@.len(),
            out@ == s@.take(i as int),
        decreases s@.len() - i,
    {
        out.push(s[i]);
        assert(s@.take(i as int).push(s@[i as int]) =~= s@.take(i + 1));
        i = i + 1;
    }
    assert(s@.take(s@.len() as int) =~= s@);
    out
}

/// Whether `pat` stands in `s` at index `i`.
pub open spec fn occurs_at(s: Seq<char>, pat: Seq<char>, i: int) -> bool {
    0 <= i && i + pat.len() <= s.len() && s.subrange(i, i + pat.len()) == pat
}

/// The index of the first occurrence of `pat` in `s`.
pub open spec fn first_occurrence(s: Seq<char>, pat: Seq<char>) -> Option<int>
    decreases s.len(),
{
    if pat.is_prefix_of(s) {
        Some(0)
    } else if s.len() == 0 {
        None
    } else {
        match first_occurrence(s.drop_first(), pat) {
            Some(k) => Some(k + 1),
            None => None,
        }
    }
}

/// What [`first_occurrence`] means: nothing before it, an occurrence at it.
pub proof fn first_occurrence_props(s: Seq<char>, pat: Seq<char>)
    ensures
        match first_occurrence(s, pat) {
            Some(k) => occurs_at(s, pat, k) && forall|i: int| 0 <= i < k ==> !occurs_at(s, pat, i),
            None => forall|i: int| !occurs_at(s, pat, i),
        },
    decreases s.len(),
{
    if pat.is_prefix_of(s) {
        assert(s.subrange(0, pat.len() as int) =~= pat);
    } else if s.len() == 0 {
        assert forall|i: int| !occurs_at(s, pat, i) by {
            if occurs_at(s, pat, i) {
                assert(pat.is_prefix_of(s));
            }
        }
    } else {
        let t = s.drop_first();
        first_occurrence_props(t, pat);
        assert(!occurs_at(s, pat, 0)) by {
            if occurs_at(s, pat, 0) {
                assert(pat.is_prefix_of(s));
            }
        }
        assert forall|i: int| i > 0 implies occurs_at(s, pat, i) == occurs_at(t, pat, i - 1) by {
            if i + pat.len() <= s.len() {
                assert(s.subrange(i, i + pat.len()) =~= t.subrange(i - 1, i - 1 + pat.len()));
            }
        }
        match first_occurrence(t, pat) {
            Some(k) => {
                assert(occurs_at(s, pat, k + 1));
            },
            None => {
                assert forall|i: int| !occurs_at(s, pat, i) by {
                    if i > 0 {
                        assert(!occurs_at(t, pat, i - 1));
                    }
                }
            },
        }
    }
}

/// An index with an occurrence at it and none before it is the first occurrence.
pub proof fn first_occurrence_is(s: Seq<char>, pat: Seq<char>, k: int)
    requires
        occurs_at(s, pat, k),
        forall|i: int| 0 <= i < k ==> !occurs_at(s, pat, i),
    ensures
        first_occurrence(s, pat) == Some(k),
{
    first_occurrence_props(s, pat);
    match first_occurrence(s, pat) {
        Some(j) => {
            if j < k {
                assert(!occurs_at(s, pat, j));
            }
            if k < j {
                assert(!occurs_at(s, pat, k));
            }
        },
        None => {},
    }
}

/// Whether `pat` stands in `s` at index `i`.
pub fn stands_at(s: &[char], pat: &[char], i: usize) -> (r: bool)
    requires
        i <= s@.len(),
    ensures
        r == occurs_at(s@, pat@, i as int),
{
    if s.len() - i < pat.len() {
        return false;
    }
    let part = &s[i..i + pat.len()];
    same_chars(part, pat)
}

/// The index of the first occurrence of a literal.
pub fn find_text(s: &[char], lit: &str) -> (r: Option<usize>)
    ensures
        match r {
            Some(k) => first_occurrence(s@, lit@) == Some(k as int) && k + lit@.len() <= s@.len(),
            None => first_occurrence(s@, lit@) is None,
        },
{
    let pat = chars_of(lit);
    let mut i: usize = 0;
    while i <= s.len()
        invariant
            i <= s@.len() + 1,
            pat@ == lit@,
            forall|j: int| 0 <= j < i ==> !occurs_at(s@, lit@, j),
        decreases s@.len() + 1 - i,
    {
        if stands_at(s, pat.as_slice(), i) {
            proof {
                first_occurrence_is(s@, lit@, i as int);
            }
            return Some(i);
        }
        if i == s.len() {
            proof {
                first_occurrence_props(s@, lit@);
            }
            return None;
        }
        i = i + 1;
    }
    proof {
        first_occurrence_props(s@, lit@);
    }
    None
}

/// Whether `pat` occurs anywhere in `s`.
pub open spec fn contains_text(s: Seq<char>, pat: Seq<char>) -> bool {
    exists|i: int| occurs_at(s, pat, i)
}

/// Whether a literal occurs anywhere in a string.
pub fn has_text(s: &str, lit: &str) -> (r: bool)
    ensures
        r == contains_text(s@, lit@),
{
    let c = chars_of(s);
    let r = find_text(c.as_slice(), lit);
    proof {
        first_occurrence_props(s@, lit@);
    }
    r.is_some()
}

/// The index behind the last occurrence of `pat` in `s`, or 0 where there is none.
pub open spec fn behind_last(s: Seq<char>, pat: Seq<char>) -> int
    decreases s.len(),
{
    if pat.len() <= s.len() && s.skip(s.len() - pat.len()) == pat {
        s.len() as int
    } else if s.len() == 0 {
        0
    } else {
        behind_last(s.drop_last(), pat)
    }
}

/// What [`behind_last`] means: an occurrence ends there, and none ends further on.
pub proof fn behind_last_props(s: Seq<char>, pat: Seq<char>)
    ensures
        0 <= behind_last(s, pat) <= s.len(),
        behind_last(s, pat) > 0 ==> occurs_at(s, pat, behind_last(s, pat) - pat.len()),
        forall|e: int| behind_last(s, pat) < e <= s.len() ==> !#[trigger] occurs_at(
            s,
            pat,
            e - pat.len(),
        ),
    decreases s.len(),
{
    if pat.len() <= s.len() && s.skip(s.len() - pat.len()) == pat {
        assert(s.subrange(s.len() - pat.len(), s.len() as int) =~= s.skip(s.len() - pat.len()));
    } else if s.len() > 0 {
        let t = s.drop_last();
        behind_last_props(t, pat);
        assert forall|e: int| pat.len() <= e < s.len() implies s.subrange(e - pat.len(), e)
            == #[trigger] t.subrange(e - pat.len(), e) by {
            assert(s.subrange(e - pat.len(), e) =~= t.subrange(e - pat.len(), e));
        }
        let b = behind_last(s, pat);
        if b > 0 {
            assert(t.subrange(b - pat.len(), b) == s.subrange(b - pat.len(), b));
        }
        assert forall|e: int| b < e <= s.len() implies !#[trigger] occurs_at(
            s,
            pat,
            e - pat.len(),
        ) by {
            if e == s.len() {
                if pat.len() <= e {
                    assert(s.subrange(e - pat.len(), e) =~= s.skip(e - pat.len()));
                }
            } else {
                assert(!occurs_at(t, pat, e - pat.len()));
                if pat.len() <= e {
                    assert(t.subrange(e - pat.len(), e) == s.subrange(e - pat.len(), e));
                }
            }
        }
    }
}

/// The index behind the last occurrence of a literal, or 0 where there is none.
pub fn find_last_end(s: &[char], lit: &str) -> (r: usize)
    ensures
        r == behind_last(s@, lit@),
        r <= s@.len(),
{
    let pat = chars_of(lit);
    let mut e: usize = s.len();
    assert(s@.take(s@.len() as int) =~= s@);
    loop
        invariant
            e <= s@.len(),
            pat@ == lit@,
            behind_last(s@, lit@) == behind_last(s@.take(e as int), lit@),
        decreases e,
    {
        let ghost t = s@.take(e as int);
        if pat.len() <= e {
            let at: usize = e - pat.len();
            proof {
                assert(s@.subrange(at as int, e as int) =~= t.skip(t.len() - lit@.len()));
            }
            if stands_at(s, pat.as_slice(), at) {
                return e;
            }
        }
        if e == 0 {
            return 0;
        }
        assert(t.drop_last() =~= s@.take(e - 1));
        e = e - 1;
    }
}

/// The pieces of `s` between the occurrences of `pat`, as they are met from the left.
pub open spec fn pieces(s: Seq<char>, pat: Seq<char>) -> Seq<Seq<char>>
    decreases s.len(),
    when pat.len() > 0
    via pieces_decreases
{
    match first_occurrence(s, pat) {
        Some(k) => seq![s.take(k)] + pieces(s.skip(k + pat.len()), pat),
        None => seq![s],
    }
}

#[via_fn]
proof fn pieces_decreases(s: Seq<char>, pat: Seq<char>) {
    first_occurrence_props(s, pat);
}

/// Cuts a text at every occurrence of a literal.
pub fn split_text(s: &[char], lit: &str) -> (out: Vec<Vec<char>>)
    requires
        lit@.len() > 0,
    ensures
        char_rows(out@) == pieces(s@, lit@),
        out@.len() > 0,
{
    let mut out: Vec<Vec<char>> = Vec::new();
    let width: usize = lit.unicode_len();
    let mut pos: usize = 0;
    assert(s@.skip(0) =~= s@);
    assert(char_rows(out@) + pieces(s@.skip(0), lit@) =~= pieces(s@, lit@));
    loop
        invariant
            pos <= s@.len(),
            width == lit@.len(),
            lit@.len() > 0,
            char_rows(out@) + pieces(s@.skip(pos as int), lit@) == pieces(s@, lit@),
        decreases s@.len() - pos,
    {
        let rest = &s[pos..s.len()];
        proof {
            assert(rest@ =~= s@.skip(pos as int));
        }
        let ghost done = char_rows(out@);
        match find_text(rest, lit) {
            Some(k) => {
                let piece = slice_to_vec(&rest[0..k]);
                let ghost piece_view = piece@;
                proof {
                    assert(piece_view =~= rest@.take(k as int));
                    assert(rest@.skip(k + width) =~= s@.skip(pos + k + width));
                }
                out.push(piece);
                proof {
                    assert(char_rows(out@) =~= done.push(piece_view));
                    assert(char_rows(out@) + pieces(s@.skip(pos + k + width), lit@) =~= done + (
                    seq![piece_view] + pieces(s@.skip(pos + k + width), lit@)));
                }
                pos = pos + k + width;
            },
            None => {
                let piece = slice_to_vec(rest);
                let ghost piece_view = piece@;
                out.push(piece);
                proof {
                    assert(char_rows(out@) =~= done.push(piece_view));
                    assert(done.push(piece_view) =~= done + seq![rest@]);
                }
                return out;
            },
        }
    }
}

/// The texts put one behind the other, with `sep` between each two.
pub open spec fn joined(parts: Seq<Seq<char>>, sep: Seq<char>) -> Seq<char>
    decreases parts.len(),
{
    if parts.len() == 0 {
        Seq::empty()
    } else if parts.len() == 1 {
        parts[0]
    } else {
        joined(parts.drop_last(), sep) + sep + parts.last()
    }
}

/// Joins texts with a separator.
pub fn join(parts: &Vec<String>, sep: &str) -> (out: String)
    ensures
        out@ == joined(texts(parts@), sep@),
{
    let mut out = String::new();
    let mut i: usize = 0;
    let ghost all = texts(parts@);
    assert(all.take(0) =~= Seq::<Seq<char>>::empty());
    while i < parts.len()
        invariant
            i <= parts@.len(),
            all == texts(parts@),
            out@ == joined(all.take(i as int), sep@),
        decreases parts@.len() - i,
    {
        let ghost next = all.take(i + 1);
        proof {
            assert(next.drop_last() =~= all.take(i as int));
            assert(next.last() == parts@[i as int]@);
        }
        if i > 0 {
            out.append(sep);
            out.append(parts[i].as_str());
        } else {
            out.append(parts[i].as_str());
            assert(Seq::<char>::empty() + parts@[0]@ =~= parts@[0]@);
        }
        i = i + 1;
    }
    assert(all.take(parts@.len() as int) =~= all);
    out
}

/// Unicode `White_Space`, which is what `char::is_whitespace` tests.
pub open spec fn is_space(c: char) -> bool {
    let u = c as u32;
    ||| 0x09 <= u <= 0x0d
    ||| u == 0x20
    ||| u == 0x85
    ||| u == 0xa0
    ||| u == 0x1680
    ||| 0x2000 <= u <= 0x200a
    ||| u == 0x2028
    ||| u == 0x2029
    ||| u == 0x202f
    ||| u == 0x205f
    ||| u == 0x3000
}

/// Tests for white space.
pub fn is_space_char(c: char) -> (r: bool)
    ensures
        r == is_space(c),
{
    let u: u32 = c as u32;
    (0x09 <= u && u <= 0x0d) || u == 0x20 || u == 0x85 || u == 0xa0 || u == 0x1680 || (0x2000 <= u
        && u <= 0x200a) || u == 0x2028 || u == 0x2029 || u == 0x202f || u == 0x205f || u == 0x3000
}

/// The index of the first character that is no white space, or the length.
pub open spec fn spaces_before(s: Seq<char>) -> int
    decreases s.len(),
{
    if s.len() > 0 && is_space(s[0]) {
        1 + spaces_before(s.drop_first())
    } else {
        0
    }
}

/// The index of the first white space, or the length.
pub open spec fn word_end(s: Seq<char>) -> int
    decreases s.len(),
{
    if s.len() > 0 && !is_space(s[0]) {
        1 + word_end(s.drop_first())
    } else {
        0
    }
}

/// Bounds of [`spaces_before`].
pub proof fn spaces_before_bounds(s: Seq<char>)
    ensures
        0 <= spaces_before(s) <= s.len(),
        spaces_before(s) < s.len() ==> !is_space(s[spaces_before(s)]),
    decreases s.len(),
{
    if s.len() > 0 && is_space(s[0]) {
        spaces_before_bounds(s.drop_first());
    }
}

/// Bounds of [`word_end`].
pub proof fn word_end_bounds(s: Seq<char>)
    ensures
        0 <= word_end(s) <= s.len(),
        s.len() > 0 && !is_space(s[0]) ==> word_end(s) > 0,
    decreases s.len(),
{
    if s.len() > 0 && !is_space(s[0]) {
        word_end_bounds(s.drop_first());
    }
}

/// The words of a text: the longest runs without white space.
pub open spec fn words_of(s: Seq<char>) -> Seq<Seq<char>>
    decreases s.len(),
    via words_of_decreases
{
    let t = s.skip(spaces_before(s));
    if t.len() == 0 {
        Seq::empty()
    } else {
        seq![t.take(word_end(t))] + words_of(t.skip(word_end(t)))
    }
}

#[via_fn]
proof fn words_of_decreases(s: Seq<char>) {
    spaces_before_bounds(s);
    let t = s.skip(spaces_before(s));
    word_end_bounds(t);
    if t.len() > 0 {
        assert(t[0] == s[spaces_before(s)]);
    }
}

/// Skips white space from `from` on.
fn skip_spaces(s: &[char], from: usize) -> (r: usize)
    requires
        from <= s@.len(),
    ensures
        from <= r <= s@.len(),
        r == from + spaces_before(s@.skip(from as int)),
{
    let mut i: usize = from;
    assert(0 + spaces_before(s@.skip(from as int)) == spaces_before(s@.skip(i as int)));
    while i < s.len() && is_space_char(s[i])
        invariant
            from <= i <= s@.len(),
            spaces_before(s@.skip(from as int)) == (i - from) + spaces_before(s@.skip(i as int)),
        decreases s@.len() - i,
    {
        proof {
            assert(s@.skip(i as int).drop_first() =~= s@.skip(i + 1));
            assert(s@.skip(i as int)[0] == s@[i as int]);
        }
        i = i + 1;
    }
    proof {
        if i < s@.len() {
            assert(s@.skip(i as int)[0] == s@[i as int]);
        }
    }
    i
}

/// Skips to the end of the word that begins at `from`.
fn skip_word(s: &[char], from: usize) -> (r: usize)
    requires
        from <= s@.len(),
    ensures
        from <= r <= s@.len(),
        r == from + word_end(s@.skip(from as int)),
{
    let mut i: usize = from;
    while i < s.len() && !is_space_char(s[i])
        invariant
            from <= i <= s@.len(),
            word_end(s@.skip(from as int)) == (i - from) + word_end(s@.skip(i as int)),
        decreases s@.len() - i,
    {
        proof {
            assert(s@.skip(i as int).drop_first() =~= s@.skip(i + 1));
            assert(s@.skip(i as int)[0] == s@[i as int]);
        }
        i = i + 1;
    }
    proof {
        if i < s@.len() {
            assert(s@.skip(i as int)[0] == s@[i as int]);
        }
    }
    i
}

/// Cuts a text into its words.
pub fn words(s: &[char]) -> (out: Vec<Vec<char>>)
    ensures
        char_rows(out@) == words_of(s@),
{
    let mut out: Vec<Vec<char>> = Vec::new();
    let mut pos: usize = 0;
    assert(s@.skip(0) =~= s@);
    assert(char_rows(out@) + words_of(s@.skip(0)) =~= words_of(s@));
    loop
        invariant
            pos <= s@.len(),
            char_rows(out@) + words_of(s@.skip(pos as int)) == words_of(s@),
        decreases s@.len() - pos,
    {
        let from = skip_spaces(s, pos);
        let ghost rest = s@.skip(pos as int);
        let ghost t = rest.skip(spaces_before(rest));
        let ghost done = char_rows(out@);
        proof {
            spaces_before_bounds(rest);
            assert(t =~= s@.skip(from as int));
        }
        if from == s.len() {
            proof {
                assert(words_of(rest) =~= Seq::<Seq<char>>::empty());
                assert(done + Seq::<Seq<char>>::empty() =~= done);
            }
            return out;
        }
        let end = skip_word(s, from);
        proof {
            word_end_bounds(t);
            assert(t[0] == rest[spaces_before(rest)]);
            assert(t.take(word_end(t)) =~= s@.subrange(from as int, end as int));
            assert(t.skip(word_end(t)) =~= s@.skip(end as int));
        }
        let word = slice_to_vec(&s[from..end]);
        let ghost word_view = word@;
        out.push(word);
        proof {
            assert(char_rows(out@) =~= done.push(word_view));
            assert(char_rows(out@) + words_of(s@.skip(end as int)) =~= done + (seq![word_view]
                + words_of(s@.skip(end as int))));
        }
        pos = end;
    }
}

/// A line ends at a line feed, and a carriage return before that belongs to the ending. What
/// stands behind the last line feed is a line too, unless it is empty.
pub proof fn lines_end_at_line_feeds(line: Seq<char>, rest: Seq<char>)
    requires
        !line.contains('\n'),
    ensures
        lines_of(line + seq!['\n'] + rest) == seq![
            if line.len() > 0 && line[line.len() - 1] == '\r' {
                line.take(line.len() - 1)
            } else {
                line
            },
        ] + lines_of(rest),
        lines_of(line) == if line.len() == 0 {
            Seq::empty()
        } else {
            seq![line]
        },
{
    let s = line + seq!['\n'] + rest;
    assert forall|j: int| 0 <= j < line.len() implies s[j] != '\n' by {
        assert(s[j] == line[j]);
        assert(line.contains(line[j]));
    }
    assert(s[line.len() as int] == '\n');
    first_index_unique(s, '\n', line.len() as int);
    assert(s.take(line.len() as int) =~= line);
    assert(s.skip(line.len() as int + 1) =~= rest);
    assert forall|j: int| 0 <= j < line.len() implies line[j] != '\n' by {
        assert(line.contains(line[j]));
    }
    first_index_unique(line, '\n', line.len() as int);
    if line.len() > 0 {
        assert(line.drop_last() =~= line.take(line.len() - 1));
    }
}

/// A text contains another exactly where it is that one with something before and behind.
pub proof fn containing_is_standing_between(s: Seq<char>, pat: Seq<char>)
    ensures
        contains_text(s, pat) <==> exists|a: Seq<char>, b: Seq<char>| s == #[trigger] ((a + pat) + b),
{
    if contains_text(s, pat) {
        let i = choose|i: int| occurs_at(s, pat, i);
        let a = s.take(i);
        let b = s.skip(i + pat.len());
        assert(s =~= (a + pat) + b);
    }
    if exists|a: Seq<char>, b: Seq<char>| s == #[trigger] ((a + pat) + b) {
        let (a, b) = choose|a: Seq<char>, b: Seq<char>| s == #[trigger] ((a + pat) + b);
        assert(s.subrange(a.len() as int, a.len() as int + pat.len()) =~= pat);
        assert(occurs_at(s, pat, a.len() as int));
    }
}

/// The pieces between separators, put together with separators, are the text again.
pub proof fn pieces_join_back(s: Seq<char>, pat: Seq<char>)
    requires
        pat.len() > 0,
    ensures
        joined(pieces(s, pat), pat) == s,
        pieces(s, pat).len() > 0,
    decreases s.len(),
{
    first_occurrence_props(s, pat);
    match first_occurrence(s, pat) {
        Some(k) => {
            let rest = s.skip(k + pat.len());
            pieces_join_back(rest, pat);
            let tail = pieces(rest, pat);
            let all = seq![s.take(k)] + tail;
            assert(pieces(s, pat) == all);
            assert(all.drop_first() =~= tail);
            joined_after_first(s.take(k), tail, pat);
            assert(s =~= s.take(k) + pat + rest) by {
                assert(s.subrange(k, k + pat.len()) == pat);
            }
        },
        None => {},
    }
}

proof fn joined_after_first(first: Seq<char>, tail: Seq<Seq<char>>, sep: Seq<char>)
    requires
        tail.len() > 0,
    ensures
        joined(seq![first] + tail, sep) == first + sep + joined(tail, sep),
    decreases tail.len(),
{
    let all = seq![first] + tail;
    assert(all.last() == tail.last());
    if tail.len() == 1 {
        assert(all.drop_last() =~= seq![first]);
        assert(joined(seq![first], sep) == first);
        assert(joined(tail, sep) == tail.last());
    } else {
        assert(all.drop_last() =~= seq![first] + tail.drop_last());
        joined_after_first(first, tail.drop_last(), sep);
        assert(joined(all, sep) =~= first + sep + joined(tail, sep));
    }
}

/// No piece between separators of one character holds the separator.
pub proof fn pieces_hold_no_separator(s: Seq<char>, sep: char, i: int)
    requires
        0 <= i < pieces(s, seq![sep]).len(),
    ensures
        !pieces(s, seq![sep])[i].contains(sep),
    decreases s.len(),
{
    let pat = seq![sep];
    first_occurrence_props(s, pat);
    match first_occurrence(s, pat) {
        Some(k) => {
            let rest = s.skip(k + pat.len());
            let all = seq![s.take(k)] + pieces(rest, pat);
            assert(pieces(s, pat) == all);
            if i == 0 {
                if s.take(k).contains(sep) {
                    let j = choose|j: int| 0 <= j < k && s.take(k)[j] == sep;
                    assert(s.subrange(j, j + 1) =~= pat);
                    assert(occurs_at(s, pat, j));
                }
            } else {
                assert(all[i] == pieces(rest, pat)[i - 1]);
                pieces_hold_no_separator(rest, sep, i - 1);
            }
        },
        None => {
            if s.contains(sep) {
                let j = choose|j: int| 0 <= j < s.len() && s[j] == sep;
                assert(s.subrange(j, j + 1) =~= pat);
                assert(occurs_at(s, pat, j));
            }
        },
    }
}

/// Rows that are not empty are put together one behind the other, with the separator between
/// them.
pub proof fn joined_rows(a: Seq<Seq<char>>, b: Seq<Seq<char>>, sep: Seq<char>)
    ensures
        a.len() > 0 && b.len() > 0 ==> joined(a + b, sep) == joined(a, sep) + sep + joined(b, sep),
        a.len() == 0 ==> joined(a, sep).len() == 0,
        a.len() == 1 ==> joined(a, sep) == a[0],
    decreases b.len(),
{
    if a.len() > 0 && b.len() > 0 {
        let all = a + b;
        assert(all.last() == b.last());
        if b.len() == 1 {
            assert(all.drop_last() =~= a);
        } else {
            assert(all.drop_last() =~= a + b.drop_last());
            joined_rows(a, b.drop_last(), sep);
            assert(joined(all, sep) =~= joined(a, sep) + sep + joined(b, sep));
        }
    }
}

/// A word is what stands between spaces: spaces, a word that is not empty and holds none, and
/// what follows behind a space give that word and then the words of what follows.
pub proof fn words_stand_between_spaces(gap: Seq<char>, word: Seq<char>, rest: Seq<char>)
    requires
        forall|i: int| 0 <= i < gap.len() ==> is_space(#[trigger] gap[i]),
        forall|i: int| 0 <= i < word.len() ==> !is_space(#[trigger] word[i]),
        word.len() > 0,
        rest.len() > 0 ==> is_space(rest[0]),
    ensures
        words_of(gap + word + rest) == seq![word] + words_of(rest),
        words_of(gap).len() == 0,
{
    let s = gap + word + rest;
    spaces_end(gap, word + rest);
    spaces_end(gap, Seq::empty());
    assert(gap + (word + rest) =~= s);
    assert(gap + Seq::<char>::empty() =~= gap);
    let t = s.skip(spaces_before(s));
    assert(t =~= word + rest);
    word_ends(word, rest);
    assert(t.take(word_end(t)) =~= word);
    assert(t.skip(word_end(t)) =~= rest);
}

proof fn spaces_end(gap: Seq<char>, rest: Seq<char>)
    requires
        forall|i: int| 0 <= i < gap.len() ==> is_space(#[trigger] gap[i]),
        rest.len() > 0 ==> !is_space(rest[0]),
    ensures
        spaces_before(gap + rest) == gap.len(),
    decreases gap.len(),
{
    let s = gap + rest;
    if gap.len() > 0 {
        let tail = gap.drop_first();
        assert forall|i: int| 0 <= i < tail.len() implies is_space(#[trigger] tail[i]) by {
            assert(tail[i] == gap[i + 1]);
        }
        spaces_end(tail, rest);
        assert(s.drop_first() =~= tail + rest);
        assert(s[0] == gap[0]);
    } else {
        assert(s =~= rest);
    }
}

proof fn word_ends(word: Seq<char>, rest: Seq<char>)
    requires
        forall|i: int| 0 <= i < word.len() ==> !is_space(#[trigger] word[i]),
        rest.len() > 0 ==> is_space(rest[0]),
    ensures
        word_end(word + rest) == word.len(),
    decreases word.len(),
{
    let s = word + rest;
    if word.len() > 0 {
        let tail = word.drop_first();
        assert forall|i: int| 0 <= i < tail.len() implies !is_space(#[trigger] tail[i]) by {
            assert(tail[i] == word[i + 1]);
        }
        word_ends(tail, rest);
        assert(s.drop_first() =~= tail + rest);
        assert(s[0] == word[0]);
    } else {
        assert(s =~= rest);
    }
}

/// No piece between separators holds the separator.
pub proof fn pieces_hold_no_separator_text(s: Seq<char>, pat: Seq<char>, i: int)
    requires
        pat.len() > 0,
        0 <= i < pieces(s, pat).len(),
    ensures
        !contains_text(pieces(s, pat)[i], pat),
    decreases s.len(),
{
    first_occurrence_props(s, pat);
    match first_occurrence(s, pat) {
        Some(k) => {
            let rest = s.skip(k + pat.len());
            let all = seq![s.take(k)] + pieces(rest, pat);
            assert(pieces(s, pat) == all);
            if i == 0 {
                if contains_text(s.take(k), pat) {
                    let j = choose|j: int| occurs_at(s.take(k), pat, j);
                    assert(s.take(k).subrange(j, j + pat.len()) =~= s.subrange(j, j + pat.len()));
                    assert(occurs_at(s, pat, j));
                }
            } else {
                assert(all[i] == pieces(rest, pat)[i - 1]);
                pieces_hold_no_separator_text(rest, pat, i - 1);
            }
        },
        None => {},
    }
}

/// Rows of texts are seen whole, one for one and in order.
pub proof fn texts_are_seen_whole(v: Seq<String>, w: Seq<Vec<char>>)
    ensures
        texts(v).len() == v.len(),
        forall|i: int| 0 <= i < v.len() ==> #[trigger] texts(v)[i] == v[i]@,
        char_rows(w).len() == w.len(),
        forall|i: int| 0 <= i < w.len() ==> #[trigger] char_rows(w)[i] == w[i]@,
{
}

/// Which characters are spaces: those that Unicode counts as white space.
pub proof fn which_characters_are_spaces(c: char)
    ensures
        is_space(c) <==> c == '\t' || c == '\n' || c == '\u{b}' || c == '\u{c}' || c == '\r' || c
            == ' ' || c == '\u{85}' || c == '\u{a0}' || c == '\u{1680}' || ('\u{2000}' <= c && c
            <= '\u{200a}') || c == '\u{2028}' || c == '\u{2029}' || c == '\u{202f}' || c
            == '\u{205f}' || c == '\u{3000}',
{
}

} // verus!
