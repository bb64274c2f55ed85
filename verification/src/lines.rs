//! Texts made of lines and numbers.

use crate::number::{decimal, push_decimal};
use crate::text::{first_index_unique, joined, lines_of, texts};
use crate::path::{path_text, Part, PathBuf};
use crate::matcher::below;
use vstd::prelude::*;

verus! {

/// The text of a path below a root, or of the path itself where it does not lie below, put
/// together from its components.
pub open spec fn relative_text(path: Seq<Part>, root: Seq<Part>) -> Seq<char> {
    path_text(below(path, root))
}

/// The text of a path below a root.
pub fn relative(path: &PathBuf, root: &PathBuf) -> (r: String)
    ensures
        r@ == relative_text(path@, root@),
{
    match path.strip_prefix(root) {
        Some(rel) => rel.text(),
        None => path.text(),
    }
}

/// Lines of a text, each with its end.
pub open spec fn ended(rows: Seq<Seq<char>>) -> Seq<char>
    decreases rows.len(),
{
    if rows.len() == 0 {
        Seq::empty()
    } else {
        ended(rows.drop_last()) + rows.last() + seq!['\n']
    }
}

/// Puts lines one below the other.
pub fn end_lines(rows: &Vec<String>) -> (r: String)
    ensures
        r@ == ended(texts(rows@)),
{
    proof {
        reveal_strlit("\n");
        assert("\n"@ =~= seq!['\n']);
    }
    let mut out = String::new();
    let ghost all = texts(rows@);
    let mut i: usize = 0;
    assert(all.take(0) =~= Seq::<Seq<char>>::empty());
    while i < rows.len()
        invariant
            i <= rows@.len(),
            "\n"@ == seq!['\n'],
            all == texts(rows@),
            out@ == ended(all.take(i as int)),
        decreases rows.len() - i,
    {
        out.append(rows[i].as_str());
        out.append("\n");
        proof {
            assert(all.take(i + 1).drop_last() =~= all.take(i as int));
            assert(all.take(i + 1).last() == all[i as int]);
        }
        i = i + 1;
    }
    assert(all.take(i as int) =~= all);
    out
}

proof fn ended_front(rows: Seq<Seq<char>>)
    requires
        rows.len() > 0,
    ensures
        ended(rows) == rows[0] + seq!['\n'] + ended(rows.drop_first()),
    decreases rows.len(),
{
    if rows.len() == 1 {
        assert(rows.drop_last() =~= Seq::<Seq<char>>::empty());
        assert(rows.drop_first() =~= Seq::<Seq<char>>::empty());
        assert(ended(rows.drop_last()) =~= Seq::<char>::empty());
        assert(ended(rows) =~= rows[0] + seq!['\n'] + ended(rows.drop_first()));
    } else {
        ended_front(rows.drop_last());
        assert(rows.drop_last().drop_first() =~= rows.drop_first().drop_last());
        assert(ended(rows) =~= rows[0] + seq!['\n'] + ended(rows.drop_first()));
    }
}

/// Whether a row is a line: it has no line end in it, and no carriage return at its end.
pub open spec fn is_line(row: Seq<char>) -> bool {
    !row.contains('\n') && (row.len() > 0 ==> row.last() != '\r')
}

/// Lines that are put one below the other are read back as they are.
pub proof fn ended_lines_read_back(rows: Seq<Seq<char>>)
    requires
        forall|i: int| 0 <= i < rows.len() ==> is_line(#[trigger] rows[i]),
    ensures
        lines_of(ended(rows)) == rows,
    decreases rows.len(),
{
    if rows.len() > 0 {
        let text = ended(rows);
        let rest = rows.drop_first();
        ended_front(rows);
        assert forall|i: int| 0 <= i < rest.len() implies is_line(#[trigger] rest[i]) by {
            assert(rest[i] == rows[i + 1]);
        }
        ended_lines_read_back(rest);
        let n = rows[0].len() as int;
        assert(is_line(rows[0]));
        assert forall|j: int| 0 <= j < n implies text[j] != '\n' by {
            assert(text[j] == rows[0][j]);
        }
        assert(text[n] == '\n');
        first_index_unique(text, '\n', n);
        assert(text.take(n) =~= rows[0]);
        assert(text.skip(n + 1) =~= ended(rest));
        assert(rows =~= seq![rows[0]] + rest);
    } else {
        assert(lines_of(ended(rows)) =~= rows);
    }
}

/// The texts of numbers.
pub open spec fn decimals(ns: Seq<u32>) -> Seq<Seq<char>> {
    ns.map_values(|n: u32| decimal(n as nat))
}

/// A list of numbers in square brackets.
pub open spec fn bracketed(ns: Seq<u32>) -> Seq<char> {
    seq!['['] + joined(decimals(ns), seq![',', ' ']) + seq![']']
}

/// Puts a list of numbers in square brackets behind a text.
pub fn push_list(out: &mut String, ns: &Vec<u32>)
    ensures
        final(out)@ == old(out)@ + bracketed(ns@),
{
    proof {
        reveal_strlit("[");
        reveal_strlit("]");
        reveal_strlit(", ");
        assert("["@ =~= seq!['[']);
        assert("]"@ =~= seq![']']);
        assert(", "@ =~= seq![',', ' ']);
    }
    let ghost start = out@;
    let ghost all = decimals(ns@);
    out.append("[");
    let mut i: usize = 0;
    assert(all.take(0) =~= Seq::<Seq<char>>::empty());
    assert(out@ =~= start + seq!['['] + joined(all.take(0), seq![',', ' ']));
    while i < ns.len()
        invariant
            i <= ns@.len(),
            ", "@ == seq![',', ' '],
            all == decimals(ns@),
            out@ == start + seq!['['] + joined(all.take(i as int), seq![',', ' ']),
        decreases ns.len() - i,
    {
        proof {
            assert(all.take(i + 1).drop_last() =~= all.take(i as int));
            assert(all.take(i + 1).last() == decimal(ns@[i as int] as nat));
        }
        let ghost had = joined(all.take(i as int), seq![',', ' ']);
        if i > 0 {
            out.append(", ");
        }
        push_decimal(out, ns[i] as u64);
        proof {
            if i > 0 {
                assert(out@ =~= start + seq!['['] + (had + seq![',', ' '] + decimal(
                    ns@[i as int] as nat,
                )));
            } else {
                assert(had =~= Seq::<char>::empty());
                assert(out@ =~= start + seq!['['] + decimal(ns@[i as int] as nat));
            }
            assert(out@ == start + seq!['['] + joined(all.take(i + 1), seq![',', ' ']));
        }
        i = i + 1;
    }
    assert(all.take(i as int) =~= all);
    out.append("]");
    assert(out@ =~= start + bracketed(ns@));
}

/// A path below the root is shown by what stands behind the root, another one as it is.
pub proof fn paths_are_shown_below_the_root(root: Seq<Part>, rest: Seq<Part>, path: Seq<Part>)
    ensures
        relative_text(root + rest, root) == path_text(rest),
        !root.is_prefix_of(path) ==> relative_text(path, root) == path_text(path),
{
    let p = root + rest;
    assert(root =~= p.subrange(0, root.len() as int));
    assert(root.is_prefix_of(p));
    assert(p.skip(root.len() as int) =~= rest);
}

/// Lines are put one below the other, each with its end.
pub proof fn ended_lines_add_up(a: Seq<Seq<char>>, b: Seq<Seq<char>>, row: Seq<char>)
    ensures
        ended(a + b) == ended(a) + ended(b),
        ended(seq![row]) == row + seq!['\n'],
    decreases b.len(),
{
    assert(seq![row].drop_last() =~= Seq::<Seq<char>>::empty());
    assert(ended(seq![row].drop_last()) =~= Seq::<char>::empty());
    assert(ended(seq![row]) =~= row + seq!['\n']);
    if b.len() == 0 {
        assert(a + b =~= a);
        assert(ended(a) + ended(b) =~= ended(a));
    } else {
        assert((a + b).drop_last() =~= a + b.drop_last());
        ended_lines_add_up(a, b.drop_last(), row);
        assert(ended(a + b) =~= ended(a) + ended(b));
    }
}

/// A list of numbers holds each of them, in order, between brackets.
pub proof fn lists_hold_every_number(ns: Seq<u32>, n: u32)
    ensures
        ns.len() > 0 ==> bracketed(ns.push(n)) == bracketed(ns).drop_last() + seq![',', ' ']
            + decimal(n as nat) + seq![']'],
        bracketed(seq![n]) == seq!['['] + decimal(n as nat) + seq![']'],
        bracketed(Seq::empty()) == seq!['[', ']'],
{
    let sep = seq![',', ' '];
    let rows = decimals(ns);
    assert(decimals(ns.push(n)) =~= rows.push(decimal(n as nat)));
    assert(rows.push(decimal(n as nat)).drop_last() =~= rows);
    assert(decimals(seq![n]) =~= seq![decimal(n as nat)]);
    assert(decimals(Seq::<u32>::empty()) =~= Seq::<Seq<char>>::empty());
    assert(bracketed(Seq::empty()) =~= seq!['[', ']']);
    if ns.len() > 0 {
        assert(bracketed(ns).drop_last() =~= seq!['['] + joined(rows, sep));
        assert(bracketed(ns.push(n)) =~= bracketed(ns).drop_last() + sep + decimal(n as nat) + seq![
            ']',
        ]);
    }
}

} // verus!
