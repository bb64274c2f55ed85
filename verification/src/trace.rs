//! The text that explains how a search came to its goals.

use crate::bfs::{links, spots, EntryHits, Link, ParentMap, Spot};
use crate::chain::{chain, walk_parents, CHAIN_LIMIT};
use crate::lines::{end_lines, ended, relative, relative_text};
use crate::number::{decimal, push_decimal};
use crate::path::{Part, PathBuf};
use crate::paths::{insert_path, path_set, paths_ascend, paths_view};
use crate::text::texts;
use crate::types::Position;
use vstd::prelude::*;

verus! {

/// The chain that led to a reference.
pub open spec fn chain_to(ls: Seq<Link>, entry: Seq<Part>, pos: Position) -> Seq<Spot> {
    chain(ls, (entry, pos), CHAIN_LIMIT as nat)
}

/// The line on a place in a chain. The last place of a chain is where the search started.
pub open spec fn chain_line(c: Seq<Spot>, i: int, workspace: Seq<Part>) -> Seq<char> {
    let arrow = if i == c.len() - 1 {
        "       └─ start"@
    } else {
        "       ←"@
    };
    arrow + " "@ + relative_text(c[i].0, workspace) + ":"@ + decimal(c[i].1.line as nat + 1) + ":"@
        + decimal(c[i].1.character as nat + 1)
}

/// The lines on a reference and the chain that led to it.
pub open spec fn ref_lines(pos: Position, c: Seq<Spot>, workspace: Seq<Part>) -> Seq<Seq<char>> {
    seq![
        "    ref at line "@ + decimal(pos.line as nat + 1) + " col "@ + decimal(
            pos.character as nat + 1,
        ),
    ] + Seq::new(c.len(), |i: int| chain_line(c, i, workspace))
}

/// Whether a chain is that of an earlier reference.
pub open spec fn chain_known(
    ls: Seq<Link>,
    entry: Seq<Part>,
    earlier: Seq<Position>,
    c: Seq<Spot>,
) -> bool {
    exists|k: int| 0 <= k < earlier.len() && chain_to(ls, entry, #[trigger] earlier[k]) == c
}

/// The lines on the references in an entrypoint. Of references with one chain, the first is
/// shown.
pub open spec fn refs_lines(
    ls: Seq<Link>,
    entry: Seq<Part>,
    positions: Seq<Position>,
    workspace: Seq<Part>,
) -> Seq<Seq<char>>
    decreases positions.len(),
{
    if positions.len() == 0 {
        Seq::empty()
    } else {
        let front = positions.drop_last();
        let c = chain_to(ls, entry, positions.last());
        let before = refs_lines(ls, entry, front, workspace);
        if chain_known(ls, entry, front, c) {
            before
        } else {
            before + ref_lines(positions.last(), c, workspace)
        }
    }
}

/// The references that are noted for an entrypoint.
pub open spec fn positions_in(v: Seq<(PathBuf, Vec<Position>)>, entry: Seq<Part>) -> Seq<Position>
    decreases v.len(),
{
    if v.len() == 0 {
        Seq::empty()
    } else if v[0].0@ == entry {
        v[0].1@
    } else {
        positions_in(v.drop_first(), entry)
    }
}

/// The lines on entrypoints, in the given order.
pub open spec fn entries_lines(
    ls: Seq<Link>,
    hits: Seq<(PathBuf, Vec<Position>)>,
    order: Seq<Seq<Part>>,
    workspace: Seq<Part>,
) -> Seq<Seq<char>>
    decreases order.len(),
{
    if order.len() == 0 {
        Seq::empty()
    } else {
        entries_lines(ls, hits, order.drop_last(), workspace) + seq![
            "  "@ + relative_text(order.last(), workspace),
        ] + refs_lines(ls, order.last(), positions_in(hits, order.last()), workspace)
    }
}

/// The entrypoints that references are noted for.
pub open spec fn entries(v: Seq<(PathBuf, Vec<Position>)>) -> Seq<Seq<Part>> {
    v.map_values(|e: (PathBuf, Vec<Position>)| e.0@)
}

fn same_chain(a: &Vec<(PathBuf, Position)>, b: &Vec<(PathBuf, Position)>) -> (r: bool)
    ensures
        r == (spots(a@) == spots(b@)),
{
    if a.len() != b.len() {
        return false;
    }
    let mut i: usize = 0;
    while i < a.len()
        invariant
            i <= a@.len() == b@.len(),
            forall|k: int| 0 <= k < i ==> spots(a@)[k] == #[trigger] spots(b@)[k],
        decreases a.len() - i,
    {
        if a[i].1 != b[i].1 || !a[i].0.same(&b[i].0) {
            assert(spots(a@)[i as int] != spots(b@)[i as int]);
            return false;
        }
        i = i + 1;
    }
    assert(spots(a@) =~= spots(b@));
    true
}

fn push_at(row: &mut String, p: Position, line_end: &str)
    ensures
        final(row)@ == old(row)@ + decimal(p.line as nat + 1) + line_end@ + decimal(
            p.character as nat + 1,
        ),
{
    push_decimal(row, p.line as u64 + 1);
    row.append(line_end);
    push_decimal(row, p.character as u64 + 1);
}

/// Adds the lines on a reference and its chain.
fn push_ref(rows: &mut Vec<String>, pos: Position, c: &Vec<(PathBuf, Position)>, workspace: &PathBuf)
    ensures
        texts(final(rows)@) == texts(old(rows)@) + ref_lines(pos, spots(c@), workspace@),
{
    let ghost start = texts(rows@);
    let ghost all = ref_lines(pos, spots(c@), workspace@);
    let ghost had = rows@;
    let mut top = "    ref at line ".to_owned();
    push_at(&mut top, pos, " col ");
    let ghost head = top@;
    rows.push(top);
    proof {
        assert(head =~= all[0]);
        assert(texts(rows@) =~= start.push(all[0]));
        assert(all.take(1) =~= seq![all[0]]);
        assert(texts(rows@) =~= start + all.take(1));
    }
    let mut i: usize = 0;
    while i < c.len()
        invariant
            i <= c@.len(),
            all == ref_lines(pos, spots(c@), workspace@),
            all.len() == c@.len() + 1,
            texts(rows@) == start + all.take(i + 1),
        decreases c.len() - i,
    {
        let mut row = if i == c.len() - 1 {
            "       └─ start".to_owned()
        } else {
            "       ←".to_owned()
        };
        row.append(" ");
        row.append(relative(&c[i].0, workspace).as_str());
        row.append(":");
        push_at(&mut row, c[i].1, ":");
        let ghost line = row@;
        let ghost before = rows@;
        rows.push(row);
        proof {
            assert(spots(c@)[i as int] == (c@[i as int].0@, c@[i as int].1));
            assert(line =~= chain_line(spots(c@), i as int, workspace@));
            assert(all[i + 1] == line);
            assert(texts(rows@) =~= texts(before).push(line));
            assert(all.take(i + 2) =~= all.take(i + 1).push(line));
            assert(texts(rows@) =~= start + all.take(i + 2));
        }
        i = i + 1;
    }
    assert(all.take(i + 1) =~= all);
}

/// Adds the lines on the references in an entrypoint.
fn push_refs(
    rows: &mut Vec<String>,
    parents: &ParentMap,
    entry: &PathBuf,
    positions: &Vec<Position>,
    workspace: &PathBuf,
)
    ensures
        texts(final(rows)@) == texts(old(rows)@) + refs_lines(
            links(parents@),
            entry@,
            positions@,
            workspace@,
        ),
{
    let ghost ls = links(parents@);
    let ghost start = texts(rows@);
    let mut seen: Vec<Vec<(PathBuf, Position)>> = Vec::new();
    let mut i: usize = 0;
    assert(positions@.take(0) =~= Seq::<Position>::empty());
    assert(start + Seq::<Seq<char>>::empty() =~= start);
    while i < positions.len()
        invariant
            i <= positions@.len(),
            ls == links(parents@),
            seen@.len() == i,
            forall|k: int|
                0 <= k < i ==> spots((#[trigger] seen@[k])@) == chain_to(
                    ls,
                    entry@,
                    positions@[k],
                ),
            texts(rows@) == start + refs_lines(
                ls,
                entry@,
                positions@.take(i as int),
                workspace@,
            ),
        decreases positions.len() - i,
    {
        let pos = positions[i];
        let c = walk_parents(parents, (entry.clone(), pos));
        let ghost front = positions@.take(i as int);
        let mut known = false;
        let mut k: usize = 0;
        while k < seen.len()
            invariant
                k <= seen@.len() == i,
                i <= positions@.len(),
                front == positions@.take(i as int),
                forall|j: int|
                    0 <= j < i ==> spots((#[trigger] seen@[j])@) == chain_to(
                        ls,
                        entry@,
                        positions@[j],
                    ),
                known == exists|j: int|
                    0 <= j < k && chain_to(ls, entry@, #[trigger] front[j]) == spots(c@),
            decreases seen.len() - k,
        {
            assert(front[k as int] == positions@[k as int]);
            if same_chain(&seen[k], &c) {
                known = true;
            }
            k = k + 1;
        }
        let ghost before = texts(rows@);
        proof {
            let part = positions@.take(i + 1);
            assert(part.drop_last() =~= front);
            assert(part.last() == pos);
            assert(known == chain_known(ls, entry@, front, spots(c@)));
        }
        if !known {
            push_ref(rows, pos, &c, workspace);
            assert(texts(rows@) =~= start + (refs_lines(ls, entry@, front, workspace@) + ref_lines(
                pos,
                spots(c@),
                workspace@,
            )));
        }
        seen.push(c);
        i = i + 1;
    }
    assert(positions@.take(i as int) =~= positions@);
}

/// The place of an entrypoint in a list.
fn find_entry(hits: &EntryHits, entry: &PathBuf) -> (r: Option<usize>)
    ensures
        match r {
            Some(i) => i < hits@.len() && positions_in(hits@, entry@) == hits@[i as int].1@,
            None => positions_in(hits@, entry@).len() == 0,
        },
{
    let mut i: usize = 0;
    assert(hits@.skip(0) =~= hits@);
    while i < hits.len()
        invariant
            i <= hits@.len(),
            positions_in(hits@, entry@) == positions_in(hits@.skip(i as int), entry@),
        decreases hits.len() - i,
    {
        proof {
            assert(hits@.skip(i as int)[0] == hits@[i as int]);
            assert(hits@.skip(i as int).drop_first() =~= hits@.skip(i + 1));
        }
        if hits[i].0.same(entry) {
            return Some(i);
        }
        i = i + 1;
    }
    None
}

/// The text that explains how a search came to each entrypoint. The entrypoints come in
/// order.
pub fn trace_text(entry_hits: &EntryHits, parents: &ParentMap, workspace: &PathBuf) -> (r: String)
    ensures
        exists|order: Seq<Seq<Part>>|
            paths_ascend(order) && order.to_set() =~= entries(entry_hits@).to_set() && r@ == ended(
                seq![""@, "BFS trace per affected entrypoint:"@] + #[trigger] entries_lines(
                    links(parents@),
                    entry_hits@,
                    order,
                    workspace@,
                ),
            ),
{
    let ghost ls = links(parents@);
    let ghost keys = entries(entry_hits@);
    let mut order: Vec<PathBuf> = Vec::new();
    let mut i: usize = 0;
    assert(paths_view(order@) =~= Seq::<Seq<Part>>::empty());
    assert(keys.take(0).to_set() =~= path_set(order@));
    while i < entry_hits.len()
        invariant
            i <= entry_hits@.len(),
            keys == entries(entry_hits@),
            paths_ascend(paths_view(order@)),
            path_set(order@) =~= keys.take(i as int).to_set(),
        decreases entry_hits.len() - i,
    {
        insert_path(&mut order, entry_hits[i].0.clone());
        proof {
            let a = keys.take(i as int);
            let b = keys.take(i + 1);
            assert(b =~= a.push(keys[i as int]));
            assert forall|x: Seq<Part>| b.to_set().contains(x) <==> a.to_set().insert(
                keys[i as int],
            ).contains(x) by {
                if a.contains(x) {
                    let j = choose|j: int| 0 <= j < a.len() && a[j] == x;
                    assert(b[j] == x);
                }
                if x == keys[i as int] {
                    assert(b[i as int] == x);
                }
            }
        }
        i = i + 1;
    }
    assert(keys.take(i as int) =~= keys);
    let ghost paths = paths_view(order@);
    let mut rows: Vec<String> = Vec::new();
    rows.push("".to_owned());
    rows.push("BFS trace per affected entrypoint:".to_owned());
    let ghost head = seq![""@, "BFS trace per affected entrypoint:"@];
    assert(texts(rows@) =~= head);
    let mut k: usize = 0;
    assert(paths.take(0) =~= Seq::<Seq<Part>>::empty());
    assert(head + Seq::<Seq<char>>::empty() =~= head);
    while k < order.len()
        invariant
            k <= order@.len(),
            ls == links(parents@),
            paths == paths_view(order@),
            texts(rows@) == head + entries_lines(
                ls,
                entry_hits@,
                paths.take(k as int),
                workspace@,
            ),
        decreases order.len() - k,
    {
        let entry = &order[k];
        let ghost before = texts(rows@);
        let mut row = "  ".to_owned();
        row.append(relative(entry, workspace).as_str());
        let ghost line = row@;
        let ghost had = rows@;
        rows.push(row);
        assert(texts(rows@) =~= texts(had).push(line));
        let ghost positions = positions_in(entry_hits@, entry@);
        match find_entry(entry_hits, entry) {
            Some(at) => {
                push_refs(&mut rows, parents, entry, &entry_hits[at].1, workspace);
            },
            None => {
                assert(refs_lines(ls, entry@, positions, workspace@) =~= Seq::<Seq<char>>::empty());
            },
        }
        proof {
            let a = paths.take(k as int);
            let b = paths.take(k + 1);
            assert(b.drop_last() =~= a);
            assert(b.last() == entry@);
            assert(texts(rows@) =~= head + (entries_lines(ls, entry_hits@, a, workspace@) + seq![
                line,
            ] + refs_lines(ls, entry@, positions, workspace@)));
        }
        k = k + 1;
    }
    assert(paths.take(k as int) =~= paths);
    end_lines(&rows)
}

/// The positions in a file are those of its entry; a file without an entry has none.
pub proof fn positions_stand_in_the_entry_of_their_file(
    v: Seq<(PathBuf, Vec<Position>)>,
    entry: Seq<Part>,
    i: int,
)
    ensures
        0 <= i < v.len() && v[i].0@ == entry && (forall|j: int|
            0 <= j < i ==> (#[trigger] v[j]).0@ != entry) ==> positions_in(v, entry) == v[i].1@,
        (forall|j: int| 0 <= j < v.len() ==> (#[trigger] v[j]).0@ != entry) ==> positions_in(
            v,
            entry,
        ).len() == 0,
    decreases v.len(),
{
    if v.len() > 0 && v[0].0@ != entry {
        let rest = v.drop_first();
        positions_stand_in_the_entry_of_their_file(rest, entry, i - 1);
        assert forall|j: int| 0 <= j < rest.len() implies #[trigger] rest[j] == v[j + 1] by {}
    }
}

/// Every entrypoint has a line and the lines of its references behind it, one entrypoint after
/// the other.
pub proof fn entrypoints_are_traced_one_by_one(
    ls: Seq<Link>,
    hits: Seq<(PathBuf, Vec<Position>)>,
    order: Seq<Seq<Part>>,
    entry: Seq<Part>,
    workspace: Seq<Part>,
)
    ensures
        entries_lines(ls, hits, order.push(entry), workspace) == entries_lines(
            ls,
            hits,
            order,
            workspace,
        ) + seq!["  "@ + relative_text(entry, workspace)] + refs_lines(
            ls,
            entry,
            positions_in(hits, entry),
            workspace,
        ),
        entries_lines(ls, hits, Seq::empty(), workspace).len() == 0,
{
    assert(order.push(entry).drop_last() =~= order);
}

/// A reference is traced unless an earlier one in the file has the same chain.
pub proof fn every_chain_is_traced_once(
    ls: Seq<Link>,
    entry: Seq<Part>,
    positions: Seq<Position>,
    p: Position,
    workspace: Seq<Part>,
)
    ensures
        ({
            let c = chain(ls, (entry, p), CHAIN_LIMIT as nat);
            let before = refs_lines(ls, entry, positions, workspace);
            let after = refs_lines(ls, entry, positions.push(p), workspace);
            if exists|k: int|
                0 <= k < positions.len() && chain(
                    ls,
                    (entry, #[trigger] positions[k]),
                    CHAIN_LIMIT as nat,
                ) == c {
                after == before
            } else {
                after == before + ref_lines(p, c, workspace)
            }
        }),
        refs_lines(ls, entry, Seq::empty(), workspace).len() == 0,
{
    assert(positions.push(p).drop_last() =~= positions);
    let c = chain(ls, (entry, p), CHAIN_LIMIT as nat);
    if exists|k: int|
        0 <= k < positions.len() && chain(
            ls,
            (entry, #[trigger] positions[k]),
            CHAIN_LIMIT as nat,
        ) == c {
        let k = choose|k: int|
            0 <= k < positions.len() && chain(
                ls,
                (entry, #[trigger] positions[k]),
                CHAIN_LIMIT as nat,
            ) == c;
        assert(chain_to(ls, entry, positions[k]) == c);
    }
    if chain_known(ls, entry, positions, c) {
        let k = choose|k: int|
            0 <= k < positions.len() && chain_to(ls, entry, #[trigger] positions[k]) == c;
        assert(chain(ls, (entry, positions[k]), CHAIN_LIMIT as nat) == c);
    }
}

/// The trace of a reference shows its place and every place of its chain, in order, with lines
/// and columns counted from one; the last one is marked as the start.
pub proof fn every_place_of_a_chain_is_shown(pos: Position, c: Seq<Spot>, workspace: Seq<Part>)
    ensures
        ref_lines(pos, c, workspace).len() == c.len() + 1,
        ref_lines(pos, c, workspace)[0] == "    ref at line "@ + decimal((pos.line + 1) as nat)
            + " col "@ + decimal((pos.character + 1) as nat),
        forall|i: int|
            0 <= i < c.len() - 1 ==> #[trigger] ref_lines(pos, c, workspace)[i + 1]
                == "       ←"@ + " "@ + relative_text(c[i].0, workspace) + ":"@ + decimal(
                (c[i].1.line + 1) as nat,
            ) + ":"@ + decimal((c[i].1.character + 1) as nat),
        c.len() > 0 ==> ref_lines(pos, c, workspace)[c.len() as int] == "       └─ start"@
            + " "@ + relative_text(c.last().0, workspace) + ":"@ + decimal(
            (c.last().1.line + 1) as nat,
        ) + ":"@ + decimal((c.last().1.character + 1) as nat),
{
    let rows = Seq::new(c.len(), |i: int| chain_line(c, i, workspace));
    let all = ref_lines(pos, c, workspace);
    assert forall|i: int| 0 <= i < c.len() implies #[trigger] all[i + 1] == chain_line(
        c,
        i,
        workspace,
    ) by {
        assert(all[i + 1] == rows[i]);
    }
    if c.len() > 0 {
        assert(all[c.len() - 1 + 1] == chain_line(c, c.len() - 1, workspace));
    }
}

} // verus!
