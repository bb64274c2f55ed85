//! Domain types used by the analysis layer.

use crate::path::{Part, PathBuf};
use vstd::prelude::*;

verus! {

/// 0-based line/character position.
#[derive(Debug, Clone, Copy, PartialEq, Eq, Hash, Structural)]
pub struct Position {
    pub line: u32,
    pub character: u32,
}

/// Half-open range [start, end) expressed as two positions.
#[derive(Debug, Clone, Copy, PartialEq, Eq, Structural)]
pub struct Range {
    pub start: Position,
    pub end: Position,
}

/// A reference location: file path + range.
#[derive(Debug, PartialEq, Eq)]
pub struct Location {
    pub path: PathBuf,
    pub range: Range,
}

/// A location, as contracts see it.
pub struct Site {
    pub path: Seq<Part>,
    pub range: Range,
}

impl View for Location {
    type V = Site;

    open spec fn view(&self) -> Site {
        Site { path: self.path@, range: self.range }
    }
}

impl Clone for Location {
    fn clone(&self) -> (r: Self)
        ensures
            r@ == self@,
    {
        Location { path: self.path.clone(), range: self.range }
    }
}

/// Hierarchical symbol information: a named item, the text it covers, the text of its name,
/// and the items inside it.
#[derive(Debug, PartialEq, Eq)]
pub struct DocumentSymbol {
    pub name: String,
    pub range: Range,
    pub selection_range: Range,
    pub children: Vec<DocumentSymbol>,
}

/// Whether two symbols, and the symbols inside them, say the same.
pub open spec fn alike(a: DocumentSymbol, b: DocumentSymbol) -> bool
    decreases a,
{
    &&& a.name@ == b.name@
    &&& a.range == b.range
    &&& a.selection_range == b.selection_range
    &&& a.children@.len() == b.children@.len()
    &&& forall|i: int|
        0 <= i < a.children@.len() ==> decreases_to!(a => a.children@[i]) && alike(
            #[trigger] a.children@[i],
            b.children@[i],
        )
}

impl Clone for DocumentSymbol {
    fn clone(&self) -> (r: Self)
        ensures
            alike(*self, r),
        decreases self,
    {
        let mut children: Vec<DocumentSymbol> = Vec::new();
        let mut i: usize = 0;
        while i < self.children.len()
            invariant
                i <= self.children@.len(),
                children@.len() == i,
                forall|k: int|
                    0 <= k < i ==> alike(self.children@[k], #[trigger] children@[k]),
            decreases self.children.len() - i,
        {
            assert(decreases_to!(self => self.children@[i as int]));
            children.push(self.children[i].clone());
            i = i + 1;
        }
        let r = DocumentSymbol {
            name: self.name.clone(),
            range: self.range,
            selection_range: self.selection_range,
            children,
        };
        assert forall|k: int| 0 <= k < self.children@.len() implies decreases_to!(
            *self => self.children@[k]) && alike(#[trigger] self.children@[k], r.children@[k]) by {
            assert(alike(self.children@[k], children@[k]));
        }
        r
    }
}

/// Symbols that are alike are so with all that is in them.
pub proof fn likeness_goes_all_the_way_down(a: DocumentSymbol, b: DocumentSymbol)
    requires
        alike(a, b),
    ensures
        a.name@ == b.name@,
        a.range == b.range,
        a.selection_range == b.selection_range,
        a.children@.len() == b.children@.len(),
        forall|i: int|
            0 <= i < a.children@.len() ==> alike(#[trigger] a.children@[i], b.children@[i]),
{
}

} // verus!
