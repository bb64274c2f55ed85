//! Reports of `cargo audit --json`.
//!
//! The reader of reports takes some texts apart in ways that do not end well: two version
//! requirements of one advisory may not begin at the same version, no number in them that is
//! counted up may be the largest there is, and a checksum has to be ASCII. Where such texts stand
//! in a report is found by a walk over its characters, before the report is read. The reader
//! takes an array for an object too, with the members in their order.

use crate::cve::version::{do_clash, meets_limits, reqs_clash, within_limits};
use crate::text::{chars_are, chars_of, slice_to_vec, string_of, texts};
use vstd::prelude::*;

verus! {

// ---------------------------------------------------------------------------------------
// A walk over the characters
// ---------------------------------------------------------------------------------------
/// What the next character belongs to.
#[derive(Debug, Clone, Copy, PartialEq, Eq, Structural)]
pub enum Mode {
    /// The space between texts.
    Between,
    /// A text.
    Text,
    /// A text, behind a backslash.
    Escape,
    /// A text, behind `\u`.
    Code,
}

/// What a value in a report is.
#[derive(Debug, Clone, Copy, PartialEq, Eq, Structural)]
pub enum Place {
    Report,
    Vulnerabilities,
    VulnerabilityList,
    Vulnerability,
    Warnings,
    WarningList,
    Warning,
    /// The patched and the unaffected versions of an advisory.
    Versions,
    /// A list of version requirements.
    Reqs,
    Req,
    Package,
    Checksum,
    /// Something else.
    Elsewhere,
}

/// What a member of an object is.
pub open spec fn member(place: Place, key: Seq<char>) -> Place {
    match place {
        Place::Report => if key == "vulnerabilities"@ {
            Place::Vulnerabilities
        } else if key == "warnings"@ {
            Place::Warnings
        } else {
            Place::Elsewhere
        },
        Place::Vulnerabilities => if key == "list"@ {
            Place::VulnerabilityList
        } else {
            Place::Elsewhere
        },
        Place::Vulnerability | Place::Warning => if key == "versions"@ {
            Place::Versions
        } else if key == "package"@ {
            Place::Package
        } else {
            Place::Elsewhere
        },
        Place::Warnings => Place::WarningList,
        Place::Versions => if key == "patched"@ || key == "unaffected"@ {
            Place::Reqs
        } else {
            Place::Elsewhere
        },
        Place::Package => if key == "checksum"@ {
            Place::Checksum
        } else {
            Place::Elsewhere
        },
        _ => Place::Elsewhere,
    }
}

/// What an element of an array is.
pub open spec fn element(place: Place, index: u8) -> Place {
    match (place, index) {
        (Place::Report, 2) => Place::Vulnerabilities,
        (Place::Report, 3) => Place::Warnings,
        (Place::Vulnerabilities, 2) => Place::VulnerabilityList,
        (Place::VulnerabilityList, _) => Place::Vulnerability,
        (Place::Vulnerability, 1) => Place::Versions,
        (Place::Vulnerability, 3) => Place::Package,
        (Place::WarningList, _) => Place::Warning,
        (Place::Warning, 1) => Place::Package,
        (Place::Warning, 4) => Place::Versions,
        (Place::Versions, 0) => Place::Reqs,
        (Place::Versions, 1) => Place::Reqs,
        (Place::Reqs, _) => Place::Req,
        (Place::Package, 3) => Place::Checksum,
        _ => Place::Elsewhere,
    }
}

/// An object or an array that is open.
pub struct Open {
    pub place: Place,
    pub array: bool,
    /// The key of the current member of an object.
    pub key: Option<Seq<char>>,
    /// The index of the current element of an array; 5 stands for any beyond.
    pub index: u8,
    /// The version requirements in the lists in it.
    pub found: Seq<Seq<char>>,
}

/// What the value at the current place of a report is.
pub open spec fn next_place(open: Seq<Open>) -> Place {
    if open.len() == 0 {
        Place::Report
    } else if open.last().array {
        element(open.last().place, open.last().index)
    } else {
        match open.last().key {
            Some(key) => member(open.last().place, key),
            None => Place::Elsewhere,
        }
    }
}

/// How far a walk has come.
pub struct Walk {
    pub mode: Mode,
    /// The text that is read, or that was read last.
    pub text: Seq<char>,
    /// The digits read behind `\u`.
    pub code: Seq<char>,
    pub open: Seq<Open>,
    /// The version requirements of the objects and arrays that are closed, one list for each.
    pub lists: Seq<Seq<Seq<char>>>,
    /// Whether all checksums are ASCII.
    pub ascii: bool,
}

/// A character that stands in no version requirement, in no checksum and in no key that counts.
pub const OTHER: char = '\u{fffd}';

/// The value of a hexadecimal digit; 16 for anything else.
pub open spec fn hex(c: char) -> int {
    if '0' <= c <= '9' {
        c as int - '0' as int
    } else if 'a' <= c <= 'f' {
        c as int - 'a' as int + 10
    } else if 'A' <= c <= 'F' {
        c as int - 'A' as int + 10
    } else {
        16
    }
}

/// The character that four hexadecimal digits stand for, where it is ASCII.
pub open spec fn coded(code: Seq<char>) -> char {
    if code[0] == '0' && code[1] == '0' && hex(code[2]) < 8 && hex(code[3]) < 16 {
        (hex(code[2]) * 16 + hex(code[3])) as char
    } else {
        OTHER
    }
}

/// Whether all characters are ASCII.
pub open spec fn all_ascii(text: Seq<char>) -> bool {
    forall|i: int| 0 <= i < text.len() ==> (#[trigger] text[i]) <= '\u{7f}'
}

/// An object or an array that is opened.
pub open spec fn opened(open: Seq<Open>, array: bool) -> Open {
    Open { place: next_place(open), array, key: None, index: 0, found: Seq::empty() }
}

/// What is open, with another key in the innermost.
pub open spec fn with_key(open: Seq<Open>, key: Option<Seq<char>>) -> Seq<Open> {
    if open.len() == 0 {
        open
    } else {
        open.drop_last().push(Open { key, ..open.last() })
    }
}

/// What is open, at the next member or element of the innermost.
pub open spec fn moved_on(open: Seq<Open>) -> Seq<Open> {
    if open.len() == 0 {
        open
    } else {
        let at = open.last();
        open.drop_last().push(
            Open {
                key: None,
                index: if at.index < 5 {
                    (at.index + 1) as u8
                } else {
                    5
                },
                ..at
            },
        )
    }
}

/// What is open, with a version requirement noted around the innermost.
pub open spec fn with_req(open: Seq<Open>, text: Seq<char>) -> Seq<Open> {
    let n = open.len() - 2;
    if n < 0 {
        open
    } else {
        open.update(n, Open { found: open[n].found.push(text), ..open[n] })
    }
}

/// One character of a report.
pub open spec fn walk_step(w: Walk, c: char) -> Walk {
    match w.mode {
        Mode::Between => if c == '"' {
            Walk { mode: Mode::Text, text: Seq::empty(), ..w }
        } else if c == '[' {
            Walk { open: w.open.push(opened(w.open, true)), ..w }
        } else if c == '{' {
            Walk { open: w.open.push(opened(w.open, false)), ..w }
        } else if c == ':' {
            Walk { open: with_key(w.open, Some(w.text)), ..w }
        } else if c == ',' {
            Walk { open: moved_on(w.open), ..w }
        } else if (c == ']' || c == '}') && w.open.len() > 0 {
            Walk { open: w.open.drop_last(), lists: w.lists.push(w.open.last().found), ..w }
        } else {
            w
        },
        Mode::Text => if c == '"' {
            Walk {
                mode: Mode::Between,
                open: if next_place(w.open) == Place::Req {
                    with_req(w.open, w.text)
                } else {
                    w.open
                },
                ascii: w.ascii && (next_place(w.open) == Place::Checksum ==> all_ascii(w.text)),
                ..w
            }
        } else if c == '\\' {
            Walk { mode: Mode::Escape, ..w }
        } else {
            Walk { text: w.text.push(c), ..w }
        },
        Mode::Escape => if c == 'u' {
            Walk { mode: Mode::Code, code: Seq::empty(), ..w }
        } else {
            Walk { mode: Mode::Text, text: w.text.push(OTHER), ..w }
        },
        Mode::Code => if w.code.len() < 3 {
            Walk { code: w.code.push(c), ..w }
        } else {
            Walk { mode: Mode::Text, text: w.text.push(coded(w.code.push(c))), ..w }
        },
    }
}

/// How far a walk over a text comes.
pub open spec fn walk_of(text: Seq<char>) -> Walk
    decreases text.len(),
{
    if text.len() == 0 {
        Walk {
            mode: Mode::Between,
            text: Seq::empty(),
            code: Seq::empty(),
            open: Seq::empty(),
            lists: Seq::empty(),
            ascii: true,
        }
    } else {
        walk_step(walk_of(text.drop_last()), text.last())
    }
}

/// Whether the version requirements of a list begin at different versions, and their numbers
/// leave room for a next one.
pub open spec fn apart(list: Seq<Seq<char>>) -> bool {
    &&& forall|i: int| 0 <= i < list.len() ==> within_limits(#[trigger] list[i])
    &&& forall|i: int, j: int|
        0 <= i < j < list.len() ==> !reqs_clash(#[trigger] list[i], #[trigger] list[j])
}

/// Whether a report can be taken apart by its reader.
pub open spec fn in_good_order(text: Seq<char>) -> bool {
    &&& walk_of(text).ascii
    &&& forall|i: int|
        0 <= i < walk_of(text).lists.len() ==> apart(#[trigger] walk_of(text).lists[i])
}

// ---------------------------------------------------------------------------------------
// The walk itself
// ---------------------------------------------------------------------------------------
struct OpenNow {
    place: Place,
    array: bool,
    key: Option<Vec<char>>,
    index: u8,
    found: Vec<String>,
}

impl View for OpenNow {
    type V = Open;

    closed spec fn view(&self) -> Open {
        Open {
            place: self.place,
            array: self.array,
            key: match self.key {
                Some(k) => Some(k@),
                None => None,
            },
            index: self.index,
            found: texts(self.found@),
        }
    }
}

fn place_of_member(place: Place, key: &[char]) -> (r: Place)
    ensures
        r == member(place, key@),
{
    match place {
        Place::Report => if chars_are(key, "vulnerabilities") {
            Place::Vulnerabilities
        } else if chars_are(key, "warnings") {
            Place::Warnings
        } else {
            Place::Elsewhere
        },
        Place::Vulnerabilities => if chars_are(key, "list") {
            Place::VulnerabilityList
        } else {
            Place::Elsewhere
        },
        Place::Vulnerability | Place::Warning => if chars_are(key, "versions") {
            Place::Versions
        } else if chars_are(key, "package") {
            Place::Package
        } else {
            Place::Elsewhere
        },
        Place::Warnings => Place::WarningList,
        Place::Versions => if chars_are(key, "patched") || chars_are(key, "unaffected") {
            Place::Reqs
        } else {
            Place::Elsewhere
        },
        Place::Package => if chars_are(key, "checksum") {
            Place::Checksum
        } else {
            Place::Elsewhere
        },
        _ => Place::Elsewhere,
    }
}

fn place_of_element(place: Place, index: u8) -> (r: Place)
    ensures
        r == element(place, index),
{
    match (place, index) {
        (Place::Report, 2) => Place::Vulnerabilities,
        (Place::Report, 3) => Place::Warnings,
        (Place::Vulnerabilities, 2) => Place::VulnerabilityList,
        (Place::VulnerabilityList, _) => Place::Vulnerability,
        (Place::Vulnerability, 1) => Place::Versions,
        (Place::Vulnerability, 3) => Place::Package,
        (Place::WarningList, _) => Place::Warning,
        (Place::Warning, 1) => Place::Package,
        (Place::Warning, 4) => Place::Versions,
        (Place::Versions, 0) => Place::Reqs,
        (Place::Versions, 1) => Place::Reqs,
        (Place::Reqs, _) => Place::Req,
        (Place::Package, 3) => Place::Checksum,
        _ => Place::Elsewhere,
    }
}

struct WalkNow {
    mode: Mode,
    text: Vec<char>,
    code: Vec<char>,
    open: Vec<OpenNow>,
    lists: Vec<Vec<String>>,
    ascii: bool,
}

spec fn open_views(v: Seq<OpenNow>) -> Seq<Open> {
    v.map_values(|o: OpenNow| o@)
}

/// Lists of texts, as contracts see them.
pub open spec fn text_lists(v: Seq<Vec<String>>) -> Seq<Seq<Seq<char>>> {
    v.map_values(|l: Vec<String>| texts(l@))
}

impl View for WalkNow {
    type V = Walk;

    closed spec fn view(&self) -> Walk {
        Walk {
            mode: self.mode,
            text: self.text@,
            code: self.code@,
            open: open_views(self.open@),
            lists: text_lists(self.lists@),
            ascii: self.ascii,
        }
    }
}

fn hex_digit(c: char) -> (r: u8)
    ensures
        r == hex(c),
{
    if '0' <= c && c <= '9' {
        (c as u32 - '0' as u32) as u8
    } else if 'a' <= c && c <= 'f' {
        (c as u32 - 'a' as u32 + 10) as u8
    } else if 'A' <= c && c <= 'F' {
        (c as u32 - 'A' as u32 + 10) as u8
    } else {
        16
    }
}

fn decode(code: &Vec<char>) -> (r: char)
    requires
        code@.len() >= 4,
    ensures
        r == coded(code@),
{
    let high = hex_digit(code[2]);
    let low = hex_digit(code[3]);
    if code[0] == '0' && code[1] == '0' && high < 8 && low < 16 {
        (high * 16 + low) as char
    } else {
        OTHER
    }
}

fn is_ascii_text(text: &Vec<char>) -> (r: bool)
    ensures
        r == all_ascii(text@),
{
    let mut i: usize = 0;
    while i < text.len()
        invariant
            i <= text@.len(),
            forall|k: int| 0 <= k < i ==> (#[trigger] text@[k]) <= '\u{7f}',
        decreases text.len() - i,
    {
        let c: char = text[i];
        assert(text@[i as int] == c);
        if c > '\u{7f}' {
            return false;
        }
        i = i + 1;
    }
    true
}

impl WalkNow {
    /// What the value at the current place is.
    fn next(&self) -> (r: Place)
        ensures
            r == next_place(self@.open),
    {
        let n = self.open.len();
        if n == 0 {
            return Place::Report;
        }
        let at = &self.open[n - 1];
        assert(self@.open.last() == at@);
        if at.array {
            return place_of_element(at.place, at.index);
        }
        match &at.key {
            Some(key) => place_of_member(at.place, key.as_slice()),
            None => Place::Elsewhere,
        }
    }

    fn open_value(&mut self, array: bool)
        ensures
            final(self)@ == (Walk {
                open: old(self)@.open.push(opened(old(self)@.open, array)),
                ..old(self)@
            }),
    {
        let place = self.next();
        let value = OpenNow { place, array, key: None, index: 0, found: Vec::new() };
        assert(texts(value.found@) =~= Seq::<Seq<char>>::empty());
        let ghost shown = value@;
        self.open.push(value);
        assert(self@.open =~= old(self)@.open.push(shown));
    }

    fn set_key(&mut self, key: Vec<char>)
        ensures
            final(self)@ == (Walk { open: with_key(old(self)@.open, Some(key@)), ..old(self)@ }),
    {
        if let Some(mut at) = self.open.pop() {
            assert(old(self)@.open.last() == at@);
            at.key = Some(key);
            let ghost shown = at@;
            self.open.push(at);
            assert(self@.open =~= old(self)@.open.drop_last().push(shown));
        }
    }

    fn move_on(&mut self)
        ensures
            final(self)@ == (Walk { open: moved_on(old(self)@.open), ..old(self)@ }),
    {
        if let Some(mut at) = self.open.pop() {
            assert(old(self)@.open.last() == at@);
            at.key = None;
            at.index = if at.index < 5 {
                at.index + 1
            } else {
                5
            };
            let ghost shown = at@;
            self.open.push(at);
            assert(self@.open =~= old(self)@.open.drop_last().push(shown));
        }
    }

    fn close(&mut self)
        ensures
            final(self)@ == if old(self)@.open.len() > 0 {
                Walk {
                    open: old(self)@.open.drop_last(),
                    lists: old(self)@.lists.push(old(self)@.open.last().found),
                    ..old(self)@
                }
            } else {
                old(self)@
            },
    {
        if let Some(at) = self.open.pop() {
            assert(old(self)@.open.last() == at@);
            self.lists.push(at.found);
            assert(self@.open =~= old(self)@.open.drop_last());
            assert(self@.lists =~= old(self)@.lists.push(old(self)@.open.last().found));
        }
    }

    fn note_req(&mut self)
        ensures
            final(self)@ == (Walk {
                open: with_req(old(self)@.open, old(self)@.text),
                ..old(self)@
            }),
    {
        let n = self.open.len();
        if n >= 2 {
            let ghost had = self.open@;
            let req = string_of(self.text.as_slice());
            let ghost before = self.open@[n - 2].found@;
            self.open[n - 2].found.push(req);
            proof {
                assert(texts(self.open@[n - 2].found@) =~= texts(before).push(self.text@));
                assert(self@.open =~= with_req(old(self)@.open, old(self)@.text));
            }
        }
    }

    fn end_text(&mut self)
        requires
            old(self)@.mode == Mode::Text,
        ensures
            final(self)@ == walk_step(old(self)@, '"'),
    {
        let place = self.next();
        self.mode = Mode::Between;
        match place {
            Place::Checksum => {
                self.ascii = self.ascii && is_ascii_text(&self.text);
            },
            Place::Req => {
                self.note_req();
            },
            _ => {},
        }
    }

    fn step(&mut self, c: char)
        ensures
            final(self)@ == walk_step(old(self)@, c),
    {
        match self.mode {
            Mode::Between => {
                if c == '"' {
                    self.mode = Mode::Text;
                    self.text = Vec::new();
                } else if c == '[' {
                    self.open_value(true);
                } else if c == '{' {
                    self.open_value(false);
                } else if c == ':' {
                    let key = slice_to_vec(self.text.as_slice());
                    self.set_key(key);
                } else if c == ',' {
                    self.move_on();
                } else if c == ']' || c == '}' {
                    self.close();
                }
            },
            Mode::Text => {
                if c == '"' {
                    self.end_text();
                } else if c == '\\' {
                    self.mode = Mode::Escape;
                } else {
                    self.text.push(c);
                }
            },
            Mode::Escape => {
                if c == 'u' {
                    self.mode = Mode::Code;
                    self.code = Vec::new();
                } else {
                    self.mode = Mode::Text;
                    self.text.push(OTHER);
                }
            },
            Mode::Code => {
                if self.code.len() < 3 {
                    self.code.push(c);
                } else {
                    let mut code = slice_to_vec(self.code.as_slice());
                    code.push(c);
                    self.mode = Mode::Text;
                    self.text.push(decode(&code));
                }
            },
        }
    }
}

/// Whether the version requirements of a list begin at different versions, and their numbers
/// leave room for a next one.
fn are_apart(list: &Vec<String>) -> (r: bool)
    ensures
        r == apart(texts(list@)),
{
    let ghost all = texts(list@);
    let mut i: usize = 0;
    while i < list.len()
        invariant
            i <= list@.len(),
            all == texts(list@),
            forall|k: int| 0 <= k < i ==> within_limits(#[trigger] all[k]),
            forall|k: int, j: int|
                0 <= k < j < i ==> !reqs_clash(#[trigger] all[k], #[trigger] all[j]),
        decreases list.len() - i,
    {
        assert(all[i as int] == list@[i as int]@);
        if !meets_limits(list[i].as_str()) {
            return false;
        }
        let mut j: usize = 0;
        while j < i
            invariant
                j <= i < list@.len(),
                all == texts(list@),
                forall|k: int| 0 <= k < j ==> !reqs_clash(#[trigger] all[k], all[i as int]),
            decreases i - j,
        {
            assert(all[j as int] == list@[j as int]@);
            if do_clash(list[j].as_str(), list[i].as_str()) {
                assert(reqs_clash(all[j as int], all[i as int]));
                return false;
            }
            j = j + 1;
        }
        i = i + 1;
    }
    true
}

/// Whether a report can be taken apart by its reader.
pub fn is_in_good_order(text: &str) -> (r: bool)
    ensures
        r == in_good_order(text@),
{
    let chars = chars_of(text);
    let ghost all = text@;
    let mut walk = WalkNow {
        mode: Mode::Between,
        text: Vec::new(),
        code: Vec::new(),
        open: Vec::new(),
        lists: Vec::new(),
        ascii: true,
    };
    let mut i: usize = 0;
    proof {
        assert(all.take(0) =~= Seq::<char>::empty());
        assert(walk@.open =~= Seq::<Open>::empty());
        assert(walk@.lists =~= Seq::<Seq<Seq<char>>>::empty());
        assert(walk@ == walk_of(all.take(0)));
    }
    while i < chars.len()
        invariant
            i <= chars@.len(),
            chars@ == all,
            walk@ == walk_of(all.take(i as int)),
        decreases chars.len() - i,
    {
        proof {
            assert(all.take(i + 1).drop_last() =~= all.take(i as int));
            assert(all.take(i + 1).last() == chars@[i as int]);
        }
        walk.step(chars[i]);
        i = i + 1;
    }
    assert(all.take(i as int) =~= all);
    if !walk.ascii {
        return false;
    }
    let ghost lists = walk_of(all).lists;
    let mut k: usize = 0;
    while k < walk.lists.len()
        invariant
            k <= walk.lists@.len(),
            lists == text_lists(walk.lists@),
            lists == walk_of(text@).lists,
            forall|j: int| 0 <= j < k ==> apart(#[trigger] lists[j]),
        decreases walk.lists.len() - k,
    {
        assert(lists[k as int] == texts(walk.lists@[k as int]@));
        if !are_apart(&walk.lists[k]) {
            return false;
        }
        k = k + 1;
    }
    true
}

/// A report is in good order exactly where its checksums are ASCII and no list of requirements
/// holds one that is over the limits or two with a lower bound in common.
pub proof fn what_good_order_means(text: Seq<char>)
    ensures
        in_good_order(text) <==> walk_of(text).ascii && (forall|i: int, j: int|
            #![trigger walk_of(text).lists[i][j]]
            0 <= i < walk_of(text).lists.len() && 0 <= j < walk_of(text).lists[i].len()
                ==> within_limits(walk_of(text).lists[i][j])) && (forall|i: int, j: int, k: int|
            #![trigger walk_of(text).lists[i][j], walk_of(text).lists[i][k]]
            0 <= i < walk_of(text).lists.len() && 0 <= j < k < walk_of(text).lists[i].len()
                ==> !reqs_clash(walk_of(text).lists[i][j], walk_of(text).lists[i][k])),
{
    let lists = walk_of(text).lists;
    if in_good_order(text) {
        assert forall|i: int, j: int|
            #![trigger lists[i][j]]
            0 <= i < lists.len() && 0 <= j < lists[i].len() implies within_limits(lists[i][j]) by {
            assert(apart(lists[i]));
        }
        assert forall|i: int, j: int, k: int|
            #![trigger lists[i][j], lists[i][k]]
            0 <= i < lists.len() && 0 <= j < k < lists[i].len() implies !reqs_clash(
            lists[i][j],
            lists[i][k],
        ) by {
            assert(apart(lists[i]));
        }
    }
}

/// A text without brackets, braces and quotes holds no list and is in good order.
pub proof fn plain_texts_are_in_good_order(text: Seq<char>)
    requires
        forall|i: int|
            0 <= i < text.len() ==> #[trigger] text[i] != '"' && text[i] != '[' && text[i] != '{',
    ensures
        in_good_order(text),
{
    plain_texts_open_nothing(text);
}

proof fn plain_texts_open_nothing(text: Seq<char>)
    requires
        forall|i: int|
            0 <= i < text.len() ==> #[trigger] text[i] != '"' && text[i] != '[' && text[i] != '{',
    ensures
        walk_of(text).mode == Mode::Between,
        walk_of(text).open.len() == 0,
        walk_of(text).lists.len() == 0,
        walk_of(text).ascii,
    decreases text.len(),
{
    if text.len() > 0 {
        let front = text.drop_last();
        assert forall|i: int| 0 <= i < front.len() implies #[trigger] front[i] != '"' && front[i]
            != '[' && front[i] != '{' by {
            assert(front[i] == text[i]);
        }
        plain_texts_open_nothing(front);
        assert(text[text.len() - 1] == text.last());
    }
}

/// What stands between quotes without an escape is a text, and is taken whole.
pub proof fn quoted_texts_are_taken_whole(before: Seq<char>, inside: Seq<char>)
    requires
        walk_of(before).mode == Mode::Between,
        forall|i: int| 0 <= i < inside.len() ==> #[trigger] inside[i] != '"' && inside[i] != '\\',
    ensures
        walk_of(before.push('"') + inside).mode == Mode::Text,
        walk_of(before.push('"') + inside).text == inside,
        walk_of(before.push('"') + inside).open == walk_of(before).open,
        walk_of(before.push('"') + inside).lists == walk_of(before).lists,
        walk_of(before.push('"') + inside).ascii == walk_of(before).ascii,
        walk_of((before.push('"') + inside).push('"')).mode == Mode::Between,
    decreases inside.len(),
{
    let start = before.push('"');
    let all = start + inside;
    assert(start.drop_last() =~= before);
    assert(all.push('"').drop_last() =~= all);
    if inside.len() == 0 {
        assert(all =~= start);
        assert(walk_of(start).text =~= inside);
    } else {
        let front = inside.drop_last();
        assert forall|i: int| 0 <= i < front.len() implies #[trigger] front[i] != '"' && front[i]
            != '\\' by {
            assert(front[i] == inside[i]);
        }
        quoted_texts_are_taken_whole(before, front);
        assert(all.drop_last() =~= start + front);
        assert(all.last() == inside[inside.len() - 1]);
        assert(front.push(inside.last()) =~= inside);
    }
}

/// A requirement is what stands in the lists `patched` and `unaffected` of the versions of a
/// vulnerability or a warning, and nothing else is.
pub proof fn where_requirements_stand(place: Place, key: Seq<char>, index: u8)
    ensures
        member(place, key) == Place::Reqs <==> place == Place::Versions && (key == "patched"@ || key
            == "unaffected"@),
        element(place, index) == Place::Reqs <==> place == Place::Versions && index <= 1,
        element(place, index) == Place::Req <==> place == Place::Reqs,
        member(place, key) != Place::Req,
        member(place, key) == Place::Checksum <==> place == Place::Package && key == "checksum"@,
        member(place, key) == Place::Versions <==> (place == Place::Vulnerability || place
            == Place::Warning) && key == "versions"@,
        member(place, key) == Place::Package <==> (place == Place::Vulnerability || place
            == Place::Warning) && key == "package"@,
        member(Place::Report, "vulnerabilities"@) == Place::Vulnerabilities,
        member(Place::Report, "warnings"@) == Place::Warnings,
        member(Place::Vulnerabilities, "list"@) == Place::VulnerabilityList,
        member(Place::Warnings, key) == Place::WarningList,
        element(Place::VulnerabilityList, index) == Place::Vulnerability,
        element(Place::WarningList, index) == Place::Warning,
{
    reveal_strlit("vulnerabilities");
    reveal_strlit("warnings");
    reveal_strlit("versions");
    reveal_strlit("package");
    assert("vulnerabilities"@.len() != "warnings"@.len());
    assert("versions"@.len() != "package"@.len());
}

/// How a walk goes over what stands between texts. A bracket or a brace opens a value at the
/// current place, a comma goes on to the next member or element, a colon makes the text before it
/// the key, and a closing bracket or brace ends the innermost value, with its requirements.
pub proof fn values_open_and_close(before: Seq<char>)
    requires
        walk_of(before).mode == Mode::Between,
    ensures
        ({
            let w = walk_of(before);
            let array = walk_of(before.push('['));
            let object = walk_of(before.push('{'));
            let comma = walk_of(before.push(','));
            let colon = walk_of(before.push(':'));
            let bracket = walk_of(before.push(']'));
            let brace = walk_of(before.push('}'));
            &&& array.mode == Mode::Between && object.mode == Mode::Between
            &&& comma.mode == Mode::Between && colon.mode == Mode::Between
            &&& bracket.mode == Mode::Between && brace.mode == Mode::Between
            &&& array.open.len() == w.open.len() + 1 && array.open.drop_last() == w.open
            &&& array.open.last().array && array.open.last().index == 0
            &&& array.open.last().key is None && array.open.last().found.len() == 0
            &&& array.open.last().place == next_place(w.open)
            &&& object.open.len() == w.open.len() + 1 && object.open.drop_last() == w.open
            &&& !object.open.last().array && object.open.last().index == 0
            &&& object.open.last().key is None && object.open.last().found.len() == 0
            &&& object.open.last().place == next_place(w.open)
            &&& array.lists == w.lists && object.lists == w.lists
            &&& comma.lists == w.lists && colon.lists == w.lists
            &&& array.ascii == w.ascii && object.ascii == w.ascii
            &&& comma.ascii == w.ascii && colon.ascii == w.ascii
            &&& bracket.ascii == w.ascii && brace.ascii == w.ascii
            &&& w.open.len() > 0 ==> {
                &&& comma.open.len() == w.open.len()
                &&& comma.open.drop_last() == w.open.drop_last()
                &&& comma.open.last().key is None
                &&& comma.open.last().index == if w.open.last().index < 5 {
                    w.open.last().index + 1
                } else {
                    5
                }
                &&& comma.open.last().place == w.open.last().place
                &&& comma.open.last().array == w.open.last().array
                &&& comma.open.last().found == w.open.last().found
                &&& colon.open.len() == w.open.len()
                &&& colon.open.drop_last() == w.open.drop_last()
                &&& colon.open.last().key == Some(w.text)
                &&& colon.open.last().index == w.open.last().index
                &&& colon.open.last().place == w.open.last().place
                &&& colon.open.last().array == w.open.last().array
                &&& colon.open.last().found == w.open.last().found
                &&& bracket.open == w.open.drop_last() && brace.open == w.open.drop_last()
                &&& bracket.lists == w.lists.push(w.open.last().found)
                &&& brace.lists == w.lists.push(w.open.last().found)
            }
        }),
{
    let w = walk_of(before);
    assert(before.push('[').drop_last() =~= before);
    assert(before.push('{').drop_last() =~= before);
    assert(before.push(',').drop_last() =~= before);
    assert(before.push(':').drop_last() =~= before);
    assert(before.push(']').drop_last() =~= before);
    assert(before.push('}').drop_last() =~= before);
    assert(walk_of(before.push('[')).open.drop_last() =~= w.open);
    assert(walk_of(before.push('{')).open.drop_last() =~= w.open);
    if w.open.len() > 0 {
        assert(walk_of(before.push(',')).open.drop_last() =~= w.open.drop_last());
        assert(walk_of(before.push(':')).open.drop_last() =~= w.open.drop_last());
    }
}

/// What a quoted text is for. In a list of requirements it is one requirement more of the value
/// around the list, for a checksum it counts whether it is ASCII, and else it changes nothing.
pub proof fn quoted_texts_count_by_their_place(before: Seq<char>, inside: Seq<char>)
    requires
        walk_of(before).mode == Mode::Between,
        forall|i: int| 0 <= i < inside.len() ==> #[trigger] inside[i] != '"' && inside[i] != '\\',
    ensures
        ({
            let w = walk_of(before);
            let v = walk_of((before.push('"') + inside).push('"'));
            let place = next_place(w.open);
            &&& v.mode == Mode::Between
            &&& v.text == inside
            &&& v.lists == w.lists
            &&& v.ascii <==> w.ascii && (place == Place::Checksum ==> forall|i: int|
                0 <= i < inside.len() ==> (#[trigger] inside[i]) as int <= 127)
            &&& place != Place::Req ==> v.open == w.open
            &&& place == Place::Req && w.open.len() >= 2 ==> {
                let n = w.open.len() - 2;
                &&& v.open.len() == w.open.len()
                &&& v.open.take(n) == w.open.take(n)
                &&& v.open.last() == w.open.last()
                &&& v.open[n].found == w.open[n].found.push(inside)
                &&& v.open[n].place == w.open[n].place
                &&& v.open[n].array == w.open[n].array
                &&& v.open[n].key == w.open[n].key
                &&& v.open[n].index == w.open[n].index
            }
        }),
{
    quoted_texts_are_taken_whole(before, inside);
    let w = walk_of(before);
    let text = before.push('"') + inside;
    assert(text.push('"').drop_last() =~= text);
    let v = walk_of(text.push('"'));
    if next_place(w.open) == Place::Req && w.open.len() >= 2 {
        let n = w.open.len() - 2;
        assert(v.open.take(n) =~= w.open.take(n));
    }
    assert(all_ascii(inside) <==> forall|i: int|
        0 <= i < inside.len() ==> (#[trigger] inside[i]) as int <= 127);
}

/// Two requirements of one advisory that begin at the same version are found, in whichever of
/// its lists they stand: here side by side in one list.
pub proof fn requirements_side_by_side_are_held_apart(
    before: Seq<char>,
    key: Seq<char>,
    a: Seq<char>,
    b: Seq<char>,
)
    requires
        walk_of(before).mode == Mode::Between,
        walk_of(before).open.len() > 0,
        walk_of(before).open.last().place == Place::Versions,
        !walk_of(before).open.last().array,
        walk_of(before).open.last().key is None,
        key == "patched"@ || key == "unaffected"@,
        forall|i: int| 0 <= i < a.len() ==> #[trigger] a[i] != '"' && a[i] != '\\',
        forall|i: int| 0 <= i < b.len() ==> #[trigger] b[i] != '"' && b[i] != '\\',
        in_good_order(
            ((((((before.push('"') + key).push('"').push(':').push('[').push('"') + a).push('"').push(
                ',',
            )).push('"') + b).push('"')).push(']').push('}')),
        ),
    ensures
        !reqs_clash(a, b),
        within_limits(a),
        within_limits(b),
{
    reveal_strlit("patched");
    reveal_strlit("unaffected");
    let w = walk_of(before);
    let n = w.open.len() - 1;
    assert forall|i: int| 0 <= i < key.len() implies #[trigger] key[i] != '"' && key[i] != '\\' by {}
    quoted_texts_count_by_their_place(before, key);
    let t1 = (before.push('"') + key).push('"');
    values_open_and_close(t1);
    let t2 = t1.push(':');
    assert(walk_of(t2).open.last().place == Place::Versions);
    where_requirements_stand(Place::Versions, key, 0);
    assert(next_place(walk_of(t2).open) == Place::Reqs);
    values_open_and_close(t2);
    let t3 = t2.push('[');
    assert(walk_of(t3).open.drop_last()[n] == walk_of(t3).open[n]);
    assert(next_place(walk_of(t3).open) == Place::Req);
    quoted_texts_count_by_their_place(t3, a);
    let t4 = (t3.push('"') + a).push('"');
    values_open_and_close(t4);
    let t5 = t4.push(',');
    assert(walk_of(t5).open.drop_last()[n] == walk_of(t5).open[n]);
    assert(walk_of(t4).open.drop_last()[n] == walk_of(t4).open[n]);
    assert(next_place(walk_of(t5).open) == Place::Req);
    quoted_texts_count_by_their_place(t5, b);
    let t6 = (t5.push('"') + b).push('"');
    values_open_and_close(t6);
    let t7 = t6.push(']');
    assert(walk_of(t7).open.last() == walk_of(t6).open[n]);
    values_open_and_close(t7);
    let t8 = t7.push('}');
    let k = w.open.last().found.len() as int;
    let list = walk_of(t7).open.last().found;
    assert(list == w.open.last().found.push(a).push(b));
    assert(list[k] == a && list[k + 1] == b);
    let lists = walk_of(t8).lists;
    assert(lists.last() == list);
    assert(apart(lists[lists.len() - 1]));
}

/// A list with one requirement gives it to the advisory that the list belongs to.
pub proof fn a_list_gives_its_requirement_to_its_advisory(
    before: Seq<char>,
    key: Seq<char>,
    a: Seq<char>,
)
    requires
        walk_of(before).mode == Mode::Between,
        walk_of(before).open.len() > 0,
        walk_of(before).open.last().place == Place::Versions,
        !walk_of(before).open.last().array,
        walk_of(before).open.last().key is None,
        key == "patched"@ || key == "unaffected"@,
        forall|i: int| 0 <= i < a.len() ==> #[trigger] a[i] != '"' && a[i] != '\\',
    ensures
        ({
            let w = walk_of(before);
            let v = walk_of(
                ((before.push('"') + key).push('"').push(':').push('[').push('"') + a).push(
                    '"',
                ).push(']'),
            );
            &&& v.mode == Mode::Between
            &&& v.ascii == w.ascii
            &&& v.open.len() == w.open.len()
            &&& v.open.last().place == Place::Versions
            &&& !v.open.last().array
            &&& v.open.last().found == w.open.last().found.push(a)
        }),
{
    reveal_strlit("patched");
    reveal_strlit("unaffected");
    let n = walk_of(before).open.len() - 1;
    quoted_texts_count_by_their_place(before, key);
    let t1 = (before.push('"') + key).push('"');
    values_open_and_close(t1);
    let t2 = t1.push(':');
    where_requirements_stand(Place::Versions, key, 0);
    assert(next_place(walk_of(t2).open) == Place::Reqs);
    values_open_and_close(t2);
    let t3 = t2.push('[');
    assert(walk_of(t3).open.drop_last()[n] == walk_of(t3).open[n]);
    quoted_texts_count_by_their_place(t3, a);
    let t4 = (t3.push('"') + a).push('"');
    values_open_and_close(t4);
    let t5 = t4.push(']');
    assert(walk_of(t5).open.last() == walk_of(t4).open[n]);
}

/// A requirement in one list of an advisory and one in its other list are held apart too.
pub proof fn requirements_of_both_lists_are_held_apart(
    before: Seq<char>,
    a: Seq<char>,
    b: Seq<char>,
)
    requires
        walk_of(before).mode == Mode::Between,
        walk_of(before).open.len() > 0,
        walk_of(before).open.last().place == Place::Versions,
        !walk_of(before).open.last().array,
        walk_of(before).open.last().key is None,
        forall|i: int| 0 <= i < a.len() ==> #[trigger] a[i] != '"' && a[i] != '\\',
        forall|i: int| 0 <= i < b.len() ==> #[trigger] b[i] != '"' && b[i] != '\\',
        in_good_order(
            ((((before.push('"') + "patched"@).push('"').push(':').push('[').push('"') + a).push(
                '"',
            ).push(']').push(',').push('"') + "unaffected"@).push('"').push(':').push('[').push('"')
                + b).push('"').push(']').push('}'),
        ),
    ensures
        !reqs_clash(a, b),
        within_limits(a),
        within_limits(b),
{
    a_list_gives_its_requirement_to_its_advisory(before, "patched"@, a);
    let one = ((before.push('"') + "patched"@).push('"').push(':').push('[').push('"') + a).push(
        '"',
    ).push(']');
    values_open_and_close(one);
    let next = one.push(',');
    a_list_gives_its_requirement_to_its_advisory(next, "unaffected"@, b);
    let two = ((next.push('"') + "unaffected"@).push('"').push(':').push('[').push('"') + b).push(
        '"',
    ).push(']');
    values_open_and_close(two);
    let k = walk_of(before).open.last().found.len() as int;
    let list = walk_of(two).open.last().found;
    assert(list[k] == a && list[k + 1] == b);
    let lists = walk_of(two.push('}')).lists;
    assert(lists.last() == list);
    assert(apart(lists[lists.len() - 1]));
}

/// A backslash, a `u`, two zeros and two hexadecimal digits stand for the ASCII character with
/// that number, however the digits are written.
pub proof fn codes_stand_for_characters(
    before: Seq<char>,
    c: char,
    high: int,
    low: int,
    upper: bool,
)
    requires
        walk_of(before).mode == Mode::Text,
        0 <= high < 8,
        0 <= low < 16,
        c as int == high * 16 + low,
    ensures
        ({
            let digits = if upper {
                seq!['0', '1', '2', '3', '4', '5', '6', '7', '8', '9', 'A', 'B', 'C', 'D', 'E', 'F']
            } else {
                seq!['0', '1', '2', '3', '4', '5', '6', '7', '8', '9', 'a', 'b', 'c', 'd', 'e', 'f']
            };
            let v = walk_of(
                before.push('\\').push('u').push('0').push('0').push(digits[high]).push(digits[low]),
            );
            v.mode == Mode::Text && v.text == walk_of(before).text.push(c)
        }),
{
    let digits = if upper {
        seq!['0', '1', '2', '3', '4', '5', '6', '7', '8', '9', 'A', 'B', 'C', 'D', 'E', 'F']
    } else {
        seq!['0', '1', '2', '3', '4', '5', '6', '7', '8', '9', 'a', 'b', 'c', 'd', 'e', 'f']
    };
    let t1 = before.push('\\');
    let t2 = t1.push('u');
    let t3 = t2.push('0');
    let t4 = t3.push('0');
    let t5 = t4.push(digits[high]);
    let t6 = t5.push(digits[low]);
    assert(t1.drop_last() =~= before);
    assert(t2.drop_last() =~= t1);
    assert(t3.drop_last() =~= t2);
    assert(t4.drop_last() =~= t3);
    assert(t5.drop_last() =~= t4);
    assert(t6.drop_last() =~= t5);
    assert(walk_of(t1).mode == Mode::Escape && walk_of(t1).text == walk_of(before).text);
    assert(walk_of(t2).mode == Mode::Code && walk_of(t2).text == walk_of(before).text);
    assert(walk_of(t2).code =~= Seq::<char>::empty());
    assert(walk_of(t3).code =~= seq!['0'] && walk_of(t3).mode == Mode::Code);
    assert(walk_of(t4).code =~= seq!['0', '0'] && walk_of(t4).mode == Mode::Code);
    assert(walk_of(t5).code =~= seq!['0', '0', digits[high]] && walk_of(t5).mode == Mode::Code);
    assert(hex(digits[high]) == high);
    assert(hex(digits[low]) == low);
    let code = walk_of(t5).code.push(digits[low]);
    assert(code[0] == '0' && code[1] == '0' && code[2] == digits[high] && code[3] == digits[low]);
    assert(coded(code) == c);
}

} // verus!
