//! Versions and version requirements.

use crate::text::{chars_of, same_text, texts};
use vstd::prelude::*;

verus! {

/// Whether a text is a version, as [`is_version`] finds.
pub uninterp spec fn version_valid(text: Seq<char>) -> bool;

/// The usual text of a version requirement, as [`read_req`] gives it.
pub uninterp spec fn req_text(text: Seq<char>) -> Option<Seq<char>>;

/// Whether a requirement admits a version, as [`req_admits`] finds.
pub uninterp spec fn req_matches(req: Seq<char>, version: Seq<char>) -> bool;

/// Whether one version is lower than another, as [`is_lower`] finds.
pub uninterp spec fn version_before(a: Seq<char>, b: Seq<char>) -> bool;

/// `semver::Version::parse`: whether it accepts a text. That is a function of the text. No
/// version is lower than itself.
#[verifier::external_body]
fn is_version(text: &str) -> (r: bool)
    ensures
        r == version_valid(text@),
        r ==> !version_before(text@, text@),
{
    semver::Version::parse(text).is_ok()
}

/// `semver::VersionReq::parse`: the text that the requirement prints as, where it accepts the
/// given text. Both are functions of the text.
#[verifier::external_body]
fn read_req(text: &str) -> (r: Option<String>)
    ensures
        match r {
            Some(s) => req_text(text@) == Some(s@),
            None => req_text(text@) is None,
        },
{
    semver::VersionReq::parse(text).ok().map(|req| req.to_string())
}

/// `semver::VersionReq::matches`, on a requirement and a version that are given by texts which
/// parse. The outcome is a function of the two texts.
#[verifier::external_body]
fn req_admits(req: &str, version: &str) -> (r: bool)
    requires
        req_text(req@) is Some,
        version_valid(version@),
    ensures
        r == req_matches(req@, version@),
{
    semver::VersionReq::parse(req).unwrap().matches(&semver::Version::parse(version).unwrap())
}

/// `<` of `semver::Version`, on versions that are given by texts which parse. The outcome is a
/// function of the two texts. What is lower than the lower of two versions is lower than the
/// other one too.
#[verifier::external_body]
fn is_lower(a: &str, b: &str) -> (r: bool)
    requires
        version_valid(a@),
        version_valid(b@),
    ensures
        r == version_before(a@, b@),
        r ==> forall|x: Seq<char>| #[trigger]
            version_before(x, a@) && version_valid(x) ==> version_before(x, b@),
{
    semver::Version::parse(a).unwrap() < semver::Version::parse(b).unwrap()
}

/// A version.
#[derive(Debug, PartialEq, Eq)]
pub struct Version {
    text: String,
}

impl View for Version {
    type V = Seq<char>;

    closed spec fn view(&self) -> Seq<char> {
        self.text@
    }
}

impl Clone for Version {
    fn clone(&self) -> (r: Self)
        ensures
            r@ == self@,
    {
        proof {
            use_type_invariant(self);
        }
        Version { text: self.text.clone() }
    }
}

impl Version {
    #[verifier::type_invariant]
    spec fn inv(self) -> bool {
        version_valid(self.text@)
    }

    /// Reads a version.
    pub fn parse(text: &str) -> (r: Option<Version>)
        ensures
            match r {
                Some(v) => version_valid(text@) && v@ == text@ && !version_before(text@, text@),
                None => !version_valid(text@),
            },
    {
        if is_version(text) {
            Some(Version { text: text.to_owned() })
        } else {
            None
        }
    }

    /// The text of the version.
    pub fn as_str(&self) -> (r: &str)
        ensures
            r@ == self@,
    {
        self.text.as_str()
    }

    /// Whether this version is lower than another.
    pub fn is_before(&self, other: &Version) -> (r: bool)
        ensures
            r == version_before(self@, other@),
            r ==> forall|x: Seq<char>| #[trigger]
                version_before(x, self@) && version_valid(x) ==> version_before(x, other@),
    {
        proof {
            use_type_invariant(self);
            use_type_invariant(other);
        }
        is_lower(self.text.as_str(), other.text.as_str())
    }
}

/// A version requirement.
#[derive(Debug, PartialEq, Eq)]
pub struct VersionReq {
    given: String,
    shown: String,
}

impl View for VersionReq {
    type V = Seq<char>;

    closed spec fn view(&self) -> Seq<char> {
        self.given@
    }
}

impl Clone for VersionReq {
    fn clone(&self) -> (r: Self)
        ensures
            r@ == self@,
    {
        proof {
            use_type_invariant(self);
        }
        VersionReq { given: self.given.clone(), shown: self.shown.clone() }
    }
}

impl VersionReq {
    #[verifier::type_invariant]
    spec fn inv(self) -> bool {
        req_text(self.given@) == Some(self.shown@)
    }

    /// Reads a requirement.
    pub fn parse(text: &str) -> (r: Option<VersionReq>)
        ensures
            match r {
                Some(req) => req_text(text@) is Some && req@ == text@,
                None => req_text(text@) is None,
            },
    {
        match read_req(text) {
            Some(shown) => Some(VersionReq { given: text.to_owned(), shown }),
            None => None,
        }
    }

    /// The usual text of the requirement.
    pub fn shown(&self) -> (r: &str)
        ensures
            req_text(self@) == Some(r@),
    {
        proof {
            use_type_invariant(self);
        }
        self.shown.as_str()
    }

    /// Whether the requirement admits a version.
    pub fn matches(&self, version: &Version) -> (r: bool)
        ensures
            r == req_matches(self@, version@),
    {
        proof {
            use_type_invariant(self);
            use_type_invariant(version);
        }
        req_admits(self.given.as_str(), version.text.as_str())
    }
}

/// Requirements, as contracts see them.
pub open spec fn reqs_view(v: Seq<VersionReq>) -> Seq<Seq<char>> {
    v.map_values(|r: VersionReq| r@)
}

/// Whether a version is among the affected ones: where there are requirements, one of them
/// admits it.
pub open spec fn affected_version(reqs: Seq<Seq<char>>, version: Seq<char>) -> bool {
    reqs.len() == 0 || exists|i: int|
        0 <= i < reqs.len() && req_matches(#[trigger] reqs[i], version)
}

/// Whether a version is among the affected ones.
pub fn version_matches(reqs: &Vec<VersionReq>, version: &Version) -> (r: bool)
    ensures
        r == affected_version(reqs_view(reqs@), version@),
        reqs@.len() == 0 ==> r,
        forall|i: int| 0 <= i < reqs@.len() && req_matches((#[trigger] reqs@[i])@, version@) ==> r,
        reqs@.len() > 0 && (forall|i: int|
            0 <= i < reqs@.len() ==> !req_matches((#[trigger] reqs@[i])@, version@)) ==> !r,
{
    if reqs.len() == 0 {
        return true;
    }
    let ghost all = reqs_view(reqs@);
    let mut i: usize = 0;
    while i < reqs.len()
        invariant
            i <= reqs@.len(),
            reqs@.len() > 0,
            all == reqs_view(reqs@),
            forall|k: int| 0 <= k < i ==> !req_matches(#[trigger] all[k], version@),
        decreases reqs.len() - i,
    {
        assert(all[i as int] == reqs@[i as int]@);
        if reqs[i].matches(version) {
            return true;
        }
        i = i + 1;
    }
    assert forall|k: int| 0 <= k < reqs@.len() implies !req_matches(
        (#[trigger] reqs@[k])@,
        version@,
    ) by {
        assert(all[k] == reqs@[k]@);
    }
    false
}

/// One requirement that admits a version makes it affected, whatever the others say; a version
/// that no requirement of a row admits is not affected; and without requirements every version
/// is.
pub proof fn one_admitting_requirement_suffices(reqs: Seq<Seq<char>>, version: Seq<char>, i: int)
    ensures
        0 <= i < reqs.len() && req_matches(reqs[i], version) ==> affected_version(reqs, version),
        reqs.len() > 0 && affected_version(reqs, version) ==> exists|k: int|
            0 <= k < reqs.len() && req_matches(#[trigger] reqs[k], version),
        reqs.len() == 0 ==> affected_version(reqs, version),
{
}

/// A requirement more never makes an affected version unaffected, and it makes a version
/// affected only where it admits it.
pub proof fn a_requirement_more_takes_nothing_away(
    reqs: Seq<Seq<char>>,
    req: Seq<char>,
    version: Seq<char>,
)
    requires
        reqs.len() > 0,
    ensures
        affected_version(reqs.push(req), version) <==> affected_version(reqs, version)
            || req_matches(req, version),
{
    let more = reqs.push(req);
    assert(more[reqs.len() as int] == req);
    if affected_version(reqs, version) {
        let i = choose|i: int| 0 <= i < reqs.len() && req_matches(#[trigger] reqs[i], version);
        assert(more[i] == reqs[i]);
    }
    if affected_version(more, version) {
        let i = choose|i: int| 0 <= i < more.len() && req_matches(#[trigger] more[i], version);
        if i < reqs.len() {
            assert(reqs[i] == more[i]);
        }
    }
}

/// A copy of requirements.
pub fn copy_reqs(v: &Vec<VersionReq>) -> (out: Vec<VersionReq>)
    ensures
        reqs_view(out@) == reqs_view(v@),
{
    let mut out: Vec<VersionReq> = Vec::new();
    let mut i: usize = 0;
    while i < v.len()
        invariant
            i <= v@.len(),
            out@.len() == i,
            forall|k: int| 0 <= k < i ==> (#[trigger] out@[k])@ == v@[k]@,
        decreases v.len() - i,
    {
        out.push(v[i].clone());
        i = i + 1;
    }
    assert(reqs_view(out@) =~= reqs_view(v@));
    out
}

/// Reads a row of requirements. Gives the first text that is none, if there is one.
pub fn parse_reqs(given: &Vec<String>) -> (r: Result<Vec<VersionReq>, String>)
    ensures
        match r {
            Ok(out) => reqs_view(out@) == texts(given@) && forall|i: int|
                0 <= i < given@.len() ==> req_text((#[trigger] given@[i])@) is Some,
            Err(t) => exists|i: int|
                0 <= i < given@.len() && (#[trigger] given@[i])@ == t@ && req_text(given@[i]@) is None
                    && forall|j: int| 0 <= j < i ==> req_text((#[trigger] given@[j])@) is Some,
        },
{
    let mut out: Vec<VersionReq> = Vec::new();
    let mut i: usize = 0;
    while i < given.len()
        invariant
            i <= given@.len(),
            out@.len() == i,
            forall|k: int| 0 <= k < i ==> (#[trigger] out@[k])@ == given@[k]@,
            forall|k: int| 0 <= k < i ==> req_text((#[trigger] given@[k])@) is Some,
        decreases given.len() - i,
    {
        match VersionReq::parse(given[i].as_str()) {
            Some(req) => {
                out.push(req);
            },
            None => {
                return Err(given[i].clone());
            },
        }
        i = i + 1;
    }
    assert(reqs_view(out@) =~= texts(given@));
    Ok(out)
}

// ---------------------------------------------------------------------------------------
// What a requirement is made of
// ---------------------------------------------------------------------------------------
/// How a part of a requirement compares.
#[derive(Debug, Clone, Copy, PartialEq, Eq, Structural)]
pub enum Sign {
    Exact,
    Greater,
    GreaterEq,
    Less,
    LessEq,
    Tilde,
    Caret,
    Wildcard,
    Unknown,
}

/// A part of a requirement: a sign, and a version that may be partial.
#[derive(Debug)]
pub struct Bound {
    pub sign: Sign,
    pub major: u64,
    pub minor: Option<u64>,
    pub patch: Option<u64>,
    pub pre: String,
}

/// A part of a requirement, as contracts see it.
pub struct BoundView {
    pub sign: Sign,
    pub major: u64,
    pub minor: Option<u64>,
    pub patch: Option<u64>,
    pub pre: Seq<char>,
}

impl View for Bound {
    type V = BoundView;

    open spec fn view(&self) -> BoundView {
        BoundView {
            sign: self.sign,
            major: self.major,
            minor: self.minor,
            patch: self.patch,
            pre: self.pre@,
        }
    }
}

/// Parts of a requirement, as contracts see them.
pub open spec fn bound_views(v: Seq<Bound>) -> Seq<BoundView> {
    v.map_values(|b: Bound| b@)
}

/// The parts of a requirement, as [`read_bounds`] gives them.
pub uninterp spec fn req_bounds(text: Seq<char>) -> Option<Seq<BoundView>>;

/// The field `comparators` of what `semver::VersionReq::parse` makes of a text, where it accepts
/// it. That is a function of the text.
#[verifier::external_body]
fn read_bounds(text: &str) -> (r: Option<Vec<Bound>>)
    ensures
        match r {
            Some(v) => req_bounds(text@) == Some(bound_views(v@)),
            None => req_bounds(text@) is None,
        },
{
    Some(semver::VersionReq::parse(text).ok()?.comparators.into_iter().map(|c| {
        let sign = match c.op {
            semver::Op::Exact => Sign::Exact,
            semver::Op::Greater => Sign::Greater,
            semver::Op::GreaterEq => Sign::GreaterEq,
            semver::Op::Less => Sign::Less,
            semver::Op::LessEq => Sign::LessEq,
            semver::Op::Tilde => Sign::Tilde,
            semver::Op::Caret => Sign::Caret,
            semver::Op::Wildcard => Sign::Wildcard,
            _ => Sign::Unknown,
        };
        Bound { sign, major: c.major, minor: c.minor, patch: c.patch, pre: c.pre.to_string() }
    }).collect())
}

/// Whether a part of a requirement bounds it from below.
pub open spec fn is_low(b: BoundView) -> bool {
    b.sign != Sign::Less && b.sign != Sign::LessEq
}

/// A number that may be missing.
pub open spec fn or_zero(n: Option<u64>) -> u64 {
    match n {
        Some(n) => n,
        None => 0,
    }
}

/// Whether two parts of requirements name the same version.
pub open spec fn same_version(a: BoundView, b: BoundView) -> bool {
    &&& a.major == b.major
    &&& or_zero(a.minor) == or_zero(b.minor)
    &&& or_zero(a.patch) == or_zero(b.patch)
    &&& a.pre == b.pre
}

/// Whether two rows of parts have a lower bound in common.
pub open spec fn bounds_clash(a: Seq<BoundView>, b: Seq<BoundView>) -> bool {
    exists|i: int, j: int|
        0 <= i < a.len() && 0 <= j < b.len() && is_low(#[trigger] a[i]) && is_low(#[trigger] b[j])
            && same_version(a[i], b[j])
}

/// Whether two requirements have a lower bound in common.
pub open spec fn reqs_clash(a: Seq<char>, b: Seq<char>) -> bool {
    match (req_bounds(a), req_bounds(b)) {
        (Some(x), Some(y)) => bounds_clash(x, y),
        _ => false,
    }
}

/// The number of a part that is counted up to find where the versions behind it begin, if one
/// is: behind a version itself comes the next patch, unless it is a pre-release, and behind a
/// series of compatible versions comes the next one of its leading number.
pub open spec fn counted_up(b: BoundView) -> Option<u64> {
    match b.sign {
        Sign::Exact | Sign::Greater | Sign::LessEq => if b.pre.len() == 0 {
            Some(or_zero(b.patch))
        } else {
            None
        },
        Sign::Caret => if b.major > 0 {
            Some(b.major)
        } else {
            match (b.minor, b.patch) {
                (Some(0), Some(patch)) => Some(patch),
                (minor, _) => minor,
            }
        },
        Sign::Tilde => match b.minor {
            Some(minor) => Some(minor),
            None => Some(b.major),
        },
        _ => None,
    }
}

/// Whether the number of a part that is counted up leaves room for a next one.
pub open spec fn leaves_room(b: BoundView) -> bool {
    counted_up(b) != Some(u64::MAX)
}

/// Whether each number of a requirement that is counted up leaves room for a next one.
pub open spec fn within_limits(text: Seq<char>) -> bool {
    match req_bounds(text) {
        Some(bs) => all_room(bs),
        None => true,
    }
}

fn number_or_zero(n: Option<u64>) -> (r: u64)
    ensures
        r == or_zero(n),
{
    match n {
        Some(n) => n,
        None => 0,
    }
}

fn is_lower_bound(b: &Bound) -> (r: bool)
    ensures
        r == is_low(b@),
{
    !matches!(b.sign, Sign::Less) && !matches!(b.sign, Sign::LessEq)
}

fn name_same_version(a: &Bound, b: &Bound) -> (r: bool)
    ensures
        r == same_version(a@, b@),
{
    a.major == b.major && number_or_zero(a.minor) == number_or_zero(b.minor) && number_or_zero(
        a.patch,
    ) == number_or_zero(b.patch) && same_text(a.pre.as_str(), b.pre.as_str())
}

/// Whether two rows of parts have a lower bound in common.
pub fn have_common_low(a: &Vec<Bound>, b: &Vec<Bound>) -> (r: bool)
    ensures
        r == bounds_clash(bound_views(a@), bound_views(b@)),
{
    let ghost x = bound_views(a@);
    let ghost y = bound_views(b@);
    let mut i: usize = 0;
    while i < a.len()
        invariant
            i <= a@.len(),
            x == bound_views(a@),
            y == bound_views(b@),
            forall|k: int, l: int|
                0 <= k < i && 0 <= l < y.len() && is_low(#[trigger] x[k]) && is_low(#[trigger] y[l])
                    ==> !same_version(x[k], y[l]),
        decreases a.len() - i,
    {
        assert(x[i as int] == a@[i as int]@);
        let mut j: usize = 0;
        while j < b.len()
            invariant
                i < a@.len(),
                j <= b@.len(),
                x == bound_views(a@),
                y == bound_views(b@),
                x[i as int] == a@[i as int]@,
                forall|l: int|
                    0 <= l < j && is_low(x[i as int]) && is_low(#[trigger] y[l])
                        ==> !same_version(x[i as int], y[l]),
            decreases b.len() - j,
        {
            assert(y[j as int] == b@[j as int]@);
            if is_lower_bound(&a[i]) && is_lower_bound(&b[j]) && name_same_version(&a[i], &b[j]) {
                return true;
            }
            j = j + 1;
        }
        i = i + 1;
    }
    false
}

/// Whether two requirements have a lower bound in common.
pub fn do_clash(a: &str, b: &str) -> (r: bool)
    ensures
        r == reqs_clash(a@, b@),
{
    match (read_bounds(a), read_bounds(b)) {
        (Some(x), Some(y)) => have_common_low(&x, &y),
        _ => false,
    }
}

/// Whether each number of the parts of a requirement that is counted up leaves room for a next
/// one.
pub open spec fn all_room(bs: Seq<BoundView>) -> bool {
    forall|i: int| 0 <= i < bs.len() ==> leaves_room(#[trigger] bs[i])
}

fn has_room(b: &Bound) -> (r: bool)
    ensures
        r == leaves_room(b@),
{
    match b.sign {
        Sign::Exact | Sign::Greater | Sign::LessEq => chars_of(b.pre.as_str()).len() > 0
            || number_or_zero(b.patch) != u64::MAX,
        Sign::Caret => if b.major > 0 {
            b.major != u64::MAX
        } else {
            match (b.minor, b.patch) {
                (Some(0), Some(patch)) => patch != u64::MAX,
                (Some(minor), _) => minor != u64::MAX,
                (None, _) => true,
            }
        },
        Sign::Tilde => match b.minor {
            Some(minor) => minor != u64::MAX,
            None => b.major != u64::MAX,
        },
        _ => true,
    }
}

/// Whether each number of the parts of a requirement that is counted up leaves room for a next
/// one.
pub fn all_leave_room(bounds: &Vec<Bound>) -> (r: bool)
    ensures
        r == all_room(bound_views(bounds@)),
{
    let ghost bs = bound_views(bounds@);
    let mut i: usize = 0;
    while i < bounds.len()
        invariant
            i <= bounds@.len(),
            bs == bound_views(bounds@),
            forall|k: int| 0 <= k < i ==> leaves_room(#[trigger] bs[k]),
        decreases bounds.len() - i,
    {
        let b = &bounds[i];
        assert(bs[i as int] == b@);
        if !has_room(b) {
            return false;
        }
        i = i + 1;
    }
    true
}

/// Whether each number of a requirement that is counted up leaves room for a next one.
pub fn meets_limits(text: &str) -> (r: bool)
    ensures
        r == within_limits(text@),
{
    match read_bounds(text) {
        Some(bounds) => all_leave_room(&bounds),
        None => true,
    }
}

/// Requirements and their parts are seen whole, one for one and in order.
pub proof fn requirements_are_seen_whole(v: Seq<VersionReq>, b: Seq<Bound>)
    ensures
        reqs_view(v).len() == v.len(),
        forall|i: int| 0 <= i < v.len() ==> #[trigger] reqs_view(v)[i] == v[i]@,
        bound_views(b).len() == b.len(),
        forall|i: int|
            #![trigger bound_views(b)[i]]
            0 <= i < b.len() ==> bound_views(b)[i].sign == b[i].sign && bound_views(b)[i].major
                == b[i].major && bound_views(b)[i].minor == b[i].minor && bound_views(b)[i].patch
                == b[i].patch && bound_views(b)[i].pre == b[i].pre@,
{
}

/// Two rows of parts have a lower bound in common exactly where two of them, neither an upper
/// bound, name the same version, with what is missing taken for zero.
pub proof fn common_bounds_name_one_version(a: Seq<BoundView>, b: Seq<BoundView>)
    ensures
        bounds_clash(a, b) <==> exists|i: int, j: int|
            #![trigger a[i], b[j]]
            0 <= i < a.len() && 0 <= j < b.len() && a[i].sign != Sign::Less && a[i].sign
                != Sign::LessEq && b[j].sign != Sign::Less && b[j].sign != Sign::LessEq
                && a[i].major == b[j].major && (match a[i].minor {
                Some(n) => n,
                None => 0,
            }) == (match b[j].minor {
                Some(n) => n,
                None => 0,
            }) && (match a[i].patch {
                Some(n) => n,
                None => 0,
            }) == (match b[j].patch {
                Some(n) => n,
                None => 0,
            }) && a[i].pre == b[j].pre,
        bounds_clash(a, b) == bounds_clash(b, a),
{
    if bounds_clash(a, b) {
        let (i, j) = choose|i: int, j: int|
            0 <= i < a.len() && 0 <= j < b.len() && is_low(#[trigger] a[i]) && is_low(
                #[trigger] b[j],
            ) && same_version(a[i], b[j]);
        assert(is_low(b[j]) && is_low(a[i]) && same_version(b[j], a[i]));
    }
    if bounds_clash(b, a) {
        let (i, j) = choose|i: int, j: int|
            0 <= i < b.len() && 0 <= j < a.len() && is_low(#[trigger] b[i]) && is_low(
                #[trigger] a[j],
            ) && same_version(b[i], a[j]);
        assert(is_low(a[j]) && is_low(b[i]) && same_version(a[j], b[i]));
    }
}

/// A requirement is within limits unless the largest number is counted up in one of its parts;
/// upper bounds that leave their version out, lower bounds that take it in, and wildcards count
/// nothing up.
pub proof fn only_the_largest_number_leaves_no_room(b: BoundView)
    ensures
        !leaves_room(b) ==> b.major == u64::MAX || b.minor == Some(u64::MAX) || b.patch == Some(
            u64::MAX,
        ),
        b.sign == Sign::Less || b.sign == Sign::GreaterEq || b.sign == Sign::Wildcard
            ==> leaves_room(b),
        b.sign == Sign::Caret && b.major == u64::MAX ==> !leaves_room(b),
        b.sign == Sign::Tilde && b.minor == Some(u64::MAX) ==> !leaves_room(b),
        (b.sign == Sign::Exact || b.sign == Sign::Greater || b.sign == Sign::LessEq) ==> (
        leaves_room(b) <==> b.pre.len() > 0 || b.patch != Some(u64::MAX)),
{
}

} // verus!
