//! Whether a newer release is available, from the current version and the
//! latest release's tag.

use vstd::prelude::*;
use crate::text::strip_prefix;

verus! {

#[verifier::external_type_specification]
#[verifier::external_body]
pub struct ExVersion(semver::Version);

/// What `semver::Version::parse` returns for a text, as the (major, minor,
/// patch) numbers of the version it accepts and whether it carries a
/// pre-release part; none when it rejects the text.
pub uninterp spec fn semver_parse(text: Seq<char>) -> Option<(u64, u64, u64, bool)>;

/// The (major, minor, patch) numbers of a parsed version.
pub open spec fn numbers(v: (u64, u64, u64, bool)) -> (u64, u64, u64) {
    (v.0, v.1, v.2)
}

/// Whether a parsed version carries a pre-release part.
pub open spec fn has_prerelease(v: (u64, u64, u64, bool)) -> bool {
    v.3
}

/// Whether `semver::Version`'s order puts the version parsed from `latest`
/// after the one parsed from `current` (both texts accepted by the parser).
pub uninterp spec fn semver_later(latest: Seq<char>, current: Seq<char>) -> bool;

/// A parsed semantic version, with the text it was parsed from.
pub struct ParsedVersion {
    text: String,
    major: u64,
    minor: u64,
    patch: u64,
    prerelease: bool,
    version: semver::Version,
}

impl View for ParsedVersion {
    type V = Seq<char>;

    /// The text the version was parsed from.
    closed spec fn view(&self) -> Seq<char> {
        self.text@
    }
}

impl ParsedVersion {
    /// Its (major, minor, patch) numbers.
    pub closed spec fn triple(&self) -> (u64, u64, u64) {
        (self.major, self.minor, self.patch)
    }

    /// Whether it carries a pre-release part (such as `-beta`).
    pub closed spec fn is_prerelease(&self) -> bool {
        self.prerelease
    }
}

/// Wraps `semver::Version::parse`: a version with the same numbers and
/// pre-release presence as the parsed one when the text is accepted (named
/// `semver_parse`), else the parser's error message.
#[verifier::external_body]
fn parse_version(text: &str) -> (r: Result<ParsedVersion, String>)
    ensures
        r is Ok <==> semver_parse(text@) is Some,
        r is Ok ==> r->Ok_0.triple() == numbers(semver_parse(text@)->0),
        r is Ok ==> r->Ok_0.is_prerelease() == has_prerelease(semver_parse(text@)->0),
        r is Ok ==> r->Ok_0@ == text@,
{
    match semver::Version::parse(text) {
        Ok(v) => Ok(ParsedVersion { text: text.to_owned(), major: v.major, minor: v.minor, patch: v.patch, prerelease: !v.pre.is_empty(), version: v }),
        Err(e) => Err(e.to_string()),
    }
}

/// Whether the numbers `a` come after the numbers `b`, major first.
pub open spec fn triple_greater(a: (u64, u64, u64), b: (u64, u64, u64)) -> bool {
    a.0 > b.0 || (a.0 == b.0 && (a.1 > b.1 || (a.1 == b.1 && a.2 > b.2)))
}

/// Wraps `>` on `semver::Version`, whose order (derived) compares major,
/// minor and patch first, then pre-release (a release comes after any
/// pre-release of the same numbers) and build metadata. That order is a
/// function of the two texts, named `semver_later`; where the numbers differ,
/// or only one of the two carries a pre-release part, it is stated.
#[verifier::external_body]
fn version_newer(latest: &ParsedVersion, current: &ParsedVersion) -> (r: bool)
    ensures
        r == semver_later(latest@, current@),
        latest.triple() != current.triple() ==> r == triple_greater(latest.triple(), current.triple()),
        latest.triple() == current.triple() && !latest.is_prerelease() && current.is_prerelease() ==> r,
        latest.triple() == current.triple() && latest.is_prerelease() && !current.is_prerelease() ==> !r,
{
    latest.version > current.version
}

/// What an update check reports.
pub struct UpdateResult {
    pub current_version: String,
    pub latest_version: String,
    pub update_available: bool,
    pub release_url: String,
    pub release_notes: String,
}

/// Why an update check failed.
pub enum UpdateError {
    /// The running version is not a semantic version; the parser's message.
    InvalidCurrent(String),
    /// The release tag (without its `v`) is not a semantic version.
    InvalidTag { tag: String, message: String },
}

/// A release tag without its leading `v`, if it has one.
pub open spec fn tag_version(tag: Seq<char>) -> Seq<char> {
    if tag.len() > 0 && tag[0] == 'v' {
        tag.drop_first()
    } else {
        tag
    }
}

/// Compares the running version with the latest release's tag. Fails when
/// either is not a semantic version (the running one checked first); else
/// reports both versions, the release's page and notes (empty when it has
/// none), and whether the release is newer.
pub fn update_result(current: &str, tag_name: &str, html_url: String, body: Option<String>) -> (r: Result<UpdateResult, UpdateError>)
    ensures
        semver_parse(current@) is None <==> r is Err && r->Err_0 is InvalidCurrent,
        (semver_parse(current@) is Some && semver_parse(tag_version(tag_name@)) is None) <==> (r is Err && r->Err_0 is InvalidTag),
        r is Err && r->Err_0 is InvalidTag ==> r->Err_0->tag@ == tag_version(tag_name@),
        r is Ok ==> {
            let u = r->Ok_0;
            let c = semver_parse(current@)->0;
            let l = semver_parse(tag_version(tag_name@))->0;
            &&& u.current_version@ == current@
            &&& u.latest_version@ == tag_version(tag_name@)
            &&& u.release_url@ == html_url@
            &&& u.release_notes@ == match body {
                Some(b) => b@,
                None => Seq::<char>::empty(),
            }
            &&& u.update_available == semver_later(tag_version(tag_name@), current@)
            &&& numbers(l) != numbers(c) ==> u.update_available == triple_greater(numbers(l), numbers(c))
            &&& numbers(l) == numbers(c) && !has_prerelease(l) && has_prerelease(c) ==> u.update_available
            &&& numbers(l) == numbers(c) && has_prerelease(l) && !has_prerelease(c) ==> !u.update_available
        },
{
    let latest_tag = match strip_prefix(tag_name, "v") {
        Some(t) => t,
        None => tag_name.to_owned(),
    };
    proof {
        reveal_strlit("v");
        if tag_name@.len() > 0 && tag_name@[0] == 'v' {
            assert(tag_name@.subrange(0, 1) =~= "v"@);
        } else if tag_name@.len() > 0 {
            assert(tag_name@.subrange(0, 1)[0] == tag_name@[0]);
        }
        assert(latest_tag@ =~= tag_version(tag_name@));
    }
    let current_ver = match parse_version(current) {
        Ok(v) => v,
        Err(message) => {
            return Err(UpdateError::InvalidCurrent(message));
        },
    };
    let latest_ver = match parse_version(latest_tag.as_str()) {
        Ok(v) => v,
        Err(message) => {
            return Err(UpdateError::InvalidTag { tag: latest_tag, message });
        },
    };
    let update_available = version_newer(&latest_ver, &current_ver);
    Ok(release_report(current, latest_tag, update_available, html_url, body))
}

/// The report of an update check once the versions are compared: both
/// versions, whether the latest is newer, the release's page, and its notes
/// (empty when it has none).
pub fn release_report(current: &str, latest: String, update_available: bool, html_url: String, body: Option<String>) -> (u: UpdateResult)
    ensures
        u.current_version@ == current@,
        u.latest_version@ == latest@,
        u.update_available == update_available,
        u.release_url@ == html_url@,
        u.release_notes@ == match body {
            Some(b) => b@,
            None => Seq::<char>::empty(),
        },
{
    UpdateResult {
        current_version: current.to_owned(),
        latest_version: latest,
        update_available,
        release_url: html_url,
        release_notes: match body {
            Some(b) => b,
            None => String::new(),
        },
    }
}

} // verus!
