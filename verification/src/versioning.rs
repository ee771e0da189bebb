//! The link to the `semver` crate: parsing of versions and requirements,
//! matching, and the order of versions.
//!
//! A parsed value is kept together with the text it was parsed from; the
//! fields are private to this module, so every value here is the parse of its
//! text, and the contracts below speak of that text.
use vstd::prelude::*;

verus! {

#[verifier::external_type_specification]
#[verifier::external_body]
pub struct ExVersion(semver::Version);

#[verifier::external_type_specification]
#[verifier::external_body]
pub struct ExVersionReq(semver::VersionReq);

/// Whether `semver::Version::parse` accepts the text.
pub uninterp spec fn spec_version_valid(text: Seq<char>) -> bool;

/// Whether `semver::VersionReq::parse` accepts the text.
pub uninterp spec fn spec_req_valid(text: Seq<char>) -> bool;

/// Whether the requirement parsed from `req` matches the version parsed
/// from `version` (`semver::VersionReq::matches`).
pub uninterp spec fn spec_req_matches(req: Seq<char>, version: Seq<char>) -> bool;

/// Whether the version parsed from `a` is below the one parsed from `b` in
/// `semver::Version`'s order.
pub uninterp spec fn spec_version_lt(a: Seq<char>, b: Seq<char>) -> bool;

/// The text that `semver::Version`'s `Display` writes for the version
/// parsed from `text`.
pub uninterp spec fn spec_version_display(text: Seq<char>) -> Seq<char>;

/// A version parsed by `semver`, with the text it came from.
pub struct ParsedVersion {
    text: String,
    value: semver::Version,
}

/// A version requirement parsed by `semver`, with the text it came from.
pub struct ParsedReq {
    text: String,
    value: semver::VersionReq,
}

impl View for ParsedVersion {
    type V = Seq<char>;

    closed spec fn view(&self) -> Seq<char> {
        self.text@
    }
}

impl View for ParsedReq {
    type V = Seq<char>;

    closed spec fn view(&self) -> Seq<char> {
        self.text@
    }
}

/// Calls `semver::Version::parse`; the claim is that it succeeds exactly on
/// the texts named valid, and the result keeps its text.
#[verifier::external_body]
pub(crate) fn parse_version(text: &str) -> (r: Option<ParsedVersion>)
    ensures
        r is Some <==> spec_version_valid(text@),
        r matches Some(v) ==> v@ == text@,
{
    match semver::Version::parse(text) {
        Ok(value) => Some(ParsedVersion { text: text.to_string(), value }),
        Err(_) => None,
    }
}

/// Calls `semver::VersionReq::parse`; the claim is that it succeeds exactly
/// on the texts named valid, and the result keeps its text.
#[verifier::external_body]
pub(crate) fn parse_req(text: &str) -> (r: Option<ParsedReq>)
    ensures
        r is Some <==> spec_req_valid(text@),
        r matches Some(q) ==> q@ == text@,
{
    match semver::VersionReq::parse(text) {
        Ok(value) => Some(ParsedReq { text: text.to_string(), value }),
        Err(_) => None,
    }
}

/// Calls `semver::VersionReq::matches`; the claim is that its answer is the
/// named match relation of the two texts.
#[verifier::external_body]
pub(crate) fn req_matches(req: &ParsedReq, version: &ParsedVersion) -> (r: bool)
    ensures
        r == spec_req_matches(req@, version@),
{
    req.value.matches(&version.value)
}

/// Calls `<` on two `semver::Version`s; the claim is that its answer is the
/// named order of the two texts.
#[verifier::external_body]
pub(crate) fn version_lt(a: &ParsedVersion, b: &ParsedVersion) -> (r: bool)
    ensures
        r == spec_version_lt(a@, b@),
{
    a.value < b.value
}

/// Calls `to_string` on a `semver::Version`; the claim is that the text is
/// the named display of the version's source text.
#[verifier::external_body]
pub(crate) fn version_to_string(v: &ParsedVersion) -> (r: String)
    ensures
        r@ == spec_version_display(v@),
{
    v.value.to_string()
}

} // verus!
