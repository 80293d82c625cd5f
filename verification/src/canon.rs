//! URL canonicalization.
//!
//! Every URL the crawler stores is put into one canonical textual form so
//! that two spellings of the same address never both enter the frontier.
//! The canonical form is the `url` crate's serialization of the parsed URL
//! with the fragment and the query removed; a canonical URL always has a
//! host. Parsing, joining and serializing are done by the `url` crate
//! behind the trusted items below; the dispatch logic around them is
//! verified against the names those items introduce.

use vstd::prelude::*;

verus! {

/// How `url::Url::parse` classifies an input string: an absolute URL, a
/// relative reference (usable only against a base), or neither.
pub enum ParseKind {
    Absolute,
    Relative,
    Invalid,
}

/// What `url::Url::parse` does with a string: the classification, the
/// serialization of the parsed URL (meaningful only when absolute), and
/// whether the parsed URL has a host (likewise).
pub uninterp spec fn url_parse_of(s: Seq<char>) -> (ParseKind, Seq<char>, bool);

/// Classification of `s` under `url::Url::parse`.
pub open spec fn parse_kind(s: Seq<char>) -> ParseKind {
    url_parse_of(s).0
}

/// Serialization of the URL that `s` parses to, when `parse_kind(s)` is absolute.
pub open spec fn parse_str(s: Seq<char>) -> Seq<char> {
    url_parse_of(s).1
}

/// Whether the URL that `s` parses to has a host, when `parse_kind(s)` is absolute.
pub open spec fn parse_hosted(s: Seq<char>) -> bool {
    url_parse_of(s).2
}

/// The serialization held by a `url::Url` value (what `as_str` returns).
pub uninterp spec fn url_str(u: url::Url) -> Seq<char>;

/// Whether a `url::Url` value has a host (what `has_host` returns).
pub uninterp spec fn url_hosted(u: url::Url) -> bool;

/// The serialization after `url::Url::set_fragment(None)` on a URL whose
/// serialization is the argument.
pub uninterp spec fn drop_fragment(s: Seq<char>) -> Seq<char>;

/// The serialization after `url::Url::set_query(None)` on a URL whose
/// serialization is the argument.
pub uninterp spec fn drop_query(s: Seq<char>) -> Seq<char>;

/// What `url::Url::join` does: whether resolving `href` against the base
/// whose serialization is `base` succeeds, the serialization of the
/// resolved URL, and whether the resolved URL has a host.
pub uninterp spec fn url_join_of(base: Seq<char>, href: Seq<char>) -> (bool, Seq<char>, bool);

/// Whether `url::Url::join` succeeds for this base serialization and reference.
pub open spec fn join_ok(base: Seq<char>, href: Seq<char>) -> bool {
    url_join_of(base, href).0
}

/// Serialization of the URL that `url::Url::join` resolves to, when it succeeds.
pub open spec fn join_str(base: Seq<char>, href: Seq<char>) -> Seq<char> {
    url_join_of(base, href).1
}

/// Whether the URL that `url::Url::join` resolves to has a host, when it succeeds.
pub open spec fn join_hosted(base: Seq<char>, href: Seq<char>) -> bool {
    url_join_of(base, href).2
}

/// The `url` crate's re-parse invariant, for one URL value: parsing the
/// serialization of a URL succeeds and yields a URL with the same
/// serialization. Hostedness survives re-parsing in one direction only:
/// the crate documents that a URL without a host may re-parse with an
/// empty host, so nothing is claimed of that case. A serialization is
/// never empty (it starts with a scheme and a colon).
pub open spec fn reparses_to_self(u: url::Url) -> bool {
    &&& parse_kind(url_str(u)) is Absolute
    &&& parse_str(url_str(u)) == url_str(u)
    &&& (url_hosted(u) ==> parse_hosted(url_str(u)))
    &&& url_str(u).len() > 0
}

#[verifier::external_type_specification]
#[verifier::external_body]
pub struct ExUrl(url::Url);

/// Result of handing a string to `url::Url::parse`.
pub enum UrlParse {
    Absolute(url::Url),
    Relative,
    Malformed,
}

/// Relies on `url::Url::parse`: the outcome depends on the input string
/// alone; `ParseError::RelativeUrlWithoutBase` marks a relative reference;
/// the crate re-parses every serialization it produces to an equal URL
/// (the invariant its own `check_invariants` asserts).
#[verifier::external_body]
pub fn parse_url(s: &str) -> (r: UrlParse)
    ensures
        (r is Absolute) == (url_parse_of(s@).0 is Absolute),
        (r is Relative) == (url_parse_of(s@).0 is Relative),
        (r is Malformed) == (url_parse_of(s@).0 is Invalid),
        (r matches UrlParse::Absolute(u) ==> url_str(u) == url_parse_of(s@).1
            && url_hosted(u) == url_parse_of(s@).2 && reparses_to_self(u)),
{
    match url::Url::parse(s) {
        Ok(u) => UrlParse::Absolute(u),
        Err(url::ParseError::RelativeUrlWithoutBase) => UrlParse::Relative,
        Err(_) => UrlParse::Malformed,
    }
}

/// Relies on `url::Url::has_host`.
#[verifier::external_body]
pub fn url_has_host(u: &url::Url) -> (r: bool)
    ensures
        r == url_hosted(*u),
{
    u.has_host()
}

/// Relies on `url::Url::as_str`: returns the URL's serialization.
#[verifier::external_body]
pub fn url_to_string(u: &url::Url) -> (r: String)
    ensures
        r@ == url_str(*u),
{
    u.as_str().to_string()
}

/// Relies on `url::Url::set_fragment(None)`: removes the fragment and
/// keeps the host, and its result is a fixed point of another removal
/// (the call also strips trailing spaces from an opaque path, which a
/// second call then finds already stripped).
#[verifier::external_body]
pub fn clear_fragment(u: &mut url::Url)
    ensures
        url_str(*final(u)) == drop_fragment(url_str(*old(u))),
        url_hosted(*final(u)) == url_hosted(*old(u)),
        drop_fragment(url_str(*final(u))) == url_str(*final(u)),
        reparses_to_self(*final(u)),
{
    u.set_fragment(None);
}

/// Relies on `url::Url::set_query(None)`: removes the query and keeps
/// the host; its result is a fixed point of another removal, and a URL
/// without a fragment stays without one.
#[verifier::external_body]
pub fn clear_query(u: &mut url::Url)
    ensures
        url_str(*final(u)) == drop_query(url_str(*old(u))),
        url_hosted(*final(u)) == url_hosted(*old(u)),
        drop_query(url_str(*final(u))) == url_str(*final(u)),
        drop_fragment(url_str(*old(u))) == url_str(*old(u))
            ==> drop_fragment(url_str(*final(u))) == url_str(*final(u)),
        reparses_to_self(*final(u)),
{
    u.set_query(None);
}

/// Relies on `url::Url::join`: resolves a reference against a base URL by
/// the URL standard's rules. The outcome is keyed on the base's
/// serialization, which determines the base's parts only for a URL that
/// satisfies the crate's re-parse invariant — true of everything
/// `Url::parse` or `join` returns, and required here so that no value
/// mutated out of that invariant elsewhere could be handed in.
#[verifier::external_body]
pub fn join_url(base: &url::Url, href: &str) -> (r: Option<url::Url>)
    requires
        reparses_to_self(*base),
    ensures
        (r is Some) == url_join_of(url_str(*base), href@).0,
        (r matches Some(u) ==> url_str(u) == url_join_of(url_str(*base), href@).1
            && url_hosted(u) == url_join_of(url_str(*base), href@).2 && reparses_to_self(u)),
{
    match base.join(href) {
        Ok(u) => Some(u),
        Err(_) => None,
    }
}

/// The canonical form of an absolute URL string: its parsed serialization
/// with fragment and query removed.
pub open spec fn canon_str(s: Seq<char>) -> Seq<char> {
    drop_query(drop_fragment(parse_str(s)))
}

/// What canonicalization returns for a reference `href` seen on a page
/// whose canonical URL is `base`:
/// - an empty reference is rejected;
/// - an absolute URL is accepted exactly when it has a host, and is
///   canonicalized;
/// - a relative reference is resolved against `base` and the result is
///   accepted exactly when resolution succeeds and yields a hosted URL;
/// - anything else (`mailto:` and the like fall under hostless absolutes,
///   garbage under invalid) is rejected.
pub open spec fn normalize_spec(href: Seq<char>, base: Seq<char>) -> Option<Seq<char>> {
    if href.len() == 0 {
        None
    } else if parse_kind(href) is Absolute {
        if parse_hosted(href) {
            Some(canon_str(href))
        } else {
            None
        }
    } else if parse_kind(href) is Relative {
        if parse_kind(base) is Absolute && join_ok(parse_str(base), href) && join_hosted(
            parse_str(base),
            href,
        ) {
            Some(drop_query(drop_fragment(join_str(parse_str(base), href))))
        } else {
            None
        }
    } else {
        None
    }
}

/// A string already in canonical form: nonempty, parses as an absolute
/// hosted URL, and is a fixed point of serialization and of fragment and
/// query removal.
pub open spec fn is_canonical(s: Seq<char>) -> bool {
    &&& s.len() > 0
    &&& parse_kind(s) is Absolute
    &&& parse_hosted(s)
    &&& parse_str(s) == s
    &&& drop_fragment(s) == s
    &&& drop_query(s) == s
}

/// Canonicalization is idempotent: a canonical URL canonicalizes to
/// itself, against any base and in particular against itself. Together
/// with `canonicalize`'s postcondition that every accepted result is
/// canonical, this says that whatever the canonicalizer emits it returns
/// unchanged when asked again.
pub proof fn lemma_canonical_fixpoint(s: Seq<char>, base: Seq<char>)
    requires
        is_canonical(s),
    ensures
        normalize_spec(s, base) == Some(s),
{
}

/// Turn a reference seen on a page into the canonical absolute URL it
/// names, or reject it. Never panics: a malformed base makes every
/// relative reference come back rejected rather than aborting.
pub fn canonicalize(href: &str, base: &str) -> (r: Option<String>)
    ensures
        (r is Some) == (normalize_spec(href@, base@) is Some),
        (r matches Some(c) ==> normalize_spec(href@, base@) == Some(c@) && is_canonical(c@)
            && normalize_spec(c@, c@) == Some(c@)),
{
    if href.is_empty() {
        return None;
    }
    match parse_url(href) {
        UrlParse::Absolute(u) => {
            if url_has_host(&u) {
                let mut u = u;
                clear_fragment(&mut u);
                clear_query(&mut u);
                let out = url_to_string(&u);
                proof {
                    lemma_canonical_fixpoint(out@, out@);
                }
                Some(out)
            } else {
                None
            }
        },
        UrlParse::Relative => {
            match parse_url(base) {
                UrlParse::Absolute(b) => {
                    match join_url(&b, href) {
                        Some(v) => {
                            if url_has_host(&v) {
                                let mut v = v;
                                clear_fragment(&mut v);
                                clear_query(&mut v);
                                let out = url_to_string(&v);
                                proof {
                                    lemma_canonical_fixpoint(out@, out@);
                                }
                                Some(out)
                            } else {
                                None
                            }
                        },
                        None => None,
                    }
                },
                _ => None,
            }
        },
        UrlParse::Malformed => None,
    }
}

} // verus!
