//! The worker side of the crawl: what one worker decides once the
//! transport has produced a body or an error. Channels, threads and the
//! HTTP client stay outside; a worker loop out there feeds each fetched
//! page (or its failure) through `outcome_of_fetch` and sends the result
//! on.

use vstd::prelude::*;

use crate::parsing::links_complete;
use crate::parsing::nodes_of;
use crate::parsing::parse;
use crate::parsing::text_spec;
use crate::parsing::title_spec;
use crate::parsing::ParseArguments;
use crate::parsing::ParsedData;
use crate::parsing::is_page_link;
use crate::canon::is_canonical;

verus! {

/// Why one URL's fetch-and-parse attempt failed.
#[derive(Clone, Copy, Debug, PartialEq, Eq, Structural)]
pub enum FailureCause {
    NetworkError,
    ParseError,
    RateLimited,
}

/// The result of one URL's attempt: page data, or the URL back with a
/// cause.
pub enum FetchOutcome {
    Success(ParsedData),
    Failure(String, FailureCause),
}

/// One worker step after the transport has spoken: a fetched body parses
/// into page data (parsing is lenient and never fails by itself), a
/// transport failure becomes a failure outcome carrying the URL. The
/// fetch itself, and any waiting on the rate budget, happen outside;
/// this function is total for every transport result.
pub fn outcome_of_fetch(args: ParseArguments, fetched: Option<String>) -> (r: FetchOutcome)
    ensures
        (r is Success) == (fetched is Some),
        (r matches FetchOutcome::Success(d) ==> fetched matches Some(html) && {
            &&& d.page_url == args.page_url
            &&& d.page_title@ == title_spec(nodes_of(html@))
            &&& d.text@ == text_spec(nodes_of(html@))
            &&& (forall|a: int, b: int|
                0 <= a < b < d.links@.len() ==> d.links@[a]@ != d.links@[b]@)
            &&& (forall|a: int|
                0 <= a < d.links@.len() ==> is_canonical(#[trigger] d.links@[a]@))
            &&& (forall|a: int| #![trigger d.links@[a]]
                0 <= a < d.links@.len() ==> is_page_link(
                    nodes_of(html@),
                    args.base_url@,
                    d.links@[a]@,
                ))
            &&& links_complete(nodes_of(html@), args.base_url@, d.links@)
        }),
        (r matches FetchOutcome::Failure(u, c) ==> u == args.page_url && c is NetworkError),
{
    match fetched {
        Some(html) => FetchOutcome::Success(parse(args, html.as_str())),
        None => {
            let u = args.page_url;
            FetchOutcome::Failure(u, FailureCause::NetworkError)
        },
    }
}

} // verus!
