//! Page parsing: from raw HTML to a title, the visible text, and the set
//! of outbound links, each link put into canonical form.
//!
//! The `select` crate (over html5ever) turns the raw HTML into a document
//! tree; the one trusted item below flattens that tree into a sequence of
//! plain element records (tag name, text content, `href` attribute) in
//! document order. Everything that reads those records — title lookup,
//! text joining, link collection and deduplication — is verified.

use vstd::prelude::*;
use vstd::string::*;

use crate::canon;
use crate::canon::is_canonical;
use crate::canon::normalize_spec;

verus! {

/// One element of the parsed document: its tag name, its text content
/// (all descendant text, as the document tree yields it), and its `href`
/// attribute if it carries one.
pub struct HtmlNode {
    pub tag: String,
    pub text: String,
    pub href: Option<String>,
}

/// The mathematical shadow of one element record: tag, text, href.
pub type NodeRepr = (Seq<char>, Seq<char>, Option<Seq<char>>);

pub open spec fn node_model(n: HtmlNode) -> NodeRepr {
    (
        n.tag@,
        n.text@,
        match n.href {
            Option::Some(s) => Option::Some(s@),
            Option::None => Option::None,
        },
    )
}

pub open spec fn models_of(ns: Seq<HtmlNode>) -> Seq<NodeRepr> {
    ns.map_values(|n: HtmlNode| node_model(n))
}

/// The element records of an HTML document, in document order. HTML
/// parsing is leniency itself: every input yields some sequence, never an
/// error.
pub uninterp spec fn nodes_of(html: Seq<char>) -> Seq<NodeRepr>;

/// Relies on `select::document::Document` (html5ever underneath): parsing
/// is pure, and `find(Element)` walks every element in document order;
/// `name` is the tag, `text` the concatenated descendant text, `attr` the
/// attribute lookup.
#[verifier::external_body]
fn html_nodes(html: &str) -> (r: Vec<HtmlNode>)
    ensures
        models_of(r@) == nodes_of(html@),
{
    let doc = select::document::Document::from(html);
    doc.find(select::predicate::Element)
        .map(|el| HtmlNode {
            tag: el.name().unwrap_or("").to_string(),
            text: el.text(),
            href: el.attr("href").map(|a| a.to_string()),
        })
        .collect()
}

/// The text of the first `title` element, or empty if there is none.
pub open spec fn title_spec(ns: Seq<NodeRepr>) -> Seq<char>
    decreases ns.len(),
{
    if ns.len() == 0 {
        Seq::empty()
    } else if ns[0].0 == "title"@ {
        ns[0].1
    } else {
        title_spec(ns.drop_first())
    }
}

/// The fixed allow-list of text-bearing tags whose contents count as the
/// page's visible text.
pub open spec fn is_text_tag(t: Seq<char>) -> bool {
    ||| t == "p"@
    ||| t == "b"@
    ||| t == "strong"@
    ||| t == "i"@
    ||| t == "em"@
    ||| t == "mark"@
    ||| t == "small"@
    ||| t == "ins"@
    ||| t == "sub"@
    ||| t == "sup"@
}

/// The texts of the allow-listed elements, in document order.
pub open spec fn text_tag_texts(ns: Seq<NodeRepr>) -> Seq<Seq<char>>
    decreases ns.len(),
{
    if ns.len() == 0 {
        Seq::empty()
    } else if is_text_tag(ns.last().0) {
        text_tag_texts(ns.drop_last()).push(ns.last().1)
    } else {
        text_tag_texts(ns.drop_last())
    }
}

/// Pieces joined with a single space between each pair.
pub open spec fn join_spaced(ts: Seq<Seq<char>>) -> Seq<char>
    decreases ts.len(),
{
    if ts.len() == 0 {
        Seq::empty()
    } else if ts.len() == 1 {
        ts[0]
    } else {
        join_spaced(ts.drop_last()) + " "@ + ts.last()
    }
}

/// The page's visible text: the allow-listed elements' texts, space-joined.
pub open spec fn text_spec(ns: Seq<NodeRepr>) -> Seq<char> {
    join_spaced(text_tag_texts(ns))
}

/// An element that can contribute an outbound link: an anchor or a `link`
/// element carrying an `href`.
pub open spec fn is_link_node(n: NodeRepr) -> bool {
    (n.0 == "a"@ || n.0 == "link"@) && n.2 is Some
}

/// Element `j` contributes the canonical link `c` (its `href` normalizes
/// to `c` against `base`).
pub open spec fn link_normalizes_to(ns: Seq<NodeRepr>, j: int, base: Seq<char>, c: Seq<char>) -> bool {
    &&& 0 <= j < ns.len()
    &&& is_link_node(ns[j])
    &&& (ns[j].2 matches Some(h) && normalize_spec(h, base) == Some(c))
}

/// Some element of the page contributes the canonical link `c`.
pub open spec fn is_page_link(ns: Seq<NodeRepr>, base: Seq<char>, c: Seq<char>) -> bool {
    exists|j: int| link_normalizes_to(ns, j, base, c)
}

/// Every link any element contributes is listed: completeness of a link list.
pub open spec fn links_complete(ns: Seq<NodeRepr>, base: Seq<char>, ls: Seq<String>) -> bool {
    forall|j: int, c: Seq<char>| link_normalizes_to(ns, j, base, c) ==> (exists|a: int|
        0 <= a < ls.len() && ls[a]@ == c)
}

spec fn link_before(ns: Seq<NodeRepr>, base: Seq<char>, c: Seq<char>, bound: int) -> bool {
    exists|j: int| 0 <= j < bound && link_normalizes_to(ns, j, base, c)
}

proof fn lemma_link_before_weaken(ns: Seq<NodeRepr>, base: Seq<char>, c: Seq<char>, b1: int, b2: int)
    requires
        link_before(ns, base, c, b1),
        b1 <= b2,
    ensures
        link_before(ns, base, c, b2),
{
    let j0 = choose|j: int| 0 <= j < b1 && link_normalizes_to(ns, j, base, c);
    assert(0 <= j0 < b2 && link_normalizes_to(ns, j0, base, c));
}

/// Returns the canonical absolute form of `url`, resolved against
/// `base_url` when `url` is relative, or `None` when `url` is rejected.
/// Same fixed policy as the rest of the crate: hosted absolute URLs only,
/// fragment and query removed, the `url` crate's serialization.
pub fn normalize_url(url: &str, base_url: &str) -> (r: Option<String>)
    ensures
        (r is Some) == (normalize_spec(url@, base_url@) is Some),
        (r matches Some(c) ==> normalize_spec(url@, base_url@) == Some(c@) && is_canonical(c@)
            && normalize_spec(c@, c@) == Some(c@)),
{
    canon::canonicalize(url, base_url)
}

/// Text content of the first `title` element, or the empty string.
pub fn get_title_from_html(nodes: &Vec<HtmlNode>) -> (r: String)
    ensures
        r@ == title_spec(models_of(nodes@)),
{
    let title_tag = String::from_str("title");
    let ghost ms = models_of(nodes@);
    proof {
        assert(ms.skip(0) =~= ms);
    }
    let mut i: usize = 0;
    while i < nodes.len()
        invariant
            i <= nodes.len(),
            ms == models_of(nodes@),
            ms.len() == nodes@.len(),
            title_tag@ == "title"@,
            title_spec(ms) == title_spec(ms.skip(i as int)),
        decreases nodes.len() - i,
    {
        if nodes[i].tag == title_tag {
            proof {
                assert(ms.skip(i as int)[0] == node_model(nodes@[i as int]));
            }
            return nodes[i].text.clone();
        }
        proof {
            assert(ms.skip(i as int).drop_first() =~= ms.skip(i as int + 1));
        }
        i = i + 1;
    }
    proof {
        assert(ms.skip(i as int) =~= Seq::<NodeRepr>::empty());
    }
    String::new()
}

fn is_text_tag_exec(t: &String) -> (r: bool)
    ensures
        r == is_text_tag(t@),
{
    if *t == String::from_str("p") {
        return true;
    }
    if *t == String::from_str("b") {
        return true;
    }
    if *t == String::from_str("strong") {
        return true;
    }
    if *t == String::from_str("i") {
        return true;
    }
    if *t == String::from_str("em") {
        return true;
    }
    if *t == String::from_str("mark") {
        return true;
    }
    if *t == String::from_str("small") {
        return true;
    }
    if *t == String::from_str("ins") {
        return true;
    }
    if *t == String::from_str("sub") {
        return true;
    }
    if *t == String::from_str("sup") {
        return true;
    }
    false
}

/// The visible text of the page: the texts of the allow-listed elements,
/// joined with single spaces, in document order.
pub fn get_all_text_from_html(nodes: &Vec<HtmlNode>) -> (r: String)
    ensures
        r@ == text_spec(models_of(nodes@)),
{
    let mut out = String::new();
    let mut any = false;
    let ghost ms = models_of(nodes@);
    let mut i: usize = 0;
    while i < nodes.len()
        invariant
            i <= nodes.len(),
            ms == models_of(nodes@),
            ms.len() == nodes@.len(),
            any == (text_tag_texts(ms.take(i as int)).len() > 0),
            out@ == join_spaced(text_tag_texts(ms.take(i as int))),
        decreases nodes.len() - i,
    {
        proof {
            assert(ms.take(i as int + 1).drop_last() =~= ms.take(i as int));
            assert(ms.take(i as int + 1).last() == node_model(nodes@[i as int]));
        }
        let ghost ts = text_tag_texts(ms.take(i as int));
        if is_text_tag_exec(&nodes[i].tag) {
            proof {
                assert(text_tag_texts(ms.take(i as int + 1)) == ts.push(
                    node_model(nodes@[i as int]).1,
                ));
                assert(ts.push(node_model(nodes@[i as int]).1).drop_last() =~= ts);
            }
            if any {
                out.append(" ");
            }
            out.append(nodes[i].text.as_str());
            proof {
                let ts2 = text_tag_texts(ms.take(i as int + 1));
                if ts.len() == 0 {
                    assert(join_spaced(ts2) == ts2[0]);
                    assert(out@ =~= join_spaced(ts2));
                } else {
                    assert(join_spaced(ts2) == join_spaced(ts) + " "@ + ts2.last());
                    assert(out@ =~= join_spaced(ts2));
                }
            }
            any = true;
        } else {
            proof {
                assert(text_tag_texts(ms.take(i as int + 1)) == ts);
            }
        }
        i = i + 1;
    }
    proof {
        assert(ms.take(nodes@.len() as int) =~= ms);
    }
    out
}

fn contains_string(v: &Vec<String>, s: &String) -> (r: bool)
    ensures
        r == (exists|k: int| 0 <= k < v@.len() && v@[k]@ == s@),
{
    let mut i: usize = 0;
    while i < v.len()
        invariant
            i <= v.len(),
            forall|k: int| 0 <= k < i ==> v@[k]@ != s@,
        decreases v.len() - i,
    {
        if v[i] == *s {
            return true;
        }
        i = i + 1;
    }
    false
}

/// The outbound links of the page: the `href` of every anchor and `link`
/// element, canonicalized against `base_url`; rejected references are
/// dropped and duplicates collapse, so the result lists each canonical
/// link once.
pub fn get_urls_from_html(nodes: &Vec<HtmlNode>, base_url: &str) -> (r: Vec<String>)
    ensures
        forall|a: int, b: int| 0 <= a < b < r@.len() ==> r@[a]@ != r@[b]@,
        forall|a: int| 0 <= a < r@.len() ==> is_canonical(r@[a]@),
        forall|a: int| #![trigger r@[a]] 0 <= a < r@.len() ==> is_page_link(
            models_of(nodes@),
            base_url@,
            r@[a]@,
        ),
        links_complete(models_of(nodes@), base_url@, r@),
{
    let a_tag = String::from_str("a");
    let link_tag = String::from_str("link");
    let ghost ms = models_of(nodes@);
    let mut out: Vec<String> = Vec::new();
    let mut i: usize = 0;
    while i < nodes.len()
        invariant
            i <= nodes.len(),
            ms == models_of(nodes@),
            ms.len() == nodes@.len(),
            a_tag@ == "a"@,
            link_tag@ == "link"@,
            forall|a: int, b: int| 0 <= a < b < out@.len() ==> out@[a]@ != out@[b]@,
            forall|a: int| 0 <= a < out@.len() ==> is_canonical(out@[a]@),
            forall|a: int| #![trigger out@[a]] 0 <= a < out@.len() ==> link_before(
                ms,
                base_url@,
                out@[a]@,
                i as int,
            ),
            forall|j: int, c: Seq<char>| 0 <= j < i && link_normalizes_to(ms, j, base_url@, c)
                ==> (exists|a: int| 0 <= a < out@.len() && out@[a]@ == c),
        decreases nodes.len() - i,
    {
        proof {
            assert(ms[i as int] == node_model(nodes@[i as int]));
        }
        let node = &nodes[i];
        if node.tag == a_tag || node.tag == link_tag {
            if let Some(h) = &node.href {
                proof {
                    assert(is_link_node(ms[i as int]));
                }
                match canon::canonicalize(h.as_str(), base_url) {
                    Some(c) => {
                        proof {
                            assert(link_normalizes_to(ms, i as int, base_url@, c@));
                        }
                        let ghost out0 = out@;
                        if !contains_string(&out, &c) {
                            out.push(c);
                            proof {
                                let last: int = out@.len() - 1;
                                assert(out@[last]@ == c@);
                                assert forall|a: int| #![trigger out@[a]] 0 <= a < out@.len()
                                    implies link_before(ms, base_url@, out@[a]@, i as int + 1) by {
                                    if a < last {
                                        assert(out@[a] == out0[a]);
                                        assert(link_before(ms, base_url@, out0[a]@, i as int));
                                        lemma_link_before_weaken(
                                            ms,
                                            base_url@,
                                            out@[a]@,
                                            i as int,
                                            i as int + 1,
                                        );
                                    } else {
                                        assert(link_normalizes_to(ms, i as int, base_url@, out@[a]@));
                                    }
                                }
                                assert forall|jj: int, cc: Seq<char>|
                                    0 <= jj < i + 1 && link_normalizes_to(ms, jj, base_url@, cc)
                                    implies (exists|a: int| 0 <= a < out@.len() && out@[a]@ == cc) by {
                                    if jj == i as int {
                                        assert(cc == c@);
                                        assert(out@[last]@ == cc);
                                    } else {
                                        let a0: int = choose|a: int|
                                            0 <= a < out0.len() && out0[a]@ == cc;
                                        assert(out@[a0]@ == cc);
                                    }
                                }
                            }
                        } else {
                            proof {
                                assert forall|jj: int, cc: Seq<char>|
                                    0 <= jj < i + 1 && link_normalizes_to(ms, jj, base_url@, cc)
                                    implies (exists|a: int| 0 <= a < out@.len() && out@[a]@ == cc) by {
                                    if jj == i as int {
                                        assert(cc == c@);
                                    }
                                }
                            }
                        }
                    },
                    None => {},
                }
            }
        }
        proof {
            assert forall|a: int| #![trigger out@[a]] 0 <= a < out@.len() implies link_before(
                ms,
                base_url@,
                out@[a]@,
                i as int + 1,
            ) by {
                if link_before(ms, base_url@, out@[a]@, i as int) {
                    lemma_link_before_weaken(ms, base_url@, out@[a]@, i as int, i as int + 1);
                }
            }
        }
        i = i + 1;
    }
    proof {
        assert forall|a: int| #![trigger out@[a]] 0 <= a < out@.len() implies is_page_link(
            ms,
            base_url@,
            out@[a]@,
        ) by {
            let j0 = choose|j: int| 0 <= j < i && link_normalizes_to(ms, j, base_url@, out@[a]@);
            assert(link_normalizes_to(ms, j0, base_url@, out@[a]@));
        }
        assert forall|j: int, c: Seq<char>| link_normalizes_to(ms, j, base_url@, c) implies (
        exists|a: int| 0 <= a < out@.len() && out@[a]@ == c) by {
            assert(0 <= j < i && link_normalizes_to(ms, j, base_url@, c));
        }
    }
    out
}

/// What a fetched page is handed on as.
#[derive(Debug)]
pub struct ParseArguments {
    pub page_url: String,
    pub base_url: String,
}

/// The structured result of parsing one page. `links` lists each
/// canonical outbound link exactly once (set semantics).
#[derive(Debug)]
pub struct ParsedData {
    pub page_url: String,
    pub page_title: String,
    pub text: String,
    pub links: Vec<String>,
}

/// Parse a page's HTML: the title is the first `title` element's text (or
/// empty), the text is the space-joined contents of the allow-listed
/// elements, and the links are the canonicalized `href`s of the anchor
/// and `link` elements, deduplicated. Pure: the page body comes in as a
/// value; fetching it is the caller's affair.
pub fn parse(args: ParseArguments, html: &str) -> (r: ParsedData)
    ensures
        r.page_url == args.page_url,
        r.page_title@ == title_spec(nodes_of(html@)),
        r.text@ == text_spec(nodes_of(html@)),
        forall|a: int, b: int| 0 <= a < b < r.links@.len() ==> r.links@[a]@ != r.links@[b]@,
        forall|a: int| 0 <= a < r.links@.len() ==> is_canonical(r.links@[a]@),
        forall|a: int| #![trigger r.links@[a]] 0 <= a < r.links@.len() ==> is_page_link(
            nodes_of(html@),
            args.base_url@,
            r.links@[a]@,
        ),
        links_complete(nodes_of(html@), args.base_url@, r.links@),
{
    let nodes = html_nodes(html);
    proof {
        assert(models_of(nodes@) == nodes_of(html@));
    }
    let page_title = get_title_from_html(&nodes);
    let text = get_all_text_from_html(&nodes);
    let links = get_urls_from_html(&nodes, args.base_url.as_str());
    ParsedData { page_url: args.page_url, page_title, text, links }
}

} // verus!
