//! What the library needs of a fetched article: the errors of reading one,
//! and the rules that turn the hyperlinks of its body into endpoints.

use vstd::prelude::*;

use crate::client::strip_prefix;
use crate::tables::{layer_contents, layer_has, layer_insert, layer_new};
use crate::url::push_char;

verus! {

/// Why an article's structure could not be read.
#[derive(PartialEq, Eq, Structural, Debug, Clone, Copy)]
pub enum ArticleError {
    MissingBodyParent,
    MissingBody,
    MissingHeading,
    ElementError,
}

/// The selector of the element that holds an article's body.
pub const ARTICLE_BODY_CSS: &'static str = "#mw-content-text";

/// The selector of the element that holds an article's title.
pub const HEADING_CSS: &'static str = "#firstHeading span";

/// The selector of the links of an article body into the article namespace.
pub const ARTICLE_LINK_CSS: &'static str = "a[href^='/wiki/']";

impl ArticleError {
    /// A sentence that says what went wrong.
    pub fn message(&self) -> (r: &'static str)
        ensures
            r@ == match *self {
                ArticleError::MissingBodyParent => "Cannot find element with css '#mw-content-text'"@,
                ArticleError::MissingBody => "Cannot find child of element with css '#mw-content-text'"@,
                ArticleError::MissingHeading => "Cannot find element with css '#firstHeading span'"@,
                ArticleError::ElementError => "Failed to convert node to element"@,
            },
    {
        match self {
            ArticleError::MissingBodyParent => "Cannot find element with css '#mw-content-text'",
            ArticleError::MissingBody => "Cannot find child of element with css '#mw-content-text'",
            ArticleError::MissingHeading => "Cannot find element with css '#firstHeading span'",
            ArticleError::ElementError => "Failed to convert node to element",
        }
    }
}

/// The prefix of a link into the article namespace.
pub const ARTICLE_LINK_PREFIX: &'static str = "/wiki/";

/// A text up to its first `#`, and whether it has one.
pub open spec fn cut_at_hash(s: Seq<char>) -> (Seq<char>, bool)
    decreases s.len(),
{
    if s.len() == 0 {
        (Seq::empty(), false)
    } else {
        let (p, cut) = cut_at_hash(s.drop_last());
        if cut || s.last() == '#' {
            (p, true)
        } else {
            (p.push(s.last()), false)
        }
    }
}

/// The endpoint that a link target names: a link into the article namespace
/// that holds no namespace separator `:`, without its fragment.
pub open spec fn link_endpoint(href: Seq<char>) -> Option<Seq<char>> {
    if ARTICLE_LINK_PREFIX@.is_prefix_of(href) {
        let rest = href.skip(ARTICLE_LINK_PREFIX@.len() as int);
        if rest.contains(':') {
            None
        } else {
            Some(cut_at_hash(rest).0)
        }
    } else {
        None
    }
}

/// The endpoints that a list of link targets names, in order.
pub open spec fn link_endpoints(hrefs: Seq<Seq<char>>) -> Seq<Seq<char>>
    decreases hrefs.len(),
{
    if hrefs.len() == 0 {
        Seq::empty()
    } else {
        let p = link_endpoints(hrefs.drop_last());
        match link_endpoint(hrefs.last()) {
            Some(e) => p.push(e),
            None => p,
        }
    }
}

/// A text without `#` is kept whole.
proof fn lemma_cut_without_hash(b: Seq<char>)
    requires
        !b.contains('#'),
    ensures
        cut_at_hash(b) == (b, false),
    decreases b.len(),
{
    if b.len() > 0 {
        assert(!b.drop_last().contains('#')) by {
            if b.drop_last().contains('#') {
                let w = choose|w: int| 0 <= w < b.drop_last().len() && b.drop_last()[w] == '#';
                assert(b[w] == '#');
            }
        }
        lemma_cut_without_hash(b.drop_last());
        assert(b.last() != '#') by {
            assert(b[b.len() - 1] == b.last());
        }
        assert(b.drop_last().push(b.last()) =~= b);
    }
}

/// A text is cut at its first `#`, whatever follows.
proof fn lemma_cut_at_first_hash(b: Seq<char>, rest: Seq<char>)
    requires
        !b.contains('#'),
    ensures
        cut_at_hash(b + seq!['#'] + rest) == (b, true),
    decreases rest.len(),
{
    if rest.len() == 0 {
        assert(b + seq!['#'] + rest =~= b.push('#'));
        assert(b.push('#').drop_last() =~= b);
        lemma_cut_without_hash(b);
    } else {
        let t = b + seq!['#'] + rest;
        assert(t.drop_last() =~= b + seq!['#'] + rest.drop_last());
        lemma_cut_at_first_hash(b, rest.drop_last());
    }
}

/// A fragment does not change the endpoint that a link names: links to an
/// article with and without a `#` suffix name the same endpoint.
pub proof fn lemma_fragment_is_dropped(name: Seq<char>, fragment: Seq<char>)
    requires
        !name.contains('#'),
        !name.contains(':'),
        !fragment.contains(':'),
    ensures
        link_endpoint(ARTICLE_LINK_PREFIX@ + name) == Some(name),
        link_endpoint(ARTICLE_LINK_PREFIX@ + name + seq!['#'] + fragment) == Some(name),
{
    let p = ARTICLE_LINK_PREFIX@;
    let with = p + name + seq!['#'] + fragment;
    assert((p + name).skip(p.len() as int) =~= name);
    assert(with.skip(p.len() as int) =~= name + seq!['#'] + fragment);
    assert(p.is_prefix_of(p + name)) by {
        assert((p + name).take(p.len() as int) =~= p);
    }
    assert(p.is_prefix_of(with)) by {
        assert(with.take(p.len() as int) =~= p);
    }
    assert(!(name + seq!['#'] + fragment).contains(':')) by {
        let t = name + seq!['#'] + fragment;
        if t.contains(':') {
            let w = choose|w: int| 0 <= w < t.len() && t[w] == ':';
            if w < name.len() {
                assert(name[w] == ':');
            } else if w > name.len() {
                assert(fragment[w - name.len() - 1] == ':');
            }
        }
    }
    lemma_cut_without_hash(name);
    lemma_cut_at_first_hash(name, fragment);
}

/// The endpoint that a link target names, if it names an article.
pub fn endpoint_of_link(href: &str) -> (r: Option<String>)
    ensures
        match r {
            Some(e) => link_endpoint(href@) == Some(e@),
            None => link_endpoint(href@) is None,
        },
{
    let rest = match strip_prefix(href, ARTICLE_LINK_PREFIX) {
        Some(rest) => rest,
        None => return None,
    };
    let ghost s = rest@;
    let mut out = String::new();
    let mut cut = false;
    for c in iter: rest.chars()
        invariant
            iter.seq() == s,
            s == rest@,
            ARTICLE_LINK_PREFIX@.is_prefix_of(href@),
            rest@ == href@.skip(ARTICLE_LINK_PREFIX@.len() as int),
            (out@, cut) == cut_at_hash(s.take(iter.index() as int)),
            !s.take(iter.index() as int).contains(':'),
    {
        let ghost i = iter.index();
        proof {
            assert(s.take(i + 1).drop_last() =~= s.take(i));
            assert(s.take(i + 1).last() == c);
        }
        if c == ':' {
            proof {
                assert(s[i] == ':');
                assert(s.contains(':'));
            }
            return None;
        }
        if !cut {
            if c == '#' {
                cut = true;
            } else {
                push_char(&mut out, c);
            }
        }
        proof {
            assert forall|j: int| 0 <= j < i + 1 implies #[trigger] s.take(i + 1)[j] != ':' by {
                if j < i {
                    assert(s.take(i + 1)[j] == s.take(i)[j]);
                }
            }
        }
    }
    proof {
        assert(s.take(s.len() as int) =~= s);
    }
    Some(out)
}

/// The endpoints that the link targets of an article body name: each once,
/// in the order of its first link.
pub fn create_article_link_set(hrefs: &Vec<String>) -> (r: Vec<String>)
    ensures
        r@.map_values(|e: String| e@).no_duplicates(),
        r@.map_values(|e: String| e@).to_set() == link_endpoints(
            hrefs@.map_values(|h: String| h@),
        ).to_set(),
{
    let ghost hs = hrefs@.map_values(|h: String| h@);
    let mut endpoints: Vec<String> = Vec::new();
    let mut seen = layer_new();
    let mut i: usize = 0;
    assert(endpoints@.map_values(|e: String| e@) =~= Seq::<Seq<char>>::empty());
    assert(link_endpoints(hs.take(0)).to_set() =~= Set::<Seq<char>>::empty());
    while i < hrefs.len()
        invariant
            i <= hrefs@.len(),
            hs == hrefs@.map_values(|h: String| h@),
            endpoints@.map_values(|e: String| e@).no_duplicates(),
            endpoints@.map_values(|e: String| e@).to_set() == link_endpoints(hs.take(i as int)).to_set(),
            layer_contents(seen) == endpoints@.map_values(|e: String| e@).to_set(),
        decreases hrefs.len() - i,
    {
        let found = endpoint_of_link(hrefs[i].as_str());
        let ghost before = endpoints@.map_values(|e: String| e@);
        let ghost all = link_endpoints(hs.take(i as int));
        proof {
            assert(hs.take(i + 1).drop_last() =~= hs.take(i as int));
            assert(hs.take(i + 1).last() == hrefs@[i as int]@);
        }
        match found {
            Some(e) => {
                proof {
                    assert(link_endpoints(hs.take(i + 1)) == all.push(e@));
                    all.lemma_push_to_set_commute(e@);
                }
                if !layer_has(&seen, &e) {
                    layer_insert(&mut seen, e.clone());
                    endpoints.push(e);
                    proof {
                        let after = endpoints@.map_values(|e: String| e@);
                        assert(after =~= before.push(after.last()));
                        before.lemma_push_to_set_commute(after.last());
                        assert forall|a: int, b: int|
                            0 <= a < after.len() && 0 <= b < after.len() && a != b implies after[a]
                            != after[b] by {
                            if a < before.len() && b < before.len() {
                                assert(after[a] == before[a] && after[b] == before[b]);
                            } else if a < before.len() {
                                assert(before.contains(after[a]));
                                assert(before.to_set().contains(after[a]));
                            } else if b < before.len() {
                                assert(before.contains(after[b]));
                                assert(before.to_set().contains(after[b]));
                            }
                        }
                    }
                } else {
                    assert(before.to_set().insert(e@) =~= before.to_set());
                }
            },
            None => {},
        }
        i = i + 1;
    }
    assert(hs.take(hs.len() as int) =~= hs);
    endpoints
}

/// The lead of an article body: the markup of the paragraphs, given as
/// `(element name, markup)`, that come before the first second-level heading.
pub open spec fn lead_markup(children: Seq<(Seq<char>, Seq<char>)>) -> Seq<char>
    decreases children.len(),
{
    if children.len() == 0 {
        Seq::empty()
    } else if children[0].0 == "h2"@ {
        Seq::empty()
    } else if children[0].0 == "p"@ {
        children[0].1 + lead_markup(children.drop_first())
    } else {
        lead_markup(children.drop_first())
    }
}

/// The markup of the lead paragraphs of an article body, from its child
/// elements in document order.
pub fn get_lead_string(children: &Vec<(String, String)>) -> (r: String)
    ensures
        r@ == lead_markup(children@.map_values(|c: (String, String)| (c.0@, c.1@))),
{
    let ghost cs = children@.map_values(|c: (String, String)| (c.0@, c.1@));
    let paragraph = String::from_str("p");
    let heading = String::from_str("h2");
    let mut lead = String::new();
    let mut i: usize = 0;
    assert(cs.skip(0) =~= cs);
    assert(lead@ + lead_markup(cs.skip(0)) =~= lead_markup(cs));
    while i < children.len()
        invariant
            i <= children@.len(),
            cs == children@.map_values(|c: (String, String)| (c.0@, c.1@)),
            paragraph@ == "p"@,
            heading@ == "h2"@,
            lead@ + lead_markup(cs.skip(i as int)) == lead_markup(cs),
        decreases children.len() - i,
    {
        let (name, markup) = &children[i];
        proof {
            assert(cs.skip(i as int)[0] == (name@, markup@));
            assert(cs.skip(i as int).drop_first() =~= cs.skip(i + 1));
        }
        if *name == heading {
            assert(lead@ =~= lead_markup(cs));
            return lead;
        }
        if *name == paragraph {
            let ghost before = lead@;
            lead.append(markup.as_str());
            assert(lead@ + lead_markup(cs.skip(i + 1)) =~= before + lead_markup(cs.skip(i as int)));
        }
        i = i + 1;
    }
    assert(lead_markup(cs.skip(i as int)) == Seq::<char>::empty());
    assert(lead@ =~= lead_markup(cs));
    lead
}

} // verus!
