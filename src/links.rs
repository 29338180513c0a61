//! The layered link calculator: layer `k` holds the articles exactly `k`
//! hyperlinks away from the origin, with redirects resolved.
//!
//! A round of computation fetches every endpoint of the last layer. The
//! fetching happens outside the library; the outcomes are handed to
//! [`LinkCalculator::compute_next_async`], which merges them into a new layer
//! or, if any fetch failed, leaves the calculator untouched.

use vstd::prelude::*;

use crate::article::ArticleError;
use crate::client::ClientError;
use crate::report::{layers_view, pairs_view, render_report, report_text};
use crate::tables::{
    layer_contents, layer_has, layer_insert, layer_list, layer_new, layer_remove, table_contents,
    table_get, table_list, table_new, table_try_insert, EndpointMap, EndpointSet,
};

verus! {

/// Why a round of computation failed.
#[derive(Debug, Clone)]
pub enum LinkCalcError {
    ArticleError(ArticleError),
    ClientError(ClientError),
    /// The calculator holds no layer to compute from.
    NotInitializedError,
    /// The outcomes of a round do not answer the endpoints of the last
    /// layer, one outcome for each.
    OutcomesMismatch,
    /// A unit of work could not be joined; the message describes how.
    JoinError(String),
}

impl From<ArticleError> for LinkCalcError {
    fn from(e: ArticleError) -> LinkCalcError {
        LinkCalcError::ArticleError(e)
    }
}

impl vstd::std_specs::convert::FromSpecImpl<ArticleError> for LinkCalcError {
    open spec fn obeys_from_spec() -> bool {
        true
    }

    open spec fn from_spec(e: ArticleError) -> LinkCalcError {
        LinkCalcError::ArticleError(e)
    }
}

impl From<ClientError> for LinkCalcError {
    fn from(e: ClientError) -> LinkCalcError {
        LinkCalcError::ClientError(e)
    }
}

impl vstd::std_specs::convert::FromSpecImpl<ClientError> for LinkCalcError {
    open spec fn obeys_from_spec() -> bool {
        true
    }

    open spec fn from_spec(e: ClientError) -> LinkCalcError {
        LinkCalcError::ClientError(e)
    }
}

/// A fetched article: the endpoint that was asked for, the endpoint that the
/// service served (different after a redirect), and the endpoints that its
/// body links to.
pub struct FetchedArticle {
    pub requested: String,
    pub endpoint: String,
    pub links: Vec<String>,
}

pub struct ArticleView {
    pub requested: Seq<char>,
    pub endpoint: Seq<char>,
    pub links: Seq<Seq<char>>,
}

impl View for FetchedArticle {
    type V = ArticleView;

    open spec fn view(&self) -> ArticleView {
        ArticleView {
            requested: self.requested@,
            endpoint: self.endpoint@,
            links: self.links@.map_values(|l: String| l@),
        }
    }
}

/// The outcome of fetching one endpoint of a round.
pub type FetchOutcome = Result<FetchedArticle, LinkCalcError>;

/// A redirect: requested endpoint and served endpoint.
pub type Redirect = (Seq<char>, Seq<char>);

/// The abstract state of a calculator: the layers, by hop distance, and the
/// known redirects.
pub struct CalcView {
    pub layers: Seq<EndpointSet>,
    pub redirects: EndpointMap,
}

/// An endpoint resolved through the known redirects.
pub open spec fn canonical(r: EndpointMap, e: Seq<char>) -> Seq<char> {
    if r.contains_key(e) {
        r[e]
    } else {
        e
    }
}

/// Whether some layer holds the endpoint.
pub open spec fn seen_in(layers: Seq<EndpointSet>, e: Seq<char>) -> bool {
    exists|j: int| 0 <= j < layers.len() && #[trigger] layers[j].contains(e)
}

/// The endpoints that a list of links contributes to the next layer: each
/// link resolved through the redirects, unless some layer already holds it.
pub open spec fn found_in_links(s: CalcView, links: Seq<Seq<char>>) -> EndpointSet {
    Set::new(
        |e: Seq<char>|
            exists|k: int|
                0 <= k < links.len() && e == canonical(s.redirects, #[trigger] links[k])
                    && !seen_in(s.layers, e),
    )
}

/// The layer that a round discovers from the fetched articles.
pub open spec fn discovered(s: CalcView, docs: Seq<ArticleView>) -> EndpointSet {
    Set::new(
        |e: Seq<char>|
            exists|d: int| 0 <= d < docs.len() && #[trigger] found_in_links(s, docs[d].links).contains(e),
    )
}

/// The redirects that a round's articles reveal, in order.
pub open spec fn redirects_found(docs: Seq<ArticleView>) -> Seq<Redirect>
    decreases docs.len(),
{
    if docs.len() == 0 {
        Seq::empty()
    } else {
        let p = redirects_found(docs.drop_last());
        let d = docs.last();
        if d.requested != d.endpoint {
            p.push((d.requested, d.endpoint))
        } else {
            p
        }
    }
}

/// The requested endpoints of some redirects.
pub open spec fn redirect_sources(rs: Seq<Redirect>) -> EndpointSet {
    Set::new(|e: Seq<char>| exists|i: int| 0 <= i < rs.len() && (#[trigger] rs[i]).0 == e)
}

/// The served endpoints of some redirects.
pub open spec fn redirect_targets(rs: Seq<Redirect>) -> EndpointSet {
    Set::new(|e: Seq<char>| exists|i: int| 0 <= i < rs.len() && (#[trigger] rs[i]).1 == e)
}

/// The members of every layer before the last.
pub open spec fn earlier_members(layers: Seq<EndpointSet>) -> EndpointSet {
    Set::new(
        |e: Seq<char>| exists|j: int| 0 <= j < layers.len() - 1 && #[trigger] layers[j].contains(e),
    )
}

/// The redirect targets that a round moves into the processed layer: those
/// that no earlier layer holds, since an endpoint stands only at its least
/// distance.
pub open spec fn kept_targets(s: CalcView, docs: Seq<ArticleView>) -> EndpointSet {
    redirect_targets(redirects_found(docs)).difference(earlier_members(s.layers))
}

/// A layer with its redirected endpoints replaced by the given targets. No
/// redirect source stays, also where one redirect leads to the source of
/// another: that target is in turn replaced by its own.
pub open spec fn apply_redirects(l: EndpointSet, targets: EndpointSet, rs: Seq<Redirect>) -> EndpointSet {
    l.union(targets).difference(redirect_sources(rs))
}

/// The redirect table with the new redirects added; a key already present
/// keeps its target.
pub open spec fn record_redirects(r: EndpointMap, rs: Seq<Redirect>) -> EndpointMap
    decreases rs.len(),
{
    if rs.len() == 0 {
        r
    } else {
        let p = record_redirects(r, rs.drop_last());
        if p.contains_key(rs.last().0) {
            p
        } else {
            p.insert(rs.last().0, rs.last().1)
        }
    }
}

/// The state after a successful round whose fetched articles are `docs`: the
/// processed layer has its redirects replaced by their targets (a target
/// that an earlier layer holds stays there), the new layer is appended
/// without the targets that the processed layer took, and the redirects are
/// recorded.
pub open spec fn next_round(s: CalcView, docs: Seq<ArticleView>) -> CalcView {
    CalcView {
        layers: s.layers.update(
            s.layers.len() - 1,
            apply_redirects(s.layers.last(), kept_targets(s, docs), redirects_found(docs)),
        ).push(discovered(s, docs).difference(kept_targets(s, docs))),
        redirects: record_redirects(s.redirects, redirects_found(docs)),
    }
}

/// The endpoints that a round's articles were fetched for, in order.
pub open spec fn requested_of(docs: Seq<ArticleView>) -> Seq<Seq<char>> {
    docs.map_values(|d: ArticleView| d.requested)
}

/// Whether the articles of a round answer a layer: one article for each
/// member, and none for anything else.
pub open spec fn answers_layer(docs: Seq<ArticleView>, l: EndpointSet) -> bool {
    requested_of(docs).no_duplicates() && requested_of(docs).to_set() == l
}

/// Whether an endpoint is the resolved target of a link of an article that
/// was fetched for a member of the last layer.
pub open spec fn linked_from_last_layer(s: CalcView, docs: Seq<ArticleView>, e: Seq<char>) -> bool {
    exists|d: int, k: int|
        0 <= d < docs.len() && 0 <= k < docs[d].links.len() && s.layers.last().contains(
            docs[d].requested,
        ) && e == canonical(s.redirects, #[trigger] docs[d].links[k])
}

/// The articles of a round in which every fetch succeeded.
pub open spec fn articles_of(outcomes: Seq<FetchOutcome>) -> Seq<ArticleView> {
    outcomes.map_values(|o: FetchOutcome| o->Ok_0@)
}

/// The calculator as it stands after construction from an origin endpoint.
pub open spec fn initial(origin: Seq<char>) -> CalcView {
    CalcView { layers: seq![set![origin]], redirects: Map::empty() }
}

/// `ls` lists each layer: every member once, in some order.
pub open spec fn lists_layers(ls: Seq<Seq<Seq<char>>>, layers: Seq<EndpointSet>) -> bool {
    &&& ls.len() == layers.len()
    &&& forall|i: int|
        0 <= i < ls.len() ==> (#[trigger] ls[i]).no_duplicates() && ls[i].to_set() == layers[i]
}

/// `rs` lists each entry of the redirect table once, in some order.
pub open spec fn lists_redirects(rs: Seq<Redirect>, table: EndpointMap) -> bool {
    &&& rs.map_values(|p: Redirect| p.0).no_duplicates()
    &&& forall|i: int|
        0 <= i < rs.len() ==> #[trigger] table.contains_key(rs[i].0) && table[rs[i].0] == rs[i].1
    &&& forall|k: Seq<char>|
        #[trigger] table.contains_key(k) ==> exists|i: int| 0 <= i < rs.len() && #[trigger] rs[i].0 == k
}

pub struct LinkCalculator {
    layers: Vec<flurry::HashSet<String>>,
    known_redirects: flurry::HashMap<String, String>,
}

impl View for LinkCalculator {
    type V = CalcView;

    closed spec fn view(&self) -> CalcView {
        CalcView {
            layers: self.layers@.map_values(|l: flurry::HashSet<String>| layer_contents(l)),
            redirects: table_contents(self.known_redirects),
        }
    }
}

impl LinkCalculator {
    /// A calculator always holds at least the origin layer.
    pub open spec fn wf(&self) -> bool {
        self@.layers.len() >= 1
    }

    fn layer_zero(start_point: String) -> (r: flurry::HashSet<String>)
        ensures
            layer_contents(r) == set![start_point@],
    {
        let mut start = layer_new();
        layer_insert(&mut start, start_point);
        proof {
            assert(layer_contents(start) =~= set![start_point@]);
        }
        start
    }

    /// A calculator whose only layer holds the starting endpoint.
    pub fn new(start_point: String) -> (r: Self)
        ensures
            r.wf(),
            r@ == initial(start_point@),
    {
        let mut layers: Vec<flurry::HashSet<String>> = Vec::new();
        let start = Self::layer_zero(start_point);
        layers.push(start);
        let r = LinkCalculator { layers, known_redirects: table_new() };
        assert(r@.layers =~= seq![set![start_point@]]);
        r
    }

    /// A calculator seeded from the already fetched origin article: layer 0
    /// holds the article's endpoint and layer 1 the endpoints it links to.
    pub fn from_article(first_article: &FetchedArticle) -> (r: Self)
        ensures
            r.wf(),
            r@ == (CalcView {
                layers: seq![
                    set![first_article@.endpoint],
                    found_in_links(initial(first_article@.endpoint), first_article@.links),
                ],
                redirects: Map::empty(),
            }),
    {
        let mut calc = Self::new(first_article.endpoint.clone());
        let mut layer_one = layer_new();
        let _ = calc.store_article_links(first_article, &mut layer_one);
        proof {
            assert(layer_contents(layer_one) =~= found_in_links(calc@, first_article@.links));
        }
        let ghost v0 = calc.layers@;
        let ghost c0 = calc@;
        calc.layers.push(layer_one);
        proof {
            assert(c0.layers[0] == layer_contents(v0[0]));
            assert(calc.layers@ == v0.push(layer_one));
            assert(calc@.layers[0] == layer_contents(v0[0]));
            assert(calc@.layers[1] == layer_contents(layer_one));
            assert(calc@.layers =~= seq![
                set![first_article@.endpoint],
                found_in_links(initial(first_article@.endpoint), first_article@.links),
            ]);
        }
        calc
    }

    /// The number of layers.
    pub fn get_layer_count(&self) -> (r: usize)
        ensures
            r == self@.layers.len(),
    {
        self.layers.len()
    }

    /// The endpoints of layer `i`, each once, in no fixed order.
    pub fn get_layer(&self, i: usize) -> (r: Vec<String>)
        requires
            i < self@.layers.len(),
        ensures
            r@.map_values(|e: String| e@).no_duplicates(),
            r@.map_values(|e: String| e@).to_set() == self@.layers[i as int],
    {
        layer_list(&self.layers[i])
    }

    /// The endpoints of the last layer, each once, in no fixed order: those
    /// that the next round fetches.
    pub fn get_last_layer(&self) -> (r: Result<Vec<String>, LinkCalcError>)
        ensures
            match r {
                Ok(v) => self.wf() && v@.map_values(|e: String| e@).no_duplicates()
                    && v@.map_values(|e: String| e@).to_set() == self@.layers.last(),
                Err(e) => !self.wf() && e == LinkCalcError::NotInitializedError,
            },
    {
        if self.layers.len() == 0 {
            return Err(LinkCalcError::NotInitializedError);
        }
        Ok(layer_list(&self.layers[self.layers.len() - 1]))
    }

    /// The known redirects, each once, in no fixed order.
    pub fn get_known_redirects(&self) -> (r: Vec<(String, String)>)
        ensures
            lists_redirects(pairs_view(r@), self@.redirects),
    {
        let r = table_list(&self.known_redirects);
        let ghost rs = pairs_view(r@);
        assert(rs.map_values(|p: Redirect| p.0) =~= r@.map_values(|e: (String, String)| e.0@));
        assert forall|i: int| 0 <= i < rs.len() implies #[trigger] self@.redirects.contains_key(
            rs[i].0,
        ) && self@.redirects[rs[i].0] == rs[i].1 by {
            assert(table_contents(self.known_redirects).contains_key(r@[i].0@));
        }
        assert forall|k: Seq<char>| #[trigger] self@.redirects.contains_key(k) implies exists|i: int|
            0 <= i < rs.len() && #[trigger] rs[i].0 == k by {
            assert(table_contents(self.known_redirects).contains_key(k));
            let i = choose|i: int| 0 <= i < r@.len() && #[trigger] r@[i].0@ == k;
            assert(rs[i].0 == k);
        }
        r
    }

    /// The report of the calculation, each layer and the redirect table
    /// listed in the order in which its set yields them.
    pub fn report(&self) -> (r: String)
        ensures
            exists|ls: Seq<Seq<Seq<char>>>, rs: Seq<Redirect>|
                lists_layers(ls, self@.layers) && lists_redirects(rs, self@.redirects) && r@
                    == report_text(ls, rs),
    {
        let mut layers: Vec<Vec<String>> = Vec::new();
        let mut i: usize = 0;
        while i < self.layers.len()
            invariant
                i <= self@.layers.len(),
                layers@.len() == i,
                lists_layers(layers_view(layers@), self@.layers.take(i as int)),
            decreases self.layers.len() - i,
        {
            let members = self.get_layer(i);
            let ghost before = layers_view(layers@);
            layers.push(members);
            proof {
                let after = layers_view(layers@);
                assert(after =~= before.push(members@.map_values(|e: String| e@)));
                assert(self@.layers.take(i + 1) =~= self@.layers.take(i as int).push(self@.layers[i as int]));
            }
            i = i + 1;
        }
        assert(self@.layers.take(self@.layers.len() as int) =~= self@.layers);
        let redirects = self.get_known_redirects();
        render_report(&layers, &redirects)
    }

    /// The endpoint resolved through the known redirects.
    fn canonicalize(&self, endpoint: &String) -> (r: String)
        ensures
            r@ == canonical(self@.redirects, endpoint@),
    {
        match table_get(&self.known_redirects, endpoint) {
            Some(target) => target,
            None => endpoint.clone(),
        }
    }

    /// The first layer that holds the endpoint, once resolved through the
    /// known redirects.
    pub fn find_in_previous_layer(&self, endpoint: &String) -> (r: Option<usize>)
        ensures
            match r {
                Some(j) => j < self@.layers.len() && self@.layers[j as int].contains(
                    canonical(self@.redirects, endpoint@),
                ) && forall|i: int|
                    0 <= i < j ==> !(#[trigger] self@.layers[i]).contains(
                        canonical(self@.redirects, endpoint@),
                    ),
                None => !seen_in(self@.layers, canonical(self@.redirects, endpoint@)),
            },
    {
        let real_endpoint = self.canonicalize(endpoint);
        let mut j: usize = 0;
        while j < self.layers.len()
            invariant
                j <= self@.layers.len(),
                real_endpoint@ == canonical(self@.redirects, endpoint@),
                forall|i: int| 0 <= i < j ==> !(#[trigger] self@.layers[i]).contains(real_endpoint@),
            decreases self.layers.len() - j,
        {
            if layer_has(&self.layers[j], &real_endpoint) {
                return Some(j);
            }
            j = j + 1;
        }
        None
    }

    /// Adds to `this_layer` every endpoint that the article links to and that
    /// no layer holds yet, and returns the redirect that the fetch revealed.
    fn store_article_links(
        &self,
        article: &FetchedArticle,
        this_layer: &mut flurry::HashSet<String>,
    ) -> (r: Option<(String, String)>)
        ensures
            layer_contents(*final(this_layer)) == layer_contents(*old(this_layer)).union(
                found_in_links(self@, article@.links),
            ),
            match r {
                Some(p) => article@.requested != article@.endpoint && p.0@ == article@.requested
                    && p.1@ == article@.endpoint,
                None => article@.requested == article@.endpoint,
            },
    {
        let ghost start = layer_contents(*this_layer);
        let ghost links = article@.links;
        let mut k: usize = 0;
        while k < article.links.len()
            invariant
                k <= links.len(),
                links == article@.links,
                layer_contents(*this_layer) == start.union(found_in_links(self@, links.take(k as int))),
            decreases links.len() - k,
        {
            let link = &article.links[k];
            let canon = self.canonicalize(link);
            let place = self.find_in_previous_layer(link);
            proof {
                assert(links[k as int] == link@);
            }
            if place.is_none() {
                layer_insert(this_layer, canon);
            }
            proof {
                let s = self@;
                let before = found_in_links(s, links.take(k as int));
                let after = found_in_links(s, links.take(k + 1));
                assert forall|e: Seq<char>| after.contains(e) implies before.contains(e) || (e
                    == canon@ && !seen_in(s.layers, e)) by {
                    let w = choose|w: int|
                        0 <= w < k + 1 && e == canonical(s.redirects, #[trigger] links.take(k + 1)[w])
                            && !seen_in(s.layers, e);
                    if w < k {
                        assert(links.take(k as int)[w] == links.take(k + 1)[w]);
                    }
                }
                assert forall|e: Seq<char>| before.contains(e) implies after.contains(e) by {
                    let w = choose|w: int|
                        0 <= w < k && e == canonical(s.redirects, #[trigger] links.take(k as int)[w])
                            && !seen_in(s.layers, e);
                    assert(links.take(k + 1)[w] == links.take(k as int)[w]);
                }
                if place.is_none() {
                    assert(links.take(k + 1)[k as int] == link@);
                    assert(after.contains(canon@));
                }
                assert(layer_contents(*this_layer) =~= start.union(after));
            }
            k = k + 1;
        }
        proof {
            assert(links.take(links.len() as int) =~= links);
        }
        if article.requested == article.endpoint {
            None
        } else {
            Some((article.requested.clone(), article.endpoint.clone()))
        }
    }

    /// Whether a layer before the last holds the endpoint.
    fn in_earlier_layer(&self, endpoint: &String) -> (r: bool)
        requires
            self.wf(),
        ensures
            r == earlier_members(self@.layers).contains(endpoint@),
    {
        let mut j: usize = 0;
        while j < self.layers.len() - 1
            invariant
                self.wf(),
                j <= self@.layers.len() - 1,
                forall|i: int| 0 <= i < j ==> !(#[trigger] self@.layers[i]).contains(endpoint@),
            decreases self.layers.len() - 1 - j,
        {
            if layer_has(&self.layers[j], endpoint) {
                assert(self@.layers[j as int].contains(endpoint@));
                return true;
            }
            j = j + 1;
        }
        proof {
            if earlier_members(self@.layers).contains(endpoint@) {
                let w = choose|w: int| 0 <= w < self@.layers.len() - 1 && #[trigger] self@.layers[w].contains(
                    endpoint@,
                );
            }
        }
        false
    }

    /// The targets of the round's redirects that no earlier layer holds.
    fn collect_kept_targets(&self, new_redirects: &Vec<(String, String)>) -> (r: flurry::HashSet<String>)
        requires
            self.wf(),
        ensures
            layer_contents(r) == redirect_targets(pairs_view(new_redirects@)).difference(
                earlier_members(self@.layers),
            ),
    {
        let ghost rs = pairs_view(new_redirects@);
        let ghost e = earlier_members(self@.layers);
        let mut kept = layer_new();
        assert(layer_contents(kept) =~= redirect_targets(rs.take(0)).difference(e));
        let mut i: usize = 0;
        while i < new_redirects.len()
            invariant
                self.wf(),
                i <= new_redirects@.len(),
                rs == pairs_view(new_redirects@),
                e == earlier_members(self@.layers),
                layer_contents(kept) == redirect_targets(rs.take(i as int)).difference(e),
            decreases new_redirects.len() - i,
        {
            let (_, target) = &new_redirects[i];
            let ghost before = layer_contents(kept);
            let earlier = self.in_earlier_layer(target);
            if !earlier {
                layer_insert(&mut kept, target.clone());
            }
            proof {
                lemma_targets_take(rs, i as int);
                assert(layer_contents(kept) =~= redirect_targets(rs.take(i + 1)).difference(e));
            }
            i = i + 1;
        }
        assert(rs.take(rs.len() as int) =~= rs);
        kept
    }

    /// Replaces each redirected endpoint of the layer by its target: adds
    /// every target that `kept` holds, then removes every source.
    fn normalize_layer(
        last_layer: &mut flurry::HashSet<String>,
        new_redirects: &Vec<(String, String)>,
        kept: &flurry::HashSet<String>,
    )
        requires
            layer_contents(*kept).subset_of(redirect_targets(pairs_view(new_redirects@))),
        ensures
            layer_contents(*final(last_layer)) == apply_redirects(
                layer_contents(*old(last_layer)),
                layer_contents(*kept),
                pairs_view(new_redirects@),
            ),
    {
        let ghost start = layer_contents(*last_layer);
        let ghost rs = pairs_view(new_redirects@);
        let ghost k = layer_contents(*kept);
        assert(start =~= start.union(redirect_targets(rs.take(0)).intersect(k)));
        let mut i: usize = 0;
        while i < new_redirects.len()
            invariant
                i <= new_redirects@.len(),
                rs == pairs_view(new_redirects@),
                k == layer_contents(*kept),
                layer_contents(*last_layer) == start.union(redirect_targets(rs.take(i as int)).intersect(k)),
            decreases new_redirects.len() - i,
        {
            let (_, target) = &new_redirects[i];
            if layer_has(kept, target) {
                layer_insert(last_layer, target.clone());
            }
            proof {
                lemma_targets_take(rs, i as int);
                assert(layer_contents(*last_layer) =~= start.union(
                    redirect_targets(rs.take(i + 1)).intersect(k),
                ));
            }
            i = i + 1;
        }
        proof {
            assert(rs.take(rs.len() as int) =~= rs);
            assert(redirect_targets(rs).intersect(k) =~= k);
        }
        let ghost grown = layer_contents(*last_layer);
        assert(grown =~= grown.difference(redirect_sources(rs.take(0))));
        let mut i: usize = 0;
        while i < new_redirects.len()
            invariant
                i <= new_redirects@.len(),
                rs == pairs_view(new_redirects@),
                layer_contents(*last_layer) == grown.difference(redirect_sources(rs.take(i as int))),
            decreases new_redirects.len() - i,
        {
            let (link, _) = &new_redirects[i];
            layer_remove(last_layer, link);
            proof {
                lemma_sources_take(rs, i as int);
                assert(layer_contents(*last_layer) =~= grown.difference(redirect_sources(rs.take(i + 1))));
            }
            i = i + 1;
        }
        proof {
            assert(rs.take(rs.len() as int) =~= rs);
            assert(layer_contents(*last_layer) =~= apply_redirects(start, k, rs));
        }
    }

    /// Removes from the new layer every target that the processed layer took.
    fn drop_kept_targets(
        this_layer: &mut flurry::HashSet<String>,
        new_redirects: &Vec<(String, String)>,
        kept: &flurry::HashSet<String>,
    )
        requires
            layer_contents(*kept).subset_of(redirect_targets(pairs_view(new_redirects@))),
        ensures
            layer_contents(*final(this_layer)) == layer_contents(*old(this_layer)).difference(
                layer_contents(*kept),
            ),
    {
        let ghost start = layer_contents(*this_layer);
        let ghost rs = pairs_view(new_redirects@);
        let ghost k = layer_contents(*kept);
        assert(start =~= start.difference(redirect_targets(rs.take(0)).intersect(k)));
        let mut i: usize = 0;
        while i < new_redirects.len()
            invariant
                i <= new_redirects@.len(),
                rs == pairs_view(new_redirects@),
                k == layer_contents(*kept),
                layer_contents(*this_layer) == start.difference(
                    redirect_targets(rs.take(i as int)).intersect(k),
                ),
            decreases new_redirects.len() - i,
        {
            let (_, target) = &new_redirects[i];
            if layer_has(kept, target) {
                layer_remove(this_layer, target);
            }
            proof {
                lemma_targets_take(rs, i as int);
                assert(layer_contents(*this_layer) =~= start.difference(
                    redirect_targets(rs.take(i + 1)).intersect(k),
                ));
            }
            i = i + 1;
        }
        proof {
            assert(rs.take(rs.len() as int) =~= rs);
            assert(redirect_targets(rs).intersect(k) =~= k);
        }
    }

    /// Whether the articles answer the last layer: one for each member.
    fn answers_last_layer(&self, articles: &Vec<FetchedArticle>) -> (r: bool)
        requires
            self.wf(),
        ensures
            r == answers_layer(articles@.map_values(|a: FetchedArticle| a@), self@.layers.last()),
    {
        let ghost docs = articles@.map_values(|a: FetchedArticle| a@);
        let ghost req = requested_of(docs);
        let ghost l = self@.layers.last();
        let last = &self.layers[self.layers.len() - 1];
        assert(layer_contents(*last) == l);
        let mut asked = layer_new();
        let mut i: usize = 0;
        while i < articles.len()
            invariant
                i <= articles@.len(),
                docs == articles@.map_values(|a: FetchedArticle| a@),
                req == requested_of(docs),
                l == self@.layers.last(),
                layer_contents(*last) == l,
                layer_contents(asked) == req.take(i as int).to_set(),
                req.take(i as int).no_duplicates(),
                req.take(i as int).to_set().subset_of(l),
            decreases articles.len() - i,
        {
            let e = &articles[i].requested;
            assert(req[i as int] == e@);
            if !layer_has(last, e) {
                proof {
                    assert(req.contains(e@));
                    assert(req.to_set().contains(e@));
                    assert(!l.contains(e@));
                    assert(!answers_layer(docs, l));
                }
                return false;
            }
            if layer_has(&asked, e) {
                proof {
                    let j = choose|j: int| 0 <= j < i && #[trigger] req.take(i as int)[j] == e@;
                    assert(req[j] == req[i as int]);
                }
                assert(!answers_layer(docs, l));
                return false;
            }
            layer_insert(&mut asked, e.clone());
            proof {
                let t = req.take(i + 1);
                assert(t.drop_last() =~= req.take(i as int));
                assert(t.last() == e@);
                assert(t.to_set() =~= req.take(i as int).to_set().insert(e@)) by {
                    assert forall|x: Seq<char>| t.contains(x) implies req.take(i as int).contains(x) || x
                        == e@ by {
                        let w = choose|w: int| 0 <= w < t.len() && t[w] == x;
                        if w < i {
                            assert(req.take(i as int)[w] == t[w]);
                        }
                    }
                    assert forall|x: Seq<char>| req.take(i as int).contains(x) implies t.contains(x) by {
                        let w = choose|w: int| 0 <= w < i && req.take(i as int)[w] == x;
                        assert(t[w] == x);
                    }
                    assert(t.contains(e@));
                }
                assert forall|a: int, b: int| 0 <= a < t.len() && 0 <= b < t.len() && a != b implies t[a]
                    != t[b] by {
                    if a < i && b < i {
                        assert(t[a] == req.take(i as int)[a]);
                        assert(t[b] == req.take(i as int)[b]);
                    } else if a < i {
                        assert(req.take(i as int).contains(t[a]));
                    } else if b < i {
                        assert(req.take(i as int).contains(t[b]));
                    }
                }
            }
            i = i + 1;
        }
        assert(req.take(req.len() as int) =~= req);
        let members = layer_list(last);
        let mut k: usize = 0;
        while k < members.len()
            invariant
                k <= members@.len(),
                docs == articles@.map_values(|a: FetchedArticle| a@),
                req == requested_of(docs),
                l == self@.layers.last(),
                members@.map_values(|e: String| e@).to_set() == l,
                layer_contents(asked) == req.to_set(),
                forall|j: int| 0 <= j < k ==> req.to_set().contains(#[trigger] members@[j]@),
            decreases members.len() - k,
        {
            if !layer_has(&asked, &members[k]) {
                proof {
                    let mv = members@.map_values(|e: String| e@);
                    assert(mv[k as int] == members@[k as int]@);
                    assert(mv.contains(members@[k as int]@));
                    assert(l.contains(members@[k as int]@));
                    assert(!answers_layer(docs, l));
                }
                return false;
            }
            k = k + 1;
        }
        assert(req.to_set() =~= l) by {
            assert forall|x: Seq<char>| l.contains(x) implies req.to_set().contains(x) by {
                let mv = members@.map_values(|e: String| e@);
                assert(mv.to_set().contains(x));
                let w = choose|w: int| 0 <= w < mv.len() && mv[w] == x;
                assert(members@[w]@ == x);
            }
        }
        true
    }

    /// Writes the round's redirects into the table, keeping any existing entry.
    fn record_new_redirects(&mut self, new_redirects: &Vec<(String, String)>)
        ensures
            final(self)@.layers == old(self)@.layers,
            final(self)@.redirects == record_redirects(
                old(self)@.redirects,
                pairs_view(new_redirects@),
            ),
    {
        let ghost start = self@;
        let ghost rs = pairs_view(new_redirects@);
        let mut i: usize = 0;
        while i < new_redirects.len()
            invariant
                i <= new_redirects@.len(),
                rs == pairs_view(new_redirects@),
                self@.layers == start.layers,
                self@.redirects == record_redirects(start.redirects, rs.take(i as int)),
            decreases new_redirects.len() - i,
        {
            let (link, target) = &new_redirects[i];
            table_try_insert(&mut self.known_redirects, link.clone(), target.clone());
            proof {
                assert(rs.take(i + 1).drop_last() =~= rs.take(i as int));
            }
            i = i + 1;
        }
        proof {
            assert(rs.take(rs.len() as int) =~= rs);
        }
    }

    /// Merges the outcomes of one round, one per endpoint of the last layer.
    ///
    /// If some fetch failed, the first failure is returned and nothing
    /// changes; so too, with `OutcomesMismatch`, if the fetched articles do
    /// not answer the last layer one for each member. Otherwise the links of
    /// the fetched articles make the new last layer, the redirects that the
    /// round revealed are recorded, and in the processed layer each
    /// redirected endpoint is replaced by its target. A target that an
    /// earlier layer holds stays there only; a target that the round also
    /// discovered stays in the processed layer only. So no endpoint comes to
    /// stand in two layers.
    pub fn compute_next_async(&mut self, outcomes: Vec<FetchOutcome>) -> (r: Result<(), LinkCalcError>)
        ensures
            match r {
                Ok(()) => {
                    &&& old(self).wf()
                    &&& all_fetched(outcomes@)
                    &&& answers_layer(articles_of(outcomes@), old(self)@.layers.last())
                    &&& final(self)@ == next_round(old(self)@, articles_of(outcomes@))
                    &&& forall|e: Seq<char>|
                        #[trigger] final(self)@.layers.last().contains(e) ==> linked_from_last_layer(
                            old(self)@,
                            articles_of(outcomes@),
                            e,
                        ) && !seen_in(old(self)@.layers, e)
                    &&& final(self)@.layers[old(self)@.layers.len() - 1].disjoint(
                        redirect_sources(redirects_found(articles_of(outcomes@))),
                    )
                    &&& pairwise_disjoint(old(self)@.layers) ==> pairwise_disjoint(final(self)@.layers)
                },
                Err(e) => final(self)@ == old(self)@ && if !old(self).wf() {
                    e == LinkCalcError::NotInitializedError
                } else if all_fetched(outcomes@) {
                    !answers_layer(articles_of(outcomes@), old(self)@.layers.last()) && e
                        == LinkCalcError::OutcomesMismatch
                } else {
                    exists|i: int|
                        0 <= i < outcomes@.len() && outcomes@[i] == Err::<FetchedArticle, LinkCalcError>(e)
                            && forall|j: int| 0 <= j < i ==> (#[trigger] outcomes@[j]) is Ok
                },
            },
    {
        if self.layers.len() == 0 {
            return Err(LinkCalcError::NotInitializedError);
        }
        let ghost outs = outcomes@;
        let ghost pre = self@;
        let mut articles: Vec<FetchedArticle> = Vec::new();
        for o in it: outcomes
            invariant
                it.seq() == outs,
                self@ == pre,
                pre.layers.len() >= 1,
                articles@.len() == it.index(),
                forall|j: int| 0 <= j < it.index() ==> (#[trigger] outs[j]) is Ok,
                forall|j: int| 0 <= j < it.index() ==> #[trigger] articles@[j] == outs[j]->Ok_0,
        {
            match o {
                Ok(article) => {
                    articles.push(article);
                },
                Err(e) => {
                    return Err(e);
                },
            }
        }
        let ghost docs = articles_of(outs);
        assert(articles@.map_values(|a: FetchedArticle| a@) =~= docs);
        if !self.answers_last_layer(&articles) {
            return Err(LinkCalcError::OutcomesMismatch);
        }

        let mut this_layer = layer_new();
        let mut new_redirects: Vec<(String, String)> = Vec::new();
        let mut d: usize = 0;
        while d < articles.len()
            invariant
                self@ == pre,
                d <= articles@.len(),
                docs == articles@.map_values(|a: FetchedArticle| a@),
                layer_contents(this_layer) == discovered(pre, docs.take(d as int)),
                pairs_view(new_redirects@) == redirects_found(docs.take(d as int)),
            decreases articles.len() - d,
        {
            let found = self.store_article_links(&articles[d], &mut this_layer);
            match found {
                Some(p) => {
                    new_redirects.push(p);
                },
                None => {},
            }
            proof {
                let before = discovered(pre, docs.take(d as int));
                let after = discovered(pre, docs.take(d + 1));
                let here = found_in_links(pre, docs[d as int].links);
                assert(docs[d as int] == articles@[d as int]@);
                assert forall|e: Seq<char>| after.contains(e) implies #[trigger] before.contains(e)
                    || here.contains(e) by {
                    let w = choose|w: int|
                        0 <= w < d + 1 && #[trigger] found_in_links(
                            pre,
                            docs.take(d + 1)[w].links,
                        ).contains(e);
                    if w < d {
                        assert(docs.take(d as int)[w] == docs.take(d + 1)[w]);
                    }
                }
                assert forall|e: Seq<char>| before.contains(e) implies #[trigger] after.contains(e) by {
                    let w = choose|w: int|
                        0 <= w < d && #[trigger] found_in_links(
                            pre,
                            docs.take(d as int)[w].links,
                        ).contains(e);
                    assert(docs.take(d + 1)[w] == docs.take(d as int)[w]);
                }
                assert forall|e: Seq<char>| here.contains(e) implies #[trigger] after.contains(e) by {
                    assert(docs.take(d + 1)[d as int] == docs[d as int]);
                }
                assert(layer_contents(this_layer) =~= after);
                assert(docs.take(d + 1).drop_last() =~= docs.take(d as int));
                assert(pairs_view(new_redirects@) =~= redirects_found(docs.take(d + 1)));
            }
            d = d + 1;
        }
        proof {
            assert(docs.take(docs.len() as int) =~= docs);
        }

        let kept = self.collect_kept_targets(&new_redirects);
        assert(layer_contents(kept) == kept_targets(pre, docs));
        Self::drop_kept_targets(&mut this_layer, &new_redirects, &kept);

        let ghost v0 = self.layers@;
        let ghost n = v0.len() - 1;
        let mut last_layer = self.layers.pop().unwrap();
        proof {
            assert(pre.layers.last() == layer_contents(last_layer));
        }
        Self::normalize_layer(&mut last_layer, &new_redirects, &kept);
        self.layers.push(last_layer);
        let ghost mid = self@;
        proof {
            let want = pre.layers.update(n, layer_contents(last_layer));
            assert forall|i: int| 0 <= i < want.len() implies #[trigger] mid.layers[i] == want[i] by {
                if i < n {
                    assert(self.layers@[i] == v0[i]);
                }
            }
            assert(mid.layers =~= want);
        }
        self.record_new_redirects(&new_redirects);
        let ghost v2 = self.layers@;
        self.layers.push(this_layer);
        proof {
            let want = mid.layers.push(layer_contents(this_layer));
            assert forall|i: int| 0 <= i < want.len() implies #[trigger] self@.layers[i] == want[i] by {
                if i <= n {
                    assert(self.layers@[i] == v2[i]);
                }
            }
            assert(self@.layers =~= want);
            assert(self@.layers =~= next_round(pre, docs).layers);
            assert forall|d: int| 0 <= d < docs.len() implies pre.layers.last().contains(
                (#[trigger] docs[d]).requested,
            ) by {
                assert(requested_of(docs)[d] == docs[d].requested);
                assert(requested_of(docs).contains(docs[d].requested));
            }
            assert forall|e: Seq<char>| #[trigger] self@.layers.last().contains(e) implies linked_from_last_layer(
                pre,
                docs,
                e,
            ) && !seen_in(pre.layers, e) by {
                lemma_new_members_are_linked_and_new(pre, docs, e);
            }
            if pairwise_disjoint(pre.layers) {
                lemma_round_keeps_layers_disjoint(pre, docs);
            }
        }
        Ok(())
    }
}

/// The targets of a longer prefix of redirects: one more target.
proof fn lemma_targets_take(rs: Seq<Redirect>, i: int)
    requires
        0 <= i < rs.len(),
    ensures
        redirect_targets(rs.take(i + 1)) == redirect_targets(rs.take(i)).insert(rs[i].1),
{
    let before = redirect_targets(rs.take(i));
    let after = redirect_targets(rs.take(i + 1));
    assert(rs.take(i + 1)[i] == rs[i]);
    assert forall|e: Seq<char>| after.contains(e) <==> #[trigger] before.insert(rs[i].1).contains(e) by {
        if after.contains(e) {
            let w = choose|w: int| 0 <= w < i + 1 && (#[trigger] rs.take(i + 1)[w]).1 == e;
            if w < i {
                assert(rs.take(i)[w] == rs.take(i + 1)[w]);
            }
        }
        if before.contains(e) {
            let w = choose|w: int| 0 <= w < i && (#[trigger] rs.take(i)[w]).1 == e;
            assert(rs.take(i + 1)[w] == rs.take(i)[w]);
        }
    }
    assert(after =~= before.insert(rs[i].1));
}

/// The sources of a longer prefix of redirects: one more source.
proof fn lemma_sources_take(rs: Seq<Redirect>, i: int)
    requires
        0 <= i < rs.len(),
    ensures
        redirect_sources(rs.take(i + 1)) == redirect_sources(rs.take(i)).insert(rs[i].0),
{
    let before = redirect_sources(rs.take(i));
    let after = redirect_sources(rs.take(i + 1));
    assert(rs.take(i + 1)[i] == rs[i]);
    assert forall|e: Seq<char>| after.contains(e) <==> #[trigger] before.insert(rs[i].0).contains(e) by {
        if after.contains(e) {
            let w = choose|w: int| 0 <= w < i + 1 && (#[trigger] rs.take(i + 1)[w]).0 == e;
            if w < i {
                assert(rs.take(i)[w] == rs.take(i + 1)[w]);
            }
        }
        if before.contains(e) {
            let w = choose|w: int| 0 <= w < i && (#[trigger] rs.take(i)[w]).0 == e;
            assert(rs.take(i + 1)[w] == rs.take(i)[w]);
        }
    }
    assert(after =~= before.insert(rs[i].0));
}

/// Whether no endpoint stands in two layers.
pub open spec fn pairwise_disjoint(layers: Seq<EndpointSet>) -> bool {
    forall|i: int, j: int|
        0 <= i < layers.len() && 0 <= j < layers.len() && i != j ==> (#[trigger] layers[i]).disjoint(
            #[trigger] layers[j],
        )
}

/// Whether every fetch of a round succeeded.
pub open spec fn all_fetched(outcomes: Seq<FetchOutcome>) -> bool {
    forall|i: int| 0 <= i < outcomes.len() ==> (#[trigger] outcomes[i]) is Ok
}

/// A run of rounds, the `k`-th merging the outcomes `rounds[k]`, that stops
/// at the first round with a failed fetch: the final state, and whether
/// every round succeeded.
pub open spec fn run_rounds(s: CalcView, rounds: Seq<Seq<FetchOutcome>>) -> (CalcView, bool)
    decreases rounds.len(),
{
    if rounds.len() == 0 {
        (s, true)
    } else if !all_fetched(rounds[0]) {
        (s, false)
    } else {
        run_rounds(next_round(s, articles_of(rounds[0])), rounds.drop_first())
    }
}

/// A calculator seeded from an origin article starts with disjoint layers:
/// the origin does not reappear among its neighbors.
pub proof fn lemma_seeded_layers_disjoint(origin: Seq<char>, links: Seq<Seq<char>>)
    ensures
        pairwise_disjoint(seq![set![origin], found_in_links(initial(origin), links)]),
{
    let ls = seq![set![origin], found_in_links(initial(origin), links)];
    assert(initial(origin).layers[0].contains(origin));
    assert(!ls[1].contains(origin));
    assert(ls[0].disjoint(ls[1]));
    assert(ls[1].disjoint(ls[0]));
}

/// The keys that recording a round's redirects can add are endpoints that
/// the round's articles were fetched for.
proof fn lemma_recorded_keys(r: EndpointMap, docs: Seq<ArticleView>, k: Seq<char>)
    requires
        record_redirects(r, redirects_found(docs)).contains_key(k),
    ensures
        r.contains_key(k) || requested_of(docs).contains(k),
    decreases docs.len(),
{
    if docs.len() > 0 {
        let front = docs.drop_last();
        let p = record_redirects(r, redirects_found(front));
        let d = docs.last();
        if d.requested != d.endpoint {
            let rs = redirects_found(docs);
            assert(rs.drop_last() =~= redirects_found(front));
        }
        if p.contains_key(k) {
            lemma_recorded_keys(r, front, k);
            if !r.contains_key(k) {
                let w = choose|w: int| 0 <= w < requested_of(front).len() && requested_of(front)[w] == k;
                assert(requested_of(docs)[w] == k);
            }
        } else {
            assert(k == d.requested);
            assert(requested_of(docs)[docs.len() - 1] == k);
        }
    }
}

/// Recording a round's redirects, where each article answers a different
/// endpoint, maps every redirected endpoint that was no key yet to the
/// endpoint it was served as.
proof fn lemma_recorded_targets(r: EndpointMap, docs: Seq<ArticleView>, i: int)
    requires
        requested_of(docs).no_duplicates(),
        0 <= i < docs.len(),
        docs[i].requested != docs[i].endpoint,
        !r.contains_key(docs[i].requested),
    ensures
        record_redirects(r, redirects_found(docs)).contains_key(docs[i].requested),
        record_redirects(r, redirects_found(docs))[docs[i].requested] == docs[i].endpoint,
    decreases docs.len(),
{
    let front = docs.drop_last();
    let p = record_redirects(r, redirects_found(front));
    let d = docs.last();
    if d.requested != d.endpoint {
        let rs = redirects_found(docs);
        assert(rs.drop_last() =~= redirects_found(front));
    }
    assert forall|a: int, b: int|
        0 <= a < requested_of(front).len() && 0 <= b < requested_of(front).len() && a != b implies requested_of(
        front,
    )[a] != requested_of(front)[b] by {
        assert(requested_of(front)[a] == requested_of(docs)[a]);
        assert(requested_of(front)[b] == requested_of(docs)[b]);
    }
    if i < docs.len() - 1 {
        assert(front[i] == docs[i]);
        lemma_recorded_targets(r, front, i);
        assert(requested_of(docs)[i] != requested_of(docs)[docs.len() - 1]);
    } else if p.contains_key(d.requested) {
        lemma_recorded_keys(r, front, d.requested);
        let w = choose|w: int| 0 <= w < requested_of(front).len() && requested_of(front)[w] == d.requested;
        assert(requested_of(docs)[w] == requested_of(docs)[docs.len() - 1]);
    }
}

/// A successful round that reveals a redirect records it, unless its source
/// was already a key, and in the processed layer replaces the source by the
/// target, unless the target is itself a source of the round or stands in an
/// earlier layer.
pub proof fn lemma_round_records_redirect(s: CalcView, docs: Seq<ArticleView>, i: int)
    requires
        s.layers.len() >= 1,
        answers_layer(docs, s.layers.last()),
        0 <= i < docs.len(),
        docs[i].requested != docs[i].endpoint,
    ensures
        !s.redirects.contains_key(docs[i].requested) ==> next_round(s, docs).redirects.contains_key(
            docs[i].requested,
        ) && next_round(s, docs).redirects[docs[i].requested] == docs[i].endpoint,
        !next_round(s, docs).layers[s.layers.len() - 1].contains(docs[i].requested),
        !redirect_sources(redirects_found(docs)).contains(docs[i].endpoint) && !earlier_members(
            s.layers,
        ).contains(docs[i].endpoint) ==> next_round(s, docs).layers[s.layers.len() - 1].contains(
            docs[i].endpoint,
        ),
    decreases docs.len(),
{
    lemma_redirects_found_has(docs, i);
    let j = choose|j: int|
        0 <= j < redirects_found(docs).len() && #[trigger] redirects_found(docs)[j] == (
            docs[i].requested,
            docs[i].endpoint,
        );
    assert(redirect_targets(redirects_found(docs)).contains(docs[i].endpoint));
    assert(redirect_sources(redirects_found(docs)).contains(docs[i].requested));
    if !s.redirects.contains_key(docs[i].requested) {
        lemma_recorded_targets(s.redirects, docs, i);
    }
}

/// Each redirect that an article reveals is among the round's redirects.
proof fn lemma_redirects_found_has(docs: Seq<ArticleView>, i: int)
    requires
        0 <= i < docs.len(),
        docs[i].requested != docs[i].endpoint,
    ensures
        exists|j: int|
            0 <= j < redirects_found(docs).len() && #[trigger] redirects_found(docs)[j] == (
                docs[i].requested,
                docs[i].endpoint,
            ),
    decreases docs.len(),
{
    let front = docs.drop_last();
    let rs = redirects_found(docs);
    let d = docs.last();
    if d.requested != d.endpoint {
        assert(rs.drop_last() =~= redirects_found(front));
    }
    if i < docs.len() - 1 {
        assert(front[i] == docs[i]);
        lemma_redirects_found_has(front, i);
        let j = choose|j: int|
            0 <= j < redirects_found(front).len() && #[trigger] redirects_found(front)[j] == (
                docs[i].requested,
                docs[i].endpoint,
            );
        assert(rs[j] == redirects_found(front)[j]);
    } else {
        assert(rs[rs.len() - 1] == (d.requested, d.endpoint));
    }
}

/// A link whose endpoint, resolved through the known redirects, already
/// stands in a layer does not enter the new layer; nor does any endpoint
/// that already stands in a layer.
pub proof fn lemma_known_link_is_excluded(s: CalcView, docs: Seq<ArticleView>, o: Seq<char>)
    requires
        s.layers.len() >= 1,
        seen_in(s.layers, canonical(s.redirects, o)),
    ensures
        !next_round(s, docs).layers.last().contains(canonical(s.redirects, o)),
        seen_in(s.layers, o) ==> !next_round(s, docs).layers.last().contains(o),
{
    let n = next_round(s, docs);
    assert(n.layers.last() == discovered(s, docs).difference(kept_targets(s, docs)));
    assert forall|e: Seq<char>| seen_in(s.layers, e) implies !#[trigger] discovered(s, docs).contains(e) by {
        if discovered(s, docs).contains(e) {
            let w = choose|w: int| 0 <= w < docs.len() && #[trigger] found_in_links(s, docs[w].links).contains(e);
        }
    }
}

/// A round keeps the layers pairwise disjoint.
pub proof fn lemma_round_keeps_layers_disjoint(s: CalcView, docs: Seq<ArticleView>)
    requires
        s.layers.len() >= 1,
        pairwise_disjoint(s.layers),
    ensures
        pairwise_disjoint(next_round(s, docs).layers),
{
    let t = next_round(s, docs);
    let n = s.layers.len() - 1;
    let d = discovered(s, docs);
    let k = kept_targets(s, docs);
    assert forall|e: Seq<char>| #[trigger] d.contains(e) implies !seen_in(s.layers, e) by {
        let w = choose|w: int| 0 <= w < docs.len() && #[trigger] found_in_links(s, docs[w].links).contains(e);
    }
    assert forall|i: int, j: int|
        0 <= i < t.layers.len() && 0 <= j < t.layers.len() && i != j implies (#[trigger] t.layers[i]).disjoint(
        #[trigger] t.layers[j],
    ) by {
        assert forall|e: Seq<char>| t.layers[i].contains(e) implies !t.layers[j].contains(e) by {
            if t.layers[j].contains(e) {
                let lo = if i < j { i } else { j };
                let hi = if i < j { j } else { i };
                assert(t.layers[lo].contains(e) && t.layers[hi].contains(e));
                if hi < n {
                    assert(s.layers[i].disjoint(s.layers[j]));
                    assert(s.layers[i].contains(e) && s.layers[j].contains(e));
                } else if hi == n {
                    // the processed layer holds old members and kept targets
                    assert(s.layers[lo].contains(e));
                    assert(earlier_members(s.layers).contains(e));
                    if !k.contains(e) {
                        assert(s.layers[n].contains(e));
                        assert(s.layers[lo].disjoint(s.layers[n]));
                    }
                } else {
                    // the new layer holds discovered endpoints that no layer held
                    assert(d.contains(e) && !k.contains(e));
                    if lo < n {
                        assert(s.layers[lo].contains(e));
                    } else {
                        if !k.contains(e) {
                            assert(s.layers[n].contains(e));
                        }
                    }
                }
            }
        }
    }
}

/// A run of rounds keeps the layers pairwise disjoint.
pub proof fn lemma_run_keeps_layers_disjoint(s: CalcView, rounds: Seq<Seq<FetchOutcome>>)
    requires
        s.layers.len() >= 1,
        pairwise_disjoint(s.layers),
    ensures
        pairwise_disjoint(run_rounds(s, rounds).0.layers),
    decreases rounds.len(),
{
    if rounds.len() > 0 && all_fetched(rounds[0]) {
        let docs = articles_of(rounds[0]);
        lemma_round_keeps_layers_disjoint(s, docs);
        lemma_run_keeps_layers_disjoint(next_round(s, docs), rounds.drop_first());
    }
}

/// Every member of the layer that a round adds is the resolved target of a
/// link of an article fetched for the processed layer, and stood in no layer
/// when the round began.
pub proof fn lemma_new_members_are_linked_and_new(
    s: CalcView,
    docs: Seq<ArticleView>,
    e: Seq<char>,
)
    requires
        s.layers.len() >= 1,
        forall|d: int| 0 <= d < docs.len() ==> s.layers.last().contains((#[trigger] docs[d]).requested),
        next_round(s, docs).layers.last().contains(e),
    ensures
        exists|d: int, k: int|
            0 <= d < docs.len() && 0 <= k < docs[d].links.len() && s.layers.last().contains(
                docs[d].requested,
            ) && e == canonical(s.redirects, #[trigger] docs[d].links[k]),
        forall|j: int| 0 <= j < s.layers.len() ==> !(#[trigger] s.layers[j]).contains(e),
{
    assert(next_round(s, docs).layers.last() == discovered(s, docs).difference(kept_targets(s, docs)));
    let d = choose|d: int| 0 <= d < docs.len() && #[trigger] found_in_links(s, docs[d].links).contains(e);
    let k = choose|k: int|
        0 <= k < docs[d].links.len() && e == canonical(s.redirects, #[trigger] docs[d].links[k])
            && !seen_in(s.layers, e);
    assert(s.layers.last().contains(docs[d].requested));
}

/// Recording redirects never changes or removes an entry that was there.
pub proof fn lemma_record_keeps_entries(r: EndpointMap, rs: Seq<Redirect>)
    ensures
        forall|k: Seq<char>|
            #[trigger] r.contains_key(k) ==> record_redirects(r, rs).contains_key(k)
                && record_redirects(r, rs)[k] == r[k],
    decreases rs.len(),
{
    if rs.len() > 0 {
        lemma_record_keeps_entries(r, rs.drop_last());
    }
}

/// A successful round keeps every known redirect with the target it had.
pub proof fn lemma_round_keeps_redirects(s: CalcView, docs: Seq<ArticleView>)
    ensures
        forall|k: Seq<char>|
            #[trigger] s.redirects.contains_key(k) ==> next_round(s, docs).redirects.contains_key(k)
                && next_round(s, docs).redirects[k] == s.redirects[k],
{
    lemma_record_keeps_entries(s.redirects, redirects_found(docs));
}

/// A run of rounds adds one layer per successful round: all of them if every
/// round succeeds, and otherwise exactly those before the first failed one.
pub proof fn lemma_rounds_add_one_layer_each(s: CalcView, rounds: Seq<Seq<FetchOutcome>>)
    requires
        s.layers.len() >= 1,
    ensures
        run_rounds(s, rounds).1 ==> run_rounds(s, rounds).0.layers.len() == s.layers.len()
            + rounds.len(),
        !run_rounds(s, rounds).1 ==> exists|k: int|
            0 <= k < rounds.len() && !all_fetched(#[trigger] rounds[k])
                && (forall|j: int| 0 <= j < k ==> all_fetched(#[trigger] rounds[j]))
                && run_rounds(s, rounds).0.layers.len() == s.layers.len() + k,
    decreases rounds.len(),
{
    if rounds.len() > 0 && all_fetched(rounds[0]) {
        let t = next_round(s, articles_of(rounds[0]));
        let rest = rounds.drop_first();
        lemma_rounds_add_one_layer_each(t, rest);
        if !run_rounds(s, rounds).1 {
            let k = choose|k: int|
                0 <= k < rest.len() && !all_fetched(#[trigger] rest[k]) && (forall|j: int|
                    0 <= j < k ==> all_fetched(#[trigger] rest[j])) && run_rounds(t, rest).0.layers.len()
                    == t.layers.len() + k;
            assert(rounds[k + 1] == rest[k]);
            assert forall|j: int| 0 <= j < k + 1 implies all_fetched(#[trigger] rounds[j]) by {
                if j > 0 {
                    assert(rounds[j] == rest[j - 1]);
                }
            }
        }
    } else if rounds.len() > 0 {
        assert(!all_fetched(rounds[0]));
    }
}

} // verus!
