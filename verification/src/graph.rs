//! The wiki link graph: one node per page, one edge per pair of pages that
//! link to each other, and the filtered view a client asks for. Reading
//! the page files is the caller's part; this module works on their text.
use vstd::prelude::*;

use crate::http::{
    extract_type, extract_wikilinks, resolve_link, spec_extract_type, spec_extract_wikilinks,
    spec_resolve_link, strings_view,
};
use crate::search::{extract_title, spec_extract_title};
use crate::tasks::opt_string_view;
use crate::text::{chars_of, contains_seq, ends_with, lex_lt, lowercase, string_of};

verus! {

/// A markdown file under the wiki directory, as read from disk.
pub struct GraphSource {
    /// The file's name, ending in `.md`.
    pub file_name: String,
    /// The file's path relative to the project root.
    pub path: String,
    pub content: String,
}

pub struct SourceView {
    pub file_name: Seq<char>,
    pub path: Seq<char>,
    pub content: Seq<char>,
}

impl View for GraphSource {
    type V = SourceView;

    open spec fn view(&self) -> SourceView {
        SourceView { file_name: self.file_name@, path: self.path@, content: self.content@ }
    }
}

pub open spec fn sources_view(v: Seq<GraphSource>) -> Seq<SourceView> {
    v.map_values(|s: GraphSource| s@)
}

/// A page of the graph: its id (the file stem), title, type, path and the
/// targets of its wikilinks.
pub struct PageView {
    pub id: Seq<char>,
    pub title: Seq<char>,
    pub node_type: Seq<char>,
    pub path: Seq<char>,
    pub links: Seq<Seq<char>>,
}

struct Page {
    id: String,
    title: String,
    node_type: String,
    path: String,
    links: Vec<String>,
}

impl View for Page {
    type V = PageView;

    closed spec fn view(&self) -> PageView {
        PageView {
            id: self.id@,
            title: self.title@,
            node_type: self.node_type@,
            path: self.path@,
            links: strings_view(self.links@),
        }
    }
}

spec fn pages_view(v: Seq<Page>) -> Seq<PageView> {
    v.map_values(|p: Page| p@)
}

/// Whether a source makes a page: its name ends in `.md` after a non-empty
/// stem.
pub open spec fn is_page(src: SourceView) -> bool {
    src.file_name.len() > 3 && ends_with(src.file_name, ".md"@)
}

pub open spec fn page_of(src: SourceView) -> PageView {
    PageView {
        id: src.file_name.subrange(0, src.file_name.len() - 3),
        title: spec_extract_title(src.content, src.file_name),
        node_type: spec_extract_type(src.content),
        path: src.path,
        links: spec_extract_wikilinks(src.content),
    }
}

/// The first position whose id is not below `id`.
pub open spec fn page_insert_pos(s: Seq<PageView>, id: Seq<char>) -> int
    decreases s.len(),
{
    if s.len() == 0 || !lex_lt(s[0].id, id) {
        0
    } else {
        1 + page_insert_pos(s.drop_first(), id)
    }
}

/// The insert of an ordered map keyed by id: the page with the same id is
/// replaced, else `p` goes in at its place.
pub open spec fn put_page(s: Seq<PageView>, p: PageView) -> Seq<PageView> {
    let k = page_insert_pos(s, p.id);
    if 0 <= k < s.len() && s[k].id == p.id {
        s.update(k, p)
    } else {
        s.insert(k, p)
    }
}

pub open spec fn pages_ordered(s: Seq<PageView>) -> bool {
    forall|i: int, j: int| 0 <= i < j < s.len() ==> lex_lt(#[trigger] s[i].id, #[trigger] s[j].id)
}

/// The pages of the sources, in id order; of two files with the same stem
/// the later one counts.
pub open spec fn graph_pages(srcs: Seq<SourceView>) -> Seq<PageView>
    decreases srcs.len(),
{
    if srcs.len() == 0 {
        Seq::empty()
    } else {
        let r = graph_pages(srcs.drop_last());
        if is_page(srcs.last()) {
            put_page(r, page_of(srcs.last()))
        } else {
            r
        }
    }
}

pub proof fn lemma_page_insert_pos(s: Seq<PageView>, id: Seq<char>)
    ensures
        0 <= page_insert_pos(s, id) <= s.len(),
        forall|i: int| 0 <= i < page_insert_pos(s, id) ==> lex_lt(#[trigger] s[i].id, id),
        page_insert_pos(s, id) < s.len() ==> !lex_lt(s[page_insert_pos(s, id)].id, id),
    decreases s.len(),
{
    if s.len() > 0 && lex_lt(s[0].id, id) {
        lemma_page_insert_pos(s.drop_first(), id);
        let k = page_insert_pos(s, id);
        assert forall|i: int| 0 <= i < k implies lex_lt(#[trigger] s[i].id, id) by {
            if i > 0 {
                assert(s[i] == s.drop_first()[i - 1]);
            }
        }
    }
}

pub proof fn lemma_put_page_ordered(s: Seq<PageView>, p: PageView)
    requires
        pages_ordered(s),
    ensures
        pages_ordered(put_page(s, p)),
{
    let key = p.id;
    let k = page_insert_pos(s, key);
    lemma_page_insert_pos(s, key);
    let r = put_page(s, p);
    if 0 <= k < s.len() && s[k].id == key {
        assert forall|i: int, j: int| 0 <= i < j < r.len() implies lex_lt(#[trigger] r[i].id, #[trigger] r[j].id) by {
            assert(r[i].id == s[i].id);
            assert(r[j].id == s[j].id);
        }
    } else {
        assert forall|i: int, j: int| 0 <= i < j < r.len() implies lex_lt(#[trigger] r[i].id, #[trigger] r[j].id) by {
            if k < s.len() {
                crate::text::lemma_lex_trichotomy(s[k].id, key);
            }
            if j == k {
                assert(lex_lt(s[i].id, key));
            } else if i == k {
                assert(r[j] == s[j - 1]);
                if j - 1 > k {
                    crate::text::lemma_lex_transitive(key, s[k].id, s[j - 1].id);
                }
            } else if i < k && j < k {
            } else if i < k && j > k {
                assert(r[j] == s[j - 1]);
            } else {
                assert(r[i] == s[i - 1]);
                assert(r[j] == s[j - 1]);
            }
        }
    }
}

/// The pages of a list of sources are in strictly increasing id order.
pub proof fn lemma_graph_pages_ordered(srcs: Seq<SourceView>)
    ensures
        pages_ordered(graph_pages(srcs)),
    decreases srcs.len(),
{
    if srcs.len() > 0 {
        lemma_graph_pages_ordered(srcs.drop_last());
        if is_page(srcs.last()) {
            lemma_put_page_ordered(graph_pages(srcs.drop_last()), page_of(srcs.last()));
        }
    }
}

fn put_page_vec(v: &mut Vec<Page>, p: Page)
    ensures
        pages_view(final(v)@) == put_page(pages_view(old(v)@), p@),
{
    let key = chars_of(p.id.as_str());
    let ghost s = pages_view(v@);
    let mut k: usize = 0;
    assert(s.subrange(0, s.len() as int) =~= s);
    while k < v.len()
        invariant
            k <= v@.len(),
            s == pages_view(v@),
            key@ == p@.id,
            page_insert_pos(s, key@) == k + page_insert_pos(s.subrange(k as int, s.len() as int), key@),
        ensures
            k <= v@.len(),
            s == pages_view(v@),
            page_insert_pos(s, key@) == k + page_insert_pos(s.subrange(k as int, s.len() as int), key@),
            k < v@.len() ==> !lex_lt(s[k as int].id, key@),
        decreases v@.len() - k,
    {
        let kk = chars_of(v[k].id.as_str());
        if !crate::text::lex_less(kk.as_slice(), key.as_slice()) {
            break;
        }
        assert(s.subrange(k as int, s.len() as int).drop_first() =~= s.subrange(k + 1, s.len() as int));
        k += 1;
    }
    proof {
        if k < v@.len() {
            assert(s.subrange(k as int, s.len() as int)[0] == s[k as int]);
            assert(page_insert_pos(s.subrange(k as int, s.len() as int), key@) == 0);
        } else {
            assert(s.subrange(k as int, s.len() as int).len() == 0);
        }
    }
    if k < v.len() && crate::text::same_chars(chars_of(v[k].id.as_str()).as_slice(), key.as_slice()) {
        v.set(k, p);
        assert(pages_view(v@) =~= s.update(k as int, p@));
    } else {
        v.insert(k, p);
        assert(pages_view(v@) =~= s.insert(k as int, p@));
    }
}

/// The pages of the sources (see `graph_pages`).
fn collect_pages(sources: &[GraphSource]) -> (r: Vec<Page>)
    ensures
        pages_view(r@) == graph_pages(sources_view(sources@)),
{
    let ghost srcs = sources_view(sources@);
    let mut pages: Vec<Page> = Vec::new();
    let mut i: usize = 0;
    assert(srcs.subrange(0, 0) =~= Seq::<SourceView>::empty());
    assert(pages_view(pages@) =~= Seq::<PageView>::empty());
    while i < sources.len()
        invariant
            i <= sources@.len(),
            srcs == sources_view(sources@),
            pages_view(pages@) == graph_pages(srcs.subrange(0, i as int)),
        decreases sources@.len() - i,
    {
        let src = &sources[i];
        proof {
            assert(srcs.subrange(0, i + 1).drop_last() =~= srcs.subrange(0, i as int));
            assert(srcs.subrange(0, i + 1).last() == srcs[i as int]);
        }
        let name = chars_of(src.file_name.as_str());
        let n = name.len();
        if n > 3 && crate::text::has_suffix(name.as_slice(), chars_of(".md").as_slice()) {
            let id = string_of(crate::text::slice_chars(name.as_slice(), 0, n - 3).as_slice());
            let page = Page {
                id,
                title: extract_title(src.content.as_str(), src.file_name.as_str()),
                node_type: extract_type(src.content.as_str()),
                path: src.path.clone(),
                links: extract_wikilinks(src.content.as_str()),
            };
            assert(page@ == page_of(srcs[i as int]));
            put_page_vec(&mut pages, page);
        }
        i += 1;
    }
    assert(srcs.subrange(0, srcs.len() as int) =~= srcs);
    pages
}


/// An undirected link between two pages, as first found: from `source`.
pub struct EdgeView {
    pub source: Seq<char>,
    pub target: Seq<char>,
}

/// An edge of the graph.
pub struct GraphEdge {
    pub source: String,
    pub target: String,
}

impl View for GraphEdge {
    type V = EdgeView;

    open spec fn view(&self) -> EdgeView {
        EdgeView { source: self.source@, target: self.target@ }
    }
}

pub open spec fn edges_view(v: Seq<GraphEdge>) -> Seq<EdgeView> {
    v.map_values(|e: GraphEdge| e@)
}

/// The key that tells edges apart: the two ids, smaller first, joined by
/// `::`.
pub open spec fn edge_key(a: Seq<char>, b: Seq<char>) -> Seq<char> {
    if lex_lt(a, b) {
        a + "::"@ + b
    } else {
        b + "::"@ + a
    }
}

pub open spec fn has_edge_key(edges: Seq<EdgeView>, k: Seq<char>) -> bool {
    exists|i: int| 0 <= i < edges.len() && #[trigger] edge_key(edges[i].source, edges[i].target) == k
}

/// The edges after the link `link` of page `source`: a link to a page,
/// other than the page itself, whose key is new adds an edge.
pub open spec fn link_step(edges: Seq<EdgeView>, source: Seq<char>, link: Seq<char>, ids: Seq<Seq<char>>) -> Seq<
    EdgeView,
> {
    match spec_resolve_link(link, ids) {
        None => edges,
        Some(t) => if t == source || has_edge_key(edges, edge_key(source, t)) {
            edges
        } else {
            edges.push(EdgeView { source, target: t })
        },
    }
}

pub open spec fn links_edges(
    edges: Seq<EdgeView>,
    source: Seq<char>,
    links: Seq<Seq<char>>,
    ids: Seq<Seq<char>>,
) -> Seq<EdgeView>
    decreases links.len(),
{
    if links.len() == 0 {
        edges
    } else {
        link_step(links_edges(edges, source, links.drop_last(), ids), source, links.last(), ids)
    }
}

pub open spec fn pages_edges(pages: Seq<PageView>, ids: Seq<Seq<char>>) -> Seq<EdgeView>
    decreases pages.len(),
{
    if pages.len() == 0 {
        Seq::empty()
    } else {
        links_edges(pages_edges(pages.drop_last(), ids), pages.last().id, pages.last().links, ids)
    }
}

pub open spec fn page_ids(pages: Seq<PageView>) -> Seq<Seq<char>> {
    pages.map_values(|p: PageView| p.id)
}

/// The edges of the pages: their links taken page by page in id order,
/// each link in page order.
pub open spec fn all_edges(pages: Seq<PageView>) -> Seq<EdgeView> {
    pages_edges(pages, page_ids(pages))
}

/// How many edges end at `id`.
pub open spec fn touch_count(edges: Seq<EdgeView>, id: Seq<char>) -> nat
    decreases edges.len(),
{
    if edges.len() == 0 {
        0
    } else {
        let e = edges.last();
        touch_count(edges.drop_last(), id) + if e.source == id || e.target == id {
            1nat
        } else {
            0nat
        }
    }
}

pub struct NodeView {
    pub id: Seq<char>,
    pub label: Seq<char>,
    pub node_type: Seq<char>,
    pub path: Seq<char>,
    pub link_count: nat,
}

/// A node of the graph: a page and the number of its edges.
pub struct GraphNode {
    pub id: String,
    pub label: String,
    pub node_type: String,
    pub path: String,
    pub link_count: usize,
}

impl View for GraphNode {
    type V = NodeView;

    open spec fn view(&self) -> NodeView {
        NodeView {
            id: self.id@,
            label: self.label@,
            node_type: self.node_type@,
            path: self.path@,
            link_count: self.link_count as nat,
        }
    }
}

pub open spec fn nodes_view(v: Seq<GraphNode>) -> Seq<NodeView> {
    v.map_values(|n: GraphNode| n@)
}

pub open spec fn node_of(p: PageView, edges: Seq<EdgeView>) -> NodeView {
    NodeView {
        id: p.id,
        label: p.title,
        node_type: p.node_type,
        path: p.path,
        link_count: touch_count(edges, p.id),
    }
}

/// Whether a node is shown: never a query page; where `q` is given, its
/// lower-case id or label contains `q`; where `node_type` is, it is of
/// that type.
pub open spec fn node_keep(n: NodeView, q: Option<Seq<char>>, node_type: Option<Seq<char>>) -> bool {
    &&& n.node_type != "query"@
    &&& match q {
        Some(q) => contains_seq(lowercase(n.id), q) || contains_seq(lowercase(n.label), q),
        None => true,
    }
    &&& match node_type {
        Some(t) => n.node_type == t,
        None => true,
    }
}

pub open spec fn graph_nodes(
    pages: Seq<PageView>,
    edges: Seq<EdgeView>,
    q: Option<Seq<char>>,
    node_type: Option<Seq<char>>,
) -> Seq<NodeView>
    decreases pages.len(),
{
    if pages.len() == 0 {
        Seq::empty()
    } else {
        let r = graph_nodes(pages.drop_last(), edges, q, node_type);
        let n = node_of(pages.last(), edges);
        if node_keep(n, q, node_type) {
            r.push(n)
        } else {
            r
        }
    }
}

/// The nodes shown for the sources: those `node_keep` admits, in id order,
/// at most `limit` of them.
pub open spec fn spec_graph_nodes(
    srcs: Seq<SourceView>,
    q: Option<Seq<char>>,
    node_type: Option<Seq<char>>,
    limit: nat,
) -> Seq<NodeView> {
    let pages = graph_pages(srcs);
    let all = graph_nodes(pages, all_edges(pages), q, node_type);
    if all.len() > limit {
        all.subrange(0, limit as int)
    } else {
        all
    }
}

pub open spec fn node_listed(nodes: Seq<NodeView>, id: Seq<char>) -> bool {
    exists|i: int| 0 <= i < nodes.len() && #[trigger] nodes[i].id == id
}

/// The edges whose two ends are both shown.
pub open spec fn kept_edges(edges: Seq<EdgeView>, nodes: Seq<NodeView>) -> Seq<EdgeView>
    decreases edges.len(),
{
    if edges.len() == 0 {
        Seq::empty()
    } else {
        let r = kept_edges(edges.drop_last(), nodes);
        let e = edges.last();
        if node_listed(nodes, e.source) && node_listed(nodes, e.target) {
            r.push(e)
        } else {
            r
        }
    }
}

pub open spec fn spec_graph_edges(
    srcs: Seq<SourceView>,
    q: Option<Seq<char>>,
    node_type: Option<Seq<char>>,
    limit: nat,
) -> Seq<EdgeView> {
    kept_edges(all_edges(graph_pages(srcs)), spec_graph_nodes(srcs, q, node_type, limit))
}

/// The graph a client is shown.
pub struct Graph {
    pub nodes: Vec<GraphNode>,
    pub edges: Vec<GraphEdge>,
}

fn edge_key_chars(a: &[char], b: &[char]) -> (r: Vec<char>)
    ensures
        r@ == edge_key(a@, b@),
{
    let mut out: Vec<char> = Vec::new();
    let (x, y) = if crate::text::lex_less(a, b) {
        (a, b)
    } else {
        (b, a)
    };
    let mut i: usize = 0;
    while i < x.len()
        invariant
            i <= x@.len(),
            out@ == x@.subrange(0, i as int),
        decreases x@.len() - i,
    {
        out.push(x[i]);
        i += 1;
        assert(out@ =~= x@.subrange(0, i as int));
    }
    out.push(':');
    out.push(':');
    let ghost mid = out@;
    let mut j: usize = 0;
    while j < y.len()
        invariant
            j <= y@.len(),
            out@ == mid + y@.subrange(0, j as int),
        decreases y@.len() - j,
    {
        out.push(y[j]);
        j += 1;
        assert(out@ =~= mid + y@.subrange(0, j as int));
    }
    assert(x@.subrange(0, x@.len() as int) =~= x@);
    assert(y@.subrange(0, y@.len() as int) =~= y@);
    assert(out@ =~= x@ + "::"@ + y@) by {
        reveal_strlit("::");
    }
    out
}

pub open spec fn keys_match(keys: Seq<Vec<char>>, edges: Seq<GraphEdge>) -> bool {
    &&& keys.len() == edges.len()
    &&& forall|i: int| 0 <= i < keys.len() ==> #[trigger] keys[i]@ == edge_key(edges[i].source@, edges[i].target@)
}

/// Applies `link_step` to the edges found so far, whose keys are `keys`.
fn add_link(edges: &mut Vec<GraphEdge>, keys: &mut Vec<Vec<char>>, source: &String, link: &String, ids: &[String])
    requires
        keys_match(old(keys)@, old(edges)@),
    ensures
        keys_match(final(keys)@, final(edges)@),
        edges_view(final(edges)@) == link_step(edges_view(old(edges)@), source@, link@, strings_view(ids@)),
{
    let target = match resolve_link(link.as_str(), ids) {
        Some(t) => t,
        None => {
            return;
        },
    };
    let sc = chars_of(source.as_str());
    let tc = chars_of(target.as_str());
    if crate::text::same_chars(tc.as_slice(), sc.as_slice()) {
        return;
    }
    let key = edge_key_chars(sc.as_slice(), tc.as_slice());
    let ghost ev = edges_view(edges@);
    let mut i: usize = 0;
    while i < keys.len()
        invariant
            i <= keys@.len(),
            keys_match(keys@, edges@),
            ev == edges_view(edges@),
            key@ == edge_key(source@, target@),
            spec_resolve_link(link@, strings_view(ids@)) == Some(target@),
            target@ != source@,
            forall|j: int| 0 <= j < i ==> edge_key(#[trigger] ev[j].source, ev[j].target) != key@,
        decreases keys@.len() - i,
    {
        if crate::text::same_chars(keys[i].as_slice(), key.as_slice()) {
            assert(edge_key(ev[i as int].source, ev[i as int].target) == key@);
            assert(has_edge_key(ev, edge_key(source@, target@)));
            return;
        }
        i += 1;
    }
    assert(!has_edge_key(ev, key@));
    edges.push(GraphEdge { source: source.clone(), target });
    keys.push(key);
    assert(edges_view(edges@) =~= ev.push(EdgeView { source: source@, target: tc@ }));
}

/// How many edges end at `id`.
fn count_touching(edges: &Vec<GraphEdge>, id: &[char]) -> (r: usize)
    ensures
        r as nat == touch_count(edges_view(edges@), id@),
{
    let ghost ev = edges_view(edges@);
    let mut n: usize = 0;
    let mut i: usize = 0;
    assert(ev.subrange(0, 0) =~= Seq::<EdgeView>::empty());
    while i < edges.len()
        invariant
            i <= edges@.len(),
            ev == edges_view(edges@),
            n as nat == touch_count(ev.subrange(0, i as int), id@),
            n <= i,
        decreases edges@.len() - i,
    {
        proof {
            assert(ev.subrange(0, i + 1).drop_last() =~= ev.subrange(0, i as int));
            assert(ev.subrange(0, i + 1).last() == ev[i as int]);
        }
        let e = &edges[i];
        if crate::text::same_chars(chars_of(e.source.as_str()).as_slice(), id) || crate::text::same_chars(
            chars_of(e.target.as_str()).as_slice(),
            id,
        ) {
            n += 1;
        }
        i += 1;
    }
    assert(ev.subrange(0, ev.len() as int) =~= ev);
    n
}


/// Whether a node with id `id` is among `nodes`.
fn listed(nodes: &Vec<GraphNode>, id: &[char]) -> (r: bool)
    ensures
        r == node_listed(nodes_view(nodes@), id@),
{
    let ghost nv = nodes_view(nodes@);
    let mut i: usize = 0;
    while i < nodes.len()
        invariant
            i <= nodes@.len(),
            nv == nodes_view(nodes@),
            forall|j: int| 0 <= j < i ==> #[trigger] nv[j].id != id@,
        decreases nodes@.len() - i,
    {
        if crate::text::same_chars(chars_of(nodes[i].id.as_str()).as_slice(), id) {
            assert(nv[i as int].id == id@);
            return true;
        }
        i += 1;
    }
    false
}

fn keep_node(n: &GraphNode, q: &Option<Vec<char>>, node_type: &Option<Vec<char>>) -> (r: bool)
    ensures
        r == node_keep(
            n@,
            match q {
                Some(v) => Some(v@),
                None => None,
            },
            match node_type {
                Some(v) => Some(v@),
                None => None,
            },
        ),
{
    let ty = chars_of(n.node_type.as_str());
    if crate::text::same_chars(ty.as_slice(), chars_of("query").as_slice()) {
        return false;
    }
    let q_ok = match q {
        Some(qv) => {
            let lid = chars_of(crate::text::to_lowercase(n.id.as_str()).as_str());
            let llabel = chars_of(crate::text::to_lowercase(n.label.as_str()).as_str());
            crate::text::contains_chars(lid.as_slice(), qv.as_slice()) || crate::text::contains_chars(
                llabel.as_slice(),
                qv.as_slice(),
            )
        },
        None => true,
    };
    let t_ok = match node_type {
        Some(t) => crate::text::same_chars(ty.as_slice(), t.as_slice()),
        None => true,
    };
    q_ok && t_ok
}

fn opt_chars_of(o: &Option<String>) -> (r: Option<Vec<char>>)
    ensures
        (match r {
            Some(v) => Some(v@),
            None => None,
        }) == opt_string_view(*o),
{
    match o {
        Some(s) => Some(chars_of(s.as_str())),
        None => None,
    }
}

/// The link graph of the wiki pages read from `sources`: the nodes that
/// pass the filters (`q`, already lower-case, against each page's
/// lower-case id and title; `node_type` against its type), at most `limit`
/// of them in id order, and the edges between shown nodes.
#[verifier::spinoff_prover]
pub fn build_graph(sources: &[GraphSource], q: Option<String>, node_type: Option<String>, limit: usize) -> (r: Graph)
    ensures
        nodes_view(r.nodes@) == spec_graph_nodes(
            sources_view(sources@),
            opt_string_view(q),
            opt_string_view(node_type),
            limit as nat,
        ),
        edges_view(r.edges@) == spec_graph_edges(
            sources_view(sources@),
            opt_string_view(q),
            opt_string_view(node_type),
            limit as nat,
        ),
{
    let pages = collect_pages(sources);
    let ghost pv = pages_view(pages@);
    let mut ids: Vec<String> = Vec::new();
    let mut i: usize = 0;
    while i < pages.len()
        invariant
            i <= pages@.len(),
            pv == pages_view(pages@),
            strings_view(ids@) == page_ids(pv).subrange(0, i as int),
        decreases pages@.len() - i,
    {
        assert(pv[i as int] == pages@[i as int]@);
        let ghost before = strings_view(ids@);
        let id = pages[i].id.clone();
        assert(id@ == pv[i as int].id);
        ids.push(id);
        assert(strings_view(ids@) =~= before.push(pv[i as int].id));
        i += 1;
        assert(strings_view(ids@) =~= page_ids(pv).subrange(0, i as int));
    }
    assert(page_ids(pv).subrange(0, pv.len() as int) =~= page_ids(pv));
    let ghost idv = strings_view(ids@);
    let mut edges: Vec<GraphEdge> = Vec::new();
    let mut keys: Vec<Vec<char>> = Vec::new();
    let mut p: usize = 0;
    assert(pv.subrange(0, 0) =~= Seq::<PageView>::empty());
    assert(edges_view(edges@) =~= Seq::<EdgeView>::empty());
    while p < pages.len()
        invariant
            p <= pages@.len(),
            pv == pages_view(pages@),
            idv == strings_view(ids@),
            keys_match(keys@, edges@),
            edges_view(edges@) == pages_edges(pv.subrange(0, p as int), idv),
        decreases pages@.len() - p,
    {
        let page = &pages[p];
        assert(pv[p as int] == pages@[p as int]@);
        let ghost base = edges_view(edges@);
        let ghost lv = pv[p as int].links;
        let mut l: usize = 0;
        assert(lv.subrange(0, 0) =~= Seq::<Seq<char>>::empty());
        while l < page.links.len()
            invariant
                l <= page.links@.len(),
                p < pages@.len(),
                pv == pages_view(pages@),
                page@ == pv[p as int],
                lv == strings_view(page.links@),
                idv == strings_view(ids@),
                keys_match(keys@, edges@),
                edges_view(edges@) == links_edges(base, pv[p as int].id, lv.subrange(0, l as int), idv),
            decreases page.links@.len() - l,
        {
            proof {
                assert(lv.subrange(0, l + 1).drop_last() =~= lv.subrange(0, l as int));
                assert(lv.subrange(0, l + 1).last() == lv[l as int]);
            }
            add_link(&mut edges, &mut keys, &page.id, &page.links[l], ids.as_slice());
            l += 1;
        }
        proof {
            assert(lv.subrange(0, lv.len() as int) =~= lv);
            assert(pv.subrange(0, p + 1).drop_last() =~= pv.subrange(0, p as int));
            assert(pv.subrange(0, p + 1).last() == pv[p as int]);
        }
        p += 1;
    }
    assert(pv.subrange(0, pv.len() as int) =~= pv);
    let ghost ev = edges_view(edges@);
    let ghost qv = opt_string_view(q);
    let ghost tv = opt_string_view(node_type);
    proof {
        lemma_graph_pages_ordered(sources_view(sources@));
    }
    let qc = opt_chars_of(&q);
    let tc = opt_chars_of(&node_type);
    let mut nodes: Vec<GraphNode> = Vec::new();
    let mut k: usize = 0;
    assert(nodes_view(nodes@) =~= Seq::<NodeView>::empty());
    while k < pages.len()
        invariant
            k <= pages@.len(),
            pv == pages_view(pages@),
            ev == edges_view(edges@),
            (match qc {
                Some(v) => Some(v@),
                None => None,
            }) == qv,
            (match tc {
                Some(v) => Some(v@),
                None => None,
            }) == tv,
            nodes_view(nodes@) == graph_nodes(pv.subrange(0, k as int), ev, qv, tv),
        decreases pages@.len() - k,
    {
        let page = &pages[k];
        assert(pv[k as int] == pages@[k as int]@);
        let count = count_touching(&edges, chars_of(page.id.as_str()).as_slice());
        let node = GraphNode {
            id: page.id.clone(),
            label: page.title.clone(),
            node_type: page.node_type.clone(),
            path: page.path.clone(),
            link_count: count,
        };
        proof {
            assert(pv.subrange(0, k + 1).drop_last() =~= pv.subrange(0, k as int));
            assert(pv.subrange(0, k + 1).last() == pv[k as int]);
            assert(node@ == node_of(pv[k as int], ev));
        }
        if keep_node(&node, &qc, &tc) {
            let ghost before = nodes_view(nodes@);
            nodes.push(node);
            assert(nodes_view(nodes@) =~= before.push(node_of(pv[k as int], ev)));
        }
        k += 1;
    }
    let ghost all = nodes_view(nodes@);
    nodes.truncate(limit);
    proof {
        assert(pv.subrange(0, pv.len() as int) =~= pv);
        if all.len() > limit {
            assert(nodes_view(nodes@) =~= all.subrange(0, limit as int));
        }
    }
    let ghost shown = nodes_view(nodes@);
    let mut kept: Vec<GraphEdge> = Vec::new();
    let mut e: usize = 0;
    assert(ev.subrange(0, 0) =~= Seq::<EdgeView>::empty());
    assert(edges_view(kept@) =~= Seq::<EdgeView>::empty());
    while e < edges.len()
        invariant
            e <= edges@.len(),
            ev == edges_view(edges@),
            shown == nodes_view(nodes@),
            edges_view(kept@) == kept_edges(ev.subrange(0, e as int), shown),
        decreases edges@.len() - e,
    {
        proof {
            assert(ev.subrange(0, e + 1).drop_last() =~= ev.subrange(0, e as int));
            assert(ev.subrange(0, e + 1).last() == ev[e as int]);
        }
        let edge = &edges[e];
        if listed(&nodes, chars_of(edge.source.as_str()).as_slice()) && listed(
            &nodes,
            chars_of(edge.target.as_str()).as_slice(),
        ) {
            let ghost before = edges_view(kept@);
            kept.push(GraphEdge { source: edge.source.clone(), target: edge.target.clone() });
            assert(edges_view(kept@) =~= before.push(ev[e as int]));
        }
        e += 1;
    }
    assert(ev.subrange(0, ev.len() as int) =~= ev);
    assert(idv == page_ids(pv));
    assert(ev == all_edges(pv));
    Graph { nodes, edges: kept }
}


/// No edge joins a page to itself, and no two edges share a key.
pub open spec fn edges_simple(edges: Seq<EdgeView>) -> bool {
    &&& forall|i: int| 0 <= i < edges.len() ==> #[trigger] edges[i].source != edges[i].target
    &&& forall|i: int, j: int|
        0 <= i < j < edges.len() ==> edge_key(#[trigger] edges[i].source, edges[i].target) != edge_key(
            #[trigger] edges[j].source,
            edges[j].target,
        )
}

proof fn lemma_links_edges_simple(edges: Seq<EdgeView>, source: Seq<char>, links: Seq<Seq<char>>, ids: Seq<Seq<char>>)
    requires
        edges_simple(edges),
    ensures
        edges_simple(links_edges(edges, source, links, ids)),
    decreases links.len(),
{
    if links.len() > 0 {
        lemma_links_edges_simple(edges, source, links.drop_last(), ids);
        let prev = links_edges(edges, source, links.drop_last(), ids);
        let r = links_edges(edges, source, links, ids);
        if r.len() > prev.len() {
            let n = prev.len() as int;
            assert forall|i: int, j: int| 0 <= i < j < r.len() implies edge_key(
                #[trigger] r[i].source,
                r[i].target,
            ) != edge_key(#[trigger] r[j].source, r[j].target) by {
                if j == n {
                    assert(r[i] == prev[i]);
                    if edge_key(r[i].source, r[i].target) == edge_key(r[j].source, r[j].target) {
                        assert(has_edge_key(prev, edge_key(r[j].source, r[j].target)));
                    }
                } else {
                    assert(r[i] == prev[i]);
                    assert(r[j] == prev[j]);
                }
            }
            assert forall|i: int| 0 <= i < r.len() implies #[trigger] r[i].source != r[i].target by {
                if i < n {
                    assert(r[i] == prev[i]);
                }
            }
        }
    }
}

proof fn lemma_pages_edges_simple(pages: Seq<PageView>, ids: Seq<Seq<char>>)
    ensures
        edges_simple(pages_edges(pages, ids)),
    decreases pages.len(),
{
    if pages.len() > 0 {
        lemma_pages_edges_simple(pages.drop_last(), ids);
        lemma_links_edges_simple(pages_edges(pages.drop_last(), ids), pages.last().id, pages.last().links, ids);
    }
}

/// The graph never links a page to itself, and joins two pages by at most
/// one edge, whichever of them holds the link.
pub proof fn lemma_graph_edges_simple(srcs: Seq<SourceView>, q: Option<Seq<char>>, node_type: Option<Seq<char>>, limit: nat)
    ensures
        edges_simple(all_edges(graph_pages(srcs))),
        edges_simple(spec_graph_edges(srcs, q, node_type, limit)),
{
    lemma_pages_edges_simple(graph_pages(srcs), page_ids(graph_pages(srcs)));
    lemma_kept_simple(all_edges(graph_pages(srcs)), spec_graph_nodes(srcs, q, node_type, limit));
}

proof fn lemma_kept_simple(edges: Seq<EdgeView>, nodes: Seq<NodeView>)
    requires
        edges_simple(edges),
    ensures
        edges_simple(kept_edges(edges, nodes)),
        forall|i: int| 0 <= i < kept_edges(edges, nodes).len() ==> exists|j: int| 0 <= j < edges.len() && edges[j] == #[trigger] kept_edges(edges, nodes)[i],
    decreases edges.len(),
{
    if edges.len() > 0 {
        let d = edges.drop_last();
        assert(edges_simple(d)) by {
            assert forall|i: int, j: int| 0 <= i < j < d.len() implies edge_key(#[trigger] d[i].source, d[i].target)
                != edge_key(#[trigger] d[j].source, d[j].target) by {
                assert(d[i] == edges[i] && d[j] == edges[j]);
            }
            assert forall|i: int| 0 <= i < d.len() implies #[trigger] d[i].source != d[i].target by {
                assert(d[i] == edges[i]);
            }
        }
        lemma_kept_simple(d, nodes);
        let prev = kept_edges(d, nodes);
        let r = kept_edges(edges, nodes);
        assert forall|i: int| 0 <= i < r.len() implies exists|j: int| 0 <= j < edges.len() && edges[j] == #[trigger] r[i] by {
            if i < prev.len() {
                assert(r[i] == prev[i]);
                let j = choose|j: int| 0 <= j < d.len() && d[j] == #[trigger] prev[i];
                assert(edges[j] == d[j]);
            } else {
                assert(r[i] == edges[edges.len() - 1]);
            }
        }
        if r.len() > prev.len() {
            let n = prev.len() as int;
            assert forall|i: int, j: int| 0 <= i < j < r.len() implies edge_key(#[trigger] r[i].source, r[i].target)
                != edge_key(#[trigger] r[j].source, r[j].target) by {
                assert(r[i] == prev[i]);
                let a = choose|a: int| 0 <= a < d.len() && d[a] == #[trigger] prev[i];
                assert(edges[a] == d[a]);
                if j == n {
                    assert(r[j] == edges[edges.len() - 1]);
                } else {
                    assert(r[j] == prev[j]);
                    let b = choose|b: int| 0 <= b < d.len() && d[b] == #[trigger] prev[j];
                    assert(edges[b] == d[b]);
                    if a == b {
                        assert(prev[i] == prev[j]);
                    }
                    if a > b {
                        assert(edge_key(edges[b].source, edges[b].target) != edge_key(edges[a].source, edges[a].target));
                    }
                }
            }
            assert forall|i: int| 0 <= i < r.len() implies #[trigger] r[i].source != r[i].target by {
                let j = choose|j: int| 0 <= j < edges.len() && edges[j] == #[trigger] r[i];
                assert(edges[j].source != edges[j].target);
            }
        }
    }
}

proof fn lemma_kept_listed(edges: Seq<EdgeView>, nodes: Seq<NodeView>)
    ensures
        forall|i: int|
            0 <= i < kept_edges(edges, nodes).len() ==> node_listed(nodes, #[trigger] kept_edges(edges, nodes)[i].source)
                && node_listed(nodes, kept_edges(edges, nodes)[i].target),
    decreases edges.len(),
{
    if edges.len() > 0 {
        let d = edges.drop_last();
        lemma_kept_listed(d, nodes);
        let prev = kept_edges(d, nodes);
        let r = kept_edges(edges, nodes);
        assert forall|i: int| 0 <= i < r.len() implies node_listed(nodes, #[trigger] r[i].source) && node_listed(
            nodes,
            r[i].target,
        ) by {
            if i < prev.len() {
                assert(r[i] == prev[i]);
            } else {
                assert(r[i] == edges.last());
            }
        }
    }
}

/// The graph holds at most `limit` nodes, and each of its edges joins two
/// of the nodes it shows.
pub proof fn lemma_graph_edges_join_shown_nodes(
    srcs: Seq<SourceView>,
    q: Option<Seq<char>>,
    node_type: Option<Seq<char>>,
    limit: nat,
)
    ensures
        spec_graph_nodes(srcs, q, node_type, limit).len() <= limit,
        forall|i: int|
            0 <= i < spec_graph_edges(srcs, q, node_type, limit).len() ==> node_listed(
                spec_graph_nodes(srcs, q, node_type, limit),
                #[trigger] spec_graph_edges(srcs, q, node_type, limit)[i].source,
            ) && node_listed(
                spec_graph_nodes(srcs, q, node_type, limit),
                spec_graph_edges(srcs, q, node_type, limit)[i].target,
            ),
{
    let nodes = spec_graph_nodes(srcs, q, node_type, limit);
    lemma_kept_listed(all_edges(graph_pages(srcs)), nodes);
    assert(spec_graph_edges(srcs, q, node_type, limit) == kept_edges(all_edges(graph_pages(srcs)), nodes));
}

/// The other end of an edge seen from `id`.
pub open spec fn other_end(e: EdgeView, id: Seq<char>) -> Seq<char> {
    if e.source == id {
        e.target
    } else {
        e.source
    }
}

/// The pages joined to `id` by an edge.
pub open spec fn neighbours(edges: Seq<EdgeView>, id: Seq<char>) -> Set<Seq<char>>
    decreases edges.len(),
{
    if edges.len() == 0 {
        Set::empty()
    } else {
        let e = edges.last();
        if e.source == id || e.target == id {
            neighbours(edges.drop_last(), id).insert(other_end(e, id))
        } else {
            neighbours(edges.drop_last(), id)
        }
    }
}

proof fn lemma_neighbour_has_edge(edges: Seq<EdgeView>, id: Seq<char>, n: Seq<char>)
    requires
        neighbours(edges, id).contains(n),
    ensures
        exists|i: int|
            0 <= i < edges.len() && (edges[i].source == id || edges[i].target == id) && #[trigger] other_end(
                edges[i],
                id,
            ) == n,
    decreases edges.len(),
{
    let d = edges.drop_last();
    let e = edges.last();
    if (e.source == id || e.target == id) && other_end(e, id) == n {
        assert(edges[edges.len() - 1] == e);
    } else {
        lemma_neighbour_has_edge(d, id, n);
        let i = choose|i: int|
            0 <= i < d.len() && (d[i].source == id || d[i].target == id) && #[trigger] other_end(d[i], id) == n;
        assert(edges[i] == d[i]);
    }
}

proof fn lemma_same_pair_same_key(a: EdgeView, b: EdgeView, id: Seq<char>)
    requires
        a.source == id || a.target == id,
        b.source == id || b.target == id,
        a.source != a.target,
        b.source != b.target,
        other_end(a, id) == other_end(b, id),
    ensures
        edge_key(a.source, a.target) == edge_key(b.source, b.target),
{
    crate::text::lemma_lex_trichotomy(a.source, a.target);
}

/// On simple edges, the edges that touch `id` are as many as the pages
/// they join it to.
proof fn lemma_touch_count_is_neighbours(edges: Seq<EdgeView>, id: Seq<char>)
    requires
        edges_simple(edges),
    ensures
        neighbours(edges, id).finite(),
        touch_count(edges, id) == neighbours(edges, id).len(),
    decreases edges.len(),
{
    if edges.len() > 0 {
        let d = edges.drop_last();
        let e = edges.last();
        assert(edges_simple(d)) by {
            assert forall|i: int| 0 <= i < d.len() implies #[trigger] d[i].source != d[i].target by {
                assert(d[i] == edges[i]);
            }
            assert forall|i: int, j: int| 0 <= i < j < d.len() implies edge_key(#[trigger] d[i].source, d[i].target)
                != edge_key(#[trigger] d[j].source, d[j].target) by {
                assert(d[i] == edges[i] && d[j] == edges[j]);
            }
        }
        lemma_touch_count_is_neighbours(d, id);
        if e.source == id || e.target == id {
            let n = other_end(e, id);
            if neighbours(d, id).contains(n) {
                lemma_neighbour_has_edge(d, id, n);
                let i = choose|i: int|
                    0 <= i < d.len() && (d[i].source == id || d[i].target == id) && #[trigger] other_end(d[i], id)
                        == n;
                assert(d[i] == edges[i]);
                assert(e == edges[edges.len() - 1]);
                lemma_same_pair_same_key(edges[i], e, id);
                assert(false);
            }
        }
    }
}

/// Whether `n` is the node of one of the pages.
pub open spec fn node_of_a_page(n: NodeView, pages: Seq<PageView>, edges: Seq<EdgeView>) -> bool {
    exists|i: int| 0 <= i < pages.len() && n == node_of(#[trigger] pages[i], edges)
}

proof fn lemma_graph_nodes_shown(
    pages: Seq<PageView>,
    edges: Seq<EdgeView>,
    q: Option<Seq<char>>,
    node_type: Option<Seq<char>>,
)
    requires
        pages_ordered(pages),
    ensures
        ({
            let nodes = graph_nodes(pages, edges, q, node_type);
            &&& forall|k: int|
                0 <= k < nodes.len() ==> node_keep(#[trigger] nodes[k], q, node_type) && nodes[k].link_count
                    == touch_count(edges, nodes[k].id) && node_of_a_page(nodes[k], pages, edges)
            &&& forall|a: int, b: int| 0 <= a < b < nodes.len() ==> lex_lt(#[trigger] nodes[a].id, #[trigger] nodes[b].id)
        }),
    decreases pages.len(),
{
    if pages.len() > 0 {
        let d = pages.drop_last();
        assert(pages_ordered(d)) by {
            assert forall|i: int, j: int| 0 <= i < j < d.len() implies lex_lt(#[trigger] d[i].id, #[trigger] d[j].id) by {
                assert(d[i] == pages[i] && d[j] == pages[j]);
            }
        }
        lemma_graph_nodes_shown(d, edges, q, node_type);
        let r = graph_nodes(d, edges, q, node_type);
        let nodes = graph_nodes(pages, edges, q, node_type);
        let n = node_of(pages.last(), edges);
        assert forall|k: int| 0 <= k < r.len() implies node_of_a_page(#[trigger] r[k], pages, edges) by {
            let i = choose|i: int| 0 <= i < d.len() && r[k] == node_of(#[trigger] d[i], edges);
            assert(pages[i] == d[i]);
        }
        if node_keep(n, q, node_type) {
            assert(nodes == r.push(n));
            assert(pages[pages.len() - 1] == pages.last());
            assert forall|a: int, b: int| 0 <= a < b < nodes.len() implies lex_lt(
                #[trigger] nodes[a].id,
                #[trigger] nodes[b].id,
            ) by {
                if b == nodes.len() - 1 {
                    assert(node_of_a_page(r[a], d, edges));
                    let i = choose|i: int| 0 <= i < d.len() && r[a] == node_of(#[trigger] d[i], edges);
                    assert(pages[i] == d[i]);
                    assert(lex_lt(pages[i].id, pages[pages.len() - 1].id));
                } else {
                    assert(nodes[a] == r[a] && nodes[b] == r[b]);
                }
            }
            assert forall|k: int| 0 <= k < nodes.len() implies node_keep(#[trigger] nodes[k], q, node_type)
                && nodes[k].link_count == touch_count(edges, nodes[k].id) && node_of_a_page(nodes[k], pages, edges) by {
                if k == nodes.len() - 1 {
                    assert(nodes[k] == node_of(pages[pages.len() - 1], edges));
                } else {
                    assert(nodes[k] == r[k]);
                }
            }
        }
    }
}

/// Every node the graph shows passes the filters (never a query page; its
/// lower-case id or label holds `q`; of type `node_type`), the nodes come
/// in strictly increasing id order, and each node's link count is the
/// number of distinct pages it is linked with.
pub proof fn lemma_graph_nodes_filtered_ordered_counted(
    srcs: Seq<SourceView>,
    q: Option<Seq<char>>,
    node_type: Option<Seq<char>>,
    limit: nat,
)
    ensures
        ({
            let nodes = spec_graph_nodes(srcs, q, node_type, limit);
            let edges = all_edges(graph_pages(srcs));
            &&& forall|k: int|
                0 <= k < nodes.len() ==> node_keep(#[trigger] nodes[k], q, node_type) && neighbours(
                    edges,
                    nodes[k].id,
                ).finite() && nodes[k].link_count == neighbours(edges, nodes[k].id).len()
            &&& forall|a: int, b: int| 0 <= a < b < nodes.len() ==> lex_lt(#[trigger] nodes[a].id, #[trigger] nodes[b].id)
        }),
{
    let pages = graph_pages(srcs);
    let edges = all_edges(pages);
    lemma_graph_pages_ordered(srcs);
    lemma_graph_nodes_shown(pages, edges, q, node_type);
    lemma_pages_edges_simple(pages, page_ids(pages));
    let all = graph_nodes(pages, edges, q, node_type);
    let nodes = spec_graph_nodes(srcs, q, node_type, limit);
    assert forall|k: int| 0 <= k < nodes.len() implies node_keep(#[trigger] nodes[k], q, node_type) && neighbours(
        edges,
        nodes[k].id,
    ).finite() && nodes[k].link_count == neighbours(edges, nodes[k].id).len() by {
        assert(nodes[k] == all[k]);
        lemma_touch_count_is_neighbours(edges, nodes[k].id);
    }
    assert forall|a: int, b: int| 0 <= a < b < nodes.len() implies lex_lt(#[trigger] nodes[a].id, #[trigger] nodes[b].id) by {
        assert(nodes[a] == all[a] && nodes[b] == all[b]);
    }
}

proof fn lemma_matching_page_listed(
    pages: Seq<PageView>,
    edges: Seq<EdgeView>,
    q: Option<Seq<char>>,
    node_type: Option<Seq<char>>,
    i: int,
)
    requires
        0 <= i < pages.len(),
        pages[i].node_type != "query"@,
        q matches Some(qq) ==> contains_seq(lowercase(pages[i].id), qq),
        node_type matches Some(t) ==> pages[i].node_type == t,
    ensures
        node_listed(graph_nodes(pages, edges, q, node_type), pages[i].id),
    decreases pages.len(),
{
    let d = pages.drop_last();
    let r = graph_nodes(d, edges, q, node_type);
    let nodes = graph_nodes(pages, edges, q, node_type);
    if i == pages.len() - 1 {
        let n = node_of(pages.last(), edges);
        assert(pages.last() == pages[i]);
        assert(node_keep(n, q, node_type));
        assert(nodes == r.push(n));
        assert(nodes[r.len() as int].id == pages[i].id);
    } else {
        assert(d[i] == pages[i]);
        lemma_matching_page_listed(d, edges, q, node_type, i);
        let k = choose|k: int| 0 <= k < r.len() && #[trigger] r[k].id == pages[i].id;
        if nodes != r {
            assert(nodes == r.push(node_of(pages.last(), edges)));
            assert(nodes[k] == r[k]);
        }
        assert(nodes[k].id == pages[i].id);
    }
}

/// With a filter `q`, every page whose lower-case id contains `q` (other
/// than a query page, and of the type asked for, if any) is among the
/// nodes that pass the filters, and so among those shown where the limit
/// leaves room for all of them; so is one whose lower-case title contains
/// `q`.
pub proof fn lemma_graph_shows_pages_matching_q(
    srcs: Seq<SourceView>,
    q: Seq<char>,
    node_type: Option<Seq<char>>,
    limit: nat,
    i: int,
)
    requires
        0 <= i < graph_pages(srcs).len(),
        graph_pages(srcs)[i].node_type != "query"@,
        contains_seq(lowercase(graph_pages(srcs)[i].id), q) || contains_seq(lowercase(graph_pages(srcs)[i].title), q),
        node_type matches Some(t) ==> graph_pages(srcs)[i].node_type == t,
    ensures
        node_listed(graph_nodes(graph_pages(srcs), all_edges(graph_pages(srcs)), Some(q), node_type), graph_pages(srcs)[i].id),
        graph_nodes(graph_pages(srcs), all_edges(graph_pages(srcs)), Some(q), node_type).len() <= limit ==> node_listed(
            spec_graph_nodes(srcs, Some(q), node_type, limit),
            graph_pages(srcs)[i].id,
        ),
{
    let pages = graph_pages(srcs);
    if contains_seq(lowercase(pages[i].id), q) {
        lemma_matching_page_listed(pages, all_edges(pages), Some(q), node_type, i);
    } else {
        lemma_matching_title_listed(pages, all_edges(pages), q, node_type, i);
    }
}

proof fn lemma_matching_title_listed(
    pages: Seq<PageView>,
    edges: Seq<EdgeView>,
    q: Seq<char>,
    node_type: Option<Seq<char>>,
    i: int,
)
    requires
        0 <= i < pages.len(),
        pages[i].node_type != "query"@,
        contains_seq(lowercase(pages[i].title), q),
        node_type matches Some(t) ==> pages[i].node_type == t,
    ensures
        node_listed(graph_nodes(pages, edges, Some(q), node_type), pages[i].id),
    decreases pages.len(),
{
    let d = pages.drop_last();
    let r = graph_nodes(d, edges, Some(q), node_type);
    let nodes = graph_nodes(pages, edges, Some(q), node_type);
    if i == pages.len() - 1 {
        let n = node_of(pages.last(), edges);
        assert(pages.last() == pages[i]);
        assert(node_keep(n, Some(q), node_type));
        assert(nodes == r.push(n));
        assert(nodes[r.len() as int].id == pages[i].id);
    } else {
        assert(d[i] == pages[i]);
        lemma_matching_title_listed(d, edges, q, node_type, i);
        let k = choose|k: int| 0 <= k < r.len() && #[trigger] r[k].id == pages[i].id;
        if nodes != r {
            assert(nodes == r.push(node_of(pages.last(), edges)));
            assert(nodes[k] == r[k]);
        }
        assert(nodes[k].id == pages[i].id);
    }
}

} // verus!



