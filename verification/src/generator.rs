//! Building the link graph from the rows of the three extracted tables:
//! pages, redirects and page links.

use std::collections::{HashMap, HashSet};
use vstd::prelude::*;
use vstd::slice::{slice_subrange, slice_to_vec};
use crate::graph::{adjacency, Graph};
use crate::paths::has_edge;
use crate::rows::{page_row, pair_row, parse_page_row, parse_pair_row};
use crate::title::{decoded_title, decode_title, DecodeError};
use crate::title_map::TitleMap;

verus! {

/// `g` with the edge `from -> to`.
pub open spec fn with_edge(g: Map<usize, Set<usize>>, from: usize, to: usize) -> Map<usize, Set<usize>> {
    g.insert(
        from,
        if g.contains_key(from) {
            g[from].insert(to)
        } else {
            set![to]
        },
    )
}

/// Each of the two graphs holds the edges of the other, turned round.
pub open spec fn mirrored(g: Map<usize, Set<usize>>, r: Map<usize, Set<usize>>) -> bool {
    forall|a: usize, b: usize| #[trigger] has_edge(g, a, b) <==> has_edge(r, b, a)
}

/// Every node of `g`, at either end of an edge or with an entry of its own,
/// is in `nodes`.
pub open spec fn nodes_within(g: Map<usize, Set<usize>>, nodes: Set<usize>) -> bool {
    &&& forall|a: usize| #[trigger] g.contains_key(a) ==> nodes.contains(a)
    &&& forall|a: usize, b: usize| #[trigger] has_edge(g, a, b) ==> nodes.contains(b)
}

/// A raw title without the quote marks around it, where it is long enough
/// to have them.
pub open spec fn unquoted(title: Seq<u8>) -> Option<Seq<u8>> {
    if title.len() >= 2 {
        Some(title.subrange(1, title.len() - 1))
    } else {
        None
    }
}

/// What a line of the pages table adds to the page index: for a page that
/// is no redirect, its id and the text of its title.
pub open spec fn index_entry(line: Seq<u8>) -> Result<Option<(usize, Seq<char>)>, DecodeError> {
    match page_row(line) {
        Some((id, title, is_redirect)) => if is_redirect {
            Ok(None)
        } else {
            match unquoted(title) {
                Some(inner) => match decoded_title(inner) {
                    Ok(text) => Ok(Some((id, text))),
                    Err(e) => Err(e),
                },
                None => Ok(None),
            }
        },
        None => Ok(None),
    }
}

/// Whether the line of the pages table is the row of a redirect.
pub open spec fn is_redirect_row(line: Seq<u8>) -> bool {
    page_row(line) matches Some((_, _, is_redirect)) && is_redirect
}

/// Whether the line of the pages table is malformed: no row of the table,
/// or the row of a page whose title lacks the quote marks.
pub open spec fn is_malformed_page(line: Seq<u8>) -> bool {
    !is_redirect_row(line) && index_entry(line) == Ok::<Option<(usize, Seq<char>)>, DecodeError>(None)
}

/// The places, among the first `n` of the `lines` of the pages table, of
/// the lines that are malformed.
pub open spec fn malformed_pages(lines: Seq<Seq<u8>>, n: nat) -> Seq<usize>
    decreases n,
{
    if n == 0 {
        Seq::empty()
    } else if is_malformed_page(lines[n - 1]) {
        malformed_pages(lines, (n - 1) as nat).push((n - 1) as usize)
    } else {
        malformed_pages(lines, (n - 1) as nat)
    }
}

/// What a graph builder holds, as mathematical values.
pub struct BuilderView {
    /// The edges found so far.
    pub graph: Map<usize, Set<usize>>,
    /// The same edges, turned round.
    pub reverse_graph: Map<usize, Set<usize>>,
    /// The ids of the pages that are no redirects.
    pub page_ids: Set<usize>,
    /// The id of the page with a given raw title, for pages that are no
    /// redirects.
    pub title_to_id: Map<Seq<u8>, usize>,
    /// The raw title of the redirect with a given id.
    pub redirect_from_id: Map<usize, Seq<u8>>,
    /// The id of the page that the redirect with a given raw title leads to.
    pub redirects: Map<Seq<u8>, usize>,
}

impl BuilderView {
    /// A builder that has seen no row.
    pub open spec fn empty() -> BuilderView {
        BuilderView {
            graph: Map::empty(),
            reverse_graph: Map::empty(),
            page_ids: Set::empty(),
            title_to_id: Map::empty(),
            redirect_from_id: Map::empty(),
            redirects: Map::empty(),
        }
    }

    /// The two graphs mirror each other, and every id that an edge or a
    /// title leads to is the id of a page that is no redirect.
    pub open spec fn wf(self) -> bool {
        &&& mirrored(self.graph, self.reverse_graph)
        &&& nodes_within(self.graph, self.page_ids)
        &&& nodes_within(self.reverse_graph, self.page_ids)
        &&& forall|t: Seq<u8>| #[trigger]
            self.title_to_id.contains_key(t) ==> self.page_ids.contains(self.title_to_id[t])
        &&& forall|t: Seq<u8>| #[trigger]
            self.redirects.contains_key(t) ==> self.page_ids.contains(self.redirects[t])
    }

    /// The builder after the page `id` with the raw title `title`.
    pub open spec fn after_page(self, id: usize, title: Seq<u8>, is_redirect: bool) -> BuilderView {
        if is_redirect {
            BuilderView { redirect_from_id: self.redirect_from_id.insert(id, title), ..self }
        } else {
            BuilderView {
                page_ids: self.page_ids.insert(id),
                title_to_id: self.title_to_id.insert(title, id),
                ..self
            }
        }
    }

    /// The builder after the row of the redirects table that sends the
    /// redirect `id` to the page with the raw title `target`: where that is
    /// the title of a page and the redirect's own title is known, links to
    /// the redirect's title lead to that page from now on.
    pub open spec fn after_redirect(self, id: usize, target: Seq<u8>) -> BuilderView {
        if self.title_to_id.contains_key(target) && self.redirect_from_id.contains_key(id) {
            BuilderView {
                redirects: self.redirects.insert(self.redirect_from_id[id], self.title_to_id[target]),
                ..self
            }
        } else {
            self
        }
    }

    /// The page that a link to the raw title `title` leads to: the page of
    /// that title, or else the page that a redirect of that title leads to.
    pub open spec fn resolve(self, title: Seq<u8>) -> Option<usize> {
        if self.title_to_id.contains_key(title) {
            Some(self.title_to_id[title])
        } else if self.redirects.contains_key(title) {
            Some(self.redirects[title])
        } else {
            None
        }
    }

    /// The builder with the edge `from -> to` in the graph and `to -> from`
    /// in the reverse graph.
    pub open spec fn after_edge(self, from: usize, to: usize) -> BuilderView {
        BuilderView {
            graph: with_edge(self.graph, from, to),
            reverse_graph: with_edge(self.reverse_graph, to, from),
            ..self
        }
    }

    /// The builder after the row of the pagelinks table for a link on the
    /// page `from` to the raw title `target`.
    pub open spec fn after_link(self, from: usize, target: Seq<u8>) -> BuilderView {
        if self.page_ids.contains(from) {
            match self.resolve(target) {
                Some(to) => self.after_edge(from, to),
                None => self,
            }
        } else {
            self
        }
    }

    /// The builder after a line of the pages table. A line that is no row,
    /// or whose title has no text, leaves it as it is.
    pub open spec fn after_page_line(self, line: Seq<u8>) -> BuilderView {
        match page_row(line) {
            Some((id, title, is_redirect)) => if is_redirect || index_entry(line) matches Ok(Some(_)) {
                self.after_page(id, title, is_redirect)
            } else {
                self
            },
            None => self,
        }
    }

    /// What becomes of a line of the redirects table.
    pub open spec fn redirect_outcome(self, line: Seq<u8>) -> LineOutcome {
        match pair_row(line) {
            Some((id, target)) => if self.title_to_id.contains_key(target)
                && self.redirect_from_id.contains_key(id) {
                LineOutcome::Added
            } else {
                LineOutcome::Unresolved
            },
            None => LineOutcome::Malformed,
        }
    }

    /// What becomes of a line of the pagelinks table.
    pub open spec fn link_outcome(self, line: Seq<u8>) -> LineOutcome {
        match pair_row(line) {
            Some((from, target)) => if self.page_ids.contains(from) && self.resolve(target) is Some {
                LineOutcome::Added
            } else {
                LineOutcome::Unresolved
            },
            None => LineOutcome::Malformed,
        }
    }

    /// The builder after a line of the redirects table.
    pub open spec fn after_redirect_line(self, line: Seq<u8>) -> BuilderView {
        match pair_row(line) {
            Some((id, target)) => self.after_redirect(id, target),
            None => self,
        }
    }

    /// The builder after a line of the pagelinks table.
    pub open spec fn after_link_line(self, line: Seq<u8>) -> BuilderView {
        match pair_row(line) {
            Some((from, target)) => self.after_link(from, target),
            None => self,
        }
    }

    /// The builder after the first `n` of the `lines` of the pages table.
    pub open spec fn after_page_lines(self, lines: Seq<Seq<u8>>, n: nat) -> BuilderView
        decreases n,
    {
        if n == 0 {
            self
        } else {
            self.after_page_lines(lines, (n - 1) as nat).after_page_line(lines[n - 1])
        }
    }

    /// The builder after the first `n` of the `lines` of the redirects table.
    pub open spec fn after_redirect_lines(self, lines: Seq<Seq<u8>>, n: nat) -> BuilderView
        decreases n,
    {
        if n == 0 {
            self
        } else {
            self.after_redirect_lines(lines, (n - 1) as nat).after_redirect_line(lines[n - 1])
        }
    }

    /// The builder after the first `n` of the `lines` of the pagelinks table.
    pub open spec fn after_link_lines(self, lines: Seq<Seq<u8>>, n: nat) -> BuilderView
        decreases n,
    {
        if n == 0 {
            self
        } else {
            self.after_link_lines(lines, (n - 1) as nat).after_link_line(lines[n - 1])
        }
    }
}

/// The entries that the first `n` of the `lines` of the pages table add to
/// the page index, in the order of the lines.
pub open spec fn index_entries(lines: Seq<Seq<u8>>, n: nat) -> Seq<(usize, Seq<char>)>
    decreases n,
{
    if n == 0 {
        Seq::empty()
    } else {
        match index_entry(lines[n - 1]) {
            Ok(Some(entry)) => index_entries(lines, (n - 1) as nat).push(entry),
            _ => index_entries(lines, (n - 1) as nat),
        }
    }
}

/// A graph with one more edge has the edges it had and that one.
pub proof fn lemma_edge_added(g: Map<usize, Set<usize>>, from: usize, to: usize)
    ensures
        forall|a: usize, b: usize|
            has_edge(with_edge(g, from, to), a, b) <==> has_edge(g, a, b) || (a == from && b == to),
{
}

/// An edge in a graph and its mirror image in the reverse graph keep the
/// two graphs mirrored.
pub proof fn lemma_edge_mirrored(g: Map<usize, Set<usize>>, r: Map<usize, Set<usize>>, from: usize, to: usize)
    requires
        mirrored(g, r),
    ensures
        mirrored(with_edge(g, from, to), with_edge(r, to, from)),
        forall|a: usize, b: usize|
            has_edge(with_edge(g, from, to), a, b) <==> has_edge(g, a, b) || (a == from && b == to),
{
    let g2 = with_edge(g, from, to);
    let r2 = with_edge(r, to, from);
    assert forall|a: usize, b: usize| has_edge(g2, a, b) <==> has_edge(g, a, b) || (a == from && b == to) by {}
    assert forall|a: usize, b: usize| has_edge(r2, b, a) <==> has_edge(r, b, a) || (a == from && b == to) by {}
    assert forall|a: usize, b: usize| #[trigger] has_edge(g2, a, b) <==> has_edge(r2, b, a) by {
        assert(has_edge(g, a, b) <==> has_edge(r, b, a));
    }
}

/// A builder that has seen no row is well formed.
pub proof fn lemma_empty_wf()
    ensures
        BuilderView::empty().wf(),
{
}

/// A page keeps the builder well formed.
pub proof fn lemma_page_wf(v: BuilderView, id: usize, title: Seq<u8>, is_redirect: bool)
    requires
        v.wf(),
    ensures
        v.after_page(id, title, is_redirect).wf(),
{
}

/// A row of the redirects table keeps the builder well formed.
pub proof fn lemma_redirect_wf(v: BuilderView, id: usize, target: Seq<u8>)
    requires
        v.wf(),
    ensures
        v.after_redirect(id, target).wf(),
{
}

/// An edge between two pages keeps the builder well formed.
pub proof fn lemma_edge_wf(v: BuilderView, from: usize, to: usize)
    requires
        v.wf(),
        v.page_ids.contains(from),
        v.page_ids.contains(to),
    ensures
        v.after_edge(from, to).wf(),
{
    lemma_edge_mirrored(v.graph, v.reverse_graph, from, to);
    lemma_edge_mirrored(v.reverse_graph, v.graph, to, from);
}

/// A row of the pagelinks table keeps the builder well formed: the graphs
/// stay mirrored, and no id but that of a page becomes a node.
pub proof fn lemma_link_wf(v: BuilderView, from: usize, target: Seq<u8>)
    requires
        v.wf(),
    ensures
        v.after_link(from, target).wf(),
{
    if v.page_ids.contains(from) {
        match v.resolve(target) {
            Some(to) => {
                lemma_edge_wf(v, from, to);
            },
            None => {},
        }
    }
}

/// A link to a title that is neither the title of a page nor that of a
/// resolved redirect changes nothing.
pub proof fn lemma_dangling_link(v: BuilderView, from: usize, target: Seq<u8>)
    requires
        !v.title_to_id.contains_key(target),
        !v.redirects.contains_key(target),
    ensures
        v.after_link(from, target) == v,
{
}

/// A link to the title of a redirect leads to the page that the redirect
/// leads to, and the redirect itself is no node of the graph.
///
/// The rows are: a page `target_id` with the title `target_title`; a
/// redirect `redirect_id` with the title `redirect_title`, which is not the
/// title of a page; the row of the redirects table that sends
/// `redirect_id` to `target_title`; and a link on the page `from` to
/// `redirect_title`.
pub proof fn lemma_link_through_redirect(
    v: BuilderView,
    from: usize,
    target_id: usize,
    target_title: Seq<u8>,
    redirect_id: usize,
    redirect_title: Seq<u8>,
)
    requires
        v.wf(),
        v.page_ids.contains(from),
        !v.page_ids.contains(redirect_id),
        redirect_id != target_id,
        !v.title_to_id.contains_key(redirect_title),
        redirect_title != target_title,
    ensures
        ({
            let built = v.after_page(target_id, target_title, false).after_page(
                redirect_id,
                redirect_title,
                true,
            ).after_redirect(redirect_id, target_title).after_link(from, redirect_title);
            &&& has_edge(built.graph, from, target_id)
            &&& has_edge(built.reverse_graph, target_id, from)
            &&& !built.graph.contains_key(redirect_id)
            &&& !built.reverse_graph.contains_key(redirect_id)
            &&& forall|a: usize| !has_edge(built.graph, a, redirect_id)
            &&& forall|a: usize| !has_edge(built.reverse_graph, a, redirect_id)
        }),
{
    let v1 = v.after_page(target_id, target_title, false);
    let v2 = v1.after_page(redirect_id, redirect_title, true);
    let v3 = v2.after_redirect(redirect_id, target_title);
    let built = v3.after_link(from, redirect_title);
    lemma_page_wf(v, target_id, target_title, false);
    lemma_page_wf(v1, redirect_id, redirect_title, true);
    lemma_redirect_wf(v2, redirect_id, target_title);
    lemma_link_wf(v3, from, redirect_title);
    assert(v3.redirects.contains_key(redirect_title));
    assert(v3.resolve(redirect_title) == Some(target_id));
    assert(built == v3.after_edge(from, target_id));
    assert(!built.page_ids.contains(redirect_id));
    assert forall|a: usize| !has_edge(built.graph, a, redirect_id) by {
        if has_edge(built.graph, a, redirect_id) {
            assert(built.page_ids.contains(redirect_id));
        }
    }
    assert forall|a: usize| !has_edge(built.reverse_graph, a, redirect_id) by {
        if has_edge(built.reverse_graph, a, redirect_id) {
            assert(built.page_ids.contains(redirect_id));
        }
    }
}

/// A line of the pages table keeps the builder well formed.
pub proof fn lemma_page_line_wf(v: BuilderView, line: Seq<u8>)
    requires
        v.wf(),
    ensures
        v.after_page_line(line).wf(),
{
    match page_row(line) {
        Some((id, title, is_redirect)) => {
            lemma_page_wf(v, id, title, is_redirect);
        },
        None => {},
    }
}

/// The lines of the three tables, taken in their order, keep the builder
/// well formed; the lines of the redirects and of the pagelinks table leave
/// the set of pages as it is.
pub proof fn lemma_lines_wf(v: BuilderView, lines: Seq<Seq<u8>>, n: nat)
    requires
        v.wf(),
    ensures
        v.after_page_lines(lines, n).wf(),
        v.after_redirect_lines(lines, n).wf(),
        v.after_link_lines(lines, n).wf(),
        v.after_redirect_lines(lines, n).page_ids == v.page_ids,
        v.after_link_lines(lines, n).page_ids == v.page_ids,
    decreases n,
{
    if n > 0 {
        let m = (n - 1) as nat;
        lemma_lines_wf(v, lines, m);
        let line = lines[n - 1];
        lemma_page_line_wf(v.after_page_lines(lines, m), line);
        match pair_row(line) {
            Some((id, title)) => {
                lemma_redirect_wf(v.after_redirect_lines(lines, m), id, title);
                lemma_link_wf(v.after_link_lines(lines, m), id, title);
            },
            None => {},
        }
    }
}

/// The page `id` has an entry among those that the first `n` of the `lines`
/// of the pages table add to the page index.
pub open spec fn is_indexed(lines: Seq<Seq<u8>>, n: nat, id: usize) -> bool {
    exists|k: int| 0 <= k < index_entries(lines, n).len() && (#[trigger] index_entries(lines, n)[k]).0 == id
}

/// The pages that the builder knows after the lines of the pages table are
/// the pages that have an entry in the page index.
pub proof fn lemma_pages_are_indexed(lines: Seq<Seq<u8>>, n: nat, id: usize)
    ensures
        BuilderView::empty().after_page_lines(lines, n).page_ids.contains(id) <==> is_indexed(lines, n, id),
    decreases n,
{
    if n > 0 {
        let m = (n - 1) as nat;
        lemma_pages_are_indexed(lines, m, id);
        let before = index_entries(lines, m);
        let after = index_entries(lines, n);
        match index_entry(lines[n - 1]) {
            Ok(Some(entry)) => {
                assert(after == before.push(entry));
                if is_indexed(lines, m, id) {
                    let k = choose|k: int| 0 <= k < before.len() && (#[trigger] before[k]).0 == id;
                    assert(after[k].0 == id);
                }
                if entry.0 == id {
                    assert(after[before.len() as int].0 == id);
                }
                if is_indexed(lines, n, id) {
                    let k = choose|k: int| 0 <= k < after.len() && (#[trigger] after[k]).0 == id;
                    if k < before.len() {
                        assert(before[k].0 == id);
                    }
                }
            },
            _ => {},
        }
    }
}

/// What a build from the lines of the three tables gives: two graphs that
/// mirror each other, whose every node is a page with an entry in the page
/// index.
pub proof fn lemma_built_graphs(pages: Seq<Seq<u8>>, redirects: Seq<Seq<u8>>, links: Seq<Seq<u8>>)
    ensures
        ({
            let built = BuilderView::empty().after_page_lines(pages, pages.len()).after_redirect_lines(
                redirects,
                redirects.len(),
            ).after_link_lines(links, links.len());
            &&& built.wf()
            &&& mirrored(built.graph, built.reverse_graph)
            &&& forall|a: usize| #[trigger] built.graph.contains_key(a) ==> is_indexed(pages, pages.len(), a)
            &&& forall|a: usize, b: usize| #[trigger]
                has_edge(built.graph, a, b) ==> is_indexed(pages, pages.len(), a) && is_indexed(
                    pages,
                    pages.len(),
                    b,
                )
        }),
{
    let v1 = BuilderView::empty().after_page_lines(pages, pages.len());
    let v2 = v1.after_redirect_lines(redirects, redirects.len());
    let built = v2.after_link_lines(links, links.len());
    lemma_lines_wf(BuilderView::empty(), pages, pages.len());
    lemma_lines_wf(v1, redirects, redirects.len());
    lemma_lines_wf(v2, links, links.len());
    assert forall|a: usize| built.page_ids.contains(a) implies is_indexed(pages, pages.len(), a) by {
        lemma_pages_are_indexed(pages, pages.len(), a);
    }
    assert forall|a: usize, b: usize| #[trigger] has_edge(built.graph, a, b) implies is_indexed(
        pages,
        pages.len(),
        a,
    ) && is_indexed(pages, pages.len(), b) by {
        assert(built.graph.contains_key(a));
        assert(built.page_ids.contains(a));
        assert(built.page_ids.contains(b));
    }
}

/// A line of the page index: the id of a page and the text of its title.
#[derive(Debug)]
pub struct IndexEntry {
    pub id: usize,
    pub title: String,
}

/// What became of a line of the pages table.
#[derive(Debug)]
pub enum PageOutcome {
    /// The line is no row of the table, or its title lacks the quote marks.
    Malformed,
    /// The row is that of a redirect, whose title is kept.
    Redirect,
    /// The row is that of a page, which has this entry in the page index.
    Page(IndexEntry),
}

/// The line of the pages table at which a build ended, counted from 0, and
/// why the title on it stands for no text.
#[derive(Clone, Copy, Debug, PartialEq, Eq, Structural)]
pub struct PageFault {
    pub line: usize,
    pub fault: DecodeError,
}

/// What the lines of the pages table gave.
#[derive(Debug)]
pub struct PagesLoaded {
    /// The entries of the page index, in the order of the lines.
    pub entries: Vec<IndexEntry>,
    /// The places of the malformed lines, counted from 0.
    pub malformed: Vec<usize>,
}

/// What became of a line of the redirects or of the pagelinks table.
#[derive(Clone, Copy, Debug, PartialEq, Eq, Structural)]
pub enum LineOutcome {
    /// The line is no row of the table.
    Malformed,
    /// The row leads nowhere: it names a title or a page that is not known.
    Unresolved,
    /// The row was taken up.
    Added,
}

/// The ids and titles of a list of entries of the page index.
pub open spec fn entry_views(entries: Seq<IndexEntry>) -> Seq<(usize, Seq<char>)> {
    entries.map_values(|e: IndexEntry| (e.id, e.title@))
}

/// The bytes of each of `lines`.
pub open spec fn line_views(lines: Seq<Vec<u8>>) -> Seq<Seq<u8>> {
    lines.map_values(|l: Vec<u8>| l@)
}

/// The titles that a table of titles by id holds, as sequences of bytes.
pub open spec fn title_views(table: Map<usize, Vec<u8>>) -> Map<usize, Seq<u8>> {
    Map::new(|id: usize| table.contains_key(id), |id: usize| table[id]@)
}

/// Adds the edge `from -> to` to the table of edge sets `graph`.
fn insert_edge(graph: &mut HashMap<usize, HashSet<usize>>, from: usize, to: usize)
    ensures
        adjacency(final(graph)@) == with_edge(adjacency(old(graph)@), from, to),
{
    let out = graph.entry(from).or_insert(HashSet::new());
    out.insert(to);
    assert(adjacency(graph@) =~= with_edge(adjacency(old(graph)@), from, to));
}

/// Adds the edge `from -> to` to `graph` and its mirror image to `reverse`.
fn insert_mirrored(
    graph: &mut HashMap<usize, HashSet<usize>>,
    reverse: &mut HashMap<usize, HashSet<usize>>,
    from: usize,
    to: usize,
)
    ensures
        adjacency(final(graph)@) == with_edge(adjacency(old(graph)@), from, to),
        adjacency(final(reverse)@) == with_edge(adjacency(old(reverse)@), to, from),
{
    insert_edge(graph, from, to);
    insert_edge(reverse, to, from);
}

/// Builds the link graph and its mirror image, row by row.
///
/// The rows of the pages table come first, then those of the redirects
/// table, then those of the pagelinks table: a row is read against what the
/// rows before it have left.
pub struct GraphBuilder {
    graph: HashMap<usize, HashSet<usize>>,
    reverse_graph: HashMap<usize, HashSet<usize>>,
    page_ids: HashSet<usize>,
    title_to_id: TitleMap,
    redirect_from_id: HashMap<usize, Vec<u8>>,
    redirects: TitleMap,
}

impl View for GraphBuilder {
    type V = BuilderView;

    closed spec fn view(&self) -> BuilderView {
        BuilderView {
            graph: adjacency(self.graph@),
            reverse_graph: adjacency(self.reverse_graph@),
            page_ids: self.page_ids@,
            title_to_id: self.title_to_id@,
            redirect_from_id: title_views(self.redirect_from_id@),
            redirects: self.redirects@,
        }
    }
}

impl GraphBuilder {
    /// A builder that has seen no row.
    pub fn new() -> (r: GraphBuilder)
        ensures
            r@ == BuilderView::empty(),
            r@.wf(),
    {
        let r = GraphBuilder {
            graph: HashMap::new(),
            reverse_graph: HashMap::new(),
            page_ids: HashSet::new(),
            title_to_id: TitleMap::new(),
            redirect_from_id: HashMap::new(),
            redirects: TitleMap::new(),
        };
        proof {
            lemma_empty_wf();
        }
        assert(r@.graph =~= Map::<usize, Set<usize>>::empty());
        assert(r@.reverse_graph =~= Map::<usize, Set<usize>>::empty());
        assert(r@.redirect_from_id =~= Map::<usize, Seq<u8>>::empty());
        r
    }

    /// Takes a line of the pages table. For a page that is no redirect it
    /// hands back the page's entry in the page index; a title that stands
    /// for no text is an error, and leaves the builder as it was.
    pub fn add_page_line(&mut self, line: &[u8]) -> (r: Result<PageOutcome, DecodeError>)
        ensures
            final(self)@ == old(self)@.after_page_line(line@),
            old(self)@.wf() ==> final(self)@.wf(),
            match r {
                Ok(PageOutcome::Page(entry)) => index_entry(line@) == Ok::<
                    Option<(usize, Seq<char>)>,
                    DecodeError,
                >(Some((entry.id, entry.title@))),
                Ok(PageOutcome::Redirect) => is_redirect_row(line@),
                Ok(PageOutcome::Malformed) => !is_redirect_row(line@) && index_entry(line@) == Ok::<
                    Option<(usize, Seq<char>)>,
                    DecodeError,
                >(None),
                Err(e) => index_entry(line@) == Err::<Option<(usize, Seq<char>)>, DecodeError>(e),
            },
    {
        let row = match parse_page_row(line) {
            Some(row) => row,
            None => {
                return Ok(PageOutcome::Malformed);
            },
        };
        if row.is_redirect {
            proof {
                if self@.wf() {
                    lemma_page_wf(self@, row.id, row.title@, true);
                }
                assert(title_views(self.redirect_from_id@.insert(row.id, row.title)) =~= title_views(
                    self.redirect_from_id@,
                ).insert(row.id, row.title@));
            }
            self.redirect_from_id.insert(row.id, row.title);
            return Ok(PageOutcome::Redirect);
        }
        let n = row.title.len();
        if n < 2 {
            return Ok(PageOutcome::Malformed);
        }
        let text = match decode_title(slice_subrange(row.title.as_slice(), 1, n - 1)) {
            Ok(text) => text,
            Err(e) => {
                return Err(e);
            },
        };
        proof {
            if self@.wf() {
                lemma_page_wf(self@, row.id, row.title@, false);
            }
        }
        self.page_ids.insert(row.id);
        self.title_to_id.insert(row.title, row.id);
        Ok(PageOutcome::Page(IndexEntry { id: row.id, title: text }))
    }

    /// Takes a line of the redirects table.
    pub fn add_redirect_line(&mut self, line: &[u8]) -> (r: LineOutcome)
        ensures
            final(self)@ == old(self)@.after_redirect_line(line@),
            old(self)@.wf() ==> final(self)@.wf(),
            r == old(self)@.redirect_outcome(line@),
    {
        let row = match parse_pair_row(line) {
            Some(row) => row,
            None => {
                return LineOutcome::Malformed;
            },
        };
        let to_id = match self.title_to_id.get(row.title.as_slice()) {
            Some(id) => id,
            None => {
                return LineOutcome::Unresolved;
            },
        };
        match self.redirect_from_id.get(&row.id) {
            Some(title) => {
                let key = slice_to_vec(title.as_slice());
                proof {
                    if self@.wf() {
                        lemma_redirect_wf(self@, row.id, row.title@);
                    }
                }
                self.redirects.insert(key, to_id);
                LineOutcome::Added
            },
            None => LineOutcome::Unresolved,
        }
    }

    /// Takes a line of the pagelinks table.
    pub fn add_link_line(&mut self, line: &[u8]) -> (r: LineOutcome)
        ensures
            final(self)@ == old(self)@.after_link_line(line@),
            old(self)@.wf() ==> final(self)@.wf(),
            r == old(self)@.link_outcome(line@),
    {
        let row = match parse_pair_row(line) {
            Some(row) => row,
            None => {
                return LineOutcome::Malformed;
            },
        };
        if !self.page_ids.contains(&row.id) {
            return LineOutcome::Unresolved;
        }
        let target = match self.title_to_id.get(row.title.as_slice()) {
            Some(id) => Some(id),
            None => self.redirects.get(row.title.as_slice()),
        };
        match target {
            Some(to_id) => {
                self.add_edge(row.id, to_id);
                LineOutcome::Added
            },
            None => LineOutcome::Unresolved,
        }
    }

    /// Adds the edge `from -> to` to the graph and `to -> from` to the
    /// reverse graph. The edges are then those before and this one: an edge
    /// that was there stays once, an edge from a node to itself is kept.
    /// Graphs that mirrored each other still do; the builder stays well
    /// formed where `from` and `to` are pages.
    pub fn add_edge(&mut self, from: usize, to: usize)
        ensures
            final(self)@ == old(self)@.after_edge(from, to),
            forall|a: usize, b: usize|
                has_edge(final(self)@.graph, a, b) <==> has_edge(old(self)@.graph, a, b) || (a == from && b
                    == to),
            forall|a: usize, b: usize|
                has_edge(final(self)@.reverse_graph, b, a) <==> has_edge(old(self)@.reverse_graph, b, a) || (a
                    == from && b == to),
            mirrored(old(self)@.graph, old(self)@.reverse_graph) ==> mirrored(
                final(self)@.graph,
                final(self)@.reverse_graph,
            ),
            old(self)@.wf() && old(self)@.page_ids.contains(from) && old(self)@.page_ids.contains(to)
                ==> final(self)@.wf(),
    {
        proof {
            lemma_edge_added(self@.graph, from, to);
            lemma_edge_added(self@.reverse_graph, to, from);
            if mirrored(self@.graph, self@.reverse_graph) {
                lemma_edge_mirrored(self@.graph, self@.reverse_graph, from, to);
            }
            if self@.wf() && self@.page_ids.contains(from) && self@.page_ids.contains(to) {
                lemma_edge_wf(self@, from, to);
            }
        }
        insert_mirrored(&mut self.graph, &mut self.reverse_graph, from, to);
    }

    /// Takes the lines of the pages table, and hands back the entries of the
    /// page index in the order of the lines, with the places of the lines
    /// that are malformed. It ends at the first title that stands for no
    /// text, with the place of its line and its fault.
    pub fn load_and_preprocess_pages(&mut self, lines: &Vec<Vec<u8>>) -> (r: Result<PagesLoaded, PageFault>)
        ensures
            old(self)@.wf() ==> final(self)@.wf(),
            match r {
                Ok(loaded) => {
                    &&& final(self)@ == old(self)@.after_page_lines(line_views(lines@), lines@.len())
                    &&& entry_views(loaded.entries@) == index_entries(line_views(lines@), lines@.len())
                    &&& loaded.malformed@ == malformed_pages(line_views(lines@), lines@.len())
                    &&& forall|j: int| 0 <= j < lines@.len() ==> index_entry(#[trigger] lines@[j]@) is Ok
                },
                Err(at) => {
                    &&& at.line < lines@.len()
                    &&& index_entry(lines@[at.line as int]@) == Err::<Option<(usize, Seq<char>)>, DecodeError>(
                        at.fault,
                    )
                    &&& forall|j: int| 0 <= j < at.line ==> index_entry(#[trigger] lines@[j]@) is Ok
                    &&& final(self)@ == old(self)@.after_page_lines(line_views(lines@), at.line as nat)
                },
            },
    {
        let mut entries: Vec<IndexEntry> = Vec::new();
        let mut malformed: Vec<usize> = Vec::new();
        let mut i: usize = 0;
        assert(entry_views(entries@) =~= index_entries(line_views(lines@), 0));
        while i < lines.len()
            invariant
                i <= lines@.len(),
                old(self)@.wf() ==> self@.wf(),
                self@ == old(self)@.after_page_lines(line_views(lines@), i as nat),
                entry_views(entries@) == index_entries(line_views(lines@), i as nat),
                malformed@ == malformed_pages(line_views(lines@), i as nat),
                forall|j: int| 0 <= j < i ==> index_entry(#[trigger] lines@[j]@) is Ok,
            decreases lines@.len() - i,
        {
            let ghost before = entries@;
            assert(line_views(lines@)[i as int] == lines@[i as int]@);
            match self.add_page_line(lines[i].as_slice()) {
                Ok(PageOutcome::Page(entry)) => {
                    entries.push(entry);
                    assert(entry_views(entries@) =~= entry_views(before).push((entry.id, entry.title@)));
                },
                Ok(PageOutcome::Redirect) => {},
                Ok(PageOutcome::Malformed) => {
                    malformed.push(i);
                },
                Err(fault) => {
                    return Err(PageFault { line: i, fault });
                },
            }
            i += 1;
        }
        Ok(PagesLoaded { entries, malformed })
    }

    /// Takes the lines of the redirects table, and hands back what became of
    /// each.
    pub fn load_redirects(&mut self, lines: &Vec<Vec<u8>>) -> (r: Vec<LineOutcome>)
        ensures
            final(self)@ == old(self)@.after_redirect_lines(line_views(lines@), lines@.len()),
            old(self)@.wf() ==> final(self)@.wf(),
            r@.len() == lines@.len(),
            forall|j: int|
                0 <= j < lines@.len() ==> #[trigger] r@[j] == old(self)@.after_redirect_lines(
                    line_views(lines@),
                    j as nat,
                ).redirect_outcome(lines@[j]@),
    {
        let mut outcomes: Vec<LineOutcome> = Vec::new();
        let mut i: usize = 0;
        while i < lines.len()
            invariant
                i <= lines@.len(),
                old(self)@.wf() ==> self@.wf(),
                self@ == old(self)@.after_redirect_lines(line_views(lines@), i as nat),
                outcomes@.len() == i,
                forall|j: int|
                    0 <= j < i ==> #[trigger] outcomes@[j] == old(self)@.after_redirect_lines(
                        line_views(lines@),
                        j as nat,
                    ).redirect_outcome(lines@[j]@),
            decreases lines@.len() - i,
        {
            assert(line_views(lines@)[i as int] == lines@[i as int]@);
            let outcome = self.add_redirect_line(lines[i].as_slice());
            outcomes.push(outcome);
            i += 1;
        }
        outcomes
    }

    /// Takes the lines of the pagelinks table, and hands back what became of
    /// each.
    pub fn build_graph(&mut self, lines: &Vec<Vec<u8>>) -> (r: Vec<LineOutcome>)
        ensures
            final(self)@ == old(self)@.after_link_lines(line_views(lines@), lines@.len()),
            old(self)@.wf() ==> final(self)@.wf(),
            r@.len() == lines@.len(),
            forall|j: int|
                0 <= j < lines@.len() ==> #[trigger] r@[j] == old(self)@.after_link_lines(
                    line_views(lines@),
                    j as nat,
                ).link_outcome(lines@[j]@),
    {
        let mut outcomes: Vec<LineOutcome> = Vec::new();
        let mut i: usize = 0;
        while i < lines.len()
            invariant
                i <= lines@.len(),
                old(self)@.wf() ==> self@.wf(),
                self@ == old(self)@.after_link_lines(line_views(lines@), i as nat),
                outcomes@.len() == i,
                forall|j: int|
                    0 <= j < i ==> #[trigger] outcomes@[j] == old(self)@.after_link_lines(
                        line_views(lines@),
                        j as nat,
                    ).link_outcome(lines@[j]@),
            decreases lines@.len() - i,
        {
            assert(line_views(lines@)[i as int] == lines@[i as int]@);
            let outcome = self.add_link_line(lines[i].as_slice());
            outcomes.push(outcome);
            i += 1;
        }
        outcomes
    }

    /// Whether the page `id` is known as a page that is no redirect.
    pub fn is_page(&self, id: usize) -> (r: bool)
        ensures
            r == self@.page_ids.contains(id),
    {
        self.page_ids.contains(&id)
    }

    /// The graph and the reverse graph that the builder has built: each
    /// holds the edges of the other, turned round.
    pub fn into_graphs(self) -> (r: (Graph, Graph))
        ensures
            r.0@ == self@.graph,
            r.1@ == self@.reverse_graph,
            self@.wf() ==> mirrored(r.0@, r.1@),
            self@.wf() ==> nodes_within(r.0@, self@.page_ids) && nodes_within(r.1@, self@.page_ids),
    {
        (Graph { graph: self.graph }, Graph { graph: self.reverse_graph })
    }
}

/// What a build gives.
pub struct Built {
    /// The link graph.
    pub graph: Graph,
    /// The same edges, turned round.
    pub reverse_graph: Graph,
    /// The entries of the page index, in the order of the pages table.
    pub pages: Vec<IndexEntry>,
    /// The places of the malformed lines of the pages table, counted from 0.
    pub malformed_pages: Vec<usize>,
    /// What became of each line of the redirects table.
    pub redirects: Vec<LineOutcome>,
    /// What became of each line of the pagelinks table.
    pub links: Vec<LineOutcome>,
}

/// The builder after the lines of the pages table and the first `n` lines
/// of the redirects table.
pub open spec fn built_to_redirect(pages: Seq<Seq<u8>>, redirects: Seq<Seq<u8>>, n: nat) -> BuilderView {
    BuilderView::empty().after_page_lines(pages, pages.len()).after_redirect_lines(redirects, n)
}

/// The builder after the lines of the pages table, those of the redirects
/// table and the first `n` lines of the pagelinks table.
pub open spec fn built_to_link(
    pages: Seq<Seq<u8>>,
    redirects: Seq<Seq<u8>>,
    links: Seq<Seq<u8>>,
    n: nat,
) -> BuilderView {
    built_to_redirect(pages, redirects, redirects.len()).after_link_lines(links, n)
}

/// Builds the link graph from the lines of the pages table, of the
/// redirects table and of the pagelinks table, in this order. The build
/// ends without a graph at the first page whose title stands for no text.
pub fn generate(pages: &Vec<Vec<u8>>, redirects: &Vec<Vec<u8>>, links: &Vec<Vec<u8>>) -> (r: Result<
    Built,
    PageFault,
>)
    ensures
        match r {
            Ok(built) => {
                let p = line_views(pages@);
                let d = line_views(redirects@);
                let l = line_views(links@);
                let v = built_to_link(p, d, l, l.len());
                &&& built.graph@ == v.graph
                &&& built.reverse_graph@ == v.reverse_graph
                &&& mirrored(built.graph@, built.reverse_graph@)
                &&& entry_views(built.pages@) == index_entries(p, p.len())
                &&& built.malformed_pages@ == malformed_pages(p, p.len())
                &&& forall|j: int| 0 <= j < pages@.len() ==> index_entry(#[trigger] pages@[j]@) is Ok
                &&& built.redirects@.len() == d.len()
                &&& forall|j: int|
                    0 <= j < d.len() ==> #[trigger] built.redirects@[j] == built_to_redirect(
                        p,
                        d,
                        j as nat,
                    ).redirect_outcome(d[j])
                &&& built.links@.len() == l.len()
                &&& forall|j: int|
                    0 <= j < l.len() ==> #[trigger] built.links@[j] == built_to_link(p, d, l, j as nat).link_outcome(
                        l[j],
                    )
            },
            Err(at) => {
                &&& at.line < pages@.len()
                &&& index_entry(pages@[at.line as int]@) == Err::<Option<(usize, Seq<char>)>, DecodeError>(
                    at.fault,
                )
                &&& forall|j: int| 0 <= j < at.line ==> index_entry(#[trigger] pages@[j]@) is Ok
            },
        },
{
    let mut builder = GraphBuilder::new();
    let loaded = match builder.load_and_preprocess_pages(pages) {
        Ok(loaded) => loaded,
        Err(at) => {
            return Err(at);
        },
    };
    let redirect_outcomes = builder.load_redirects(redirects);
    let link_outcomes = builder.build_graph(links);
    proof {
        assert forall|j: int| 0 <= j < redirects@.len() implies line_views(redirects@)[j] == redirects@[j]@ by {}
        assert forall|j: int| 0 <= j < links@.len() implies line_views(links@)[j] == links@[j]@ by {}
    }
    let (graph, reverse_graph) = builder.into_graphs();
    Ok(
        Built {
            graph,
            reverse_graph,
            pages: loaded.entries,
            malformed_pages: loaded.malformed,
            redirects: redirect_outcomes,
            links: link_outcomes,
        },
    )
}

} // verus!
