use linkgraph::generator::{generate, GraphBuilder, LineOutcome, PageFault, PageOutcome};
use linkgraph::graph::Graph;
use linkgraph::title::DecodeError;

fn lines(rows: &[&str]) -> Vec<Vec<u8>> {
    rows.iter().map(|row| row.as_bytes().to_vec()).collect()
}

fn has_edge(g: &Graph, from: usize, to: usize) -> bool {
    g.graph.get(&from).map_or(false, |out| out.contains(&to))
}

fn edge_count(g: &Graph) -> usize {
    g.graph.values().map(|out| out.len()).sum()
}

fn has_node(g: &Graph, node: usize) -> bool {
    g.graph.contains_key(&node) || g.graph.values().any(|out| out.contains(&node))
}

fn mirrored(g: &Graph, r: &Graph) -> bool {
    g.graph.iter().all(|(&a, out)| out.iter().all(|&b| has_edge(r, b, a)))
        && r.graph.iter().all(|(&b, out)| out.iter().all(|&a| has_edge(g, a, b)))
}

const PAGES: [&str; 5] = ["1\t'A'\t0", "2\t'B'\t0", "3\t'C'\t0", "4\t'D'\t0", "5\t'E'\t1"];

#[test]
fn chain_with_a_redirect() {
    let pages = lines(&PAGES);
    let redirects = lines(&["5\t'D'"]);
    let links = lines(&["1\t'B'", "2\t'C'", "3\t'D'", "1\t'E'"]);
    let built = generate(&pages, &redirects, &links).unwrap();
    assert!(has_edge(&built.graph, 1, 2));
    assert!(has_edge(&built.graph, 2, 3));
    assert!(has_edge(&built.graph, 3, 4));
    assert!(has_edge(&built.graph, 1, 4));
    assert_eq!(edge_count(&built.graph), 4);
    assert!(!has_node(&built.graph, 5));
    assert!(!has_node(&built.reverse_graph, 5));
    assert!(mirrored(&built.graph, &built.reverse_graph));
    assert_eq!(built.graph.find_shortest_path(1, 4), vec![1, 4]);
    assert_eq!(built.graph.find_shortest_path(1, 3), vec![1, 2, 3]);
    assert_eq!(built.graph.find_furthest(1), (3, 2));
    assert_eq!(built.reverse_graph.find_furthest(4), (2, 2));
    let index: Vec<(usize, &str)> = built.pages.iter().map(|e| (e.id, e.title.as_str())).collect();
    assert_eq!(index, vec![(1, "A"), (2, "B"), (3, "C"), (4, "D")]);
}

#[test]
fn redirect_resolves_to_its_target() {
    let mut builder = GraphBuilder::new();
    assert!(matches!(builder.add_page_line(b"10\t'Target'\t0"), Ok(PageOutcome::Page(_))));
    assert!(matches!(builder.add_page_line(b"20\t'Source'\t0"), Ok(PageOutcome::Page(_))));
    assert!(matches!(builder.add_page_line(b"30\t'Alias'\t1"), Ok(PageOutcome::Redirect)));
    assert_eq!(builder.add_redirect_line(b"30\t'Target'"), LineOutcome::Added);
    assert_eq!(builder.add_link_line(b"20\t'Alias'"), LineOutcome::Added);
    assert!(builder.is_page(10) && builder.is_page(20) && !builder.is_page(30));
    let (graph, reverse) = builder.into_graphs();
    assert!(has_edge(&graph, 20, 10));
    assert!(has_edge(&reverse, 10, 20));
    assert_eq!(edge_count(&graph), 1);
    assert!(!has_node(&graph, 30));
    assert!(!has_node(&reverse, 30));
}

#[test]
fn dangling_link_adds_nothing() {
    let pages = lines(&PAGES);
    let redirects = lines(&["5\t'D'"]);
    let links = lines(&["1\t'Nowhere'", "1\t'B'", "2\t'Missing'"]);
    let built = generate(&pages, &redirects, &links).unwrap();
    assert_eq!(edge_count(&built.graph), 1);
    assert!(has_edge(&built.graph, 1, 2));
}

#[test]
fn dangling_redirect_adds_nothing() {
    let pages = lines(&PAGES);
    let redirects = lines(&["5\t'Nowhere'", "6\t'D'"]);
    let links = lines(&["1\t'E'"]);
    let built = generate(&pages, &redirects, &links).unwrap();
    assert_eq!(edge_count(&built.graph), 0);
    assert_eq!(edge_count(&built.reverse_graph), 0);
}

#[test]
fn link_from_an_unknown_page_adds_nothing() {
    let pages = lines(&PAGES);
    let links = lines(&["9\t'B'", "5\t'B'"]);
    let built = generate(&pages, &lines(&[]), &links).unwrap();
    assert_eq!(edge_count(&built.graph), 0);
}

#[test]
fn redirects_are_followed_one_step() {
    let pages = lines(&["1\t'A'\t0", "2\t'B'\t0", "3\t'R1'\t1", "4\t'R2'\t1"]);
    let redirects = lines(&["3\t'B'", "4\t'R1'"]);
    let links = lines(&["1\t'R1'", "1\t'R2'"]);
    let built = generate(&pages, &redirects, &links).unwrap();
    assert!(has_edge(&built.graph, 1, 2));
    assert_eq!(edge_count(&built.graph), 1);
}

#[test]
fn page_title_wins_over_redirect_title() {
    let pages = lines(&["1\t'A'\t0", "2\t'B'\t0", "3\t'X'\t0", "4\t'X'\t1"]);
    let redirects = lines(&["4\t'B'"]);
    let links = lines(&["1\t'X'"]);
    let built = generate(&pages, &redirects, &links).unwrap();
    assert!(has_edge(&built.graph, 1, 3));
    assert_eq!(edge_count(&built.graph), 1);
}

#[test]
fn self_loops_and_repeated_links() {
    let pages = lines(&PAGES);
    let links = lines(&["1\t'A'", "1\t'B'", "1\t'B'", "2\t'A'"]);
    let built = generate(&pages, &lines(&[]), &links).unwrap();
    assert!(has_edge(&built.graph, 1, 1));
    assert!(has_edge(&built.reverse_graph, 1, 1));
    assert_eq!(edge_count(&built.graph), 3);
    assert_eq!(edge_count(&built.reverse_graph), 3);
    assert!(mirrored(&built.graph, &built.reverse_graph));
}

#[test]
fn titles_are_joined_in_raw_form() {
    let pages = lines(&["1\t'A_B'\t0", "2\t'A B'\t0", "3\t'C'\t0"]);
    let links = lines(&["3\t'A_B'", "3\t'a_b'"]);
    let built = generate(&pages, &lines(&[]), &links).unwrap();
    assert!(has_edge(&built.graph, 3, 1));
    assert_eq!(edge_count(&built.graph), 1);
    let index: Vec<(usize, &str)> = built.pages.iter().map(|e| (e.id, e.title.as_str())).collect();
    assert_eq!(index, vec![(1, "A B"), (2, "A B"), (3, "C")]);
}

#[test]
fn malformed_rows_are_skipped() {
    let pages = lines(&["", "1\t'A'\t0", "junk", "x\t'B'\t0", "2\t'B'", "3\t'C'\t0 ", "4\t'\t0", "5\t\t0"]);
    let links = lines(&["1", "1\t'C'", "\t'C'", "one\t'C'"]);
    let built = generate(&pages, &lines(&["nonsense"]), &links).unwrap();
    assert!(has_edge(&built.graph, 1, 3));
    assert_eq!(edge_count(&built.graph), 1);
    let index: Vec<(usize, &str)> = built.pages.iter().map(|e| (e.id, e.title.as_str())).collect();
    assert_eq!(index, vec![(1, "A"), (3, "C")]);
}

#[test]
fn corrupt_title_ends_the_build() {
    let pages = lines(&["1\t'A'\t0", "2\t'B\\q'\t0", "3\t'C\\'\t0"]);
    let outcome = generate(&pages, &lines(&[]), &lines(&[]));
    assert_eq!(outcome.err(), Some(PageFault { line: 1, fault: DecodeError::UnknownEscape }));
    let pages = lines(&["1\t'\\xff'\t0"]);
    assert_eq!(
        generate(&pages, &lines(&[]), &lines(&[])).err(),
        Some(PageFault { line: 0, fault: DecodeError::InvalidUtf8 })
    );
    let pages = lines(&["junk", "9\t'R\\q'\t1", "1\t'\\xf'\t0"]);
    assert_eq!(
        generate(&pages, &lines(&[]), &lines(&[])).err(),
        Some(PageFault { line: 2, fault: DecodeError::UnfinishedEscape })
    );
    let pages = lines(&["1\t'\\xfg'\t0"]);
    assert_eq!(
        generate(&pages, &lines(&[]), &lines(&[])).err(),
        Some(PageFault { line: 0, fault: DecodeError::BadHexDigit })
    );
}

#[test]
fn corrupt_title_of_a_redirect_is_kept_raw() {
    let pages = lines(&["1\t'A'\t0", "2\t'B\\q'\t1"]);
    let redirects = lines(&["2\t'A'"]);
    let links = lines(&["1\t'B\\q'"]);
    let built = generate(&pages, &redirects, &links).unwrap();
    assert!(has_edge(&built.graph, 1, 1));
}

#[test]
fn corrupt_title_leaves_the_builder_as_it_was() {
    let mut builder = GraphBuilder::new();
    assert!(matches!(builder.add_page_line(b"1\t'A'\t0"), Ok(PageOutcome::Page(_))));
    assert_eq!(builder.add_page_line(b"2\t'\\q'\t0").unwrap_err(), DecodeError::UnknownEscape);
    assert!(!builder.is_page(2));
    assert_eq!(builder.add_link_line(b"1\t'\\q'"), LineOutcome::Unresolved);
    let (graph, _) = builder.into_graphs();
    assert_eq!(edge_count(&graph), 0);
}

#[test]
fn page_lines_give_index_entries() {
    let mut builder = GraphBuilder::new();
    match builder.add_page_line(b"7\t'O\\'Brien_(poet)'\t0\n") {
        Ok(PageOutcome::Page(entry)) => assert_eq!((entry.id, entry.title.as_str()), (7, "O'Brien (poet)")),
        other => panic!("{:?}", other),
    }
    assert!(matches!(builder.add_page_line(b"8\t'Redirect'\t1"), Ok(PageOutcome::Redirect)));
    assert!(matches!(builder.add_page_line(b"not a row"), Ok(PageOutcome::Malformed)));
    assert!(matches!(builder.add_page_line(b"8\t'\t0"), Ok(PageOutcome::Malformed)));
    match builder.add_page_line(b"9\tNULL\t0") {
        Ok(PageOutcome::Page(entry)) => assert_eq!((entry.id, entry.title.as_str()), (9, "UL")),
        other => panic!("{:?}", other),
    }
}

#[test]
fn batches_and_single_lines_agree() {
    let pages = lines(&PAGES);
    let redirects = lines(&["5\t'D'"]);
    let links = lines(&["1\t'B'", "2\t'C'", "3\t'D'", "1\t'E'", "4\t'A'"]);
    let mut batch = GraphBuilder::new();
    batch.load_and_preprocess_pages(&pages).unwrap();
    batch.load_redirects(&redirects);
    batch.build_graph(&links);
    let mut single = GraphBuilder::new();
    for line in &pages {
        single.add_page_line(line).unwrap();
    }
    for line in &redirects {
        single.add_redirect_line(line);
    }
    for line in &links {
        single.add_link_line(line);
    }
    let (g1, r1) = batch.into_graphs();
    let (g2, r2) = single.into_graphs();
    assert_eq!(g1.graph, g2.graph);
    assert_eq!(r1.graph, r2.graph);
    assert_eq!(edge_count(&g1), 5);
    assert!(mirrored(&g1, &r1));
}

#[test]
fn outcomes_of_redirect_and_link_lines() {
    let mut builder = GraphBuilder::new();
    for line in &PAGES {
        builder.add_page_line(line.as_bytes()).unwrap();
    }
    assert_eq!(builder.add_redirect_line(b"junk"), LineOutcome::Malformed);
    assert_eq!(builder.add_redirect_line(b"5\t'Nowhere'"), LineOutcome::Unresolved);
    assert_eq!(builder.add_redirect_line(b"6\t'D'"), LineOutcome::Unresolved);
    assert_eq!(builder.add_redirect_line(b"5\t'D'"), LineOutcome::Added);
    assert_eq!(builder.add_link_line(b""), LineOutcome::Malformed);
    assert_eq!(builder.add_link_line(b"1\t'Nowhere'"), LineOutcome::Unresolved);
    assert_eq!(builder.add_link_line(b"9\t'B'"), LineOutcome::Unresolved);
    assert_eq!(builder.add_link_line(b"5\t'B'"), LineOutcome::Unresolved);
    assert_eq!(builder.add_link_line(b"1\t'B'"), LineOutcome::Added);
    assert_eq!(builder.add_link_line(b"1\t'B'"), LineOutcome::Added);
    assert_eq!(builder.add_link_line(b"1\t'E'"), LineOutcome::Added);
    let (graph, reverse) = builder.into_graphs();
    assert_eq!(edge_count(&graph), 2);
    assert!(has_edge(&graph, 1, 2) && has_edge(&graph, 1, 4));
    assert!(mirrored(&graph, &reverse));
}

#[test]
fn build_reports_what_became_of_each_line() {
    let pages = lines(&["1\t'A'\t0", "junk", "2\t'B'\t0", "3\t'R'\t1", "4\t'\t0", "5\t'C'\t0"]);
    let redirects = lines(&["3\t'B'", "nonsense", "3\t'Nowhere'", "7\t'B'"]);
    let links = lines(&["1\t'R'", "1\t'Nowhere'", "8\t'A'", "", "5\t'A'", "3\t'A'"]);
    let built = generate(&pages, &redirects, &links).unwrap();
    assert_eq!(built.malformed_pages, vec![1, 4]);
    assert_eq!(
        built.redirects,
        vec![LineOutcome::Added, LineOutcome::Malformed, LineOutcome::Unresolved, LineOutcome::Unresolved]
    );
    assert_eq!(
        built.links,
        vec![
            LineOutcome::Added,
            LineOutcome::Unresolved,
            LineOutcome::Unresolved,
            LineOutcome::Malformed,
            LineOutcome::Added,
            LineOutcome::Unresolved,
        ]
    );
    assert!(has_edge(&built.graph, 1, 2) && has_edge(&built.graph, 5, 1));
    assert_eq!(edge_count(&built.graph), 2);
    let index: Vec<(usize, &str)> = built.pages.iter().map(|e| (e.id, e.title.as_str())).collect();
    assert_eq!(index, vec![(1, "A"), (2, "B"), (5, "C")]);
}

#[test]
fn batches_report_what_became_of_each_line() {
    let mut builder = GraphBuilder::new();
    let loaded = builder.load_and_preprocess_pages(&lines(&["x", "1\t'A'\t0", "2\t'R'\t1", "3\t\t0"])).unwrap();
    assert_eq!(loaded.malformed, vec![0, 3]);
    assert_eq!(loaded.entries.len(), 1);
    assert_eq!(
        builder.load_redirects(&lines(&["2\t'A'", "2\t'Z'"])),
        vec![LineOutcome::Added, LineOutcome::Unresolved]
    );
    assert_eq!(
        builder.build_graph(&lines(&["1\t'R'", "1\t'Z'", "?"])),
        vec![LineOutcome::Added, LineOutcome::Unresolved, LineOutcome::Malformed]
    );
    let fault = builder.load_and_preprocess_pages(&lines(&["4\t'B'\t0", "5\t'\\q'\t0", "6\t'C'\t0"])).unwrap_err();
    assert_eq!(fault, PageFault { line: 1, fault: DecodeError::UnknownEscape });
    assert!(builder.is_page(4) && !builder.is_page(5) && !builder.is_page(6));
}

#[test]
fn edges_are_added_to_both_graphs() {
    let mut builder = GraphBuilder::new();
    builder.add_edge(1, 2);
    builder.add_edge(1, 2);
    builder.add_edge(1, 3);
    builder.add_edge(3, 3);
    builder.add_edge(2, 1);
    let (graph, reverse) = builder.into_graphs();
    assert_eq!(edge_count(&graph), 4);
    assert_eq!(edge_count(&reverse), 4);
    for (from, to) in [(1, 2), (1, 3), (3, 3), (2, 1)] {
        assert!(has_edge(&graph, from, to));
        assert!(has_edge(&reverse, to, from));
    }
    assert!(!has_edge(&graph, 3, 1) && !has_edge(&reverse, 1, 3));
    assert!(mirrored(&graph, &reverse));
}
