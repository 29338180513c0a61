use wiki_utils::article::create_article_link_set;
use wiki_utils::client::ClientError;
use wiki_utils::links::{FetchOutcome, FetchedArticle, LinkCalcError, LinkCalculator};

fn s(x: &str) -> String {
    x.to_string()
}

fn article(requested: &str, endpoint: &str, links: &[&str]) -> FetchOutcome {
    Ok(FetchedArticle {
        requested: s(requested),
        endpoint: s(endpoint),
        links: links.iter().map(|l| s(l)).collect(),
    })
}

fn sorted(mut v: Vec<String>) -> Vec<String> {
    v.sort();
    v
}

fn redirects(calc: &LinkCalculator) -> Vec<(String, String)> {
    let mut v = calc.get_known_redirects();
    v.sort();
    v
}

#[test]
fn new_calculator_has_origin_layer() {
    let calc = LinkCalculator::new(s("Foo"));
    assert_eq!(calc.get_layer_count(), 1);
    assert_eq!(calc.get_layer(0), vec![s("Foo")]);
    assert_eq!(calc.get_last_layer().unwrap(), vec![s("Foo")]);
    assert!(calc.get_known_redirects().is_empty());
}

#[test]
fn from_article_seeds_two_layers() {
    let origin = FetchedArticle { requested: s("Foo"), endpoint: s("Foo"), links: vec![s("A"), s("B"), s("Foo")] };
    let calc = LinkCalculator::from_article(&origin);
    assert_eq!(calc.get_layer_count(), 2);
    assert_eq!(calc.get_layer(0), vec![s("Foo")]);
    assert_eq!(sorted(calc.get_layer(1)), vec![s("A"), s("B")]);
}

#[test]
fn origin_without_links_gives_empty_layer_and_report() {
    let mut calc = LinkCalculator::new(s("Foo_Bar"));
    calc.compute_next_async(vec![article("Foo_Bar", "Foo_Bar", &[])]).unwrap();
    assert_eq!(calc.get_layer_count(), 2);
    assert!(calc.get_layer(1).is_empty());
    assert_eq!(calc.report(), "Article Name: Foo Bar\n1-Hop Neighbors (0):\nKnown Redirects (0):\n");
}

#[test]
fn fragment_links_collapse_to_one_endpoint() {
    let links = create_article_link_set(&vec![s("/wiki/Bar"), s("/wiki/Bar#History")]);
    assert_eq!(links, vec![s("Bar")]);
    let origin = FetchedArticle { requested: s("Foo"), endpoint: s("Foo"), links };
    let calc = LinkCalculator::from_article(&origin);
    assert_eq!(calc.get_layer(1), vec![s("Bar")]);
}

#[test]
fn redirect_is_recorded_and_layer_normalized() {
    let mut calc = LinkCalculator::new(s("Foo"));
    calc.compute_next_async(vec![article("Foo", "Foo", &["Bar"])]).unwrap();
    assert_eq!(calc.get_layer(1), vec![s("Bar")]);
    calc.compute_next_async(vec![article("Bar", "Baz", &["Qux"])]).unwrap();
    assert_eq!(redirects(&calc), vec![(s("Bar"), s("Baz"))]);
    assert_eq!(calc.get_layer(1), vec![s("Baz")]);
    assert_eq!(calc.get_layer(2), vec![s("Qux")]);
    assert_eq!(calc.get_layer_count(), 3);
}

#[test]
fn link_known_in_earlier_layer_is_excluded() {
    let mut calc = LinkCalculator::new(s("Foo"));
    calc.compute_next_async(vec![article("Foo", "Foo", &["Baz", "Bar"])]).unwrap();
    let round = vec![article("Baz", "Baz", &["Foo", "New"]), article("Bar", "Bar", &["Baz", "Bar", "Other"])];
    calc.compute_next_async(round).unwrap();
    assert_eq!(sorted(calc.get_layer(2)), vec![s("New"), s("Other")]);
}

#[test]
fn link_known_through_redirect_is_excluded() {
    let mut calc = LinkCalculator::new(s("Foo"));
    calc.compute_next_async(vec![article("Foo", "Foo", &["Bar"])]).unwrap();
    calc.compute_next_async(vec![article("Bar", "Baz", &["Qux"])]).unwrap();
    // "Bar" now resolves to "Baz", which stands in layer 1.
    calc.compute_next_async(vec![article("Qux", "Qux", &["Bar", "Baz", "Fresh"])]).unwrap();
    assert_eq!(calc.get_layer(3), vec![s("Fresh")]);
}

#[test]
fn link_is_resolved_before_insertion() {
    let mut calc = LinkCalculator::new(s("Foo"));
    calc.compute_next_async(vec![article("Foo", "Foo", &["Bar"])]).unwrap();
    calc.compute_next_async(vec![article("Bar", "Baz", &["Qux"])]).unwrap();
    calc.compute_next_async(vec![article("Qux", "Qux", &["Alias"])]).unwrap();
    calc.compute_next_async(vec![article("Alias", "Target", &["Bar"])]).unwrap();
    // "Bar" resolves to "Baz" of layer 1; nothing new.
    assert!(calc.get_layer(4).is_empty());
    assert_eq!(calc.get_layer(3), vec![s("Target")]);
}

#[test]
fn failed_fetch_leaves_calculator_unchanged() {
    let mut calc = LinkCalculator::new(s("Foo"));
    calc.compute_next_async(vec![article("Foo", "Foo", &["A", "B"])]).unwrap();
    let round = vec![
        article("A", "A", &["C"]),
        Err(LinkCalcError::ClientError(ClientError::StatusCodeError(404))),
        Err(LinkCalcError::JoinError(s("cancelled"))),
    ];
    let r = calc.compute_next_async(round);
    assert!(matches!(r, Err(LinkCalcError::ClientError(ClientError::StatusCodeError(404)))));
    assert_eq!(calc.get_layer_count(), 2);
    assert_eq!(sorted(calc.get_layer(1)), vec![s("A"), s("B")]);
    assert!(calc.get_known_redirects().is_empty());
}

#[test]
fn each_successful_round_adds_one_layer() {
    let mut calc = LinkCalculator::new(s("Foo"));
    let rounds = 3;
    for k in 0..rounds {
        let last = calc.get_last_layer().unwrap();
        let outcomes = last.iter().map(|e| article(e, e, &[&format!("L{}", k + 1)])).collect();
        calc.compute_next_async(outcomes).unwrap();
    }
    assert_eq!(calc.get_layer_count(), rounds + 1);
}

#[test]
fn redirect_table_keeps_first_target() {
    let mut calc = LinkCalculator::new(s("Foo"));
    calc.compute_next_async(vec![article("Foo", "Foo", &["Bar"])]).unwrap();
    calc.compute_next_async(vec![article("Bar", "Baz", &["Bar"])]).unwrap();
    // "Bar" links back to itself; it resolves to "Baz" and stays out.
    assert!(calc.get_layer(2).is_empty());
    let mut again = LinkCalculator::new(s("X"));
    again.compute_next_async(vec![article("X", "Y", &[])]).unwrap();
    assert_eq!(redirects(&again), vec![(s("X"), s("Y"))]);
    assert_eq!(again.get_layer(0), vec![s("Y")]);
    // The last layer is now empty: an outcome for "X" answers nothing.
    let r = again.compute_next_async(vec![article("X", "Z", &[])]);
    assert!(matches!(r, Err(LinkCalcError::OutcomesMismatch)));
    assert_eq!(redirects(&again), vec![(s("X"), s("Y"))]);
    assert_eq!(again.get_layer_count(), 2);
}

#[test]
fn report_lists_layers_and_decoded_redirects() {
    let mut calc = LinkCalculator::new(s("Foo"));
    calc.compute_next_async(vec![article("Foo", "Foo", &["Caf%C3%A9"])]).unwrap();
    calc.compute_next_async(vec![article("Caf%C3%A9", "Le_Caf%C3%A9", &["%FF"])]).unwrap();
    assert_eq!(
        calc.report(),
        "Article Name: Foo\n1-Hop Neighbors (1):\n\tLe Café\n2-Hop Neighbors (1):\n\t%FF\nKnown Redirects (1):\n\tCafé -> Le Café\n"
    );
}

#[test]
fn layers_stay_disjoint_over_a_run() {
    let origin = FetchedArticle { requested: s("A"), endpoint: s("A"), links: vec![s("B"), s("C"), s("A")] };
    let mut calc = LinkCalculator::from_article(&origin);
    calc.compute_next_async(vec![article("B", "B", &["A", "C", "D"]), article("C", "C", &["D", "E", "B"])]).unwrap();
    calc.compute_next_async(vec![article("D", "D", &["A", "F"]), article("E", "E", &["C", "F", "G"])]).unwrap();
    let layers: Vec<Vec<String>> = (0..calc.get_layer_count()).map(|i| sorted(calc.get_layer(i))).collect();
    assert_eq!(layers, vec![vec![s("A")], vec![s("B"), s("C")], vec![s("D"), s("E")], vec![s("F"), s("G")]]);
    for i in 0..layers.len() {
        for j in 0..layers.len() {
            if i != j {
                assert!(layers[i].iter().all(|e| !layers[j].contains(e)));
            }
        }
    }
}

#[test]
fn chained_redirect_leaves_no_source_in_layer() {
    let mut calc = LinkCalculator::new(s("Foo"));
    calc.compute_next_async(vec![article("Foo", "Foo", &["Bar", "X"])]).unwrap();
    calc.compute_next_async(vec![article("Bar", "Baz", &[]), article("X", "Bar", &[])]).unwrap();
    assert_eq!(calc.get_layer(1), vec![s("Baz")]);
    assert_eq!(redirects(&calc), vec![(s("Bar"), s("Baz")), (s("X"), s("Bar"))]);
}

#[test]
fn outcomes_must_answer_the_last_layer() {
    let mut calc = LinkCalculator::new(s("Foo"));
    calc.compute_next_async(vec![article("Foo", "Foo", &["A", "B"])]).unwrap();
    let missing = vec![article("A", "A", &["C"])];
    assert!(matches!(calc.compute_next_async(missing), Err(LinkCalcError::OutcomesMismatch)));
    let twice = vec![article("A", "A", &[]), article("B", "B", &[]), article("A", "A", &[])];
    assert!(matches!(calc.compute_next_async(twice), Err(LinkCalcError::OutcomesMismatch)));
    let stranger = vec![article("A", "A", &[]), article("Z", "Z", &[])];
    assert!(matches!(calc.compute_next_async(stranger), Err(LinkCalcError::OutcomesMismatch)));
    assert_eq!(calc.get_layer_count(), 2);
    assert_eq!(sorted(calc.get_layer(1)), vec![s("A"), s("B")]);
    calc.compute_next_async(vec![article("B", "B", &[]), article("A", "A", &["C"])]).unwrap();
    assert_eq!(calc.get_layer(2), vec![s("C")]);
}

#[test]
fn undecodable_origin_is_written_raw_after_article_name() {
    let mut calc = LinkCalculator::new(s("%zz"));
    calc.compute_next_async(vec![article("%zz", "%zz", &[])]).unwrap();
    assert_eq!(calc.report(), "Article Name: %zz\n1-Hop Neighbors (0):\nKnown Redirects (0):\n");
}

#[test]
fn redirect_back_to_origin_keeps_layers_disjoint() {
    let mut calc = LinkCalculator::new(s("A"));
    calc.compute_next_async(vec![article("A", "A", &["B"])]).unwrap();
    calc.compute_next_async(vec![article("B", "A", &["C"])]).unwrap();
    assert_eq!(redirects(&calc), vec![(s("B"), s("A"))]);
    assert_eq!(calc.get_layer(0), vec![s("A")]);
    assert!(calc.get_layer(1).is_empty());
    assert_eq!(calc.get_layer(2), vec![s("C")]);
}

#[test]
fn redirect_target_discovered_in_same_round_stays_one_hop_closer() {
    let mut calc = LinkCalculator::new(s("A"));
    calc.compute_next_async(vec![article("A", "A", &["B", "D"])]).unwrap();
    calc.compute_next_async(vec![article("B", "C", &[]), article("D", "D", &["C", "E"])]).unwrap();
    assert_eq!(sorted(calc.get_layer(1)), vec![s("C"), s("D")]);
    assert_eq!(calc.get_layer(2), vec![s("E")]);
}
