use wiki_utils::article::{create_article_link_set, endpoint_of_link, get_lead_string};

fn s(x: &str) -> String {
    x.to_string()
}

#[test]
fn article_link_becomes_endpoint() {
    assert_eq!(endpoint_of_link("/wiki/Bar"), Some(s("Bar")));
    assert_eq!(endpoint_of_link("/wiki/Bar#History"), Some(s("Bar")));
    assert_eq!(endpoint_of_link("/wiki/A#b#c"), Some(s("A")));
    assert_eq!(endpoint_of_link("/wiki/"), Some(s("")));
}

#[test]
fn namespaced_and_foreign_links_are_dropped() {
    assert_eq!(endpoint_of_link("/wiki/Help:Contents"), None);
    assert_eq!(endpoint_of_link("/wiki/Bar#Note:1"), None);
    assert_eq!(endpoint_of_link("/w/index.php?title=Bar"), None);
    assert_eq!(endpoint_of_link("https://example.org/wiki/Bar"), None);
}

#[test]
fn link_set_holds_each_article_once() {
    let hrefs = vec![s("/wiki/A"), s("/wiki/File:x.png"), s("/wiki/B#s"), s("#top"), s("/wiki/A"), s("/wiki/B")];
    assert_eq!(create_article_link_set(&hrefs), vec![s("A"), s("B")]);
}

#[test]
fn lead_is_paragraphs_before_first_heading() {
    let children = vec![
        (s("div"), s("<div>box</div>")),
        (s("p"), s("<p>one</p>")),
        (s("table"), s("<table></table>")),
        (s("p"), s("<p>two</p>")),
        (s("h2"), s("<h2>History</h2>")),
        (s("p"), s("<p>three</p>")),
    ];
    assert_eq!(get_lead_string(&children), "<p>one</p><p>two</p>");
    assert_eq!(get_lead_string(&vec![]), "");
}
