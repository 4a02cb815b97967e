use flooglyflup::quality::DomainLists;
use flooglyflup::rank::LinkGraph;

fn owned(parts: &[&str]) -> Vec<String> {
    parts.iter().map(|p| p.to_string()).collect()
}

#[test]
fn the_plan_lists_who_votes_for_whom() {
    let mut graph = LinkGraph::new();
    graph.add_page("https://a.good.org/1", &owned(&["https://b.org/2", "https://b.org/2", "https://c.org/3"]));
    graph.add_page("https://b.org/2", &owned(&[]));
    graph.add_page("https://d.org/4", &owned(&["https://a.good.org/1"]));
    let plan = graph.plan(&DomainLists::parse("good.org", ""));
    assert_eq!(plan.len(), 3);
    assert_eq!(plan[0].url, "https://a.good.org/1");
    assert!(plan[0].trusted && !plan[1].trusted && !plan[2].trusted);
    assert!(!plan[0].dangling && plan[1].dangling && !plan[2].dangling);
    assert_eq!(plan[0].inbound, vec![(2, 1)]);
    assert_eq!(plan[1].inbound, vec![(0, 3), (0, 3)]);
    assert!(plan[2].inbound.is_empty());
    assert_eq!(graph.place_of("https://b.org/2"), Some(1));
    assert_eq!(graph.place_of("https://c.org/3"), None);
}

#[test]
fn a_page_gives_no_more_votes_than_it_has_links() {
    let mut graph = LinkGraph::new();
    graph.add_page("u0", &owned(&["u1", "u2", "elsewhere", "u1"]));
    graph.add_page("u1", &owned(&["u0"]));
    graph.add_page("u2", &owned(&["u2"]));
    let plan = graph.plan(&DomainLists::parse("", ""));
    for source in 0..3 {
        let votes: Vec<usize> =
            plan.iter().flat_map(|n| n.inbound.iter()).filter(|v| v.0 == source).map(|v| v.1).collect();
        for count in &votes {
            assert!(votes.len() <= *count);
        }
    }
    assert_eq!(plan[2].inbound, vec![(0, 4), (2, 1)]);
}

#[test]
fn a_page_that_comes_again_counts_once_but_votes_twice() {
    let mut graph = LinkGraph::new();
    graph.add_page("u", &owned(&["v"]));
    graph.add_page("v", &owned(&[]));
    graph.add_page("u", &owned(&["v", "w"]));
    let plan = graph.plan(&DomainLists::parse("", ""));
    assert_eq!(plan.len(), 2);
    assert_eq!(plan[1].inbound, vec![(0, 2), (0, 2)]);
    graph.add_page("u", &owned(&[]));
    let plan = graph.plan(&DomainLists::parse("", ""));
    assert!(plan[0].dangling);
    assert!(plan[1].inbound.is_empty());
}

#[test]
fn addresses_without_a_domain_are_not_trusted() {
    let mut graph = LinkGraph::new();
    graph.add_page("http://127.0.0.1/", &owned(&[]));
    graph.add_page("127.0.0.1", &owned(&[]));
    let plan = graph.plan(&DomainLists::parse("127.0.0.1", ""));
    assert!(plan.iter().all(|node| !node.trusted));
    assert!(LinkGraph::new().plan(&DomainLists::parse("", "")).is_empty());
}
