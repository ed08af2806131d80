use lod_cloud_draw::data::{Dataset, IntLike, Link};
use lod_cloud_draw::ident::{count_domains, count_keywords, domain_by_most_neighbours};

fn dataset(identifier: &str, domain: &str, targets: &[&str]) -> (String, Dataset) {
    let links = targets
        .iter()
        .map(|t| Link { target: t.to_string(), value: String::new() })
        .collect();
    (
        identifier.to_string(),
        Dataset {
            description: vec![("en".to_string(), Some("text".to_string()))],
            title: Some(identifier.to_uppercase()),
            links,
            identifier: identifier.to_string(),
            domain: domain.to_string(),
            triples: IntLike::from(7),
            keywords: vec!["k".to_string()],
        },
    )
}

fn domains(data: &[(String, Dataset)]) -> Vec<&str> {
    data.iter().map(|d| d.1.domain.as_str()).collect()
}

#[test]
fn domain_comes_from_the_targets_of_links() {
    let mut data = vec![dataset("a", "", &["b"]), dataset("b", "geo", &[])];
    domain_by_most_neighbours(&mut data);
    assert_eq!(domains(&data), vec!["geo", "geo"]);
}

#[test]
fn domain_comes_from_the_sources_of_links() {
    let mut data = vec![dataset("a", "media", &["b"]), dataset("b", "", &[])];
    domain_by_most_neighbours(&mut data);
    assert_eq!(domains(&data), vec!["media", "media"]);
}

#[test]
fn most_neighbours_decide() {
    let mut data = vec![
        dataset("x", "", &["p", "q", "r"]),
        dataset("p", "one", &[]),
        dataset("q", "two", &["x"]),
        dataset("r", "two", &[]),
    ];
    domain_by_most_neighbours(&mut data);
    assert_eq!(domains(&data), vec!["two", "one", "two", "two"]);
}

#[test]
fn first_vote_decides_between_equals() {
    let mut data = vec![
        dataset("x", "", &["p", "q"]),
        dataset("p", "one", &[]),
        dataset("q", "two", &[]),
    ];
    domain_by_most_neighbours(&mut data);
    assert_eq!(domains(&data), vec!["one", "one", "two"]);
}

#[test]
fn domains_are_handed_on() {
    let mut data = vec![
        dataset("far", "", &["mid"]),
        dataset("mid", "", &["near"]),
        dataset("near", "", &["known"]),
        dataset("known", "life", &[]),
    ];
    domain_by_most_neighbours(&mut data);
    assert_eq!(domains(&data), vec!["life", "life", "life", "life"]);
}

#[test]
fn datasets_without_known_neighbours_stay_as_they_are() {
    let mut data = vec![
        dataset("a", "", &["b"]),
        dataset("b", "", &["a", "nowhere"]),
        dataset("c", "", &[]),
        dataset("d", "gov", &[]),
    ];
    domain_by_most_neighbours(&mut data);
    assert_eq!(domains(&data), vec!["", "", "", "gov"]);
}

#[test]
fn nothing_but_domains_is_changed() {
    let mut data = vec![dataset("a", "", &["b"]), dataset("b", "geo", &["a"])];
    domain_by_most_neighbours(&mut data);
    assert_eq!(data[0].0, "a");
    assert_eq!(data[0].1.identifier, "a");
    assert_eq!(data[0].1.title, Some("A".to_string()));
    assert_eq!(data[0].1.links.len(), 1);
    assert_eq!(data[0].1.links[0].target, "b");
    assert_eq!(data[0].1.triples.get(), 7);
    assert_eq!(data[0].1.keywords, vec!["k".to_string()]);
    assert_eq!(data[0].1.description, vec![("en".to_string(), Some("text".to_string()))]);
    assert_eq!(data[1].1.domain, "geo");
}

#[test]
fn no_datasets_are_no_trouble() {
    let mut data: Vec<(String, Dataset)> = Vec::new();
    domain_by_most_neighbours(&mut data);
    assert!(data.is_empty());
}

fn tagged(identifier: &str, domain: &str, keywords: &[&str]) -> (String, Dataset) {
    let mut entry = dataset(identifier, domain, &[]);
    entry.1.keywords = keywords.iter().map(|k| k.to_string()).collect();
    entry
}

fn tally(pairs: &[(&str, u128)]) -> Vec<(String, u128)> {
    pairs.iter().map(|p| (p.0.to_string(), p.1)).collect()
}

#[test]
fn domains_are_counted_in_the_order_of_their_first_dataset() {
    let data = vec![
        tagged("a", "geo", &[]),
        tagged("b", "", &[]),
        tagged("c", "media", &[]),
        tagged("d", "geo", &[]),
    ];
    assert_eq!(count_domains(&data), tally(&[("geo", 2), ("media", 1)]));
    assert!(count_domains(&Vec::new()).is_empty());
}

#[test]
fn keywords_of_datasets_without_a_domain_are_not_counted() {
    let data = vec![
        tagged("foo", "a", &["f", "o", "o"]),
        tagged("bar", "b", &["b", "a", "r"]),
        tagged("baz", "b", &["b", "a", "z"]),
        tagged("bao", "", &["b", "a", "o"]),
    ];
    assert_eq!(
        count_keywords(&data, &String::new()),
        tally(&[("f", 1), ("o", 2), ("b", 2), ("a", 2), ("r", 1), ("z", 1)])
    );
    assert_eq!(count_keywords(&data, &"b".to_string()), tally(&[("b", 2), ("a", 2), ("r", 1), ("z", 1)]));
    assert_eq!(count_keywords(&data, &"a".to_string()), tally(&[("f", 1), ("o", 2)]));
    assert!(count_keywords(&data, &"c".to_string()).is_empty());
}
