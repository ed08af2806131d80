use lod_cloud_draw::data::{Dataset, IntLike, Link};

#[test]
fn number_is_kept() {
    assert_eq!(IntLike::from(42).get(), 42);
    assert_eq!(IntLike::from(-3).get(), -3);
    assert_eq!(IntLike(Some(i64::MIN)).get(), i64::MIN);
}

#[test]
fn missing_number_counts_as_zero() {
    assert_eq!(IntLike(None).get(), 0);
}

#[test]
fn copies_say_the_same() {
    let d = Dataset {
        description: vec![("en".to_string(), Some("A great dataset".to_string())), ("ga".to_string(), None)],
        title: Some("Dataset Numero Uno".to_string()),
        links: vec![Link { target: "dataset2".to_string(), value: "456".to_string() }],
        identifier: "dataset1".to_string(),
        domain: "user-generated".to_string(),
        triples: IntLike::from(12),
        keywords: vec!["one".to_string(), "two".to_string()],
    };
    let c = d.clone();
    assert_eq!(c.description, d.description);
    assert_eq!(c.title, d.title);
    assert_eq!(c.links.len(), 1);
    assert_eq!(c.links[0].target, "dataset2");
    assert_eq!(c.links[0].value, "456");
    assert_eq!(c.identifier, "dataset1");
    assert_eq!(c.domain, "user-generated");
    assert_eq!(c.triples.get(), 12);
    assert_eq!(c.keywords, d.keywords);
    let l = d.links[0].clone();
    assert_eq!(l.target, "dataset2");
    assert_eq!(l.value, "456");
}
