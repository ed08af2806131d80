use lod_cloud_draw::settings::{contains_name, LegendEntry, Settings};
use lod_cloud_draw::svg::{bubble_label, get_colour, legend_fits, legend_length, shorten_text};

fn entry(title: &str, domain: Option<&str>, colour: &str, keywords: Option<&[&str]>) -> LegendEntry {
    LegendEntry {
        title: title.to_string(),
        domain: domain.map(|d| d.to_string()),
        colour: colour.to_string(),
        keywords: keywords.map(|k| k.iter().map(|t| t.to_string()).collect()),
    }
}

fn with_legend(legend: Vec<LegendEntry>) -> Settings<f64> {
    Settings {
        legend,
        fixed_points: Vec::new(),
        selection: None,
        selected: None,
        hops: None,
        datasets: None,
        rights_text: None,
        logo_link: None,
        logo_width: None,
        bubble_size_factor: None,
    }
}

fn words(list: &[&str]) -> Vec<String> {
    list.iter().map(|w| w.to_string()).collect()
}

#[test]
fn names_are_found_among_names() {
    let names = words(&["a", "bc"]);
    assert!(contains_name(&names, &"bc".to_string()));
    assert!(!contains_name(&names, &"b".to_string()));
    assert!(!contains_name(&Vec::new(), &"a".to_string()));
}

#[test]
fn colour_goes_by_domain() {
    let legend = with_legend(vec![
        entry("Geography", Some("geography"), "#29c9cc", None),
        entry("Media", Some("media"), "#008080", None),
    ]);
    assert_eq!(get_colour("media", &Vec::new(), &legend), "#008080");
    assert_eq!(get_colour("geography", &Vec::new(), &legend), "#29c9cc");
}

#[test]
fn colour_is_white_where_nothing_fits() {
    let legend = with_legend(vec![entry("Media", Some("media"), "#008080", Some(&["film"]))]);
    assert_eq!(get_colour("linguistics", &words(&["lexicon"]), &legend), "white");
    assert_eq!(get_colour("media", &Vec::new(), &with_legend(Vec::new())), "white");
}

#[test]
fn colour_goes_by_keyword() {
    let legend = with_legend(vec![
        entry("Media", Some("media"), "#008080", Some(&["film", "music"])),
        entry("Life", None, "#db777f", Some(&["biology"])),
    ]);
    assert_eq!(get_colour("", &words(&["x", "music"]), &legend), "#008080");
    assert_eq!(get_colour("", &words(&["biology"]), &legend), "#db777f");
}

#[test]
fn first_entry_that_fits_gives_the_colour() {
    let legend = with_legend(vec![
        entry("By tag", None, "red", Some(&["t"])),
        entry("By domain", Some("d"), "green", None),
    ]);
    assert_eq!(get_colour("d", &words(&["t"]), &legend), "red");
    assert_eq!(get_colour("d", &words(&["u"]), &legend), "green");
}

#[test]
fn entry_with_an_empty_keyword_list_fits_everything() {
    let legend = with_legend(vec![
        entry("Media", Some("media"), "#008080", None),
        entry("Other", None, "grey", Some(&[])),
        entry("Never", Some("x"), "black", None),
    ]);
    assert_eq!(get_colour("x", &Vec::new(), &legend), "grey");
    assert_eq!(get_colour("media", &Vec::new(), &legend), "#008080");
}

#[test]
fn short_texts_are_shown_whole() {
    assert_eq!(shorten_text(""), "");
    assert_eq!(shorten_text("DBpedia"), "DBpedia");
    assert_eq!(shorten_text("123456789"), "123456789");
}

#[test]
fn long_texts_are_cut_after_six_characters() {
    assert_eq!(shorten_text("1234567890"), "123456...");
    assert_eq!(shorten_text("Linked Open Data"), "Linked...");
}

#[test]
fn texts_are_measured_in_bytes_and_cut_in_characters() {
    assert_eq!(shorten_text("ééééé"), "ééééé...");
    assert_eq!(shorten_text("éééé"), "éééé");
    assert_eq!(shorten_text("Dó Dó Dó"), "Dó Dó ...");
    assert_eq!(shorten_text("日本語の"), "日本語の...");
}

#[test]
fn legend_is_no_narrower_than_its_least_width() {
    assert_eq!(legend_length(&with_legend(Vec::new())), 310);
    assert_eq!(legend_length(&with_legend(vec![entry("Media", None, "c", None)])), 310);
    assert_eq!(legend_length(&with_legend(vec![entry("123456789012345678", None, "c", None)])), 310);
}

#[test]
fn legend_is_as_wide_as_its_longest_title() {
    let legend = with_legend(vec![
        entry("Media", None, "c", None),
        entry("1234567890123456789", None, "c", None),
        entry("Social Networking", None, "c", None),
    ]);
    assert_eq!(legend_length(&legend), 19 * 17);
}

#[test]
fn labels_are_shortened_and_escaped() {
    assert_eq!(bubble_label(&None), "Unname...");
    assert_eq!(bubble_label(&Some("DBpedia".to_string())), "DBpedia");
    assert_eq!(bubble_label(&Some("a<b>&\"c'".to_string())), "a&lt;b&gt;&amp;&quot;c&#x27;");
    assert_eq!(bubble_label(&Some("R&D at large".to_string())), "R&amp;D at...");
}

#[test]
fn legends_of_this_world_fit() {
    assert!(legend_fits(&with_legend(Vec::new())));
    assert!(legend_fits(&with_legend(vec![entry("Social Networking", None, "c", None)])));
}
