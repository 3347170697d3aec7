use slide_flow::bib::BibEntry;

#[test]
fn test_parse_slide_config_bibliography() {
    let bibliography = vec![
        BibEntry {
            tag: "tag1".to_string(),
            authors: Some("Author A, Author B".to_string()),
            title: "This is bibliographic information 1".to_string(),
            year: 2021,
            venue: Some("Conference X".to_string()),
            url: Some("https://doi.org/xxxx".to_string()),
        },
        BibEntry {
            tag: "tag2".to_string(),
            authors: Some("Author C".to_string()),
            title: "This is bibliographic information 2".to_string(),
            year: 2020,
            venue: None,
            url: Some("https://doi.org/yyyy".to_string()),
        },
    ];
    assert_eq!(bibliography.len(), 2);
    assert_eq!(
        bibliography[0].format(),
        "Author A, Author B. This is bibliographic information 1. Conference X, 2021. https://doi.org/xxxx"
    );
    assert_eq!(
        bibliography[1].format(),
        "Author C. This is bibliographic information 2. 2020. https://doi.org/yyyy"
    );
}

#[test]
fn format_with_title_and_year_only() {
    let e = BibEntry {
        tag: "t".to_string(),
        title: "T".to_string(),
        authors: None,
        year: 7,
        venue: None,
        url: None,
    };
    assert_eq!(e.format(), "T. 7");
}

#[test]
fn format_with_venue_and_largest_year() {
    let e = BibEntry {
        tag: "t".to_string(),
        title: "T".to_string(),
        authors: None,
        year: 65535,
        venue: Some("V".to_string()),
        url: None,
    };
    assert_eq!(e.format(), "T. V, 65535");
}

#[test]
fn format_year_zero() {
    let e = BibEntry {
        tag: "t".to_string(),
        title: "".to_string(),
        authors: Some("A".to_string()),
        year: 0,
        venue: None,
        url: Some("u".to_string()),
    };
    assert_eq!(e.format(), "A. . 0. u");
}
