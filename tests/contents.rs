use slide_flow::bib::BibEntry;
use slide_flow::contents::{update_document, ContentsError, SlideContents, SlidePage};

fn entry(tag: &str, title: &str, year: u16) -> BibEntry {
    BibEntry {
        tag: tag.to_string(),
        title: title.to_string(),
        authors: None,
        year,
        venue: None,
        url: None,
    }
}

#[test]
fn test_slide_contents() {
    let s = r#"---
marp: true
title: Sample Slide
author: John Doe
---

# Slide 1
Some content here.

---

# Slide 2
More content here.

---
# Slide 3
Some content here.
"#;

    let slide_contents = SlideContents::try_from(s).unwrap();

    assert_eq!(
        &slide_contents.frontmatter,
        "marp: true\ntitle: Sample Slide\nauthor: John Doe\n"
    );

    assert_eq!(slide_contents.pages.len(), 3);
    assert_eq!(
        &slide_contents.pages[0].contents,
        &"# Slide 1\nSome content here."
    );
    assert_eq!(
        &slide_contents.pages[1].contents,
        &"# Slide 2\nMore content here."
    );
    assert_eq!(
        &slide_contents.pages[2].contents,
        &"# Slide 3\nSome content here."
    );
}

#[test]
fn test_slide_contents_no_frontmatter() {
    let s = r#"# Slide 1
Some content here.
"#;

    let result = SlideContents::try_from(s);
    assert!(result.is_err());
}

#[test]
fn test_enumerate_references() {
    let bib = vec![
        BibEntry {
            tag: "ref1".to_string(),
            authors: Some("Author A".to_string()),
            title: "Title A".to_string(),
            year: 2020,
            venue: Some("Venue A".to_string()),
            url: Some("https://doi.org/xxxx".to_string()),
        },
        BibEntry {
            tag: "ref2".to_string(),
            authors: Some("Author B".to_string()),
            title: "Title B".to_string(),
            year: 2021,
            venue: Some("Venue B".to_string()),
            url: Some("https://doi.org/yyyy".to_string()),
        },
    ];

    let s = r#"---
marp: true
title: Sample Slide
author: John Doe
---
# Slide 1
Some content here with a reference [see this](#ref2) and another [example](#ref1).
"#;

    let slide_contents = SlideContents::try_from(s).unwrap();
    let page = &slide_contents.pages[0];

    let refs = page.enumerate_references(&bib);
    assert_eq!(refs.len(), 2);
    assert_eq!(refs[0].tag, "ref2");
    assert_eq!(refs[1].tag, "ref1");
}

#[test]
fn split_only_one_segment_is_missing_frontmatter() {
    assert_eq!(
        SlideContents::parse("---\ntitle: T\n").err(),
        Some(ContentsError::MissingFrontmatter)
    );
}

#[test]
fn split_empty_text_is_missing_frontmatter() {
    assert_eq!(
        SlideContents::parse("").err(),
        Some(ContentsError::MissingFrontmatter)
    );
}

#[test]
fn split_keeps_frontmatter_verbatim_and_trims_pages() {
    let c = SlideContents::parse("-----\n  fm  \n---\n\n  body  \n\n---\r\n").unwrap();
    assert_eq!(c.frontmatter, "  fm  \n");
    assert_eq!(c.pages.len(), 2);
    assert_eq!(c.pages[0].contents, "body");
    assert_eq!(c.pages[1].contents, "");
}

#[test]
fn split_line_with_hyphens_and_text_is_content() {
    let c = SlideContents::parse("---\n---\n--- x\n--\n").unwrap();
    assert_eq!(c.frontmatter, "");
    assert_eq!(c.pages.len(), 1);
    assert_eq!(c.pages[0].contents, "--- x\n--");
}

#[test]
fn serialize_joins_trimmed_pages() {
    let c = SlideContents {
        frontmatter: "title: T\n".to_string(),
        pages: vec![
            SlidePage { contents: "  a\n".to_string() },
            SlidePage { contents: "b".to_string() },
        ],
    };
    assert_eq!(c.to_marp(), "---\ntitle: T\n---\na\n\n---\n\nb");
}

#[test]
fn split_serialize_split_round_trip() {
    let text = "---\ntitle: T\n---\n\n# A\ntext\n\n---\n# B\n\n---\n";
    let first = SlideContents::parse(text).unwrap();
    let again = SlideContents::parse(&first.to_marp()).unwrap();
    assert_eq!(first.frontmatter, again.frontmatter);
    assert_eq!(first.pages.len(), again.pages.len());
    for (a, b) in first.pages.iter().zip(again.pages.iter()) {
        assert_eq!(a.contents, b.contents);
    }
}

const EXAMPLE: &str = "---\ntitle: T\n---\nSee [x](#a) and [y](#b).\n---\nCite [z](#a) again.\n";

fn example_bib() -> Vec<BibEntry> {
    vec![entry("a", "A", 2020), entry("b", "B", 2021)]
}

#[test]
fn example_global_index_and_page_references() {
    let bib = example_bib();
    let c = SlideContents::parse(EXAMPLE).unwrap();
    let index = c.generate_bib_index(&bib);
    assert_eq!(index.len(), 2);
    assert_eq!(index.number_of("a"), Some(1));
    assert_eq!(index.number_of("b"), Some(2));
    assert_eq!(index.number_of("c"), None);
    let per_page = c.enumerate_bib_entries(&bib);
    assert_eq!(per_page.len(), 2);
    let tags: Vec<&str> = per_page[0].iter().map(|e| e.tag.as_str()).collect();
    assert_eq!(tags, vec!["a", "b"]);
    let tags: Vec<&str> = per_page[1].iter().map(|e| e.tag.as_str()).collect();
    assert_eq!(tags, vec!["a"]);
}

#[test]
fn example_modify_bibliography() {
    let bib = example_bib();
    let mut c = SlideContents::parse(EXAMPLE).unwrap();
    c.modify_bibliography(&bib);
    assert_eq!(
        c.pages[0].contents,
        "See [1](#a:1) and [2](#b:1).\n\n<div class=\"footnote\">\n\n\
<span id=\"a:1\">[1]</span> A. 2020\n<span id=\"b:1\">[2]</span> B. 2021\n\n\n\n</div>\n"
    );
    assert_eq!(
        c.pages[1].contents,
        "Cite [1](#a:2) again.\n\n<div class=\"footnote\">\n\n\
<span id=\"a:2\">[1]</span> A. 2020\n\n\n\n</div>\n"
    );
}

#[test]
fn global_index_is_the_same_on_a_second_run() {
    let bib = example_bib();
    let c = SlideContents::parse("---\n---\n[q](#b) [r](#zz) [s](#a)\n---\n[t](#b)\n").unwrap();
    let first = c.generate_bib_index(&bib);
    let second = c.generate_bib_index(&bib);
    assert_eq!(first.len(), second.len());
    for i in 0..first.len() {
        assert_eq!(first.tag(i), second.tag(i));
    }
    assert_eq!(first.tag(0), "b");
    assert_eq!(first.tag(1), "a");
}

#[test]
fn unresolved_citation_is_left_unchanged() {
    let bib = example_bib();
    let text = "---\n---\nSee [x](#nope) and [y](#other:12).\n";
    let out = update_document(text, &bib).unwrap();
    assert_eq!(out, "---\n---\nSee [x](#nope) and [y](#other:12).");
}

#[test]
fn stale_page_anchor_is_replaced() {
    let bib = example_bib();
    let mut c = SlideContents::parse("---\n---\n[old](#b:7) [w](#a:x)\n").unwrap();
    c.modify_bibliography(&bib);
    assert!(c.pages[0].contents.starts_with("[1](#b:1) [w](#a:x)"));
}

#[test]
fn footnote_purges_stale_entries() {
    let bib = example_bib();
    let text = "---\n---\nSee [x](#b).\n\n<div class=\"footnote\">\n\
<span id=\"a:1\">[1]</span> A. 2020\nkept\n</div>\nafter";
    let mut c = SlideContents::parse(text).unwrap();
    c.modify_bibliography(&bib);
    assert_eq!(
        c.pages[0].contents,
        "See [1](#b:1).\n\n<div class=\"footnote\">\nkept\n\
<span id=\"b:1\">[1]</span> B. 2021\n\n</div>\nafter"
    );
}

#[test]
fn page_without_citations_keeps_its_footnote() {
    let bib = example_bib();
    let text = "---\n---\nno links\n<div class=\"footnote\">\n<span id=\"a:1\">[1]</span> A. 2020\n</div>";
    let mut c = SlideContents::parse(text).unwrap();
    c.modify_bibliography(&bib);
    assert_eq!(
        c.pages[0].contents,
        "no links\n<div class=\"footnote\">\n<span id=\"a:1\">[1]</span> A. 2020\n</div>"
    );
}

#[test]
fn update_document_reports_missing_frontmatter() {
    assert_eq!(
        update_document("no separator\n", &example_bib()),
        Err(ContentsError::MissingFrontmatter)
    );
}

#[test]
fn citation_repeated_on_a_page_is_listed_once() {
    let bib = example_bib();
    let c = SlideContents::parse("---\n---\n[1](#a) [2](#a) [3](#a:4)\n").unwrap();
    let refs = c.pages[0].enumerate_references(&bib);
    assert_eq!(refs.len(), 1);
    assert_eq!(refs[0].tag, "a");
}

#[test]
fn update_without_citations_is_stable() {
    let bib = example_bib();
    let first = update_document("---\nt\n---\n a \n---\nb\n", &bib).unwrap();
    let second = update_document(&first, &bib).unwrap();
    assert_eq!(first, "---\nt\n---\na\n\n---\n\nb");
    assert_eq!(first, second);
}

#[test]
fn footnote_line_with_entry_is_removed_whole() {
    let bib = example_bib();
    let text = "---\n---\n[x](#a)\n<div class=\"footnote\">\n<span id=\"x:1\">[1]</span> X\n</div>";
    let mut c = SlideContents::parse(text).unwrap();
    c.modify_bibliography(&bib);
    assert_eq!(
        c.pages[0].contents,
        "[1](#a:1)\n<div class=\"footnote\">\n<span id=\"a:1\">[1]</span> A. 2020\n\n</div>"
    );
}

#[test]
fn page_anchor_with_other_decimal_digits() {
    let bib = example_bib();
    let mut c = SlideContents::parse("---\n---\n[x](#a:\u{663}) [y](#b:\u{663}x)\n").unwrap();
    let refs = c.pages[0].enumerate_references(&bib);
    assert_eq!(refs.len(), 1);
    assert_eq!(refs[0].tag, "a");
    c.modify_bibliography(&bib);
    assert!(c.pages[0].contents.starts_with("[1](#a:1) [y](#b:\u{663}x)\n"));
}
