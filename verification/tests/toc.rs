use web2pdf::adapters::{first_detected, MdBookDetector, PageSignals};
use web2pdf::browser::{browser_arguments, browser_commands, browser_paths};
use web2pdf::bytes::{bytes_eq, copy_bytes, is_name, name_bytes};
use web2pdf::navbar::{parse_li, parse_mdbook_toc, parse_ol, NavItem, NavLink, TocError};
use web2pdf::sitemap::{links_of_events, sitemap_links, XmlEvent};
use web2pdf::toc::{
    contains_bytes, extract_chapter_number, is_left_out, single_page_toc, toc_from_sitemap, TocNode,
};

#[test]
fn chapter_number_is_the_number_at_the_end_of_the_last_segment() {
    assert_eq!(extract_chapter_number("https://example.com/book/chapter-12"), 12);
    assert_eq!(extract_chapter_number("https://example.com/book/chapter-007"), 7);
    assert_eq!(extract_chapter_number("https://example.com/book/ch1-part2"), 2);
    assert_eq!(extract_chapter_number("https://example.com/book/42"), 42);
    assert_eq!(extract_chapter_number("42"), 42);
    assert_eq!(extract_chapter_number("https://example.com/3/intro"), 0);
    assert_eq!(extract_chapter_number("https://example.com/book/chapter-12/"), 0);
    assert_eq!(extract_chapter_number("https://example.com/book/ch12-intro"), 0);
    assert_eq!(extract_chapter_number("https://example.com/book/page_0042.html"), 0);
    assert_eq!(extract_chapter_number(""), 0);
    assert_eq!(extract_chapter_number("/"), 0);
    assert_eq!(extract_chapter_number("a/0"), 0);
    assert_eq!(extract_chapter_number("x4294967295"), 4294967295);
    assert_eq!(extract_chapter_number("x4294967296"), 0);
    assert_eq!(extract_chapter_number("x99999999999999999999999999"), 0);
    assert_eq!(extract_chapter_number("x0000000000000000000000017"), 17);
    assert_eq!(extract_chapter_number("käse/ü9"), 9);
}

#[test]
fn a_part_is_found_anywhere_in_the_whole() {
    assert!(contains_bytes(b"abcabd", b"abd"));
    assert!(contains_bytes(b"abcabd", b"abc"));
    assert!(contains_bytes(b"abcabd", b""));
    assert!(contains_bytes(b"", b""));
    assert!(!contains_bytes(b"abcabd", b"abe"));
    assert!(!contains_bytes(b"ab", b"abc"));
    assert!(!contains_bytes(b"", b"a"));
    assert!(contains_bytes(b"aaab", b"aab"));
    assert!(is_left_out("https://x.org/subscribe"));
    assert!(is_left_out("https://x.org/errata.html"));
    assert!(is_left_out("https://x.org/a/colophon/b"));
    assert!(!is_left_out("https://x.org/chapter-1"));
    assert!(!is_left_out("https://x.org/Errata"));
}

#[test]
fn byte_strings_are_compared_and_copied() {
    assert!(bytes_eq(b"Link", b"Link"));
    assert!(!bytes_eq(b"Link", b"Lin"));
    assert!(!bytes_eq(b"Link", b"Lind"));
    assert!(bytes_eq(b"", b""));
    assert!(is_name(b"OBJR", "OBJR"));
    assert!(!is_name(b"OBJR", "MCR"));
    assert_eq!(copy_bytes(b"abc"), b"abc".to_vec());
    assert_eq!(name_bytes("K"), vec![75u8]);
}

fn hrefs(nodes: &[TocNode]) -> Vec<&str> {
    nodes.iter().map(|n| n.href.as_str()).collect()
}

#[test]
fn sitemap_pages_are_filtered_and_put_in_the_order_of_the_chapters() {
    let links: Vec<String> = [
        "https://b.org/chapter-3",
        "https://b.org/subscribe",
        "https://b.org/chapter-1",
        "https://b.org/intro",
        "https://b.org/chapter-10",
        "https://b.org/appendix-1",
        "https://b.org/errata-2",
        "https://b.org/",
        "https://b.org/chapter-2",
    ].iter().map(|s| s.to_string()).collect();
    let nodes = toc_from_sitemap(links).unwrap();
    assert_eq!(
        hrefs(&nodes),
        vec![
            "https://b.org/intro",
            "https://b.org/",
            "https://b.org/chapter-1",
            "https://b.org/appendix-1",
            "https://b.org/chapter-2",
            "https://b.org/chapter-3",
            "https://b.org/chapter-10",
        ]
    );
    assert!(nodes.iter().all(|n| n.title.is_none() && n.level == 0));
}

#[test]
fn sitemap_without_pages_gives_no_table_of_contents() {
    assert!(toc_from_sitemap(vec![]).is_none());
    // But one whose pages are all left out gives an empty one.
    let nodes = toc_from_sitemap(vec!["https://b.org/colophon".to_string()]).unwrap();
    assert!(nodes.is_empty());
    let one = single_page_toc("https://b.org/");
    assert_eq!(hrefs(&one), vec!["https://b.org/"]);
    assert!(one[0].title.is_none());
    assert_eq!(one[0].level, 0);
}

#[test]
fn addresses_are_read_from_a_sitemap() {
    let xml = r#"<?xml version="1.0" encoding="UTF-8"?>
<urlset xmlns="http://www.sitemaps.org/schemas/sitemap/0.9">
  <!-- the pages -->
  <url><loc>https://b.org/chapter-2</loc><lastmod>2024-01-01</lastmod></url>
  <url><loc>https://b.org/chapter-1</loc></url>
  <url><loc></loc></url>
  <url><location>https://b.org/nope</location></url>
</urlset>"#;
    assert_eq!(sitemap_links(xml), vec!["https://b.org/chapter-2", "https://b.org/chapter-1"]);
    assert!(sitemap_links("").is_empty());
    assert!(sitemap_links("no markup at all").is_empty());
    assert_eq!(sitemap_links("<loc>a</loc><loc>b"), vec!["a", "b"]);
}

#[test]
fn addresses_are_picked_from_events() {
    let loc = || XmlEvent::Start(b"loc".to_vec());
    let text = |s: &str| XmlEvent::Text(s.to_string());
    let events = vec![
        XmlEvent::Decl,
        XmlEvent::Start(b"urlset".to_vec()),
        text("stray"),
        loc(), text("a"), XmlEvent::End,
        loc(), XmlEvent::End,
        loc(), loc(), text("dropped"),
        XmlEvent::Start(b"Loc".to_vec()), text("no"),
        loc(), text("b"),
        XmlEvent::Comment, XmlEvent::CData, XmlEvent::Empty, XmlEvent::PI, XmlEvent::DocType, XmlEvent::GeneralRef,
        XmlEvent::Eof,
        loc(), text("after the end"),
    ];
    assert_eq!(links_of_events(events), vec!["a", "b"]);
    assert_eq!(links_of_events(vec![loc(), text("a"), XmlEvent::Failed, loc(), text("b")]), vec!["a"]);
    assert_eq!(links_of_events(vec![loc(), XmlEvent::Failed, loc(), text("b")]), vec!["b"]);
    assert!(links_of_events(vec![loc()]).is_empty());
    assert!(links_of_events(vec![]).is_empty());
}

fn link(text: &str, href: Option<&str>) -> NavItem {
    NavItem {
        link: Some(NavLink { text: text.to_string(), href: href.map(|h| h.to_string()) }),
        sublist: None,
    }
}

fn entries(nodes: &[TocNode]) -> Vec<(String, String, u8)> {
    nodes.iter().map(|n| (n.title.clone().unwrap(), n.href.clone(), n.level)).collect()
}

#[test]
fn list_of_chapters_becomes_a_table_of_contents() {
    let list = Some(vec![
        link("  Introduction \n", Some("intro.html")),
        NavItem { link: None, sublist: None },
        NavItem {
            link: Some(NavLink { text: "passed over".to_string(), href: None }),
            sublist: Some(vec![
                link("One", Some("part/one.html")),
                NavItem { link: None, sublist: Some(vec![link("Deep", Some("/deep"))]) },
            ]),
        },
        link("Elsewhere", Some("https://other.org/x?y=1#z")),
    ]);
    let nodes = parse_mdbook_toc(&list, "https://b.org/book/index.html").unwrap();
    assert_eq!(
        entries(&nodes),
        vec![
            ("Introduction".to_string(), "https://b.org/book/intro.html".to_string(), 0),
            ("One".to_string(), "https://b.org/book/part/one.html".to_string(), 1),
            ("Deep".to_string(), "https://b.org/deep".to_string(), 2),
            ("Elsewhere".to_string(), "https://other.org/x?y=1#z".to_string(), 0),
        ]
    );
}

#[test]
fn a_list_of_chapters_that_cannot_be_read_is_refused() {
    let good = Some(vec![link("a", Some("a.html"))]);
    assert_eq!(parse_mdbook_toc(&good, "not a url").err(), Some(TocError::InvalidUrl));
    assert_eq!(parse_mdbook_toc(&None, "not a url").err(), Some(TocError::InvalidUrl));
    assert_eq!(parse_mdbook_toc(&None, "https://b.org/").err(), Some(TocError::NotFound));
    let no_href = Some(vec![link("a", Some("a.html")), link("b", None), link("c", Some("https://["))]);
    assert_eq!(parse_mdbook_toc(&no_href, "https://b.org/").err(), Some(TocError::LinkWithoutHref));
    let bad_href = Some(vec![link("c", Some("https://[")), link("b", None)]);
    assert_eq!(parse_mdbook_toc(&bad_href, "https://b.org/").err(), Some(TocError::InvalidHref));
    assert!(parse_mdbook_toc(&Some(vec![]), "https://b.org/").unwrap().is_empty());

    let mut nodes = Vec::new();
    let deep = NavItem { link: None, sublist: Some(vec![link("a", Some("a"))]) };
    assert_eq!(parse_li(&mut nodes, &deep, "https://b.org/", 255), Err(TocError::TooDeep));
    assert_eq!(parse_li(&mut nodes, &deep, "https://b.org/", 254), Ok(()));
    assert_eq!(entries(&nodes), vec![("a".to_string(), "https://b.org/a".to_string(), 255)]);
    assert_eq!(parse_ol(&mut nodes, &vec![link("b", Some("b"))], "https://b.org/x/", 3), Ok(()));
    assert_eq!(nodes.len(), 2);
    assert_eq!(nodes[1].href, "https://b.org/x/b");
    assert_eq!(nodes[1].level, 3);
}

fn signals(generator: Option<&str>, list: bool, item: bool, content: bool) -> PageSignals {
    PageSignals {
        generator: generator.map(|g| g.to_string()),
        has_chapter_list: list,
        has_chapter_item: item,
        has_content: content,
    }
}

#[test]
fn generator_decides_where_the_page_names_one() {
    let d = MdBookDetector;
    assert!(d.detect_fast("", &signals(Some("mdBook"), false, false, false)));
    assert!(d.detect_fast("", &signals(Some("MDBOOK v0.4"), false, false, false)));
    assert!(!d.detect_fast("book.js elasticlunr mdBook", &signals(Some("Hugo"), true, true, true)));
    assert!(!d.detect_fast("book.js elasticlunr", &signals(Some(""), true, true, true)));
}

#[test]
fn score_of_five_decides_otherwise() {
    let d = MdBookDetector;
    assert!(!d.detect_fast("", &signals(None, false, false, false)));
    assert!(d.detect_fast("", &signals(None, true, true, true)));
    assert!(!d.detect_fast("", &signals(None, true, true, false)));
    assert!(d.detect_fast("<script src=\"book.js\">", &signals(None, true, false, false)));
    assert!(!d.detect_fast("<script src=\"book.js\">", &signals(None, false, false, true)));
    assert!(d.detect_fast("book.js elasticlunr", &signals(None, false, false, false)));
    assert!(!d.detect_fast("elasticlunr mdBook", &signals(None, false, false, true)));
    assert!(d.detect_fast("elasticlunr mdBook", &signals(None, false, true, false)));
    assert!(!d.detect_fast("elasticlunr mdbook", &signals(None, false, true, false)));
    assert!(d.detect_fast("book.js mdBook", &signals(None, false, false, true)));
}

#[test]
fn first_detector_that_says_yes_is_chosen() {
    assert_eq!(first_detected(&vec![]), None);
    assert_eq!(first_detected(&vec![false, false]), None);
    assert_eq!(first_detected(&vec![false, true, true]), Some(1));
    assert_eq!(first_detected(&vec![true]), Some(0));
}

#[test]
fn browser_is_started_as_a_tagging_printer() {
    let args = browser_arguments();
    assert_eq!(args.len(), 25);
    assert_eq!(args[0], "--disable-web-security");
    assert_eq!(args[3], "--export-tagged-pdf");
    assert_eq!(args[4], "--force-renderer-accessibility");
    assert!(args[8].starts_with("--user-agent=Mozilla/5.0 (Macintosh;"));
    assert_eq!(args[23], "--new-window");
    assert_eq!(args[24], "about:blank");
    assert_eq!(browser_commands(), vec!["chromium", "google-chrome"]);
    assert_eq!(browser_paths().len(), 2);
    assert_eq!(browser_paths()[1], "/Applications/Google Chrome.app/Contents/MacOS/Google Chrome");
}

use web2pdf::adapters::{first_probe, next_probe, Probe};
use web2pdf::browser::{wait_step, Wait, MAX_WAIT_ATTEMPTS};
use web2pdf::title::{entry_title, path_stem};

#[test]
fn stem_is_the_file_name_without_its_extension() {
    assert_eq!(path_stem("/tmp/out/page_0003.pdf"), "page_0003");
    assert_eq!(path_stem("page.tar.gz"), "page.tar");
    assert_eq!(path_stem("dir.d/page"), "page");
    assert_eq!(path_stem("/tmp/.hidden"), ".hidden");
    assert_eq!(path_stem("/tmp/.hidden.pdf"), ".hidden");
    assert_eq!(path_stem("/tmp/name."), "name");
    assert_eq!(path_stem("/tmp/"), "");
    assert_eq!(path_stem(""), "");
    assert_eq!(path_stem("/tmp/übung.pdf"), "übung");
}

#[test]
fn title_falls_back_to_the_stem() {
    assert_eq!(entry_title(Some("Intro".to_string()), "/tmp/page_0001.pdf"), "Intro");
    assert_eq!(entry_title(None, "/tmp/page_0001.pdf"), "page_0001");
    assert_eq!(entry_title(Some(String::new()), "/tmp/page_0001.pdf"), "");
}

#[test]
fn page_is_waited_for_fifty_times() {
    assert_eq!(MAX_WAIT_ATTEMPTS, 50);
    assert_eq!(wait_step(true, 0), Wait::Ready);
    assert_eq!(wait_step(true, 50), Wait::Ready);
    assert_eq!(wait_step(false, 0), Wait::Again(1));
    assert_eq!(wait_step(false, 49), Wait::Again(50));
    assert_eq!(wait_step(false, 50), Wait::TimedOut);
    assert_eq!(wait_step(false, u32::MAX), Wait::TimedOut);
}

#[test]
fn fast_detectors_come_before_slow_ones() {
    assert_eq!(first_probe(&vec![false, true, true]), Probe::Use(1));
    assert_eq!(first_probe(&vec![false, false]), Probe::Ask(0));
    assert_eq!(first_probe(&vec![]), Probe::Fallback);
    assert_eq!(next_probe(2, 0, true), Probe::Use(0));
    assert_eq!(next_probe(2, 0, false), Probe::Ask(1));
    assert_eq!(next_probe(2, 1, false), Probe::Fallback);
    assert_eq!(next_probe(2, 1, true), Probe::Use(1));
    assert_eq!(next_probe(0, usize::MAX, false), Probe::Fallback);
}
