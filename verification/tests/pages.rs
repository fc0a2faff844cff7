use biomeat::{AtHome, Chapter, ChapterRecord, Error, PageAction, PageDownload};
use uuid::Uuid;

fn chapter(number: &str) -> Chapter {
    let record = ChapterRecord {
        id: Uuid::nil(),
        title: String::new(),
        volume: None,
        chapter: Some(number.to_owned()),
        pages: 2,
    };
    Chapter::from_record(&record).expect("well-formed record")
}

fn at_home(base_url: &str, filenames: &[&str]) -> AtHome {
    AtHome {
        base_url: base_url.to_owned(),
        hash: "3303dd03ac8d27452cce3f2a882e94b2".to_owned(),
        filenames: filenames.iter().map(|name| (*name).to_owned()).collect(),
    }
}

#[test]
fn pages_are_named_after_chapter_and_position() {
    let plan = chapter("7")
        .download_pages(&at_home("https://uploads.mangadex.org", &["x1-ab12.png", "x2-cd34.jpg"]))
        .expect("valid addresses");
    assert_eq!(plan.len(), 2);
    assert_eq!(
        plan[0].url(),
        "https://uploads.mangadex.org/data/3303dd03ac8d27452cce3f2a882e94b2/x1-ab12.png"
    );
    assert_eq!(plan[0].filename(), "007-000.png");
    assert_eq!(
        plan[1].url(),
        "https://uploads.mangadex.org/data/3303dd03ac8d27452cce3f2a882e94b2/x2-cd34.jpg"
    );
    assert_eq!(plan[1].filename(), "007-001.jpg");
}

#[test]
fn page_reference_replaces_the_path_of_the_base() {
    // Delivery servers hand out a base with a token in its path; the
    // reference is absolute and takes its place. What https implies is left out.
    let plan = chapter("12.5")
        .download_pages(&at_home("https://s2.mangadex.network:443/temp-token/", &["1-a.webp"]))
        .expect("valid addresses");
    assert_eq!(
        plan[0].url(),
        "https://s2.mangadex.network/data/3303dd03ac8d27452cce3f2a882e94b2/1-a.webp"
    );
    assert_eq!(plan[0].filename(), "12.5-000.webp");
}

#[test]
fn extension_comes_from_the_path_of_the_address() {
    let plan = chapter("1")
        .download_pages(&at_home("https://example.org", &["a.png?size=1.5", "b.tar.gz#top", "c"]))
        .expect("valid addresses");
    assert_eq!(plan[0].filename(), "001-000.png");
    assert_eq!(plan[1].filename(), "001-001.gz");
    assert_eq!(plan[2].filename(), "001-002.");
}

#[test]
fn positions_keep_the_order_of_the_file_names() {
    let names: Vec<String> = (0..1002).map(|n| format!("{}.png", 5000 - n)).collect();
    let names: Vec<&str> = names.iter().map(String::as_str).collect();
    let plan = chapter("3")
        .download_pages(&at_home("https://example.org", &names))
        .expect("valid addresses");
    assert_eq!(plan.len(), 1002);
    for (index, page) in plan.iter().enumerate() {
        assert_eq!(page.filename(), format!("003-{index:03}.png"));
        assert!(page.url().ends_with(&format!("/{}.png", 5000 - index)));
    }
    assert_eq!(plan[9].filename(), "003-009.png");
    assert_eq!(plan[10].filename(), "003-010.png");
    assert_eq!(plan[999].filename(), "003-999.png");
    assert_eq!(plan[1000].filename(), "003-1000.png");

    // Up to a thousand pages the names sort as the pages are read.
    let local: Vec<&str> = plan.iter().take(1000).map(PageDownload::filename).collect();
    assert!(local.windows(2).all(|pair| pair[0] < pair[1]));
    let mut distinct: Vec<&str> = plan.iter().map(PageDownload::filename).collect();
    distinct.sort_unstable();
    distinct.dedup();
    assert_eq!(distinct.len(), plan.len());
}

#[test]
fn chapter_without_pages_has_an_empty_plan() {
    let plan =
        chapter("7").download_pages(&at_home("https://uploads.mangadex.org", &[])).expect("no page");
    assert!(plan.is_empty());
    // Not even the base is asked for.
    let plan = chapter("7").download_pages(&at_home("no address", &[])).expect("no page");
    assert!(plan.is_empty());
}

#[test]
fn base_that_is_no_address_is_an_error() {
    let plan = chapter("7").download_pages(&at_home("no address", &["1.png"]));
    assert_eq!(plan.err(), Some(Error::InvalidUrl));
    let plan = chapter("7").download_pages(&at_home("/relative/base", &["1.png"]));
    assert_eq!(plan.err(), Some(Error::InvalidUrl));
}

#[test]
fn page_on_disk_is_not_fetched() {
    let page = PageDownload::new("007", 4, "https://example.org/data/h/5.png".to_owned(), "/data/h/5.png");
    assert_eq!(page.filename(), "007-004.png");
    assert_eq!(page.url(), "https://example.org/data/h/5.png");
    assert_eq!(page.action(true), PageAction::Skip);
    assert_eq!(page.action(false), PageAction::Fetch);
}

#[test]
fn second_run_fetches_nothing() {
    let session = at_home("https://uploads.mangadex.org", &["a.png", "b.png", "c.png"]);
    let mut on_disk: Vec<String> = vec!["007-001.png".to_owned()];

    let first = chapter("7").download_pages(&session).expect("valid addresses");
    let mut fetched = 0;
    for page in &first {
        let present = on_disk.iter().any(|name| name == page.filename());
        if page.action(present) == PageAction::Fetch {
            fetched += 1;
            on_disk.push(page.filename().to_owned());
        }
    }
    assert_eq!(fetched, 2);

    let second = chapter("7").download_pages(&session).expect("valid addresses");
    for page in &second {
        let present = on_disk.iter().any(|name| name == page.filename());
        assert_eq!(page.action(present), PageAction::Skip);
    }
}

#[test]
fn reference_and_file_name_are_put_together() {
    assert_eq!(biomeat::pages::page_reference_text("hash", "1.png"), "/data/hash/1.png");
    assert_eq!(biomeat::pages::page_filename_text("001", 0, "png"), "001-000.png");
    assert_eq!(biomeat::pages::page_filename_text("10.5", 12, "jpg"), "10.5-012.jpg");
    assert_eq!(biomeat::pages::page_filename_text("001", 12345, ""), "001-12345.");
}
