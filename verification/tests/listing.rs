use biomeat::{Chapter, ChapterList, ChapterPage, ChapterRecord, Error, ListProgress};
use uuid::Uuid;

fn record(number: u32) -> ChapterRecord {
    ChapterRecord {
        id: Uuid::from_u128(u128::from(number)),
        title: format!("Chapter {number}"),
        volume: Some("1".to_owned()),
        chapter: Some(number.to_string()),
        pages: 20,
    }
}

fn page(first: u32, count: u32, total: u32, limit: u32) -> ChapterPage {
    ChapterPage { data: (first..first + count).map(record).collect(), total, limit }
}

fn numbers(chapters: &[Chapter]) -> Vec<String> {
    chapters.iter().map(|chapter| chapter.number().to_owned()).collect()
}

fn expect_more(outcome: Result<ListProgress, Error>) -> ChapterList {
    match outcome {
        Ok(ListProgress::More(list)) => list,
        other => panic!("expected a listing in progress, got {other:?}"),
    }
}

fn expect_done(outcome: Result<ListProgress, Error>) -> (Vec<Chapter>, bool) {
    match outcome {
        Ok(ListProgress::Done { chapters, complete }) => (chapters, complete),
        other => panic!("expected a finished listing, got {other:?}"),
    }
}

fn expect_error(outcome: Result<ListProgress, Error>) -> Error {
    match outcome {
        Err(error) => error,
        Ok(progress) => panic!("expected an error, got {progress:?}"),
    }
}

#[test]
fn fresh_listing_asks_at_its_start_offset() {
    let list = ChapterList::new(10);
    assert_eq!(list.offset(), 10);
    assert_eq!(list.start_offset(), 10);
    assert_eq!(list.len(), 0);
}

#[test]
fn listing_from_offset_ten_of_twenty_five() {
    let list = ChapterList::new(10);
    assert_eq!(list.offset(), 10);

    let list = expect_more(list.accept(&page(11, 10, 25, 10)));
    assert_eq!(list.offset(), 20);
    assert_eq!(list.start_offset(), 10);
    assert_eq!(list.len(), 10);

    // The second page overshoots: of its ten chapters only five are owed.
    let (chapters, complete) = expect_done(list.accept(&page(21, 10, 25, 10)));
    assert!(complete);
    assert_eq!(chapters.len(), 15);
    let expected: Vec<String> = (11..=25).map(|n| format!("{n:03}")).collect();
    assert_eq!(numbers(&chapters), expected);
    let mut sorted = expected.clone();
    sorted.sort();
    sorted.dedup();
    assert_eq!(sorted, expected);
}

#[test]
fn replayed_listing_matches_the_rounds() {
    let pages = vec![page(11, 10, 25, 10), page(21, 10, 25, 10), page(31, 10, 25, 10)];
    let (chapters, complete) = expect_done(Chapter::list(&pages, 10));
    assert!(complete);
    assert_eq!(chapters.len(), 15);
    assert_eq!(chapters[0].number(), "011");
    assert_eq!(chapters[14].number(), "025");
    assert_eq!(chapters[14].id(), Uuid::from_u128(25));
}

#[test]
fn complete_listing_holds_total_minus_start() {
    for (total, start, limit) in [(7u32, 0u16, 3u32), (7, 2, 3), (30, 29, 10), (12, 0, 12), (9, 3, 100)] {
        let mut pages = Vec::new();
        let mut first = u32::from(start);
        while first < total {
            let count = limit.min(total - first);
            pages.push(page(first + 1, count, total, limit));
            first += limit;
        }
        let rounds = pages.len();
        pages.push(page(1000, 5, total, limit));
        let (chapters, complete) = expect_done(Chapter::list(&pages, start));
        assert!(complete);
        assert_eq!(chapters.len(), (total - u32::from(start)) as usize);
        let expected: Vec<String> =
            (u32::from(start) + 1..=total).map(|n| format!("{n:03}")).collect();
        assert_eq!(numbers(&chapters), expected, "after {rounds} rounds");
    }
}

#[test]
fn listing_without_pages_is_still_in_progress() {
    let list = expect_more(Chapter::list(&Vec::new(), 4));
    assert_eq!(list.offset(), 4);
    assert_eq!(list.len(), 0);
}

#[test]
fn listing_that_runs_out_of_pages_asks_for_the_next() {
    let pages = vec![page(1, 10, 100, 10), page(11, 10, 100, 10)];
    let list = expect_more(Chapter::list(&pages, 0));
    assert_eq!(list.offset(), 20);
    assert_eq!(list.len(), 20);
    let chapters = ListProgress::More(list).into_chapters();
    assert_eq!(chapters.len(), 20);
    assert_eq!(chapters[19].number(), "020");
}

#[test]
fn empty_page_ends_the_listing_at_once() {
    // A filtered catalog: the total says 40, the pages never get there.
    let list = expect_more(ChapterList::new(0).accept(&page(1, 10, 40, 10)));
    let (chapters, complete) = expect_done(list.accept(&page(0, 0, 40, 10)));
    assert!(!complete);
    assert_eq!(chapters.len(), 10);

    let (chapters, complete) = expect_done(ChapterList::new(0).accept(&page(0, 0, 40, 10)));
    assert!(!complete);
    assert!(chapters.is_empty());
}

#[test]
fn pages_after_the_end_are_not_looked_at() {
    let faulty = ChapterPage { data: vec![record(1)], total: 0, limit: 70_000 };
    let pages = vec![page(0, 0, 40, 10), faulty];
    let (chapters, complete) = expect_done(Chapter::list(&pages, 5));
    assert!(!complete);
    assert!(chapters.is_empty());
}

#[test]
fn nothing_owed_is_complete_without_chapters() {
    let (chapters, complete) = expect_done(ChapterList::new(25).accept(&page(0, 0, 25, 10)));
    assert!(complete);
    assert!(chapters.is_empty());

    // Chapters handed out beyond the total are dropped.
    let (chapters, complete) = expect_done(ChapterList::new(25).accept(&page(26, 3, 25, 10)));
    assert!(complete);
    assert!(chapters.is_empty());
}

#[test]
fn shrinking_total_cuts_what_is_held() {
    let list = expect_more(ChapterList::new(0).accept(&page(1, 10, 30, 10)));
    let (chapters, complete) = expect_done(list.accept(&page(11, 10, 8, 10)));
    assert!(complete);
    assert_eq!(chapters.len(), 8);
    assert_eq!(chapters[7].number(), "008");
}

#[test]
fn total_below_start_offset_is_an_error() {
    let error = expect_error(ChapterList::new(10).accept(&page(1, 5, 9, 10)));
    assert_eq!(error, Error::TotalBelowOffset);
    assert_eq!(expect_error(Chapter::list(&vec![page(1, 5, 9, 10)], 10)), Error::TotalBelowOffset);
}

#[test]
fn record_without_chapter_number_aborts_the_listing() {
    let mut faulty = page(1, 3, 10, 3);
    faulty.data[1].chapter = None;
    assert_eq!(expect_error(ChapterList::new(0).accept(&faulty)), Error::MissingChapterNumber);

    // Also where the faulty record would have been cut off.
    let mut beyond = page(1, 3, 1, 3);
    beyond.data[2].chapter = None;
    assert_eq!(expect_error(ChapterList::new(0).accept(&beyond)), Error::MissingChapterNumber);
}

#[test]
fn record_with_too_many_pages_aborts_the_listing() {
    let mut faulty = page(1, 3, 10, 3);
    faulty.data[2].pages = 65_536;
    assert_eq!(expect_error(ChapterList::new(0).accept(&faulty)), Error::TooManyPages);

    // The first faulty record decides.
    faulty.data[0].chapter = None;
    assert_eq!(expect_error(ChapterList::new(0).accept(&faulty)), Error::MissingChapterNumber);

    // A total below the offset is seen before any record.
    faulty.total = 0;
    assert_eq!(expect_error(ChapterList::new(1).accept(&faulty)), Error::TotalBelowOffset);
}

#[test]
fn limit_that_fits_no_offset_is_an_error() {
    assert_eq!(
        expect_error(ChapterList::new(0).accept(&page(1, 10, 100, 65_536))),
        Error::LimitTooLarge
    );
    // On the last page the limit is not needed.
    let (chapters, complete) = expect_done(ChapterList::new(0).accept(&page(1, 10, 10, 65_536)));
    assert!(complete);
    assert_eq!(chapters.len(), 10);
}

#[test]
fn offset_cannot_leave_its_range() {
    assert_eq!(
        expect_error(ChapterList::new(65_000).accept(&page(1, 10, 70_000, 536))),
        Error::OffsetOverflow
    );
    let list = expect_more(ChapterList::new(65_000).accept(&page(1, 10, 70_000, 535)));
    assert_eq!(list.offset(), 65_535);
}

#[test]
fn repeated_chapters_count_as_progress() {
    // The listing does not look at what a page holds: a catalog that hands
    // out the same page again is believed.
    let list = expect_more(ChapterList::new(0).accept(&page(1, 10, 25, 10)));
    let list = expect_more(list.accept(&page(1, 10, 25, 10)));
    assert_eq!(list.len(), 20);
    assert_eq!(list.offset(), 20);
}
