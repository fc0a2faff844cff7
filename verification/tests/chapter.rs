use biomeat::{Chapter, ChapterRecord, Error};
use uuid::Uuid;

fn record(chapter: Option<&str>, volume: Option<&str>, pages: u32) -> ChapterRecord {
    ChapterRecord {
        id: Uuid::from_u128(0x1234),
        title: "The Beginning".to_owned(),
        volume: volume.map(str::to_owned),
        chapter: chapter.map(str::to_owned),
        pages,
    }
}

fn chapter(number: &str, volume: Option<&str>) -> Chapter {
    Chapter::from_record(&record(Some(number), volume, 18)).expect("well-formed record")
}

#[test]
fn chapter_keeps_what_the_record_says() {
    let chapter = chapter("7", Some("2"));
    assert_eq!(chapter.title(), "The Beginning");
    assert_eq!(chapter.id(), Uuid::from_u128(0x1234));
    assert_eq!(chapter.volume(), "2");
    assert_eq!(chapter.number(), "007");
    assert_eq!(chapter.page_count(), 18);
}

#[test]
fn chapter_number_is_padded_to_three_characters() {
    assert_eq!(chapter("1", None).number(), "001");
    assert_eq!(chapter("42", None).number(), "042");
    assert_eq!(chapter("123", None).number(), "123");
    assert_eq!(chapter("1234", None).number(), "1234");
    assert_eq!(chapter("", None).number(), "000");
    // Fractional numbers are padded as text.
    assert_eq!(chapter(".5", None).number(), "0.5");
    assert_eq!(chapter("10.5", None).number(), "10.5");
    // Width counts characters, not bytes.
    assert_eq!(chapter("é", None).number(), "00é");
}

#[test]
fn missing_volume_is_the_empty_one() {
    let chapter = chapter("3", None);
    assert_eq!(chapter.volume(), "");
    assert_eq!(chapter.volume_directory(), "Volume 00");
}

#[test]
fn volume_directory_pads_to_two_characters() {
    assert_eq!(chapter("3", Some("1")).volume_directory(), "Volume 01");
    assert_eq!(chapter("3", Some("12")).volume_directory(), "Volume 12");
    assert_eq!(chapter("3", Some("123")).volume_directory(), "Volume 123");
}

#[test]
fn record_without_chapter_number_is_refused() {
    let made = Chapter::from_record(&record(None, Some("1"), 18));
    assert_eq!(made.err(), Some(Error::MissingChapterNumber));
    // The missing number is reported before the page count.
    let made = Chapter::from_record(&record(None, Some("1"), 70_000));
    assert_eq!(made.err(), Some(Error::MissingChapterNumber));
}

#[test]
fn page_count_must_fit_sixteen_bits() {
    let made = Chapter::from_record(&record(Some("1"), None, 65_535)).expect("in range");
    assert_eq!(made.page_count(), 65_535);
    let made = Chapter::from_record(&record(Some("1"), None, 65_536));
    assert_eq!(made.err(), Some(Error::TooManyPages));
    let made = Chapter::from_record(&record(Some("1"), None, u32::MAX));
    assert_eq!(made.err(), Some(Error::TooManyPages));
}
