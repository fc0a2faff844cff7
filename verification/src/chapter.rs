//! Chapters as the catalog describes them, and as the downloader keeps them.

use vstd::prelude::*;
use uuid::Uuid;
use crate::error::Error;
use crate::text::{joined, pad_left, zero_padded};

verus! {

/// `uuid::Uuid`, the identifier of a chapter. It is declared so that chapters
/// can carry it; nothing is known of what is inside.
#[verifier::external_type_specification]
#[verifier::external_body]
pub struct ExUuid(Uuid);

/// One chapter as the catalog returns it.
#[derive(Debug)]
pub struct ChapterRecord {
    /// Chapter ID.
    pub id: Uuid,
    /// Title, possibly empty.
    pub title: String,
    /// Volume "number", where the chapter belongs to one.
    pub volume: Option<String>,
    /// Chapter "number" in the series.
    pub chapter: Option<String>,
    /// Number of readable pages.
    pub pages: u32,
}

/// What a chapter is, as plain values.
pub struct ChapterView {
    pub title: Seq<char>,
    pub id: Uuid,
    pub volume: Seq<char>,
    pub number: Seq<char>,
    pub page_count: u16,
}

/// A manga chapter.
#[derive(Debug)]
pub struct Chapter {
    /// Title.
    title: String,
    /// Chapter ID
    id: Uuid,
    /// Volume "number".
    volume_id: String,
    /// Chapter "number" in the series, at least three characters wide.
    number: String,
    /// Number of pages.
    page_count: u16,
}

impl View for Chapter {
    type V = ChapterView;

    closed spec fn view(&self) -> ChapterView {
        ChapterView {
            title: self.title@,
            id: self.id,
            volume: self.volume_id@,
            number: self.number@,
            page_count: self.page_count,
        }
    }
}

/// Width that chapter numbers are padded to.
pub const NUMBER_WIDTH: usize = 3;

/// Width that volume numbers are padded to in directory names.
pub const VOLUME_WIDTH: usize = 2;

/// Why a record cannot become a chapter: it has no chapter number, or else its
/// page count is out of range.
pub open spec fn record_error(record: ChapterRecord) -> Option<Error> {
    if record.chapter is None {
        Some(Error::MissingChapterNumber)
    } else if record.pages > u16::MAX {
        Some(Error::TooManyPages)
    } else {
        None
    }
}

/// The chapter that a well-formed record describes: a missing volume is the
/// empty one and the chapter number is padded with zeros.
pub open spec fn chapter_of(record: ChapterRecord) -> ChapterView
    recommends
        record_error(record) is None,
{
    ChapterView {
        title: record.title@,
        id: record.id,
        volume: match record.volume {
            Some(volume) => volume@,
            None => Seq::empty(),
        },
        number: pad_left(record.chapter.unwrap()@, '0', NUMBER_WIDTH as nat),
        page_count: record.pages as u16,
    }
}

/// The views of a run of chapters, in order.
pub open spec fn chapter_views(chapters: Seq<Chapter>) -> Seq<ChapterView> {
    chapters.map_values(|chapter: Chapter| chapter@)
}

/// Name of the directory that holds the chapters of volume `volume`.
pub open spec fn volume_directory_name(volume: Seq<char>) -> Seq<char> {
    "Volume "@ + pad_left(volume, '0', VOLUME_WIDTH as nat)
}

impl Chapter {
    #[verifier::type_invariant]
    spec fn well_formed(self) -> bool {
        self.number@.len() >= NUMBER_WIDTH
    }

    /// Builds the chapter that `record` describes.
    pub fn from_record(record: &ChapterRecord) -> (made: Result<Chapter, Error>)
        ensures
            match made {
                Ok(chapter) => record_error(*record) is None && chapter@ == chapter_of(*record),
                Err(error) => record_error(*record) == Some(error),
            },
    {
        let number = match &record.chapter {
            Some(number) => zero_padded(number.as_str(), NUMBER_WIDTH),
            None => {
                return Err(Error::MissingChapterNumber);
            },
        };
        if record.pages > 0xffff {
            return Err(Error::TooManyPages);
        }
        let volume_id = match &record.volume {
            Some(volume) => volume.clone(),
            None => String::new(),
        };
        Ok(
            Chapter {
                title: record.title.clone(),
                id: record.id,
                volume_id,
                number,
                page_count: record.pages as u16,
            },
        )
    }

    pub fn id(&self) -> (id: Uuid)
        ensures
            id == self@.id,
    {
        self.id
    }

    pub fn page_count(&self) -> (count: u16)
        ensures
            count == self@.page_count,
    {
        self.page_count
    }

    pub fn title(&self) -> (title: &str)
        ensures
            title@ == self@.title,
    {
        self.title.as_str()
    }

    pub fn volume(&self) -> (volume: &str)
        ensures
            volume@ == self@.volume,
    {
        self.volume_id.as_str()
    }

    /// The zero-padded chapter number that local file names start with.
    pub fn number(&self) -> (number: &str)
        ensures
            number@ == self@.number,
            number@.len() >= NUMBER_WIDTH,
    {
        proof {
            use_type_invariant(self);
        }
        self.number.as_str()
    }

    /// Name of the directory, below the series directory, that receives this
    /// chapter's pages.
    pub fn volume_directory(&self) -> (name: String)
        ensures
            name@ == volume_directory_name(self@.volume),
    {
        let volume = zero_padded(self.volume_id.as_str(), VOLUME_WIDTH);
        joined("Volume ", volume.as_str())
    }
}

} // verus!
