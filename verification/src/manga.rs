//! A series: its title in the reader's language and its chapters.

use vstd::prelude::*;
use mangadex_api_types_rust::Language;
use crate::chapter::{chapter_views, Chapter, ChapterView};
use crate::error::Error;
use crate::listing::MAX_CHAPTERS;

verus! {

/// `mangadex_api_types_rust::Language`, the language of a title. It is
/// declared so that titles can carry it; nothing is known of what is inside.
#[verifier::external_type_specification]
#[verifier::external_body]
pub struct ExLanguage(Language);

/// Whether `left` and `right` are the same language, by the `==` of
/// `Language`: an enum without fields whose `PartialEq` is derived, so two
/// values are equal exactly when they are the same variant.
#[verifier::external_body]
pub(crate) fn same_language(left: Language, right: Language) -> (same: bool)
    ensures
        same == (left == right),
{
    left == right
}

/// The title of a series in one language.
#[derive(Debug)]
pub struct LocalizedTitle {
    pub language: Language,
    pub text: String,
}

/// What a series is, as plain values.
pub struct MangaView {
    pub title: Seq<char>,
    pub chapters: Seq<ChapterView>,
}

/// A series.
#[derive(Debug)]
pub struct Manga {
    /// Manga title.
    title: String,
    /// Chapter list.
    chapters: Vec<Chapter>,
}

impl View for Manga {
    type V = MangaView;

    closed spec fn view(&self) -> MangaView {
        MangaView { title: self.title@, chapters: chapter_views(self.chapters@) }
    }
}

/// The title that `titles` gives for `language`: that of the first entry in
/// this language, if there is one.
pub open spec fn title_in(titles: Seq<LocalizedTitle>, language: Language) -> Option<Seq<char>>
    decreases titles.len(),
{
    if titles.len() == 0 {
        None
    } else if titles[0].language == language {
        Some(titles[0].text@)
    } else {
        title_in(titles.drop_first(), language)
    }
}

/// The title a reader of `language` is shown: the one in that language, else
/// the one in the `fallback` language, else none.
pub open spec fn preferred_title(
    titles: Seq<LocalizedTitle>,
    language: Language,
    fallback: Language,
) -> Option<Seq<char>> {
    match title_in(titles, language) {
        Some(title) => Some(title),
        None => title_in(titles, fallback),
    }
}

/// The pages of a run of chapters, added up.
pub open spec fn total_pages(chapters: Seq<ChapterView>) -> nat
    decreases chapters.len(),
{
    if chapters.len() == 0 {
        0
    } else {
        total_pages(chapters.drop_last()) + chapters.last().page_count as nat
    }
}

/// Looks up the title that `titles` gives for `language`.
fn find_title<'a>(titles: &'a Vec<LocalizedTitle>, language: Language) -> (found: Option<&'a str>)
    ensures
        match found {
            Some(title) => title_in(titles@, language) == Some(title@),
            None => title_in(titles@, language) is None,
        },
{
    let mut index: usize = 0;
    assert(titles@.skip(0) =~= titles@);
    while index < titles.len()
        invariant
            index <= titles.len(),
            title_in(titles@, language) == title_in(titles@.skip(index as int), language),
        decreases titles.len() - index,
    {
        let ghost rest = titles@.skip(index as int);
        assert(rest[0] == titles@[index as int]);
        assert(rest.drop_first() =~= titles@.skip(index + 1));
        if same_language(titles[index].language, language) {
            return Some(titles[index].text.as_str());
        }
        index += 1;
    }
    None
}

/// Picks the title of a series for a reader of `language`: the title in that
/// language where the series has one, else the one in the `fallback` language.
pub fn select_title(titles: &Vec<LocalizedTitle>, language: Language, fallback: Language) -> (title:
    Result<String, Error>)
    ensures
        match title {
            Ok(text) => preferred_title(titles@, language, fallback) == Some(text@),
            Err(error) => error == Error::MissingTitle && preferred_title(
                titles@,
                language,
                fallback,
            ) is None,
        },
{
    match find_title(titles, language) {
        Some(title) => Ok(String::from_str(title)),
        None => match find_title(titles, fallback) {
            Some(title) => Ok(String::from_str(title)),
            None => Err(Error::MissingTitle),
        },
    }
}

impl Manga {
    #[verifier::type_invariant]
    spec fn well_formed(self) -> bool {
        self.chapters@.len() <= MAX_CHAPTERS
    }

    /// Puts a series together from its title and its chapters, which are kept
    /// in their order. A listing never holds more than [`MAX_CHAPTERS`].
    pub fn new(title: String, chapters: Vec<Chapter>) -> (manga: Manga)
        requires
            chapters@.len() <= MAX_CHAPTERS,
        ensures
            manga@.title == title@,
            manga@.chapters == chapter_views(chapters@),
    {
        Manga { title, chapters }
    }

    pub fn title(&self) -> (title: &str)
        ensures
            title@ == self@.title,
    {
        self.title.as_str()
    }

    pub fn chapters(&self) -> (chapters: &[Chapter])
        ensures
            chapter_views(chapters@) == self@.chapters,
    {
        self.chapters.as_slice()
    }

    pub fn chapter_count(&self) -> (count: usize)
        ensures
            count == self@.chapters.len(),
            count <= MAX_CHAPTERS,
    {
        proof {
            use_type_invariant(self);
        }
        self.chapters.len()
    }

    /// The number of pages of all chapters together.
    pub fn page_count(&self) -> (count: u64)
        ensures
            count == total_pages(self@.chapters),
    {
        proof {
            use_type_invariant(self);
        }
        let ghost views = chapter_views(self.chapters@);
        let mut count: u64 = 0;
        let mut index: usize = 0;
        assert(views.take(0) =~= Seq::empty());
        while index < self.chapters.len()
            invariant
                index <= self.chapters.len(),
                self.chapters@.len() <= MAX_CHAPTERS,
                views == chapter_views(self.chapters@),
                count == total_pages(views.take(index as int)),
                count <= index * 0xffff,
            decreases self.chapters.len() - index,
        {
            let pages = self.chapters[index].page_count();
            proof {
                let longer = views.take(index + 1);
                assert(longer.drop_last() =~= views.take(index as int));
                assert(longer.last() == self.chapters@[index as int]@);
            }
            count += pages as u64;
            index += 1;
        }
        assert(views.take(index as int) =~= views);
        count
    }
}

/// What a lookup finds. A title is found for a language exactly when some
/// entry is in that language, and it is the text of the first such entry.
pub proof fn lemma_title_in(titles: Seq<LocalizedTitle>, language: Language)
    ensures
        match title_in(titles, language) {
            Some(title) => exists|i: int|
                0 <= i < titles.len() && (#[trigger] titles[i]).language == language
                    && titles[i].text@ == title && forall|j: int|
                    0 <= j < i ==> (#[trigger] titles[j]).language != language,
            None => forall|i: int| 0 <= i < titles.len() ==> (#[trigger] titles[i]).language != language,
        },
    decreases titles.len(),
{
    if titles.len() > 0 && titles[0].language != language {
        let rest = titles.drop_first();
        lemma_title_in(rest, language);
        assert forall|i: int| 0 <= i < rest.len() implies rest[i] == titles[i + 1] by {}
        match title_in(rest, language) {
            Some(title) => {
                let found = choose|i: int|
                    0 <= i < rest.len() && (#[trigger] rest[i]).language == language && rest[i].text@
                        == title && forall|j: int|
                        0 <= j < i ==> (#[trigger] rest[j]).language != language;
                assert(titles[found + 1] == rest[found]);
                assert forall|j: int| 0 <= j < found + 1 implies (#[trigger] titles[j]).language
                    != language by {
                    if j > 0 {
                        assert(titles[j] == rest[j - 1]);
                    }
                }
            },
            None => {
                assert forall|i: int| 0 <= i < titles.len() implies (#[trigger] titles[i]).language
                    != language by {
                    if i > 0 {
                        assert(titles[i] == rest[i - 1]);
                    }
                }
            },
        }
    } else if titles.len() > 0 {
        assert(titles[0].language == language);
    }
}

} // verus!
