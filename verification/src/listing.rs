//! Assembling the chapter list of a series from the pages of a paginated catalog.
//!
//! The catalog answers each request with a bounded page and the total it
//! currently knows of. A [`ChapterList`] takes the pages one by one and says
//! after each whether another one is needed, and at which offset.

use vstd::prelude::*;
use crate::chapter::{chapter_of, chapter_views, record_error, Chapter, ChapterRecord, ChapterView};
use crate::error::Error;
use crate::text::{lemma_sorts_before_irreflexive, sorts_before};

verus! {

/// One answer of the catalog to a request for chapters.
#[derive(Debug)]
pub struct ChapterPage {
    /// The chapters of this page, in the catalog's order.
    pub data: Vec<ChapterRecord>,
    /// How many chapters the catalog holds in all.
    pub total: u32,
    /// The page size the catalog applied.
    pub limit: u32,
}

/// What a listing in progress is, as plain values.
pub struct ListView {
    /// The offset the listing started at.
    pub start: u16,
    /// The offset of the next request.
    pub offset: u16,
    /// The chapters gathered so far.
    pub chapters: Seq<ChapterView>,
}

/// A listing in progress.
#[derive(Debug)]
pub struct ChapterList {
    start_offset: u16,
    offset: u16,
    chapters: Vec<Chapter>,
}

/// Where a listing stands after a page.
#[derive(Debug)]
pub enum ListProgress {
    /// Another page is needed.
    More(ChapterList),
    /// The listing is over; `complete` tells whether every chapter owed was
    /// gathered, or the catalog stopped handing out new ones before that.
    Done { chapters: Vec<Chapter>, complete: bool },
}

/// [`ListProgress`] as plain values.
pub enum RoundView {
    More(ListView),
    Done { chapters: Seq<ChapterView>, complete: bool },
}

impl View for ChapterList {
    type V = ListView;

    closed spec fn view(&self) -> ListView {
        ListView {
            start: self.start_offset,
            offset: self.offset,
            chapters: chapter_views(self.chapters@),
        }
    }
}

impl View for ListProgress {
    type V = RoundView;

    open spec fn view(&self) -> RoundView {
        match *self {
            ListProgress::More(list) => RoundView::More(list@),
            ListProgress::Done { chapters, complete } => RoundView::Done {
                chapters: chapter_views(chapters@),
                complete,
            },
        }
    }
}

impl RoundView {
    /// The chapters gathered, whether or not the listing is over.
    pub open spec fn chapters(self) -> Seq<ChapterView> {
        match self {
            RoundView::More(list) => list.chapters,
            RoundView::Done { chapters, .. } => chapters,
        }
    }
}

/// The most chapters a listing can hold: the catalog counts them in 32 bits.
pub const MAX_CHAPTERS: usize = 0xffff_ffff;

/// A listing that starts at `offset` and has seen no page yet.
pub open spec fn fresh(offset: u16) -> ListView {
    ListView { start: offset, offset, chapters: Seq::empty() }
}

/// How many chapters a listing that started at `start` owes when the catalog
/// reports `total`.
pub open spec fn owed(total: u32, start: u16) -> int {
    total - start
}

/// The error of the first record that cannot become a chapter, if there is one.
pub open spec fn first_record_error(records: Seq<ChapterRecord>) -> Option<Error>
    decreases records.len(),
{
    if records.len() == 0 {
        None
    } else if record_error(records[0]) is Some {
        record_error(records[0])
    } else {
        first_record_error(records.drop_first())
    }
}

/// The chapters that a run of well-formed records describes.
pub open spec fn chapters_of(records: Seq<ChapterRecord>) -> Seq<ChapterView> {
    records.map_values(|record: ChapterRecord| chapter_of(record))
}

/// The chapters held after `page`: those held before, then the page's, cut so
/// as not to exceed what the page's total leaves owed.
pub open spec fn gathered(list: ListView, page: ChapterPage) -> Seq<ChapterView> {
    let all = list.chapters + chapters_of(page.data@);
    if all.len() > owed(page.total, list.start) {
        all.take(owed(page.total, list.start))
    } else {
        all
    }
}

/// One round of the listing: what `page` does to `list`.
///
/// A total below the starting offset and a record that cannot become a chapter
/// are errors. Otherwise the listing is over once everything owed is held
/// (complete) or the page added nothing (exhausted); else it goes on at the
/// offset advanced by the page's limit, which must then fit.
pub open spec fn round(list: ListView, page: ChapterPage) -> Result<RoundView, Error> {
    if page.total < list.start {
        Err(Error::TotalBelowOffset)
    } else if first_record_error(page.data@) is Some {
        Err(first_record_error(page.data@).unwrap())
    } else {
        let chapters = gathered(list, page);
        if chapters.len() == owed(page.total, list.start) {
            Ok(RoundView::Done { chapters, complete: true })
        } else if chapters.len() == list.chapters.len() {
            Ok(RoundView::Done { chapters, complete: false })
        } else if page.limit > u16::MAX {
            Err(Error::LimitTooLarge)
        } else if list.offset + page.limit > u16::MAX {
            Err(Error::OffsetOverflow)
        } else {
            Ok(
                RoundView::More(
                    ListView {
                        start: list.start,
                        offset: (list.offset + page.limit) as u16,
                        chapters,
                    },
                ),
            )
        }
    }
}

/// A whole listing: the rounds of `pages` one after the other, until one ends
/// the listing or fails. Pages after that one are not looked at; a listing
/// that runs out of pages is still in progress.
pub open spec fn listed(list: ListView, pages: Seq<ChapterPage>) -> Result<RoundView, Error>
    decreases pages.len(),
{
    if pages.len() == 0 {
        Ok(RoundView::More(list))
    } else {
        match round(list, pages[0]) {
            Ok(RoundView::More(next)) => listed(next, pages.drop_first()),
            ended => ended,
        }
    }
}

/// Records before the first faulty one are all well-formed, so the first error
/// of a run is the first error of what is left after a well-formed prefix.
proof fn lemma_first_record_error_skip(records: Seq<ChapterRecord>, count: int)
    requires
        0 <= count <= records.len(),
        forall|i: int| 0 <= i < count ==> record_error(#[trigger] records[i]) is None,
    ensures
        first_record_error(records) == first_record_error(records.skip(count)),
    decreases count,
{
    if count == 0 {
        assert(records.skip(0) =~= records);
    } else {
        assert(record_error(records[0]) is None);
        let rest = records.drop_first();
        assert forall|i: int| 0 <= i < count - 1 implies record_error(#[trigger] rest[i]) is None by {
            assert(rest[i] == records[i + 1]);
        }
        lemma_first_record_error_skip(rest, count - 1);
        assert(rest.skip(count - 1) =~= records.skip(count));
    }
}

impl ChapterList {
    #[verifier::type_invariant]
    spec fn well_formed(self) -> bool {
        &&& self.start_offset <= self.offset
        &&& self.chapters@.len() <= MAX_CHAPTERS
    }

    /// Starts a listing at `offset`: chapters before it are skipped.
    pub fn new(offset: u16) -> (list: ChapterList)
        ensures
            list@ == fresh(offset),
    {
        let list = ChapterList { start_offset: offset, offset, chapters: Vec::new() };
        assert(list@.chapters =~= Seq::empty());
        list
    }

    /// The offset to request the next page at.
    pub fn offset(&self) -> (offset: u16)
        ensures
            offset == self@.offset,
    {
        self.offset
    }

    /// The offset the listing started at.
    pub fn start_offset(&self) -> (offset: u16)
        ensures
            offset == self@.start,
    {
        self.start_offset
    }

    /// How many chapters are held so far.
    pub fn len(&self) -> (count: usize)
        ensures
            count == self@.chapters.len(),
            count <= MAX_CHAPTERS,
    {
        proof {
            use_type_invariant(self);
        }
        self.chapters.len()
    }

    /// Takes in the page that the catalog returned for the request at
    /// [`offset`](ChapterList::offset).
    pub fn accept(self, page: &ChapterPage) -> (outcome: Result<ListProgress, Error>)
        ensures
            match outcome {
                Ok(progress) => round(self@, *page) == Ok::<RoundView, Error>(progress@),
                Err(error) => round(self@, *page) == Err::<RoundView, Error>(error),
            },
            outcome matches Ok(progress) ==> progress@.chapters().len() <= MAX_CHAPTERS,
    {
        proof {
            use_type_invariant(&self);
        }
        let ghost before = self@;
        let ChapterList { start_offset, offset, chapters } = self;
        let mut chapters = chapters;
        if page.total < start_offset as u32 {
            return Err(Error::TotalBelowOffset);
        }
        let target: usize = (page.total - start_offset as u32) as usize;
        let old_len: usize = chapters.len();
        let mut index: usize = 0;
        while index < page.data.len()
            invariant
                index <= page.data.len(),
                before == self@,
                before.start == start_offset,
                start_offset <= offset,
                page.total >= start_offset,
                forall|i: int| 0 <= i < index ==> record_error(#[trigger] page.data@[i]) is None,
                chapter_views(chapters@) == before.chapters + chapters_of(
                    page.data@.take(index as int),
                ),
            decreases page.data.len() - index,
        {
            let ghost held = chapters@;
            let ghost seen = page.data@.take(index as int);
            match Chapter::from_record(&page.data[index]) {
                Ok(chapter) => {
                    chapters.push(chapter);
                    assert(chapter_views(chapters@) =~= chapter_views(held).push(chapter@));
                },
                Err(error) => {
                    proof {
                        lemma_first_record_error_skip(page.data@, index as int);
                        assert(page.data@.skip(index as int)[0] == page.data@[index as int]);
                    }
                    return Err(error);
                },
            }
            index += 1;
            proof {
                let record = page.data@[index - 1];
                assert(page.data@.take(index as int) =~= seen.push(record));
                assert(chapters_of(seen.push(record)) =~= chapters_of(seen).push(chapter_of(record)));
                assert(chapter_views(chapters@) =~= before.chapters + chapters_of(
                    page.data@.take(index as int),
                ));
            }
        }
        proof {
            lemma_first_record_error_skip(page.data@, index as int);
            assert(page.data@.take(index as int) =~= page.data@);
            assert(page.data@.skip(index as int).len() == 0);
        }
        chapters.truncate(target);
        assert(chapter_views(chapters@) =~= gathered(before, *page));
        if chapters.len() == target {
            return Ok(ListProgress::Done { chapters, complete: true });
        }
        if chapters.len() == old_len {
            return Ok(ListProgress::Done { chapters, complete: false });
        }
        if page.limit > 0xffff {
            return Err(Error::LimitTooLarge);
        }
        let step: u16 = page.limit as u16;
        if step > 0xffff - offset {
            return Err(Error::OffsetOverflow);
        }
        Ok(ListProgress::More(ChapterList { start_offset, offset: offset + step, chapters }))
    }
}

impl ListProgress {
    /// The chapters gathered, whether or not the listing is over.
    pub fn into_chapters(self) -> (chapters: Vec<Chapter>)
        ensures
            chapter_views(chapters@) == self@.chapters(),
    {
        match self {
            ListProgress::More(list) => list.chapters,
            ListProgress::Done { chapters, .. } => chapters,
        }
    }
}

impl Chapter {
    /// Lists the chapters of a series from the pages that the catalog returned,
    /// in the order of the requests, for a listing that starts at `offset`.
    pub fn list(pages: &Vec<ChapterPage>, offset: u16) -> (outcome: Result<ListProgress, Error>)
        ensures
            match outcome {
                Ok(progress) => listed(fresh(offset), pages@) == Ok::<RoundView, Error>(progress@),
                Err(error) => listed(fresh(offset), pages@) == Err::<RoundView, Error>(error),
            },
            outcome matches Ok(progress) ==> progress@.chapters().len() <= MAX_CHAPTERS,
    {
        let mut list = ChapterList::new(offset);
        let mut index: usize = 0;
        assert(pages@.skip(0) =~= pages@);
        while index < pages.len()
            invariant
                index <= pages.len(),
                listed(fresh(offset), pages@) == listed(list@, pages@.skip(index as int)),
            decreases pages.len() - index,
        {
            let ghost rest = pages@.skip(index as int);
            assert(rest[0] == pages@[index as int]);
            assert(rest.drop_first() =~= pages@.skip(index + 1));
            match list.accept(&pages[index]) {
                Ok(ListProgress::More(next)) => {
                    list = next;
                },
                Ok(done) => {
                    return Ok(done);
                },
                Err(error) => {
                    return Err(error);
                },
            }
            index += 1;
        }
        assert(pages@.skip(index as int).len() == 0);
        proof {
            use_type_invariant(&list);
        }
        Ok(ListProgress::More(list))
    }
}

/// All the chapters that a run of pages holds, page after page.
pub open spec fn all_chapters(pages: Seq<ChapterPage>) -> Seq<ChapterView>
    decreases pages.len(),
{
    if pages.len() == 0 {
        Seq::empty()
    } else {
        chapters_of(pages[0].data@) + all_chapters(pages.drop_first())
    }
}

/// How many of `pages` a listing looks at before it is over, fails or runs out
/// of pages.
pub open spec fn rounds(list: ListView, pages: Seq<ChapterPage>) -> nat
    decreases pages.len(),
{
    if pages.len() == 0 {
        0
    } else {
        match round(list, pages[0]) {
            Ok(RoundView::More(next)) => 1 + rounds(next, pages.drop_first()),
            _ => 1,
        }
    }
}

/// Whether every chapter of a run stands `before` every later one.
pub open spec fn in_order(
    chapters: Seq<ChapterView>,
    before: spec_fn(ChapterView, ChapterView) -> bool,
) -> bool {
    forall|i: int, j: int| 0 <= i < j < chapters.len() ==> before(chapters[i], chapters[j])
}

/// Whether the chapter numbers of a run ascend strictly.
pub open spec fn ascending(chapters: Seq<ChapterView>) -> bool {
    in_order(chapters, |a: ChapterView, b: ChapterView| sorts_before(a.number, b.number))
}

/// What one round does to a listing. A round that asks for more has taken the
/// whole page, holds more than before and less than is owed, and has moved
/// the offset by the page's limit. A round that ends the listing holds a
/// prefix of what was held plus the page, never more than is owed; it is
/// complete exactly when it holds all that is owed, and otherwise the page
/// was empty and nothing changed.
pub proof fn lemma_round(list: ListView, page: ChapterPage)
    ensures
        match round(list, page) {
            Ok(RoundView::More(next)) => {
                &&& next.start == list.start
                &&& next.offset == list.offset + page.limit
                &&& next.chapters == list.chapters + chapters_of(page.data@)
                &&& list.chapters.len() < next.chapters.len() < owed(page.total, list.start)
            },
            Ok(RoundView::Done { chapters, complete }) => {
                &&& chapters.len() <= owed(page.total, list.start)
                &&& chapters.len() <= list.chapters.len() + page.data@.len()
                &&& chapters == (list.chapters + chapters_of(page.data@)).take(chapters.len() as int)
                &&& complete <==> chapters.len() == owed(page.total, list.start)
                &&& !complete ==> page.data@.len() == 0 && chapters == list.chapters
            },
            Err(error) => {
                ||| error == Error::TotalBelowOffset && page.total < list.start
                ||| first_record_error(page.data@) == Some(error)
                ||| error == Error::LimitTooLarge && page.limit > u16::MAX
                ||| error == Error::OffsetOverflow && list.offset + page.limit > u16::MAX
            },
        },
{
    let all = list.chapters + chapters_of(page.data@);
    assert(all.take(all.len() as int) =~= all);
    match round(list, page) {
        Ok(RoundView::Done { chapters, complete }) => {
            if !complete {
                assert(chapters =~= list.chapters);
            }
        },
        _ => {},
    }
}

/// A listing that is still in progress after `pages` has looked at all of
/// them and holds all their chapters behind those it held before.
proof fn lemma_listed_more(list: ListView, pages: Seq<ChapterPage>)
    requires
        listed(list, pages) matches Ok(RoundView::More(_)),
    ensures
        rounds(list, pages) == pages.len(),
        listed(list, pages) matches Ok(RoundView::More(end)) && end.start == list.start
            && end.chapters == list.chapters + all_chapters(pages),
    decreases pages.len(),
{
    if pages.len() == 0 {
        assert(list.chapters + all_chapters(pages) =~= list.chapters);
    } else {
        lemma_round(list, pages[0]);
        let next = round(list, pages[0])->Ok_0->More_0;
        lemma_listed_more(next, pages.drop_first());
        let end = listed(list, pages)->Ok_0->More_0;
        assert(end.chapters =~= list.chapters + all_chapters(pages));
    }
}

/// A listing that is over has looked at `rounds` pages; all of them but the
/// last were taken whole.
proof fn lemma_listed_done(list: ListView, pages: Seq<ChapterPage>)
    requires
        listed(list, pages) matches Ok(RoundView::Done { .. }),
    ensures
        1 <= rounds(list, pages) <= pages.len(),
        ({
            let used = rounds(list, pages) as int;
            let held = list.chapters + all_chapters(pages.take(used - 1));
            &&& listed(list, pages.take(used - 1)) == Ok::<RoundView, Error>(
                RoundView::More(
                    ListView {
                        start: list.start,
                        offset: listed(list, pages.take(used - 1))->Ok_0->More_0.offset,
                        chapters: held,
                    },
                ),
            )
            &&& listed(list, pages) == round(
                listed(list, pages.take(used - 1))->Ok_0->More_0,
                pages[used - 1],
            )
        }),
    decreases pages.len(),
{
    lemma_round(list, pages[0]);
    let used = rounds(list, pages) as int;
    match round(list, pages[0]) {
        Ok(RoundView::More(next)) => {
            let rest = pages.drop_first();
            lemma_listed_done(next, rest);
            let before = pages.take(used - 1);
            assert(before[0] == pages[0]);
            assert(before.drop_first() =~= rest.take(used - 2));
            assert(rest[used - 2] == pages[used - 1]);
            assert(list.chapters + all_chapters(before) =~= next.chapters + all_chapters(
                rest.take(used - 2),
            ));
        },
        _ => {
            assert(pages.take(0).len() == 0);
            assert(list.chapters + all_chapters(pages.take(0)) =~= list.chapters);
        },
    }
}

/// Completeness of a listing. When a listing that started at `start` is over,
/// it holds the chapters of the pages it looked at, in their order, cut after
/// the last chapter it holds. A complete listing holds exactly what the total
/// of the last page leaves owed from `start`. One that is not complete holds
/// less, and its last page added nothing to what the pages before it gave.
pub proof fn lemma_listing_complete(start: u16, pages: Seq<ChapterPage>)
    requires
        listed(fresh(start), pages) matches Ok(RoundView::Done { .. }),
    ensures
        1 <= rounds(fresh(start), pages) <= pages.len(),
        ({
            let used = rounds(fresh(start), pages) as int;
            let last = pages[used - 1];
            let chapters = listed(fresh(start), pages)->Ok_0->Done_chapters;
            let complete = listed(fresh(start), pages)->Ok_0->Done_complete;
            &&& chapters.len() <= all_chapters(pages.take(used)).len()
            &&& chapters == all_chapters(pages.take(used)).take(chapters.len() as int)
            &&& complete ==> chapters.len() == owed(last.total, start)
            &&& !complete ==> chapters.len() < owed(last.total, start) && chapters == all_chapters(
                pages.take(used - 1),
            )
        }),
{
    let list = fresh(start);
    lemma_listed_done(list, pages);
    let used = rounds(list, pages) as int;
    let last = pages[used - 1];
    let held = all_chapters(pages.take(used - 1));
    assert(list.chapters + held =~= held);
    let before = listed(list, pages.take(used - 1))->Ok_0->More_0;
    lemma_round(before, last);
    lemma_all_chapters_push(pages.take(used - 1), last);
    assert(pages.take(used - 1).push(last) =~= pages.take(used));
}

/// The chapters of a run of pages followed by one more page.
proof fn lemma_all_chapters_push(pages: Seq<ChapterPage>, page: ChapterPage)
    ensures
        all_chapters(pages.push(page)) == all_chapters(pages) + chapters_of(page.data@),
    decreases pages.len(),
{
    let longer = pages.push(page);
    if pages.len() == 0 {
        assert(longer.drop_first() =~= pages);
        assert(all_chapters(longer) =~= all_chapters(pages) + chapters_of(page.data@));
    } else {
        lemma_all_chapters_push(pages.drop_first(), page);
        assert(longer.drop_first() =~= pages.drop_first().push(page));
        assert(all_chapters(longer) =~= all_chapters(pages) + chapters_of(page.data@));
    }
}

/// A listing keeps the catalog's order. Whatever relation holds between each
/// chapter of the pages looked at and every later one, holds between the
/// chapters of the listing: it neither reorders nor repeats.
pub proof fn lemma_listing_keeps_order(
    start: u16,
    pages: Seq<ChapterPage>,
    before: spec_fn(ChapterView, ChapterView) -> bool,
)
    requires
        listed(fresh(start), pages) is Ok,
        in_order(all_chapters(pages.take(rounds(fresh(start), pages) as int)), before),
    ensures
        in_order(listed(fresh(start), pages)->Ok_0.chapters(), before),
{
    let list = fresh(start);
    let used = rounds(list, pages) as int;
    let all = all_chapters(pages.take(used));
    match listed(list, pages) {
        Ok(RoundView::More(end)) => {
            lemma_listed_more(list, pages);
            assert(pages.take(used) =~= pages);
            assert(end.chapters =~= all);
        },
        Ok(RoundView::Done { chapters, .. }) => {
            lemma_listing_complete(start, pages);
            assert forall|i: int, j: int| 0 <= i < j < chapters.len() implies before(
                chapters[i],
                chapters[j],
            ) by {
                assert(chapters[i] == all[i]);
                assert(chapters[j] == all[j]);
            }
        },
        Err(_) => {},
    }
}

/// Ascending order without duplicates. Where the chapter numbers of the pages
/// looked at ascend strictly, so do those of the listing, and no two of its
/// chapters have the same number.
pub proof fn lemma_listing_ascending(start: u16, pages: Seq<ChapterPage>)
    requires
        listed(fresh(start), pages) is Ok,
        ascending(all_chapters(pages.take(rounds(fresh(start), pages) as int))),
    ensures
        ascending(listed(fresh(start), pages)->Ok_0.chapters()),
        forall|i: int, j: int|
            #![trigger
                listed(fresh(start), pages)->Ok_0.chapters()[i],
                listed(fresh(start), pages)->Ok_0.chapters()[j]
            ]
            0 <= i < j < listed(fresh(start), pages)->Ok_0.chapters().len() ==> listed(
                fresh(start),
                pages,
            )->Ok_0.chapters()[i].number != listed(fresh(start), pages)->Ok_0.chapters()[j].number,
{
    let chapters = listed(fresh(start), pages)->Ok_0.chapters();
    lemma_listing_keeps_order(
        start,
        pages,
        |a: ChapterView, b: ChapterView| sorts_before(a.number, b.number),
    );
    assert forall|i: int, j: int| 0 <= i < j < chapters.len() implies chapters[i].number
        != chapters[j].number by {
        lemma_sorts_before_irreflexive(chapters[i].number);
    }
}

/// Termination on a page that brings nothing. A listing that receives an empty
/// page is over with that page, whatever pages would follow: it never asks
/// for more.
pub proof fn lemma_empty_page_ends(list: ListView, pages: Seq<ChapterPage>)
    requires
        pages.len() > 0,
        pages[0].data@.len() == 0,
    ensures
        rounds(list, pages) == 1,
        listed(list, pages) == round(list, pages[0]),
        !(listed(list, pages) matches Ok(RoundView::More(_))),
{
    assert(list.chapters + chapters_of(pages[0].data@) =~= list.chapters);
}

/// A bound on the rounds. While the catalog keeps reporting the same total, a
/// listing looks at no more pages than chapters are still owed, plus one.
pub proof fn lemma_rounds_bounded(list: ListView, pages: Seq<ChapterPage>, total: u32)
    requires
        forall|i: int| 0 <= i < pages.len() ==> (#[trigger] pages[i]).total == total,
        list.chapters.len() <= owed(total, list.start),
    ensures
        rounds(list, pages) <= owed(total, list.start) - list.chapters.len() + 1,
    decreases pages.len(),
{
    if pages.len() > 0 {
        lemma_round(list, pages[0]);
        match round(list, pages[0]) {
            Ok(RoundView::More(next)) => {
                let rest = pages.drop_first();
                assert forall|i: int| 0 <= i < rest.len() implies (#[trigger] rest[i]).total
                    == total by {
                    assert(rest[i] == pages[i + 1]);
                }
                lemma_rounds_bounded(next, rest, total);
            },
            _ => {},
        }
    }
}

/// Which error a page's records give. There is none exactly when every record
/// is well-formed; else it is the error of the first record that is not.
pub proof fn lemma_first_record_error(records: Seq<ChapterRecord>)
    ensures
        match first_record_error(records) {
            None => forall|i: int|
                0 <= i < records.len() ==> record_error(#[trigger] records[i]) is None,
            Some(error) => exists|i: int|
                0 <= i < records.len() && record_error(#[trigger] records[i]) == Some(error)
                    && forall|j: int| 0 <= j < i ==> record_error(#[trigger] records[j]) is None,
        },
    decreases records.len(),
{
    if records.len() > 0 {
        if record_error(records[0]) is Some {
            assert(record_error(records[0]) == first_record_error(records));
        } else {
            let rest = records.drop_first();
            lemma_first_record_error(rest);
            match first_record_error(rest) {
                None => {
                    assert forall|i: int| 0 <= i < records.len() implies record_error(
                        #[trigger] records[i],
                    ) is None by {
                        if i > 0 {
                            assert(records[i] == rest[i - 1]);
                        }
                    }
                },
                Some(error) => {
                    let found = choose|i: int|
                        0 <= i < rest.len() && record_error(#[trigger] rest[i]) == Some(error)
                            && forall|j: int|
                            0 <= j < i ==> record_error(#[trigger] rest[j]) is None;
                    assert(records[found + 1] == rest[found]);
                    assert forall|j: int| 0 <= j < found + 1 implies record_error(
                        #[trigger] records[j],
                    ) is None by {
                        if j > 0 {
                            assert(records[j] == rest[j - 1]);
                        }
                    }
                },
            }
        }
    }
}

} // verus!
