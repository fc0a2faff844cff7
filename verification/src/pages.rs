//! The pages of a chapter: where each one is fetched from, under which name it
//! is kept, and whether it has to be fetched at all.

use vstd::prelude::*;
use crate::chapter::Chapter;
use crate::error::Error;
use crate::fs::{extname, extname_from_path};
use crate::location::{join_url, joined_url, path_of_url, url_path};
use crate::text::{
    all_digits, decimal, decimal_string, digit_value, joined, lemma_digits_sort,
    lemma_pad_left_shape, lemma_sorts_before_at, lemma_sorts_before_prefix, lemma_three_digits,
    lemma_zero_padded_decimal, number_of, pad_left, sorts_before, zero_padded,
};

verus! {

/// Where the pages of one chapter can be fetched for a short while: the base
/// address of a delivery server, the hash of the chapter, and the names of
/// the page files in reading order.
#[derive(Debug)]
pub struct AtHome {
    pub base_url: String,
    pub hash: String,
    pub filenames: Vec<String>,
}

/// What one planned page is, as plain values.
pub struct PageView {
    pub url: Seq<char>,
    pub filename: Seq<char>,
}

/// One page to download: the address it comes from and the name of the file
/// that keeps it.
#[derive(Debug)]
pub struct PageDownload {
    url: String,
    filename: String,
}

/// What to do about a page.
#[derive(Debug, Clone, Copy, PartialEq, Eq, Structural)]
pub enum PageAction {
    /// The file is there: nothing is fetched.
    Skip,
    /// The file is missing: fetch the page and write the file.
    Fetch,
}

impl View for PageDownload {
    type V = PageView;

    closed spec fn view(&self) -> PageView {
        PageView { url: self.url@, filename: self.filename@ }
    }
}

/// Width that the position of a page is padded to in file names.
pub const INDEX_WIDTH: usize = 3;

/// The reference of a page file on a delivery server.
pub open spec fn page_reference(hash: Seq<char>, filename: Seq<char>) -> Seq<char> {
    "/data/"@ + hash + "/"@ + filename
}

/// The position of a page as it stands in file names: decimal, padded with
/// zeros to three digits.
pub open spec fn page_index(index: nat) -> Seq<char> {
    pad_left(decimal(index), '0', INDEX_WIDTH as nat)
}

/// The name of the file that keeps page `index` of chapter `number`.
pub open spec fn page_filename(number: Seq<char>, index: nat, extension: Seq<char>) -> Seq<char> {
    number + "-"@ + page_index(index) + "."@ + extension
}

/// The page that is planned for `filenames[index]`: its address is the file's
/// reference resolved against the base, its local name is made of the
/// chapter number, the position and the extension found in the address's
/// path. There is none where no address can be built.
pub open spec fn planned_page(number: Seq<char>, at_home: AtHome, index: int) -> Option<PageView> {
    match joined_url(
        at_home.base_url@,
        page_reference(at_home.hash@, at_home.filenames@[index]@),
    ) {
        None => None,
        Some(url) => match path_of_url(url) {
            None => None,
            Some(path) => Some(
                PageView { url, filename: page_filename(number, index as nat, extname(path)) },
            ),
        },
    }
}

/// What is done about a page, given whether its file is on disk.
pub open spec fn action_for(on_disk: bool) -> PageAction {
    if on_disk {
        PageAction::Skip
    } else {
        PageAction::Fetch
    }
}

/// Builds the reference of a page file on a delivery server.
pub fn page_reference_text(hash: &str, filename: &str) -> (reference: String)
    ensures
        reference@ == page_reference(hash@, filename@),
{
    let mut reference = joined("/data/", hash);
    reference.append("/");
    reference.append(filename);
    assert(reference@ =~= page_reference(hash@, filename@));
    reference
}

/// Builds the name of the file that keeps page `index` of chapter `number`.
pub fn page_filename_text(number: &str, index: usize, extension: &str) -> (filename: String)
    ensures
        filename@ == page_filename(number@, index as nat, extension@),
{
    let position = decimal_string(index);
    let position = zero_padded(position.as_str(), INDEX_WIDTH);
    let mut filename = joined(number, "-");
    filename.append(position.as_str());
    filename.append(".");
    filename.append(extension);
    assert(filename@ =~= page_filename(number@, index as nat, extension@));
    filename
}

impl PageDownload {
    /// Plans the download of page `index` of chapter `number` from the address
    /// `url`, whose path is `path`.
    pub fn new(number: &str, index: usize, url: String, path: &str) -> (page: PageDownload)
        ensures
            page@ == (PageView {
                url: url@,
                filename: page_filename(number@, index as nat, extname(path@)),
            }),
    {
        let extension = extname_from_path(path);
        let filename = page_filename_text(number, index, extension.as_str());
        PageDownload { url, filename }
    }

    /// The address the page is fetched from.
    pub fn url(&self) -> (url: &str)
        ensures
            url@ == self@.url,
    {
        self.url.as_str()
    }

    /// The name of the file that keeps the page, relative to the directory of
    /// its volume.
    pub fn filename(&self) -> (filename: &str)
        ensures
            filename@ == self@.filename,
    {
        self.filename.as_str()
    }

    /// Decides what to do about the page: a file that is on disk under the
    /// page's name is taken as the page, and nothing is fetched.
    pub fn action(&self, on_disk: bool) -> (action: PageAction)
        ensures
            action == action_for(on_disk),
    {
        if on_disk {
            PageAction::Skip
        } else {
            PageAction::Fetch
        }
    }
}

impl Chapter {
    /// Plans the download of the chapter's pages from the delivery server
    /// described by `at_home`: one page for each file name, in their order.
    pub fn download_pages(&self, at_home: &AtHome) -> (plan: Result<Vec<PageDownload>, Error>)
        ensures
            match plan {
                Ok(pages) => {
                    &&& pages@.len() == at_home.filenames@.len()
                    &&& forall|i: int|
                        #![trigger pages@[i]]
                        0 <= i < pages@.len() ==> planned_page(self@.number, *at_home, i) == Some(
                            pages@[i]@,
                        )
                },
                Err(error) => {
                    &&& error == Error::InvalidUrl
                    &&& exists|i: int|
                        0 <= i < at_home.filenames@.len() && #[trigger] planned_page(
                            self@.number,
                            *at_home,
                            i,
                        ) is None
                },
            },
    {
        let number = self.number();
        let mut pages: Vec<PageDownload> = Vec::new();
        let mut index: usize = 0;
        while index < at_home.filenames.len()
            invariant
                index <= at_home.filenames@.len(),
                pages@.len() == index,
                number@ == self@.number,
                forall|i: int|
                    #![trigger pages@[i]]
                    0 <= i < index ==> planned_page(self@.number, *at_home, i) == Some(pages@[i]@),
            decreases at_home.filenames@.len() - index,
        {
            let reference = page_reference_text(
                at_home.hash.as_str(),
                at_home.filenames[index].as_str(),
            );
            let url = match join_url(at_home.base_url.as_str(), reference.as_str()) {
                Some(url) => url,
                None => {
                    assert(planned_page(self@.number, *at_home, index as int) is None);
                    return Err(Error::InvalidUrl);
                },
            };
            let path = match url_path(url.as_str()) {
                Some(path) => path,
                None => {
                    assert(planned_page(self@.number, *at_home, index as int) is None);
                    return Err(Error::InvalidUrl);
                },
            };
            let page = PageDownload::new(number, index, url, path.as_str());
            pages.push(page);
            index += 1;
        }
        Ok(pages)
    }
}

/// The position of a page can be read back from what stands for it in the
/// file name: digits only, three at least, that write the position.
pub proof fn lemma_page_index_reads_back(index: nat)
    ensures
        page_index(index).len() >= INDEX_WIDTH,
        all_digits(page_index(index)),
        number_of(page_index(index)) == index,
{
    lemma_zero_padded_decimal(index, INDEX_WIDTH as nat);
    lemma_pad_left_shape(decimal(index), '0', INDEX_WIDTH as nat);
}

/// File names tell the pages of a chapter apart, whatever their extensions:
/// pages at different positions are kept under different names, so the order
/// in which they are written plays no part.
pub proof fn lemma_page_filenames_distinct(
    number: Seq<char>,
    first: nat,
    second: nat,
    first_extension: Seq<char>,
    second_extension: Seq<char>,
)
    requires
        first != second,
    ensures
        page_filename(number, first, first_extension) != page_filename(
            number,
            second,
            second_extension,
        ),
{
    reveal_strlit("-");
    reveal_strlit(".");
    lemma_page_index_reads_back(first);
    lemma_page_index_reads_back(second);
    let a = page_index(first);
    let b = page_index(second);
    let left = page_filename(number, first, first_extension);
    let right = page_filename(number, second, second_extension);
    let start: int = number.len() as int + 1;
    let a_end: int = start + a.len();
    let b_end: int = start + b.len();
    assert(left.subrange(start, a_end) =~= a);
    assert(right.subrange(start, b_end) =~= b);
    assert(left[a_end] == '.');
    assert(right[b_end] == '.');
    if left == right {
        if a.len() < b.len() {
            assert(right[a_end] == b[a.len() as int]);
            assert(digit_value(b[a.len() as int]) is Some);
        } else if b.len() < a.len() {
            assert(left[b_end] == a[b.len() as int]);
            assert(digit_value(a[b.len() as int]) is Some);
        } else {
            assert(a == b);
        }
        assert(false);
    }
}

/// Which digit tells two numbers below a thousand apart: the first of
/// hundreds, tens and units in which they differ, and there the smaller
/// number has the smaller digit.
proof fn lemma_first_differing_digit(first: nat, second: nat) -> (position: int)
    requires
        first < second < 1000,
    ensures
        0 <= position < 3,
        forall|i: int| 0 <= i < position ==> page_index(first)[i] == page_index(second)[i],
        page_index(first).len() == 3,
        page_index(second).len() == 3,
        page_index(first)[position] < page_index(second)[position],
{
    lemma_three_digits(first);
    lemma_three_digits(second);
    let a = page_index(first);
    let b = page_index(second);
    if first / 100 != second / 100 {
        lemma_digits_sort(first / 100, second / 100);
        0
    } else if (first / 10) % 10 != (second / 10) % 10 {
        assert(first / 10 < second / 10);
        lemma_digits_sort((first / 10) % 10, (second / 10) % 10);
        assert(a[0] == b[0]);
        1
    } else {
        assert(first / 10 == second / 10);
        lemma_digits_sort(first % 10, second % 10);
        assert(a[0] == b[0]);
        assert(a[1] == b[1]);
        2
    }
}

/// File names sort in reading order. Among the first thousand pages of a
/// chapter, the name of a page sorts before the name of every later page,
/// whatever their extensions.
pub proof fn lemma_page_filenames_sorted(
    number: Seq<char>,
    first: nat,
    second: nat,
    first_extension: Seq<char>,
    second_extension: Seq<char>,
)
    requires
        first < second < 1000,
    ensures
        sorts_before(
            page_filename(number, first, first_extension),
            page_filename(number, second, second_extension),
        ),
{
    let position = lemma_first_differing_digit(first, second);
    let prefix = number + "-"@;
    let left = page_index(first) + "."@ + first_extension;
    let right = page_index(second) + "."@ + second_extension;
    assert(page_filename(number, first, first_extension) =~= prefix + left);
    assert(page_filename(number, second, second_extension) =~= prefix + right);
    assert forall|i: int| 0 <= i < 3 implies left[i] == page_index(first)[i] && right[i]
        == page_index(second)[i] by {}
    lemma_sorts_before_at(left, right, position);
    lemma_sorts_before_prefix(prefix, left, right);
}

/// The names under which the pages of a plan are kept.
pub open spec fn names_of(pages: Seq<PageView>) -> Set<Seq<char>> {
    Set::new(|name: Seq<char>| exists|i: int| 0 <= i < pages.len() && pages[i].filename == name)
}

/// The pages of a plan that a run fetches when the directory holds the files
/// `on_disk`: those whose file is missing.
pub open spec fn to_fetch(pages: Seq<PageView>, on_disk: Set<Seq<char>>) -> Seq<PageView> {
    pages.filter(|page: PageView| action_for(on_disk.contains(page.filename)) == PageAction::Fetch)
}

/// The files that the directory holds after a run that went through: those it
/// held before and one for every page.
pub open spec fn after_run(pages: Seq<PageView>, on_disk: Set<Seq<char>>) -> Set<Seq<char>> {
    on_disk + names_of(pages)
}

/// A second run fetches nothing. After a run that went through, a run of the
/// same plan against the same directory finds every file, fetches no page
/// and adds no file, whatever else the directory held.
pub proof fn lemma_second_run_fetches_nothing(pages: Seq<PageView>, on_disk: Set<Seq<char>>)
    ensures
        to_fetch(pages, after_run(pages, on_disk)).len() == 0,
        after_run(pages, after_run(pages, on_disk)) == after_run(pages, on_disk),
{
    let held = after_run(pages, on_disk);
    let missing = |page: PageView| action_for(held.contains(page.filename)) == PageAction::Fetch;
    assert forall|i: int| 0 <= i < pages.len() implies !missing(#[trigger] pages[i]) by {
        assert(names_of(pages).contains(pages[i].filename));
    }
    assert(pages.all(|page: PageView| !missing(page)));
    pages.lemma_all_neg_filter_empty(missing);
    assert(after_run(pages, held) =~= held);
}

} // verus!
