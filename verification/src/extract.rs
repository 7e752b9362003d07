//! Whole pages and whole documents: from the objects of each page to its lines and images.

use crate::lines::{
    assemble_lines, assembled, images_decoded, lemma_assembled_numbers,
    lemma_numbers_used_by_eligible, lemma_numbers_used_in_any_order, ImageOutcome, LineState,
    PageItemView,
};
use crate::object::{eligible_indices, lemma_eligible_indices, ContentObject};
use crate::order::{lemma_reading_order_permutes, reading_order, reading_order_of};
use crate::page::{
    project_page, projected, text_lines, without_short_lines, ExtractedImageMetaView,
    ExtractedPage, ExtractedPageView,
};
use crate::text::{trim, trimmed};
use vstd::prelude::*;
use vstd::string::StringExecFns;

verus! {

/// The tolerance of line bands for coordinates in whole page units. A caller whose
/// coordinates are in a finer unit passes this value in that unit.
pub const SAME_LINE_RANGE_DIFF: u64 = 5;

/// The state of line assembly after the objects of a page, read in reading order.
pub open spec fn page_assembled(
    objects: Seq<ContentObject<ImageOutcome>>,
    tolerance: int,
    first_image_number: nat,
) -> LineState {
    assembled(
        objects,
        reading_order_of(objects, tolerance),
        tolerance,
        LineState::start(first_image_number),
    )
}

/// The items of a page in reading order.
pub open spec fn page_items(
    objects: Seq<ContentObject<ImageOutcome>>,
    tolerance: int,
    first_image_number: nat,
) -> Seq<PageItemView> {
    page_assembled(objects, tolerance, first_image_number).finished()
}

/// What a page gives, where its first image gets the number `first_image_number`.
pub open spec fn extracted_page(
    objects: Seq<ContentObject<ImageOutcome>>,
    tolerance: int,
    first_image_number: nat,
) -> ExtractedPageView {
    projected(page_items(objects, tolerance, first_image_number))
}

/// How many images on all of `pages` use up an image number: those whose pixels were had.
pub open spec fn total_images_decoded(pages: Seq<Vec<ContentObject<ImageOutcome>>>) -> nat
    decreases pages.len(),
{
    if pages.len() == 0 {
        0
    } else {
        total_images_decoded(pages.drop_last()) + images_decoded(
            pages.last()@,
            pages.last()@.len() as int,
        )
    }
}

/// What the pages of a document give, page by page. Image numbers start at 1 and run on from
/// page to page: the first image of a page gets the number behind those that the pages before
/// it used up.
pub open spec fn extracted_pages(pages: Seq<Vec<ContentObject<ImageOutcome>>>, tolerance: int) -> Seq<
    ExtractedPageView,
>
    decreases pages.len(),
{
    if pages.len() == 0 {
        Seq::empty()
    } else {
        extracted_pages(pages.drop_last(), tolerance).push(
            extracted_page(pages.last()@, tolerance, 1 + total_images_decoded(pages.drop_last())),
        )
    }
}

/// The trimmed texts of the text objects of a page, one behind the other with nothing between
/// them, in the order in which the page lists them.
pub open spec fn joined_text<I>(objects: Seq<ContentObject<I>>) -> Seq<char>
    decreases objects.len(),
{
    if objects.len() == 0 {
        Seq::empty()
    } else {
        match objects.last() {
            ContentObject::Text { text: Some(text), .. } => joined_text(objects.drop_last())
                + trimmed(text@),
            _ => joined_text(objects.drop_last()),
        }
    }
}

/// Image numbers are consecutive over a page: the number after the page is the number
/// before it and one more for each of its images whose pixels were had.
pub proof fn lemma_page_numbers(
    objects: Seq<ContentObject<ImageOutcome>>,
    tolerance: int,
    first_image_number: nat,
)
    requires
        objects.len() <= usize::MAX,
    ensures
        page_assembled(objects, tolerance, first_image_number).next_image_number
            == first_image_number + images_decoded(objects, objects.len() as int),
        images_decoded(objects, objects.len() as int) <= objects.len(),
{
    let order = reading_order_of(objects, tolerance);
    let candidates = eligible_indices(objects, objects.len() as int);
    lemma_assembled_numbers(objects, order, tolerance, LineState::start(first_image_number));
    lemma_reading_order_permutes(objects, tolerance);
    lemma_numbers_used_in_any_order(objects, order, candidates);
    lemma_numbers_used_by_eligible(objects, objects.len() as int);
}

/// A page without eligible objects has an empty reading order.
pub proof fn lemma_nothing_eligible<I>(objects: Seq<ContentObject<I>>, tolerance: int)
    requires
        objects.len() <= usize::MAX,
        forall|i: int| 0 <= i < objects.len() ==> !(#[trigger] objects[i]).spec_is_eligible(),
    ensures
        eligible_indices(objects, objects.len() as int).len() == 0,
        reading_order_of(objects, tolerance).len() == 0,
{
    lemma_eligible_indices(objects, objects.len() as int);
    lemma_reading_order_permutes(objects, tolerance);
    let candidates = eligible_indices(objects, objects.len() as int);
    if candidates.len() > 0 {
        assert(objects[candidates[0] as int].spec_is_eligible());
    }
}

/// A page without eligible objects gives no line and no image, whatever number its first
/// image would get.
pub proof fn lemma_empty_page(
    objects: Seq<ContentObject<ImageOutcome>>,
    tolerance: int,
    first_image_number: nat,
)
    requires
        objects.len() <= usize::MAX,
        forall|i: int| 0 <= i < objects.len() ==> !(#[trigger] objects[i]).spec_is_eligible(),
    ensures
        page_items(objects, tolerance, first_image_number) == Seq::<PageItemView>::empty(),
        extracted_page(objects, tolerance, first_image_number).page_text_lines == Seq::<
            Seq<char>,
        >::empty(),
        extracted_page(objects, tolerance, first_image_number).page_images == Seq::<
            ExtractedImageMetaView,
        >::empty(),
        page_assembled(objects, tolerance, first_image_number).next_image_number
            == first_image_number,
{
    lemma_nothing_eligible(objects, tolerance);
    let items = page_items(objects, tolerance, first_image_number);
    assert(items =~= Seq::<PageItemView>::empty());
    assert(without_short_lines(items) =~= Seq::<PageItemView>::empty());
}

/// A document gives one page for each of its pages.
pub proof fn lemma_extracted_pages_len(
    pages: Seq<Vec<ContentObject<ImageOutcome>>>,
    tolerance: int,
)
    ensures
        extracted_pages(pages, tolerance).len() == pages.len(),
    decreases pages.len(),
{
    if pages.len() > 0 {
        lemma_extracted_pages_len(pages.drop_last(), tolerance);
    }
}

/// The page at `i` of what a document gives is what the document's page at `i` gives, with
/// its first image numbered behind the images of the pages before it.
pub proof fn lemma_extracted_pages_at(
    pages: Seq<Vec<ContentObject<ImageOutcome>>>,
    tolerance: int,
    i: int,
)
    requires
        0 <= i < pages.len(),
    ensures
        extracted_pages(pages, tolerance).len() == pages.len(),
        extracted_pages(pages, tolerance)[i] == extracted_page(
            pages[i]@,
            tolerance,
            1 + total_images_decoded(pages.take(i)),
        ),
    decreases pages.len(),
{
    lemma_extracted_pages_len(pages, tolerance);
    lemma_extracted_pages_len(pages.drop_last(), tolerance);
    if i == pages.len() - 1 {
        assert(pages.take(i) =~= pages.drop_last());
    } else {
        lemma_extracted_pages_at(pages.drop_last(), tolerance, i);
        assert(pages.drop_last().take(i) =~= pages.take(i));
    }
}

/// Every page of a document reports exactly the text lines of its assembled items, in their
/// order, short ones too: what is left out when the text of an image is looked for is not
/// left out of the lines.
pub proof fn lemma_pages_report_every_line(
    pages: Seq<Vec<ContentObject<ImageOutcome>>>,
    tolerance: int,
    i: int,
)
    requires
        0 <= i < pages.len(),
    ensures
        extracted_pages(pages, tolerance).len() == pages.len(),
        extracted_pages(pages, tolerance)[i].page_text_lines == text_lines(
            page_items(pages[i]@, tolerance, 1 + total_images_decoded(pages.take(i))),
        ),
{
    lemma_extracted_pages_at(pages, tolerance, i);
}

/// A page of a document that has no eligible object is still reported, with no line and no
/// image.
pub proof fn lemma_page_without_eligible_objects(
    pages: Seq<Vec<ContentObject<ImageOutcome>>>,
    tolerance: int,
    i: int,
)
    requires
        0 <= i < pages.len(),
        forall|j: int| 0 <= j < pages[i]@.len() ==> !(#[trigger] pages[i]@[j]).spec_is_eligible(),
    ensures
        extracted_pages(pages, tolerance).len() == pages.len(),
        extracted_pages(pages, tolerance)[i].page_text_lines == Seq::<Seq<char>>::empty(),
        extracted_pages(pages, tolerance)[i].page_images == Seq::<ExtractedImageMetaView>::empty(),
{
    lemma_extracted_pages_at(pages, tolerance, i);
    assert(pages[i]@.len() == pages[i].len());
    lemma_empty_page(pages[i]@, tolerance, 1 + total_images_decoded(pages.take(i)));
}

/// What one page gives: its lines of text and its stored images, each image with the text
/// that belongs to it. Each image object holds what became of it; the first image whose
/// pixels were had gets the number `first_image_number`. Also returns the number that the
/// next page's first image gets.
///
/// A page without eligible objects gives no line and no image.
pub fn extract_page(
    objects: &Vec<ContentObject<ImageOutcome>>,
    tolerance: u64,
    first_image_number: u64,
) -> (result: (ExtractedPage, u64))
    requires
        first_image_number + images_decoded(objects@, objects.len() as int) <= u64::MAX,
    ensures
        result.0@ == extracted_page(objects@, tolerance as int, first_image_number as nat),
        result.1 == page_assembled(
            objects@,
            tolerance as int,
            first_image_number as nat,
        ).next_image_number,
        result.1 == first_image_number + images_decoded(objects@, objects.len() as int),
        result.0@.page_text_lines == text_lines(
            page_items(objects@, tolerance as int, first_image_number as nat),
        ),
        (forall|i: int| 0 <= i < objects.len() ==> !(#[trigger] objects[i]).spec_is_eligible()) ==> {
            &&& result.0@.page_text_lines == Seq::<Seq<char>>::empty()
            &&& result.0@.page_images == Seq::<ExtractedImageMetaView>::empty()
            &&& result.1 == first_image_number
        },
{
    proof {
        lemma_eligible_indices(objects@, objects.len() as int);
        lemma_page_numbers(objects@, tolerance as int, first_image_number as nat);
        lemma_assembled_numbers(
            objects@,
            reading_order_of(objects@, tolerance as int),
            tolerance as int,
            LineState::start(first_image_number as nat),
        );
        if forall|i: int| 0 <= i < objects.len() ==> !(#[trigger] objects[i]).spec_is_eligible() {
            lemma_nothing_eligible(objects@, tolerance as int);
        }
    }
    let order = reading_order(objects, tolerance);
    let (items, next_image_number) = assemble_lines(objects, &order, tolerance, first_image_number);
    let page = project_page(&items);
    proof {
        if order@.len() == 0 {
            assert(items.deep_view() =~= Seq::empty());
            assert(without_short_lines(items.deep_view()) =~= Seq::empty());
        }
    }
    (page, next_image_number)
}

/// What the pages of a document give, page by page. Image numbers start at 1 and run on from
/// page to page.
pub fn extract_text_and_images(pages: &Vec<Vec<ContentObject<ImageOutcome>>>, tolerance: u64) -> (result:
    Vec<ExtractedPage>)
    requires
        1 + total_images_decoded(pages@) <= u64::MAX,
    ensures
        result.deep_view() == extracted_pages(pages@, tolerance as int),
        result@.len() == pages@.len(),
        forall|i: int|
            0 <= i < pages@.len() ==> (#[trigger] result@[i])@ == extracted_page(
                pages@[i]@,
                tolerance as int,
                1 + total_images_decoded(pages@.take(i)),
            ),
{
    let mut result: Vec<ExtractedPage> = Vec::new();
    let mut next_image_number: u64 = 1;
    let mut i: usize = 0;
    assert(pages@.take(0) =~= Seq::empty());
    assert(result.deep_view() =~= Seq::empty());
    while i < pages.len()
        invariant
            i <= pages.len(),
            1 + total_images_decoded(pages@) <= u64::MAX,
            result@.len() == i,
            result.deep_view() == extracted_pages(pages@.take(i as int), tolerance as int),
            next_image_number == 1 + total_images_decoded(pages@.take(i as int)),
        decreases pages.len() - i,
    {
        proof {
            let now = pages@.take(i + 1);
            assert(now.drop_last() =~= pages@.take(i as int));
            assert(now.last() == pages[i as int]);
            lemma_total_images_grow(pages@, i + 1);
        }
        let (page, next) = extract_page(&pages[i], tolerance, next_image_number);
        let ghost before = result.deep_view();
        result.push(page);
        assert(result.deep_view() =~= before.push(page@));
        next_image_number = next;
        i += 1;
    }
    proof {
        assert(pages@.take(pages@.len() as int) =~= pages@);
        assert forall|i: int| 0 <= i < pages@.len() implies (#[trigger] result@[i])@
            == extracted_page(
            pages@[i]@,
            tolerance as int,
            1 + total_images_decoded(pages@.take(i)),
        ) by {
            lemma_extracted_pages_at(pages@, tolerance as int, i);
            assert(result.deep_view()[i] == result@[i]@);
        }
    }
    result
}

/// The first `n` pages use no more numbers than all pages.
proof fn lemma_total_images_grow(pages: Seq<Vec<ContentObject<ImageOutcome>>>, n: int)
    requires
        0 <= n <= pages.len(),
    ensures
        total_images_decoded(pages.take(n)) <= total_images_decoded(pages),
    decreases pages.len() - n,
{
    if n < pages.len() {
        lemma_total_images_grow(pages, n + 1);
        assert(pages.take(n + 1).drop_last() =~= pages.take(n));
    } else {
        assert(pages.take(n) =~= pages);
    }
}

/// The text of one page: the trimmed texts of its text objects joined with nothing between
/// them, in the order in which the page lists them.
pub fn page_text<I>(objects: &Vec<ContentObject<I>>) -> (text: String)
    ensures
        text@ == joined_text(objects@),
{
    let mut joined = String::new();
    let mut i: usize = 0;
    assert(objects@.take(0) =~= Seq::empty());
    while i < objects.len()
        invariant
            i <= objects.len(),
            joined@ == joined_text(objects@.take(i as int)),
        decreases objects.len() - i,
    {
        proof {
            let now = objects@.take(i + 1);
            assert(now.drop_last() =~= objects@.take(i as int));
            assert(now.last() == objects[i as int]);
        }
        match &objects[i] {
            ContentObject::Text { text: Some(text), .. } => {
                let shown = trim(text.as_str());
                joined.append(shown.as_str());
            },
            _ => {},
        }
        i += 1;
    }
    assert(objects@.take(objects@.len() as int) =~= objects@);
    joined
}

/// The text of a document, one string for each page, in the order of the pages: all text
/// objects of the page joined with nothing between them. A page without text gives the empty
/// string. No ordering and no line assembly takes place.
pub fn extract_text<I>(pages: &Vec<Vec<ContentObject<I>>>) -> (texts: Vec<String>)
    ensures
        texts@.len() == pages@.len(),
        forall|i: int| 0 <= i < pages@.len() ==> (#[trigger] texts@[i])@ == joined_text(pages@[i]@),
{
    let mut texts: Vec<String> = Vec::new();
    let mut i: usize = 0;
    while i < pages.len()
        invariant
            i <= pages.len(),
            texts@.len() == i,
            forall|k: int| 0 <= k < i ==> (#[trigger] texts@[k])@ == joined_text(pages@[k]@),
        decreases pages.len() - i,
    {
        let joined = page_text(&pages[i]);
        texts.push(joined);
        i += 1;
    }
    texts
}

} // verus!
