//! The page as it is handed out: its lines of text, and its images with the text that belongs
//! to each.

use crate::lines::{PageItem, PageItemView};
use vstd::prelude::*;

verus! {

/// What is known of one stored image.
#[derive(Debug)]
pub struct ExtractedImageMeta {
    /// The name of the image's file.
    pub filename: String,
    /// The size of the file in bytes, and 0 where it is not known.
    pub file_size_bytes: u32,
    /// The text lines next to the image: at most two, in the order of the page.
    pub related_text: Vec<String>,
}

/// What a page gives.
#[derive(Debug)]
pub struct ExtractedPage {
    /// The page's images, in reading order.
    pub page_images: Vec<ExtractedImageMeta>,
    /// The page's lines of text, in reading order.
    pub page_text_lines: Vec<String>,
}

/// An `ExtractedImageMeta` with its texts as sequences of characters.
pub ghost struct ExtractedImageMetaView {
    pub filename: Seq<char>,
    pub file_size_bytes: u32,
    pub related_text: Seq<Seq<char>>,
}

/// An `ExtractedPage` with its texts as sequences of characters.
pub ghost struct ExtractedPageView {
    pub page_images: Seq<ExtractedImageMetaView>,
    pub page_text_lines: Seq<Seq<char>>,
}

impl View for ExtractedImageMeta {
    type V = ExtractedImageMetaView;

    open spec fn view(&self) -> ExtractedImageMetaView {
        ExtractedImageMetaView {
            filename: self.filename@,
            file_size_bytes: self.file_size_bytes,
            related_text: self.related_text.deep_view(),
        }
    }
}

impl DeepView for ExtractedImageMeta {
    type V = ExtractedImageMetaView;

    open spec fn deep_view(&self) -> ExtractedImageMetaView {
        self@
    }
}

impl View for ExtractedPage {
    type V = ExtractedPageView;

    open spec fn view(&self) -> ExtractedPageView {
        ExtractedPageView {
            page_images: self.page_images.deep_view(),
            page_text_lines: self.page_text_lines.deep_view(),
        }
    }
}

impl DeepView for ExtractedPage {
    type V = ExtractedPageView;

    open spec fn deep_view(&self) -> ExtractedPageView {
        self@
    }
}

/// The text lines among `items`, in their order.
pub open spec fn text_lines(items: Seq<PageItemView>) -> Seq<Seq<char>>
    decreases items.len(),
{
    if items.len() == 0 {
        Seq::empty()
    } else {
        match items.last() {
            PageItemView::TextLine(text) => text_lines(items.drop_last()).push(text),
            PageItemView::ImageRef { .. } => text_lines(items.drop_last()),
        }
    }
}

/// Whether `item` is a text line of fewer than 2 characters: a stray mark rather than text.
pub open spec fn is_short_line(item: PageItemView) -> bool {
    match item {
        PageItemView::TextLine(text) => text.len() < 2,
        PageItemView::ImageRef { .. } => false,
    }
}

/// `items` without the short text lines. Images all stay, and the order stays.
pub open spec fn without_short_lines(items: Seq<PageItemView>) -> Seq<PageItemView>
    decreases items.len(),
{
    if items.len() == 0 {
        Seq::empty()
    } else if is_short_line(items.last()) {
        without_short_lines(items.drop_last())
    } else {
        without_short_lines(items.drop_last()).push(items.last())
    }
}

/// The first two of `lines`, or all where there are fewer.
pub open spec fn first_two(lines: Seq<Seq<char>>) -> Seq<Seq<char>> {
    if lines.len() <= 2 {
        lines
    } else {
        lines.take(2)
    }
}

/// The last two of `lines`, or all where there are fewer.
pub open spec fn last_two(lines: Seq<Seq<char>>) -> Seq<Seq<char>> {
    if lines.len() <= 2 {
        lines
    } else {
        lines.skip(lines.len() - 2)
    }
}

/// The text that belongs to the image at `idx` of `filtered`: where the image is the first
/// item, the next two text lines behind it; else the two nearest text lines ahead of it. In
/// both cases in the order of the page, and fewer where there are no two.
pub open spec fn related_text_of(filtered: Seq<PageItemView>, idx: int) -> Seq<Seq<char>> {
    if idx == 0 {
        first_two(text_lines(filtered.skip(1)))
    } else {
        last_two(text_lines(filtered.take(idx)))
    }
}

/// One entry for each image among the first `n` of `filtered`, in their order.
pub open spec fn image_metas(filtered: Seq<PageItemView>, n: int) -> Seq<ExtractedImageMetaView>
    decreases n,
{
    if n <= 0 {
        Seq::empty()
    } else {
        match filtered[n - 1] {
            PageItemView::ImageRef { filename, file_size_bytes } => image_metas(filtered, n - 1).push(
                ExtractedImageMetaView {
                    filename,
                    file_size_bytes,
                    related_text: related_text_of(filtered, n - 1),
                },
            ),
            PageItemView::TextLine(_) => image_metas(filtered, n - 1),
        }
    }
}

/// The page that `items` give: every text line of `items`, short ones too; and for each image
/// its text, looked for among the items without the short lines.
pub open spec fn projected(items: Seq<PageItemView>) -> ExtractedPageView {
    ExtractedPageView {
        page_images: image_metas(
            without_short_lines(items),
            without_short_lines(items).len() as int,
        ),
        page_text_lines: text_lines(items),
    }
}

/// The text lines of two runs of items, one behind the other, are the lines of the first and
/// behind them the lines of the second.
pub proof fn lemma_text_lines_concat(a: Seq<PageItemView>, b: Seq<PageItemView>)
    ensures
        text_lines(a + b) == text_lines(a) + text_lines(b),
    decreases b.len(),
{
    if b.len() == 0 {
        assert(a + b =~= a);
        assert(text_lines(a) + text_lines(b) =~= text_lines(a));
    } else {
        lemma_text_lines_concat(a, b.drop_last());
        assert((a + b).drop_last() =~= a + b.drop_last());
        assert((a + b).last() == b.last());
        match b.last() {
            PageItemView::TextLine(text) => {
                assert(text_lines(a + b) =~= text_lines(a) + text_lines(b));
            },
            PageItemView::ImageRef { .. } => {},
        }
    }
}

/// The text lines of a single item: its text where it is a line, and none where it is an
/// image.
pub proof fn lemma_text_lines_one(item: PageItemView)
    ensures
        text_lines(seq![item]) == match item {
            PageItemView::TextLine(text) => seq![text],
            PageItemView::ImageRef { .. } => Seq::<Seq<char>>::empty(),
        },
{
    let one = seq![item];
    assert(one.drop_last() =~= Seq::<PageItemView>::empty());
    assert(text_lines(one.drop_last()) =~= Seq::<Seq<char>>::empty());
    assert(one.last() == item);
    match item {
        PageItemView::TextLine(text) => {
            assert(text_lines(one) =~= seq![text]);
        },
        PageItemView::ImageRef { .. } => {},
    }
}

/// Every text line among the items is reported, a short one too, at its place: behind the
/// lines of the items ahead of it and ahead of the lines of the items behind it.
pub proof fn lemma_text_lines_keep_every_line(items: Seq<PageItemView>, i: int)
    requires
        0 <= i < items.len(),
        items[i] is TextLine,
    ensures
        text_lines(items) == text_lines(items.take(i)).push(items[i]->TextLine_0) + text_lines(
            items.skip(i + 1),
        ),
{
    let one = seq![items[i]];
    assert(items =~= items.take(i) + one + items.skip(i + 1));
    lemma_text_lines_concat(items.take(i) + one, items.skip(i + 1));
    lemma_text_lines_concat(items.take(i), one);
    lemma_text_lines_one(items[i]);
    assert(text_lines(items.take(i)) + text_lines(one) =~= text_lines(items.take(i)).push(
        items[i]->TextLine_0,
    ));
}

/// No text line among the filtered items is short.
pub proof fn lemma_filtered_lines_are_long(items: Seq<PageItemView>)
    ensures
        forall|k: int|
            0 <= k < text_lines(without_short_lines(items)).len() ==> (#[trigger] text_lines(
                without_short_lines(items),
            )[k]).len() >= 2,
        forall|k: int|
            0 <= k < without_short_lines(items).len() ==> !is_short_line(
                #[trigger] without_short_lines(items)[k],
            ),
    decreases items.len(),
{
    if items.len() > 0 {
        lemma_filtered_lines_are_long(items.drop_last());
        let rest = without_short_lines(items.drop_last());
        let kept = without_short_lines(items);
        if !is_short_line(items.last()) {
            assert(kept.drop_last() =~= rest);
            assert(kept.last() == items.last());
            assert forall|k: int| 0 <= k < kept.len() implies !is_short_line(#[trigger] kept[k]) by {
                if k < rest.len() {
                    assert(kept[k] == rest[k]);
                }
            }
            assert forall|k: int| 0 <= k < text_lines(kept).len() implies (#[trigger] text_lines(
                kept,
            )[k]).len() >= 2 by {
                if k < text_lines(rest).len() {
                    assert(text_lines(kept)[k] == text_lines(rest)[k]);
                }
            }
        }
    }
}

/// A short text line takes no part in the text of any image: each line that belongs to an
/// image has 2 characters or more.
pub proof fn lemma_related_text_is_long(items: Seq<PageItemView>, idx: int, k: int)
    requires
        0 <= idx < without_short_lines(items).len(),
        0 <= k < related_text_of(without_short_lines(items), idx).len(),
    ensures
        related_text_of(without_short_lines(items), idx)[k].len() >= 2,
{
    let filtered = without_short_lines(items);
    lemma_filtered_lines_are_long(items);
    let all = text_lines(filtered);
    if idx == 0 {
        let behind = text_lines(filtered.skip(1));
        assert(filtered =~= filtered.take(1) + filtered.skip(1));
        lemma_text_lines_concat(filtered.take(1), filtered.skip(1));
        let ahead = text_lines(filtered.take(1));
        assert(first_two(behind)[k] == behind[k]);
        assert(all[ahead.len() + k] == behind[k]);
    } else {
        let ahead = text_lines(filtered.take(idx));
        assert(filtered =~= filtered.take(idx) + filtered.skip(idx));
        lemma_text_lines_concat(filtered.take(idx), filtered.skip(idx));
        let at = if ahead.len() <= 2 {
            k
        } else {
            ahead.len() - 2 + k
        };
        assert(last_two(ahead)[k] == ahead[at]);
        assert(all[at] == ahead[at]);
    }
}

/// The lines of text among `items`, in their order. Short lines are among them.
pub fn page_text_lines(items: &Vec<PageItem>) -> (lines: Vec<String>)
    ensures
        lines.deep_view() == text_lines(items.deep_view()),
{
    let mut lines: Vec<String> = Vec::new();
    let mut i: usize = 0;
    assert(items.deep_view().take(0) =~= Seq::empty());
    assert(lines.deep_view() =~= Seq::empty());
    while i < items.len()
        invariant
            i <= items.len(),
            lines.deep_view() == text_lines(items.deep_view().take(i as int)),
        decreases items.len() - i,
    {
        proof {
            let now = items.deep_view().take(i + 1);
            assert(now.drop_last() =~= items.deep_view().take(i as int));
            assert(now.last() == items[i as int]@);
        }
        match &items[i] {
            PageItem::TextLine(text) => {
                let ghost before = lines.deep_view();
                let line = text.clone();
                lines.push(line);
                assert(lines.deep_view() =~= before.push(text@));
            },
            PageItem::ImageRef { .. } => {},
        }
        i += 1;
    }
    assert(items.deep_view().take(items.len() as int) =~= items.deep_view());
    lines
}

/// `items` without the text lines of fewer than 2 characters.
pub fn drop_short_lines(items: &Vec<PageItem>) -> (filtered: Vec<PageItem>)
    ensures
        filtered.deep_view() == without_short_lines(items.deep_view()),
{
    let mut filtered: Vec<PageItem> = Vec::new();
    let mut i: usize = 0;
    assert(items.deep_view().take(0) =~= Seq::empty());
    assert(filtered.deep_view() =~= Seq::empty());
    while i < items.len()
        invariant
            i <= items.len(),
            filtered.deep_view() == without_short_lines(items.deep_view().take(i as int)),
        decreases items.len() - i,
    {
        proof {
            let now = items.deep_view().take(i + 1);
            assert(now.drop_last() =~= items.deep_view().take(i as int));
            assert(now.last() == items[i as int]@);
        }
        let keep = match &items[i] {
            PageItem::TextLine(text) => text.as_str().unicode_len() >= 2,
            PageItem::ImageRef { .. } => true,
        };
        if keep {
            let ghost before = filtered.deep_view();
            let copy = items[i].clone();
            filtered.push(copy);
            assert(filtered.deep_view() =~= before.push(items[i as int]@));
        }
        i += 1;
    }
    assert(items.deep_view().take(items.len() as int) =~= items.deep_view());
    filtered
}

/// The text that belongs to the image at `idx` of `filtered`. Where the image is the first
/// item: the next two text lines behind it. Else: the two nearest text lines ahead of it.
/// In both cases in the order of the page, and fewer lines where there are no two.
pub fn related_text(filtered: &Vec<PageItem>, idx: usize) -> (related: Vec<String>)
    requires
        idx < filtered.len(),
    ensures
        related.deep_view() == related_text_of(filtered.deep_view(), idx as int),
{
    let ghost all = filtered.deep_view();
    let mut related: Vec<String> = Vec::new();
    assert(related.deep_view() =~= Seq::empty());
    if idx == 0 {
        let mut k: usize = 1;
        assert(all.subrange(1, 1) =~= Seq::empty());
        while k < filtered.len() && related.len() < 2
            invariant
                1 <= k <= filtered.len(),
                all == filtered.deep_view(),
                related.len() <= 2,
                related.deep_view() == text_lines(all.subrange(1, k as int)),
            decreases filtered.len() - k,
        {
            proof {
                let now = all.subrange(1, k + 1);
                assert(now.drop_last() =~= all.subrange(1, k as int));
                assert(now.last() == filtered[k as int]@);
            }
            match &filtered[k] {
                PageItem::TextLine(text) => {
                    let ghost before = related.deep_view();
                    let line = text.clone();
                    related.push(line);
                    assert(related.deep_view() =~= before.push(text@));
                },
                PageItem::ImageRef { .. } => {},
            }
            k += 1;
        }
        proof {
            assert(all.skip(1) =~= all.subrange(1, k as int) + all.skip(k as int));
            lemma_text_lines_concat(all.subrange(1, k as int), all.skip(k as int));
            let found = text_lines(all.subrange(1, k as int));
            let rest = text_lines(all.skip(k as int));
            if k == filtered.len() {
                assert(all.skip(k as int) =~= Seq::empty());
                assert(found + rest =~= found);
            } else {
                assert((found + rest).take(2) =~= found);
            }
        }
    } else {
        let mut k: usize = idx;
        assert(all.subrange(idx as int, idx as int) =~= Seq::empty());
        while k > 0 && related.len() < 2
            invariant
                k <= idx < filtered.len(),
                all == filtered.deep_view(),
                related.len() <= 2,
                related.deep_view() == text_lines(all.subrange(k as int, idx as int)),
            decreases k,
        {
            k -= 1;
            proof {
                let one = seq![all[k as int]];
                assert(all.subrange(k as int, idx as int) =~= one + all.subrange(k + 1, idx as int));
                lemma_text_lines_concat(one, all.subrange(k + 1, idx as int));
                lemma_text_lines_one(all[k as int]);
                assert(all[k as int] == filtered[k as int]@);
            }
            match &filtered[k] {
                PageItem::TextLine(text) => {
                    let ghost before = related.deep_view();
                    let line = text.clone();
                    related.insert(0, line);
                    assert(related.deep_view() =~= seq![text@] + before);
                },
                PageItem::ImageRef { .. } => {
                    assert(Seq::<Seq<char>>::empty() + related.deep_view() =~= related.deep_view());
                },
            }
        }
        proof {
            assert(all.take(idx as int) =~= all.take(k as int) + all.subrange(k as int, idx as int));
            lemma_text_lines_concat(all.take(k as int), all.subrange(k as int, idx as int));
            let ahead = text_lines(all.take(k as int));
            let found = text_lines(all.subrange(k as int, idx as int));
            if k == 0 {
                assert(all.take(0) =~= Seq::empty());
                assert(ahead + found =~= found);
            } else {
                assert((ahead + found).skip((ahead + found).len() - 2) =~= found);
            }
        }
    }
    related
}

/// The page that `items` give. `page_text_lines` holds every text line of `items`, in their
/// order. `page_images` holds one entry for each image, in their order, with the text that
/// belongs to it; that text is looked for among the items without the text lines of fewer
/// than 2 characters.
pub fn project_page(items: &Vec<PageItem>) -> (page: ExtractedPage)
    ensures
        page@ == projected(items.deep_view()),
{
    let page_text_lines = page_text_lines(items);
    let filtered = drop_short_lines(items);
    let mut page_images: Vec<ExtractedImageMeta> = Vec::new();
    let mut idx: usize = 0;
    assert(page_images.deep_view() =~= Seq::empty());
    while idx < filtered.len()
        invariant
            idx <= filtered.len(),
            page_images.deep_view() == image_metas(filtered.deep_view(), idx as int),
        decreases filtered.len() - idx,
    {
        match &filtered[idx] {
            PageItem::ImageRef { filename, file_size_bytes } => {
                let ghost before = page_images.deep_view();
                let meta = ExtractedImageMeta {
                    filename: filename.clone(),
                    file_size_bytes: *file_size_bytes,
                    related_text: related_text(&filtered, idx),
                };
                page_images.push(meta);
                assert(page_images.deep_view() =~= before.push(meta@));
            },
            PageItem::TextLine(_) => {},
        }
        idx += 1;
    }
    ExtractedPage { page_images, page_text_lines }
}

} // verus!
