//! Line assembly: one pass over the objects in reading order, which joins text fragments into
//! lines and puts each stored image between the lines as an item of its own.

use crate::object::{eligible_indices, ContentObject};
use crate::text::{decimal, is_blank, push_decimal, trim, trimmed};
use vstd::prelude::*;
use vstd::seq_lib::group_to_multiset_ensures;
use vstd::string::StringExecFns;

verus! {

/// What became of an image when its pixels were asked for and stored.
#[derive(Clone, Copy, Debug, PartialEq, Eq)]
pub enum ImageOutcome {
    /// The pixels could not be had. No file name was used up.
    DecodeFailed,
    /// The pixels were had, but the file could not be written. Its name is used up.
    SaveFailed,
    /// The image is stored. `file_size_bytes` is the size of the file, where it could be read.
    Saved { file_size_bytes: Option<u32> },
}

/// One item of a page in reading order.
#[derive(Debug, PartialEq, Eq)]
pub enum PageItem {
    /// A line of text.
    TextLine(String),
    /// A stored image: the name of its file, and the file's size (0 where it is not known).
    ImageRef { filename: String, file_size_bytes: u32 },
}

/// A `PageItem` with its texts as sequences of characters.
pub ghost enum PageItemView {
    TextLine(Seq<char>),
    ImageRef { filename: Seq<char>, file_size_bytes: u32 },
}

impl View for PageItem {
    type V = PageItemView;

    open spec fn view(&self) -> PageItemView {
        match self {
            PageItem::TextLine(text) => PageItemView::TextLine(text@),
            PageItem::ImageRef { filename, file_size_bytes } => PageItemView::ImageRef {
                filename: filename@,
                file_size_bytes: *file_size_bytes,
            },
        }
    }
}

impl Clone for PageItem {
    fn clone(&self) -> (copy: Self)
        ensures
            copy@ == self@,
    {
        match self {
            PageItem::TextLine(text) => PageItem::TextLine(text.clone()),
            PageItem::ImageRef { filename, file_size_bytes } => PageItem::ImageRef {
                filename: filename.clone(),
                file_size_bytes: *file_size_bytes,
            },
        }
    }
}

impl DeepView for PageItem {
    type V = PageItemView;

    open spec fn deep_view(&self) -> PageItemView {
        self@
    }
}

/// The name of the file of the image with the number `n`.
pub open spec fn image_filename(n: nat) -> Seq<char> {
    "image-"@ + decimal(n) + ".png"@
}

/// `items`, and behind them the buffer as a line of text where it holds any.
pub open spec fn flushed(items: Seq<PageItemView>, buffer: Seq<char>) -> Seq<PageItemView> {
    if buffer.len() > 0 {
        items.push(PageItemView::TextLine(buffer))
    } else {
        items
    }
}

/// Whether text at `top` goes on with the line of the object before it, at `last_top`: it
/// does unless it lies `tolerance` or more below.
pub open spec fn continues_line(last_top: int, top: int, tolerance: int) -> bool {
    last_top - top < tolerance
}

/// The state of line assembly.
pub ghost struct LineState {
    /// The items that are complete.
    pub items: Seq<PageItemView>,
    /// The line that is being put together.
    pub buffer: Seq<char>,
    /// The `top` of the object visited last, and `None` before the first.
    pub last_top: Option<i64>,
    /// The number of the next image's file.
    pub next_image_number: nat,
}

impl LineState {
    /// The state before the first object.
    pub open spec fn start(next_image_number: nat) -> LineState {
        LineState { items: Seq::empty(), buffer: Seq::empty(), last_top: None, next_image_number }
    }

    /// The state after a text object. Its trimmed text starts the buffer where it is the first
    /// object, goes behind the buffer and one space where it goes on with the line, and else
    /// starts a new buffer behind the flushed one.
    pub open spec fn text(self, text: Seq<char>, top: i64, tolerance: int) -> LineState {
        match self.last_top {
            None => LineState { buffer: self.buffer + trimmed(text), last_top: Some(top), ..self },
            Some(last) => if continues_line(last as int, top as int, tolerance) {
                LineState {
                    buffer: self.buffer + seq![' '] + trimmed(text),
                    last_top: Some(top),
                    ..self
                }
            } else {
                LineState {
                    items: flushed(self.items, self.buffer),
                    buffer: trimmed(text),
                    last_top: Some(top),
                    ..self
                }
            },
        }
    }

    /// The state after an image. A stored image flushes the buffer and follows as an item; one
    /// that failed leaves items and buffer as they are.
    pub open spec fn image(self, top: i64, outcome: ImageOutcome) -> LineState {
        match outcome {
            ImageOutcome::DecodeFailed => LineState { last_top: Some(top), ..self },
            ImageOutcome::SaveFailed => LineState {
                last_top: Some(top),
                next_image_number: self.next_image_number + 1,
                ..self
            },
            ImageOutcome::Saved { file_size_bytes } => LineState {
                items: flushed(self.items, self.buffer).push(
                    PageItemView::ImageRef {
                        filename: image_filename(self.next_image_number),
                        file_size_bytes: match file_size_bytes {
                            Some(size) => size,
                            None => 0,
                        },
                    },
                ),
                buffer: Seq::empty(),
                last_top: Some(top),
                next_image_number: self.next_image_number + 1,
            },
        }
    }

    /// The state after an object that gives nothing: only its `top` is kept.
    pub open spec fn passed(self, top: i64) -> LineState {
        LineState { last_top: Some(top), ..self }
    }

    /// The state after `object`.
    pub open spec fn object(self, object: ContentObject<ImageOutcome>, tolerance: int) -> LineState {
        match object {
            ContentObject::Text { text: Some(text), .. } => self.text(
                text@,
                object.spec_top(),
                tolerance,
            ),
            ContentObject::Image { image, .. } => self.image(object.spec_top(), image),
            _ => self.passed(object.spec_top()),
        }
    }

    /// The items of the page once the last object is done: the buffer is flushed.
    pub open spec fn finished(self) -> Seq<PageItemView> {
        flushed(self.items, self.buffer)
    }
}

/// The state after the objects of `order`, one after the other, from the state `start`.
pub open spec fn assembled(
    objects: Seq<ContentObject<ImageOutcome>>,
    order: Seq<usize>,
    tolerance: int,
    start: LineState,
) -> LineState
    decreases order.len(),
{
    if order.len() == 0 {
        start
    } else {
        assembled(objects, order.drop_last(), tolerance, start).object(
            objects[order.last() as int],
            tolerance,
        )
    }
}

/// Whether `object` uses up an image number: it does where it is an image whose pixels
/// were had, stored or not.
pub open spec fn uses_number(object: ContentObject<ImageOutcome>) -> bool {
    match object {
        ContentObject::Image { image, .. } => !(image is DecodeFailed),
        _ => false,
    }
}

/// How many of the objects at the entries of `order` use up an image number.
pub open spec fn numbers_used(objects: Seq<ContentObject<ImageOutcome>>, order: Seq<usize>) -> nat
    decreases order.len(),
{
    if order.len() == 0 {
        0
    } else {
        numbers_used(objects, order.drop_last()) + if uses_number(objects[order.last() as int]) {
            1nat
        } else {
            0nat
        }
    }
}

/// How many of the first `n` of `objects` use up an image number.
pub open spec fn images_decoded(objects: Seq<ContentObject<ImageOutcome>>, n: int) -> nat
    decreases n,
{
    if n <= 0 {
        0
    } else {
        images_decoded(objects, n - 1) + if uses_number(objects[n - 1]) {
            1nat
        } else {
            0nat
        }
    }
}

/// Image numbers are consecutive: the number after the objects of `order` is the number
/// before them and one more for each image among them whose pixels were had.
pub proof fn lemma_assembled_numbers(
    objects: Seq<ContentObject<ImageOutcome>>,
    order: Seq<usize>,
    tolerance: int,
    start: LineState,
)
    ensures
        assembled(objects, order, tolerance, start).next_image_number == start.next_image_number
            + numbers_used(objects, order),
        numbers_used(objects, order) <= order.len(),
    decreases order.len(),
{
    if order.len() > 0 {
        lemma_assembled_numbers(objects, order.drop_last(), tolerance, start);
    }
}

/// The first `n` entries of `order` use no more numbers than all of them.
pub proof fn lemma_numbers_used_grow(
    objects: Seq<ContentObject<ImageOutcome>>,
    order: Seq<usize>,
    n: int,
)
    requires
        0 <= n <= order.len(),
    ensures
        numbers_used(objects, order.take(n)) <= numbers_used(objects, order),
    decreases order.len() - n,
{
    if n < order.len() {
        lemma_numbers_used_grow(objects, order, n + 1);
        assert(order.take(n + 1).drop_last() =~= order.take(n));
    } else {
        assert(order.take(n) =~= order);
    }
}

/// Taking one entry out of `order` takes out what that entry's object uses.
proof fn lemma_numbers_used_remove(
    objects: Seq<ContentObject<ImageOutcome>>,
    order: Seq<usize>,
    k: int,
)
    requires
        0 <= k < order.len(),
    ensures
        numbers_used(objects, order) == numbers_used(objects, order.remove(k)) + if uses_number(
            objects[order[k] as int],
        ) {
            1nat
        } else {
            0nat
        },
    decreases order.len(),
{
    if k == order.len() - 1 {
        assert(order.remove(k) =~= order.drop_last());
    } else {
        lemma_numbers_used_remove(objects, order.drop_last(), k);
        assert(order.remove(k).drop_last() =~= order.drop_last().remove(k));
        assert(order.remove(k).last() == order.last());
    }
}

/// The numbers used do not depend on the order in which the objects are read.
pub proof fn lemma_numbers_used_in_any_order(
    objects: Seq<ContentObject<ImageOutcome>>,
    a: Seq<usize>,
    b: Seq<usize>,
)
    requires
        a.to_multiset() == b.to_multiset(),
    ensures
        numbers_used(objects, a) == numbers_used(objects, b),
    decreases a.len(),
{
    broadcast use group_to_multiset_ensures;

    assert(a.len() == a.to_multiset().len());
    assert(b.len() == b.to_multiset().len());
    if a.len() > 0 {
        let x = a.last();
        assert(a =~= a.drop_last().push(x));
        assert(a.to_multiset().count(x) > 0);
        assert(b.contains(x));
        let k = choose|k: int| 0 <= k < b.len() && b[k] == x;
        assert(a.drop_last().to_multiset() =~= a.to_multiset().remove(x));
        assert(b.remove(k).to_multiset() =~= b.to_multiset().remove(x));
        lemma_numbers_used_in_any_order(objects, a.drop_last(), b.remove(k));
        lemma_numbers_used_remove(objects, b, k);
    }
}

/// Every image is eligible, so the eligible objects use what all objects use.
pub proof fn lemma_numbers_used_by_eligible(objects: Seq<ContentObject<ImageOutcome>>, n: int)
    requires
        0 <= n <= objects.len() <= usize::MAX,
    ensures
        numbers_used(objects, eligible_indices(objects, n)) == images_decoded(objects, n),
    decreases n,
{
    if n > 0 {
        lemma_numbers_used_by_eligible(objects, n - 1);
        if objects[n - 1].spec_is_eligible() {
            let now = eligible_indices(objects, n);
            assert(now.drop_last() =~= eligible_indices(objects, n - 1));
            assert(now.last() == (n - 1) as usize);
        }
    }
}

/// Two text objects, one read after the other, give one line where the second goes on with
/// the line of the first: their trimmed texts with exactly one space between them. Where the
/// second lies `tolerance` or more below the first, they give two lines.
pub proof fn lemma_two_texts(
    objects: Seq<ContentObject<ImageOutcome>>,
    x: usize,
    y: usize,
    tolerance: int,
    first_image_number: nat,
)
    requires
        objects[x as int] matches ContentObject::Text { text: Some(a), .. } && !is_blank(a@),
        objects[y as int] matches ContentObject::Text { text: Some(b), .. } && !is_blank(b@),
    ensures
        ({
            let a = trimmed(objects[x as int]->Text_text->0@);
            let b = trimmed(objects[y as int]->Text_text->0@);
            let gap = objects[x as int].spec_top() - objects[y as int].spec_top();
            let items = assembled(
                objects,
                seq![x, y],
                tolerance,
                LineState::start(first_image_number),
            ).finished();
            &&& gap < tolerance ==> items == seq![PageItemView::TextLine(a + seq![' '] + b)]
            &&& gap >= tolerance ==> items == seq![
                PageItemView::TextLine(a),
                PageItemView::TextLine(b),
            ]
        }),
{
    let start = LineState::start(first_image_number);
    let both = seq![x, y];
    let one = both.drop_last();
    assert(one =~= seq![x]);
    assert(one.drop_last() =~= Seq::<usize>::empty());
    assert(assembled(objects, one.drop_last(), tolerance, start) == start);
    let a = trimmed(objects[x as int]->Text_text->0@);
    let b = trimmed(objects[y as int]->Text_text->0@);
    let after_first = assembled(objects, one, tolerance, start);
    assert(after_first.buffer =~= a);
    let after_both = assembled(objects, both, tolerance, start);
    let gap = objects[x as int].spec_top() - objects[y as int].spec_top();
    if gap < tolerance {
        assert(after_both.finished() =~= seq![PageItemView::TextLine(a + seq![' '] + b)]);
    } else {
        assert(after_both.finished() =~= seq![PageItemView::TextLine(a), PageItemView::TextLine(b)]);
    }
}

/// A stored image that is read between two text objects keeps their texts apart: the text
/// ahead of it is flushed as a line of its own before the image's item, and the text behind it
/// starts a new line. (That line starts with a space where the text behind the image goes on
/// with the image's line.)
pub proof fn lemma_image_between_texts(
    objects: Seq<ContentObject<ImageOutcome>>,
    x: usize,
    image: usize,
    y: usize,
    tolerance: int,
    first_image_number: nat,
)
    requires
        objects[x as int] matches ContentObject::Text { text: Some(a), .. } && !is_blank(a@),
        objects[image as int] matches ContentObject::Image { image: outcome, .. }
            && outcome is Saved,
        objects[y as int] matches ContentObject::Text { text: Some(b), .. } && !is_blank(b@),
    ensures
        ({
            let a = trimmed(objects[x as int]->Text_text->0@);
            let b = trimmed(objects[y as int]->Text_text->0@);
            let size = objects[image as int]->Image_image->Saved_file_size_bytes;
            let items = assembled(
                objects,
                seq![x, image, y],
                tolerance,
                LineState::start(first_image_number),
            ).finished();
            items == seq![
                PageItemView::TextLine(a),
                PageItemView::ImageRef {
                    filename: image_filename(first_image_number),
                    file_size_bytes: match size {
                        Some(n) => n,
                        None => 0,
                    },
                },
                PageItemView::TextLine(
                    if continues_line(
                        objects[image as int].spec_top() as int,
                        objects[y as int].spec_top() as int,
                        tolerance,
                    ) {
                        seq![' '] + b
                    } else {
                        b
                    },
                ),
            ]
        }),
{
    let start = LineState::start(first_image_number);
    let all = seq![x, image, y];
    let two = all.drop_last();
    let one = two.drop_last();
    assert(two =~= seq![x, image]);
    assert(one =~= seq![x]);
    assert(one.drop_last() =~= Seq::<usize>::empty());
    assert(assembled(objects, one.drop_last(), tolerance, start) == start);
    let a = trimmed(objects[x as int]->Text_text->0@);
    let b = trimmed(objects[y as int]->Text_text->0@);
    let after_one = assembled(objects, one, tolerance, start);
    assert(after_one.buffer =~= a);
    let after_two = assembled(objects, two, tolerance, start);
    assert(after_two.items.len() == 2);
    assert(after_two.buffer =~= Seq::<char>::empty());
    let after_all = assembled(objects, all, tolerance, start);
    if continues_line(
        objects[image as int].spec_top() as int,
        objects[y as int].spec_top() as int,
        tolerance,
    ) {
        assert(after_all.buffer =~= seq![' '] + b);
    } else {
        assert(after_all.buffer =~= b);
    }
    assert(after_all.finished().len() == 3);
    assert(after_all.finished() =~= seq![
        after_two.items[0],
        after_two.items[1],
        PageItemView::TextLine(after_all.buffer),
    ]);
}

/// The name of the file of the image with the number `n`: `image-<n>.png`.
pub fn image_file_name(n: u64) -> (name: String)
    ensures
        name@ == image_filename(n as nat),
{
    let mut name = String::from_str("image-");
    push_decimal(&mut name, n);
    name.append(".png");
    name
}

/// Line assembly as a state machine: the caller visits the objects in reading order and tells
/// the assembler of each, and of what became of each image.
pub struct LineAssembler {
    items: Vec<PageItem>,
    buffer: String,
    last_top: Option<i64>,
    next_image_number: u64,
}

impl View for LineAssembler {
    type V = LineState;

    closed spec fn view(&self) -> LineState {
        LineState {
            items: self.items.deep_view(),
            buffer: self.buffer@,
            last_top: self.last_top,
            next_image_number: self.next_image_number as nat,
        }
    }
}

impl LineAssembler {
    /// An assembler before the first object of a page. The first image stored gets the number
    /// `next_image_number`.
    pub fn new(next_image_number: u64) -> (assembler: Self)
        ensures
            assembler@ == LineState::start(next_image_number as nat),
    {
        let assembler = LineAssembler {
            items: Vec::new(),
            buffer: String::new(),
            last_top: None,
            next_image_number,
        };
        assert(assembler.items.deep_view() =~= Seq::empty());
        assembler
    }

    /// The number that the next image's file gets.
    pub fn next_image_number(&self) -> (n: u64)
        ensures
            n == self@.next_image_number,
    {
        self.next_image_number
    }

    /// The name under which the next image is to be stored.
    pub fn next_image_filename(&self) -> (name: String)
        ensures
            name@ == image_filename(self@.next_image_number),
    {
        image_file_name(self.next_image_number)
    }

    /// Moves the buffer, where it holds any text, to the items as a line.
    fn flush(&mut self)
        ensures
            final(self)@.items == flushed(old(self)@.items, old(self)@.buffer),
            final(self)@.buffer == Seq::<char>::empty(),
            final(self)@.last_top == old(self)@.last_top,
            final(self)@.next_image_number == old(self)@.next_image_number,
    {
        if !self.buffer.as_str().is_empty() {
            let line = self.buffer.clone();
            let ghost before = self.items.deep_view();
            self.items.push(PageItem::TextLine(line));
            self.buffer = String::new();
            assert(self.items.deep_view() =~= before.push(PageItemView::TextLine(line@)));
        }
    }

    /// Takes in a text object at `top` (0 where it has no bounding box).
    pub fn push_text(&mut self, text: &str, top: i64, tolerance: u64)
        ensures
            final(self)@ == old(self)@.text(text@, top, tolerance as int),
    {
        let shown = trim(text);
        match self.last_top {
            None => {
                self.buffer.append(shown.as_str());
            },
            Some(last) => {
                if (last as i128) - (top as i128) < (tolerance as i128) {
                    proof {
                        reveal_strlit(" ");
                        assert(" "@ =~= seq![' ']);
                    }
                    self.buffer.append(" ");
                    self.buffer.append(shown.as_str());
                } else {
                    self.flush();
                    self.buffer = shown;
                }
            },
        }
        self.last_top = Some(top);
    }

    /// Takes in an image at `top` (0 where it has no bounding box), whose pixels were asked for
    /// and, where they were had, stored under `next_image_filename()`.
    pub fn push_image(&mut self, top: i64, outcome: ImageOutcome)
        requires
            !(outcome is DecodeFailed) ==> old(self)@.next_image_number < u64::MAX,
        ensures
            final(self)@ == old(self)@.image(top, outcome),
    {
        match outcome {
            ImageOutcome::DecodeFailed => {},
            ImageOutcome::SaveFailed => {
                self.next_image_number = self.next_image_number + 1;
            },
            ImageOutcome::Saved { file_size_bytes } => {
                let filename = image_file_name(self.next_image_number);
                self.next_image_number = self.next_image_number + 1;
                self.flush();
                let size = match file_size_bytes {
                    Some(size) => size,
                    None => 0,
                };
                let ghost before = self.items.deep_view();
                let item = PageItem::ImageRef { filename, file_size_bytes: size };
                self.items.push(item);
                assert(self.items.deep_view() =~= before.push(item@));
            },
        }
        self.last_top = Some(top);
    }

    /// Passes an object at `top` that gives no item and no text.
    pub fn pass(&mut self, top: i64)
        ensures
            final(self)@ == old(self)@.passed(top),
    {
        self.last_top = Some(top);
    }

    /// Takes in `object`, whatever its kind.
    pub fn push_object(&mut self, object: &ContentObject<ImageOutcome>, tolerance: u64)
        requires
            uses_number(*object) ==> old(self)@.next_image_number < u64::MAX,
        ensures
            final(self)@ == old(self)@.object(*object, tolerance as int),
    {
        let top = object.top();
        match object {
            ContentObject::Text { text: Some(text), .. } => {
                self.push_text(text.as_str(), top, tolerance);
            },
            ContentObject::Image { image, .. } => {
                self.push_image(top, *image);
            },
            _ => {
                self.pass(top);
            },
        }
    }

    /// Ends the page: flushes the buffer and hands out the items.
    pub fn finish(self) -> (items: Vec<PageItem>)
        ensures
            items.deep_view() == self@.finished(),
    {
        let mut assembler = self;
        assembler.flush();
        assembler.items
    }
}

/// The items of a page: its objects visited in the order `order`, with text fragments joined
/// into lines and each stored image as an item between them. Returns the items and the number
/// that the next image's file gets.
pub fn assemble_lines(
    objects: &Vec<ContentObject<ImageOutcome>>,
    order: &Vec<usize>,
    tolerance: u64,
    first_image_number: u64,
) -> (result: (Vec<PageItem>, u64))
    requires
        forall|k: int| 0 <= k < order@.len() ==> (#[trigger] order[k]) < objects.len(),
        first_image_number + numbers_used(objects@, order@) <= u64::MAX,
    ensures
        result.0.deep_view() == assembled(
            objects@,
            order@,
            tolerance as int,
            LineState::start(first_image_number as nat),
        ).finished(),
        result.1 == assembled(
            objects@,
            order@,
            tolerance as int,
            LineState::start(first_image_number as nat),
        ).next_image_number,
        result.1 == first_image_number + numbers_used(objects@, order@),
{
    proof {
        lemma_assembled_numbers(
            objects@,
            order@,
            tolerance as int,
            LineState::start(first_image_number as nat),
        );
    }
    let mut assembler = LineAssembler::new(first_image_number);
    let mut i: usize = 0;
    assert(order@.take(0) =~= Seq::empty());
    while i < order.len()
        invariant
            i <= order.len(),
            forall|k: int| 0 <= k < order@.len() ==> (#[trigger] order[k]) < objects.len(),
            first_image_number + numbers_used(objects@, order@) <= u64::MAX,
            assembler@ == assembled(
                objects@,
                order@.take(i as int),
                tolerance as int,
                LineState::start(first_image_number as nat),
            ),
        decreases order.len() - i,
    {
        proof {
            let now = order@.take(i + 1);
            assert(now.drop_last() =~= order@.take(i as int));
            assert(now.last() == order[i as int]);
            lemma_assembled_numbers(
                objects@,
                order@.take(i as int),
                tolerance as int,
                LineState::start(first_image_number as nat),
            );
            lemma_numbers_used_grow(objects@, order@, i + 1);
        }
        assembler.push_object(&objects[order[i]], tolerance);
        i += 1;
    }
    assert(order@.take(order@.len() as int) =~= order@);
    let next = assembler.next_image_number();
    let items = assembler.finish();
    (items, next)
}

} // verus!
