use pdf_reading_order::lines::{
    assemble_lines, image_file_name, ImageOutcome, LineAssembler, PageItem,
};
use pdf_reading_order::object::{BoundingBox, ContentObject};

fn at(top: i64, left: i64) -> Option<BoundingBox> {
    Some(BoundingBox { top, left, bottom: top - 10, right: left + 10 })
}

fn text(s: &str, bounds: Option<BoundingBox>) -> ContentObject<ImageOutcome> {
    ContentObject::Text { text: Some(s.to_string()), bounds }
}

fn image(outcome: ImageOutcome, bounds: Option<BoundingBox>) -> ContentObject<ImageOutcome> {
    ContentObject::Image { image: outcome, bounds }
}

fn line(s: &str) -> PageItem {
    PageItem::TextLine(s.to_string())
}

fn stored(name: &str, size: u32) -> PageItem {
    PageItem::ImageRef { filename: name.to_string(), file_size_bytes: size }
}

const SAVED: ImageOutcome = ImageOutcome::Saved { file_size_bytes: Some(7) };

#[test]
fn image_file_names_count_from_the_number_given() {
    assert_eq!(image_file_name(1), "image-1.png");
    assert_eq!(image_file_name(10), "image-10.png");
    assert_eq!(image_file_name(0), "image-0.png");
    assert_eq!(image_file_name(u64::MAX), "image-18446744073709551615.png");
}

#[test]
fn texts_within_tolerance_join_with_one_space() {
    let objects = vec![text(" shows ", at(50, 0)), text("\ta graph\n", at(46, 30))];
    let (items, next) = assemble_lines(&objects, &vec![0, 1], 5, 1);
    assert_eq!(items, vec![line("shows a graph")]);
    assert_eq!(next, 1);
}

#[test]
fn texts_at_tolerance_or_more_apart_give_two_lines() {
    let objects = vec![text("one", at(50, 0)), text("two", at(45, 0))];
    let (items, _) = assemble_lines(&objects, &vec![0, 1], 5, 1);
    assert_eq!(items, vec![line("one"), line("two")]);
}

#[test]
fn text_above_the_one_before_goes_on_with_its_line() {
    let objects = vec![text("low", at(50, 0)), text("high", at(500, 0))];
    let (items, _) = assemble_lines(&objects, &vec![0, 1], 5, 1);
    assert_eq!(items, vec![line("low high")]);
}

#[test]
fn a_single_text_object_gives_its_line() {
    let objects = vec![text(" alone ", at(50, 0))];
    let (items, _) = assemble_lines(&objects, &vec![0], 5, 1);
    assert_eq!(items, vec![line("alone")]);
}

#[test]
fn first_text_at_top_minus_one_is_no_sentinel() {
    let objects = vec![text("a", at(-1, 0)), text("b", at(-100, 0))];
    let (items, _) = assemble_lines(&objects, &vec![0, 1], 5, 1);
    assert_eq!(items, vec![line("a"), line("b")]);
}

#[test]
fn stored_image_flushes_the_line_before_its_item() {
    let objects = vec![text("before", at(100, 0)), image(SAVED, at(99, 0)), text("after", at(50, 0))];
    let (items, next) = assemble_lines(&objects, &vec![0, 1, 2], 5, 1);
    assert_eq!(items, vec![line("before"), stored("image-1.png", 7), line("after")]);
    assert_eq!(next, 2);
}

#[test]
fn text_on_the_line_of_an_image_starts_a_line_with_a_space() {
    let objects = vec![text("before", at(100, 0)), image(SAVED, at(99, 0)), text("after", at(98, 0))];
    let (items, _) = assemble_lines(&objects, &vec![0, 1, 2], 5, 1);
    assert_eq!(items, vec![line("before"), stored("image-1.png", 7), line(" after")]);
}

#[test]
fn image_first_then_text() {
    let objects = vec![image(SAVED, at(100, 0)), text("caption", at(80, 0))];
    let (items, _) = assemble_lines(&objects, &vec![0, 1], 5, 4);
    assert_eq!(items, vec![stored("image-4.png", 7), line("caption")]);
}

#[test]
fn image_whose_decode_fails_gives_nothing_and_uses_no_number() {
    let objects = vec![
        text("one", at(100, 0)),
        image(ImageOutcome::DecodeFailed, at(99, 0)),
        text("two", at(98, 0)),
        image(SAVED, at(50, 0)),
    ];
    let (items, next) = assemble_lines(&objects, &vec![0, 1, 2, 3], 5, 1);
    assert_eq!(items, vec![line("one two"), stored("image-1.png", 7)]);
    assert_eq!(next, 2);
}

#[test]
fn image_whose_save_fails_gives_nothing_but_uses_its_number() {
    let objects = vec![
        text("one", at(100, 0)),
        image(ImageOutcome::SaveFailed, at(99, 0)),
        text("two", at(98, 0)),
        image(SAVED, at(50, 0)),
    ];
    let (items, next) = assemble_lines(&objects, &vec![0, 1, 2, 3], 5, 1);
    assert_eq!(items, vec![line("one two"), stored("image-2.png", 7)]);
    assert_eq!(next, 3);
}

#[test]
fn failed_image_still_moves_the_point_of_reference() {
    // "two" lies 8 below "one", but only 4 below the failed image between them
    let objects = vec![
        text("one", at(100, 0)),
        image(ImageOutcome::DecodeFailed, at(96, 0)),
        text("two", at(92, 0)),
    ];
    let (items, _) = assemble_lines(&objects, &vec![0, 1, 2], 5, 1);
    assert_eq!(items, vec![line("one two")]);
}

#[test]
fn unknown_file_size_is_zero() {
    let objects = vec![image(ImageOutcome::Saved { file_size_bytes: None }, at(1, 0))];
    let (items, _) = assemble_lines(&objects, &vec![0], 5, 1);
    assert_eq!(items, vec![stored("image-1.png", 0)]);
}

#[test]
fn object_without_box_counts_as_top_zero() {
    let objects = vec![text("a", at(3, 0)), text("b", None), text("c", at(-4, 0))];
    let (items, _) = assemble_lines(&objects, &vec![0, 1, 2], 5, 1);
    assert_eq!(items, vec![line("a b c")]);
    let far = vec![text("a", at(30, 0)), text("b", None)];
    let (items, _) = assemble_lines(&far, &vec![0, 1], 5, 1);
    assert_eq!(items, vec![line("a"), line("b")]);
}

#[test]
fn no_objects_give_no_items() {
    let objects: Vec<ContentObject<ImageOutcome>> = vec![];
    let (items, next) = assemble_lines(&objects, &vec![], 5, 9);
    assert_eq!(items, vec![]);
    assert_eq!(next, 9);
}

#[test]
fn assembler_can_be_driven_step_by_step() {
    let mut assembler = LineAssembler::new(3);
    assembler.push_text("Fig. 1", 100, 5);
    assert_eq!(assembler.next_image_filename(), "image-3.png");
    assembler.push_image(95, ImageOutcome::SaveFailed);
    assert_eq!(assembler.next_image_filename(), "image-4.png");
    assembler.push_image(95, ImageOutcome::DecodeFailed);
    assert_eq!(assembler.next_image_number(), 4);
    assembler.push_image(95, ImageOutcome::Saved { file_size_bytes: Some(2048) });
    assembler.pass(60);
    assembler.push_text("shows", 50, 5);
    assembler.push_text("a graph", 50, 5);
    assert_eq!(assembler.next_image_number(), 5);
    assert_eq!(
        assembler.finish(),
        vec![line("Fig. 1"), stored("image-4.png", 2048), line("shows a graph")]
    );
}

#[test]
fn objects_that_give_nothing_only_move_the_point_of_reference() {
    let mut assembler = LineAssembler::new(1);
    assembler.push_object(&text("a", at(100, 0)), 5);
    assembler.push_object(&ContentObject::Other, 5);
    assembler.push_object(&ContentObject::Text { text: None, bounds: at(3, 0) }, 5);
    assembler.push_object(&text("b", at(0, 0)), 5);
    assert_eq!(assembler.finish(), vec![line("a b")]);
}

#[test]
fn page_item_clone_is_equal() {
    let a = stored("image-1.png", 5);
    assert_eq!(a.clone(), a);
    let b = line("x");
    assert_eq!(b.clone(), b);
}
