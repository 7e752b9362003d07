use pdf_reading_order::extract::{
    extract_page, extract_text, extract_text_and_images, page_text, SAME_LINE_RANGE_DIFF,
};
use pdf_reading_order::lines::{ImageOutcome, PageItem};
use pdf_reading_order::object::{BoundingBox, ContentObject};
use pdf_reading_order::page::{drop_short_lines, page_text_lines, project_page, related_text};
use pdf_reading_order::platform::platform_library_folder;

fn at(top: i64, left: i64) -> Option<BoundingBox> {
    Some(BoundingBox { top, left, bottom: top - 10, right: left + 10 })
}

fn text(s: &str, bounds: Option<BoundingBox>) -> ContentObject<ImageOutcome> {
    ContentObject::Text { text: Some(s.to_string()), bounds }
}

fn image(outcome: ImageOutcome, bounds: Option<BoundingBox>) -> ContentObject<ImageOutcome> {
    ContentObject::Image { image: outcome, bounds }
}

fn line(s: &str) -> PageItem {
    PageItem::TextLine(s.to_string())
}

fn stored(name: &str, size: u32) -> PageItem {
    PageItem::ImageRef { filename: name.to_string(), file_size_bytes: size }
}

fn strings(lines: &[&str]) -> Vec<String> {
    lines.iter().map(|s| s.to_string()).collect()
}

#[test]
fn figure_with_caption_above_and_body_below() {
    let objects = vec![
        text("Fig. 1", at(100, 0)),
        image(ImageOutcome::Saved { file_size_bytes: Some(2048) }, at(95, 0)),
        text("shows", at(50, 0)),
        text("a graph", at(50, 30)),
    ];
    let (page, next) = extract_page(&objects, 5, 1);
    assert_eq!(page.page_text_lines, strings(&["Fig. 1", "shows a graph"]));
    assert_eq!(page.page_images.len(), 1);
    assert_eq!(page.page_images[0].filename, "image-1.png");
    assert_eq!(page.page_images[0].file_size_bytes, 2048);
    assert_eq!(page.page_images[0].related_text, strings(&["Fig. 1"]));
    assert_eq!(next, 2);
}

#[test]
fn figure_scenario_does_not_depend_on_the_listing() {
    let objects = vec![
        text("a graph", at(50, 30)),
        image(ImageOutcome::Saved { file_size_bytes: Some(2048) }, at(95, 0)),
        text("shows", at(50, 0)),
        text("Fig. 1", at(100, 0)),
    ];
    let (page, _) = extract_page(&objects, SAME_LINE_RANGE_DIFF, 1);
    assert_eq!(page.page_text_lines, strings(&["Fig. 1", "shows a graph"]));
    assert_eq!(page.page_images[0].related_text, strings(&["Fig. 1"]));
}

#[test]
fn page_without_eligible_objects_is_empty() {
    let none: Vec<ContentObject<ImageOutcome>> = vec![];
    let (page, next) = extract_page(&none, 5, 3);
    assert!(page.page_text_lines.is_empty());
    assert!(page.page_images.is_empty());
    assert_eq!(next, 3);
    let blank = vec![
        text("  ", at(10, 0)),
        ContentObject::Other,
        ContentObject::Text { text: None, bounds: at(5, 0) },
    ];
    let (page, next) = extract_page(&blank, 5, 3);
    assert!(page.page_text_lines.is_empty());
    assert!(page.page_images.is_empty());
    assert_eq!(next, 3);
}

#[test]
fn text_lines_are_all_reported() {
    let items = vec![line("a"), stored("image-1.png", 1), line("bc"), line(""), line("d")];
    assert_eq!(page_text_lines(&items), strings(&["a", "bc", "", "d"]));
    assert_eq!(page_text_lines(&vec![]), Vec::<String>::new());
}

#[test]
fn short_lines_are_dropped_for_images_only() {
    let items = vec![line("a"), stored("image-1.png", 1), line("bc"), line(""), line("\u{e9}\u{e8}")];
    assert_eq!(
        drop_short_lines(&items),
        vec![stored("image-1.png", 1), line("bc"), line("\u{e9}\u{e8}")]
    );
}

#[test]
fn line_length_counts_characters() {
    // one character of two bytes is short, two characters are not
    let items = vec![line("\u{e9}"), line("ab"), line("a")];
    assert_eq!(drop_short_lines(&items), vec![line("ab")]);
}

#[test]
fn first_image_takes_the_next_two_lines() {
    let items = vec![
        stored("image-1.png", 1),
        line("one"),
        stored("image-2.png", 1),
        line("two"),
        line("three"),
    ];
    assert_eq!(related_text(&items, 0), strings(&["one", "two"]));
}

#[test]
fn first_image_with_fewer_lines_behind_it() {
    assert_eq!(related_text(&vec![stored("image-1.png", 1)], 0), Vec::<String>::new());
    assert_eq!(related_text(&vec![stored("image-1.png", 1), line("only")], 0), strings(&["only"]));
}

#[test]
fn later_image_takes_the_two_nearest_lines_ahead_in_page_order() {
    let items = vec![
        line("one"),
        line("two"),
        stored("image-1.png", 1),
        line("three"),
        stored("image-2.png", 1),
        line("four"),
    ];
    assert_eq!(related_text(&items, 2), strings(&["one", "two"]));
    assert_eq!(related_text(&items, 4), strings(&["two", "three"]));
}

#[test]
fn later_image_with_fewer_lines_ahead() {
    let items = vec![line("one"), stored("image-1.png", 1), stored("image-2.png", 1)];
    assert_eq!(related_text(&items, 1), strings(&["one"]));
    assert_eq!(related_text(&items, 2), strings(&["one"]));
    let images = vec![stored("image-1.png", 1), stored("image-2.png", 1), line("behind")];
    assert_eq!(related_text(&images, 1), Vec::<String>::new());
}

#[test]
fn short_line_is_reported_but_belongs_to_no_image() {
    let items = vec![line("title"), line("-"), stored("image-1.png", 9), line("body")];
    let page = project_page(&items);
    assert_eq!(page.page_text_lines, strings(&["title", "-", "body"]));
    assert_eq!(page.page_images.len(), 1);
    assert_eq!(page.page_images[0].related_text, strings(&["title"]));
}

#[test]
fn image_is_first_once_the_short_lines_ahead_of_it_are_gone() {
    let items = vec![line("*"), stored("image-1.png", 9), line("one"), line("."), line("two")];
    let page = project_page(&items);
    assert_eq!(page.page_text_lines, strings(&["*", "one", ".", "two"]));
    assert_eq!(page.page_images[0].related_text, strings(&["one", "two"]));
}

#[test]
fn projection_lists_images_in_order() {
    let items = vec![
        stored("image-1.png", 10),
        line("aa"),
        stored("image-2.png", 0),
        line("bb"),
        stored("image-3.png", 30),
    ];
    let page = project_page(&items);
    assert_eq!(page.page_images.len(), 3);
    assert_eq!(page.page_images[0].filename, "image-1.png");
    assert_eq!(page.page_images[0].file_size_bytes, 10);
    assert_eq!(page.page_images[0].related_text, strings(&["aa", "bb"]));
    assert_eq!(page.page_images[1].filename, "image-2.png");
    assert_eq!(page.page_images[1].file_size_bytes, 0);
    assert_eq!(page.page_images[1].related_text, strings(&["aa"]));
    assert_eq!(page.page_images[2].filename, "image-3.png");
    assert_eq!(page.page_images[2].file_size_bytes, 30);
    assert_eq!(page.page_images[2].related_text, strings(&["aa", "bb"]));
}

#[test]
fn projection_of_nothing_is_empty() {
    let page = project_page(&vec![]);
    assert!(page.page_images.is_empty());
    assert!(page.page_text_lines.is_empty());
}

#[test]
fn failed_image_leaves_the_page_without_it() {
    let objects = vec![
        text("above", at(100, 0)),
        image(ImageOutcome::DecodeFailed, at(80, 0)),
        text("below", at(60, 0)),
    ];
    let (page, next) = extract_page(&objects, 5, 1);
    assert_eq!(page.page_text_lines, strings(&["above", "below"]));
    assert!(page.page_images.is_empty());
    assert_eq!(next, 1);
}

#[test]
fn image_numbers_run_on_from_page_to_page() {
    let saved = ImageOutcome::Saved { file_size_bytes: Some(1) };
    let pages = vec![
        vec![image(saved, at(10, 0)), image(ImageOutcome::SaveFailed, at(5, 0))],
        vec![],
        vec![text("page three", at(90, 0)), image(saved, at(10, 0))],
    ];
    let result = extract_text_and_images(&pages, 5);
    assert_eq!(result.len(), 3);
    assert_eq!(result[0].page_images.len(), 1);
    assert_eq!(result[0].page_images[0].filename, "image-1.png");
    assert!(result[1].page_images.is_empty());
    assert!(result[1].page_text_lines.is_empty());
    assert_eq!(result[2].page_images[0].filename, "image-3.png");
    assert_eq!(result[2].page_images[0].related_text, strings(&["page three"]));
    assert_eq!(result[2].page_text_lines, strings(&["page three"]));
}

#[test]
fn document_without_pages_gives_no_page() {
    assert!(extract_text_and_images(&vec![], 5).is_empty());
}

#[test]
fn page_text_joins_trimmed_texts_without_separator() {
    let objects = vec![
        text(" Hello ", at(1, 0)),
        image(ImageOutcome::DecodeFailed, None),
        text("\tworld", None),
        ContentObject::Text { text: None, bounds: None },
        text("   ", None),
        text("a b", None),
    ];
    assert_eq!(page_text(&objects), "Helloworlda b");
}

#[test]
fn extract_text_gives_one_string_per_page() {
    let pages: Vec<Vec<ContentObject<()>>> = vec![
        vec![
            ContentObject::Text { text: Some("low ".to_string()), bounds: at(1, 0) },
            ContentObject::Text { text: Some(" high".to_string()), bounds: at(900, 0) },
        ],
        vec![ContentObject::Image { image: (), bounds: None }],
        vec![ContentObject::Text { text: Some(" \n".to_string()), bounds: None }],
        vec![],
        vec![ContentObject::Text { text: Some("end".to_string()), bounds: None }],
    ];
    assert_eq!(extract_text(&pages), strings(&["lowhigh", "", "", "", "end"]));
}

#[test]
fn extract_text_of_a_page_with_only_an_image_is_empty() {
    let pages: Vec<Vec<ContentObject<()>>> = vec![
        vec![ContentObject::Text { text: Some("A".to_string()), bounds: None }],
        vec![ContentObject::Image { image: (), bounds: at(5, 5) }],
    ];
    assert_eq!(extract_text(&pages), strings(&["A", ""]));
}

#[test]
fn extract_text_keeps_each_page_at_its_place() {
    let pages: Vec<Vec<ContentObject<()>>> = vec![
        vec![],
        vec![ContentObject::Text { text: Some("A".to_string()), bounds: None }],
    ];
    assert_eq!(extract_text(&pages), strings(&["", "A"]));
    let none: Vec<Vec<ContentObject<()>>> = vec![];
    assert_eq!(extract_text(&none), Vec::<String>::new());
}

#[test]
fn library_folder_is_chosen_by_system_and_processor() {
    assert_eq!(platform_library_folder("macos", "aarch64"), "pdfium-mac-arm64/lib");
    assert_eq!(platform_library_folder("macos", "x86_64"), "pdfium-mac-x64/lib");
    assert_eq!(platform_library_folder("linux", "aarch64"), "pdfium-linux-arm64/lib");
    assert_eq!(platform_library_folder("linux", "x86_64"), "pdfium-linux-x64/lib");
    assert_eq!(platform_library_folder("windows", "arm"), "pdfium-linux-x64/lib");
    assert_eq!(platform_library_folder("", ""), "pdfium-linux-x64/lib");
}

#[test]
fn driving_the_steps_by_hand_gives_the_same_page() {
    let objects = vec![
        text("a graph", at(50, 30)),
        image(ImageOutcome::Saved { file_size_bytes: Some(2048) }, at(95, 0)),
        text("shows", at(50, 0)),
        text("Fig. 1", at(100, 0)),
        image(ImageOutcome::SaveFailed, at(20, 0)),
        text("!", at(10, 0)),
    ];
    let order = pdf_reading_order::order::reading_order(&objects, 5);
    let mut assembler = pdf_reading_order::lines::LineAssembler::new(1);
    for &index in &order {
        assembler.push_object(&objects[index], 5);
    }
    let next = assembler.next_image_number();
    let by_hand = project_page(&assembler.finish());
    let (page, next_of_page) = extract_page(&objects, 5, 1);
    assert_eq!(next, 3);
    assert_eq!(next_of_page, 3);
    assert_eq!(page.page_text_lines, strings(&["Fig. 1", "shows a graph", "!"]));
    assert_eq!(by_hand.page_text_lines, page.page_text_lines);
    assert_eq!(by_hand.page_images.len(), 1);
    assert_eq!(page.page_images.len(), 1);
    assert_eq!(by_hand.page_images[0].filename, page.page_images[0].filename);
    assert_eq!(by_hand.page_images[0].related_text, page.page_images[0].related_text);
    assert_eq!(page.page_images[0].related_text, strings(&["Fig. 1"]));
}
