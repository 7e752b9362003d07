use pdf_reading_order::object::{eligible_objects, BoundingBox, ContentObject};
use pdf_reading_order::order::{
    cluster_lines, is_same_line, reading_order, sort_by_top, sort_groups_by_left, stable_sort_by,
    Axis, LineGroup,
};

fn at(top: i64, left: i64) -> Option<BoundingBox> {
    Some(BoundingBox { top, left, bottom: top - 10, right: left + 10 })
}

fn text(s: &str, bounds: Option<BoundingBox>) -> ContentObject<()> {
    ContentObject::Text { text: Some(s.to_string()), bounds }
}

fn image(bounds: Option<BoundingBox>) -> ContentObject<()> {
    ContentObject::Image { image: (), bounds }
}

#[test]
fn filter_keeps_images_and_visible_text() {
    let objects = vec![
        text("a", at(1, 0)),
        text("   ", at(2, 0)),
        ContentObject::Other,
        image(None),
        ContentObject::Text { text: None, bounds: at(3, 0) },
        text("", at(4, 0)),
        text(" b ", None),
    ];
    assert_eq!(eligible_objects(&objects), vec![0, 3, 6]);
}

#[test]
fn filter_of_nothing_is_nothing() {
    let objects: Vec<ContentObject<()>> = vec![];
    assert_eq!(eligible_objects(&objects), Vec::<usize>::new());
}

#[test]
fn sort_by_top_puts_higher_objects_first() {
    let objects = vec![text("c", at(10, 0)), text("a", at(300, 0)), text("b", at(150, 0))];
    assert_eq!(sort_by_top(&objects, &vec![0, 1, 2]), vec![1, 2, 0]);
}

#[test]
fn sort_by_top_is_stable_for_equal_tops() {
    let objects = vec![
        text("a", at(50, 9)),
        text("b", at(70, 0)),
        text("c", at(50, 3)),
        text("d", at(50, 1)),
    ];
    assert_eq!(sort_by_top(&objects, &vec![0, 1, 2, 3]), vec![1, 0, 2, 3]);
}

#[test]
fn object_without_box_keeps_its_place_and_nothing_crosses_it() {
    let objects = vec![
        text("a", at(10, 0)),
        text("b", at(20, 0)),
        image(None),
        text("c", at(30, 0)),
        text("d", at(40, 0)),
    ];
    assert_eq!(sort_by_top(&objects, &vec![0, 1, 2, 3, 4]), vec![1, 0, 2, 4, 3]);
}

#[test]
fn stable_sort_of_a_range_looks_at_that_range_only() {
    let objects = vec![
        text("a", at(0, 40)),
        text("b", at(0, 30)),
        text("c", at(0, 20)),
        text("d", at(0, 10)),
    ];
    let items = vec![0, 1, 2, 3];
    assert_eq!(stable_sort_by(&objects, &items, 1, 3, Axis::LeftAscending), vec![2, 1]);
    assert_eq!(stable_sort_by(&objects, &items, 2, 2, Axis::LeftAscending), Vec::<usize>::new());
    assert_eq!(stable_sort_by(&objects, &items, 0, 4, Axis::LeftAscending), vec![3, 2, 1, 0]);
}

#[test]
fn same_line_is_strictly_within_tolerance() {
    assert!(is_same_line(100, 100, 5));
    assert!(is_same_line(96, 100, 5));
    assert!(is_same_line(104, 100, 5));
    assert!(!is_same_line(95, 100, 5));
    assert!(!is_same_line(105, 100, 5));
    assert!(is_same_line(7, 7, 0));
    assert!(!is_same_line(7, 8, 0));
    assert!(!is_same_line(i64::MIN, i64::MAX, u64::MAX));
    assert!(!is_same_line(i64::MAX, i64::MIN, u64::MAX));
    assert!(is_same_line(i64::MAX, i64::MAX - 1, 2));
}

#[test]
fn clustering_judges_by_the_first_object_of_the_band() {
    // 100, 97, 94: 94 is within 5 of 97 but not of 100, the band's first object
    let objects = vec![text("a", at(100, 0)), text("b", at(97, 0)), text("c", at(94, 0))];
    let groups = cluster_lines(&objects, &vec![0, 1, 2], 5);
    assert_eq!(
        groups,
        vec![LineGroup { top: 100, start: 0, end: 1 }, LineGroup { top: 94, start: 2, end: 2 }]
    );
}

#[test]
fn clustering_ends_at_the_first_object_without_box() {
    let objects =
        vec![text("a", at(100, 0)), text("b", at(99, 0)), image(None), text("c", at(98, 0))];
    let groups = cluster_lines(&objects, &vec![0, 1, 2, 3], 5);
    assert_eq!(groups, vec![LineGroup { top: 100, start: 0, end: 1 }]);
}

#[test]
fn clustering_of_nothing_gives_no_band() {
    let objects: Vec<ContentObject<()>> = vec![];
    assert_eq!(cluster_lines(&objects, &vec![], 5), vec![]);
}

#[test]
fn groups_are_sorted_left_to_right_and_the_rest_stays() {
    let objects = vec![
        text("a", at(100, 30)),
        text("b", at(100, 10)),
        text("c", at(100, 20)),
        text("d", at(50, 9)),
        text("e", at(50, 1)),
    ];
    let mut order = vec![0, 1, 2, 3, 4];
    let groups = vec![LineGroup { top: 100, start: 0, end: 2 }];
    sort_groups_by_left(&objects, &mut order, &groups);
    assert_eq!(order, vec![1, 2, 0, 3, 4]);
}

#[test]
fn equal_left_keeps_the_order_by_top() {
    let objects = vec![text("low", at(98, 5)), text("high", at(100, 5)), text("left", at(99, 0))];
    assert_eq!(reading_order(&objects, 5), vec![2, 1, 0]);
}

#[test]
fn reading_order_is_left_to_right_within_a_band_whatever_the_listing() {
    let first = vec![text("c", at(100, 20)), text("a", at(101, 0)), text("b", at(99, 10))];
    let second = vec![text("b", at(99, 10)), text("c", at(100, 20)), text("a", at(101, 0))];
    assert_eq!(reading_order(&first, 5), vec![1, 2, 0]);
    assert_eq!(reading_order(&second, 5), vec![2, 0, 1]);
}

#[test]
fn lines_are_not_interleaved_by_left() {
    let objects = vec![
        text("second line, left", at(80, 0)),
        text("first line, right", at(100, 50)),
        text("second line, right", at(80, 50)),
        text("first line, left", at(100, 0)),
    ];
    assert_eq!(reading_order(&objects, 5), vec![3, 1, 0, 2]);
}

#[test]
fn reading_order_leaves_out_what_is_not_eligible() {
    let objects = vec![
        ContentObject::Other,
        text("  ", at(500, 0)),
        text("x", at(10, 0)),
        image(at(20, 0)),
    ];
    assert_eq!(reading_order(&objects, 5), vec![3, 2]);
}

#[test]
fn tolerance_scales_with_the_unit() {
    // the same page in thousandths of a unit
    let objects = vec![text("b", at(95_400, 10_000)), text("a", at(100_000, 20_000))];
    assert_eq!(reading_order(&objects, 5_000), vec![0, 1]);
    let apart = vec![text("b", at(95_000, 10_000)), text("a", at(100_000, 20_000))];
    assert_eq!(reading_order(&apart, 5_000), vec![1, 0]);
}

#[test]
fn object_accessors_read_the_bounding_box() {
    let t = text("x", at(7, 3));
    assert_eq!(t.bounds(), at(7, 3));
    assert_eq!(t.top(), 7);
    assert!(t.is_eligible());
    let i = image(None);
    assert_eq!(i.bounds(), None);
    assert_eq!(i.top(), 0);
    assert!(i.is_eligible());
    let o: ContentObject<()> = ContentObject::Other;
    assert_eq!(o.bounds(), None);
    assert_eq!(o.top(), 0);
    assert!(!o.is_eligible());
    let unread: ContentObject<()> = ContentObject::Text { text: None, bounds: at(1, 1) };
    assert_eq!(unread.top(), 1);
    assert!(!unread.is_eligible());
    assert!(!text("\u{2003}\n", at(1, 1)).is_eligible());
}

#[test]
fn reading_order_holds_each_eligible_object_once() {
    let objects = vec![
        text("f", at(10, 50)),
        image(at(300, 0)),
        text("", at(1, 1)),
        text("b", at(200, 5)),
        image(None),
        text("c", at(203, 1)),
        text("d", at(-40, 0)),
    ];
    let order = reading_order(&objects, 5);
    let mut seen = order.clone();
    seen.sort();
    assert_eq!(seen, vec![0, 1, 3, 4, 5, 6]);
    // the image without a box stays fourth, and "c" at 203 does not pass it
    assert_eq!(order, vec![1, 3, 0, 4, 5, 6]);
}
