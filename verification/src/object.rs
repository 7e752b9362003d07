//! The content objects of a page, as the page's provider hands them over.

use crate::text::{is_blank, trim};
use vstd::prelude::*;

verus! {

/// The rectangle that bounds a content object, in page coordinates.
///
/// Coordinates are whole numbers of a unit that the caller chooses; larger `top` means higher
/// on the page, the origin being at the page's bottom.
#[derive(Clone, Copy, Debug, PartialEq, Eq)]
pub struct BoundingBox {
    pub top: i64,
    pub left: i64,
    pub bottom: i64,
    pub right: i64,
}

/// One positioned object of a page.
///
/// `I` is whatever the caller holds of an image (its pixels, a handle, or what became of it when
/// it was stored). Ordering never looks at it.
#[derive(Debug)]
pub enum ContentObject<I> {
    /// A run of text. `text` is `None` where the text could not be read; `bounds` is `None`
    /// where the bounding box could not be had.
    Text { text: Option<String>, bounds: Option<BoundingBox> },
    /// A raster image.
    Image { image: I, bounds: Option<BoundingBox> },
    /// Any other kind of object: a path, a shading, a form.
    Other,
}

impl<I> ContentObject<I> {
    /// The object's bounding box, where it has one.
    pub open spec fn spec_bounds(&self) -> Option<BoundingBox> {
        match self {
            ContentObject::Text { bounds, .. } => *bounds,
            ContentObject::Image { bounds, .. } => *bounds,
            ContentObject::Other => None,
        }
    }

    /// The object's `top`, and 0 where it has no bounding box.
    pub open spec fn spec_top(&self) -> i64 {
        match self.spec_bounds() {
            Some(b) => b.top,
            None => 0,
        }
    }

    /// The object's `left`, and 0 where it has no bounding box.
    pub open spec fn spec_left(&self) -> i64 {
        match self.spec_bounds() {
            Some(b) => b.left,
            None => 0,
        }
    }

    /// Whether the object takes part in the page's reading order: every image does, and a text
    /// object whose text is more than white space.
    pub open spec fn spec_is_eligible(&self) -> bool {
        match self {
            ContentObject::Text { text: Some(t), .. } => !is_blank(t@),
            ContentObject::Text { text: None, .. } => false,
            ContentObject::Image { .. } => true,
            ContentObject::Other => false,
        }
    }

    /// The object's bounding box, where it has one.
    #[verifier::when_used_as_spec(spec_bounds)]
    pub fn bounds(&self) -> (r: Option<BoundingBox>)
        ensures
            r == self.spec_bounds(),
    {
        match self {
            ContentObject::Text { bounds, .. } => *bounds,
            ContentObject::Image { bounds, .. } => *bounds,
            ContentObject::Other => None,
        }
    }

    /// The object's `top`, and 0 where it has no bounding box.
    #[verifier::when_used_as_spec(spec_top)]
    pub fn top(&self) -> (r: i64)
        ensures
            r == self.spec_top(),
    {
        match self.bounds() {
            Some(b) => b.top,
            None => 0,
        }
    }

    /// Whether the object takes part in the page's reading order.
    #[verifier::when_used_as_spec(spec_is_eligible)]
    pub fn is_eligible(&self) -> (r: bool)
        ensures
            r == self.spec_is_eligible(),
    {
        match self {
            ContentObject::Text { text: Some(t), .. } => {
                let shown = trim(t.as_str());
                !shown.as_str().is_empty()
            },
            ContentObject::Text { text: None, .. } => false,
            ContentObject::Image { .. } => true,
            ContentObject::Other => false,
        }
    }
}

/// The indices of the eligible objects among the first `n` of `objects`, ascending.
pub open spec fn eligible_indices<I>(objects: Seq<ContentObject<I>>, n: int) -> Seq<usize>
    decreases n,
{
    if n <= 0 {
        Seq::empty()
    } else if objects[n - 1].spec_is_eligible() {
        eligible_indices(objects, n - 1).push((n - 1) as usize)
    } else {
        eligible_indices(objects, n - 1)
    }
}

/// What `eligible_indices` holds: each entry is the index of an eligible object among the
/// first `n`, and the entries ascend.
pub proof fn lemma_eligible_indices<I>(objects: Seq<ContentObject<I>>, n: int)
    requires
        0 <= n <= objects.len() <= usize::MAX,
    ensures
        eligible_indices(objects, n).len() <= n,
        forall|k: int|
            0 <= k < eligible_indices(objects, n).len() ==> {
                &&& (#[trigger] eligible_indices(objects, n)[k]) < n
                &&& objects[eligible_indices(objects, n)[k] as int].spec_is_eligible()
            },
        forall|j: int, k: int|
            0 <= j < k < eligible_indices(objects, n).len() ==> eligible_indices(objects, n)[j]
                < eligible_indices(objects, n)[k],
        forall|i: int|
            0 <= i < n && objects[i].spec_is_eligible() ==> eligible_indices(objects, n).contains(
                i as usize,
            ),
    decreases n,
{
    if n > 0 {
        lemma_eligible_indices(objects, n - 1);
        let prev = eligible_indices(objects, n - 1);
        let cur = eligible_indices(objects, n);
        assert forall|i: int| 0 <= i < n && objects[i].spec_is_eligible() implies cur.contains(
            i as usize,
        ) by {
            if i < n - 1 {
                let k = choose|k: int| 0 <= k < prev.len() && prev[k] == i as usize;
                assert(cur[k] == i as usize);
            } else {
                assert(cur[cur.len() - 1] == i as usize);
            }
        }
    }
}

/// The indices of the objects that take part in the page's reading order, ascending: every
/// image, and every text object whose text is more than white space.
pub fn eligible_objects<I>(objects: &Vec<ContentObject<I>>) -> (r: Vec<usize>)
    ensures
        r@ == eligible_indices(objects@, objects.len() as int),
        forall|k: int|
            0 <= k < r@.len() ==> (#[trigger] r[k]) < objects.len()
                && objects[r[k] as int].spec_is_eligible(),
        forall|j: int, k: int| 0 <= j < k < r@.len() ==> r[j] < r[k],
        forall|i: int|
            0 <= i < objects.len() && objects[i].spec_is_eligible() ==> r@.contains(i as usize),
{
    proof {
        lemma_eligible_indices(objects@, objects.len() as int);
    }
    let mut r: Vec<usize> = Vec::new();
    let mut i: usize = 0;
    while i < objects.len()
        invariant
            i <= objects.len(),
            r@ == eligible_indices(objects@, i as int),
        decreases objects.len() - i,
    {
        if objects[i].is_eligible() {
            r.push(i);
        }
        i += 1;
    }
    r
}

} // verus!
