//! Room for images in shared textures.
//!
//! Small images are kept together in large textures, the pages of the
//! atlas. Where an image goes on a page is decided by the `guillotiere`
//! crate; the library keeps the pages, asks each in turn for room and opens
//! a new page when none has any. What is asked for an image is the image
//! with a border of one pixel on each side, so that the neighbours of an
//! image do not show through at its edges when it is scaled.
//!
//! The textures themselves are made and filled by whoever draws: for each
//! region that the atlas hands out it says on which page the region lies
//! and whether that page is new, and it gives the image with its border as
//! it is to be written there.

use vstd::prelude::*;

verus! {

#[verifier::external_type_specification]
#[verifier::external_body]
pub struct ExAtlasAllocator(guillotiere::AtlasAllocator);

/// The rectangles that are allocated in an allocator and not given back,
/// each under its id and as `(min x, min y, max x, max y)`.
pub uninterp spec fn live_rectangles(allocator: guillotiere::AtlasAllocator) -> Map<
    u32,
    (i32, i32, i32, i32),
>;

/// The width and the height that an allocator was made with.
pub uninterp spec fn allocator_extent(allocator: guillotiere::AtlasAllocator) -> (i32, i32);

/// What `guillotiere::AtlasAllocator::is_empty` says of an allocator:
/// whether all of it is one free rectangle.
pub uninterp spec fn allocator_is_empty(allocator: guillotiere::AtlasAllocator) -> bool;

/// No rectangle at all.
pub open spec fn nothing_taken() -> Map<u32, (i32, i32, i32, i32)> {
    Map::empty()
}

/// A rectangle that an allocator has handed out.
#[derive(Clone, Copy, Debug, PartialEq, Eq, Structural)]
pub struct Placed {
    pub id: u32,
    pub min_x: i32,
    pub min_y: i32,
    pub max_x: i32,
    pub max_y: i32,
}

/// The two rectangles have no point in common. A rectangle holds its
/// smallest corner and not its largest.
pub open spec fn apart(a: (i32, i32, i32, i32), b: (i32, i32, i32, i32)) -> bool {
    a.2 <= b.0 || b.2 <= a.0 || a.3 <= b.1 || b.3 <= a.1
}

/// The rectangle lies in the extent.
pub open spec fn inside(r: (i32, i32, i32, i32), extent: (i32, i32)) -> bool {
    0 <= r.0 <= r.2 <= extent.0 && 0 <= r.1 <= r.3 <= extent.1
}

/// Calls `guillotiere::AtlasAllocator::new`. Trusted: the new allocator
/// holds no rectangle, has the extent it was made with, and is empty: it
/// is made as one free rectangle of that extent. The call panics for an
/// extent that is not positive, which `requires` leaves out.
#[verifier::external_body]
pub(crate) fn new_allocator(width: i32, height: i32) -> (allocator: guillotiere::AtlasAllocator)
    requires
        width > 0,
        height > 0,
    ensures
        live_rectangles(allocator) == nothing_taken(),
        allocator_extent(allocator) == (width, height),
        allocator_is_empty(allocator),
{
    guillotiere::AtlasAllocator::new(guillotiere::size2(width, height))
}

/// Calls `guillotiere::AtlasAllocator::allocate`, and
/// `guillotiere::AllocId::serialize` for the number of the id. Trusted: when
/// the call gives nothing, the allocator holds what it held. When it gives a
/// rectangle, the rectangle has exactly the size asked for, which is not
/// empty; it lies in the extent of the allocator and has no point in
/// common with a rectangle that the allocator held; and the allocator
/// holds it from now on under an id that no rectangle it held has. An
/// empty allocator gives a rectangle for every size that is not empty and
/// not larger than its extent: its one free rectangle is found for it.
/// Nothing else is said about when the call gives a rectangle.
#[verifier::external_body]
pub(crate) fn allocate_rectangle(
    allocator: &mut guillotiere::AtlasAllocator,
    width: i32,
    height: i32,
) -> (placed: Option<Placed>)
    ensures
        allocator_extent(*final(allocator)) == allocator_extent(*old(allocator)),
        allocator_is_empty(*old(allocator)) && 0 < width <= allocator_extent(*old(allocator)).0
            && 0 < height <= allocator_extent(*old(allocator)).1 ==> placed is Some,
        match placed {
            None => live_rectangles(*final(allocator)) == live_rectangles(*old(allocator)),
            Some(p) => {
                &&& width > 0 && height > 0
                &&& p.max_x - p.min_x == width
                &&& p.max_y - p.min_y == height
                &&& inside((p.min_x, p.min_y, p.max_x, p.max_y), allocator_extent(*old(allocator)))
                &&& !live_rectangles(*old(allocator)).contains_key(p.id)
                &&& forall|id: u32| #[trigger]
                    live_rectangles(*old(allocator)).contains_key(id) ==> apart(
                        live_rectangles(*old(allocator))[id],
                        (p.min_x, p.min_y, p.max_x, p.max_y),
                    )
                &&& live_rectangles(*final(allocator)) == live_rectangles(*old(allocator)).insert(
                    p.id,
                    (p.min_x, p.min_y, p.max_x, p.max_y),
                )
            },
        },
{
    allocator.allocate(guillotiere::size2(width, height)).map(
        |a| Placed {
            id: a.id.serialize(),
            min_x: a.rectangle.min.x,
            min_y: a.rectangle.min.y,
            max_x: a.rectangle.max.x,
            max_y: a.rectangle.max.y,
        },
    )
}

/// Calls `guillotiere::AtlasAllocator::deallocate`, with the id that
/// `guillotiere::AllocId::deserialize` makes of the number. Trusted: the
/// allocator no longer holds the rectangle of the id, and holds every other
/// rectangle as before. The call panics for an id that the allocator does
/// not hold, which `requires` leaves out.
#[verifier::external_body]
pub(crate) fn deallocate_rectangle(allocator: &mut guillotiere::AtlasAllocator, id: u32)
    requires
        live_rectangles(*old(allocator)).contains_key(id),
    ensures
        allocator_extent(*final(allocator)) == allocator_extent(*old(allocator)),
        live_rectangles(*final(allocator)) == live_rectangles(*old(allocator)).remove(id),
{
    allocator.deallocate(guillotiere::AllocId::deserialize(id))
}

/// The width and the height of a page.
pub const PAGE_EXTENT: i32 = 2048;

/// A stretch of a page.
#[derive(Clone, Copy, Debug, PartialEq, Eq, Structural)]
pub struct Region {
    pub x: i32,
    pub y: i32,
    pub width: i32,
    pub height: i32,
}

/// Room that the atlas has handed out.
#[derive(Clone, Copy, Debug, PartialEq, Eq, Structural)]
pub struct AtlasAllocation {
    /// Where the image lies on its page, without its border.
    pub texture_coordinates: Region,
    /// The page.
    pub atlas: usize,
    /// Whether the page was opened for this room: its texture is still to
    /// be made.
    pub new_page: bool,
    /// The id under which the allocator of the page holds the room.
    pub allocation_id: u32,
}

/// One page: its allocator and the ids of the rectangles it holds.
pub struct AtlasPage {
    allocator: guillotiere::AtlasAllocator,
    ids: Vec<u32>,
}

impl AtlasPage {
    /// The rectangles that are taken on the page.
    pub closed spec fn taken(&self) -> Map<u32, (i32, i32, i32, i32)> {
        live_rectangles(self.allocator)
    }

    /// Whether all of the page is free, as its allocator says.
    pub closed spec fn is_empty(&self) -> bool {
        allocator_is_empty(self.allocator)
    }

    /// The page has the extent of a page, the library knows the ids of all
    /// rectangles that are taken, and the rectangles lie on the page, no
    /// two of them over each other.
    pub closed spec fn wf(&self) -> bool {
        &&& allocator_extent(self.allocator) == (PAGE_EXTENT, PAGE_EXTENT)
        &&& forall|i: int, j: int| 0 <= i < j < self.ids@.len() ==> self.ids@[i] != self.ids@[j]
        &&& forall|k: int| 0 <= k < self.ids@.len() ==> self.taken().contains_key(#[trigger] self.ids@[k])
        &&& forall|id: u32| #[trigger] self.taken().contains_key(id) ==> self.ids@.contains(id)
        &&& forall|id: u32| #[trigger]
            self.taken().contains_key(id) ==> inside(self.taken()[id], (PAGE_EXTENT, PAGE_EXTENT))
        &&& forall|a: u32, b: u32|
            #![trigger self.taken()[a], self.taken()[b]]
            self.taken().contains_key(a) && self.taken().contains_key(b) && a != b ==> apart(
                self.taken()[a],
                self.taken()[b],
            )
    }

    /// On a page no two rectangles lie over each other, and none reaches
    /// beyond the page.
    pub proof fn lemma_rectangles_apart(&self, a: u32, b: u32)
        requires
            self.wf(),
            self.taken().contains_key(a),
            self.taken().contains_key(b),
            a != b,
        ensures
            apart(self.taken()[a], self.taken()[b]),
            inside(self.taken()[a], (PAGE_EXTENT, PAGE_EXTENT)),
    {
    }

    /// A page on which nothing is taken.
    fn new() -> (page: Self)
        ensures
            page.wf(),
            page.taken() == nothing_taken(),
            page.is_empty(),
    {
        AtlasPage { allocator: new_allocator(PAGE_EXTENT, PAGE_EXTENT), ids: Vec::new() }
    }

    /// Asks the page for room of the given size, and keeps the id of the
    /// room that it gives. A page that is all free has room for every size
    /// that is not empty and not larger than a page; whether another page
    /// has room is for its allocator to say.
    fn allocate(&mut self, width: i32, height: i32) -> (placed: Option<Placed>)
        requires
            old(self).wf(),
        ensures
            final(self).wf(),
            old(self).is_empty() && 0 < width <= PAGE_EXTENT && 0 < height <= PAGE_EXTENT
                ==> placed is Some,
            match placed {
                None => final(self).taken() == old(self).taken(),
                Some(p) => {
                    &&& width > 0 && height > 0
                    &&& p.max_x - p.min_x == width
                    &&& p.max_y - p.min_y == height
                    &&& inside((p.min_x, p.min_y, p.max_x, p.max_y), (PAGE_EXTENT, PAGE_EXTENT))
                    &&& !old(self).taken().contains_key(p.id)
                    &&& final(self).taken() == old(self).taken().insert(
                        p.id,
                        (p.min_x, p.min_y, p.max_x, p.max_y),
                    )
                },
            },
    {
        let ghost held = self.taken();
        let placed = allocate_rectangle(&mut self.allocator, width, height);
        match placed {
            Some(p) => {
                let ghost before = self.ids@;
                let ghost r = (p.min_x, p.min_y, p.max_x, p.max_y);
                self.ids.push(p.id);
                proof {
                    let now = self.taken();
                    assert(now == held.insert(p.id, r));
                    assert forall|i: int, j: int| 0 <= i < j < self.ids@.len() implies self.ids@[i]
                        != self.ids@[j] by {
                        if j == before.len() {
                            assert(held.contains_key(before[i]));
                        }
                    }
                    assert forall|k: int| 0 <= k < self.ids@.len() implies now.contains_key(
                        #[trigger] self.ids@[k],
                    ) by {
                        if k < before.len() {
                            assert(held.contains_key(before[k]));
                        }
                    }
                    assert forall|id: u32| #[trigger] now.contains_key(id) implies self.ids@.contains(
                        id,
                    ) by {
                        if id == p.id {
                            assert(self.ids@[before.len() as int] == id);
                        } else {
                            assert(held.contains_key(id));
                            assert(before.contains(id));
                            let k = choose|k: int| 0 <= k < before.len() && before[k] == id;
                            assert(self.ids@[k] == id);
                        }
                    }
                    assert forall|id: u32| #[trigger] now.contains_key(id) implies inside(
                        now[id],
                        (PAGE_EXTENT, PAGE_EXTENT),
                    ) by {
                        if id != p.id {
                            assert(held.contains_key(id));
                        }
                    }
                    assert forall|a: u32, b: u32|
                        #![trigger now[a], now[b]]
                        now.contains_key(a) && now.contains_key(b) && a != b implies apart(
                        now[a],
                        now[b],
                    ) by {
                        if a == p.id {
                            assert(held.contains_key(b));
                        } else if b == p.id {
                            assert(held.contains_key(a));
                        } else {
                            assert(held.contains_key(a) && held.contains_key(b));
                            assert(apart(held[a], held[b]));
                        }
                    }
                }
            },
            None => {},
        }
        placed
    }

    /// Gives room back to the page. Says whether the page held it.
    fn release(&mut self, id: u32) -> (was_held: bool)
        requires
            old(self).wf(),
        ensures
            final(self).wf(),
            was_held == old(self).taken().contains_key(id),
            final(self).taken() == old(self).taken().remove(id),
    {
        let ghost held = self.taken();
        let mut k: usize = 0;
        while k < self.ids.len()
            invariant
                *self == *old(self),
                self.wf(),
                held == self.taken(),
                k <= self.ids.len(),
                forall|q: int| 0 <= q < k ==> self.ids@[q] != id,
            decreases self.ids.len() - k,
        {
            if self.ids[k] == id {
                assert(held.contains_key(self.ids@[k as int]));
                deallocate_rectangle(&mut self.allocator, id);
                let ghost before = self.ids@;
                self.ids.remove(k);
                proof {
                    let now = self.taken();
                    assert(now == held.remove(id));
                    assert(self.ids@ == before.remove(k as int));
                    assert forall|i: int, j: int| 0 <= i < j < self.ids@.len() implies self.ids@[i]
                        != self.ids@[j] by {
                        let i0 = if i < k {
                            i
                        } else {
                            i + 1
                        };
                        let j0 = if j < k {
                            j
                        } else {
                            j + 1
                        };
                        assert(self.ids@[i] == before[i0]);
                        assert(self.ids@[j] == before[j0]);
                    }
                    assert forall|q: int| 0 <= q < self.ids@.len() implies now.contains_key(
                        #[trigger] self.ids@[q],
                    ) by {
                        let q0 = if q < k {
                            q
                        } else {
                            q + 1
                        };
                        assert(self.ids@[q] == before[q0]);
                        assert(held.contains_key(before[q0]));
                        assert(before[q0] != before[k as int]);
                    }
                    assert forall|other: u32| #[trigger] now.contains_key(other) implies self.ids@.contains(
                        other,
                    ) by {
                        assert(held.contains_key(other));
                        assert(before.contains(other));
                        let q = choose|q: int| 0 <= q < before.len() && before[q] == other;
                        if q < k {
                            assert(self.ids@[q] == other);
                        } else {
                            assert(self.ids@[q - 1] == other);
                        }
                    }
                    assert forall|other: u32| #[trigger] now.contains_key(other) implies inside(
                        now[other],
                        (PAGE_EXTENT, PAGE_EXTENT),
                    ) by {
                        assert(held.contains_key(other));
                    }
                    assert forall|a: u32, b: u32|
                        #![trigger now[a], now[b]]
                        now.contains_key(a) && now.contains_key(b) && a != b implies apart(
                        now[a],
                        now[b],
                    ) by {
                        assert(held.contains_key(a) && held.contains_key(b));
                        assert(apart(held[a], held[b]));
                    }
                }
                return true;
            }
            k += 1;
        }
        proof {
            if held.contains_key(id) {
                assert(self.ids@.contains(id));
            }
            assert(held.remove(id) =~= held);
        }
        false
    }
}

/// The atlas: its pages, in the order in which they were opened.
pub struct TextureAtlas {
    atlases: Vec<AtlasPage>,
}

/// The number of bytes of a pixel: red, green, blue and alpha.
pub const PIXEL_BYTES: usize = 4;

/// Whether an image of `w` by `h` pixels can be given a border: it is not
/// empty, and with the border it is not larger than a page.
pub open spec fn can_have_border(w: u32, h: u32) -> bool {
    0 < w && 0 < h && w + 2 <= PAGE_EXTENT && h + 2 <= PAGE_EXTENT
}

/// The bytes of the pixels `from` to `to` of row `y` of an image that is
/// `w` pixels wide. The rows of an image follow each other from the top.
pub open spec fn row_stretch(data: Seq<u8>, w: int, y: int, from: int, to: int) -> Seq<u8> {
    data.subrange((y * w + from) * 4, (y * w + to) * 4)
}

/// Row `y` of an image with its border: its first pixel, the row, its last
/// pixel.
pub open spec fn bordered_row(data: Seq<u8>, w: int, y: int) -> Seq<u8> {
    row_stretch(data, w, y, 0, 1) + row_stretch(data, w, y, 0, w) + row_stretch(
        data,
        w,
        y,
        w - 1,
        w,
    )
}

/// The first `n` rows of an image, each with its border.
pub open spec fn bordered_rows(data: Seq<u8>, w: int, n: int) -> Seq<u8>
    decreases n,
{
    if n <= 0 {
        Seq::empty()
    } else {
        bordered_rows(data, w, n - 1) + bordered_row(data, w, n - 1)
    }
}

/// An image of `w` by `h` pixels with a border of one pixel: its first
/// row, its rows, its last row, each with its border. Every pixel of the
/// border repeats the pixel of the image that is next to it.
pub open spec fn bordered(data: Seq<u8>, w: int, h: int) -> Seq<u8> {
    bordered_row(data, w, 0) + bordered_rows(data, w, h) + bordered_row(data, w, h - 1)
}

/// The pixel of an image that is nearest to the place `at` of the image
/// with its border, along one axis of `extent` pixels.
pub open spec fn nearest(at: int, extent: int) -> int {
    if at <= 0 {
        0
    } else if at > extent {
        extent - 1
    } else {
        at - 1
    }
}

/// A row of an image with its border is two pixels longer than the row.
pub proof fn lemma_bordered_row_len(data: Seq<u8>, w: int, h: int, y: int)
    requires
        0 < w,
        0 <= y < h,
        data.len() == w * h * 4,
    ensures
        bordered_row(data, w, y).len() == (w + 2) * 4,
{
    lemma_row_in_image(w, h, y);
    let start = (y * w) * 4;
    assert((y * w + 0) * 4 == start && (y * w + 1) * 4 == start + 4 && (y * w + w) * 4 == start + w
        * 4 && (y * w + (w - 1)) * 4 == start + w * 4 - 4 && (w + 2) * 4 == w * 4 + 8)
        by (nonlinear_arith)
        requires
            start == (y * w) * 4,
    ;
}

/// The rows of an image with their borders are as long as they are wide.
pub proof fn lemma_bordered_rows_len(data: Seq<u8>, w: int, h: int, n: int)
    requires
        0 < w,
        0 <= n <= h,
        data.len() == w * h * 4,
    ensures
        bordered_rows(data, w, n).len() == n * ((w + 2) * 4),
    decreases n,
{
    if n > 0 {
        lemma_bordered_rows_len(data, w, h, n - 1);
        lemma_bordered_row_len(data, w, h, n - 1);
        assert(n * ((w + 2) * 4) == (n - 1) * ((w + 2) * 4) + (w + 2) * 4) by (nonlinear_arith);
    } else {
        assert(n * ((w + 2) * 4) == 0) by (nonlinear_arith)
            requires
                n == 0,
        ;
    }
}

/// A row of an image lies in the image.
pub proof fn lemma_row_in_image(w: int, h: int, y: int)
    requires
        0 < w,
        0 <= y < h,
    ensures
        0 <= (y * w) * 4,
        (y * w + w) * 4 <= w * h * 4,
        (y * w + w) * 4 == (y * w) * 4 + w * 4,
{
    assert(0 <= y * w && (y + 1) * w <= h * w && (y + 1) * w == y * w + w && h * w == w * h)
        by (nonlinear_arith)
        requires
            0 < w,
            0 <= y < h,
    ;
}

/// Byte `c` of the pixel `(x, y)` of the image with its border is byte `c`
/// of the pixel of the image that is nearest to it.
pub proof fn lemma_bordered_pixel(data: Seq<u8>, w: int, h: int, x: int, y: int, c: int)
    requires
        0 < w,
        0 < h,
        data.len() == w * h * 4,
        0 <= x < w + 2,
        0 <= y < h + 2,
        0 <= c < 4,
    ensures
        bordered(data, w, h).len() == (w + 2) * (h + 2) * 4,
        0 <= (y * (w + 2) + x) * 4 + c < bordered(data, w, h).len(),
        0 <= (nearest(y, h) * w + nearest(x, w)) * 4 + c < data.len(),
        bordered(data, w, h)[(y * (w + 2) + x) * 4 + c] == data[(nearest(y, h) * w + nearest(x, w))
            * 4 + c],
{
    let width = (w + 2) * 4;
    let from = nearest(y, h);
    let row = bordered_row(data, w, from);
    lemma_row_in_image(w, h, from);
    lemma_row_in_image(w, h, 0);
    lemma_row_in_image(w, h, h - 1);
    lemma_bordered_rows_len(data, w, h, h);
    assert((w + 2) * (h + 2) * 4 == width + h * width + width) by (nonlinear_arith)
        requires
            width == (w + 2) * 4,
    ;
    assert((y * (w + 2) + x) * 4 + c == y * width + (x * 4 + c)) by (nonlinear_arith)
        requires
            width == (w + 2) * 4,
    ;
    let within = x * 4 + c;
    assert(0 <= within < width);
    assert(y * width + width <= (h + 1) * width + width && 0 <= y * width && (h + 1) * width
        == width + h * width) by (nonlinear_arith)
        requires
            0 <= y < h + 2,
            0 < width,
    ;
    lemma_bordered_row_len(data, w, h, from);
    lemma_bordered_row_len(data, w, h, 0);
    lemma_bordered_row_len(data, w, h, h - 1);
    let top = bordered_row(data, w, 0);
    let rows = bordered_rows(data, w, h);
    let bottom = bordered_row(data, w, h - 1);
    assert(bordered(data, w, h) == top + rows + bottom);
    assert(rows.len() == h * width);
    // The byte lies in the row of the image with its border that repeats row `from`.
    if y == 0 {
        assert(y * width == 0) by (nonlinear_arith)
            requires
                y == 0,
        ;
        assert((top + rows + bottom)[within] == top[within]);
    } else if y == h + 1 {
        assert((top + rows + bottom)[width + h * width + within] == bottom[within]);
    } else {
        lemma_bordered_rows_len(data, w, h, y - 1);
        lemma_bordered_rows_len(data, w, h, y);
        lemma_rows_prefix(data, w, h, y, h);
        assert((y - 1) * width + width == y * width) by (nonlinear_arith);
        assert(bordered_rows(data, w, y) == bordered_rows(data, w, y - 1) + row);
        assert(bordered_rows(data, w, y)[(y - 1) * width + within] == row[within]);
        assert(bordered_rows(data, w, y) == rows.subrange(0, y * width));
        assert(rows[(y - 1) * width + within] == row[within]);
        assert((y - 1) * width + width <= h * width) by (nonlinear_arith)
            requires
                1 <= y <= h,
                0 < width,
        ;
        assert((top + rows + bottom)[width + ((y - 1) * width + within)] == rows[(y - 1) * width
            + within]);
    }
    // And in that row it is the byte of the nearest pixel.
    let pixel = nearest(x, w);
    assert((from * w + pixel) * 4 + c == (from * w) * 4 + pixel * 4 + c) by (nonlinear_arith);
    assert((from * w + w - 1) * 4 == (from * w) * 4 + (w - 1) * 4) by (nonlinear_arith);
    assert((from * w + 1) * 4 == (from * w) * 4 + 4) by (nonlinear_arith);
    assert((from * w + 0) * 4 == (from * w) * 4) by (nonlinear_arith);
    assert(row[within] == data[(from * w) * 4 + pixel * 4 + c]);
}

/// The first rows of an image with their borders are the beginning of
/// more of its rows with their borders.
pub proof fn lemma_rows_prefix(data: Seq<u8>, w: int, h: int, n: int, more: int)
    requires
        0 < w,
        0 <= n <= more <= h,
        data.len() == w * h * 4,
    ensures
        bordered_rows(data, w, n).len() <= bordered_rows(data, w, more).len(),
        bordered_rows(data, w, more).subrange(0, bordered_rows(data, w, n).len() as int)
            == bordered_rows(data, w, n),
    decreases more,
{
    if n < more {
        lemma_rows_prefix(data, w, h, n, more - 1);
        let shorter = bordered_rows(data, w, more - 1);
        let first = bordered_rows(data, w, n);
        assert(bordered_rows(data, w, more).subrange(0, first.len() as int) =~= shorter.subrange(
            0,
            first.len() as int,
        ));
    } else {
        assert(bordered_rows(data, w, n).subrange(0, bordered_rows(data, w, n).len() as int)
            =~= bordered_rows(data, w, n));
    }
}

/// Appends the bytes `from` to `to` of `data`.
fn push_bytes(out: &mut Vec<u8>, data: &[u8], from: usize, to: usize)
    requires
        from <= to <= data@.len(),
    ensures
        final(out)@ == old(out)@ + data@.subrange(from as int, to as int),
{
    let mut i = from;
    while i < to
        invariant
            from <= i <= to <= data@.len(),
            out@ == old(out)@ + data@.subrange(from as int, i as int),
        decreases to - i,
    {
        out.push(data[i]);
        i += 1;
        assert(out@ =~= old(out)@ + data@.subrange(from as int, i as int));
    }
    assert(out@ =~= old(out)@ + data@.subrange(from as int, to as int));
}

/// Appends row `y` of an image with its border.
fn push_bordered_row(out: &mut Vec<u8>, data: &[u8], width: usize, height: usize, y: usize)
    requires
        0 < width <= PAGE_EXTENT,
        y < height <= PAGE_EXTENT,
        data@.len() == width * height * 4,
    ensures
        final(out)@ == old(out)@ + bordered_row(data@, width as int, y as int),
{
    proof {
        lemma_row_in_image(width as int, height as int, y as int);
        assert(y * width <= PAGE_EXTENT * PAGE_EXTENT) by (nonlinear_arith)
            requires
                0 <= y < PAGE_EXTENT,
                0 < width <= PAGE_EXTENT,
        ;
        assert((y * width + 1) * 4 == (y * width) * 4 + 4) by (nonlinear_arith);
        assert((y * width + 0) * 4 == (y * width) * 4) by (nonlinear_arith);
        assert((y * width + width - 1) * 4 == (y * width) * 4 + width * 4 - 4) by (nonlinear_arith);
    }
    let start = y * width * PIXEL_BYTES;
    let end = start + width * PIXEL_BYTES;
    push_bytes(out, data, start, start + PIXEL_BYTES);
    push_bytes(out, data, start, end);
    push_bytes(out, data, end - PIXEL_BYTES, end);
    assert(out@ =~= old(out)@ + bordered_row(data@, width as int, y as int));
}

/// Gives an image a border of one pixel that repeats its edges, so that
/// what lies next to the image on a page does not show at its edges. The
/// image is `width` by `height` pixels of four bytes, row after row. Gives
/// nothing for an image that cannot have a border and for data that is not
/// of the size of the image.
pub fn add_border(width: u32, height: u32, data: &[u8]) -> (image: Option<Vec<u8>>)
    ensures
        image is Some <==> can_have_border(width, height) && data@.len() == width * height * 4,
        image is Some ==> image->Some_0@ == bordered(data@, width as int, height as int),
{
    if width == 0 || height == 0 || width > 2046 || height > 2046 {
        return None;
    }
    let w = width as usize;
    let h = height as usize;
    assert(w * h <= 2046 * 2046) by (nonlinear_arith)
        requires
            0 < w <= 2046,
            0 < h <= 2046,
    ;
    if data.len() != w * h * PIXEL_BYTES {
        return None;
    }
    let mut out: Vec<u8> = Vec::new();
    push_bordered_row(&mut out, data, w, h, 0);
    let ghost first = out@;
    let mut y: usize = 0;
    while y < h
        invariant
            0 < w <= 2046,
            0 < h <= 2046,
            y <= h,
            data@.len() == w * h * 4,
            first == bordered_row(data@, w as int, 0),
            out@ == first + bordered_rows(data@, w as int, y as int),
        decreases h - y,
    {
        push_bordered_row(&mut out, data, w, h, y);
        y += 1;
        assert(out@ =~= first + bordered_rows(data@, w as int, y as int));
    }
    push_bordered_row(&mut out, data, w, h, h - 1);
    Some(out)
}

impl TextureAtlas {
    /// For each page the rectangles that are taken on it.
    pub closed spec fn pages(&self) -> Seq<Map<u32, (i32, i32, i32, i32)>> {
        Seq::new(self.atlases@.len(), |i: int| self.atlases@[i].taken())
    }

    /// Every page is consistent.
    pub closed spec fn wf(&self) -> bool {
        forall|i: int| 0 <= i < self.atlases@.len() ==> (#[trigger] self.atlases@[i]).wf()
    }

    /// On every page of a consistent atlas no two rectangles lie over each
    /// other, and none reaches beyond the page.
    pub proof fn lemma_regions_apart(&self, page: int, a: u32, b: u32)
        requires
            self.wf(),
            0 <= page < self.pages().len(),
            self.pages()[page].contains_key(a),
            self.pages()[page].contains_key(b),
            a != b,
        ensures
            apart(self.pages()[page][a], self.pages()[page][b]),
            inside(self.pages()[page][a], (PAGE_EXTENT, PAGE_EXTENT)),
    {
        self.atlases@[page].lemma_rectangles_apart(a, b);
    }

    /// An atlas without pages.
    pub fn new() -> (atlas: Self)
        ensures
            atlas.wf(),
            atlas.pages().len() == 0,
    {
        TextureAtlas { atlases: Vec::new() }
    }

    /// The number of pages.
    pub fn page_count(&self) -> (n: usize)
        ensures
            n == self.pages().len(),
    {
        self.atlases.len()
    }

    /// Looks for room of the given size: on the pages in the order in
    /// which they were opened, and, when none has room, on a new page.
    /// There is room for every size that is not empty and not larger than
    /// a page. For every other size the call gives nothing, and the atlas
    /// is then as it was.
    pub fn allocate_region(&mut self, requested_width: i32, requested_height: i32) -> (found: Option<
        AtlasAllocation,
    >)
        requires
            old(self).wf(),
        ensures
            final(self).wf(),
            found is Some <==> 0 < requested_width <= PAGE_EXTENT && 0 < requested_height
                <= PAGE_EXTENT,
            match found {
                None => final(self).pages() == old(self).pages(),
                Some(a) => {
                    &&& requested_width > 0 && requested_height > 0
                    &&& a.texture_coordinates.width == requested_width
                    &&& a.texture_coordinates.height == requested_height
                    &&& 0 <= a.texture_coordinates.x
                    &&& 0 <= a.texture_coordinates.y
                    &&& a.texture_coordinates.x + requested_width <= PAGE_EXTENT
                    &&& a.texture_coordinates.y + requested_height <= PAGE_EXTENT
                    &&& a.atlas <= old(self).pages().len()
                    &&& a.new_page == (a.atlas == old(self).pages().len())
                    &&& final(self).pages().len() == if a.new_page {
                        old(self).pages().len() + 1
                    } else {
                        old(self).pages().len()
                    }
                    &&& forall|i: int|
                        0 <= i < old(self).pages().len() && i != a.atlas ==> #[trigger] final(self).pages()[i] == old(self).pages()[i]
                    &&& a.new_page || !old(self).pages()[a.atlas as int].contains_key(a.allocation_id)
                    &&& final(self).pages()[a.atlas as int] == (if a.new_page {
                        nothing_taken()
                    } else {
                        old(self).pages()[a.atlas as int]
                    }).insert(a.allocation_id, region_rectangle(a.texture_coordinates))
                },
            },
    {
        let ghost before = self.pages();
        let mut i: usize = 0;
        while i < self.atlases.len()
            invariant
                self.wf(),
                i <= self.atlases.len(),
                self.pages() == before,
                before == old(self).pages(),
            decreases self.atlases.len() - i,
        {
            let ghost pages_before = self.atlases@;
            match self.atlases[i].allocate(requested_width, requested_height) {
                Some(p) => {
                    proof {
                        assert forall|k: int| 0 <= k < self.atlases@.len() implies (
                        #[trigger] self.atlases@[k]).wf() by {
                            if k != i {
                                assert(self.atlases@[k] == pages_before[k]);
                            }
                        }
                        assert forall|k: int|
                            0 <= k < before.len() && k != i implies #[trigger] self.pages()[k]
                            == before[k] by {
                            assert(self.atlases@[k] == pages_before[k]);
                        }
                        assert(before[i as int] == pages_before[i as int].taken());
                    }
                    return Some(
                        AtlasAllocation {
                            texture_coordinates: Region {
                                x: p.min_x,
                                y: p.min_y,
                                width: requested_width,
                                height: requested_height,
                            },
                            atlas: i,
                            new_page: false,
                            allocation_id: p.id,
                        },
                    );
                },
                None => {
                    proof {
                        assert forall|k: int| 0 <= k < self.atlases@.len() implies (
                        #[trigger] self.atlases@[k]).wf() by {
                            if k != i {
                                assert(self.atlases@[k] == pages_before[k]);
                            }
                        }
                        assert(self.pages() =~= before) by {
                            assert forall|k: int| 0 <= k < before.len() implies self.pages()[k]
                                == before[k] by {
                                if k != i {
                                    assert(self.atlases@[k] == pages_before[k]);
                                } else {
                                    assert(before[k] == pages_before[k].taken());
                                }
                            }
                        }
                    }
                },
            }
            i += 1;
        }
        let mut page = AtlasPage::new();
        match page.allocate(requested_width, requested_height) {
            Some(p) => {
                let ghost pages_before = self.atlases@;
                let count = self.atlases.len();
                self.atlases.push(page);
                proof {
                    assert forall|k: int| 0 <= k < self.atlases@.len() implies (
                    #[trigger] self.atlases@[k]).wf() by {
                        if k < count {
                            assert(self.atlases@[k] == pages_before[k]);
                        }
                    }
                    assert forall|k: int|
                        0 <= k < before.len() && k != count implies #[trigger] self.pages()[k]
                        == before[k] by {
                        assert(self.atlases@[k] == pages_before[k]);
                    }
                }
                Some(
                    AtlasAllocation {
                        texture_coordinates: Region {
                            x: p.min_x,
                            y: p.min_y,
                            width: requested_width,
                            height: requested_height,
                        },
                        atlas: count,
                        new_page: true,
                        allocation_id: p.id,
                    },
                )
            },
            None => None,
        }
    }

    /// Finds room for an image of `image_width` by `image_height` pixels
    /// and for a border of one pixel around it. Gives the room of the
    /// image itself, inside the border, and the image with its border,
    /// which belongs on the page one pixel above and to the left of that
    /// room. There is room for every image that can have a border and
    /// whose data is of the size of the image. For every other image the
    /// call gives nothing, and the atlas is then as it was. The room with
    /// its border lies on its page, on which nothing else has changed; the
    /// atlas has one page more when the page is new, and no other page has
    /// changed.
    pub fn allocate_image_in_atlas(&mut self, image_width: u32, image_height: u32, data: &[u8]) -> (found:
        Option<(AtlasAllocation, Vec<u8>)>)
        requires
            old(self).wf(),
        ensures
            final(self).wf(),
            found is Some <==> can_have_border(image_width, image_height) && data@.len()
                == image_width * image_height * 4,
            match found {
                None => final(self).pages() == old(self).pages(),
                Some((a, image)) => {
                    &&& image@ == bordered(data@, image_width as int, image_height as int)
                    &&& a.texture_coordinates.width == image_width
                    &&& a.texture_coordinates.height == image_height
                    &&& a.atlas <= old(self).pages().len()
                    &&& a.new_page == (a.atlas == old(self).pages().len())
                    &&& 1 <= a.texture_coordinates.x
                    &&& 1 <= a.texture_coordinates.y
                    &&& a.texture_coordinates.x + image_width + 1 <= PAGE_EXTENT
                    &&& a.texture_coordinates.y + image_height + 1 <= PAGE_EXTENT
                    &&& final(self).pages().len() == if a.new_page {
                        old(self).pages().len() + 1
                    } else {
                        old(self).pages().len()
                    }
                    &&& forall|i: int|
                        0 <= i < old(self).pages().len() && i != a.atlas ==> #[trigger] final(self).pages()[i] == old(self).pages()[i]
                    &&& a.new_page || !old(self).pages()[a.atlas as int].contains_key(a.allocation_id)
                    &&& final(self).pages()[a.atlas as int] == (if a.new_page {
                        nothing_taken()
                    } else {
                        old(self).pages()[a.atlas as int]
                    }).insert(a.allocation_id, with_border(a.texture_coordinates))
                },
            },
    {
        let image = match add_border(image_width, image_height, data) {
            Some(image) => image,
            None => {
                return None;
            },
        };
        let requested_width = (image_width + 2) as i32;
        let requested_height = (image_height + 2) as i32;
        match self.allocate_region(requested_width, requested_height) {
            Some(padded) => {
                let inner = AtlasAllocation {
                    texture_coordinates: Region {
                        x: padded.texture_coordinates.x + 1,
                        y: padded.texture_coordinates.y + 1,
                        width: padded.texture_coordinates.width - 2,
                        height: padded.texture_coordinates.height - 2,
                    },
                    atlas: padded.atlas,
                    new_page: padded.new_page,
                    allocation_id: padded.allocation_id,
                };
                Some((inner, image))
            },
            None => None,
        }
    }

    /// Gives room back. Says whether the atlas held it; an atlas that did
    /// not is as it was.
    pub fn release(&mut self, allocation: &AtlasAllocation) -> (held: bool)
        requires
            old(self).wf(),
        ensures
            final(self).wf(),
            final(self).pages().len() == old(self).pages().len(),
            held == (allocation.atlas < old(self).pages().len() && old(self).pages()[allocation.atlas as int].contains_key(allocation.allocation_id)),
            forall|i: int|
                0 <= i < old(self).pages().len() ==> #[trigger] final(self).pages()[i] == if i
                    == allocation.atlas {
                    old(self).pages()[i].remove(allocation.allocation_id)
                } else {
                    old(self).pages()[i]
                },
    {
        if allocation.atlas >= self.atlases.len() {
            return false;
        }
        let ghost pages_before = self.atlases@;
        let held = self.atlases[allocation.atlas].release(allocation.allocation_id);
        proof {
            assert forall|k: int| 0 <= k < self.atlases@.len() implies (#[trigger] self.atlases@[k]).wf() by {
                if k != allocation.atlas {
                    assert(self.atlases@[k] == pages_before[k]);
                }
            }
            assert forall|i: int| 0 <= i < old(self).pages().len() implies #[trigger] self.pages()[i]
                == if i == allocation.atlas {
                old(self).pages()[i].remove(allocation.allocation_id)
            } else {
                old(self).pages()[i]
            } by {
                if i != allocation.atlas {
                    assert(self.atlases@[i] == pages_before[i]);
                }
            }
        }
        held
    }
}

/// The rectangle that an image in the region takes with its border of one
/// pixel.
pub open spec fn with_border(r: Region) -> (i32, i32, i32, i32) {
    ((r.x - 1) as i32, (r.y - 1) as i32, (r.x + r.width + 1) as i32, (r.y + r.height + 1) as i32)
}

/// The rectangle of a region, from its smallest to its largest corner.
pub open spec fn region_rectangle(r: Region) -> (i32, i32, i32, i32) {
    (r.x, r.y, (r.x + r.width) as i32, (r.y + r.height) as i32)
}

} // verus!
