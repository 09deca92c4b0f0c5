//! Page arithmetic of a booklet: how many pages a booklet holds, how the
//! document is cut into booklets, and in which order the pages of one
//! booklet are printed so that the folded sheets read in sequence.
use vstd::prelude::*;
use crate::error::BookletError;

verus! {

/// The page count from which the booklet size is derived: the size asked
/// for, or the whole document when none (0) is asked for.
pub open spec fn requested_base(requested: int, page_count: int) -> int {
    if requested == 0 {
        page_count
    } else {
        requested
    }
}

/// `n` rounded up to the next multiple of four (a folded sheet carries four
/// pages).
pub open spec fn round_up_to_four(n: int) -> int {
    ((n + 3) / 4) * 4
}

/// Number of pages in each booklet: the requested size, or the whole
/// document when `requested` is 0, rounded up to a multiple of four.
/// Fails with `InvalidPagesPerBooklet` when that base is 0 or when rounding
/// it up does not fit in a `usize`.
pub fn pages_per_booklet(requested: usize, page_count: usize) -> (r: Result<usize, BookletError>)
    ensures
        r is Ok <==> ({
            let base = requested_base(requested as int, page_count as int);
            0 < base && base + 3 <= usize::MAX
        }),
        r matches Ok(n) ==> n == round_up_to_four(requested_base(requested as int, page_count as int)),
        r matches Err(e) ==> e == BookletError::InvalidPagesPerBooklet,
{
    let base = if requested == 0 {
        page_count
    } else {
        requested
    };
    if base == 0 || base > usize::MAX - 3 {
        return Err(BookletError::InvalidPagesPerBooklet);
    }
    Ok(((base + 3) / 4) * 4)
}

/// Number of booklets needed for `page_count` pages, `per` to a booklet.
pub open spec fn booklet_count_spec(page_count: int, per: int) -> int {
    (page_count + per - 1) / per
}

pub(crate) proof fn lemma_ceil_div(p: int, per: int)
    requires
        p >= 0,
        per > 0,
    ensures
        booklet_count_spec(p, per) == p / per + (if p % per == 0 { 0int } else { 1int }),
        booklet_count_spec(p, per) * per >= p,
        p > 0 ==> (booklet_count_spec(p, per) - 1) * per < p,
{
    let q = p / per;
    let r = p % per;
    assert(p == q * per + r && 0 <= r < per) by (nonlinear_arith)
        requires per > 0, q == p / per, r == p % per;
    let c = booklet_count_spec(p, per);
    if r == 0 {
        assert(c == q) by (nonlinear_arith)
            requires c == (p + per - 1) / per, p == q * per, per > 0;
    } else {
        assert(c == q + 1) by (nonlinear_arith)
            requires c == (p + per - 1) / per, p == q * per + r, 0 < r < per, per > 0;
    }
    assert(c * per >= p && (p > 0 ==> (c - 1) * per < p)) by (nonlinear_arith)
        requires p == q * per + r, 0 <= r < per, per > 0, c == q + (if r == 0 { 0int } else { 1int }), p >= 0;
}

/// Number of booklets needed for `page_count` pages, `per` to a booklet
/// (the last one may be partly filled).
pub fn booklet_count(page_count: usize, per: usize) -> (count: usize)
    requires
        per > 0,
    ensures
        count == booklet_count_spec(page_count as int, per as int),
{
    proof {
        lemma_ceil_div(page_count as int, per as int);
    }
    if page_count % per == 0 {
        page_count / per
    } else {
        assert(page_count / per < usize::MAX) by (nonlinear_arith)
            requires page_count % per != 0, per > 0, page_count <= usize::MAX;
        page_count / per + 1
    }
}

/// First page index of booklet `i`.
pub open spec fn booklet_start(per: int, i: int) -> int {
    i * per
}

/// One past the last page index of booklet `i`.
pub open spec fn booklet_end(page_count: int, per: int, i: int) -> int {
    if i * per + per <= page_count {
        i * per + per
    } else {
        page_count
    }
}

/// The range of page indices `[start, end)` that booklet `index` takes from
/// the document.
pub fn booklet_bounds(page_count: usize, per: usize, index: usize) -> (bounds: (usize, usize))
    requires
        per > 0,
        index < booklet_count_spec(page_count as int, per as int),
    ensures
        bounds.0 == booklet_start(per as int, index as int),
        bounds.1 == booklet_end(page_count as int, per as int, index as int),
        bounds.0 < bounds.1 <= page_count,
{
    proof {
        lemma_ceil_div(page_count as int, per as int);
        let c = booklet_count_spec(page_count as int, per as int);
        assert(page_count > 0) by (nonlinear_arith)
            requires c == (page_count + per - 1) / (per as int), index < c, per > 0, page_count >= 0;
        assert(index * per <= (c - 1) * per) by (nonlinear_arith)
            requires index <= c - 1, per > 0;
        assert(index * per < page_count);
    }
    let start = index * per;
    let end = if page_count - start >= per {
        start + per
    } else {
        page_count
    };
    (start, end)
}


/// Index in the booklet (0-based) of the page printed at output position `k`,
/// for a booklet of `n` pages. Output positions come in pairs: positions
/// `2j` and `2j + 1` are the left and right halves of one printed side.
/// Even-numbered sides are fronts, odd-numbered sides are backs.
/// A left-to-right front shows `[n - 1 - j, j]`, a back `[j, n - 1 - j]`;
/// right-to-left swaps the two halves of every side.
pub open spec fn booklet_source(n: int, rtl: bool, k: int) -> int {
    let j = k / 2;
    let outer_first = (j % 2 == 0) != rtl;
    if (k % 2 == 0) == outer_first {
        n - 1 - j
    } else {
        j
    }
}

/// Output position (0-based) at which page `i` of an `n`-page booklet is
/// printed; the inverse of `booklet_source`.
pub open spec fn booklet_position(n: int, rtl: bool, i: int) -> int {
    let outer = i >= n / 2;
    let j = if outer { n - 1 - i } else { i };
    let outer_first = (j % 2 == 0) != rtl;
    if outer == outer_first {
        2 * j
    } else {
        2 * j + 1
    }
}

/// The printed order of a booklet whose pages are `chunk`.
pub open spec fn booklet_order_spec<T>(chunk: Seq<T>, rtl: bool) -> Seq<T> {
    Seq::new(
        (2 * (chunk.len() / 2)) as nat,
        |k: int| chunk[booklet_source(chunk.len() as int, rtl, k)],
    )
}

/// Arranges the pages of one booklet in printing order: side `j` holds
/// pages `j` and `n - 1 - j`, fronts with the later page on the left and
/// backs with the earlier page on the left, mirrored when `rtl` is set.
pub fn booklet_order<T: Copy>(chunk: &Vec<T>, rtl: bool) -> (order: Vec<T>)
    ensures
        order@ == booklet_order_spec(chunk@, rtl),
{
    let n = chunk.len();
    let half = n / 2;
    let mut order: Vec<T> = Vec::new();
    let mut j: usize = 0;
    while j < half
        invariant
            n == chunk@.len(),
            half == n / 2,
            j <= half,
            order@.len() == 2 * j,
            forall|k: int| 0 <= k < 2 * j ==> order@[k] == chunk@[booklet_source(n as int, rtl, k)],
        decreases half - j,
    {
        let inner = chunk[j];
        let outer = chunk[n - 1 - j];
        if j % 2 == 0 {
            if rtl {
                order.push(inner);
                order.push(outer);
            } else {
                order.push(outer);
                order.push(inner);
            }
        } else {
            if rtl {
                order.push(outer);
                order.push(inner);
            } else {
                order.push(inner);
                order.push(outer);
            }
        }
        assert((2 * j) as int / 2 == j && (2 * j + 1) as int / 2 == j && (2 * j) as int % 2 == 0 && (2 * j + 1) as int % 2 == 1);
        j = j + 1;
    }
    assert(order@ =~= booklet_order_spec(chunk@, rtl));
    order
}

/// Every page of an even-sized booklet is printed exactly once: printing
/// position and page index are related one to one, `booklet_position` being
/// the inverse of `booklet_source`.
pub proof fn lemma_booklet_order_is_bijective(n: int, rtl: bool)
    requires
        n >= 0,
        n % 2 == 0,
    ensures
        forall|k: int|
            0 <= k < n ==> {
                let i = #[trigger] booklet_source(n, rtl, k);
                0 <= i < n && booklet_position(n, rtl, i) == k
            },
        forall|i: int|
            0 <= i < n ==> {
                let k = #[trigger] booklet_position(n, rtl, i);
                0 <= k < n && booklet_source(n, rtl, k) == i
            },
{
}

/// The printed order of an even-sized booklet holds each page of the booklet
/// once: it is as long as the booklet and page `i` stands at
/// `booklet_position(n, rtl, i)`.
pub proof fn lemma_booklet_order_places_every_page<T>(chunk: Seq<T>, rtl: bool)
    requires
        chunk.len() % 2 == 0,
    ensures
        booklet_order_spec(chunk, rtl).len() == chunk.len(),
        forall|i: int|
            0 <= i < chunk.len() ==> booklet_order_spec(chunk, rtl)[#[trigger] booklet_position(
                chunk.len() as int,
                rtl,
                i,
            )] == chunk[i],
{
    lemma_booklet_order_is_bijective(chunk.len() as int, rtl);
}

/// The two pages on one printed side are mirror images in the booklet:
/// their indices add up to `n - 1`, so that folding puts them on the same
/// leaf-pair.
pub proof fn lemma_side_pages_mirror(n: int, rtl: bool, j: int)
    requires
        0 <= j < n / 2,
    ensures
        booklet_source(n, rtl, 2 * j) + booklet_source(n, rtl, 2 * j + 1) == n - 1,
        booklet_source(n, rtl, 2 * j) == j || booklet_source(n, rtl, 2 * j + 1) == j,
{
}

/// Right-to-left printing is left-to-right printing with the two halves of
/// every side exchanged.
pub proof fn lemma_rtl_swaps_halves(n: int, j: int)
    requires
        0 <= j,
    ensures
        booklet_source(n, true, 2 * j) == booklet_source(n, false, 2 * j + 1),
        booklet_source(n, true, 2 * j + 1) == booklet_source(n, false, 2 * j),
{
}

/// A front side and the back printed after it hold consecutive page pairs:
/// front `2t` holds pages `2t` and `n - 1 - 2t`, its back holds pages
/// `2t + 1` and `n - 2 - 2t`, so the sheet carries four pages that sit next
/// to each other once the stack of sheets is folded.
pub proof fn lemma_sheet_carries_adjacent_pages(n: int, rtl: bool, t: int)
    requires
        0 <= t,
    ensures
        ({
            let front = set![booklet_source(n, rtl, 4 * t), booklet_source(n, rtl, 4 * t + 1)];
            let back = set![booklet_source(n, rtl, 4 * t + 2), booklet_source(n, rtl, 4 * t + 3)];
            &&& front == set![2 * t, n - 1 - 2 * t]
            &&& back == set![2 * t + 1, n - 2 - 2 * t]
        }),
{
    assert((4 * t) / 2 == 2 * t && (4 * t + 1) / 2 == 2 * t);
    assert((4 * t + 2) / 2 == 2 * t + 1 && (4 * t + 3) / 2 == 2 * t + 1);
    let front = set![booklet_source(n, rtl, 4 * t), booklet_source(n, rtl, 4 * t + 1)];
    let back = set![booklet_source(n, rtl, 4 * t + 2), booklet_source(n, rtl, 4 * t + 3)];
    assert(front =~= set![2 * t, n - 1 - 2 * t]);
    assert(back =~= set![2 * t + 1, n - 2 - 2 * t]);
}

/// The first `2 * m` printed pages are the first `m` and the last `m` pages
/// of the booklet.
proof fn lemma_booklet_prefix_multiset<T>(chunk: Seq<T>, rtl: bool, m: int)
    requires
        0 <= m <= chunk.len() / 2,
    ensures
        booklet_order_spec(chunk, rtl).take(2 * m).to_multiset() == (chunk.take(m) + chunk.skip(
            chunk.len() - m,
        )).to_multiset(),
    decreases m,
{
    broadcast use vstd::seq_lib::group_to_multiset_ensures, vstd::multiset::group_multiset_axioms;

    let n = chunk.len() as int;
    let order = booklet_order_spec(chunk, rtl);
    if m == 0 {
        assert(order.take(0) =~= Seq::<T>::empty());
        assert(chunk.take(0) + chunk.skip(n) =~= Seq::<T>::empty());
    } else {
        let p = m - 1;
        lemma_booklet_prefix_multiset(chunk, rtl, p);
        assert((2 * p) / 2 == p && (2 * p + 1) / 2 == p);
        assert((2 * p) % 2 == 0 && (2 * p + 1) % 2 == 1);
        let a = order[2 * p];
        let b = order[2 * p + 1];
        assert(order.take(2 * m) =~= order.take(2 * p).push(a).push(b));
        assert(chunk.take(m) =~= chunk.take(p).push(chunk[p]));
        assert(chunk.skip(n - p - 1) =~= seq![chunk[n - 1 - p]] + chunk.skip(n - p));
        vstd::seq_lib::lemma_multiset_commutative(chunk.take(m), chunk.skip(n - m));
        vstd::seq_lib::lemma_multiset_commutative(chunk.take(p), chunk.skip(n - p));
        vstd::seq_lib::lemma_multiset_commutative(seq![chunk[n - 1 - p]], chunk.skip(n - p));
        assert(seq![chunk[n - 1 - p]].to_multiset() =~= vstd::multiset::Multiset::empty().insert(chunk[n - 1 - p])) by {
            assert(seq![chunk[n - 1 - p]] =~= Seq::<T>::empty().push(chunk[n - 1 - p]));
        }
        assert(order.take(2 * m).to_multiset() =~= (chunk.take(m) + chunk.skip(n - m)).to_multiset());
    }
}

/// The printed order of an even-sized booklet is a rearrangement of its
/// pages: each page occurs in it as often as in the booklet.
pub proof fn lemma_booklet_order_is_permutation<T>(chunk: Seq<T>, rtl: bool)
    requires
        chunk.len() % 2 == 0,
    ensures
        booklet_order_spec(chunk, rtl).to_multiset() == chunk.to_multiset(),
{
    let n = chunk.len() as int;
    lemma_booklet_prefix_multiset(chunk, rtl, n / 2);
    assert(booklet_order_spec(chunk, rtl).take(2 * (n / 2)) =~= booklet_order_spec(chunk, rtl));
    assert(chunk.take(n / 2) + chunk.skip(n - n / 2) =~= chunk);
}

/// The booklet size is the smallest multiple of four that is at least the
/// base it was derived from.
pub proof fn lemma_round_up_to_four(n: int)
    requires
        n >= 0,
    ensures
        round_up_to_four(n) % 4 == 0,
        n <= round_up_to_four(n) < n + 4,
{
}

/// The booklet size is the smallest multiple of four that holds the
/// requested number of pages, whatever the document's page count; with no
/// request (0), the smallest that holds the whole document.
pub proof fn lemma_booklet_size_holds_request(requested: int, page_count: int)
    requires
        requested >= 0,
        page_count >= 0,
    ensures
        ({
            let size = round_up_to_four(requested_base(requested, page_count));
            let wanted = if requested > 0 { requested } else { page_count };
            &&& size % 4 == 0
            &&& wanted <= size < wanted + 4
        }),
{
    lemma_round_up_to_four(requested_base(requested, page_count));
}

/// Booklets cut the document into consecutive, non-empty ranges that start at
/// page 0 and end at the last page; every booklet but the last is full.
pub proof fn lemma_booklets_partition_pages(page_count: int, per: int)
    requires
        page_count > 0,
        per > 0,
    ensures
        booklet_count_spec(page_count, per) >= 1,
        booklet_start(per, 0) == 0,
        booklet_end(page_count, per, booklet_count_spec(page_count, per) - 1) == page_count,
        forall|i: int|
            0 <= i < booklet_count_spec(page_count, per) ==> booklet_start(per, i) < #[trigger] booklet_end(
                page_count,
                per,
                i,
            ),
        forall|i: int|
            0 <= i < booklet_count_spec(page_count, per) - 1 ==> #[trigger] booklet_end(page_count, per, i)
                == booklet_start(per, i + 1) && booklet_end(page_count, per, i) - booklet_start(per, i)
                == per,
{
    lemma_ceil_div(page_count, per);
    let c = booklet_count_spec(page_count, per);
    assert(c >= 1) by (nonlinear_arith)
        requires c * per >= page_count, page_count > 0, per > 0;
    assert forall|i: int| 0 <= i < c implies booklet_start(per, i) < #[trigger] booklet_end(page_count, per, i) by {
        assert(i * per <= (c - 1) * per) by (nonlinear_arith)
            requires i <= c - 1, per > 0;
    }
    assert forall|i: int| 0 <= i < c - 1 implies #[trigger] booklet_end(page_count, per, i)
        == booklet_start(per, i + 1) && booklet_end(page_count, per, i) - booklet_start(per, i) == per by {
        assert(i * per + per <= (c - 1) * per) by (nonlinear_arith)
            requires i <= c - 2, per > 0;
        assert((i + 1) * per == i * per + per) by (nonlinear_arith);
    }
    assert((c - 1) * per + per >= page_count) by (nonlinear_arith)
        requires c * per >= page_count;
    if (c - 1) * per + per <= page_count {
    }
}

/// `pages` after one blank page is added: just before the last page when
/// `before_last` is set (and there is a last page), at the end otherwise.
pub open spec fn with_blank_placed<T>(pages: Seq<T>, blank: T, before_last: bool) -> Seq<T> {
    if before_last && pages.len() > 0 {
        pages.drop_last().push(blank).push(pages.last())
    } else {
        pages.push(blank)
    }
}

/// A booklet's pages `chunk` filled up with the blank pages `blanks`, in the
/// order they were added: before the last page when `before_last` is set,
/// after the last page otherwise.
pub open spec fn padded_pages<T>(chunk: Seq<T>, blanks: Seq<T>, before_last: bool) -> Seq<T> {
    if before_last && chunk.len() > 0 {
        chunk.drop_last() + blanks + seq![chunk.last()]
    } else {
        chunk + blanks
    }
}

/// Adds one blank page to a booklet that is not full yet: just before its
/// last page when `before_last` is set and the booklet has pages, at its end
/// otherwise.
pub fn place_blank<T>(pages: &mut Vec<T>, blank: T, before_last: bool)
    ensures
        final(pages)@ == with_blank_placed(old(pages)@, blank, before_last),
{
    if before_last && pages.len() > 0 {
        let last = pages.len() - 1;
        pages.insert(last, blank);
        assert(pages@ =~= with_blank_placed(old(pages)@, blank, before_last));
    } else {
        pages.push(blank);
    }
}

/// Adding blanks one at a time to a booklet that has pages, each where
/// `place_blank` puts it, gives the padded booklet.
pub proof fn lemma_padding_step<T>(chunk: Seq<T>, blanks: Seq<T>, blank: T, before_last: bool)
    requires
        chunk.len() > 0,
    ensures
        with_blank_placed(padded_pages(chunk, blanks, before_last), blank, before_last) == padded_pages(
            chunk,
            blanks.push(blank),
            before_last,
        ),
{
    if before_last && chunk.len() > 0 {
        let p = padded_pages(chunk, blanks, before_last);
        assert(p.drop_last() =~= chunk.drop_last() + blanks);
        assert(with_blank_placed(p, blank, before_last) =~= padded_pages(chunk, blanks.push(blank), before_last));
    } else {
        assert(with_blank_placed(padded_pages(chunk, blanks, before_last), blank, before_last) =~= padded_pages(
            chunk,
            blanks.push(blank),
            before_last,
        ));
    }
}

/// Padding keeps every page of the booklet and adds exactly the blanks: the
/// pages keep their order, and with `before_last` the booklet's last page
/// stays last, so that it ends up on the back cover.
pub proof fn lemma_padding_keeps_pages<T>(chunk: Seq<T>, blanks: Seq<T>, before_last: bool)
    ensures
        padded_pages(chunk, blanks, before_last).len() == chunk.len() + blanks.len(),
        padded_pages(chunk, blanks, before_last).to_multiset() == chunk.to_multiset().add(
            blanks.to_multiset(),
        ),
        before_last && chunk.len() > 0 ==> padded_pages(chunk, blanks, before_last).last() == chunk.last()
            && padded_pages(chunk, blanks, before_last).take(chunk.len() - 1) == chunk.drop_last(),
        !before_last ==> padded_pages(chunk, blanks, before_last).take(chunk.len() as int) == chunk,
{
    broadcast use vstd::seq_lib::group_to_multiset_ensures, vstd::multiset::group_multiset_axioms;

    let p = padded_pages(chunk, blanks, before_last);
    if before_last && chunk.len() > 0 {
        let last = seq![chunk.last()];
        vstd::seq_lib::lemma_multiset_commutative(chunk.drop_last() + blanks, last);
        vstd::seq_lib::lemma_multiset_commutative(chunk.drop_last(), blanks);
        vstd::seq_lib::lemma_multiset_commutative(chunk.drop_last(), last);
        assert(chunk =~= chunk.drop_last() + last);
        assert(p.take(chunk.len() - 1) =~= chunk.drop_last());
        assert(p.to_multiset() =~= chunk.to_multiset().add(blanks.to_multiset()));
    } else {
        vstd::seq_lib::lemma_multiset_commutative(chunk, blanks);
        assert(p.take(chunk.len() as int) =~= chunk);
    }
}

/// The front cover (right half of the first side) shows the booklet's first
/// page and the back cover (left half) its last page when printing
/// left-to-right; right-to-left puts them the other way round.
pub proof fn lemma_covers(n: int)
    requires
        n >= 2,
    ensures
        booklet_source(n, false, 0) == n - 1,
        booklet_source(n, false, 1) == 0,
        booklet_source(n, true, 0) == 0,
        booklet_source(n, true, 1) == n - 1,
{
}

} // verus!
