use vstd::prelude::*;

use crate::geometry::{
    aligned, aligned_by, closer_by, closer_dir, dot, dot_of, half_of, lemma_closer_chain,
    lemma_sq_len_positive, offset, offset_of, reaches, reaches_by, same_dir, sq_len, sq_len_of,
    Point, Rect, Vec2, OFFSET_LIMIT, PRODUCT_LIMIT,
};
use crate::style::Style;

verus! {

/// One entry of a menu: its label, where it was last drawn (in screen
/// coordinates) and what choosing it does.
pub struct Item<A> {
    pub label: String,
    pub position: Point,
    pub action: A,
}

impl<A> Item<A> {
    /// An item that has not been drawn yet: its position is the origin.
    pub fn new(label: String, action: A) -> (r: Self)
        ensures
            r.label@ == label@,
            r.position == (Point { x: 0, y: 0 }),
            r.action == action,
    {
        Item { label, position: Point { x: 0, y: 0 }, action }
    }
}

/// A radial menu. `position` is the point it was opened at, `None` while it
/// is closed.
pub struct PieMenu<A> {
    pub position: Option<Point>,
    pub max_width: i32,
    pub max_height: i32,
    pub items: Vec<Item<A>>,
    pub item_style: Style,
    pub trigger_distance: u32,
}

/// A qualifying item, with its dot product against the cursor direction
/// and its own squared distance from the center.
struct Candidate {
    index: usize,
    dot: i64,
    sq: i64,
}

impl<A> PieMenu<A> {
    /// The center of the open menu.
    pub open spec fn center(self) -> Point {
        self.position.unwrap()
    }

    /// The direction from the center to item `i`.
    pub open spec fn item_dir(self, i: int) -> Vec2 {
        offset(self.center(), self.items@[i].position)
    }

    /// Item `i` lies within about 18 degrees of the cursor's direction, and
    /// the cursor is farther than the trigger distance from the center.
    pub open spec fn qualifies(self, cursor: Point, i: int) -> bool {
        let c = offset(self.center(), cursor);
        aligned(c, self.item_dir(i)) && reaches(c, self.trigger_distance as int)
    }

    /// Item `i` comes before item `j`: its direction is closer to the
    /// cursor's, or equally close and `i` is earlier in the list.
    pub open spec fn ranks_before(self, cursor: Point, i: int, j: int) -> bool {
        let c = offset(self.center(), cursor);
        closer_dir(c, self.item_dir(i), self.item_dir(j)) || (same_dir(
            c,
            self.item_dir(i),
            self.item_dir(j),
        ) && i < j)
    }

    /// The menu is open and the center, the cursor and every item lie within
    /// `COORD_LIMIT` of the origin.
    pub open spec fn can_select(self, cursor: Point) -> bool {
        &&& self.position is Some
        &&& self.center().in_range_spec()
        &&& cursor.in_range_spec()
        &&& forall|i: int| 0 <= i < self.items@.len() ==> (#[trigger] self.items@[i]).position.in_range_spec()
    }

    /// `r` lists exactly the qualifying items, best first.
    pub open spec fn is_ranking(self, cursor: Point, r: Seq<usize>) -> bool {
        &&& forall|k: int| 0 <= k < r.len() ==> r[k] < self.items@.len() && self.qualifies(cursor, r[k] as int)
        &&& forall|i: usize| i < self.items@.len() && self.qualifies(cursor, i as int) ==> r.contains(i)
        &&& forall|k: int, l: int| 0 <= k < l < r.len() ==> self.ranks_before(cursor, r[k] as int, r[l] as int)
    }

    spec fn candidate_ok(self, cursor: Point, cand: Candidate) -> bool {
        let c = offset(self.center(), cursor);
        &&& cand.index < self.items@.len()
        &&& self.qualifies(cursor, cand.index as int)
        &&& cand.dot == dot(c, self.item_dir(cand.index as int))
        &&& cand.sq == sq_len(self.item_dir(cand.index as int))
        &&& 0 < cand.dot <= PRODUCT_LIMIT
        &&& 0 < cand.sq <= PRODUCT_LIMIT
    }

    /// The items that the cursor selects, as indices into `items`, best
    /// first: those that `qualifies` admits, ordered by `ranks_before`.
    pub fn sorted_items_from_mouse(&self, cursor: Point) -> (r: Vec<usize>)
        requires
            self.can_select(cursor),
        ensures
            self.is_ranking(cursor, r@),
    {
        let center = self.position.unwrap();
        let c = offset_of(center, cursor);
        let sq_c = sq_len_of(c);
        let far = reaches_by(sq_c, self.trigger_distance);
        let ghost cv: Vec2 = offset(center, cursor);
        assert(cv == (c[0] as int, c[1] as int));
        let mut cands: Vec<Candidate> = Vec::new();
        let n = self.items.len();
        let mut i: usize = 0;
        while i < n
            invariant
                n == self.items@.len(),
                i <= n,
                self.can_select(cursor),
                center == self.center(),
                cv == offset(center, cursor),
                cv == (c[0] as int, c[1] as int),
                sq_c == sq_len(cv),
                0 <= sq_c <= PRODUCT_LIMIT,
                far == reaches(cv, self.trigger_distance as int),
                -OFFSET_LIMIT <= c[0] <= OFFSET_LIMIT,
                -OFFSET_LIMIT <= c[1] <= OFFSET_LIMIT,
                forall|k: int| 0 <= k < cands@.len() ==> self.candidate_ok(cursor, #[trigger] cands@[k]) && cands@[k].index < i,
                forall|j: int| 0 <= j < i && self.qualifies(cursor, j) ==> exists|k: int| 0 <= k < cands@.len() && #[trigger] cands@[k].index == j,
                forall|k: int, l: int| 0 <= k < l < cands@.len() ==> self.ranks_before(cursor, #[trigger] cands@[k].index as int, #[trigger] cands@[l].index as int),
            decreases n - i,
        {
            let p = offset_of(center, self.items[i].position);
            let ghost pv: Vec2 = offset(center, self.items@[i as int].position);
            assert(pv == (p[0] as int, p[1] as int));
            let d = dot_of(c, p);
            let s = sq_len_of(p);
            if far && aligned_by(d, sq_c, s) {
                proof {
                    lemma_sq_len_positive(cv, pv);
                }
                let cand = Candidate { index: i, dot: d, sq: s };
                assert(self.candidate_ok(cursor, cand));
                let mut pos = cands.len();
                while pos > 0 && closer_by(d, s, cands[pos - 1].dot, cands[pos - 1].sq)
                    invariant
                        pos <= cands@.len(),
                        d == dot(cv, pv),
                        s == sq_len(pv),
                        0 < d <= PRODUCT_LIMIT,
                        0 < s <= PRODUCT_LIMIT,
                        cv == offset(self.center(), cursor),
                        pv == self.item_dir(i as int),
                        forall|k: int| 0 <= k < cands@.len() ==> self.candidate_ok(cursor, #[trigger] cands@[k]),
                        forall|k: int| pos <= k < cands@.len() ==> closer_dir(cv, pv, self.item_dir(#[trigger] cands@[k].index as int)),
                    decreases pos,
                {
                    pos -= 1;
                }
                let ghost before = cands@;
                proof {
                    assert forall|k: int| 0 <= k < pos implies !closer_dir(cv, pv, self.item_dir(#[trigger] before[k].index as int)) by {
                        let last = before[pos - 1];
                        assert(self.candidate_ok(cursor, before[k]));
                        assert(self.candidate_ok(cursor, last));
                        if k < pos - 1 {
                            assert(self.ranks_before(cursor, before[k].index as int, last.index as int));
                            if closer_dir(cv, pv, self.item_dir(before[k].index as int)) {
                                lemma_closer_chain(
                                    cv,
                                    pv,
                                    self.item_dir(before[k].index as int),
                                    self.item_dir(last.index as int),
                                );
                            }
                        }
                    }
                    before.insert_ensures(pos as int, cand);
                }
                cands.insert(pos, cand);
                proof {
                    let after = cands@;
                    assert forall|k: int| 0 <= k < after.len() implies self.candidate_ok(cursor, #[trigger] after[k]) && after[k].index < i + 1 by {
                        if k < pos {
                            assert(after[k] == before[k]);
                        } else if k > pos {
                            assert(after[k] == before[k - 1]);
                        }
                    }
                    assert forall|j: int| 0 <= j < i + 1 && self.qualifies(cursor, j) implies exists|k: int| 0 <= k < after.len() && #[trigger] after[k].index == j by {
                        if j == i {
                            assert(after[pos as int].index == j);
                        } else {
                            let k0 = choose|k: int| 0 <= k < before.len() && #[trigger] before[k].index == j;
                            if k0 < pos {
                                assert(after[k0].index == j);
                            } else {
                                assert(after[k0 + 1].index == j);
                            }
                        }
                    }
                    assert forall|k: int, l: int| 0 <= k < l < after.len() implies self.ranks_before(cursor, #[trigger] after[k].index as int, #[trigger] after[l].index as int) by {
                        let a = if k < pos { k } else { k - 1 };
                        let b = if l <= pos { l } else { l - 1 };
                        if k == pos {
                            assert(after[l] == before[b]);
                            assert(closer_dir(cv, pv, self.item_dir(before[b].index as int)));
                        } else if l == pos {
                            assert(after[k] == before[a]);
                            assert(!closer_dir(cv, pv, self.item_dir(before[a].index as int)));
                            assert(self.candidate_ok(cursor, before[a]));
                        } else {
                            assert(after[k] == before[a]);
                            assert(after[l] == before[b]);
                            assert(a < b);
                        }
                    }
                }
            }
            i += 1;
        }
        let mut r: Vec<usize> = Vec::new();
        let mut k: usize = 0;
        while k < cands.len()
            invariant
                k <= cands@.len(),
                r@.len() == k,
                forall|m: int| 0 <= m < k ==> r@[m] == #[trigger] cands@[m].index,
                forall|m: int| 0 <= m < cands@.len() ==> self.candidate_ok(cursor, #[trigger] cands@[m]),
                forall|j: int| 0 <= j < n && self.qualifies(cursor, j) ==> exists|m: int| 0 <= m < cands@.len() && #[trigger] cands@[m].index == j,
                forall|m: int, l: int| 0 <= m < l < cands@.len() ==> self.ranks_before(cursor, #[trigger] cands@[m].index as int, #[trigger] cands@[l].index as int),
                n == self.items@.len(),
            decreases cands@.len() - k,
        {
            r.push(cands[k].index);
            k += 1;
        }
        proof {
            assert forall|m: int| 0 <= m < r@.len() implies r@[m] < self.items@.len() && self.qualifies(cursor, r@[m] as int) by {
                assert(self.candidate_ok(cursor, cands@[m]));
            }
            assert forall|j: usize| j < self.items@.len() && self.qualifies(cursor, j as int) implies r@.contains(j) by {
                let k0 = choose|k: int| 0 <= k < cands@.len() && #[trigger] cands@[k].index == j;
                assert(r@[k0] == j);
            }
            assert forall|m: int, l: int| 0 <= m < l < r@.len() implies self.ranks_before(cursor, r@[m] as int, r@[l] as int) by {
                assert(r@[m] == cands@[m].index);
                assert(r@[l] == cands@[l].index);
            }
        }
        r
    }

    /// `self` and `other` differ at most in `position`.
    pub open spec fn same_but_position(self, other: Self) -> bool {
        &&& self.max_width == other.max_width
        &&& self.max_height == other.max_height
        &&& self.items@ == other.items@
        &&& self.item_style == other.item_style
        &&& self.trigger_distance == other.trigger_distance
    }

    /// A closed menu over `items`.
    pub fn create(
        items: Vec<Item<A>>,
        item_style: Style,
        trigger_distance: u32,
        max_width: i32,
        max_height: i32,
    ) -> (r: Self)
        ensures
            r.position is None,
            r.items@ == items@,
            r.item_style == item_style,
            r.trigger_distance == trigger_distance,
            r.max_width == max_width,
            r.max_height == max_height,
    {
        PieMenu { position: None, max_width, max_height, items, item_style, trigger_distance }
    }

    /// The top-left corner of the menu's window when it is centered on `at`.
    pub open spec fn window_origin(self, at: Point) -> (int, int) {
        (at.x - half_of(self.max_width as int), at.y - half_of(self.max_height as int))
    }

    /// Opens the menu at the cursor position `cursor`; returns where the
    /// top-left corner of its window goes.
    pub fn show(&mut self, cursor: Point) -> (r: Point)
        requires
            i32::MIN <= old(self).window_origin(cursor).0,
            i32::MIN <= old(self).window_origin(cursor).1,
            old(self).window_origin(cursor).0 <= i32::MAX,
            old(self).window_origin(cursor).1 <= i32::MAX,
        ensures
            final(self).position == Some(cursor),
            final(self).same_but_position(*old(self)),
            r.x == old(self).window_origin(cursor).0,
            r.y == old(self).window_origin(cursor).1,
    {
        self.position = Some(cursor);
        Point { x: cursor.x - self.max_width / 2, y: cursor.y - self.max_height / 2 }
    }

    /// Closes the menu; returns whether it was open, that is whether a
    /// window and a mouse hook are to be torn down.
    pub fn close(&mut self) -> (r: bool)
        ensures
            r == old(self).position is Some,
            final(self).position is None,
            final(self).same_but_position(*old(self)),
    {
        let was_open = self.position.is_some();
        self.position = None;
        was_open
    }

    /// Handles a move of the cursor to `cursor`. While the menu is open and
    /// some item qualifies, the best of them is chosen: its index is returned
    /// and the menu closes, so that its action runs once. Otherwise nothing
    /// changes.
    pub fn on_mouse_move(&mut self, cursor: Point) -> (r: Option<usize>)
        requires
            old(self).position is Some ==> old(self).can_select(cursor),
        ensures
            final(self).same_but_position(*old(self)),
            r is Some <==> (old(self).position is Some && exists|i: usize|
                i < old(self).items@.len() && old(self).qualifies(cursor, i as int)),
            r is None ==> final(self).position == old(self).position,
            r matches Some(i) ==> {
                &&& i < old(self).items@.len()
                &&& old(self).qualifies(cursor, i as int)
                &&& forall|j: usize|
                    j < old(self).items@.len() && j != i && old(self).qualifies(cursor, j as int)
                        ==> old(self).ranks_before(cursor, i as int, j as int)
                &&& final(self).position is None
            },
    {
        if self.position.is_none() {
            return None;
        }
        let ranked = self.sorted_items_from_mouse(cursor);
        if ranked.len() == 0 {
            proof {
                assert forall|i: usize| i < self.items@.len() implies !self.qualifies(cursor, i as int) by {
                    if self.qualifies(cursor, i as int) {
                        assert(ranked@.contains(i));
                    }
                }
            }
            None
        } else {
            let best = ranked[0];
            proof {
                assert(best == ranked@[0]);
                assert forall|j: usize|
                    j < self.items@.len() && j != best && self.qualifies(cursor, j as int)
                        implies self.ranks_before(cursor, best as int, j as int) by {
                    assert(ranked@.contains(j));
                    let l = choose|l: int| 0 <= l < ranked@.len() && ranked@[l] == j;
                    assert(l != 0);
                    assert(self.ranks_before(cursor, ranked@[0] as int, ranked@[l] as int));
                }
            }
            self.close();
            Some(best)
        }
    }

    /// The radius of the circle that the items are drawn on: the item width
    /// plus four pixels of padding per item.
    pub fn ring_radius(&self) -> (r: i32)
        requires
            4 * self.items@.len() <= i32::MAX,
            self.item_style.width + 4 * self.items@.len() <= i32::MAX,
        ensures
            r == self.item_style.width + 4 * self.items@.len(),
    {
        let padding = 4 * (self.items.len() as i32);
        self.item_style.width + padding
    }

    /// The rectangle of an item drawn centered on `at` (client coordinates).
    pub open spec fn item_rect_spec(self, at: Point) -> (int, int, int, int) {
        let hw = half_of(self.item_style.width as int);
        let hh = half_of(self.item_style.height as int);
        (at.x - hw, at.y - hh, at.x + hw, at.y + hh)
    }

    pub fn item_rect(&self, at: Point) -> (r: Rect)
        requires
            i32::MIN <= self.item_rect_spec(at).0,
            i32::MIN <= self.item_rect_spec(at).1,
            self.item_rect_spec(at).2 <= i32::MAX,
            self.item_rect_spec(at).3 <= i32::MAX,
            i32::MIN <= self.item_rect_spec(at).2,
            i32::MIN <= self.item_rect_spec(at).3,
            self.item_rect_spec(at).0 <= i32::MAX,
            self.item_rect_spec(at).1 <= i32::MAX,
        ensures
            (r.left as int, r.top as int, r.right as int, r.bottom as int) == self.item_rect_spec(at),
    {
        let hw = self.item_style.width / 2;
        let hh = self.item_style.height / 2;
        Rect { left: at.x - hw, top: at.y - hh, right: at.x + hw, bottom: at.y + hh }
    }

    /// Records that item `i` was drawn at `at` (screen coordinates).
    pub fn place_item(&mut self, i: usize, at: Point)
        requires
            i < old(self).items@.len(),
        ensures
            final(self).position == old(self).position,
            final(self).max_width == old(self).max_width,
            final(self).max_height == old(self).max_height,
            final(self).item_style == old(self).item_style,
            final(self).trigger_distance == old(self).trigger_distance,
            final(self).items@.len() == old(self).items@.len(),
            final(self).items@[i as int].position == at,
            final(self).items@[i as int].label@ == old(self).items@[i as int].label@,
            final(self).items@[i as int].action == old(self).items@[i as int].action,
            forall|j: int| 0 <= j < old(self).items@.len() && j != i ==> final(self).items@[j] == old(self).items@[j],
    {
        self.items[i].position = at;
    }
}

/// The center of a client area: half its width and half its height.
pub fn client_center(client: Rect) -> (r: Point)
    requires
        i32::MIN <= client.right - client.left <= i32::MAX,
        i32::MIN <= client.bottom - client.top <= i32::MAX,
    ensures
        r.x == half_of(client.right - client.left),
        r.y == half_of(client.bottom - client.top),
{
    Point { x: (client.right - client.left) / 2, y: (client.bottom - client.top) / 2 }
}

/// `s` is ordered by `ranks_before`.
pub open spec fn in_rank_order<A>(m: PieMenu<A>, cursor: Point, s: Seq<usize>) -> bool {
    forall|k: int, l: int| 0 <= k < l < s.len() ==> m.ranks_before(cursor, s[k] as int, s[l] as int)
}

proof fn lemma_rank_order_unique<A>(m: PieMenu<A>, cursor: Point, s1: Seq<usize>, s2: Seq<usize>)
    requires
        in_rank_order(m, cursor, s1),
        in_rank_order(m, cursor, s2),
        forall|x: usize| s1.contains(x) <==> s2.contains(x),
    ensures
        s1 == s2,
    decreases s1.len(),
{
    if s1.len() == 0 {
        if s2.len() > 0 {
            assert(s2.contains(s2[0]));
        }
        assert(s1 =~= s2);
    } else {
        assert(s1.contains(s1[0]));
        assert(s2.len() > 0);
        let h1 = s1[0];
        let h2 = s2[0];
        assert(s2.contains(h2));
        let l = choose|l: int| 0 <= l < s2.len() && s2[l] == h1;
        let k = choose|k: int| 0 <= k < s1.len() && s1[k] == h2;
        if h1 != h2 {
            assert(m.ranks_before(cursor, s2[0] as int, s2[l] as int));
            assert(m.ranks_before(cursor, s1[0] as int, s1[k] as int));
        }
        let t1 = s1.drop_first();
        let t2 = s2.drop_first();
        assert forall|x: usize| t1.contains(x) <==> t2.contains(x) by {
            if t1.contains(x) {
                let a = choose|a: int| 0 <= a < t1.len() && t1[a] == x;
                assert(s1[a + 1] == x);
                assert(m.ranks_before(cursor, s1[0] as int, s1[a + 1] as int));
                assert(s1.contains(x));
                let b = choose|b: int| 0 <= b < s2.len() && s2[b] == x;
                assert(b != 0);
                assert(t2[b - 1] == x);
            }
            if t2.contains(x) {
                let a = choose|a: int| 0 <= a < t2.len() && t2[a] == x;
                assert(s2[a + 1] == x);
                assert(m.ranks_before(cursor, s2[0] as int, s2[a + 1] as int));
                assert(s2.contains(x));
                let b = choose|b: int| 0 <= b < s1.len() && s1[b] == x;
                assert(b != 0);
                assert(t1[b - 1] == x);
            }
        }
        assert forall|a: int, b: int| 0 <= a < b < t1.len() implies m.ranks_before(cursor, t1[a] as int, t1[b] as int) by {
            assert(m.ranks_before(cursor, s1[a + 1] as int, s1[b + 1] as int));
        }
        assert forall|a: int, b: int| 0 <= a < b < t2.len() implies m.ranks_before(cursor, t2[a] as int, t2[b] as int) by {
            assert(m.ranks_before(cursor, s2[a + 1] as int, s2[b + 1] as int));
        }
        lemma_rank_order_unique(m, cursor, t1, t2);
        assert(s1 =~= s2) by {
            assert forall|i: int| 0 <= i < s1.len() implies s1[i] == s2[i] by {
                if i > 0 {
                    assert(s1[i] == t1[i - 1]);
                    assert(s2[i] == t2[i - 1]);
                }
            }
        }
    }
}

/// The ranking of the items for a cursor position is unique: two sequences
/// that both list exactly the qualifying items, best first with ties in
/// list order, are equal.
pub proof fn lemma_ranking_unique<A>(m: PieMenu<A>, cursor: Point, r1: Seq<usize>, r2: Seq<usize>)
    requires
        m.is_ranking(cursor, r1),
        m.is_ranking(cursor, r2),
    ensures
        r1 == r2,
{
    assert forall|x: usize| r1.contains(x) <==> r2.contains(x) by {
        if r1.contains(x) {
            let k = choose|k: int| 0 <= k < r1.len() && r1[k] == x;
            assert(m.qualifies(cursor, r1[k] as int));
        }
        if r2.contains(x) {
            let k = choose|k: int| 0 <= k < r2.len() && r2[k] == x;
            assert(m.qualifies(cursor, r2[k] as int));
        }
    }
    lemma_rank_order_unique(m, cursor, r1, r2);
}

} // verus!
