//! The review queue of a project: which review items a listing shows, and
//! which items a patch or a bulk resolve touches. The items live in a JSON
//! file; reading it and editing the items is the caller's part, on the
//! facts about each item that these decisions read.
use vstd::prelude::*;

use crate::tasks::opt_string_view;
use crate::text::chars_of;

verus! {

/// What the decisions read of a review item.
pub struct ReviewMeta {
    /// The item's `id`, where it is a string.
    pub id: Option<String>,
    /// The item's `resolved`, where it is a boolean; else false.
    pub resolved: bool,
    /// The item's `type`, where it is a string.
    pub item_type: Option<String>,
}

pub struct ReviewMetaView {
    pub id: Option<Seq<char>>,
    pub resolved: bool,
    pub item_type: Option<Seq<char>>,
}

impl View for ReviewMeta {
    type V = ReviewMetaView;

    open spec fn view(&self) -> ReviewMetaView {
        ReviewMetaView {
            id: opt_string_view(self.id),
            resolved: self.resolved,
            item_type: opt_string_view(self.item_type),
        }
    }
}

pub open spec fn metas_view(v: Seq<ReviewMeta>) -> Seq<ReviewMetaView> {
    v.map_values(|m: ReviewMeta| m@)
}

/// Whether a listing with this status filter and type shows the item:
/// `unresolved` shows unresolved items, `resolved` resolved ones, any other
/// status all; a type, where given, must be the item's.
pub open spec fn review_shown(m: ReviewMetaView, status: Seq<char>, item_type: Option<Seq<char>>) -> bool {
    &&& if status == "unresolved"@ {
        !m.resolved
    } else if status == "resolved"@ {
        m.resolved
    } else {
        true
    }
    &&& match item_type {
        Some(t) => m.item_type == Some(t),
        None => true,
    }
}

/// The positions of the items shown from `i` on, where `room` more fit
/// before the listing stops.
pub open spec fn shown_from(
    items: Seq<ReviewMetaView>,
    i: int,
    status: Seq<char>,
    item_type: Option<Seq<char>>,
    room: int,
) -> Seq<int>
    decreases items.len() - i,
{
    if i < 0 || i >= items.len() {
        Seq::empty()
    } else if review_shown(items[i], status, item_type) {
        if room <= 1 {
            seq![i]
        } else {
            seq![i] + shown_from(items, i + 1, status, item_type, room - 1)
        }
    } else {
        shown_from(items, i + 1, status, item_type, room)
    }
}

/// A review listing holds at most `limit` items (one, where `limit` is 0),
/// each of them an item that matches the filter, in the order of the file.
pub proof fn lemma_listing_bounded(
    items: Seq<ReviewMetaView>,
    i: int,
    status: Seq<char>,
    item_type: Option<Seq<char>>,
    room: int,
)
    requires
        0 <= i,
    ensures
        shown_from(items, i, status, item_type, room).len() <= if room <= 1 { 1 } else { room },
        forall|k: int|
            0 <= k < shown_from(items, i, status, item_type, room).len() ==> {
                let p = #[trigger] shown_from(items, i, status, item_type, room)[k];
                &&& i <= p < items.len()
                &&& review_shown(items[p], status, item_type)
            },
        forall|a: int, b: int|
            0 <= a < b < shown_from(items, i, status, item_type, room).len() ==> #[trigger] shown_from(
                items,
                i,
                status,
                item_type,
                room,
            )[a] < #[trigger] shown_from(items, i, status, item_type, room)[b],
    decreases items.len() - i,
{
    if i < items.len() {
        if review_shown(items[i], status, item_type) {
            if room > 1 {
                lemma_listing_bounded(items, i + 1, status, item_type, room - 1);
                let rest = shown_from(items, i + 1, status, item_type, room - 1);
                let s = shown_from(items, i, status, item_type, room);
                assert(s =~= seq![i] + rest);
                assert forall|k: int| 0 < k < s.len() implies s[k] == rest[k - 1] by {}
            }
        } else {
            lemma_listing_bounded(items, i + 1, status, item_type, room);
        }
    }
}

pub open spec fn indices_view(v: Seq<usize>) -> Seq<int> {
    v.map_values(|i: usize| i as int)
}

fn same_str(a: &str, b: &str) -> (r: bool)
    ensures
        r == (a@ == b@),
{
    crate::text::same_chars(chars_of(a).as_slice(), chars_of(b).as_slice())
}

fn shown(m: &ReviewMeta, status: &str, item_type: &Option<String>) -> (r: bool)
    ensures
        r == review_shown(m@, status@, opt_string_view(*item_type)),
{
    let by_status = if same_str(status, "unresolved") {
        !m.resolved
    } else if same_str(status, "resolved") {
        m.resolved
    } else {
        true
    };
    let by_type = match item_type {
        Some(t) => match &m.item_type {
            Some(x) => same_str(x.as_str(), t.as_str()),
            None => false,
        },
        None => true,
    };
    by_status && by_type
}

/// The positions of the review items a listing shows, in file order, at
/// most `limit` of them (at least one, where any is shown).
pub fn select_reviews(items: &[ReviewMeta], status: &str, item_type: Option<String>, limit: usize) -> (r: Vec<usize>)
    ensures
        indices_view(r@) == shown_from(metas_view(items@), 0, status@, opt_string_view(item_type), limit as int),
{
    let ghost mv = metas_view(items@);
    let ghost tv = opt_string_view(item_type);
    let mut out: Vec<usize> = Vec::new();
    let mut room: usize = limit;
    let mut i: usize = 0;
    while i < items.len()
        invariant
            i <= items@.len(),
            mv == metas_view(items@),
            tv == opt_string_view(item_type),
            shown_from(mv, 0, status@, tv, limit as int) == indices_view(out@) + shown_from(
                mv,
                i as int,
                status@,
                tv,
                room as int,
            ),
        decreases items@.len() - i,
    {
        assert(mv[i as int] == items@[i as int]@);
        if shown(&items[i], status, &item_type) {
            let ghost before = indices_view(out@);
            out.push(i);
            assert(indices_view(out@) =~= before.push(i as int));
            if room <= 1 {
                assert(indices_view(out@) =~= before + seq![i as int]);
                return out;
            }
            assert(before + (seq![i as int] + shown_from(mv, i + 1, status@, tv, room - 1)) =~= indices_view(out@)
                + shown_from(mv, i + 1, status@, tv, room - 1));
            room -= 1;
        }
        i += 1;
    }
    assert(indices_view(out@) + Seq::<int>::empty() =~= indices_view(out@));
    out
}

/// The positions of the items whose id is `id`.
pub open spec fn with_id(items: Seq<ReviewMetaView>, id: Seq<char>) -> Seq<int>
    decreases items.len(),
{
    if items.len() == 0 {
        Seq::empty()
    } else {
        let r = with_id(items.drop_last(), id);
        if items.last().id == Some(id) {
            r.push(items.len() - 1)
        } else {
            r
        }
    }
}

/// The positions of the review items with id `review_id`, all of which a
/// patch edits; none means the item is not found.
pub fn reviews_with_id(items: &[ReviewMeta], review_id: &str) -> (r: Vec<usize>)
    ensures
        indices_view(r@) == with_id(metas_view(items@), review_id@),
{
    let ghost mv = metas_view(items@);
    let mut out: Vec<usize> = Vec::new();
    let mut i: usize = 0;
    assert(mv.subrange(0, 0) =~= Seq::<ReviewMetaView>::empty());
    while i < items.len()
        invariant
            i <= items@.len(),
            mv == metas_view(items@),
            indices_view(out@) == with_id(mv.subrange(0, i as int), review_id@),
        decreases items@.len() - i,
    {
        proof {
            assert(mv.subrange(0, i + 1).drop_last() =~= mv.subrange(0, i as int));
            assert(mv.subrange(0, i + 1).last() == mv[i as int]);
            assert(mv[i as int] == items@[i as int]@);
        }
        let hit = match &items[i].id {
            Some(x) => same_str(x.as_str(), review_id),
            None => false,
        };
        if hit {
            let ghost before = indices_view(out@);
            out.push(i);
            assert(indices_view(out@) =~= before.push(i as int));
        }
        i += 1;
    }
    assert(mv.subrange(0, mv.len() as int) =~= mv);
    out
}

/// Whether some item carries the id `id`.
pub open spec fn id_present(items: Seq<ReviewMetaView>, id: Seq<char>) -> bool {
    exists|i: int| 0 <= i < items.len() && #[trigger] items[i].id == Some(id)
}

/// The positions of the items whose id is one of `ids`.
pub open spec fn with_any_id(items: Seq<ReviewMetaView>, ids: Seq<Seq<char>>) -> Seq<int>
    decreases items.len(),
{
    if items.len() == 0 {
        Seq::empty()
    } else {
        let r = with_any_id(items.drop_last(), ids);
        match items.last().id {
            Some(x) => if ids.contains(x) {
                r.push(items.len() - 1)
            } else {
                r
            },
            None => r,
        }
    }
}

/// The requested ids that some item carries (`found`), or that none does,
/// in the order requested.
pub open spec fn ids_where(ids: Seq<Seq<char>>, items: Seq<ReviewMetaView>, found: bool) -> Seq<Seq<char>>
    decreases ids.len(),
{
    if ids.len() == 0 {
        Seq::empty()
    } else {
        let r = ids_where(ids.drop_last(), items, found);
        if id_present(items, ids.last()) == found {
            r.push(ids.last())
        } else {
            r
        }
    }
}

/// What a bulk resolve does.
pub struct ResolvePlan {
    /// The positions of the items to mark resolved.
    pub items: Vec<usize>,
    /// The requested ids that were found.
    pub resolved: Vec<String>,
    /// The requested ids that were not.
    pub not_found: Vec<String>,
}

fn present(items: &[ReviewMeta], id: &str) -> (r: bool)
    ensures
        r == id_present(metas_view(items@), id@),
{
    let ghost mv = metas_view(items@);
    let mut i: usize = 0;
    while i < items.len()
        invariant
            i <= items@.len(),
            mv == metas_view(items@),
            forall|j: int| 0 <= j < i ==> #[trigger] mv[j].id != Some(id@),
        decreases items@.len() - i,
    {
        assert(mv[i as int] == items@[i as int]@);
        match &items[i].id {
            Some(x) => {
                if same_str(x.as_str(), id) {
                    assert(mv[i as int].id == Some(id@));
                    return true;
                }
            },
            None => {},
        }
        i += 1;
    }
    false
}

fn requested(ids: &[String], id: &str) -> (r: bool)
    ensures
        r == crate::http::strings_view(ids@).contains(id@),
{
    let ghost iv = crate::http::strings_view(ids@);
    let mut i: usize = 0;
    while i < ids.len()
        invariant
            i <= ids@.len(),
            iv == crate::http::strings_view(ids@),
            forall|j: int| 0 <= j < i ==> #[trigger] iv[j] != id@,
        decreases ids@.len() - i,
    {
        if same_str(ids[i].as_str(), id) {
            assert(iv[i as int] == id@);
            return true;
        }
        i += 1;
    }
    false
}

/// Plans a bulk resolve of the review items with the given ids.
pub fn plan_resolve(items: &[ReviewMeta], ids: &[String]) -> (r: ResolvePlan)
    ensures
        indices_view(r.items@) == with_any_id(metas_view(items@), crate::http::strings_view(ids@)),
        crate::http::strings_view(r.resolved@) == ids_where(crate::http::strings_view(ids@), metas_view(items@), true),
        crate::http::strings_view(r.not_found@) == ids_where(
            crate::http::strings_view(ids@),
            metas_view(items@),
            false,
        ),
{
    let ghost mv = metas_view(items@);
    let ghost iv = crate::http::strings_view(ids@);
    let mut touched: Vec<usize> = Vec::new();
    let mut i: usize = 0;
    assert(mv.subrange(0, 0) =~= Seq::<ReviewMetaView>::empty());
    while i < items.len()
        invariant
            i <= items@.len(),
            mv == metas_view(items@),
            iv == crate::http::strings_view(ids@),
            indices_view(touched@) == with_any_id(mv.subrange(0, i as int), iv),
        decreases items@.len() - i,
    {
        proof {
            assert(mv.subrange(0, i + 1).drop_last() =~= mv.subrange(0, i as int));
            assert(mv.subrange(0, i + 1).last() == mv[i as int]);
            assert(mv[i as int] == items@[i as int]@);
        }
        let hit = match &items[i].id {
            Some(x) => requested(ids, x.as_str()),
            None => false,
        };
        if hit {
            let ghost before = indices_view(touched@);
            touched.push(i);
            assert(indices_view(touched@) =~= before.push(i as int));
        }
        i += 1;
    }
    assert(mv.subrange(0, mv.len() as int) =~= mv);
    let mut resolved: Vec<String> = Vec::new();
    let mut not_found: Vec<String> = Vec::new();
    let mut k: usize = 0;
    assert(iv.subrange(0, 0) =~= Seq::<Seq<char>>::empty());
    while k < ids.len()
        invariant
            k <= ids@.len(),
            mv == metas_view(items@),
            iv == crate::http::strings_view(ids@),
            crate::http::strings_view(resolved@) == ids_where(iv.subrange(0, k as int), mv, true),
            crate::http::strings_view(not_found@) == ids_where(iv.subrange(0, k as int), mv, false),
        decreases ids@.len() - k,
    {
        proof {
            assert(iv.subrange(0, k + 1).drop_last() =~= iv.subrange(0, k as int));
            assert(iv.subrange(0, k + 1).last() == iv[k as int]);
        }
        let id = ids[k].clone();
        if present(items, id.as_str()) {
            let ghost before = crate::http::strings_view(resolved@);
            resolved.push(id);
            assert(crate::http::strings_view(resolved@) =~= before.push(iv[k as int]));
        } else {
            let ghost before = crate::http::strings_view(not_found@);
            not_found.push(id);
            assert(crate::http::strings_view(not_found@) =~= before.push(iv[k as int]));
        }
        k += 1;
    }
    assert(iv.subrange(0, iv.len() as int) =~= iv);
    ResolvePlan { items: touched, resolved, not_found }
}

} // verus!
