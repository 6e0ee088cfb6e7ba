//! The two traversal protocols.
//!
//! Both walk the tree depth first in preorder: an item first, then, if it
//! is a folder, all of its descendants, then its following sibling. The
//! flat traversal produces the items alone; the nesting traversal also
//! produces an explicit folder-end marker carrying the folder's id right
//! after the folder's last descendant, so a consumer can track nesting
//! depth without recursion of its own.

use vstd::prelude::*;

use crate::num::dec_val;
use crate::xbel_format::{
    item_view, items_high, items_view, iv_id, iv_items, nat_max, xbel_view, ItemView, Xbel,
    XbelItem, lemma_items_view_index,
};

verus! {

/// The flat depth-first order of one item's subtree.
pub open spec fn flat_item(v: ItemView) -> Seq<ItemView>
    decreases v, 0nat,
{
    match v {
        ItemView::Bookmark { .. } => seq![v],
        ItemView::Folder { items, .. } => seq![v] + flat_items(items),
    }
}

/// The flat depth-first order of a sibling list.
pub open spec fn flat_items(s: Seq<ItemView>) -> Seq<ItemView>
    decreases s, 1nat,
{
    if s.len() == 0 {
        Seq::<ItemView>::empty()
    } else {
        flat_item(s[0]) + flat_items(s.drop_first())
    }
}

/// One entry of the nesting traversal: an item, or the end marker of a
/// folder, carrying the folder's id.
pub enum EntryView {
    Item { item: ItemView },
    End { id: Seq<char> },
}

/// The nesting depth-first order of one item's subtree.
pub open spec fn nest_item(v: ItemView) -> Seq<EntryView>
    decreases v, 0nat,
{
    match v {
        ItemView::Bookmark { .. } => seq![EntryView::Item { item: v }],
        ItemView::Folder { id, items, .. } => seq![EntryView::Item { item: v }] + nest_items(items)
            + seq![EntryView::End { id }],
    }
}

/// The nesting depth-first order of a sibling list.
pub open spec fn nest_items(s: Seq<ItemView>) -> Seq<EntryView>
    decreases s, 1nat,
{
    if s.len() == 0 {
        Seq::<EntryView>::empty()
    } else {
        nest_item(s[0]) + nest_items(s.drop_first())
    }
}

/// Flattening distributes over concatenation.
pub proof fn lemma_flat_items_app(a: Seq<ItemView>, b: Seq<ItemView>)
    ensures
        flat_items(a + b) == flat_items(a) + flat_items(b),
    decreases a.len(),
{
    if a.len() == 0 {
        assert(a + b =~= b);
        assert(flat_items(a) + flat_items(b) =~= flat_items(b));
    } else {
        assert((a + b).drop_first() =~= a.drop_first() + b);
        assert((a + b)[0] == a[0]);
        lemma_flat_items_app(a.drop_first(), b);
        assert(flat_item(a[0]) + (flat_items(a.drop_first()) + flat_items(b)) =~= (flat_item(a[0])
            + flat_items(a.drop_first())) + flat_items(b));
    }
}

/// The nesting order distributes over concatenation.
pub proof fn lemma_nest_items_app(a: Seq<ItemView>, b: Seq<ItemView>)
    ensures
        nest_items(a + b) == nest_items(a) + nest_items(b),
    decreases a.len(),
{
    if a.len() == 0 {
        assert(a + b =~= b);
        assert(nest_items(a) + nest_items(b) =~= nest_items(b));
    } else {
        assert((a + b).drop_first() =~= a.drop_first() + b);
        assert((a + b)[0] == a[0]);
        lemma_nest_items_app(a.drop_first(), b);
        assert(nest_item(a[0]) + (nest_items(a.drop_first()) + nest_items(b)) =~= (nest_item(a[0])
            + nest_items(a.drop_first())) + nest_items(b));
    }
}

/// The highest id value among a run of already-flattened items (zero for
/// an empty run); no recursion into children, they are in the run too.
pub open spec fn run_high(s: Seq<ItemView>) -> nat
    decreases s.len(),
{
    if s.len() == 0 {
        0
    } else {
        nat_max(dec_val(iv_id(s[0])), run_high(s.drop_first()))
    }
}

/// The highest id value among the item entries of a nesting run; end
/// markers are passed over.
pub open spec fn nest_run_high(s: Seq<EntryView>) -> nat
    decreases s.len(),
{
    if s.len() == 0 {
        0
    } else {
        match s[0] {
            EntryView::Item { item } => nat_max(dec_val(iv_id(item)), nest_run_high(s.drop_first())),
            EntryView::End { .. } => nest_run_high(s.drop_first()),
        }
    }
}

/// The run maximum distributes over concatenation.
proof fn lemma_run_high_app(a: Seq<ItemView>, b: Seq<ItemView>)
    ensures
        run_high(a + b) == nat_max(run_high(a), run_high(b)),
    decreases a.len(),
{
    if a.len() == 0 {
        assert(a + b =~= b);
    } else {
        assert((a + b).drop_first() =~= a.drop_first() + b);
        assert((a + b)[0] == a[0]);
        lemma_run_high_app(a.drop_first(), b);
    }
}

/// The nesting run maximum distributes over concatenation.
proof fn lemma_nest_run_high_app(a: Seq<EntryView>, b: Seq<EntryView>)
    ensures
        nest_run_high(a + b) == nat_max(nest_run_high(a), nest_run_high(b)),
    decreases a.len(),
{
    if a.len() == 0 {
        assert(a + b =~= b);
    } else {
        assert((a + b).drop_first() =~= a.drop_first() + b);
        assert((a + b)[0] == a[0]);
        lemma_nest_run_high_app(a.drop_first(), b);
    }
}

/// The maximum id over the flat run of a subtree is the subtree's highest
/// id.
proof fn lemma_flat_high(s: Seq<ItemView>)
    ensures
        run_high(flat_items(s)) == items_high(s),
    decreases s, 1nat,
{
    if s.len() > 0 {
        lemma_flat_high(s.drop_first());
        lemma_flat_item_high(s[0]);
        lemma_run_high_app(flat_item(s[0]), flat_items(s.drop_first()));
    }
}

/// The maximum id over the flat run of one item equals its subtree
/// maximum.
proof fn lemma_flat_item_high(v: ItemView)
    ensures
        run_high(flat_item(v)) == crate::xbel_format::item_high(v),
    decreases v, 0nat,
{
    match v {
        ItemView::Bookmark { .. } => {
            let s = flat_item(v);
            assert(s.len() == 1);
            assert(s[0] == v);
            assert(s.drop_first() =~= Seq::<ItemView>::empty());
            assert(run_high(s.drop_first()) == 0);
            assert(run_high(s) == nat_max(dec_val(iv_id(v)), 0));
        },
        ItemView::Folder { items, .. } => {
            lemma_flat_high(items);
            let s = flat_item(v);
            assert(s == seq![v] + flat_items(items));
            assert(s.drop_first() =~= flat_items(items));
            assert(s[0] == v);
            assert(run_high(s) == nat_max(dec_val(iv_id(v)), run_high(flat_items(items))));
        },
    }
}

/// The maximum id over the nesting run of a subtree is the subtree's
/// highest id.
proof fn lemma_nest_high(s: Seq<ItemView>)
    ensures
        nest_run_high(nest_items(s)) == items_high(s),
    decreases s, 1nat,
{
    if s.len() > 0 {
        lemma_nest_high(s.drop_first());
        lemma_nest_item_high(s[0]);
        lemma_nest_run_high_app(nest_item(s[0]), nest_items(s.drop_first()));
    }
}

/// The maximum id over the nesting run of one item equals its subtree
/// maximum.
proof fn lemma_nest_item_high(v: ItemView)
    ensures
        nest_run_high(nest_item(v)) == crate::xbel_format::item_high(v),
    decreases v, 0nat,
{
    match v {
        ItemView::Bookmark { .. } => {
            let s = nest_item(v);
            assert(s.len() == 1);
            assert(s[0] == (EntryView::Item { item: v }));
            assert(s.drop_first() =~= Seq::<EntryView>::empty());
            assert(nest_run_high(s.drop_first()) == 0);
            assert(nest_run_high(s) == nat_max(dec_val(iv_id(v)), 0));
        },
        ItemView::Folder { id, items, .. } => {
            lemma_nest_high(items);
            let mid = nest_items(items);
            let tail = seq![EntryView::End { id }];
            assert(nest_item(v) == seq![EntryView::Item { item: v }] + mid + tail);
            lemma_nest_run_high_app(mid, tail);
            assert(tail.len() == 1);
            assert(tail[0] == (EntryView::End { id }));
            assert(tail.drop_first() =~= Seq::<EntryView>::empty());
            assert(nest_run_high(tail.drop_first()) == 0);
            assert(nest_run_high(tail) == 0);
            let whole = seq![EntryView::Item { item: v }] + (mid + tail);
            assert(seq![EntryView::Item { item: v }] + mid + tail =~= whole);
            assert(whole.drop_first() =~= mid + tail);
            assert(whole[0] == (EntryView::Item { item: v }));
            assert(nest_run_high(whole) == nat_max(dec_val(iv_id(v)), nest_run_high(mid + tail)));
        },
    }
}

/// The highest id computed over the flat traversal equals the highest id
/// computed over the nesting traversal: both are the tree's highest id.
pub proof fn lemma_highest_id_traversals(items: Seq<ItemView>)
    ensures
        run_high(flat_items(items)) == items_high(items),
        nest_run_high(nest_items(items)) == items_high(items),
        run_high(flat_items(items)) == nest_run_high(nest_items(items)),
{
    lemma_flat_high(items);
    lemma_nest_high(items);
}

/// The items a run of references stands for.
pub open spec fn refs_view(s: Seq<&XbelItem>) -> Seq<ItemView> {
    s.map_values(|r: &XbelItem| item_view(*r))
}

/// Collect references to the items of `v` and their descendants in flat
/// depth-first order.
fn flat_refs<'s>(v: &'s Vec<XbelItem>, out: &mut Vec<&'s XbelItem>)
    ensures
        refs_view(final(out)@) == refs_view(old(out)@) + flat_items(items_view(v@)),
    decreases v@,
{
    let ghost out0 = out@;
    proof {
        lemma_items_view_index(v@);
    }
    let mut i: usize = 0;
    while i < v.len()
        invariant
            0 <= i <= v@.len(),
            forall|t: int| 0 <= t < v@.len() ==> #[trigger] items_view(v@)[t] == item_view(v@[t]),
            items_view(v@).len() == v@.len(),
            refs_view(out@) == refs_view(out0) + flat_items(items_view(v@).subrange(0, i as int)),
        decreases v@.len() - i,
    {
        let ghost pre = out@;
        proof {
            assert(decreases_to!(v@ => v@[i as int]));
        }
        out.push(&v[i]);
        proof {
            assert(refs_view(out@) =~= refs_view(pre).push(item_view(v@[i as int])));
        }
        match &v[i] {
            XbelItem::Folder(f) => {
                proof {
                    assert(decreases_to!(v@[i as int] => f.items));
                    assert(decreases_to!(f.items => f.items@));
                }
                flat_refs(&f.items, out);
                proof {
                    assert(iv_items(items_view(v@)[i as int]) == items_view(f.items@));
                }
            },
            XbelItem::Bookmark(_) => {},
        }
        proof {
            let x = items_view(v@)[i as int];
            let a = items_view(v@).subrange(0, i as int);
            let b = items_view(v@).subrange(0, i + 1);
            assert(b =~= a + seq![x]);
            lemma_flat_items_app(a, seq![x]);
            let one = seq![x];
            assert(one[0] == x);
            assert(one.drop_first() =~= Seq::<ItemView>::empty());
            assert(flat_items(one) == flat_item(x) + flat_items(Seq::<ItemView>::empty()));
            assert(flat_item(x) + Seq::<ItemView>::empty() =~= flat_item(x));
            assert(refs_view(out@) =~= refs_view(out0) + flat_items(b));
        }
        i = i + 1;
    }
    proof {
        assert(items_view(v@).subrange(0, v@.len() as int) =~= items_view(v@));
    }
}

/// A lazy, single-pass producer of the tree's items in flat depth-first
/// order: each item is produced before its descendants, and a folder's
/// descendants before the folder's following sibling.
pub struct XbelIterator<'s> {
    entries: Vec<&'s XbelItem>,
    pos: usize,
}

impl<'s> XbelIterator<'s> {
    /// The run this iterator produces.
    pub closed spec fn run(&self) -> Seq<ItemView> {
        refs_view(self.entries@)
    }

    /// How many entries were produced already.
    pub closed spec fn produced(&self) -> int {
        self.pos as int
    }

    /// An iterator over the whole tree, positioned at the start.
    pub fn new(xbel: &'s Xbel) -> (r: XbelIterator<'s>)
        ensures
            r.run() == flat_items(xbel_view(*xbel).items),
            r.produced() == 0,
    {
        let mut entries: Vec<&'s XbelItem> = Vec::new();
        flat_refs(&xbel.items, &mut entries);
        proof {
            assert(refs_view(entries@) =~= flat_items(items_view(xbel.items@)));
        }
        XbelIterator { entries, pos: 0 }
    }

    /// The next item of the run, or `None` when the run is over.
    pub fn next(&mut self) -> (r: Option<&'s XbelItem>)
        ensures
            final(self).run() == old(self).run(),
            old(self).produced() < old(self).run().len() ==> (final(self).produced() == old(
                self,
            ).produced() + 1 && (r matches Some(it) && item_view(*it) == old(self).run()[old(
                self,
            ).produced()])),
            old(self).produced() >= old(self).run().len() ==> (final(self).produced() == old(
                self,
            ).produced() && r is None),
    {
        if self.pos < self.entries.len() {
            let r = self.entries[self.pos];
            self.pos = self.pos + 1;
            Some(r)
        } else {
            None
        }
    }
}

/// One entry of the nesting traversal: a borrowed item, or the end marker
/// of a folder holding the folder's id.
#[derive(Debug)]
pub enum XbelItemOrEnd<'s> {
    Item(&'s XbelItem),
    End(String),
}

/// The entry an exec nesting entry stands for.
pub open spec fn entry_view(e: XbelItemOrEnd<'_>) -> EntryView {
    match e {
        XbelItemOrEnd::Item(r) => EntryView::Item { item: item_view(*r) },
        XbelItemOrEnd::End(s) => EntryView::End { id: s@ },
    }
}

/// The entries a run of exec entries stands for.
pub open spec fn entries_view(s: Seq<XbelItemOrEnd<'_>>) -> Seq<EntryView> {
    s.map_values(|e: XbelItemOrEnd<'_>| entry_view(e))
}

/// Collect the nesting entries of `v` and its descendants in order.
fn nest_refs<'s>(v: &'s Vec<XbelItem>, out: &mut Vec<XbelItemOrEnd<'s>>)
    ensures
        entries_view(final(out)@) == entries_view(old(out)@) + nest_items(items_view(v@)),
    decreases v@,
{
    let ghost out0 = out@;
    proof {
        lemma_items_view_index(v@);
    }
    let mut i: usize = 0;
    while i < v.len()
        invariant
            0 <= i <= v@.len(),
            forall|t: int| 0 <= t < v@.len() ==> #[trigger] items_view(v@)[t] == item_view(v@[t]),
            items_view(v@).len() == v@.len(),
            entries_view(out@) == entries_view(out0) + nest_items(
                items_view(v@).subrange(0, i as int),
            ),
        decreases v@.len() - i,
    {
        let ghost pre = out@;
        let ghost x = items_view(v@)[i as int];
        proof {
            assert(decreases_to!(v@ => v@[i as int]));
        }
        out.push(XbelItemOrEnd::Item(&v[i]));
        proof {
            assert(entries_view(out@) =~= entries_view(pre).push(EntryView::Item { item: x }));
        }
        match &v[i] {
            XbelItem::Folder(f) => {
                let ghost after_item = out@;
                proof {
                    assert(decreases_to!(v@[i as int] => f.items));
                    assert(decreases_to!(f.items => f.items@));
                }
                nest_refs(&f.items, out);
                let ghost after_kids = out@;
                out.push(XbelItemOrEnd::End(f.id.clone()));
                proof {
                    assert(iv_items(x) == items_view(f.items@));
                    assert(iv_id(x) == f.id@);
                    assert(entries_view(out@) =~= entries_view(after_kids).push(
                        EntryView::End { id: f.id@ },
                    ));
                    assert(entries_view(after_kids) == entries_view(after_item) + nest_items(
                        items_view(f.items@),
                    ));
                    assert(nest_item(x) == seq![EntryView::Item { item: x }] + nest_items(
                        iv_items(x),
                    ) + seq![EntryView::End { id: iv_id(x) }]);
                    assert(entries_view(out@) =~= entries_view(pre) + nest_item(x));
                }
            },
            XbelItem::Bookmark(_) => {
                proof {
                    assert(nest_item(x) == seq![EntryView::Item { item: x }]);
                    assert(seq![EntryView::Item { item: x }][0] == (EntryView::Item { item: x }));
                    assert(entries_view(out@) =~= entries_view(pre) + nest_item(x));
                }
            },
        }
        proof {
            let a = items_view(v@).subrange(0, i as int);
            let b = items_view(v@).subrange(0, i + 1);
            assert(b =~= a + seq![x]);
            lemma_nest_items_app(a, seq![x]);
            let one = seq![x];
            assert(one[0] == x);
            assert(one.drop_first() =~= Seq::<ItemView>::empty());
            assert(nest_items(one) == nest_item(x) + nest_items(Seq::<ItemView>::empty()));
            assert(nest_item(x) + Seq::<EntryView>::empty() =~= nest_item(x));
            assert(entries_view(out@) =~= entries_view(out0) + nest_items(b));
        }
        i = i + 1;
    }
    proof {
        assert(items_view(v@).subrange(0, v@.len() as int) =~= items_view(v@));
    }
}

/// A lazy, single-pass producer of the tree's nesting entries: the same
/// visiting order as `XbelIterator`, with a folder-end marker right after
/// a folder's last descendant and before its following sibling.
pub struct XbelNestingIterator<'s> {
    entries: Vec<XbelItemOrEnd<'s>>,
    pos: usize,
}

impl<'s> XbelNestingIterator<'s> {
    /// The run this iterator produces.
    pub closed spec fn run(&self) -> Seq<EntryView> {
        entries_view(self.entries@)
    }

    /// How many entries were produced already.
    pub closed spec fn produced(&self) -> int {
        self.pos as int
    }

    /// An iterator over the whole tree, positioned at the start.
    pub fn new(xbel: &'s Xbel) -> (r: XbelNestingIterator<'s>)
        ensures
            r.run() == nest_items(xbel_view(*xbel).items),
            r.produced() == 0,
    {
        let mut entries: Vec<XbelItemOrEnd<'s>> = Vec::new();
        nest_refs(&xbel.items, &mut entries);
        proof {
            assert(entries_view(entries@) =~= nest_items(items_view(xbel.items@)));
        }
        XbelNestingIterator { entries, pos: 0 }
    }

    /// The next entry of the run, or `None` when the run is over.
    pub fn next(&mut self) -> (r: Option<XbelItemOrEnd<'s>>)
        ensures
            final(self).run() == old(self).run(),
            old(self).produced() < old(self).run().len() ==> (final(self).produced() == old(
                self,
            ).produced() + 1 && (r matches Some(e) && entry_view(e) == old(self).run()[old(
                self,
            ).produced()])),
            old(self).produced() >= old(self).run().len() ==> (final(self).produced() == old(
                self,
            ).produced() && r is None),
    {
        if self.pos < self.entries.len() {
            let r = match &self.entries[self.pos] {
                XbelItemOrEnd::Item(it) => XbelItemOrEnd::Item(*it),
                XbelItemOrEnd::End(s) => XbelItemOrEnd::End(s.clone()),
            };
            self.pos = self.pos + 1;
            Some(r)
        } else {
            None
        }
    }
}

/// Inserting a bookmark at position `i` of a sibling list splices it
/// into the list's flat traversal exactly where the subtree of the old
/// `i`-th sibling begins. So an insert before an id-addressed item puts
/// the new bookmark immediately before that item in the flat order, and
/// an insert right after it (position `i + 1`) immediately after the
/// item's subtree: splicing among the siblings and splicing the flat run
/// agree.
pub proof fn lemma_insert_splices_flat(l: Seq<ItemView>, i: int, bm: ItemView)
    requires
        0 <= i <= l.len(),
        bm is Bookmark,
    ensures
        flat_items(l.insert(i, bm)) == flat_items(l.subrange(0, i)) + seq![bm] + flat_items(
            l.subrange(i, l.len() as int),
        ),
        flat_items(l) == flat_items(l.subrange(0, i)) + flat_items(
            l.subrange(i, l.len() as int),
        ),
        flat_items(l.insert(i, bm)) == flat_items(l).insert(
            flat_items(l.subrange(0, i)).len() as int,
            bm,
        ),
{
    let pre = l.subrange(0, i);
    let suf = l.subrange(i, l.len() as int);
    assert(l.insert(i, bm) =~= pre + seq![bm] + suf);
    lemma_flat_items_app(pre + seq![bm], suf);
    lemma_flat_items_app(pre, seq![bm]);
    assert(seq![bm][0] == bm);
    assert(seq![bm].drop_first() =~= Seq::<ItemView>::empty());
    assert(flat_item(bm) == seq![bm]);
    assert(flat_items(seq![bm]) == flat_item(bm) + flat_items(Seq::<ItemView>::empty()));
    assert(flat_items(seq![bm]) =~= seq![bm]);
    assert(l =~= pre + suf);
    lemma_flat_items_app(pre, suf);
    assert(flat_items(pre) + seq![bm] + flat_items(suf) =~= (flat_items(pre) + flat_items(
        suf,
    )).insert(flat_items(pre).len() as int, bm));
}

} // verus!
