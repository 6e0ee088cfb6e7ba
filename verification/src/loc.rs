//! Tree locations.
//!
//! A location is the chain of folder indices that leads from the top-level
//! sibling list down to one nested sibling list: the empty location names
//! the top-level list itself, and `loc.push(i)` names the children of the
//! folder at index `i` of the list named by `loc`. Address resolution
//! returns locations, and mutations are framed as replacing the sibling
//! list at a location.

use vstd::prelude::*;

use crate::xbel_format::{iv_id, iv_items, iv_title, wf_item, wf_items, ItemView};

verus! {

/// Does `loc` name a sibling list under `items`?
pub open spec fn loc_valid(items: Seq<ItemView>, loc: Seq<int>) -> bool
    decreases loc.len(),
{
    loc.len() == 0 || (0 <= loc[0] < items.len() && items[loc[0]] is Folder && loc_valid(
        iv_items(items[loc[0]]),
        loc.drop_first(),
    ))
}

/// The sibling list named by `loc` under `items`.
pub open spec fn list_at(items: Seq<ItemView>, loc: Seq<int>) -> Seq<ItemView>
    recommends
        loc_valid(items, loc),
    decreases loc.len(),
{
    if loc.len() == 0 {
        items
    } else {
        list_at(iv_items(items[loc[0]]), loc.drop_first())
    }
}

/// `items` with the sibling list named by `loc` replaced by `new_list`;
/// everything else (ids, titles, the rest of the tree) is unchanged.
pub open spec fn replace_at(items: Seq<ItemView>, loc: Seq<int>, new_list: Seq<ItemView>) -> Seq<
    ItemView,
>
    recommends
        loc_valid(items, loc),
    decreases loc.len(),
{
    if loc.len() == 0 {
        new_list
    } else {
        let i = loc[0];
        let it = items[i];
        items.update(
            i,
            ItemView::Folder {
                id: iv_id(it),
                title: iv_title(it),
                items: replace_at(iv_items(it), loc.drop_first(), new_list),
            },
        )
    }
}

/// Descending one more folder extends the location on the right.
pub proof fn lemma_list_at_push(items: Seq<ItemView>, loc: Seq<int>, i: int)
    requires
        loc_valid(items, loc),
        0 <= i < list_at(items, loc).len(),
        list_at(items, loc)[i] is Folder,
    ensures
        loc_valid(items, loc.push(i)),
        list_at(items, loc.push(i)) == iv_items(list_at(items, loc)[i]),
    decreases loc.len(),
{
    if loc.len() == 0 {
        let p = loc.push(i);
        assert(p[0] == i);
        assert(p.drop_first() =~= Seq::<int>::empty());
        assert(loc_valid(iv_items(items[i]), p.drop_first()));
        assert(list_at(iv_items(items[i]), p.drop_first()) == iv_items(items[i]));
        assert(list_at(items, p) == list_at(iv_items(items[p[0]]), p.drop_first()));
        assert(list_at(items, loc) == items);
    } else {
        let sub = iv_items(items[loc[0]]);
        lemma_list_at_push(sub, loc.drop_first(), i);
        let p = loc.push(i);
        assert(p[0] == loc[0]);
        assert(p.drop_first() =~= loc.drop_first().push(i));
        assert(list_at(items, p) == list_at(sub, p.drop_first()));
        assert(list_at(items, loc) == list_at(sub, loc.drop_first()));
        assert(loc_valid(items, p));
    }
}

/// Replacing a well-formed list at a valid location of a well-formed tree
/// keeps the whole tree well-formed.
pub proof fn lemma_replace_at_wf(items: Seq<ItemView>, loc: Seq<int>, nl: Seq<ItemView>)
    requires
        loc_valid(items, loc),
        wf_items(items),
        wf_items(nl),
    ensures
        wf_items(replace_at(items, loc, nl)),
    decreases loc.len(),
{
    if loc.len() == 0 {
    } else {
        let i = loc[0];
        let it = items[i];
        crate::xbel_format::lemma_wf_items_index(items);
        lemma_replace_at_wf(iv_items(it), loc.drop_first(), nl);
        let r = replace_at(items, loc, nl);
        assert forall|j: int| 0 <= j < r.len() implies wf_item(#[trigger] r[j]) by {
            if j != i {
                assert(r[j] == items[j]);
            }
        }
        crate::xbel_format::lemma_wf_items_from_index(r);
    }
}

/// A sibling list reached by a valid location of a well-formed tree is
/// well-formed.
pub proof fn lemma_list_at_wf(items: Seq<ItemView>, loc: Seq<int>)
    requires
        loc_valid(items, loc),
        wf_items(items),
    ensures
        wf_items(list_at(items, loc)),
    decreases loc.len(),
{
    if loc.len() > 0 {
        crate::xbel_format::lemma_wf_items_index(items);
        assert(wf_item(items[loc[0]]));
        lemma_list_at_wf(iv_items(items[loc[0]]), loc.drop_first());
    }
}

/// Size of one item's subtree, counting the item itself.
pub open spec fn node_count(v: ItemView) -> nat
    decreases v, 0nat,
{
    match v {
        ItemView::Bookmark { .. } => 1,
        ItemView::Folder { items, .. } => 1 + items_count_from(items, 0),
    }
}

/// Total subtree size of the items of `l` from index `k` on.
pub open spec fn items_count_from(l: Seq<ItemView>, k: int) -> nat
    decreases l, l.len() - k,
{
    if k < 0 || k >= l.len() {
        0
    } else {
        node_count(l[k]) + items_count_from(l, k + 1)
    }
}

/// The view of a location, as executable code keeps it.
pub open spec fn loc_view(v: Seq<usize>) -> Seq<int> {
    v.map_values(|x: usize| x as int)
}

} // verus!
