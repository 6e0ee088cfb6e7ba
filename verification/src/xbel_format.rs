//! The XBEL document model.
//!
//! A document is a tree of folders and bookmarks. Every item carries a
//! string id holding a decimal number; sibling order is load-bearing for
//! serialization and for before/after placement. The mathematical model of
//! a tree is `XbelView` / `ItemView`, over which all contracts are stated.

use vstd::prelude::*;

use crate::num::{dec_str, dec_val, parse_u64, parses_as_u64, u64_to_dec};
use crate::text::{chars_of, string_from_chars};

verus! {

/// Mathematical model of one tree item.
pub enum ItemView {
    Bookmark { id: Seq<char>, href: Seq<char>, title: Seq<char> },
    Folder { id: Seq<char>, title: Seq<char>, items: Seq<ItemView> },
}

/// Mathematical model of a whole document.
pub struct XbelView {
    pub version: Seq<char>,
    pub items: Seq<ItemView>,
}

/// The id of an item view.
pub open spec fn iv_id(v: ItemView) -> Seq<char> {
    match v {
        ItemView::Bookmark { id, .. } => id,
        ItemView::Folder { id, .. } => id,
    }
}

/// The title text of an item view.
pub open spec fn iv_title(v: ItemView) -> Seq<char> {
    match v {
        ItemView::Bookmark { title, .. } => title,
        ItemView::Folder { title, .. } => title,
    }
}

/// Is the item a folder?
pub open spec fn iv_is_folder(v: ItemView) -> bool {
    v is Folder
}

/// The children of a folder view (empty for a bookmark).
pub open spec fn iv_items(v: ItemView) -> Seq<ItemView> {
    match v {
        ItemView::Folder { items, .. } => items,
        ItemView::Bookmark { .. } => Seq::<ItemView>::empty(),
    }
}

/// The title of a `Bookmark` or `Folder`.
#[derive(Debug, PartialEq)]
pub struct Title {
    pub text: String,
}

/// A bookmark: an id, a www address, and a title.
#[derive(Debug, PartialEq)]
pub struct Bookmark {
    pub href: String,
    pub id: String,
    pub title: Title,
}

/// Either a `Folder` or a `Bookmark`.
#[derive(Debug, PartialEq)]
pub enum XbelItem {
    Folder(Folder),
    Bookmark(Bookmark),
}

/// A folder: an id, a title, and an ordered list of child items.
#[derive(Debug, PartialEq)]
pub struct Folder {
    pub id: String,
    pub title: Title,
    pub items: Vec<XbelItem>,
}

/// A whole XBEL document: a version attribute and the top-level items.
#[derive(Debug, PartialEq)]
pub struct Xbel {
    pub version: String,
    pub items: Vec<XbelItem>,
}

/// The model of one exec item.
pub open spec fn item_view(it: XbelItem) -> ItemView
    decreases it,
{
    match it {
        XbelItem::Bookmark(b) => ItemView::Bookmark {
            id: b.id@,
            href: b.href@,
            title: b.title.text@,
        },
        XbelItem::Folder(f) => ItemView::Folder {
            id: f.id@,
            title: f.title.text@,
            items: items_view(f.items@),
        },
    }
}

/// The model of a sibling list.
pub open spec fn items_view(s: Seq<XbelItem>) -> Seq<ItemView>
    decreases s,
{
    if s.len() == 0 {
        Seq::<ItemView>::empty()
    } else {
        seq![item_view(s[0])] + items_view(s.drop_first())
    }
}

/// The model of a whole document.
pub open spec fn xbel_view(x: Xbel) -> XbelView {
    XbelView { version: x.version@, items: items_view(x.items@) }
}

/// The view of a sibling list has one entry per item, in order.
pub proof fn lemma_items_view_index(s: Seq<XbelItem>)
    ensures
        items_view(s).len() == s.len(),
        forall|i: int| 0 <= i < s.len() ==> #[trigger] items_view(s)[i] == item_view(s[i]),
    decreases s,
{
    if s.len() > 0 {
        lemma_items_view_index(s.drop_first());
        assert forall|i: int| 0 <= i < s.len() implies #[trigger] items_view(s)[i] == item_view(
            s[i],
        ) by {
            if i > 0 {
                assert(items_view(s)[i] == items_view(s.drop_first())[i - 1]);
                assert(s.drop_first()[i - 1] == s[i]);
            }
        }
    }
}

/// The view of a prefix of a sibling list, elementwise.
pub proof fn lemma_items_view_take(s: Seq<XbelItem>, i: int)
    requires
        0 <= i <= s.len(),
    ensures
        items_view(s.subrange(0, i)).len() == i,
        forall|j: int|
            0 <= j < i ==> #[trigger] items_view(s.subrange(0, i))[j] == item_view(s[j]),
{
    let a = s.subrange(0, i);
    lemma_items_view_index(a);
    assert(forall|j: int| 0 <= j < i ==> #[trigger] a[j] == s[j]);
}

/// Viewing distributes over insertion.
pub proof fn lemma_items_view_insert(s: Seq<XbelItem>, i: int, x: XbelItem)
    requires
        0 <= i <= s.len(),
    ensures
        items_view(s.insert(i, x)) == items_view(s).insert(i, item_view(x)),
{
    lemma_items_view_index(s);
    lemma_items_view_index(s.insert(i, x));
    assert(items_view(s.insert(i, x)) =~= items_view(s).insert(i, item_view(x)));
}

/// Viewing distributes over update.
pub proof fn lemma_items_view_update(s: Seq<XbelItem>, i: int, x: XbelItem)
    requires
        0 <= i < s.len(),
    ensures
        items_view(s.update(i, x)) == items_view(s).update(i, item_view(x)),
{
    lemma_items_view_index(s);
    lemma_items_view_index(s.update(i, x));
    assert(items_view(s.update(i, x)) =~= items_view(s).update(i, item_view(x)));
}

/// Viewing distributes over removal.
pub proof fn lemma_items_view_remove(s: Seq<XbelItem>, i: int)
    requires
        0 <= i < s.len(),
    ensures
        items_view(s.remove(i)) == items_view(s).remove(i),
{
    lemma_items_view_index(s);
    lemma_items_view_index(s.remove(i));
    assert(items_view(s.remove(i)) =~= items_view(s).remove(i));
}

/// Viewing distributes over push.
pub proof fn lemma_items_view_push(s: Seq<XbelItem>, x: XbelItem)
    ensures
        items_view(s.push(x)) == items_view(s).push(item_view(x)),
{
    lemma_items_view_index(s);
    lemma_items_view_index(s.push(x));
    assert(items_view(s.push(x)) =~= items_view(s).push(item_view(x)));
}

/// Well-formedness of one item: every id in the subtree is a decimal
/// number that fits a `u64`.
pub open spec fn wf_item(v: ItemView) -> bool
    decreases v,
{
    match v {
        ItemView::Bookmark { id, .. } => parses_as_u64(id),
        ItemView::Folder { id, items, .. } => parses_as_u64(id) && wf_items(items),
    }
}

/// Well-formedness of a sibling list.
pub open spec fn wf_items(s: Seq<ItemView>) -> bool
    decreases s,
{
    s.len() == 0 || (wf_item(s[0]) && wf_items(s.drop_first()))
}

/// Well-formedness of a document: ids parse, version is "1.0".
pub open spec fn wf_xbel(v: XbelView) -> bool {
    v.version == version_1_0() && wf_items(v.items)
}

/// The fixed version attribute value.
pub open spec fn version_1_0() -> Seq<char> {
    seq!['1', '.', '0']
}

/// A well-formed list is well-formed at every index.
pub proof fn lemma_wf_items_index(s: Seq<ItemView>)
    requires
        wf_items(s),
    ensures
        forall|i: int| 0 <= i < s.len() ==> wf_item(#[trigger] s[i]),
    decreases s,
{
    if s.len() > 0 {
        lemma_wf_items_index(s.drop_first());
        assert forall|i: int| 0 <= i < s.len() implies wf_item(#[trigger] s[i]) by {
            if i > 0 {
                assert(s.drop_first()[i - 1] == s[i]);
            }
        }
    }
}

/// A list whose every index is well-formed is well-formed.
pub proof fn lemma_wf_items_from_index(s: Seq<ItemView>)
    requires
        forall|i: int| 0 <= i < s.len() ==> wf_item(#[trigger] s[i]),
    ensures
        wf_items(s),
    decreases s,
{
    if s.len() > 0 {
        assert(forall|i: int| 0 <= i < s.drop_first().len() ==> #[trigger] s.drop_first()[i] == s[
            i + 1
        ]);
        lemma_wf_items_from_index(s.drop_first());
    }
}

/// Inserting a well-formed item keeps a sibling list well-formed.
pub proof fn lemma_wf_items_insert(s: Seq<ItemView>, i: int, x: ItemView)
    requires
        0 <= i <= s.len(),
        wf_items(s),
        wf_item(x),
    ensures
        wf_items(s.insert(i, x)),
{
    lemma_wf_items_index(s);
    assert forall|j: int| 0 <= j < s.insert(i, x).len() implies wf_item(
        #[trigger] s.insert(i, x)[j],
    ) by {
        if j < i {
            assert(s.insert(i, x)[j] == s[j]);
        } else if j == i {
        } else {
            assert(s.insert(i, x)[j] == s[j - 1]);
        }
    }
    lemma_wf_items_from_index(s.insert(i, x));
}

/// Pushing a well-formed item keeps a sibling list well-formed.
pub proof fn lemma_wf_items_push(s: Seq<ItemView>, x: ItemView)
    requires
        wf_items(s),
        wf_item(x),
    ensures
        wf_items(s.push(x)),
{
    assert(s.push(x) =~= s.insert(s.len() as int, x));
    lemma_wf_items_insert(s, s.len() as int, x);
}

/// Removing an item keeps a sibling list well-formed.
pub proof fn lemma_wf_items_remove(s: Seq<ItemView>, i: int)
    requires
        0 <= i < s.len(),
        wf_items(s),
    ensures
        wf_items(s.remove(i)),
{
    lemma_wf_items_index(s);
    assert forall|j: int| 0 <= j < s.remove(i).len() implies wf_item(#[trigger] s.remove(i)[j]) by {
        if j < i {
            assert(s.remove(i)[j] == s[j]);
        } else {
            assert(s.remove(i)[j] == s[j + 1]);
        }
    }
    lemma_wf_items_from_index(s.remove(i));
}

/// The larger of two natural numbers.
pub open spec fn nat_max(a: nat, b: nat) -> nat {
    if a >= b {
        a
    } else {
        b
    }
}

/// The highest id in one item's subtree.
pub open spec fn item_high(v: ItemView) -> nat
    decreases v,
{
    match v {
        ItemView::Bookmark { id, .. } => dec_val(id),
        ItemView::Folder { id, items, .. } => nat_max(dec_val(id), items_high(items)),
    }
}

/// The highest id under a sibling list (zero for the empty list).
pub open spec fn items_high(s: Seq<ItemView>) -> nat
    decreases s,
{
    if s.len() == 0 {
        0
    } else {
        nat_max(item_high(s[0]), items_high(s.drop_first()))
    }
}

impl Title {
    /// A title holding the given text.
    pub fn new(title: &str) -> (r: Title)
        ensures
            r.text@ == title@,
    {
        Title { text: title.to_owned() }
    }
}

impl Bookmark {
    /// A bookmark with the given id, address and title.
    pub fn new(id: &str, url: &str, title: &str) -> (r: Bookmark)
        ensures
            r.id@ == id@,
            r.href@ == url@,
            r.title.text@ == title@,
    {
        Bookmark { href: url.to_owned(), id: id.to_owned(), title: Title::new(title) }
    }
}

impl Folder {
    /// A folder with the given id, title, and children (none for `None`).
    pub fn new(id: &str, title: &str, items: Option<Vec<XbelItem>>) -> (r: Folder)
        ensures
            r.id@ == id@,
            r.title.text@ == title@,
            items matches Some(v) ==> r.items@ == v@,
            items is None ==> r.items@ == Seq::<XbelItem>::empty(),
    {
        let its: Vec<XbelItem> = match items {
            Some(v) => v,
            None => Vec::new(),
        };
        Folder { id: id.to_owned(), title: Title::new(title), items: its }
    }
}

impl XbelItem {
    /// A new bookmark item.
    pub fn new_bookmark(id: &str, url: &str, title: &str) -> (r: XbelItem)
        ensures
            item_view(r) == (ItemView::Bookmark { id: id@, href: url@, title: title@ }),
    {
        XbelItem::Bookmark(Bookmark::new(id, url, title))
    }

    /// Title of a bookmark or folder.
    pub fn get_title(&self) -> (r: &Title)
        ensures
            r.text@ == iv_title(item_view(*self)),
    {
        match self {
            XbelItem::Folder(f) => &f.title,
            XbelItem::Bookmark(b) => &b.title,
        }
    }

    /// Id of a bookmark or folder.
    pub fn get_id(&self) -> (r: &String)
        ensures
            r@ == iv_id(item_view(*self)),
    {
        match self {
            XbelItem::Folder(f) => &f.id,
            XbelItem::Bookmark(b) => &b.id,
        }
    }

    /// The address of a bookmark, or `None` for a folder.
    pub fn get_url(&self) -> (r: Option<&String>)
        ensures
            self matches XbelItem::Bookmark(b) ==> r matches Some(u) && u@ == b.href@,
            self matches XbelItem::Folder(_) ==> r is None,
    {
        match self {
            XbelItem::Folder(_f) => None,
            XbelItem::Bookmark(b) => Some(&b.href),
        }
    }

    /// A deep copy of the item.
    pub fn deep_copy(&self) -> (r: XbelItem)
        ensures
            item_view(r) == item_view(*self),
        decreases *self,
    {
        match self {
            XbelItem::Bookmark(b) => XbelItem::Bookmark(
                Bookmark {
                    href: b.href.clone(),
                    id: b.id.clone(),
                    title: Title { text: b.title.text.clone() },
                },
            ),
            XbelItem::Folder(f) => {
                proof {
                    assert(decreases_to!(*self => *f));
                    assert(decreases_to!(*f => f.items));
                    assert(decreases_to!(f.items => f.items@));
                }
                let its = deep_copy_items(&f.items);
                XbelItem::Folder(
                    Folder { id: f.id.clone(), title: Title { text: f.title.text.clone() }, items: its },
                )
            },
        }
    }
}

/// A deep copy of a sibling list.
pub fn deep_copy_items(v: &Vec<XbelItem>) -> (r: Vec<XbelItem>)
    ensures
        r@.len() == v@.len(),
        items_view(r@) == items_view(v@),
    decreases v@,
{
    let mut its: Vec<XbelItem> = Vec::new();
    let mut i: usize = 0;
    while i < v.len()
        invariant
            0 <= i <= v@.len(),
            its@.len() == i,
            forall|j: int| 0 <= j < i ==> item_view(#[trigger] its@[j]) == item_view(v@[j]),
        decreases v@.len() - i,
    {
        proof {
            assert(decreases_to!(v@ => v@[i as int]));
        }
        let c = v[i].deep_copy();
        its.push(c);
        i = i + 1;
    }
    proof {
        lemma_items_view_index(its@);
        lemma_items_view_index(v@);
        assert(items_view(its@) =~= items_view(v@));
    }
    its
}

/// Highest id in one item's subtree, as executable code.
fn item_high_exec(it: &XbelItem) -> (r: u64)
    requires
        wf_item(item_view(*it)),
    ensures
        r == item_high(item_view(*it)),
    decreases *it,
{
    match it {
        XbelItem::Bookmark(b) => {
            let cs = chars_of(b.id.as_str());
            if let Some(v) = parse_u64(&cs) {
                v
            } else {
                proof {
                    assert(false);
                }
                0
            }
        },
        XbelItem::Folder(f) => {
            let cs = chars_of(f.id.as_str());
            let own: u64 = if let Some(v) = parse_u64(&cs) {
                v
            } else {
                proof {
                    assert(false);
                }
                0
            };
            let sub = items_high_exec(&f.items);
            if own >= sub {
                own
            } else {
                sub
            }
        },
    }
}

/// Highest id under a sibling list, as executable code.
fn items_high_exec(v: &Vec<XbelItem>) -> (r: u64)
    requires
        wf_items(items_view(v@)),
    ensures
        r == items_high(items_view(v@)),
    decreases v@,
{
    let mut hi: u64 = 0;
    let mut i: usize = 0;
    while i < v.len()
        invariant
            wf_items(items_view(v@)),
            0 <= i <= v@.len(),
            hi == items_high(items_view(v@.subrange(0, i as int))),
        decreases v@.len() - i,
    {
        proof {
            lemma_items_view_index(v@);
            lemma_wf_items_index(items_view(v@));
            assert(items_view(v@)[i as int] == item_view(v@[i as int]));
            assert(wf_item(item_view(v@[i as int])));
        }
        let h = item_high_exec(&v[i]);
        let new_hi = if h > hi {
            h
        } else {
            hi
        };
        proof {
            lemma_high_take_push(v@, i as int);
        }
        hi = new_hi;
        i = i + 1;
    }
    proof {
        assert(v@.subrange(0, v@.len() as int) =~= v@);
    }
    hi
}

/// Extending a prefix by one item folds its subtree maximum in on the right.
proof fn lemma_high_take_push(s: Seq<XbelItem>, i: int)
    requires
        0 <= i < s.len(),
    ensures
        items_high(items_view(s.subrange(0, i + 1))) == nat_max(
            items_high(items_view(s.subrange(0, i))),
            item_high(item_view(s[i])),
        ),
{
    let a = s.subrange(0, i);
    let b = s.subrange(0, i + 1);
    lemma_items_view_index(a);
    lemma_items_view_index(b);
    assert(forall|j: int| 0 <= j < i + 1 ==> #[trigger] b[j] == s[j]);
    assert(forall|j: int| 0 <= j < i ==> #[trigger] a[j] == s[j]);
    lemma_high_snoc(items_view(b));
    assert(items_view(b).drop_last() =~= items_view(a));
    assert(items_view(b).last() == item_view(s[i]));
}

/// The maximum over a non-empty list is the maximum over the front part
/// joined with the last element.
proof fn lemma_high_snoc(s: Seq<ItemView>)
    requires
        s.len() > 0,
    ensures
        items_high(s) == nat_max(items_high(s.drop_last()), item_high(s.last())),
    decreases s,
{
    if s.len() == 1 {
        assert(s.drop_last() =~= Seq::<ItemView>::empty());
        assert(s.drop_first() =~= Seq::<ItemView>::empty());
    } else {
        lemma_high_snoc(s.drop_first());
        assert(s.drop_first().drop_last() =~= s.drop_last().drop_first());
        assert(s.drop_first().last() == s.last());
        assert(s.drop_last()[0] == s[0]);
        assert(s.drop_last().len() > 0);
    }
}

impl Xbel {
    /// A document with version "1.0" and the given top-level items.
    pub fn new(items: Option<Vec<XbelItem>>) -> (r: Xbel)
        ensures
            r.version@ == version_1_0(),
            items matches Some(v) ==> r.items@ == v@,
            items is None ==> r.items@ == Seq::<XbelItem>::empty(),
    {
        let its: Vec<XbelItem> = match items {
            Some(v) => v,
            None => Vec::new(),
        };
        let version: String = "1.0".to_owned();
        proof {
            reveal_strlit("1.0");
            assert(version@ =~= version_1_0());
        }
        Xbel { version, items: its }
    }

    /// The highest id present in the whole tree (zero for an empty tree),
    /// found by a full traversal.
    pub fn get_highest_id(&self) -> (r: u64)
        requires
            wf_items(xbel_view(*self).items),
        ensures
            r == items_high(xbel_view(*self).items),
    {
        items_high_exec(&self.items)
    }

    /// A new bookmark whose id is one above the tree's current highest id.
    /// Two calls against the same tree mint the same id; ids are only
    /// consumed when the item is inserted.
    pub fn new_bookmark(&self, url: &str, title: &str) -> (r: XbelItem)
        requires
            wf_items(xbel_view(*self).items),
            items_high(xbel_view(*self).items) < u64::MAX,
        ensures
            item_view(r) == (ItemView::Bookmark {
                id: dec_str(items_high(xbel_view(*self).items) + 1),
                href: url@,
                title: title@,
            }),
    {
        let highest_id = self.get_highest_id();
        let id_chars = u64_to_dec(highest_id + 1);
        let id = string_from_chars(&id_chars);
        XbelItem::new_bookmark(id.as_str(), url, title)
    }
}

} // verus!
