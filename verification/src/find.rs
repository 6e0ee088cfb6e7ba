//! The find command's matching rules.
//!
//! Search runs over the flat traversal of the whole tree. The kind flags
//! restrict matches to folders or to bookmarks; the where flags restrict
//! the search to the title text or to the address; with neither, both are
//! searched. Matching is plain substring containment.

use vstd::prelude::*;

use crate::cli_args::FindArgs;
use crate::text::{chars_of, has_sub, string_from_chars, str_contains};
use crate::traverse::{flat_items, XbelIterator};
use crate::xbel_format::{item_view, items_view, iv_title, xbel_view, ItemView, Xbel, XbelItem};

verus! {

/// The searchable address of an item: a bookmark's href, empty for a
/// folder.
pub open spec fn iv_url_text(v: ItemView) -> Seq<char> {
    match v {
        ItemView::Bookmark { href, .. } => href,
        ItemView::Folder { .. } => Seq::<char>::empty(),
    }
}

/// Does one item match the find arguments?
pub open spec fn find_matches(v: ItemView, fa: FindArgs) -> bool {
    let kind_ok = if fa.folder {
        v is Folder
    } else if fa.bookmark {
        v is Bookmark
    } else {
        true
    };
    let where_ok = if fa.title {
        has_sub(iv_title(v), fa.find@)
    } else if fa.url {
        has_sub(iv_url_text(v), fa.find@)
    } else {
        has_sub(iv_title(v), fa.find@) || has_sub(iv_url_text(v), fa.find@)
    };
    kind_ok && where_ok
}

/// The matching items of a run, in order.
pub open spec fn find_filter(s: Seq<ItemView>, fa: FindArgs) -> Seq<ItemView>
    decreases s.len(),
{
    if s.len() == 0 {
        Seq::<ItemView>::empty()
    } else if find_matches(s[0], fa) {
        seq![s[0]] + find_filter(s.drop_first(), fa)
    } else {
        find_filter(s.drop_first(), fa)
    }
}

/// Filtering one more entry keeps or drops it on the right.
proof fn lemma_find_filter_snoc(s: Seq<ItemView>, x: ItemView, fa: FindArgs)
    ensures
        find_matches(x, fa) ==> find_filter(s.push(x), fa) == find_filter(s, fa).push(x),
        !find_matches(x, fa) ==> find_filter(s.push(x), fa) == find_filter(s, fa),
    decreases s.len(),
{
    if s.len() == 0 {
        assert(s.push(x)[0] == x);
        assert(s.push(x).drop_first() =~= Seq::<ItemView>::empty());
        assert(find_filter(s.push(x).drop_first(), fa) == Seq::<ItemView>::empty());
        assert(find_filter(s, fa) == Seq::<ItemView>::empty());
        if find_matches(x, fa) {
            assert(find_filter(s.push(x), fa) == seq![x] + Seq::<ItemView>::empty());
            assert(find_filter(s.push(x), fa) =~= find_filter(s, fa).push(x));
        } else {
            assert(find_filter(s.push(x), fa) == Seq::<ItemView>::empty());
        }
    } else {
        assert(s.push(x)[0] == s[0]);
        assert(s.push(x).drop_first() =~= s.drop_first().push(x));
        lemma_find_filter_snoc(s.drop_first(), x, fa);
        if find_matches(x, fa) {
            if find_matches(s[0], fa) {
                assert(find_filter(s.push(x), fa) == seq![s[0]] + find_filter(
                    s.drop_first().push(x),
                    fa,
                ));
                assert(find_filter(s.push(x), fa) =~= find_filter(s, fa).push(x));
            } else {
                assert(find_filter(s.push(x), fa) == find_filter(s.drop_first().push(x), fa));
                assert(find_filter(s.push(x), fa) =~= find_filter(s, fa).push(x));
            }
        } else {
            if find_matches(s[0], fa) {
                assert(find_filter(s.push(x), fa) == seq![s[0]] + find_filter(
                    s.drop_first().push(x),
                    fa,
                ));
                assert(find_filter(s.push(x), fa) =~= find_filter(s, fa));
            } else {
                assert(find_filter(s.push(x), fa) == find_filter(s.drop_first().push(x), fa));
                assert(find_filter(s.push(x), fa) =~= find_filter(s, fa));
            }
        }
    }
}

/// Whether one borrowed item matches the find arguments.
fn item_matches(it: &XbelItem, fa: &FindArgs) -> (r: bool)
    ensures
        r == find_matches(item_view(*it), *fa),
{
    let kind_ok = if fa.folder {
        matches!(it, XbelItem::Folder(_))
    } else if fa.bookmark {
        matches!(it, XbelItem::Bookmark(_))
    } else {
        true
    };
    if !kind_ok {
        return false;
    }
    let title_hit = str_contains(it.get_title().text.as_str(), fa.find.as_str());
    let url_hit = match it {
        XbelItem::Bookmark(b) => str_contains(b.href.as_str(), fa.find.as_str()),
        XbelItem::Folder(_) => str_contains("", fa.find.as_str()),
    };
    proof {
        reveal_strlit("");
        assert(""@ =~= Seq::<char>::empty());
    }
    if fa.title {
        title_hit
    } else if fa.url {
        url_hit
    } else {
        title_hit || url_hit
    }
}

/// The items of the tree matching the find arguments, as deep copies, in
/// flat depth-first order.
pub fn find_items(xbel: &Xbel, fa: &FindArgs) -> (r: Vec<XbelItem>)
    ensures
        items_view(r@) == find_filter(flat_items(xbel_view(*xbel).items), *fa),
{
    let ghost run = flat_items(xbel_view(*xbel).items);
    let mut it = XbelIterator::new(xbel);
    let mut out: Vec<XbelItem> = Vec::new();
    loop
        invariant
            run == flat_items(xbel_view(*xbel).items),
            it.run() == run,
            0 <= it.produced() <= run.len(),
            items_view(out@) == find_filter(run.subrange(0, it.produced()), *fa),
        decreases run.len() - it.produced(),
    {
        let ghost produced = it.produced();
        match it.next() {
            None => {
                proof {
                    assert(produced >= run.len());
                    assert(produced == run.len());
                    assert(items_view(out@) == find_filter(run.subrange(0, produced), *fa));
                    assert(run.subrange(0, produced) =~= run);
                    assert(find_filter(run.subrange(0, produced), *fa) == find_filter(run, *fa));
                    assert(items_view(out@) == find_filter(
                        flat_items(xbel_view(*xbel).items),
                        *fa,
                    ));
                }
                return out;
            },
            Some(item) => {
                let ghost pre = out@;
                if item_matches(item, fa) {
                    let c = item.deep_copy();
                    out.push(c);
                    proof {
                        crate::xbel_format::lemma_items_view_push(pre, c);
                    }
                }
                proof {
                    let a = run.subrange(0, produced);
                    let b = run.subrange(0, produced + 1);
                    assert(b =~= a.push(run[produced]));
                    lemma_find_filter_snoc(a, run[produced], *fa);
                }
            },
        }
    }
}

/// The word, with an `s` appended for a count other than zero or one.
pub fn pluralize(s: &str, count: usize) -> (r: String)
    ensures
        (count == 0 || count == 1) ==> r@ == s@,
        (count > 1) ==> r@ == s@.push('s'),
{
    if count == 0 || count == 1 {
        let cs = chars_of(s);
        string_from_chars(&cs)
    } else {
        let mut cs = chars_of(s);
        cs.push('s');
        string_from_chars(&cs)
    }
}

} // verus!
