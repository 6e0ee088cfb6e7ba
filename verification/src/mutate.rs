//! Structural mutation of the document tree.
//!
//! Adding resolves a target, mints the new bookmark's id as the tree's
//! highest id plus one (computed at the moment of the call, not reserved:
//! two adds against the same in-memory tree mint the same id), and splices
//! the bookmark in as the placement dictates. Removing deletes the
//! resolved item with its whole subtree; a dry run resolves and reports
//! only and leaves the tree untouched. Every failure leaves the tree
//! exactly as it was.

use vstd::prelude::*;

use crate::cli_args::{under_view, Placement, Under, UnderView};
use crate::loc::{
    lemma_list_at_push, lemma_list_at_wf, lemma_replace_at_wf,
    list_at, loc_valid, loc_view, replace_at,
};
use crate::num::{dec_str, lemma_dec_str_is_dec, lemma_dec_val_dec_str, u64_to_dec};
use crate::resolve::{
    bfs_find, lemma_bfs_find, lemma_resolve_path_from, lemma_resolve_spec_id, path_view,
    resolve_path_from, resolve_spec, split_slash, PathView, XbelPath,
};
use crate::text::string_from_chars;
use crate::xbel_format::{
    item_view, items_high, items_view, iv_id, iv_items, iv_title, lemma_items_view_index,
    lemma_items_view_insert, lemma_items_view_push, lemma_items_view_remove,
    lemma_items_view_update, lemma_wf_items_insert, lemma_wf_items_push,
    lemma_wf_items_remove, wf_item, wf_items, xbel_view, ItemView, Xbel, XbelItem,
};

verus! {

/// The library's error kinds: failed resolution, a placement that needs a
/// folder finding a bookmark, an id that is not a decimal number, a
/// failed file operation (raised by the calling layer), input that is not
/// XBEL, and removal addressed at the root.
#[derive(Debug, PartialEq)]
pub enum XbelError {
    AddressNotFound(XbelPath),
    NotAFolder(String),
    MalformedId(String),
    IoFailure,
    FormatFailure,
    RootRemoval,
}

/// Insert `item` at position `index` of the sibling list named by the
/// tail of `loc` from depth `d` on.
fn insert_in_list(items: &mut Vec<XbelItem>, loc: &Vec<usize>, d: usize, index: usize, item: XbelItem)
    requires
        d <= loc@.len(),
        loc_valid(items_view(old(items)@), loc_view(loc@).skip(d as int)),
        index <= list_at(items_view(old(items)@), loc_view(loc@).skip(d as int)).len(),
    ensures
        items_view(final(items)@) == replace_at(
            items_view(old(items)@),
            loc_view(loc@).skip(d as int),
            list_at(items_view(old(items)@), loc_view(loc@).skip(d as int)).insert(
                index as int,
                item_view(item),
            ),
        ),
    decreases loc@.len() - d,
{
    let ghost s0 = items@;
    let ghost v0 = items_view(s0);
    let ghost tail = loc_view(loc@).skip(d as int);
    proof {
        lemma_items_view_index(s0);
    }
    if d == loc.len() {
        proof {
            assert(tail =~= Seq::<int>::empty());
        }
        items.insert(index, item);
        proof {
            crate::xbel_format::lemma_items_view_insert(s0, index as int, item);
        }
    } else {
        proof {
            assert(tail.len() > 0);
            assert(tail[0] == loc@[d as int] as int);
        }
        let i = loc[d];
        let mut el = items.remove(i);
        proof {
            assert(el == s0[i as int]);
            assert(item_view(el) == v0[i as int]);
        }
        match &mut el {
            XbelItem::Folder(f) => {
                proof {
                    assert(iv_items(v0[i as int]) == items_view(f.items@));
                    assert(tail.drop_first() =~= loc_view(loc@).skip(d + 1));
                }
                insert_in_list(&mut f.items, loc, d + 1, index, item);
            },
            XbelItem::Bookmark(_) => {
                proof {
                    assert(false);
                }
            },
        }
        items.insert(i, el);
        proof {
            assert(items@ =~= s0.update(i as int, el));
            lemma_items_view_update(s0, i as int, el);
            let nl = list_at(v0, tail).insert(index as int, item_view(item));
            assert(item_view(el) == (ItemView::Folder {
                id: iv_id(v0[i as int]),
                title: iv_title(v0[i as int]),
                items: replace_at(iv_items(v0[i as int]), tail.drop_first(), nl),
            }));
            assert(items_view(items@) =~= replace_at(v0, tail, nl));
        }
    }
}

/// Remove the item at position `index` of the sibling list named by the
/// tail of `loc` from depth `d` on; its whole subtree goes with it.
fn remove_in_list(items: &mut Vec<XbelItem>, loc: &Vec<usize>, d: usize, index: usize) -> (r:
    XbelItem)
    requires
        d <= loc@.len(),
        loc_valid(items_view(old(items)@), loc_view(loc@).skip(d as int)),
        index < list_at(items_view(old(items)@), loc_view(loc@).skip(d as int)).len(),
    ensures
        items_view(final(items)@) == replace_at(
            items_view(old(items)@),
            loc_view(loc@).skip(d as int),
            list_at(items_view(old(items)@), loc_view(loc@).skip(d as int)).remove(index as int),
        ),
        item_view(r) == list_at(items_view(old(items)@), loc_view(loc@).skip(d as int))[index as int],
    decreases loc@.len() - d,
{
    let ghost s0 = items@;
    let ghost v0 = items_view(s0);
    let ghost tail = loc_view(loc@).skip(d as int);
    proof {
        lemma_items_view_index(s0);
    }
    if d == loc.len() {
        proof {
            assert(tail =~= Seq::<int>::empty());
        }
        let r = items.remove(index);
        proof {
            crate::xbel_format::lemma_items_view_remove(s0, index as int);
        }
        r
    } else {
        proof {
            assert(tail.len() > 0);
            assert(tail[0] == loc@[d as int] as int);
        }
        let i = loc[d];
        let mut el = items.remove(i);
        proof {
            assert(el == s0[i as int]);
            assert(item_view(el) == v0[i as int]);
        }
        let r;
        match &mut el {
            XbelItem::Folder(f) => {
                proof {
                    assert(iv_items(v0[i as int]) == items_view(f.items@));
                    assert(tail.drop_first() =~= loc_view(loc@).skip(d + 1));
                }
                r = remove_in_list(&mut f.items, loc, d + 1, index);
            },
            XbelItem::Bookmark(_) => {
                proof {
                    assert(false);
                }
                r = el;
                return r;
            },
        }
        items.insert(i, el);
        proof {
            assert(items@ =~= s0.update(i as int, el));
            lemma_items_view_update(s0, i as int, el);
            let nl = list_at(v0, tail).remove(index as int);
            assert(item_view(el) == (ItemView::Folder {
                id: iv_id(v0[i as int]),
                title: iv_title(v0[i as int]),
                items: replace_at(iv_items(v0[i as int]), tail.drop_first(), nl),
            }));
            assert(items_view(items@) =~= replace_at(v0, tail, nl));
        }
        r
    }
}

/// The bookmark view that an add against tree `v` splices in.
pub open spec fn minted_bookmark(v: Seq<ItemView>, url: Seq<char>, title: Seq<char>) -> ItemView {
    ItemView::Bookmark { id: dec_str(items_high(v) + 1), href: url, title }
}

impl Xbel {
    /// Add a bookmark for `url` with `title` at the target `under`. The
    /// new id is the tree's highest id plus one. On any failure the tree
    /// is left unchanged: an unresolvable id or path gives
    /// `AddressNotFound`; a placement that must land inside a folder but
    /// finds a bookmark gives `NotAFolder`.
    pub fn add_bookmark(&mut self, under: &Under, url: &str, title: &str) -> (r: Result<
        (),
        XbelError,
    >)
        requires
            wf_items(xbel_view(*old(self)).items),
            items_high(xbel_view(*old(self)).items) < u64::MAX,
        ensures
            xbel_view(*final(self)).version == xbel_view(*old(self)).version,
            wf_items(xbel_view(*final(self)).items),
            ({
                let v = xbel_view(*old(self)).items;
                let nv = xbel_view(*final(self)).items;
                let bm = minted_bookmark(v, url@, title@);
                match under_view(*under) {
                    UnderView::Root => r is Ok && nv == v.push(bm),
                    UnderView::Id { id, placement } => match bfs_find(
                        v,
                        seq![Seq::<int>::empty()],
                        id,
                    ) {
                        Option::None => {
                            &&& r == Result::<(), XbelError>::Err(
                                XbelError::AddressNotFound(XbelPath::Id(id)),
                            )
                            &&& nv == v
                            &&& !crate::resolve::items_contain_id(v, id, 0)
                        },
                        Option::Some((loc, i)) => {
                            let l = list_at(v, loc);
                            match placement {
                                Placement::Before => r is Ok && nv == replace_at(
                                    v,
                                    loc,
                                    l.insert(i, bm),
                                ),
                                Placement::After => r is Ok && nv == replace_at(
                                    v,
                                    loc,
                                    l.insert(i + 1, bm),
                                ),
                                Placement::InFolderPrepend => if l[i] is Folder {
                                    r is Ok && nv == replace_at(
                                        v,
                                        loc.push(i),
                                        iv_items(l[i]).insert(0, bm),
                                    )
                                } else {
                                    (r matches Err(e) && e matches XbelError::NotAFolder(s) && s@
                                        == dec_str(id as nat)) && nv == v
                                },
                                Placement::InFolderAppend => if l[i] is Folder {
                                    r is Ok && nv == replace_at(
                                        v,
                                        loc.push(i),
                                        iv_items(l[i]).push(bm),
                                    )
                                } else {
                                    (r matches Err(e) && e matches XbelError::NotAFolder(s) && s@
                                        == dec_str(id as nat)) && nv == v
                                },
                            }
                        },
                    },
                    UnderView::Folder { path } => match resolve_path_from(
                        v,
                        Seq::<int>::empty(),
                        split_slash(path),
                    ) {
                        Option::None => {
                            &&& (r matches Err(e) && e matches XbelError::AddressNotFound(p)
                                && path_view(p) == (PathView::Path { path }))
                            &&& nv == v
                        },
                        Option::Some((loc, i)) => {
                            let l = list_at(v, loc);
                            if l[i] is Folder {
                                r is Ok && nv == replace_at(
                                    v,
                                    loc.push(i),
                                    iv_items(l[i]).push(bm),
                                )
                            } else {
                                (r matches Err(e) && e matches XbelError::NotAFolder(s) && s@
                                    == iv_id(l[i])) && nv == v
                            }
                        },
                    },
                }
            }),
    {
        let ghost v = items_view(self.items@);
        let bookmark = self.new_bookmark(url, title);
        let ghost bm = item_view(bookmark);
        proof {
            lemma_dec_str_is_dec(items_high(v) + 1);
            lemma_dec_val_dec_str(items_high(v) + 1);
            assert(wf_item(bm));
        }
        match under {
            Under::Root => {
                self.items.push(bookmark);
                proof {
                    lemma_items_view_push(old(self).items@, bookmark);
                    lemma_wf_items_push(v, bm);
                }
                Ok(())
            },
            Under::Id(id, placement) => {
                let path = XbelPath::Id(*id);
                proof {
                    lemma_resolve_spec_id(v, *id);
                    lemma_bfs_find(v, seq![Seq::<int>::empty()], *id);
                }
                match self.get_items_mut(&path) {
                    None => Err(XbelError::AddressNotFound(path)),
                    Some((i, loc)) => {
                        let ghost locv = loc_view(loc@);
                        let ghost l = list_at(v, locv);
                        proof {
                            assert(loc_valid(v, locv));
                            assert(locv.skip(0) =~= locv);
                            lemma_list_at_wf(v, locv);
                        }
                        match placement {
                            Placement::Before => {
                                let cur = crate::resolve::list_at_exec(&self.items, &loc, 0);
                                proof {
                                    lemma_items_view_index(cur@);
                                    assert(i < cur@.len());
                                }
                                insert_in_list(&mut self.items, &loc, 0, i, bookmark);
                                proof {
                                    lemma_wf_items_insert(l, i as int, bm);
                                    lemma_replace_at_wf(v, locv, l.insert(i as int, bm));
                                }
                                Ok(())
                            },
                            Placement::After => {
                                let cur = crate::resolve::list_at_exec(&self.items, &loc, 0);
                                let n = cur.len();
                                proof {
                                    lemma_items_view_index(cur@);
                                    assert(i < n);
                                }
                                insert_in_list(&mut self.items, &loc, 0, i + 1, bookmark);
                                proof {
                                    lemma_wf_items_insert(l, i + 1, bm);
                                    lemma_replace_at_wf(v, locv, l.insert(i + 1, bm));
                                }
                                Ok(())
                            },
                            Placement::InFolderPrepend => {
                                let cur = crate::resolve::list_at_exec(&self.items, &loc, 0);
                                proof {
                                    lemma_items_view_index(cur@);
                                    assert(i < cur@.len());
                                }
                                let is_folder = matches!(&cur[i], XbelItem::Folder(_));
                                proof {
                                    lemma_items_view_index(cur@);
                                    assert(items_view(cur@)[i as int] == item_view(cur@[i as int]));
                                    assert(is_folder == (l[i as int] is Folder));
                                }
                                if is_folder {
                                    let mut nl = loc;
                                    nl.push(i);
                                    proof {
                                        lemma_list_at_push(v, locv, i as int);
                                        assert(loc_view(nl@) =~= locv.push(i as int));
                                        assert(loc_view(nl@).skip(0) =~= loc_view(nl@));
                                        lemma_list_at_wf(v, locv.push(i as int));
                                    }
                                    insert_in_list(&mut self.items, &nl, 0, 0, bookmark);
                                    proof {
                                        lemma_wf_items_insert(iv_items(l[i as int]), 0, bm);
                                        lemma_replace_at_wf(
                                            v,
                                            locv.push(i as int),
                                            iv_items(l[i as int]).insert(0, bm),
                                        );
                                    }
                                    Ok(())
                                } else {
                                    let id_chars = u64_to_dec(*id);
                                    Err(XbelError::NotAFolder(string_from_chars(&id_chars)))
                                }
                            },
                            Placement::InFolderAppend => {
                                let cur = crate::resolve::list_at_exec(&self.items, &loc, 0);
                                proof {
                                    lemma_items_view_index(cur@);
                                    assert(i < cur@.len());
                                }
                                let is_folder = matches!(&cur[i], XbelItem::Folder(_));
                                let child_count = match &cur[i] {
                                    XbelItem::Folder(f) => f.items.len(),
                                    XbelItem::Bookmark(_) => 0,
                                };
                                proof {
                                    lemma_items_view_index(cur@);
                                    assert(items_view(cur@)[i as int] == item_view(cur@[i as int]));
                                    assert(is_folder == (l[i as int] is Folder));
                                    if is_folder {
                                        lemma_items_view_index(
                                            match cur@[i as int] {
                                                XbelItem::Folder(f) => f.items@,
                                                XbelItem::Bookmark(_) => Seq::<XbelItem>::empty(),
                                            },
                                        );
                                    }
                                }
                                if is_folder {
                                    proof {
                                        assert(child_count == iv_items(l[i as int]).len());
                                    }
                                    let mut nl = loc;
                                    nl.push(i);
                                    proof {
                                        lemma_list_at_push(v, locv, i as int);
                                        assert(loc_view(nl@) =~= locv.push(i as int));
                                        assert(loc_view(nl@).skip(0) =~= loc_view(nl@));
                                        lemma_list_at_wf(v, locv.push(i as int));
                                    }
                                    insert_in_list(&mut self.items, &nl, 0, child_count, bookmark);
                                    proof {
                                        let ch = iv_items(l[i as int]);
                                        assert(ch.insert(ch.len() as int, bm) =~= ch.push(bm));
                                        lemma_wf_items_push(ch, bm);
                                        lemma_replace_at_wf(v, locv.push(i as int), ch.push(bm));
                                    }
                                    Ok(())
                                } else {
                                    let id_chars = u64_to_dec(*id);
                                    Err(XbelError::NotAFolder(string_from_chars(&id_chars)))
                                }
                            },
                        }
                    },
                }
            },
            Under::Folder(p) => {
                let path = XbelPath::Path(p.clone());
                proof {
                    assert(split_slash(p@).len() > 0);
                    lemma_resolve_path_from(v, Seq::<int>::empty(), split_slash(p@));
                }
                match self.get_items_mut(&path) {
                    None => Err(XbelError::AddressNotFound(path)),
                    Some((i, loc)) => {
                        let ghost locv = loc_view(loc@);
                        let ghost l = list_at(v, locv);
                        proof {
                            assert(loc_valid(v, locv));
                            assert(locv.skip(0) =~= locv);
                            lemma_list_at_wf(v, locv);
                        }
                        let cur = crate::resolve::list_at_exec(&self.items, &loc, 0);
                        proof {
                            lemma_items_view_index(cur@);
                            assert(i < cur@.len());
                        }
                        let is_folder = matches!(&cur[i], XbelItem::Folder(_));
                        let child_count = match &cur[i] {
                            XbelItem::Folder(f) => f.items.len(),
                            XbelItem::Bookmark(_) => 0,
                        };
                        proof {
                            lemma_items_view_index(cur@);
                            assert(items_view(cur@)[i as int] == item_view(cur@[i as int]));
                            assert(is_folder == (l[i as int] is Folder));
                            if is_folder {
                                lemma_items_view_index(
                                    match cur@[i as int] {
                                        XbelItem::Folder(f) => f.items@,
                                        XbelItem::Bookmark(_) => Seq::<XbelItem>::empty(),
                                    },
                                );
                            }
                        }
                        if is_folder {
                            proof {
                                assert(child_count == iv_items(l[i as int]).len());
                            }
                            let mut nl = loc;
                            nl.push(i);
                            proof {
                                lemma_list_at_push(v, locv, i as int);
                                assert(loc_view(nl@) =~= locv.push(i as int));
                                assert(loc_view(nl@).skip(0) =~= loc_view(nl@));
                                lemma_list_at_wf(v, locv.push(i as int));
                            }
                            insert_in_list(&mut self.items, &nl, 0, child_count, bookmark);
                            proof {
                                let ch = iv_items(l[i as int]);
                                assert(ch.insert(ch.len() as int, bm) =~= ch.push(bm));
                                lemma_wf_items_push(ch, bm);
                                lemma_replace_at_wf(v, locv.push(i as int), ch.push(bm));
                            }
                            Ok(())
                        } else {
                            let id_s = cur[i].get_id().clone();
                            Err(XbelError::NotAFolder(id_s))
                        }
                    },
                }
            },
        }
    }

    /// Remove the item the address resolves to, and its whole subtree.
    /// `Root` is unsupported and gives `RootRemoval`; an address that
    /// resolves to nothing gives `AddressNotFound`. With `dry_run` the
    /// tree is left untouched and a copy of the item that would go is
    /// returned; otherwise the removed item is returned.
    pub fn remove(&mut self, path: &XbelPath, dry_run: bool) -> (r: Result<XbelItem, XbelError>)
        requires
            wf_items(xbel_view(*old(self)).items),
        ensures
            xbel_view(*final(self)).version == xbel_view(*old(self)).version,
            wf_items(xbel_view(*final(self)).items),
            dry_run ==> xbel_view(*final(self)).items == xbel_view(*old(self)).items,
            ({
                let v = xbel_view(*old(self)).items;
                let nv = xbel_view(*final(self)).items;
                match path_view(*path) {
                    PathView::Root => r == Result::<XbelItem, XbelError>::Err(
                        XbelError::RootRemoval,
                    ) && nv == v,
                    _ => match resolve_spec(v, path_view(*path)) {
                        Option::None => {
                            &&& (r matches Err(e) && e matches XbelError::AddressNotFound(p)
                                && path_view(p) == path_view(*path))
                            &&& nv == v
                        },
                        Option::Some((loc, i)) => {
                            let l = list_at(v, loc);
                            &&& (r matches Ok(it) && item_view(it) == l[i])
                            &&& (dry_run ==> nv == v)
                            &&& (!dry_run ==> nv == replace_at(v, loc, l.remove(i)))
                        },
                    },
                }
            }),
    {
        let ghost v = items_view(self.items@);
        match path {
            XbelPath::Root => Err(XbelError::RootRemoval),
            _ => {
                proof {
                    match path_view(*path) {
                        PathView::Id { id } => {
                            lemma_resolve_spec_id(v, id);
                            lemma_bfs_find(v, seq![Seq::<int>::empty()], id);
                        },
                        PathView::Path { path: p } => {
                            assert(split_slash(p).len() > 0);
                            lemma_resolve_path_from(v, Seq::<int>::empty(), split_slash(p));
                        },
                        PathView::Root => {},
                    }
                }
                match self.get_items_mut(path) {
                    None => Err(XbelError::AddressNotFound(path.deep_copy())),
                    Some((i, loc)) => {
                        let ghost locv = loc_view(loc@);
                        let ghost l = list_at(v, locv);
                        proof {
                            assert(loc_valid(v, locv));
                            assert(locv.skip(0) =~= locv);
                            lemma_list_at_wf(v, locv);
                        }
                        if dry_run {
                            let cur = crate::resolve::list_at_exec(&self.items, &loc, 0);
                            proof {
                                lemma_items_view_index(cur@);
                                assert(i < cur@.len());
                                assert(items_view(cur@)[i as int] == item_view(cur@[i as int]));
                            }
                            let copy = cur[i].deep_copy();
                            Ok(copy)
                        } else {
                            let removed = remove_in_list(&mut self.items, &loc, 0, i);
                            proof {
                                lemma_wf_items_remove(l, i as int);
                                lemma_replace_at_wf(v, locv, l.remove(i as int));
                            }
                            Ok(removed)
                        }
                    },
                }
            },
        }
    }
}

} // verus!
