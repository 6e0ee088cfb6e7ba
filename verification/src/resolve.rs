//! Address resolution.
//!
//! An address (`XbelPath`) is one of `Root`, `Id(n)`, or a `/`-separated
//! title path. Resolution maps an address to a location: the sibling list
//! that holds the addressed item, and the item's index in it. `Root`
//! always resolves to the top-level list with index zero (a container
//! handle for appending, not a located item). `Id(n)` searches the whole
//! tree breadth first, level by level, and the first match wins. A title
//! path is resolved segment by segment, first title match per sibling
//! list; every segment but the last must name a folder.

use vstd::prelude::*;

use crate::loc::{list_at, loc_valid, loc_view, node_count, items_count_from, lemma_list_at_push};
use crate::num::{dec_str, is_u64_dec, parse_u64, u64_to_dec};
use crate::text::{chars_of, push_str_chars, string_from_chars};
use crate::xbel_format::{
    iv_id, iv_items, iv_title, item_view, items_view, wf_item, wf_items, ItemView, Xbel, XbelItem,
    lemma_items_view_index, lemma_wf_items_index, xbel_view,
};

verus! {

/// A logical address into the tree.
#[derive(Debug, Clone, PartialEq)]
pub enum XbelPath {
    Root,
    Id(u64),
    Path(String),
}

impl XbelPath {
    /// The address as text: `root`, `id = N`, or `path = p`.
    pub fn to_display_string(&self) -> (r: String)
        ensures
            self matches XbelPath::Root ==> r@ == seq!['r', 'o', 'o', 't'],
            self matches XbelPath::Id(id) ==> r@ == seq!['i', 'd', ' ', '=', ' '] + dec_str(
                id as nat,
            ),
            self matches XbelPath::Path(p) ==> r@ == seq!['p', 'a', 't', 'h', ' ', '=', ' ']
                + p@,
    {
        let mut out: Vec<char> = Vec::new();
        match self {
            XbelPath::Root => {
                push_str_chars(&mut out, "root");
                proof {
                    reveal_strlit("root");
                    assert(out@ =~= seq!['r', 'o', 'o', 't']);
                }
            },
            XbelPath::Id(id) => {
                push_str_chars(&mut out, "id = ");
                let digits = u64_to_dec(*id);
                crate::text::push_chars(&mut out, &digits);
                proof {
                    reveal_strlit("id = ");
                    assert("id = "@ =~= seq!['i', 'd', ' ', '=', ' ']);
                }
            },
            XbelPath::Path(p) => {
                push_str_chars(&mut out, "path = ");
                push_str_chars(&mut out, p.as_str());
                proof {
                    reveal_strlit("path = ");
                    assert("path = "@ =~= seq!['p', 'a', 't', 'h', ' ', '=', ' ']);
                }
            },
        }
        string_from_chars(&out)
    }

    /// A copy of the address.
    pub fn deep_copy(&self) -> (r: XbelPath)
        ensures
            path_view(r) == path_view(*self),
    {
        match self {
            XbelPath::Root => XbelPath::Root,
            XbelPath::Id(id) => XbelPath::Id(*id),
            XbelPath::Path(s) => XbelPath::Path(s.clone()),
        }
    }
}

/// Mathematical model of an address.
pub enum PathView {
    Root,
    Id { id: u64 },
    Path { path: Seq<char> },
}

/// The model of an exec address.
pub open spec fn path_view(p: XbelPath) -> PathView {
    match p {
        XbelPath::Root => PathView::Root,
        XbelPath::Id(id) => PathView::Id { id },
        XbelPath::Path(s) => PathView::Path { path: s@ },
    }
}

/// Index of the first item from `k` on whose id has value `id`; -1 if none.
pub open spec fn find_id_from(l: Seq<ItemView>, id: u64, k: int) -> int
    decreases l.len() - k,
{
    if k < 0 || k >= l.len() {
        -1
    } else if is_u64_dec(iv_id(l[k]), id) {
        k
    } else {
        find_id_from(l, id, k + 1)
    }
}

/// What `find_id_from` returns: either -1 and no match from `k` on, or the
/// least matching index at or after `k`.
pub proof fn lemma_find_id_from(l: Seq<ItemView>, id: u64, k: int)
    requires
        0 <= k <= l.len(),
    ensures
        ({
            let r = find_id_from(l, id, k);
            (r == -1 && forall|j: int| k <= j < l.len() ==> !is_u64_dec(iv_id(#[trigger] l[j]), id))
                || (k <= r < l.len() && is_u64_dec(iv_id(l[r]), id) && forall|j: int|
                k <= j < r ==> !is_u64_dec(iv_id(#[trigger] l[j]), id))
        }),
    decreases l.len() - k,
{
    if k < l.len() && !is_u64_dec(iv_id(l[k]), id) {
        lemma_find_id_from(l, id, k + 1);
    }
}

/// Index of the first item from `k` on whose title text is `t`; -1 if none.
pub open spec fn find_title_from(l: Seq<ItemView>, t: Seq<char>, k: int) -> int
    decreases l.len() - k,
{
    if k < 0 || k >= l.len() {
        -1
    } else if iv_title(l[k]) == t {
        k
    } else {
        find_title_from(l, t, k + 1)
    }
}

/// What `find_title_from` returns, in the manner of `lemma_find_id_from`.
pub proof fn lemma_find_title_from(l: Seq<ItemView>, t: Seq<char>, k: int)
    requires
        0 <= k <= l.len(),
    ensures
        ({
            let r = find_title_from(l, t, k);
            (r == -1 && forall|j: int| k <= j < l.len() ==> iv_title(#[trigger] l[j]) != t) || (k
                <= r < l.len() && iv_title(l[r]) == t && forall|j: int|
                k <= j < r ==> iv_title(#[trigger] l[j]) != t)
        }),
    decreases l.len() - k,
{
    if k < l.len() && iv_title(l[k]) != t {
        lemma_find_title_from(l, t, k + 1);
    }
}

/// Does the subtree of one item hold an item with id value `id`?
pub open spec fn item_contains_id(v: ItemView, id: u64) -> bool
    decreases v, 0nat,
{
    match v {
        ItemView::Bookmark { .. } => is_u64_dec(iv_id(v), id),
        ItemView::Folder { items, .. } => is_u64_dec(iv_id(v), id) || items_contain_id(
            items,
            id,
            0,
        ),
    }
}

/// Does any subtree of the items of `l` from `k` on hold id value `id`?
pub open spec fn items_contain_id(l: Seq<ItemView>, id: u64, k: int) -> bool
    decreases l, l.len() - k,
{
    if k < 0 || k >= l.len() {
        false
    } else {
        item_contains_id(l[k], id) || items_contain_id(l, id, k + 1)
    }
}

/// Containment from index zero decomposed: a direct match in the list, or
/// containment under one of its folders.
pub proof fn lemma_items_contain_decompose(l: Seq<ItemView>, id: u64, k: int)
    requires
        0 <= k <= l.len(),
    ensures
        items_contain_id(l, id, k) <==> ((exists|j: int|
            k <= j < l.len() && is_u64_dec(iv_id(#[trigger] l[j]), id)) || (exists|j: int|
            k <= j < l.len() && #[trigger] l[j] is Folder && items_contain_id(
                iv_items(l[j]),
                id,
                0,
            ))),
    decreases l.len() - k,
{
    if k < l.len() {
        lemma_items_contain_decompose(l, id, k + 1);
        assert(item_contains_id(l[k], id) <==> (is_u64_dec(iv_id(l[k]), id) || (l[k] is Folder
            && items_contain_id(iv_items(l[k]), id, 0))));
    }
}

/// The locations of the children lists of every folder of `l` from `k` on,
/// in sibling order, each written `loc.push(index)`.
pub open spec fn child_locs_from(loc: Seq<int>, l: Seq<ItemView>, k: int) -> Seq<Seq<int>>
    decreases l.len() - k,
{
    if k < 0 || k >= l.len() {
        Seq::<Seq<int>>::empty()
    } else if l[k] is Folder {
        seq![loc.push(k)] + child_locs_from(loc, l, k + 1)
    } else {
        child_locs_from(loc, l, k + 1)
    }
}

/// Every entry of a queue names a sibling list.
pub open spec fn queue_wf(root: Seq<ItemView>, q: Seq<Seq<int>>) -> bool {
    forall|k: int| 0 <= k < q.len() ==> loc_valid(root, #[trigger] q[k])
}

/// Total node count of the sibling lists a queue names.
pub open spec fn queue_count(root: Seq<ItemView>, q: Seq<Seq<int>>) -> nat
    decreases q.len(),
{
    if q.len() == 0 {
        0
    } else {
        items_count_from(list_at(root, q[0]), 0) + queue_count(root, q.drop_first())
    }
}

/// Queue node counts add over concatenation.
pub proof fn lemma_queue_count_app(root: Seq<ItemView>, a: Seq<Seq<int>>, b: Seq<Seq<int>>)
    ensures
        queue_count(root, a + b) == queue_count(root, a) + queue_count(root, b),
    decreases a.len(),
{
    if a.len() == 0 {
        assert(a + b =~= b);
    } else {
        assert((a + b).drop_first() =~= a.drop_first() + b);
        assert((a + b)[0] == a[0]);
        lemma_queue_count_app(root, a.drop_first(), b);
    }
}

/// Properties of the children queue of a sibling list: every entry is
/// valid and names the children of the matching folder; every folder at or
/// after `k` has an entry; and the entries' total node count is strictly
/// below the node count of the list itself, by at least the number of
/// items counted.
pub proof fn lemma_child_locs(root: Seq<ItemView>, loc: Seq<int>, l: Seq<ItemView>, k: int)
    requires
        loc_valid(root, loc),
        l == list_at(root, loc),
        0 <= k <= l.len(),
    ensures
        queue_wf(root, child_locs_from(loc, l, k)),
        forall|m: int|
            0 <= m < child_locs_from(loc, l, k).len() ==> (exists|i: int|
                k <= i < l.len() && l[i] is Folder && #[trigger] child_locs_from(loc, l, k)[m]
                    == loc.push(i)),
        forall|i: int|
            k <= i < l.len() && #[trigger] l[i] is Folder ==> (exists|m: int|
                0 <= m < child_locs_from(loc, l, k).len() && child_locs_from(loc, l, k)[m]
                    == loc.push(i)),
        queue_count(root, child_locs_from(loc, l, k)) + (l.len() - k) <= items_count_from(l, k),
    decreases l.len() - k,
{
    if k < l.len() {
        lemma_child_locs(root, loc, l, k + 1);
        let rest = child_locs_from(loc, l, k + 1);
        if l[k] is Folder {
            lemma_list_at_push(root, loc, k);
            let cc = child_locs_from(loc, l, k);
            assert(cc == seq![loc.push(k)] + rest);
            assert(cc[0] == loc.push(k));
            assert(forall|m: int| 1 <= m < cc.len() ==> #[trigger] cc[m] == rest[m - 1]);
            assert(cc.drop_first() =~= rest);
            assert(queue_count(root, cc) == items_count_from(iv_items(l[k]), 0) + queue_count(
                root,
                rest,
            ));
            assert(node_count(l[k]) == 1 + items_count_from(iv_items(l[k]), 0));
            assert forall|i: int| k <= i < l.len() && #[trigger] l[i] is Folder implies (exists|
                m: int,
            |
                0 <= m < cc.len() && cc[m] == loc.push(i)) by {
                if i == k {
                    assert(cc[0] == loc.push(k));
                } else {
                    let m0 = choose|m0: int|
                        0 <= m0 < rest.len() && rest[m0] == loc.push(i);
                    assert(cc[m0 + 1] == loc.push(i));
                }
            }
        } else {
            assert(node_count(l[k]) >= 1);
            assert(child_locs_from(loc, l, k) == rest);
            assert forall|i: int| k <= i < l.len() && #[trigger] l[i] is Folder implies (exists|
                m: int,
            |
                0 <= m < child_locs_from(loc, l, k).len() && child_locs_from(loc, l, k)[m]
                    == loc.push(i)) by {
                let m0 = choose|m0: int| 0 <= m0 < rest.len() && rest[m0] == loc.push(i);
                assert(child_locs_from(loc, l, k)[m0] == loc.push(i));
            }
        }
    }
}

/// Breadth-first search for id value `id` over a queue of sibling-list
/// locations: take the front list; if some item in it has the id, the
/// first such index wins; otherwise enqueue the children lists of its
/// folders, in order, and go on.
pub open spec fn bfs_find(root: Seq<ItemView>, q: Seq<Seq<int>>, id: u64) -> Option<(Seq<int>, int)>
    decreases queue_count(root, q), q.len(),
        when queue_wf(root, q)
        via bfs_find_decreases
{
    if q.len() == 0 {
        None
    } else {
        let loc = q[0];
        let l = list_at(root, loc);
        let i = find_id_from(l, id, 0);
        if i >= 0 {
            Some((loc, i))
        } else {
            bfs_find(root, q.drop_first() + child_locs_from(loc, l, 0), id)
        }
    }
}

#[via_fn]
proof fn bfs_find_decreases(root: Seq<ItemView>, q: Seq<Seq<int>>, id: u64) {
    if q.len() > 0 {
        let loc = q[0];
        let l = list_at(root, loc);
        lemma_child_locs(root, loc, l, 0);
        lemma_queue_count_app(root, q.drop_first(), child_locs_from(loc, l, 0));
        assert(queue_count(root, q) == items_count_from(l, 0) + queue_count(root, q.drop_first()));
    }
}

/// The step a breadth-first search makes keeps the queue well-formed and
/// does not raise the measure; with a non-empty front list it lowers it.
pub proof fn lemma_bfs_step(root: Seq<ItemView>, q: Seq<Seq<int>>)
    requires
        queue_wf(root, q),
        q.len() > 0,
    ensures
        ({
            let loc = q[0];
            let l = list_at(root, loc);
            let q2 = q.drop_first() + child_locs_from(loc, l, 0);
            &&& queue_wf(root, q2)
            &&& queue_count(root, q2) + l.len() <= queue_count(root, q)
            &&& (l.len() == 0 ==> q2 =~= q.drop_first())
        }),
{
    let loc = q[0];
    let l = list_at(root, loc);
    lemma_child_locs(root, loc, l, 0);
    lemma_queue_count_app(root, q.drop_first(), child_locs_from(loc, l, 0));
    assert(queue_count(root, q) == items_count_from(l, 0) + queue_count(root, q.drop_first()));
    let q2 = q.drop_first() + child_locs_from(loc, l, 0);
    assert(forall|k: int| 0 <= k < q.drop_first().len() ==> q.drop_first()[k] == #[trigger] q[k + 1]);
    assert forall|k: int| 0 <= k < q2.len() implies loc_valid(root, #[trigger] q2[k]) by {
        if k < q.drop_first().len() {
            assert(q2[k] == q[k + 1]);
        } else {
            assert(q2[k] == child_locs_from(loc, l, 0)[k - q.drop_first().len()]);
        }
    }
    if l.len() == 0 {
        assert(child_locs_from(loc, l, 0) =~= Seq::<Seq<int>>::empty());
    }
}

/// What a breadth-first search finds: on `Some`, a valid location whose
/// list holds an item with the searched id at the returned index, the
/// first such index in that list; on `None`, no list the queue reaches
/// holds the id anywhere. Conversely, if some queued subtree holds the id,
/// the search succeeds.
#[verifier::rlimit(100)]
pub proof fn lemma_bfs_find(root: Seq<ItemView>, q: Seq<Seq<int>>, id: u64)
    requires
        queue_wf(root, q),
    ensures
        ({
            let r = bfs_find(root, q, id);
            &&& (r matches Some((loc, i)) ==> loc_valid(root, loc) && 0 <= i < list_at(
                root,
                loc,
            ).len() && is_u64_dec(iv_id(list_at(root, loc)[i]), id) && find_id_from(
                list_at(root, loc),
                id,
                0,
            ) == i)
            &&& (r is None ==> forall|k: int|
                0 <= k < q.len() ==> !items_contain_id(list_at(root, #[trigger] q[k]), id, 0))
            &&& ((exists|k: int|
                0 <= k < q.len() && items_contain_id(list_at(root, #[trigger] q[k]), id, 0))
                ==> r is Some)
        }),
    decreases queue_count(root, q), q.len(),
{
    if q.len() == 0 {
    } else {
        let loc = q[0];
        let l = list_at(root, loc);
        let i = find_id_from(l, id, 0);
        lemma_find_id_from(l, id, 0);
        if i >= 0 {
        } else {
            let cc = child_locs_from(loc, l, 0);
            let q2 = q.drop_first() + cc;
            lemma_bfs_step(root, q);
            lemma_bfs_find(root, q2, id);
            lemma_items_contain_decompose(l, id, 0);
            lemma_child_locs(root, loc, l, 0);
            assert(forall|k: int|
                0 <= k < q.drop_first().len() ==> q.drop_first()[k] == #[trigger] q[k + 1]);
            assert(forall|k: int|
                0 <= k < q2.len() ==> (k < q.len() - 1 ==> #[trigger] q2[k] == q[k + 1]) && (k
                    >= q.len() - 1 ==> q2[k] == cc[k - (q.len() - 1)]));
            let r = bfs_find(root, q2, id);
            assert(bfs_find(root, q, id) == r);
            if r is None {
                assert forall|k: int| 0 <= k < q.len() implies !items_contain_id(
                    list_at(root, #[trigger] q[k]),
                    id,
                    0,
                ) by {
                    if k == 0 {
                        assert forall|j: int|
                            0 <= j < l.len() && #[trigger] l[j] is Folder implies !items_contain_id(
                            iv_items(l[j]),
                            id,
                            0,
                        ) by {
                            let m = choose|m: int|
                                0 <= m < cc.len() && cc[m] == loc.push(j);
                            lemma_list_at_push(root, loc, j);
                            assert(q2[m + q.len() - 1] == cc[m]);
                            assert(!items_contain_id(list_at(root, cc[m]), id, 0));
                        }
                    } else {
                        assert(q2[k - 1] == q[k]);
                    }
                }
            }
            if exists|k: int|
                0 <= k < q.len() && items_contain_id(list_at(root, #[trigger] q[k]), id, 0) {
                let k = choose|k: int|
                    0 <= k < q.len() && items_contain_id(list_at(root, #[trigger] q[k]), id, 0);
                if k == 0 {
                    let j = choose|j: int|
                        0 <= j < l.len() && #[trigger] l[j] is Folder && items_contain_id(
                            iv_items(l[j]),
                            id,
                            0,
                        );
                    let m = choose|m: int| 0 <= m < cc.len() && cc[m] == loc.push(j);
                    lemma_list_at_push(root, loc, j);
                    assert(q2[m + q.len() - 1] == cc[m]);
                    assert(items_contain_id(list_at(root, q2[m + q.len() - 1]), id, 0));
                } else {
                    assert(q2[k - 1] == q[k]);
                    assert(items_contain_id(list_at(root, q2[k - 1]), id, 0));
                }
            }
        }
    }
}

/// Resolution of a title path, segment by segment, from the sibling list
/// named by `loc`: the first item of the current list whose title equals
/// the current segment is taken; a segment that is not the last must name
/// a folder, whose children the next segment searches.
pub open spec fn resolve_path_from(
    root: Seq<ItemView>,
    loc: Seq<int>,
    segs: Seq<Seq<char>>,
) -> Option<(Seq<int>, int)>
    recommends
        loc_valid(root, loc),
    decreases segs.len(),
{
    if segs.len() == 0 {
        None
    } else {
        let l = list_at(root, loc);
        let i = find_title_from(l, segs[0], 0);
        if i < 0 {
            None
        } else if segs.len() == 1 {
            Some((loc, i))
        } else if l[i] is Folder {
            resolve_path_from(root, loc.push(i), segs.drop_first())
        } else {
            None
        }
    }
}

/// Index of the first occurrence of `c` in `s` at or after `k`; -1 if none.
pub open spec fn find_char_from(s: Seq<char>, c: char, k: int) -> int
    decreases s.len() - k,
{
    if k < 0 || k >= s.len() {
        -1
    } else if s[k] == c {
        k
    } else {
        find_char_from(s, c, k + 1)
    }
}

/// What `find_char_from` returns: -1 and no occurrence, or the least
/// occurrence index at or after `k`.
pub proof fn lemma_find_char_from(s: Seq<char>, c: char, k: int)
    requires
        0 <= k <= s.len(),
    ensures
        ({
            let r = find_char_from(s, c, k);
            (r == -1 && forall|j: int| k <= j < s.len() ==> s[j] != c) || (k <= r < s.len() && s[r]
                == c && forall|j: int| k <= j < r ==> s[j] != c)
        }),
    decreases s.len() - k,
{
    if k < s.len() && s[k] != c {
        lemma_find_char_from(s, c, k + 1);
    }
}

/// The `/`-separated segments of `s` from index `k` on. A string without
/// a separator is one segment; separators at the ends give empty segments,
/// as `str::split` does.
pub open spec fn split_slash_from(s: Seq<char>, k: int) -> Seq<Seq<char>>
    decreases s.len() - k,
        when 0 <= k <= s.len()
        via split_slash_from_decreases
{
    let i = find_char_from(s, '/', k);
    if i < 0 {
        seq![s.subrange(k, s.len() as int)]
    } else {
        seq![s.subrange(k, i)] + split_slash_from(s, i + 1)
    }
}

#[via_fn]
proof fn split_slash_from_decreases(s: Seq<char>, k: int) {
    lemma_find_char_from(s, '/', k);
}

/// The `/`-separated segments of a whole path string.
pub open spec fn split_slash(s: Seq<char>) -> Seq<Seq<char>> {
    split_slash_from(s, 0)
}

/// What path resolution returns on success: a valid location whose list
/// holds, at the returned index, the first item titled like the last
/// segment.
pub proof fn lemma_resolve_path_from(root: Seq<ItemView>, loc: Seq<int>, segs: Seq<Seq<char>>)
    requires
        loc_valid(root, loc),
        segs.len() > 0,
    ensures
        ({
            let r = resolve_path_from(root, loc, segs);
            r matches Some((rloc, i)) ==> loc_valid(root, rloc) && 0 <= i < list_at(
                root,
                rloc,
            ).len() && iv_title(list_at(root, rloc)[i]) == segs.last() && find_title_from(
                list_at(root, rloc),
                segs.last(),
                0,
            ) == i
        }),
    decreases segs.len(),
{
    let l = list_at(root, loc);
    let i = find_title_from(l, segs[0], 0);
    lemma_find_title_from(l, segs[0], 0);
    if i >= 0 && segs.len() > 1 && l[i] is Folder {
        lemma_list_at_push(root, loc, i);
        lemma_resolve_path_from(root, loc.push(i), segs.drop_first());
        assert(segs.drop_first().last() == segs.last());
    }
}

/// The view of an executable queue of locations.
pub open spec fn queue_view(q: Seq<Vec<usize>>) -> Seq<Seq<int>> {
    q.map_values(|v: Vec<usize>| loc_view(v@))
}

/// The view of an executable list of path segments.
pub open spec fn segs_view(q: Seq<Vec<char>>) -> Seq<Seq<char>> {
    q.map_values(|v: Vec<char>| v@)
}

/// A copy of a location vector.
fn copy_loc(v: &Vec<usize>) -> (r: Vec<usize>)
    ensures
        r@ == v@,
{
    let mut r: Vec<usize> = Vec::new();
    let mut i: usize = 0;
    while i < v.len()
        invariant
            0 <= i <= v@.len(),
            r@ == v@.subrange(0, i as int),
        decreases v@.len() - i,
    {
        r.push(v[i]);
        proof {
            assert(r@ =~= v@.subrange(0, i + 1));
        }
        i = i + 1;
    }
    proof {
        assert(v@.subrange(0, v@.len() as int) =~= v@);
    }
    r
}

/// A copy of a character range of `s`.
fn subvec(s: &Vec<char>, a: usize, b: usize) -> (r: Vec<char>)
    requires
        a <= b <= s@.len(),
    ensures
        r@ == s@.subrange(a as int, b as int),
{
    let mut r: Vec<char> = Vec::new();
    let mut i: usize = a;
    while i < b
        invariant
            a <= i <= b <= s@.len(),
            r@ == s@.subrange(a as int, i as int),
        decreases b - i,
    {
        r.push(s[i]);
        proof {
            assert(r@ =~= s@.subrange(a as int, i + 1));
        }
        i = i + 1;
    }
    r
}

/// First occurrence of `c` in `s` at or after `k`, as executable code.
fn find_char_exec(s: &Vec<char>, c: char, k: usize) -> (r: Option<usize>)
    requires
        k <= s@.len(),
    ensures
        r is None <==> find_char_from(s@, c, k as int) == -1,
        r matches Some(i) ==> k <= i < s@.len() && i == find_char_from(s@, c, k as int),
{
    let mut j: usize = k;
    while j < s.len()
        invariant
            k <= j <= s@.len(),
            find_char_from(s@, c, k as int) == find_char_from(s@, c, j as int),
        decreases s@.len() - j,
    {
        if s[j] == c {
            proof {
                lemma_find_char_from(s@, c, j as int);
            }
            return Some(j);
        }
        j = j + 1;
    }
    None
}

/// The `/`-separated segments of `s` from index `k` on, as executable code.
fn split_from_exec(s: &Vec<char>, k: usize) -> (r: Vec<Vec<char>>)
    requires
        k <= s@.len(),
    ensures
        segs_view(r@) == split_slash_from(s@, k as int),
        r@.len() > 0,
    decreases s@.len() - k,
{
    match find_char_exec(s, '/', k) {
        None => {
            let seg = subvec(s, k, s.len());
            let mut r: Vec<Vec<char>> = Vec::new();
            r.push(seg);
            proof {
                assert(segs_view(r@) =~= split_slash_from(s@, k as int));
            }
            r
        },
        Some(i) => {
            let n = s.len();
            proof {
                lemma_find_char_from(s@, '/', k as int);
                assert(i < n);
            }
            let seg = subvec(s, k, i);
            let mut rest = split_from_exec(s, i + 1);
            rest.insert(0, seg);
            proof {
                assert(segs_view(rest@) =~= split_slash_from(s@, k as int));
            }
            rest
        },
    }
}

/// The sibling list named by the tail of `loc` from depth `d` on.
pub(crate) fn list_at_exec<'a>(items: &'a Vec<XbelItem>, loc: &Vec<usize>, d: usize) -> (r: &'a Vec<XbelItem>)
    requires
        d <= loc@.len(),
        loc_valid(items_view(items@), loc_view(loc@).skip(d as int)),
    ensures
        items_view(r@) == list_at(items_view(items@), loc_view(loc@).skip(d as int)),
    decreases loc@.len() - d,
{
    proof {
        lemma_items_view_index(items@);
    }
    if d == loc.len() {
        proof {
            assert(loc_view(loc@).skip(d as int) =~= Seq::<int>::empty());
        }
        items
    } else {
        let ghost tail = loc_view(loc@).skip(d as int);
        proof {
            assert(tail.len() > 0);
            assert(tail[0] == loc@[d as int] as int);
        }
        let i = loc[d];
        match &items[i] {
            XbelItem::Folder(f) => {
                proof {
                    assert(item_view(items@[i as int]) == items_view(items@)[i as int]);
                    assert(iv_items(items_view(items@)[i as int]) == items_view(f.items@));
                    assert(tail.drop_first() =~= loc_view(loc@).skip(d + 1));
                }
                list_at_exec(&f.items, loc, d + 1)
            },
            XbelItem::Bookmark(_) => {
                proof {
                    assert(item_view(items@[i as int]) == items_view(items@)[i as int]);
                    assert(false);
                }
                items
            },
        }
    }
}

/// Index of the first item of `l` whose id has value `id`.
fn find_id_exec(l: &Vec<XbelItem>, id: u64) -> (r: Option<usize>)
    requires
        wf_items(items_view(l@)),
    ensures
        r is None <==> find_id_from(items_view(l@), id, 0) == -1,
        r matches Some(i) ==> 0 <= i && i as int == find_id_from(items_view(l@), id, 0),
{
    let ghost lv = items_view(l@);
    proof {
        lemma_items_view_index(l@);
        lemma_wf_items_index(lv);
    }
    let mut j: usize = 0;
    while j < l.len()
        invariant
            0 <= j <= l@.len(),
            lv == items_view(l@),
            wf_items(lv),
            lv.len() == l@.len(),
            forall|t: int| 0 <= t < lv.len() ==> #[trigger] lv[t] == item_view(l@[t]),
            forall|t: int| 0 <= t < lv.len() ==> wf_item(#[trigger] lv[t]),
            find_id_from(lv, id, 0) == find_id_from(lv, id, j as int),
        decreases l@.len() - j,
    {
        let cs = chars_of(l[j].get_id().as_str());
        let v = if let Some(v) = parse_u64(&cs) {
            v
        } else {
            proof {
                assert(false);
            }
            0
        };
        if v == id {
            proof {
                assert(is_u64_dec(iv_id(lv[j as int]), id));
            }
            return Some(j);
        }
        proof {
            assert(!is_u64_dec(iv_id(lv[j as int]), id));
        }
        j = j + 1;
    }
    None
}

/// Index of the first item of `l` whose title text is `t`.
fn find_title_exec(l: &Vec<XbelItem>, t: &Vec<char>) -> (r: Option<usize>)
    ensures
        r is None <==> find_title_from(items_view(l@), t@, 0) == -1,
        r matches Some(i) ==> 0 <= i && i as int == find_title_from(items_view(l@), t@, 0),
{
    let ghost lv = items_view(l@);
    proof {
        lemma_items_view_index(l@);
    }
    let mut j: usize = 0;
    while j < l.len()
        invariant
            0 <= j <= l@.len(),
            lv == items_view(l@),
            lv.len() == l@.len(),
            forall|k: int| 0 <= k < lv.len() ==> #[trigger] lv[k] == item_view(l@[k]),
            find_title_from(lv, t@, 0) == find_title_from(lv, t@, j as int),
        decreases l@.len() - j,
    {
        if crate::text::chars_eq_str(t, l[j].get_title().text.as_str()) {
            proof {
                assert(iv_title(lv[j as int]) == t@);
            }
            return Some(j);
        }
        proof {
            assert(iv_title(lv[j as int]) != t@);
        }
        j = j + 1;
    }
    None
}

/// Breadth-first search for the sibling list holding an item with id
/// value `id`, as executable code: level by level, first match wins.
fn resolve_id_exec(items: &Vec<XbelItem>, id: u64) -> (r: Option<(usize, Vec<usize>)>)
    requires
        wf_items(items_view(items@)),
    ensures
        ({
            let sr = bfs_find(items_view(items@), seq![Seq::<int>::empty()], id);
            &&& (r is None <==> sr is None)
            &&& (r matches Some((i, loc)) ==> sr == Some((loc_view(loc@), i as int)))
        }),
{
    let ghost root = items_view(items@);
    let mut queue: Vec<Vec<usize>> = Vec::new();
    let first: Vec<usize> = Vec::new();
    queue.push(first);
    proof {
        assert(loc_view(first@) =~= Seq::<int>::empty());
        assert(queue_view(queue@) =~= seq![Seq::<int>::empty()]);
        assert(queue_wf(root, queue_view(queue@)));
    }
    loop
        invariant
            root == items_view(items@),
            wf_items(root),
            queue_wf(root, queue_view(queue@)),
            bfs_find(root, queue_view(queue@), id) == bfs_find(
                root,
                seq![Seq::<int>::empty()],
                id,
            ),
        decreases queue_count(root, queue_view(queue@)), queue@.len(),
    {
        if queue.len() == 0 {
            proof {
                assert(queue_view(queue@).len() == 0);
            }
            return None;
        }
        let ghost qv = queue_view(queue@);
        let loc = queue.remove(0);
        proof {
            assert(qv[0] == loc_view(loc@));
            assert(queue_view(queue@) =~= qv.drop_first());
            assert(loc_valid(root, loc_view(loc@)));
            assert(loc_view(loc@).skip(0) =~= loc_view(loc@));
        }
        let l = list_at_exec(items, &loc, 0);
        let ghost locv = loc_view(loc@);
        let ghost lv = items_view(l@);
        proof {
            crate::loc::lemma_list_at_wf(root, locv);
        }
        match find_id_exec(l, id) {
            Some(i) => {
                proof {
                    assert(bfs_find(root, qv, id) == Some((locv, i as int)));
                }
                return Some((i, loc));
            },
            None => {
                let ghost cc = child_locs_from(locv, lv, 0);
                let ghost qdrop = qv.drop_first();
                proof {
                    lemma_items_view_index(l@);
                }
                let mut j: usize = 0;
                while j < l.len()
                    invariant
                        0 <= j <= l@.len(),
                        lv == items_view(l@),
                        lv.len() == l@.len(),
                        locv == loc_view(loc@),
                        forall|t: int| 0 <= t < lv.len() ==> #[trigger] lv[t] == item_view(l@[t]),
                        queue_view(queue@) + child_locs_from(locv, lv, j as int) =~= qdrop + cc,
                    decreases l@.len() - j,
                {
                    match &l[j] {
                        XbelItem::Folder(_) => {
                            let mut nl = copy_loc(&loc);
                            nl.push(j);
                            let ghost qbefore = queue_view(queue@);
                            queue.push(nl);
                            proof {
                                assert(lv[j as int] is Folder);
                                assert(loc_view(nl@) =~= locv.push(j as int));
                                assert(queue_view(queue@) =~= qbefore.push(locv.push(j as int)));
                                assert(child_locs_from(locv, lv, j as int) == seq![
                                    locv.push(j as int),
                                ] + child_locs_from(locv, lv, j + 1));
                                assert(queue_view(queue@) + child_locs_from(locv, lv, j + 1) =~= (
                                qbefore + child_locs_from(locv, lv, j as int)));
                            }
                        },
                        XbelItem::Bookmark(_) => {
                            proof {
                                assert(!(lv[j as int] is Folder));
                                assert(child_locs_from(locv, lv, j as int) == child_locs_from(
                                    locv,
                                    lv,
                                    j + 1,
                                ));
                            }
                        },
                    }
                    j = j + 1;
                }
                proof {
                    assert(child_locs_from(locv, lv, l@.len() as int) =~= Seq::<Seq<int>>::empty());
                    assert(queue_view(queue@) =~= qdrop + cc);
                    lemma_bfs_step(root, qv);
                    assert(bfs_find(root, qv, id) == bfs_find(root, qdrop + cc, id));
                    if lv.len() == 0 {
                        assert(queue_view(queue@) =~= qdrop);
                    }
                }
            },
        }
    }
}

/// Resolution of the segments of a title path from `si` on, starting at
/// the sibling list `cur` named by `loc`.
fn resolve_path_exec(
    root: &Vec<XbelItem>,
    cur: &Vec<XbelItem>,
    loc: Vec<usize>,
    segs: &Vec<Vec<char>>,
    si: usize,
) -> (r: Option<(usize, Vec<usize>)>)
    requires
        loc_valid(items_view(root@), loc_view(loc@)),
        items_view(cur@) == list_at(items_view(root@), loc_view(loc@)),
        si < segs@.len(),
    ensures
        ({
            let sr = resolve_path_from(
                items_view(root@),
                loc_view(loc@),
                segs_view(segs@).skip(si as int),
            );
            &&& (r is None <==> sr is None)
            &&& (r matches Some((i, rl)) ==> sr == Some((loc_view(rl@), i as int)))
        }),
    decreases segs@.len() - si,
{
    let ghost rootv = items_view(root@);
    let ghost locv = loc_view(loc@);
    let ghost tail = segs_view(segs@).skip(si as int);
    proof {
        assert(tail.len() == segs@.len() - si);
        assert(tail[0] == segs@[si as int]@);
    }
    match find_title_exec(cur, &segs[si]) {
        None => None,
        Some(i) => {
            proof {
                lemma_items_view_index(cur@);
                lemma_find_title_from(items_view(cur@), segs@[si as int]@, 0);
                assert(i < cur@.len());
            }
            if si == segs.len() - 1 {
                Some((i, loc))
            } else {
                match &cur[i] {
                    XbelItem::Folder(f) => {
                        proof {
                            lemma_items_view_index(cur@);
                            assert(items_view(cur@)[i as int] == item_view(cur@[i as int]));
                            assert(items_view(cur@)[i as int] is Folder);
                            lemma_list_at_push(rootv, locv, i as int);
                            assert(iv_items(items_view(cur@)[i as int]) == items_view(f.items@));
                        }
                        let mut nl = loc;
                        nl.push(i);
                        proof {
                            assert(loc_view(nl@) =~= locv.push(i as int));
                            assert(tail.drop_first() =~= segs_view(segs@).skip(si + 1));
                        }
                        resolve_path_exec(root, &f.items, nl, segs, si + 1)
                    },
                    XbelItem::Bookmark(_) => {
                        proof {
                            lemma_items_view_index(cur@);
                            assert(items_view(cur@)[i as int] == item_view(cur@[i as int]));
                            assert(!(items_view(cur@)[i as int] is Folder));
                        }
                        None
                    },
                }
            }
        },
    }
}

/// Containment in a nested sibling list lifts to the whole tree.
pub proof fn lemma_contains_at(items: Seq<ItemView>, loc: Seq<int>, id: u64)
    requires
        loc_valid(items, loc),
        items_contain_id(list_at(items, loc), id, 0),
    ensures
        items_contain_id(items, id, 0),
    decreases loc.len(),
{
    if loc.len() == 0 {
        assert(list_at(items, loc) == items);
    } else {
        let i = loc[0];
        lemma_contains_at(iv_items(items[i]), loc.drop_first(), id);
        lemma_items_contain_decompose(items, id, 0);
        assert(items[i] is Folder && items_contain_id(iv_items(items[i]), id, 0));
    }
}

/// What an address resolves to: `Root` is the top-level list with index
/// zero; `Id` is found breadth first over the whole tree; a title path is
/// resolved segment by segment.
pub open spec fn resolve_spec(items: Seq<ItemView>, p: PathView) -> Option<(Seq<int>, int)> {
    match p {
        PathView::Root => Some((Seq::<int>::empty(), 0)),
        PathView::Id { id } => bfs_find(items, seq![Seq::<int>::empty()], id),
        PathView::Path { path } => resolve_path_from(items, Seq::<int>::empty(), split_slash(path)),
    }
}

/// An address resolves exactly when the tree holds a matching item: for
/// `Id`, some item with that id value; for a path, resolution succeeds as
/// the segment walk dictates; `Root` always resolves.
pub proof fn lemma_resolve_spec_id(items: Seq<ItemView>, id: u64)
    ensures
        resolve_spec(items, PathView::Id { id }) is Some <==> items_contain_id(items, id, 0),
        resolve_spec(items, PathView::Id { id }) matches Some((loc, i)) ==> loc_valid(items, loc)
            && 0 <= i < list_at(items, loc).len() && is_u64_dec(iv_id(list_at(items, loc)[i]), id),
{
    let q = seq![Seq::<int>::empty()];
    assert(loc_valid(items, q[0]));
    lemma_bfs_find(items, q, id);
    assert(list_at(items, q[0]) == items);
    if items_contain_id(items, id, 0) {
        assert(items_contain_id(list_at(items, q[0]), id, 0));
    }
    match bfs_find(items, q, id) {
        Some((loc, i)) => {
            let l = list_at(items, loc);
            lemma_items_contain_decompose(l, id, 0);
            assert(is_u64_dec(iv_id(l[i]), id));
            assert(items_contain_id(l, id, 0));
            lemma_contains_at(items, loc, id);
        },
        None => {},
    }
}

impl Xbel {
    /// Resolve an address to the sibling list holding the addressed item
    /// and the item's index in that list. The list is returned as a
    /// location: the chain of folder indices leading to it from the top.
    /// `Root` gives the top-level list and index zero; `Id` resolves iff
    /// some item carries the id; a path resolves segment by segment over
    /// title texts.
    pub fn get_items_mut(&self, path: &XbelPath) -> (r: Option<(usize, Vec<usize>)>)
        requires
            wf_items(xbel_view(*self).items),
        ensures
            ({
                let sr = resolve_spec(xbel_view(*self).items, path_view(*path));
                &&& (r is None <==> sr is None)
                &&& (r matches Some((i, loc)) ==> sr == Some((loc_view(loc@), i as int)))
                &&& (path_view(*path) matches PathView::Id { id } ==> (r is Some
                    <==> items_contain_id(xbel_view(*self).items, id, 0)))
            }),
    {
        proof {
            lemma_items_view_index(self.items@);
        }
        match path {
            XbelPath::Root => {
                let loc: Vec<usize> = Vec::new();
                proof {
                    assert(loc_view(loc@) =~= Seq::<int>::empty());
                }
                Some((0, loc))
            },
            XbelPath::Id(id) => {
                proof {
                    lemma_resolve_spec_id(xbel_view(*self).items, *id);
                }
                resolve_id_exec(&self.items, *id)
            },
            XbelPath::Path(s) => {
                let cs = chars_of(s.as_str());
                let segs = split_from_exec(&cs, 0);
                let loc: Vec<usize> = Vec::new();
                proof {
                    assert(loc_view(loc@) =~= Seq::<int>::empty());
                    assert(segs_view(segs@).skip(0) =~= segs_view(segs@));
                    assert(segs_view(segs@) == split_slash(s@));
                }
                resolve_path_exec(&self.items, &self.items, loc, &segs, 0)
            },
        }
    }
}

} // verus!
