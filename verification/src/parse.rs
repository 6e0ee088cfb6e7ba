//! The parser.
//!
//! Reads the XBEL dialect the serializer writes: an optional XML prolog
//! and DOCTYPE, comments and whitespace between elements, the `xbel` root
//! with an optional `version` attribute, and nested `folder` / `bookmark`
//! elements, each carrying its attributes in the canonical order and a
//! leading `title` element. The five standard entities are decoded in
//! text and attribute values; a raw `>` in text passes through. The
//! grammar is stated by the `p_` family of spec functions; the executable
//! parser returns exactly what they say. An id attribute that is not a
//! decimal `u64` number is reported as a malformed id, so a parsed tree
//! is always well-formed.

use vstd::prelude::*;

use crate::mutate::XbelError;
use crate::num::parses_as_u64;
use crate::xbel_format::{item_view, items_view, wf_item, wf_items, xbel_view, ItemView, Xbel, XbelItem};

verus! {

/// The outcome of a parsing step: a value and the position just after
/// it, a format failure, or an id that is not a decimal number.
pub enum PRes<T> {
    Good(T, int),
    Fail,
    BadId(Seq<char>),
}

/// XML whitespace.
pub open spec fn is_ws(c: char) -> bool {
    c == ' ' || c == '\t' || c == '\r' || c == '\n'
}

/// Does `p` occur in `s` starting exactly at `i`?
pub open spec fn starts_at(s: Seq<char>, i: int, p: Seq<char>) -> bool {
    0 <= i && i + p.len() <= s.len() && s.subrange(i, i + p.len()) == p
}

/// `<!--`.
pub open spec fn comment_start_chars() -> Seq<char> {
    seq!['<', '!', '-', '-']
}

/// `-->`.
pub open spec fn comment_end_chars() -> Seq<char> {
    seq!['-', '-', '>']
}

/// The position just after the first occurrence of `p` at or after `i`;
/// -1 when there is none.
pub open spec fn scan_past(s: Seq<char>, i: int, p: Seq<char>) -> int
    decreases s.len() - i,
{
    if i < 0 || i + p.len() > s.len() || p.len() == 0 {
        -1
    } else if starts_at(s, i, p) {
        i + p.len()
    } else {
        scan_past(s, i + 1, p)
    }
}

/// What `scan_past` returns: -1, or a position after `i` by at least the
/// pattern's length and at most the input's end.
pub proof fn lemma_scan_past(s: Seq<char>, i: int, p: Seq<char>)
    requires
        0 <= i,
    ensures
        scan_past(s, i, p) == -1 || (i + p.len() <= scan_past(s, i, p) <= s.len()),
    decreases s.len() - i,
{
    if !(i < 0 || i + p.len() > s.len() || p.len() == 0) && !starts_at(s, i, p) {
        lemma_scan_past(s, i + 1, p);
    }
}

/// Skip whitespace and comments; an unterminated comment skips to the
/// end.
pub open spec fn skip_trivia(s: Seq<char>, i: int) -> int
    decreases s.len() - i,
{
    if i < 0 || i >= s.len() {
        i
    } else if is_ws(s[i]) {
        skip_trivia(s, i + 1)
    } else if starts_at(s, i, comment_start_chars()) {
        let j = scan_past(s, i + 4, comment_end_chars());
        if j <= i || j > s.len() {
            s.len() as int
        } else {
            skip_trivia(s, j)
        }
    } else {
        i
    }
}

/// Skipping trivia never moves backward nor past the end.
pub proof fn lemma_skip_trivia(s: Seq<char>, i: int)
    requires
        0 <= i <= s.len(),
    ensures
        i <= skip_trivia(s, i) <= s.len(),
    decreases s.len() - i,
{
    if i < s.len() {
        if is_ws(s[i]) {
            lemma_skip_trivia(s, i + 1);
        } else if starts_at(s, i, comment_start_chars()) {
            let j = scan_past(s, i + 4, comment_end_chars());
            lemma_scan_past(s, i + 4, comment_end_chars());
            if i < j <= s.len() {
                lemma_skip_trivia(s, j);
            }
        }
    }
}

/// The five standard entities: the character an entity at `i` stands for
/// and the position just after it.
pub open spec fn entity_at(s: Seq<char>, i: int) -> Option<(char, int)> {
    if starts_at(s, i, seq!['&', 'a', 'm', 'p', ';']) {
        Some(('&', i + 5))
    } else if starts_at(s, i, seq!['&', 'l', 't', ';']) {
        Some(('<', i + 4))
    } else if starts_at(s, i, seq!['&', 'g', 't', ';']) {
        Some(('>', i + 4))
    } else if starts_at(s, i, seq!['&', 'a', 'p', 'o', 's', ';']) {
        Some(('\'', i + 6))
    } else if starts_at(s, i, seq!['&', 'q', 'u', 'o', 't', ';']) {
        Some(('"', i + 6))
    } else {
        None
    }
}

/// Read text until the stop character, decoding entities; the position
/// returned is at the stop character. Running out of input, or an `&`
/// that begins no known entity, is a failure.
pub open spec fn p_text(s: Seq<char>, i: int, stop: char) -> PRes<Seq<char>>
    decreases s.len() - i,
{
    if i < 0 || i >= s.len() {
        PRes::Fail
    } else if s[i] == stop {
        PRes::Good(Seq::<char>::empty(), i)
    } else if s[i] == '&' {
        match entity_at(s, i) {
            None => PRes::Fail,
            Some((c, j)) => if j <= i {
                PRes::Fail
            } else {
                match p_text(s, j, stop) {
                    PRes::Good(t, e) => PRes::Good(seq![c] + t, e),
                    PRes::Fail => PRes::Fail,
                    PRes::BadId(x) => PRes::BadId(x),
                }
            },
        }
    } else {
        match p_text(s, i + 1, stop) {
            PRes::Good(t, e) => PRes::Good(seq![s[i]] + t, e),
            PRes::Fail => PRes::Fail,
            PRes::BadId(x) => PRes::BadId(x),
        }
    }
}

/// Reading text ends at or after the start, at the stop character.
pub proof fn lemma_p_text(s: Seq<char>, i: int, stop: char)
    requires
        0 <= i,
    ensures
        p_text(s, i, stop) matches PRes::Good(t, e) ==> i <= e < s.len() && s[e] == stop,
    decreases s.len() - i,
{
    if 0 <= i < s.len() && s[i] != stop {
        if s[i] == '&' {
            match entity_at(s, i) {
                None => {},
                Some((c, j)) => {
                    if j > i {
                        lemma_p_text(s, j, stop);
                    }
                },
            }
        } else {
            lemma_p_text(s, i + 1, stop);
        }
    }
}

/// `<folder`.
pub open spec fn tag_folder_chars() -> Seq<char> {
    seq!['<', 'f', 'o', 'l', 'd', 'e', 'r']
}

/// `<bookmark`.
pub open spec fn tag_bookmark_chars() -> Seq<char> {
    seq!['<', 'b', 'o', 'o', 'k', 'm', 'a', 'r', 'k']
}

/// `id="`.
pub open spec fn attr_id_eq_chars() -> Seq<char> {
    seq!['i', 'd', '=', '"']
}

/// `href="`.
pub open spec fn attr_href_eq_chars() -> Seq<char> {
    seq!['h', 'r', 'e', 'f', '=', '"']
}

/// `version="`.
pub open spec fn attr_version_eq_chars() -> Seq<char> {
    seq!['v', 'e', 'r', 's', 'i', 'o', 'n', '=', '"']
}

/// Skip whitespace only.
pub open spec fn skip_ws(s: Seq<char>, i: int) -> int
    decreases s.len() - i,
{
    if i < 0 || i >= s.len() {
        i
    } else if is_ws(s[i]) {
        skip_ws(s, i + 1)
    } else {
        i
    }
}

/// Skipping whitespace never moves backward nor past the end.
pub proof fn lemma_skip_ws(s: Seq<char>, i: int)
    requires
        0 <= i <= s.len(),
    ensures
        i <= skip_ws(s, i) <= s.len(),
    decreases s.len() - i,
{
    if i < s.len() && is_ws(s[i]) {
        lemma_skip_ws(s, i + 1);
    }
}

/// The title element `<title>`...`</title>`, read at `i` exactly.
pub open spec fn p_title(s: Seq<char>, i: int) -> PRes<Seq<char>> {
    if !starts_at(s, i, crate::serialize::title_open_chars()) {
        PRes::Fail
    } else {
        match p_text(s, i + 7, '<') {
            PRes::Good(t, e) => if starts_at(s, e, crate::serialize::title_close_chars()) {
                PRes::Good(t, e + 8)
            } else {
                PRes::Fail
            },
            PRes::Fail => PRes::Fail,
            PRes::BadId(x) => PRes::BadId(x),
        }
    }
}

/// One item, read at `i` exactly: a folder element (id attribute, title,
/// children, closing tag) or a bookmark element (href and id attributes,
/// title, closing tag).
pub open spec fn p_item(s: Seq<char>, i: int) -> PRes<ItemView>
    decreases s.len() - i, 0nat,
{
    if i < 0 {
        PRes::Fail
    } else if starts_at(s, i, tag_folder_chars()) {
        let a = skip_ws(s, i + 7);
        if !starts_at(s, a, attr_id_eq_chars()) {
            PRes::Fail
        } else {
            match p_text(s, a + 4, '"') {
                PRes::Good(idv, e1) => {
                    let b = skip_ws(s, e1 + 1);
                    if !(b < s.len() && s[b] == '>') {
                        PRes::Fail
                    } else if !parses_as_u64(idv) {
                        PRes::BadId(idv)
                    } else {
                        let c = skip_trivia(s, b + 1);
                        match p_title(s, c) {
                            PRes::Good(t, e2) => if e2 <= i || e2 > s.len() {
                                PRes::Fail
                            } else {
                                match p_items(s, e2) {
                                    PRes::Good(children, e3) => if starts_at(
                                        s,
                                        e3,
                                        seq!['<', '/', 'f', 'o', 'l', 'd', 'e', 'r', '>'],
                                    ) {
                                        PRes::Good(
                                            ItemView::Folder { id: idv, title: t, items: children },
                                            e3 + 9,
                                        )
                                    } else {
                                        PRes::Fail
                                    },
                                    PRes::Fail => PRes::Fail,
                                    PRes::BadId(x) => PRes::BadId(x),
                                }
                            },
                            PRes::Fail => PRes::Fail,
                            PRes::BadId(x) => PRes::BadId(x),
                        }
                    }
                },
                PRes::Fail => PRes::Fail,
                PRes::BadId(x) => PRes::BadId(x),
            }
        }
    } else if starts_at(s, i, tag_bookmark_chars()) {
        let a = skip_ws(s, i + 9);
        if !starts_at(s, a, attr_href_eq_chars()) {
            PRes::Fail
        } else {
            match p_text(s, a + 6, '"') {
                PRes::Good(hrefv, e1) => {
                    let b = skip_ws(s, e1 + 1);
                    if !starts_at(s, b, attr_id_eq_chars()) {
                        PRes::Fail
                    } else {
                        match p_text(s, b + 4, '"') {
                            PRes::Good(idv, e2) => {
                                let c = skip_ws(s, e2 + 1);
                                if !(c < s.len() && s[c] == '>') {
                                    PRes::Fail
                                } else if !parses_as_u64(idv) {
                                    PRes::BadId(idv)
                                } else {
                                    let d = skip_trivia(s, c + 1);
                                    match p_title(s, d) {
                                        PRes::Good(t, e3) => {
                                            let e4 = skip_trivia(s, e3);
                                            if starts_at(
                                                s,
                                                e4,
                                                seq![
                                                    '<', '/', 'b', 'o', 'o', 'k', 'm', 'a', 'r',
                                                    'k', '>',
                                                ],
                                            ) {
                                                PRes::Good(
                                                    ItemView::Bookmark {
                                                        id: idv,
                                                        href: hrefv,
                                                        title: t,
                                                    },
                                                    e4 + 11,
                                                )
                                            } else {
                                                PRes::Fail
                                            }
                                        },
                                        PRes::Fail => PRes::Fail,
                                        PRes::BadId(x) => PRes::BadId(x),
                                    }
                                }
                            },
                            PRes::Fail => PRes::Fail,
                            PRes::BadId(x) => PRes::BadId(x),
                        }
                    }
                },
                PRes::Fail => PRes::Fail,
                PRes::BadId(x) => PRes::BadId(x),
            }
        }
    } else {
        PRes::Fail
    }
}

/// A run of items up to (not including) the next closing tag: skip
/// trivia; stop before `</`; otherwise an element must follow.
pub open spec fn p_items(s: Seq<char>, i: int) -> PRes<Seq<ItemView>>
    decreases s.len() - i, 1nat,
{
    if i < 0 {
        PRes::Fail
    } else {
        let j = skip_trivia(s, i);
        if j < i {
            PRes::Fail
        } else if starts_at(s, j, seq!['<', '/']) {
            PRes::Good(Seq::<ItemView>::empty(), j)
        } else if j < s.len() && s[j] == '<' {
            match p_item(s, j) {
                PRes::Good(v, k) => if k <= i || k > s.len() {
                    PRes::Fail
                } else {
                    match p_items(s, k) {
                        PRes::Good(rest, e) => PRes::Good(seq![v] + rest, e),
                        PRes::Fail => PRes::Fail,
                        PRes::BadId(x) => PRes::BadId(x),
                    }
                },
                PRes::Fail => PRes::Fail,
                PRes::BadId(x) => PRes::BadId(x),
            }
        } else {
            PRes::Fail
        }
    }
}

/// A whole document: optional XML declaration and DOCTYPE, the `xbel`
/// root with an optional version attribute, the items, the closing root
/// tag, and nothing but trivia after it.
pub open spec fn p_xbel(s: Seq<char>) -> PRes<(Seq<char>, Seq<ItemView>)> {
    let i0 = skip_trivia(s, 0);
    let i1 = if starts_at(s, i0, seq!['<', '?']) {
        let j = scan_past(s, i0 + 2, seq!['?', '>']);
        if j < 0 {
            -1
        } else {
            skip_trivia(s, j)
        }
    } else {
        i0
    };
    if i1 < 0 {
        PRes::Fail
    } else {
        let i2 = if starts_at(s, i1, seq!['<', '!']) {
            let j = scan_past(s, i1 + 2, seq!['>']);
            if j < 0 {
                -1
            } else {
                skip_trivia(s, j)
            }
        } else {
            i1
        };
        if i2 < 0 {
            PRes::Fail
        } else if !starts_at(s, i2, seq!['<', 'x', 'b', 'e', 'l']) {
            PRes::Fail
        } else {
            let a = skip_ws(s, i2 + 5);
            if starts_at(s, a, attr_version_eq_chars()) {
                match p_text(s, a + 9, '"') {
                    PRes::Good(ver, e1) => {
                        let b = skip_ws(s, e1 + 1);
                        p_xbel_body(s, b, ver)
                    },
                    PRes::Fail => PRes::Fail,
                    PRes::BadId(x) => PRes::BadId(x),
                }
            } else {
                p_xbel_body(s, a, Seq::<char>::empty())
            }
        }
    }
}

/// The rest of a document from the `>` of the root open tag on.
pub open spec fn p_xbel_body(s: Seq<char>, b: int, ver: Seq<char>) -> PRes<
    (Seq<char>, Seq<ItemView>),
> {
    if !(0 <= b < s.len() && s[b] == '>') {
        PRes::Fail
    } else {
        match p_items(s, b + 1) {
            PRes::Good(items, e) => if starts_at(
                s,
                e,
                seq!['<', '/', 'x', 'b', 'e', 'l', '>'],
            ) {
                let t = skip_trivia(s, e + 7);
                if t == s.len() {
                    PRes::Good((ver, items), e + 7)
                } else {
                    PRes::Fail
                }
            } else {
                PRes::Fail
            },
            PRes::Fail => PRes::Fail,
            PRes::BadId(x) => PRes::BadId(x),
        }
    }
}

/// What reading a title element gives: a position after the start and
/// within the input.
pub proof fn lemma_p_title(s: Seq<char>, i: int)
    ensures
        p_title(s, i) matches PRes::Good(t, e) ==> i + 15 <= e <= s.len() && 0 <= i,
{
    if starts_at(s, i, crate::serialize::title_open_chars()) {
        lemma_p_text(s, i + 7, '<');
    }
}

/// A parsed item is well-formed: its ids were checked while reading. The
/// end position lies after the start and within the input.
pub proof fn lemma_p_item_wf(s: Seq<char>, i: int)
    ensures
        p_item(s, i) matches PRes::Good(v, e) ==> wf_item(v) && i < e <= s.len(),
    decreases s.len() - i, 0nat,
{
    if i >= 0 && starts_at(s, i, tag_folder_chars()) {
        lemma_skip_ws(s, i + 7);
        let a = skip_ws(s, i + 7);
        if starts_at(s, a, attr_id_eq_chars()) {
            match p_text(s, a + 4, '"') {
                PRes::Good(idv, e1) => {
                    lemma_p_text(s, a + 4, '"');
                    lemma_skip_ws(s, e1 + 1);
                    let b = skip_ws(s, e1 + 1);
                    if b < s.len() && s[b] == '>' && parses_as_u64(idv) {
                        lemma_skip_trivia(s, b + 1);
                        let c = skip_trivia(s, b + 1);
                        match p_title(s, c) {
                            PRes::Good(t, e2) => {
                                lemma_p_title(s, c);
                                if e2 > i && e2 <= s.len() {
                                    lemma_p_items_wf(s, e2);
                                }
                            },
                            PRes::Fail => {},
                            PRes::BadId(_) => {},
                        }
                    }
                },
                PRes::Fail => {},
                PRes::BadId(_) => {},
            }
        }
    } else if i >= 0 && starts_at(s, i, tag_bookmark_chars()) {
        lemma_skip_ws(s, i + 9);
        let a = skip_ws(s, i + 9);
        if starts_at(s, a, attr_href_eq_chars()) {
            match p_text(s, a + 6, '"') {
                PRes::Good(hrefv, e1) => {
                    lemma_p_text(s, a + 6, '"');
                    lemma_skip_ws(s, e1 + 1);
                    let b = skip_ws(s, e1 + 1);
                    if starts_at(s, b, attr_id_eq_chars()) {
                        match p_text(s, b + 4, '"') {
                            PRes::Good(idv, e2) => {
                                lemma_p_text(s, b + 4, '"');
                                lemma_skip_ws(s, e2 + 1);
                                let c = skip_ws(s, e2 + 1);
                                if c < s.len() && s[c] == '>' && parses_as_u64(idv) {
                                    lemma_skip_trivia(s, c + 1);
                                    let d = skip_trivia(s, c + 1);
                                    match p_title(s, d) {
                                        PRes::Good(t, e3) => {
                                            lemma_p_title(s, d);
                                            lemma_skip_trivia(s, e3);
                                        },
                                        PRes::Fail => {},
                                        PRes::BadId(_) => {},
                                    }
                                }
                            },
                            PRes::Fail => {},
                            PRes::BadId(_) => {},
                        }
                    }
                },
                PRes::Fail => {},
                PRes::BadId(_) => {},
            }
        }
    }
}

/// A parsed item run is well-formed, and ends within the input.
pub proof fn lemma_p_items_wf(s: Seq<char>, i: int)
    ensures
        p_items(s, i) matches PRes::Good(vs, e) ==> wf_items(vs) && i <= e <= s.len(),
    decreases s.len() - i, 1nat,
{
    if i >= 0 {
        let j = skip_trivia(s, i);
        if j >= i && !starts_at(s, j, seq!['<', '/']) && j < s.len() && s[j] == '<' {
            lemma_p_item_wf(s, j);
            match p_item(s, j) {
                PRes::Good(v, k) => {
                    if k > i && k <= s.len() {
                        lemma_p_items_wf(s, k);
                        match p_items(s, k) {
                            PRes::Good(rest, e) => {
                                assert((seq![v] + rest)[0] == v);
                                assert((seq![v] + rest).drop_first() =~= rest);
                            },
                            _ => {},
                        }
                    }
                },
                _ => {},
            }
        }
        if j >= i && starts_at(s, j, seq!['<', '/']) {
            lemma_skip_trivia_weak(s, i);
        }
    }
}

/// Trivia skipping from a non-negative start stays within bounds; a weak
/// corollary usable without the upper-bound premise.
proof fn lemma_skip_trivia_weak(s: Seq<char>, i: int)
    requires
        0 <= i,
    ensures
        i <= s.len() ==> i <= skip_trivia(s, i) <= s.len(),
{
    if i <= s.len() {
        lemma_skip_trivia(s, i);
    }
}

/// A parsed document is well-formed.
pub proof fn lemma_p_xbel_wf(s: Seq<char>)
    ensures
        p_xbel(s) matches PRes::Good((ver, items), e) ==> wf_items(items),
{
    let i0 = skip_trivia(s, 0);
    let i1 = if starts_at(s, i0, seq!['<', '?']) {
        let j = scan_past(s, i0 + 2, seq!['?', '>']);
        if j < 0 {
            -1
        } else {
            skip_trivia(s, j)
        }
    } else {
        i0
    };
    if i1 >= 0 {
        let i2 = if starts_at(s, i1, seq!['<', '!']) {
            let j = scan_past(s, i1 + 2, seq!['>']);
            if j < 0 {
                -1
            } else {
                skip_trivia(s, j)
            }
        } else {
            i1
        };
        if i2 >= 0 && starts_at(s, i2, seq!['<', 'x', 'b', 'e', 'l']) {
            let a = skip_ws(s, i2 + 5);
            if starts_at(s, a, attr_version_eq_chars()) {
                match p_text(s, a + 9, '"') {
                    PRes::Good(ver, e1) => {
                        let b = skip_ws(s, e1 + 1);
                        lemma_p_xbel_body_wf(s, b, ver);
                    },
                    PRes::Fail => {},
                    PRes::BadId(_) => {},
                }
            } else {
                lemma_p_xbel_body_wf(s, a, Seq::<char>::empty());
            }
        }
    }
}

/// The body rule only passes well-formed item runs through.
proof fn lemma_p_xbel_body_wf(s: Seq<char>, b: int, ver: Seq<char>)
    ensures
        p_xbel_body(s, b, ver) matches PRes::Good((v, items), e) ==> wf_items(items),
{
    if 0 <= b < s.len() && s[b] == '>' {
        lemma_p_items_wf(s, b + 1);
    }
}

/// The text a malformed-id error carries.
pub open spec fn err_text(e: XbelError) -> Seq<char> {
    match e {
        XbelError::MalformedId(m) => m@,
        _ => Seq::<char>::empty(),
    }
}

/// Does `p` occur in `s` exactly at `i`, as executable code?
fn at_pat(s: &Vec<char>, i: usize, p: &Vec<char>) -> (r: bool)
    ensures
        r == starts_at(s@, i as int, p@),
{
    let n = s.len();
    if p.len() > n || i > n - p.len() {
        proof {
            if starts_at(s@, i as int, p@) {
                assert(i + p@.len() <= s@.len());
            }
        }
        return false;
    }
    let mut j: usize = 0;
    while j < p.len()
        invariant
            n == s@.len(),
            i + p@.len() <= n,
            0 <= j <= p@.len(),
            forall|t: int| 0 <= t < j ==> s@[i + t] == p@[t],
        decreases p@.len() - j,
    {
        if s[i + j] != p[j] {
            proof {
                if starts_at(s@, i as int, p@) {
                    assert(s@.subrange(i as int, i + p@.len())[j as int] == s@[i + j]);
                }
            }
            return false;
        }
        j = j + 1;
    }
    proof {
        assert(s@.subrange(i as int, i + p@.len()) =~= p@);
    }
    true
}

/// The position just after the first occurrence of `p` at or after `i`,
/// as executable code.
fn scan_past_exec(s: &Vec<char>, i: usize, p: &Vec<char>) -> (r: Option<usize>)
    requires
        i <= s@.len(),
    ensures
        r is None <==> scan_past(s@, i as int, p@) == -1,
        r matches Some(j) ==> j as int == scan_past(s@, i as int, p@) && i < j <= s@.len(),
{
    let n = s.len();
    let pl = p.len();
    if pl == 0 || pl > n {
        return None;
    }
    let mut cur: usize = i;
    while cur <= n - pl
        invariant
            n == s@.len(),
            pl == p@.len(),
            0 < pl <= n,
            i <= cur <= n,
            scan_past(s@, i as int, p@) == scan_past(s@, cur as int, p@),
        decreases n - cur,
    {
        if at_pat(s, cur, p) {
            proof {
                lemma_scan_past(s@, cur as int, p@);
            }
            return Some(cur + pl);
        }
        cur = cur + 1;
    }
    None
}

/// Skip whitespace and comments, as executable code.
fn skip_trivia_exec(s: &Vec<char>, i: usize) -> (r: usize)
    requires
        i <= s@.len(),
    ensures
        r as int == skip_trivia(s@, i as int),
        i <= r <= s@.len(),
{
    let copen = crate::text::chars_of("<!--");
    let cclose = crate::text::chars_of("-->");
    proof {
        reveal_strlit("<!--");
        reveal_strlit("-->");
        assert(copen@ =~= comment_start_chars());
        assert(cclose@ =~= comment_end_chars());
        lemma_skip_trivia(s@, i as int);
    }
    let mut cur: usize = i;
    loop
        invariant
            i <= cur <= s@.len(),
            copen@ == comment_start_chars(),
            cclose@ == comment_end_chars(),
            skip_trivia(s@, i as int) == skip_trivia(s@, cur as int),
        decreases s@.len() - cur,
    {
        if cur >= s.len() {
            return cur;
        }
        let c = s[cur];
        if c == ' ' || c == '\t' || c == '\r' || c == '\n' {
            cur = cur + 1;
        } else if at_pat(s, cur, &copen) {
            match scan_past_exec(s, cur + 4, &cclose) {
                None => {
                    proof {
                        assert(skip_trivia(s@, cur as int) == s@.len());
                    }
                    return s.len();
                },
                Some(j) => {
                    proof {
                        lemma_scan_past(s@, cur + 4, cclose@);
                        assert(skip_trivia(s@, cur as int) == skip_trivia(s@, j as int));
                    }
                    cur = j;
                },
            }
        } else {
            return cur;
        }
    }
}

/// Skip whitespace only, as executable code.
fn skip_ws_exec(s: &Vec<char>, i: usize) -> (r: usize)
    requires
        i <= s@.len(),
    ensures
        r as int == skip_ws(s@, i as int),
        i <= r <= s@.len(),
{
    let mut cur: usize = i;
    while cur < s.len() && (s[cur] == ' ' || s[cur] == '\t' || s[cur] == '\r' || s[cur] == '\n')
        invariant
            i <= cur <= s@.len(),
            skip_ws(s@, i as int) == skip_ws(s@, cur as int),
        decreases s@.len() - cur,
    {
        cur = cur + 1;
    }
    cur
}

/// The entity at `i`, as executable code.
fn entity_at_exec(s: &Vec<char>, i: usize) -> (r: Option<(char, usize)>)
    requires
        i <= s@.len(),
    ensures
        r is None <==> entity_at(s@, i as int) is None,
        r matches Some((c, j)) ==> entity_at(s@, i as int) == Some((c, j as int)) && i < j
            <= s@.len(),
{
    let amp = crate::text::chars_of("&amp;");
    let lt = crate::text::chars_of("&lt;");
    let gt = crate::text::chars_of("&gt;");
    let apos = crate::text::chars_of("&apos;");
    let quot = crate::text::chars_of("&quot;");
    proof {
        reveal_strlit("&amp;");
        reveal_strlit("&lt;");
        reveal_strlit("&gt;");
        reveal_strlit("&apos;");
        reveal_strlit("&quot;");
        assert(amp@ =~= seq!['&', 'a', 'm', 'p', ';']);
        assert(lt@ =~= seq!['&', 'l', 't', ';']);
        assert(gt@ =~= seq!['&', 'g', 't', ';']);
        assert(apos@ =~= seq!['&', 'a', 'p', 'o', 's', ';']);
        assert(quot@ =~= seq!['&', 'q', 'u', 'o', 't', ';']);
    }
    let n = s.len();
    if at_pat(s, i, &amp) {
        proof {
            assert(i + 5 <= n);
        }
        Some(('&', i + 5))
    } else if at_pat(s, i, &lt) {
        proof {
            assert(i + 4 <= n);
        }
        Some(('<', i + 4))
    } else if at_pat(s, i, &gt) {
        proof {
            assert(i + 4 <= n);
        }
        Some(('>', i + 4))
    } else if at_pat(s, i, &apos) {
        proof {
            assert(i + 6 <= n);
        }
        Some(('\'', i + 6))
    } else if at_pat(s, i, &quot) {
        proof {
            assert(i + 6 <= n);
        }
        Some(('"', i + 6))
    } else {
        None
    }
}

/// Read text until the stop character, as executable code.
fn p_text_exec(s: &Vec<char>, i: usize, stop: char) -> (r: Result<(Vec<char>, usize), ()>)
    requires
        i <= s@.len(),
    ensures
        r matches Ok((t, e)) ==> p_text(s@, i as int, stop) == PRes::Good(t@, e as int) && i <= e
            <= s@.len(),
        r is Err <==> p_text(s@, i as int, stop) is Fail,
{
    let mut acc: Vec<char> = Vec::new();
    let mut cur: usize = i;
    loop
        invariant
            i <= cur <= s@.len(),
            p_text(s@, i as int, stop) == (match p_text(s@, cur as int, stop) {
                PRes::Good(t, e) => PRes::Good(acc@ + t, e),
                PRes::Fail => PRes::<Seq<char>>::Fail,
                PRes::BadId(x) => PRes::BadId(x),
            }),
        decreases s@.len() - cur,
    {
        if cur >= s.len() {
            return Err(());
        }
        let c = s[cur];
        if c == stop {
            proof {
                assert(acc@ + Seq::<char>::empty() =~= acc@);
                lemma_p_text(s@, cur as int, stop);
            }
            return Ok((acc, cur));
        }
        if c == '&' {
            match entity_at_exec(s, cur) {
                None => {
                    return Err(());
                },
                Some((c2, j)) => {
                    let ghost acc0 = acc@;
                    acc.push(c2);
                    proof {
                        assert(forall|t: Seq<char>| acc0 + (seq![c2] + t) =~= (acc0.push(c2)) + t);
                    }
                    cur = j;
                },
            }
        } else {
            let ghost acc0 = acc@;
            acc.push(c);
            proof {
                assert(forall|t: Seq<char>| acc0 + (seq![c] + t) =~= (acc0.push(c)) + t);
            }
            cur = cur + 1;
        }
    }
}

/// Read a title element, as executable code.
fn p_title_exec(s: &Vec<char>, i: usize) -> (r: Result<(Vec<char>, usize), ()>)
    requires
        i <= s@.len(),
    ensures
        r matches Ok((t, e)) ==> p_title(s@, i as int) == PRes::Good(t@, e as int) && i < e
            <= s@.len(),
        r is Err <==> p_title(s@, i as int) is Fail,
{
    let topen = crate::text::chars_of("<title>");
    let tclose = crate::text::chars_of("</title>");
    proof {
        reveal_strlit("<title>");
        reveal_strlit("</title>");
        assert(topen@ =~= crate::serialize::title_open_chars());
        assert(tclose@ =~= crate::serialize::title_close_chars());
    }
    let n = s.len();
    if !at_pat(s, i, &topen) {
        return Err(());
    }
    proof {
        assert(i + 7 <= n);
    }
    match p_text_exec(s, i + 7, '<') {
        Err(_) => Err(()),
        Ok((t, e)) => {
            if at_pat(s, e, &tclose) {
                proof {
                    lemma_p_text(s@, i + 7, '<');
                    assert(e + 8 <= n);
                }
                Ok((t, e + 8))
            } else {
                Err(())
            }
        },
    }
}

/// Read one item, as executable code.
#[verifier::rlimit(100)]
fn p_item_exec(s: &Vec<char>, i: usize) -> (r: Result<(XbelItem, usize), XbelError>)
    requires
        i <= s@.len(),
    ensures
        r matches Ok((it, e)) ==> p_item(s@, i as int) == PRes::Good(item_view(it), e as int) && i
            < e <= s@.len(),
        r matches Err(x) ==> (x == XbelError::FormatFailure || x is MalformedId),
        r matches Err(x) ==> (x == XbelError::FormatFailure ==> p_item(s@, i as int) is Fail),
        r matches Err(x) ==> (x is MalformedId ==> p_item(s@, i as int) == PRes::<
            ItemView,
        >::BadId(err_text(x))),
    decreases s@.len() - i, 0nat,
{
    let n = s.len();
    let tfolder = crate::text::chars_of("<folder");
    let tbookmark = crate::text::chars_of("<bookmark");
    let aid = crate::text::chars_of("id=\"");
    let ahref = crate::text::chars_of("href=\"");
    let cfolder = crate::text::chars_of("</folder>");
    let cbookmark = crate::text::chars_of("</bookmark>");
    proof {
        reveal_strlit("<folder");
        reveal_strlit("<bookmark");
        reveal_strlit("id=\"");
        reveal_strlit("href=\"");
        reveal_strlit("</folder>");
        reveal_strlit("</bookmark>");
        assert(tfolder@ =~= tag_folder_chars());
        assert(tbookmark@ =~= tag_bookmark_chars());
        assert(aid@ =~= attr_id_eq_chars());
        assert(ahref@ =~= attr_href_eq_chars());
        assert(cfolder@ =~= seq!['<', '/', 'f', 'o', 'l', 'd', 'e', 'r', '>']);
        assert(cbookmark@ =~= seq!['<', '/', 'b', 'o', 'o', 'k', 'm', 'a', 'r', 'k', '>']);
    }
    if at_pat(s, i, &tfolder) {
        proof {
            assert(i + 7 <= n);
        }
        let a = skip_ws_exec(s, i + 7);
        if !at_pat(s, a, &aid) {
            return Err(XbelError::FormatFailure);
        }
        proof {
            assert(a + 4 <= n);
        }
        match p_text_exec(s, a + 4, '"') {
            Err(_) => Err(XbelError::FormatFailure),
            Ok((idv, e1)) => {
                proof {
                    lemma_p_text(s@, a + 4, '"');
                }
                let b = skip_ws_exec(s, e1 + 1);
                if !(b < n && s[b] == '>') {
                    return Err(XbelError::FormatFailure);
                }
                match crate::num::parse_u64(&idv) {
                    None => Err(XbelError::MalformedId(crate::text::string_from_chars(&idv))),
                    Some(_) => {
                        let c = skip_trivia_exec(s, b + 1);
                        match p_title_exec(s, c) {
                            Err(_) => Err(XbelError::FormatFailure),
                            Ok((t, e2)) => {
                                if e2 <= i || e2 > n {
                                    return Err(XbelError::FormatFailure);
                                }
                                match p_items_exec(s, e2) {
                                    Err(x) => Err(x),
                                    Ok((children, e3)) => {
                                        if at_pat(s, e3, &cfolder) {
                                            proof {
                                                assert(e3 + 9 <= n);
                                            }
                                            let it = XbelItem::Folder(
                                                crate::xbel_format::Folder {
                                                    id: crate::text::string_from_chars(&idv),
                                                    title: crate::xbel_format::Title {
                                                        text: crate::text::string_from_chars(&t),
                                                    },
                                                    items: children,
                                                },
                                            );
                                            Ok((it, e3 + 9))
                                        } else {
                                            Err(XbelError::FormatFailure)
                                        }
                                    },
                                }
                            },
                        }
                    },
                }
            },
        }
    } else if at_pat(s, i, &tbookmark) {
        proof {
            assert(i + 9 <= n);
        }
        let a = skip_ws_exec(s, i + 9);
        if !at_pat(s, a, &ahref) {
            return Err(XbelError::FormatFailure);
        }
        proof {
            assert(a + 6 <= n);
        }
        match p_text_exec(s, a + 6, '"') {
            Err(_) => Err(XbelError::FormatFailure),
            Ok((hrefv, e1)) => {
                proof {
                    lemma_p_text(s@, a + 6, '"');
                }
                let b = skip_ws_exec(s, e1 + 1);
                if !at_pat(s, b, &aid) {
                    return Err(XbelError::FormatFailure);
                }
                proof {
                    assert(b + 4 <= n);
                }
                match p_text_exec(s, b + 4, '"') {
                    Err(_) => Err(XbelError::FormatFailure),
                    Ok((idv, e2)) => {
                        proof {
                            lemma_p_text(s@, b + 4, '"');
                        }
                        let c = skip_ws_exec(s, e2 + 1);
                        if !(c < n && s[c] == '>') {
                            return Err(XbelError::FormatFailure);
                        }
                        match crate::num::parse_u64(&idv) {
                            None => Err(
                                XbelError::MalformedId(crate::text::string_from_chars(&idv)),
                            ),
                            Some(_) => {
                                let d = skip_trivia_exec(s, c + 1);
                                match p_title_exec(s, d) {
                                    Err(_) => Err(XbelError::FormatFailure),
                                    Ok((t, e3)) => {
                                        let e4 = skip_trivia_exec(s, e3);
                                        if at_pat(s, e4, &cbookmark) {
                                            proof {
                                                assert(e4 + 11 <= n);
                                            }
                                            let it = XbelItem::Bookmark(
                                                crate::xbel_format::Bookmark {
                                                    href: crate::text::string_from_chars(&hrefv),
                                                    id: crate::text::string_from_chars(&idv),
                                                    title: crate::xbel_format::Title {
                                                        text: crate::text::string_from_chars(&t),
                                                    },
                                                },
                                            );
                                            Ok((it, e4 + 11))
                                        } else {
                                            Err(XbelError::FormatFailure)
                                        }
                                    },
                                }
                            },
                        }
                    },
                }
            },
        }
    } else {
        Err(XbelError::FormatFailure)
    }
}

/// Read a run of items up to the next closing tag, as executable code.
fn p_items_exec(s: &Vec<char>, i: usize) -> (r: Result<(Vec<XbelItem>, usize), XbelError>)
    requires
        i <= s@.len(),
    ensures
        r matches Ok((its, e)) ==> p_items(s@, i as int) == PRes::Good(
            items_view(its@),
            e as int,
        ) && i <= e <= s@.len(),
        r matches Err(x) ==> (x == XbelError::FormatFailure || x is MalformedId),
        r matches Err(x) ==> (x == XbelError::FormatFailure ==> p_items(s@, i as int) is Fail),
        r matches Err(x) ==> (x is MalformedId ==> p_items(s@, i as int) == PRes::<
            Seq<ItemView>,
        >::BadId(err_text(x))),
    decreases s@.len() - i, 1nat,
{
    let n = s.len();
    let close2 = crate::text::chars_of("</");
    proof {
        reveal_strlit("</");
        assert(close2@ =~= seq!['<', '/']);
    }
    let j = skip_trivia_exec(s, i);
    if at_pat(s, j, &close2) {
        let its: Vec<XbelItem> = Vec::new();
        proof {
            assert(items_view(its@) =~= Seq::<ItemView>::empty());
        }
        return Ok((its, j));
    }
    if !(j < n && s[j] == '<') {
        return Err(XbelError::FormatFailure);
    }
    match p_item_exec(s, j) {
        Err(x) => Err(x),
        Ok((it, k)) => {
            if k <= i || k > n {
                return Err(XbelError::FormatFailure);
            }
            match p_items_exec(s, k) {
                Err(x) => Err(x),
                Ok((mut rest, e)) => {
                    let ghost rest0 = rest@;
                    rest.insert(0, it);
                    proof {
                        crate::xbel_format::lemma_items_view_insert(rest0, 0, it);
                        assert(items_view(rest0).insert(0, item_view(it)) =~= seq![item_view(it)]
                            + items_view(rest0));
                    }
                    Ok((rest, e))
                },
            }
        },
    }
}

impl Xbel {
    /// Parse a document from its textual form. An input that does not
    /// follow the dialect gives `FormatFailure`; an id attribute that is
    /// not a decimal number gives `MalformedId` carrying the offending
    /// text. A parsed tree is well-formed.
    pub fn try_from_str(s: &str) -> (r: Result<Xbel, XbelError>)
        ensures
            r matches Ok(x) ==> (p_xbel(s@) matches PRes::Good(d, e) && xbel_view(x).version == d.0
                && xbel_view(x).items == d.1 && wf_items(xbel_view(x).items)),
            r matches Err(x) ==> (x == XbelError::FormatFailure || x is MalformedId),
            r matches Err(x) ==> (x == XbelError::FormatFailure ==> p_xbel(s@) is Fail),
            r matches Err(x) ==> (x is MalformedId ==> p_xbel(s@) == PRes::<
                (Seq<char>, Seq<ItemView>),
            >::BadId(err_text(x))),
            r is Ok <==> p_xbel(s@) is Good,
    {
        let cs = crate::text::chars_of(s);
        let n = cs.len();
        let qopen = crate::text::chars_of("<?");
        let qclose = crate::text::chars_of("?>");
        let bang = crate::text::chars_of("<!");
        let gt1 = crate::text::chars_of(">");
        let xopen = crate::text::chars_of("<xbel");
        let aversion = crate::text::chars_of("version=\"");
        let xclose = crate::text::chars_of("</xbel>");
        proof {
            reveal_strlit("<?");
            reveal_strlit("?>");
            reveal_strlit("<!");
            reveal_strlit(">");
            reveal_strlit("<xbel");
            reveal_strlit("version=\"");
            reveal_strlit("</xbel>");
            assert(qopen@ =~= seq!['<', '?']);
            assert(qclose@ =~= seq!['?', '>']);
            assert(bang@ =~= seq!['<', '!']);
            assert(gt1@ =~= seq!['>']);
            assert(xopen@ =~= seq!['<', 'x', 'b', 'e', 'l']);
            assert(aversion@ =~= attr_version_eq_chars());
            assert(xclose@ =~= seq!['<', '/', 'x', 'b', 'e', 'l', '>']);
            lemma_p_xbel_wf(s@);
        }
        let i0 = skip_trivia_exec(&cs, 0);
        let i1 = if at_pat(&cs, i0, &qopen) {
            proof {
                assert(i0 + 2 <= n);
            }
            match scan_past_exec(&cs, i0 + 2, &qclose) {
                None => {
                    return Err(XbelError::FormatFailure);
                },
                Some(j) => skip_trivia_exec(&cs, j),
            }
        } else {
            i0
        };
        let i2 = if at_pat(&cs, i1, &bang) {
            proof {
                assert(i1 + 2 <= n);
            }
            match scan_past_exec(&cs, i1 + 2, &gt1) {
                None => {
                    return Err(XbelError::FormatFailure);
                },
                Some(j) => skip_trivia_exec(&cs, j),
            }
        } else {
            i1
        };
        if !at_pat(&cs, i2, &xopen) {
            return Err(XbelError::FormatFailure);
        }
        proof {
            assert(i2 + 5 <= n);
        }
        let a = skip_ws_exec(&cs, i2 + 5);
        if at_pat(&cs, a, &aversion) {
            proof {
                assert(a + 9 <= n);
            }
            match p_text_exec(&cs, a + 9, '"') {
                Err(_) => Err(XbelError::FormatFailure),
                Ok((ver, e1)) => {
                    proof {
                        lemma_p_text(cs@, a + 9, '"');
                    }
                    let b = skip_ws_exec(&cs, e1 + 1);
                    Self::from_body(&cs, b, ver, &xclose)
                },
            }
        } else {
            let ver: Vec<char> = Vec::new();
            proof {
                assert(ver@ =~= Seq::<char>::empty());
            }
            Self::from_body(&cs, a, ver, &xclose)
        }
    }

    /// Parse the rest of a document from the `>` of the root open tag on.
    fn from_body(cs: &Vec<char>, b: usize, ver: Vec<char>, xclose: &Vec<char>) -> (r: Result<
        Xbel,
        XbelError,
    >)
        requires
            b <= cs@.len(),
            xclose@ == seq!['<', '/', 'x', 'b', 'e', 'l', '>'],
        ensures
            r matches Ok(x) ==> (p_xbel_body(cs@, b as int, ver@) matches PRes::Good(d, e)
                && xbel_view(x).version == d.0 && xbel_view(x).items == d.1),
            r matches Err(x) ==> (x == XbelError::FormatFailure || x is MalformedId),
            r matches Err(x) ==> (x == XbelError::FormatFailure ==> p_xbel_body(
                cs@,
                b as int,
                ver@,
            ) is Fail),
            r matches Err(x) ==> (x is MalformedId ==> p_xbel_body(cs@, b as int, ver@) == PRes::<
                (Seq<char>, Seq<ItemView>),
            >::BadId(err_text(x))),
            r is Ok <==> p_xbel_body(cs@, b as int, ver@) is Good,
    {
        let n = cs.len();
        if !(b < n && cs[b] == '>') {
            return Err(XbelError::FormatFailure);
        }
        match p_items_exec(cs, b + 1) {
            Err(x) => Err(x),
            Ok((items, e)) => {
                if at_pat(cs, e, xclose) {
                    proof {
                        assert(e + 7 <= n);
                    }
                    let t = skip_trivia_exec(cs, e + 7);
                    if t == n {
                        Ok(Xbel { version: crate::text::string_from_chars(&ver), items })
                    } else {
                        Err(XbelError::FormatFailure)
                    }
                } else {
                    Err(XbelError::FormatFailure)
                }
            },
        }
    }
}

} // verus!
