//! Parsing a serialized tree gives the tree back.
//!
//! The serializer writes one canonical rendering; the lemmas here walk the
//! parser over that rendering piece by piece: escaped text decodes to the
//! text it came from, whitespace runs and the highest-id comment are
//! skipped, every element reads back as the item it was written from, and
//! the whole document reads back as the tree, with its version `1.0`.

use vstd::prelude::*;

use crate::num::{dec_str, is_digit, lemma_dec_str_is_dec};
use crate::parse::{
    entity_at, is_ws, p_item, p_items, p_text, p_title, p_xbel, p_xbel_body, scan_past,
    skip_trivia, skip_ws, starts_at, PRes,
};
use crate::serialize::{
    attr_end_chars, attr_id_chars, bookmark_close_chars, bookmark_open_chars, children_chars,
    comment_chars, comment_close_chars, comment_open_chars, doc_chars, folder_close_chars,
    folder_open_chars, header_chars, item_chars, nl_chars, title_close_chars, title_elem_chars,
    title_open_chars, top_chars, xbel_close_chars, xbel_open_chars,
};
use crate::text::{escape_char, escape_seq, spaces, lemma_spaces_all};
use crate::xbel_format::{items_high, wf_item, wf_items, ItemView};

verus! {

/// A region equality: the characters of `s` from `i` on spell `p`.
pub open spec fn region(s: Seq<char>, i: int, p: Seq<char>) -> bool {
    0 <= i && i + p.len() <= s.len() && forall|j: int|
        i <= j < i + p.len() ==> #[trigger] s[j] == p[j - i]
}

/// A region is a `starts_at`.
proof fn lemma_region_starts(s: Seq<char>, i: int, p: Seq<char>)
    requires
        region(s, i, p),
    ensures
        starts_at(s, i, p),
{
    assert(s.subrange(i, i + p.len()) =~= p);
}

/// A later part of a region is a region.
proof fn lemma_region_shift(s: Seq<char>, i: int, a: Seq<char>, b: Seq<char>)
    requires
        region(s, i, a + b),
    ensures
        region(s, i, a),
        region(s, i + a.len(), b),
{
    assert(forall|j: int| 0 <= j < a.len() + b.len() ==> #[trigger] (a + b)[j] == (if j < a.len() {
        a[j]
    } else {
        b[j - a.len()]
    }));
}

/// Reading plain text (no stop character, no ampersand inside) stops at
/// the stop character right after it and gives the text itself.
#[verifier::rlimit(100)]
proof fn lemma_rt_plain(s: Seq<char>, i: int, t: Seq<char>, stop: char)
    requires
        region(s, i, t),
        forall|j: int| 0 <= j < t.len() ==> t[j] != stop && t[j] != '&',
        i + t.len() < s.len(),
        s[i + t.len()] == stop,
    ensures
        p_text(s, i, stop) == PRes::<Seq<char>>::Good(t, i + t.len()),
    decreases t.len(),
{
    if t.len() == 0 {
        assert(s[i] == stop);
        assert(t =~= Seq::<char>::empty());
        assert(p_text(s, i, stop) == PRes::<Seq<char>>::Good(Seq::<char>::empty(), i));
    } else {
        assert(s[i] == t[0]);
        assert(region(s, i + 1, t.drop_first())) by {
            assert(forall|j: int|
                0 <= j < t.drop_first().len() ==> #[trigger] t.drop_first()[j] == t[j + 1]);
        }
        lemma_rt_plain(s, i + 1, t.drop_first(), stop);
        assert(seq![t[0]] + t.drop_first() =~= t);
    }
}

/// Reading escaped text stops at the stop character right after it and
/// decodes to the text that was escaped.
#[verifier::rlimit(100)]
proof fn lemma_rt_escaped(s: Seq<char>, i: int, t: Seq<char>, stop: char)
    requires
        region(s, i, escape_seq(t)),
        stop == '<' || stop == '"',
        i + escape_seq(t).len() < s.len(),
        s[i + escape_seq(t).len()] == stop,
    ensures
        p_text(s, i, stop) == PRes::<Seq<char>>::Good(t, i + escape_seq(t).len()),
    decreases t.len(),
{
    if t.len() == 0 {
        assert(s[i] == stop);
        assert(t =~= Seq::<char>::empty());
        assert(escape_seq(t).len() == 0);
        assert(p_text(s, i, stop) == PRes::<Seq<char>>::Good(Seq::<char>::empty(), i));
    } else {
        let c = t[0];
        let ec = escape_char(c);
        let rest = escape_seq(t.drop_first());
        assert(escape_seq(t) == ec + rest);
        lemma_region_shift(s, i, ec, rest);
        lemma_rt_escaped(s, i + ec.len(), t.drop_first(), stop);
        assert(seq![c] + t.drop_first() =~= t);
        if c == '&' {
            assert(region(s, i, seq!['&', 'a', 'm', 'p', ';']));
            lemma_region_starts(s, i, seq!['&', 'a', 'm', 'p', ';']);
            assert(entity_at(s, i) == Some(('&', i + 5)));
        } else if c == '<' {
            assert(region(s, i, seq!['&', 'l', 't', ';']));
            lemma_region_starts(s, i, seq!['&', 'l', 't', ';']);
            assert(s[i + 1] == 'l');
            assert(!starts_at(s, i, seq!['&', 'a', 'm', 'p', ';'])) by {
                if starts_at(s, i, seq!['&', 'a', 'm', 'p', ';']) {
                    assert(s.subrange(i, i + 5)[1] == s[i + 1]);
                }
            }
            assert(entity_at(s, i) == Some(('<', i + 4)));
        } else if c == '>' {
            assert(region(s, i, seq!['&', 'g', 't', ';']));
            lemma_region_starts(s, i, seq!['&', 'g', 't', ';']);
            assert(s[i + 1] == 'g');
            assert(!starts_at(s, i, seq!['&', 'a', 'm', 'p', ';'])) by {
                if starts_at(s, i, seq!['&', 'a', 'm', 'p', ';']) {
                    assert(s.subrange(i, i + 5)[1] == s[i + 1]);
                }
            }
            assert(!starts_at(s, i, seq!['&', 'l', 't', ';'])) by {
                if starts_at(s, i, seq!['&', 'l', 't', ';']) {
                    assert(s.subrange(i, i + 4)[1] == s[i + 1]);
                }
            }
            assert(entity_at(s, i) == Some(('>', i + 4)));
        } else if c == '\'' {
            assert(region(s, i, seq!['&', 'a', 'p', 'o', 's', ';']));
            lemma_region_starts(s, i, seq!['&', 'a', 'p', 'o', 's', ';']);
            assert(s[i + 1] == 'a');
            assert(s[i + 2] == 'p');
            assert(!starts_at(s, i, seq!['&', 'a', 'm', 'p', ';'])) by {
                if starts_at(s, i, seq!['&', 'a', 'm', 'p', ';']) {
                    assert(s.subrange(i, i + 5)[2] == s[i + 2]);
                }
            }
            assert(!starts_at(s, i, seq!['&', 'l', 't', ';'])) by {
                if starts_at(s, i, seq!['&', 'l', 't', ';']) {
                    assert(s.subrange(i, i + 4)[1] == s[i + 1]);
                }
            }
            assert(!starts_at(s, i, seq!['&', 'g', 't', ';'])) by {
                if starts_at(s, i, seq!['&', 'g', 't', ';']) {
                    assert(s.subrange(i, i + 4)[1] == s[i + 1]);
                }
            }
            assert(entity_at(s, i) == Some(('\'', i + 6)));
        } else if c == '"' {
            assert(region(s, i, seq!['&', 'q', 'u', 'o', 't', ';']));
            lemma_region_starts(s, i, seq!['&', 'q', 'u', 'o', 't', ';']);
            assert(s[i + 1] == 'q');
            assert(!starts_at(s, i, seq!['&', 'a', 'm', 'p', ';'])) by {
                if starts_at(s, i, seq!['&', 'a', 'm', 'p', ';']) {
                    assert(s.subrange(i, i + 5)[1] == s[i + 1]);
                }
            }
            assert(!starts_at(s, i, seq!['&', 'l', 't', ';'])) by {
                if starts_at(s, i, seq!['&', 'l', 't', ';']) {
                    assert(s.subrange(i, i + 4)[1] == s[i + 1]);
                }
            }
            assert(!starts_at(s, i, seq!['&', 'g', 't', ';'])) by {
                if starts_at(s, i, seq!['&', 'g', 't', ';']) {
                    assert(s.subrange(i, i + 4)[1] == s[i + 1]);
                }
            }
            assert(!starts_at(s, i, seq!['&', 'a', 'p', 'o', 's', ';'])) by {
                if starts_at(s, i, seq!['&', 'a', 'p', 'o', 's', ';']) {
                    assert(s.subrange(i, i + 6)[1] == s[i + 1]);
                }
            }
            assert(entity_at(s, i) == Some(('"', i + 6)));
        } else {
            assert(ec == seq![c]);
            assert(s[i] == c);
            assert(c != stop && c != '&' && c != '<' && c != '"');
        }
    }
}

/// Skipping whitespace over a run of `k` whitespace characters followed
/// by a non-whitespace character lands right after the run.
proof fn lemma_rt_skip_ws(s: Seq<char>, i: int, k: int)
    requires
        0 <= i,
        0 <= k,
        i + k < s.len(),
        forall|j: int| i <= j < i + k ==> is_ws(#[trigger] s[j]),
        !is_ws(s[i + k]),
    ensures
        skip_ws(s, i) == i + k,
    decreases k,
{
    if k == 0 {
    } else {
        assert(is_ws(s[i]));
        lemma_rt_skip_ws(s, i + 1, k - 1);
    }
}

/// Skipping trivia over a run of `k` whitespace characters followed by a
/// `<` that does not begin a comment lands right after the run.
proof fn lemma_rt_skip_trivia_ws(s: Seq<char>, i: int, k: int)
    requires
        0 <= i,
        0 <= k,
        i + k + 1 < s.len(),
        forall|j: int| i <= j < i + k ==> is_ws(#[trigger] s[j]),
        s[i + k] == '<',
        s[i + k + 1] != '!',
    ensures
        skip_trivia(s, i) == i + k,
    decreases k,
{
    if k == 0 {
        assert(!is_ws(s[i]));
        assert(!starts_at(s, i, crate::parse::comment_start_chars())) by {
            if starts_at(s, i, crate::parse::comment_start_chars()) {
                assert(s.subrange(i, i + 4)[1] == s[i + 1]);
            }
        }
    } else {
        assert(is_ws(s[i]));
        lemma_rt_skip_trivia_ws(s, i + 1, k - 1);
    }
}

/// The first occurrence of a pattern: scanning finds a known occurrence
/// when nothing earlier matches.
proof fn lemma_rt_scan(s: Seq<char>, i: int, p: Seq<char>, j: int)
    requires
        0 <= i <= j,
        p.len() > 0,
        starts_at(s, j, p),
        forall|k: int| i <= k < j ==> !starts_at(s, k, #[trigger] p.subrange(0, p.len() as int)),
    ensures
        scan_past(s, i, p) == j + p.len(),
    decreases j - i,
{
    assert(p.subrange(0, p.len() as int) =~= p);
    if i == j {
    } else {
        assert(!starts_at(s, i, p));
        lemma_rt_scan(s, i + 1, p, j);
    }
}

/// Skipping trivia over the highest-id comment and the whitespace around
/// it: a run of whitespace, the comment, and more trivia after it.
#[verifier::rlimit(100)]
proof fn lemma_rt_skip_comment(s: Seq<char>, i: int, n: nat)
    requires
        0 <= i,
        region(s, i, comment_chars(n)),
        i + comment_chars(n).len() <= s.len(),
    ensures
        skip_trivia(s, i) == skip_trivia(s, i + comment_chars(n).len()),
{
    let c = comment_chars(n);
    let d = dec_str(n);
    lemma_dec_str_is_dec(n);
    assert(c == comment_open_chars() + d + comment_close_chars());
    assert(c.len() == 17 + d.len() + 49);
    assert(s[i] == c[0]);
    assert(c[0] == (comment_open_chars() + d + comment_close_chars())[0]);
    assert(forall|j: int| 0 <= j < 17 ==> c[j] == comment_open_chars()[j]);
    assert(forall|j: int| 0 <= j < d.len() ==> c[17 + j] == d[j]);
    assert(forall|j: int| 0 <= j < 49 ==> c[17 + d.len() + j] == comment_close_chars()[j]);
    assert(!is_ws(s[i]));
    assert(region(s, i, crate::parse::comment_start_chars())) by {
        assert(forall|j: int|
            0 <= j < 4 ==> crate::parse::comment_start_chars()[j] == comment_open_chars()[j]);
    }
    lemma_region_starts(s, i, crate::parse::comment_start_chars());
    // the closing arrow is at the end of the comment
    let close_pos = i + c.len() - 3;
    assert(region(s, close_pos, crate::parse::comment_end_chars())) by {
        assert(forall|j: int|
            0 <= j < 3 ==> #[trigger] c[c.len() - 3 + j] == comment_close_chars()[46 + j]);
        assert(comment_close_chars()[46] == '-');
        assert(comment_close_chars()[47] == '-');
        assert(comment_close_chars()[48] == '>');
        assert(crate::parse::comment_end_chars()[0] == '-');
        assert(crate::parse::comment_end_chars()[1] == '-');
        assert(crate::parse::comment_end_chars()[2] == '>');
    }
    lemma_region_starts(s, close_pos, crate::parse::comment_end_chars());
    // and nowhere earlier within the scan range
    assert forall|k: int| i + 4 <= k < close_pos implies !starts_at(
        s,
        k,
        #[trigger] crate::parse::comment_end_chars().subrange(0, 3),
    ) by {
        assert(crate::parse::comment_end_chars().subrange(0, 3) =~=
            crate::parse::comment_end_chars());
        if starts_at(s, k, crate::parse::comment_end_chars()) {
            assert(s.subrange(k, k + 3)[0] == s[k]);
            assert(s.subrange(k, k + 3)[1] == s[k + 1]);
            assert(s.subrange(k, k + 3)[2] == s[k + 2]);
            assert(s[k] == '-' && s[k + 1] == '-' && s[k + 2] == '>');
            let o = k - i;
            // the character at offset o and o+1 are both '-', o+2 is '>'
            assert(4 <= o && o + 2 < c.len() - 1);
            assert(s[k] == c[o] && s[k + 1] == c[o + 1] && s[k + 2] == c[o + 2]);
            if o < 17 {
                // inside the opening text `<!--- highestId :`
                if o + 1 < 17 {
                    assert(c[o] == comment_open_chars()[o]);
                    assert(c[o + 1] == comment_open_chars()[o + 1]);
                    assert(!(comment_open_chars()[o] == '-' && comment_open_chars()[o + 1]
                        == '-'));
                } else {
                    assert(o == 16);
                    assert(c[o] == comment_open_chars()[16]);
                    assert(comment_open_chars()[16] == ':');
                }
            } else if o < 17 + d.len() {
                assert(c[o] == d[o - 17]);
                assert(is_digit(d[o - 17]));
                assert(d[o - 17] != '-');
            } else {
                let q = o - 17 - d.len();
                assert(0 <= q < 46);
                assert(c[o] == comment_close_chars()[q]);
                if q + 1 < 49 {
                    assert(c[o + 1] == comment_close_chars()[q + 1]);
                }
                if q + 2 < 49 {
                    assert(c[o + 2] == comment_close_chars()[q + 2]);
                }
                assert(!(comment_close_chars()[q] == '-' && comment_close_chars()[q + 1] == '-'
                    && comment_close_chars()[q + 2] == '>'));
            }
        }
    }
    lemma_rt_scan(s, i + 4, crate::parse::comment_end_chars(), close_pos);
    assert(scan_past(s, i + 4, crate::parse::comment_end_chars()) == i + c.len());
}

/// Skipping trivia is idempotent.
proof fn lemma_skip_trivia_idem(s: Seq<char>, i: int)
    requires
        0 <= i <= s.len(),
    ensures
        skip_trivia(s, skip_trivia(s, i)) == skip_trivia(s, i),
    decreases s.len() - i,
{
    if i < s.len() {
        if is_ws(s[i]) {
            lemma_skip_trivia_idem(s, i + 1);
        } else if starts_at(s, i, crate::parse::comment_start_chars()) {
            let j = scan_past(s, i + 4, crate::parse::comment_end_chars());
            if i < j <= s.len() {
                lemma_skip_trivia_idem(s, j);
            }
        }
    }
}

/// An item run reads the same from anywhere in the leading trivia.
proof fn lemma_p_items_at(s: Seq<char>, i: int)
    requires
        0 <= i <= s.len(),
    ensures
        p_items(s, i) == p_items(s, skip_trivia(s, i)),
{
    let j = skip_trivia(s, i);
    crate::parse::lemma_skip_trivia(s, i);
    lemma_skip_trivia_idem(s, i);
    if !starts_at(s, j, seq!['<', '/']) && j < s.len() && s[j] == '<' {
        crate::parse::lemma_p_item_wf(s, j);
        match p_item(s, j) {
            PRes::Good(v, k) => {
                assert(k > j && k <= s.len());
            },
            PRes::Fail => {},
            PRes::BadId(_) => {},
        }
    }
}

/// The first two characters of a rendered item are `<` and the tag name's
/// first letter.
proof fn lemma_item_head_chars(v: ItemView, ind: nat)
    ensures
        item_chars(v, ind).len() > 2,
        item_chars(v, ind)[0] == '<',
        item_chars(v, ind)[1] == 'f' || item_chars(v, ind)[1] == 'b',
{
    match v {
        ItemView::Bookmark { id, href, title } => {
            let p = item_chars(v, ind);
            assert(p[0] == bookmark_open_chars()[0]);
            assert(p[1] == bookmark_open_chars()[1]);
        },
        ItemView::Folder { id, title, items } => {
            let p = item_chars(v, ind);
            assert(p[0] == folder_open_chars()[0]);
            assert(p[1] == folder_open_chars()[1]);
        },
    }
}

/// A rendered title element reads back as the title.
proof fn lemma_rt_title(s: Seq<char>, i: int, t: Seq<char>)
    requires
        region(s, i, title_elem_chars(t)),
    ensures
        p_title(s, i) == PRes::<Seq<char>>::Good(t, i + title_elem_chars(t).len()),
{
    let whole = title_elem_chars(t);
    let esc = escape_seq(t);
    assert(whole == title_open_chars() + esc + title_close_chars());
    assert(region(s, i, title_open_chars() + esc + title_close_chars()));
    lemma_region_shift(s, i, title_open_chars() + esc, title_close_chars());
    assert(region(s, i, title_open_chars() + esc)) by {
        assert(forall|j: int|
            0 <= j < (title_open_chars() + esc).len() ==> #[trigger] (title_open_chars() + esc
                + title_close_chars())[j] == (title_open_chars() + esc)[j]);
    }
    lemma_region_shift(s, i, title_open_chars(), esc);
    lemma_region_starts(s, i, title_open_chars());
    let e = i + 7 + esc.len();
    assert(s[e] == title_close_chars()[0]);
    lemma_rt_escaped(s, i + 7, t, '<');
    lemma_region_starts(s, e, title_close_chars());
    assert(i + whole.len() == e + 8);
}

/// A rendered item reads back as the item.
proof fn lemma_rt_item(s: Seq<char>, i: int, v: ItemView, ind: nat)
    requires
        wf_item(v),
        region(s, i, item_chars(v, ind)),
    ensures
        p_item(s, i) == PRes::<ItemView>::Good(v, i + item_chars(v, ind).len()),
    decreases v, 2nat,
{
    match v {
        ItemView::Bookmark { .. } => {
            lemma_rt_item_bookmark(s, i, v, ind);
        },
        ItemView::Folder { .. } => {
            lemma_rt_item_folder(s, i, v, ind);
        },
    }
}

/// The attributes of a rendered bookmark, as the parser steps over them.
#[verifier::rlimit(100)]
#[verifier::spinoff_prover]
proof fn lemma_rt_bookmark_attrs(
    s: Seq<char>,
    i: int,
    href: Seq<char>,
    id: Seq<char>,
    extra: Seq<char>,
)
    requires
        region(
            s,
            i,
            bookmark_open_chars() + escape_seq(href) + attr_id_chars() + id + attr_end_chars()
                + extra,
        ),
        forall|j: int| 0 <= j < id.len() ==> is_digit(#[trigger] id[j]),
    ensures
        ({
            let e1 = i + 16 + escape_seq(href).len();
            let e2 = e1 + 6 + id.len();
            &&& starts_at(s, i, crate::parse::tag_bookmark_chars())
            &&& !starts_at(s, i, crate::parse::tag_folder_chars())
            &&& skip_ws(s, i + 9) == i + 10
            &&& starts_at(s, i + 10, crate::parse::attr_href_eq_chars())
            &&& p_text(s, i + 16, '"') == PRes::<Seq<char>>::Good(href, e1)
            &&& skip_ws(s, e1 + 1) == e1 + 2
            &&& starts_at(s, e1 + 2, crate::parse::attr_id_eq_chars())
            &&& p_text(s, e1 + 6, '"') == PRes::<Seq<char>>::Good(id, e2)
            &&& skip_ws(s, e2 + 1) == e2 + 1
            &&& e2 + 1 < s.len()
            &&& s[e2 + 1] == '>'
        }),
{
    let part1 = bookmark_open_chars();
    let part2 = part1 + escape_seq(href);
    let part3 = part2 + attr_id_chars();
    let part4 = part3 + id;
    let part5 = part4 + attr_end_chars();
    lemma_region_shift(s, i, part5, extra);
    lemma_region_shift(s, i, part4, attr_end_chars());
    lemma_region_shift(s, i, part3, id);
    lemma_region_shift(s, i, part2, attr_id_chars());
    lemma_region_shift(s, i, part1, escape_seq(href));
    assert(starts_at(s, i, crate::parse::tag_bookmark_chars())) by {
        assert(s.subrange(i, i + 9) =~= crate::parse::tag_bookmark_chars());
    }
    assert(!starts_at(s, i, crate::parse::tag_folder_chars())) by {
        if starts_at(s, i, crate::parse::tag_folder_chars()) {
            assert(s.subrange(i, i + 7)[1] == s[i + 1]);
            assert(s[i + 1] == 'b');
        }
    }
    assert(s[i + 9] == ' ' && s[i + 10] == 'h');
    lemma_rt_skip_ws(s, i + 9, 1);
    let a = i + 10;
    assert(starts_at(s, a, crate::parse::attr_href_eq_chars())) by {
        assert(s.subrange(a, a + 6) =~= crate::parse::attr_href_eq_chars());
    }
    let e1 = i + 16 + escape_seq(href).len();
    assert(s[e1] == '"' && s[e1 + 1] == ' ' && s[e1 + 2] == 'i' && s[e1 + 3] == 'd' && s[e1 + 4]
        == '=' && s[e1 + 5] == '"') by {
        assert(region(s, i + part2.len(), attr_id_chars()));
    }
    lemma_rt_escaped(s, i + 16, href, '"');
    assert(!is_ws(s[e1 + 2]));
    lemma_rt_skip_ws(s, e1 + 1, 1);
    assert(starts_at(s, e1 + 2, crate::parse::attr_id_eq_chars())) by {
        assert(s.subrange(e1 + 2, e1 + 6) =~= crate::parse::attr_id_eq_chars());
    }
    assert(region(s, e1 + 6, id)) by {
        assert(region(s, i + part3.len(), id));
    }
    let e2 = e1 + 6 + id.len();
    assert(s[e2] == '"' && s[e2 + 1] == '>') by {
        assert(region(s, i + part4.len(), attr_end_chars()));
    }
    assert(forall|j: int| 0 <= j < id.len() ==> id[j] != '"' && id[j] != '&');
    lemma_rt_plain(s, e1 + 6, id, '"');
    lemma_rt_skip_ws(s, e2 + 1, 0);
}

/// The title line and closing tag of a rendered bookmark, as the parser
/// steps over them.
#[verifier::rlimit(100)]
#[verifier::spinoff_prover]
proof fn lemma_rt_bookmark_tail(s: Seq<char>, b0: int, title: Seq<char>, ind: nat)
    requires
        region(
            s,
            b0,
            nl_chars() + spaces(ind + 2) + title_elem_chars(title) + nl_chars() + spaces(ind)
                + bookmark_close_chars(),
        ),
    ensures
        ({
            let d = b0 + 1 + ind + 2;
            let e3 = d + title_elem_chars(title).len();
            let e4 = e3 + 1 + ind;
            &&& skip_trivia(s, b0) == d
            &&& p_title(s, d) == PRes::<Seq<char>>::Good(title, e3)
            &&& skip_trivia(s, e3) == e4
            &&& starts_at(s, e4, seq!['<', '/', 'b', 'o', 'o', 'k', 'm', 'a', 'r', 'k', '>'])
        }),
{
    lemma_spaces_all(ind);
    lemma_spaces_all(ind + 2);
    let d = b0 + 1 + ind + 2;
    let e3 = d + title_elem_chars(title).len();
    let e4 = e3 + 1 + ind;
    let q1 = nl_chars();
    let q2 = q1 + spaces(ind + 2);
    let q3 = q2 + title_elem_chars(title);
    let q4 = q3 + nl_chars();
    let q5 = q4 + spaces(ind);
    lemma_region_shift(s, b0, q5, bookmark_close_chars());
    lemma_region_shift(s, b0, q4, spaces(ind));
    lemma_region_shift(s, b0, q3, nl_chars());
    lemma_region_shift(s, b0, q2, title_elem_chars(title));
    lemma_region_shift(s, b0, q1, spaces(ind + 2));
    assert(s[b0] == '\n') by {
        assert(region(s, b0, q1));
        assert(nl_chars()[0] == '\n');
    }
    assert(forall|j: int| b0 <= j < d ==> is_ws(#[trigger] s[j])) by {
        assert(region(s, b0 + 1, spaces(ind + 2)));
    }
    assert(region(s, d, title_elem_chars(title)));
    assert(s[d] == '<' && s[d + 1] == 't') by {
        assert(title_elem_chars(title)[0] == title_open_chars()[0]);
        assert(title_elem_chars(title)[1] == title_open_chars()[1]);
    }
    lemma_rt_skip_trivia_ws(s, b0, 1 + ind + 2 as int);
    lemma_rt_title(s, d, title);
    assert(s[e3] == '\n') by {
        assert(region(s, b0 + q3.len(), nl_chars()));
        assert(nl_chars()[0] == '\n');
    }
    assert(forall|j: int| e3 <= j < e4 ==> is_ws(#[trigger] s[j])) by {
        assert(region(s, b0 + q4.len(), spaces(ind)));
    }
    assert(s[e4] == '<' && s[e4 + 1] == '/') by {
        assert(region(s, b0 + q5.len(), bookmark_close_chars()));
    }
    lemma_rt_skip_trivia_ws(s, e3, 1 + ind as int);
    assert(starts_at(s, e4, seq!['<', '/', 'b', 'o', 'o', 'k', 'm', 'a', 'r', 'k', '>'])) by {
        assert(region(s, b0 + q5.len(), bookmark_close_chars()));
        assert(s.subrange(e4, e4 + 11) =~= seq![
            '<', '/', 'b', 'o', 'o', 'k', 'm', 'a', 'r', 'k', '>',
        ]);
    }
}

/// Assembling a bookmark parse from the facts about its pieces.
#[verifier::rlimit(100)]
proof fn lemma_rt_bookmark_assemble(
    s: Seq<char>,
    i: int,
    href: Seq<char>,
    id: Seq<char>,
    title: Seq<char>,
    d: int,
    e3: int,
    e4: int,
)
    requires
        crate::num::parses_as_u64(id),
        starts_at(s, i, crate::parse::tag_bookmark_chars()),
        !starts_at(s, i, crate::parse::tag_folder_chars()),
        skip_ws(s, i + 9) == i + 10,
        starts_at(s, i + 10, crate::parse::attr_href_eq_chars()),
        p_text(s, i + 16, '"') == PRes::<Seq<char>>::Good(href, i + 16 + escape_seq(href).len()),
        skip_ws(s, i + 16 + escape_seq(href).len() + 1) == i + 16 + escape_seq(href).len() + 2,
        starts_at(
            s,
            i + 16 + escape_seq(href).len() + 2,
            crate::parse::attr_id_eq_chars(),
        ),
        p_text(s, i + 16 + escape_seq(href).len() + 6, '"') == PRes::<Seq<char>>::Good(
            id,
            i + 16 + escape_seq(href).len() + 6 + id.len(),
        ),
        skip_ws(s, i + 16 + escape_seq(href).len() + 6 + id.len() + 1) == i + 16 + escape_seq(
            href,
        ).len() + 6 + id.len() + 1,
        i + 16 + escape_seq(href).len() + 6 + id.len() + 1 < s.len(),
        s[i + 16 + escape_seq(href).len() + 6 + id.len() + 1] == '>',
        skip_trivia(s, i + 16 + escape_seq(href).len() + 6 + id.len() + 2) == d,
        p_title(s, d) == PRes::<Seq<char>>::Good(title, e3),
        skip_trivia(s, e3) == e4,
        starts_at(s, e4, seq!['<', '/', 'b', 'o', 'o', 'k', 'm', 'a', 'r', 'k', '>']),
    ensures
        p_item(s, i) == PRes::<ItemView>::Good(
            ItemView::Bookmark { id, href, title },
            e4 + 11,
        ),
{
}

/// A rendered bookmark reads back as the bookmark.
#[verifier::rlimit(100)]
#[verifier::spinoff_prover]
proof fn lemma_rt_item_bookmark(s: Seq<char>, i: int, v: ItemView, ind: nat)
    requires
        wf_item(v),
        v is Bookmark,
        region(s, i, item_chars(v, ind)),
    ensures
        p_item(s, i) == PRes::<ItemView>::Good(v, i + item_chars(v, ind).len()),
{
    lemma_spaces_all(ind);
    lemma_spaces_all(ind + 2);
    match v {
        ItemView::Folder { .. } => {},
        ItemView::Bookmark { id, href, title } => {
            let whole = item_chars(v, ind);
            let part5 = bookmark_open_chars() + escape_seq(href) + attr_id_chars() + id
                + attr_end_chars();
            let extra = nl_chars() + spaces(ind + 2) + title_elem_chars(title) + nl_chars()
                + spaces(ind) + bookmark_close_chars();
            assert(whole == part5 + extra) by {
                let t1 = nl_chars() + spaces(ind + 2) + title_elem_chars(title) + nl_chars()
                    + spaces(ind);
                vstd::seq_lib::lemma_concat_associative(part5, nl_chars(), spaces(ind + 2));
                vstd::seq_lib::lemma_concat_associative(
                    part5,
                    nl_chars() + spaces(ind + 2),
                    title_elem_chars(title),
                );
                vstd::seq_lib::lemma_concat_associative(
                    part5,
                    nl_chars() + spaces(ind + 2) + title_elem_chars(title),
                    nl_chars(),
                );
                vstd::seq_lib::lemma_concat_associative(
                    part5,
                    nl_chars() + spaces(ind + 2) + title_elem_chars(title) + nl_chars(),
                    spaces(ind),
                );
                vstd::seq_lib::lemma_concat_associative(part5, t1, bookmark_close_chars());
            }
            assert(region(s, i, part5 + extra));
            assert(forall|j: int| 0 <= j < id.len() ==> is_digit(#[trigger] id[j]));
            lemma_rt_bookmark_attrs(s, i, href, id, extra);
            let e1 = i + 16 + escape_seq(href).len();
            let e2 = e1 + 6 + id.len();
            let d = e2 + 2 + 1 + ind + 2;
            let e3 = d + title_elem_chars(title).len();
            let e4 = e3 + 1 + ind;
            assert(region(s, e2 + 2, extra)) by {
                lemma_region_shift(s, i, part5, extra);
            }
            lemma_rt_bookmark_tail(s, e2 + 2, title, ind);
            lemma_rt_bookmark_assemble(s, i, href, id, title, d, e3, e4);
            assert(e4 + 11 == i + whole.len());
        },
    }
}

/// The opening of a rendered folder: tag, id attribute, and title line,
/// as the parser steps over them.
#[verifier::rlimit(100)]
proof fn lemma_rt_folder_head(s: Seq<char>, i: int, id: Seq<char>, title: Seq<char>, extra: Seq<char>, ind: nat)
    requires
        region(
            s,
            i,
            folder_open_chars() + id + attr_end_chars() + nl_chars() + spaces(ind + 2)
                + title_elem_chars(title) + extra,
        ),
        forall|j: int| 0 <= j < id.len() ==> is_digit(#[trigger] id[j]),
    ensures
        starts_at(s, i, crate::parse::tag_folder_chars()),
        skip_ws(s, i + 7) == i + 8,
        starts_at(s, i + 8, crate::parse::attr_id_eq_chars()),
        p_text(s, i + 12, '"') == PRes::<Seq<char>>::Good(id, i + 12 + id.len()),
        skip_ws(s, i + 12 + id.len() + 1) == i + 12 + id.len() + 1,
        i + 12 + id.len() + 1 < s.len(),
        s[i + 12 + id.len() + 1] == '>',
        skip_trivia(s, i + 12 + id.len() + 2) == i + 15 + id.len() + ind + 2,
        p_title(s, i + 15 + id.len() + ind + 2) == PRes::<Seq<char>>::Good(
            title,
            i + 15 + id.len() + ind + 2 + title_elem_chars(title).len(),
        ),
{
    lemma_spaces_all(ind + 2);
    let part1 = folder_open_chars();
    let part2 = part1 + id;
    let part3 = part2 + attr_end_chars();
    let part4 = part3 + nl_chars();
    let part5 = part4 + spaces(ind + 2);
    let part6 = part5 + title_elem_chars(title);
    lemma_region_shift(s, i, part6, extra);
    lemma_region_shift(s, i, part5, title_elem_chars(title));
    lemma_region_shift(s, i, part4, spaces(ind + 2));
    lemma_region_shift(s, i, part3, nl_chars());
    lemma_region_shift(s, i, part2, attr_end_chars());
    lemma_region_shift(s, i, part1, id);
    assert(starts_at(s, i, crate::parse::tag_folder_chars())) by {
        assert(s.subrange(i, i + 7) =~= crate::parse::tag_folder_chars());
    }
    assert(s[i + 7] == ' ' && s[i + 8] == 'i');
    lemma_rt_skip_ws(s, i + 7, 1);
    let a = i + 8;
    assert(starts_at(s, a, crate::parse::attr_id_eq_chars())) by {
        assert(s.subrange(a, a + 4) =~= crate::parse::attr_id_eq_chars());
    }
    assert(forall|j: int| 0 <= j < id.len() ==> id[j] != '"' && id[j] != '&');
    let e1 = a + 4 + id.len();
    assert(s[e1] == '"' && s[e1 + 1] == '>');
    lemma_rt_plain(s, a + 4, id, '"');
    lemma_rt_skip_ws(s, e1 + 1, 0);
    let d0 = e1 + 2;
    assert(i + part3.len() == d0);
    assert(s[d0] == '\n') by {
        assert(region(s, i + part3.len(), nl_chars()));
        assert(nl_chars()[0] == '\n');
    }
    let d = d0 + 1 + ind + 2;
    assert(i + part5.len() == d);
    assert(region(s, d, title_elem_chars(title)));
    assert(forall|j: int| d0 <= j < d ==> is_ws(#[trigger] s[j])) by {
        assert(region(s, i + part4.len(), spaces(ind + 2)));
    }
    assert(s[d] == '<' && s[d + 1] == 't') by {
        assert(title_elem_chars(title)[0] == title_open_chars()[0]);
        assert(title_elem_chars(title)[1] == title_open_chars()[1]);
    }
    lemma_rt_skip_trivia_ws(s, d0, 1 + ind + 2 as int);
    lemma_rt_title(s, d, title);
}

/// The back half of a rendered folder: children run and closing tag.
#[verifier::rlimit(100)]
proof fn lemma_rt_folder_body(s: Seq<char>, e2: int, items: Seq<ItemView>, ind: nat)
    requires
        wf_items(items),
        region(
            s,
            e2,
            children_chars(items, ind) + nl_chars() + spaces(ind) + folder_close_chars(),
        ),
    ensures
        p_items(s, e2) == PRes::<Seq<ItemView>>::Good(
            items,
            e2 + children_chars(items, ind).len() + 1 + ind,
        ),
        starts_at(
            s,
            e2 + children_chars(items, ind).len() + 1 + ind,
            seq!['<', '/', 'f', 'o', 'l', 'd', 'e', 'r', '>'],
        ),
    decreases items, 4nat,
{
    lemma_spaces_all(ind);
    let cl = children_chars(items, ind);
    let close_start = e2 + cl.len() + 1 + ind;
    lemma_region_shift(s, e2, cl + nl_chars() + spaces(ind), folder_close_chars());
    lemma_region_shift(s, e2, cl + nl_chars(), spaces(ind));
    lemma_region_shift(s, e2, cl, nl_chars());
    let tail = nl_chars() + spaces(ind) + seq!['<', '/'];
    assert(region(s, e2 + cl.len(), tail)) by {
        assert(region(s, e2 + cl.len(), nl_chars()));
        assert(region(s, e2 + cl.len() + 1, spaces(ind)));
        assert(region(s, close_start, folder_close_chars()));
        assert(s[close_start] == folder_close_chars()[0]);
        assert(s[close_start + 1] == folder_close_chars()[1]);
        assert(forall|j: int|
            0 <= j < tail.len() ==> #[trigger] tail[j] == (if j < 1 {
                '\n'
            } else if j < 1 + ind {
                spaces(ind)[j - 1]
            } else if j == 1 + ind {
                '<'
            } else {
                '/'
            }));
    }
    lemma_rt_children(s, e2, items, ind);
    assert(starts_at(s, close_start, seq!['<', '/', 'f', 'o', 'l', 'd', 'e', 'r', '>'])) by {
        assert(region(s, close_start, folder_close_chars()));
        assert(s.subrange(close_start, close_start + 9) =~= seq![
            '<', '/', 'f', 'o', 'l', 'd', 'e', 'r', '>',
        ]);
    }
}

/// Assembling a folder parse from the facts about its pieces.
#[verifier::rlimit(100)]
proof fn lemma_rt_folder_assemble(
    s: Seq<char>,
    i: int,
    id: Seq<char>,
    title: Seq<char>,
    items: Seq<ItemView>,
    d: int,
    e2: int,
    e3: int,
)
    requires
        crate::num::parses_as_u64(id),
        starts_at(s, i, crate::parse::tag_folder_chars()),
        skip_ws(s, i + 7) == i + 8,
        starts_at(s, i + 8, crate::parse::attr_id_eq_chars()),
        p_text(s, i + 12, '"') == PRes::<Seq<char>>::Good(id, i + 12 + id.len()),
        skip_ws(s, i + 12 + id.len() + 1) == i + 12 + id.len() + 1,
        i + 12 + id.len() + 1 < s.len(),
        s[i + 12 + id.len() + 1] == '>',
        skip_trivia(s, i + 12 + id.len() + 2) == d,
        p_title(s, d) == PRes::<Seq<char>>::Good(title, e2),
        i < e2 <= s.len(),
        p_items(s, e2) == PRes::<Seq<ItemView>>::Good(items, e3),
        starts_at(s, e3, seq!['<', '/', 'f', 'o', 'l', 'd', 'e', 'r', '>']),
    ensures
        p_item(s, i) == PRes::<ItemView>::Good(
            ItemView::Folder { id, title, items },
            e3 + 9,
        ),
{
}

/// A rendered folder reads back as the folder.
#[verifier::rlimit(100)]
#[verifier::spinoff_prover]
proof fn lemma_rt_item_folder(s: Seq<char>, i: int, v: ItemView, ind: nat)
    requires
        wf_item(v),
        v is Folder,
        region(s, i, item_chars(v, ind)),
    ensures
        p_item(s, i) == PRes::<ItemView>::Good(v, i + item_chars(v, ind).len()),
    decreases v, 1nat,
{
    lemma_spaces_all(ind);
    lemma_spaces_all(ind + 2);
    match v {
        ItemView::Bookmark { .. } => {},
        ItemView::Folder { id, title, items } => {
            let whole = item_chars(v, ind);
            let part6 = folder_open_chars() + id + attr_end_chars() + nl_chars() + spaces(ind + 2)
                + title_elem_chars(title);
            let extra = children_chars(items, ind) + nl_chars() + spaces(ind)
                + folder_close_chars();
            let e2 = i + part6.len();
            let cl = children_chars(items, ind);
            let close_start = e2 + cl.len() + 1 + ind;
            assert(whole == part6 + extra) by {
                let cc = children_chars(items, ind);
                vstd::seq_lib::lemma_concat_associative(part6, cc, nl_chars());
                vstd::seq_lib::lemma_concat_associative(part6, cc + nl_chars(), spaces(ind));
                vstd::seq_lib::lemma_concat_associative(
                    part6,
                    cc + nl_chars() + spaces(ind),
                    folder_close_chars(),
                );
            }
            assert(region(s, i, part6 + extra));
            assert(forall|j: int| 0 <= j < id.len() ==> is_digit(#[trigger] id[j]));
            lemma_rt_folder_head(s, i, id, title, extra, ind);
            lemma_region_shift(s, i, part6, extra);
            lemma_rt_folder_body(s, e2, items, ind);
            assert(e2 == i + 15 + id.len() + ind + 2 + title_elem_chars(title).len());
            assert(e2 > i && e2 <= s.len());
            lemma_rt_folder_assemble(
                s,
                i,
                id,
                title,
                items,
                i + 15 + id.len() + ind + 2,
                e2,
                close_start,
            );
            assert(close_start + 9 == i + whole.len());
        },
    }
}

/// A rendered children run reads back as the children, stopping right at
/// the closing tag that follows.
#[verifier::rlimit(100)]
#[verifier::spinoff_prover]
proof fn lemma_rt_children(s: Seq<char>, i: int, list: Seq<ItemView>, ind: nat)
    requires
        wf_items(list),
        region(s, i, children_chars(list, ind)),
        region(
            s,
            i + children_chars(list, ind).len(),
            nl_chars() + spaces(ind) + seq!['<', '/'],
        ),
    ensures
        p_items(s, i) == PRes::<Seq<ItemView>>::Good(
            list,
            i + children_chars(list, ind).len() + 1 + ind,
        ),
    decreases list, 3nat,
{
    let cl = children_chars(list, ind);
    let tail = nl_chars() + spaces(ind) + seq!['<', '/'];
    if list.len() == 0 {
        assert(cl.len() == 0);
        assert(list =~= Seq::<ItemView>::empty());
        assert(skip_trivia(s, i) == i + 1 + ind && starts_at(s, i + 1 + ind, seq!['<', '/'])
            && i + 1 + ind <= s.len()) by {
            lemma_spaces_all(ind);
            assert(forall|j: int|
                0 <= j < tail.len() ==> #[trigger] tail[j] == (if j < 1 {
                    '\n'
                } else if j < 1 + ind {
                    spaces(ind)[j - 1]
                } else if j == 1 + ind {
                    '<'
                } else {
                    '/'
                }));
            assert(forall|j: int| i <= j < i + 1 + ind ==> is_ws(#[trigger] s[j]));
            assert(s[i + 1 + ind] == '<' && s[i + 1 + ind + 1] == '/');
            lemma_rt_skip_trivia_ws(s, i, 1 + ind as int);
            assert(s.subrange(i + 1 + ind, i + 1 + ind + 2) =~= seq!['<', '/']);
        }
    } else {
        let head = list[0];
        let rest = list.drop_first();
        let ihead = item_chars(head, (ind + 2) as nat);
        let lead = nl_chars() + spaces(ind + 2);
        let hstart = i + 1 + ind + 2;
        let k = hstart + ihead.len();
        assert(cl =~= lead + ihead + children_chars(rest, ind));
        assert(wf_item(head) && wf_items(rest)) by {
            assert(list[0] == head);
        }
        assert(skip_trivia(s, i) == hstart && s[hstart] == '<' && hstart < s.len()
            && !starts_at(s, hstart, seq!['<', '/'])) by {
            lemma_spaces_all(ind + 2);
            lemma_region_shift(s, i, lead + ihead, children_chars(rest, ind));
            lemma_region_shift(s, i, lead, ihead);
            lemma_item_head_chars(head, (ind + 2) as nat);
            assert(forall|j: int| i <= j < hstart ==> is_ws(#[trigger] s[j])) by {
                assert(region(s, i, lead));
                assert(forall|j: int|
                    0 <= j < lead.len() ==> #[trigger] lead[j] == (if j < 1 {
                        '\n'
                    } else {
                        spaces(ind + 2)[j - 1]
                    }));
            }
            assert(region(s, hstart, ihead));
            assert(s[hstart] == '<' && (s[hstart + 1] == 'f' || s[hstart + 1] == 'b'));
            lemma_rt_skip_trivia_ws(s, i, 1 + ind + 2 as int);
            if starts_at(s, hstart, seq!['<', '/']) {
                assert(s.subrange(hstart, hstart + 2)[1] == s[hstart + 1]);
            }
        }
        assert(p_item(s, hstart) == PRes::<ItemView>::Good(head, k)) by {
            lemma_spaces_all(ind + 2);
            lemma_region_shift(s, i, lead + ihead, children_chars(rest, ind));
            lemma_region_shift(s, i, lead, ihead);
            assert(region(s, hstart, ihead));
            lemma_rt_item(s, hstart, head, (ind + 2) as nat);
        }
        assert(p_items(s, k) == PRes::<Seq<ItemView>>::Good(
            rest,
            k + children_chars(rest, ind).len() + 1 + ind,
        )) by {
            lemma_spaces_all(ind + 2);
            lemma_region_shift(s, i, lead + ihead, children_chars(rest, ind));
            assert(k + children_chars(rest, ind).len() == i + cl.len());
            lemma_rt_children(s, k, rest, ind);
        }
        assert(seq![head] + rest =~= list);
        assert(k > i && k <= s.len()) by {
            lemma_spaces_all(ind + 2);
        }
        assert(k + children_chars(rest, ind).len() + 1 + ind == i + cl.len() + 1 + ind) by {
            lemma_spaces_all(ind + 2);
        }
        assert(k + children_chars(rest, ind).len() + 1 + ind == i + cl.len() + 1 + ind);
        assert(p_items(s, i) == PRes::<Seq<ItemView>>::Good(list, i + cl.len() + 1 + ind));
    }
}

/// Skipping trivia over whitespace followed by `<!` that begins no
/// comment (the DOCTYPE line) lands at the `<`.
proof fn lemma_rt_skip_trivia_ws_bang(s: Seq<char>, i: int, k: int)
    requires
        0 <= i,
        0 <= k,
        i + k + 2 < s.len(),
        forall|j: int| i <= j < i + k ==> is_ws(#[trigger] s[j]),
        s[i + k] == '<',
        s[i + k + 2] != '-',
    ensures
        skip_trivia(s, i) == i + k,
    decreases k,
{
    if k == 0 {
        assert(!is_ws(s[i]));
        assert(!starts_at(s, i, crate::parse::comment_start_chars())) by {
            if starts_at(s, i, crate::parse::comment_start_chars()) {
                assert(s.subrange(i, i + 4)[2] == s[i + 2]);
            }
        }
    } else {
        assert(is_ws(s[i]));
        lemma_rt_skip_trivia_ws_bang(s, i + 1, k - 1);
    }
}

/// A rendered run of top-level items reads back as the items, stopping
/// right at the closing root tag that follows the final newline.
#[verifier::rlimit(100)]
#[verifier::spinoff_prover]
proof fn lemma_rt_top(s: Seq<char>, i: int, list: Seq<ItemView>)
    requires
        wf_items(list),
        list.len() > 0,
        region(s, i, top_chars(list)),
        i + top_chars(list).len() + 2 < s.len(),
        s[i + top_chars(list).len()] == '\n',
        s[i + top_chars(list).len() + 1] == '<',
        s[i + top_chars(list).len() + 2] == '/',
    ensures
        p_items(s, i) == PRes::<Seq<ItemView>>::Good(list, i + top_chars(list).len() + 1),
    decreases list.len(),
{
    let top = top_chars(list);
    let head = list[0];
    let rest = list.drop_first();
    let ihead = item_chars(head, 0);
    let k0 = i + ihead.len();
    let end = i + top.len();
    assert(wf_item(head) && wf_items(rest)) by {
        assert(list[0] == head);
    }
    if list.len() == 1 {
        assert(top == ihead);
    } else {
        assert(top == ihead + nl_chars() + top_chars(rest));
        assert(top == (ihead + nl_chars()) + top_chars(rest));
    }
    assert(p_item(s, i) == PRes::<ItemView>::Good(head, k0) && skip_trivia(s, i) == i && s[i]
        == '<' && !starts_at(s, i, seq!['<', '/']) && i < s.len()) by {
        if list.len() > 1 {
            lemma_region_shift(s, i, ihead + nl_chars(), top_chars(rest));
            lemma_region_shift(s, i, ihead, nl_chars());
        }
        assert(region(s, i, ihead));
        lemma_item_head_chars(head, 0);
        assert(s[i] == '<' && (s[i + 1] == 'f' || s[i + 1] == 'b'));
        lemma_rt_skip_trivia_ws(s, i, 0);
        if starts_at(s, i, seq!['<', '/']) {
            assert(s.subrange(i, i + 2)[1] == s[i + 1]);
        }
        lemma_rt_item(s, i, head, 0);
    }
    if list.len() == 1 {
        assert(rest =~= Seq::<ItemView>::empty());
        assert(k0 == end);
        assert(p_items(s, k0) == PRes::<Seq<ItemView>>::Good(rest, end + 1)) by {
            assert(forall|j: int| k0 <= j < k0 + 1 ==> is_ws(#[trigger] s[j]));
            lemma_rt_skip_trivia_ws(s, k0, 1);
            assert(starts_at(s, end + 1, seq!['<', '/'])) by {
                assert(s.subrange(end + 1, end + 3) =~= seq!['<', '/']);
            }
            crate::parse::lemma_skip_trivia(s, k0);
        }
    } else {
        assert(p_items(s, k0) == PRes::<Seq<ItemView>>::Good(rest, end + 1)) by {
            lemma_region_shift(s, i, ihead + nl_chars(), top_chars(rest));
            lemma_region_shift(s, i, ihead, nl_chars());
            assert(s[k0] == '\n') by {
                assert(region(s, k0, nl_chars()));
            }
            assert(region(s, k0 + 1, top_chars(rest)));
            lemma_item_head_chars(rest[0], 0);
            assert(top_chars(rest)[0] == item_chars(rest[0], 0)[0] && top_chars(rest)[1]
                == item_chars(rest[0], 0)[1]) by {
                if rest.len() == 1 {
                    assert(top_chars(rest) == item_chars(rest[0], 0));
                } else {
                    assert(top_chars(rest) == (item_chars(rest[0], 0) + nl_chars()) + top_chars(
                        rest.drop_first(),
                    ));
                }
            }
            assert(s[k0 + 1] == '<' && (s[k0 + 2] == 'f' || s[k0 + 2] == 'b'));
            assert(forall|j: int| k0 <= j < k0 + 1 ==> is_ws(#[trigger] s[j]));
            lemma_rt_skip_trivia_ws(s, k0, 1);
            lemma_p_items_at(s, k0);
            lemma_rt_top(s, k0 + 1, rest);
        }
    }
    assert(seq![head] + rest =~= list);
    assert(k0 > i && k0 <= s.len());
    assert(p_items(s, i) == PRes::<Seq<ItemView>>::Good(list, end + 1));
}

/// Ground facts about the fixed prolog and DOCTYPE characters.
#[verifier::rlimit(100)]
proof fn lemma_header_points()
    ensures
        header_chars().len() == 182,
        header_chars()[0] == '<',
        header_chars()[1] == '?',
        header_chars()[36] == '?',
        header_chars()[37] == '>',
        header_chars()[38] == '\n',
        header_chars()[39] == '<',
        header_chars()[40] == '!',
        header_chars()[41] == 'D',
        header_chars()[181] == '>',
{
}

/// No question mark inside the XML declaration before its end.
#[verifier::rlimit(100)]
proof fn lemma_header_no_q()
    ensures
        forall|k: int| 2 <= k < 36 ==> header_chars()[k] != '?',
{
}

/// No closing angle bracket inside the DOCTYPE before its end.
#[verifier::rlimit(100)]
proof fn lemma_header_no_gt_a()
    ensures
        forall|k: int| 41 <= k < 100 ==> header_chars()[k] != '>',
{
}

/// No closing angle bracket inside the DOCTYPE before its end (rest).
#[verifier::rlimit(100)]
proof fn lemma_header_no_gt_b()
    ensures
        forall|k: int| 100 <= k < 181 ==> header_chars()[k] != '>',
{
}

/// The parser steps over the prolog and DOCTYPE of a serialized document.
#[verifier::rlimit(100)]
#[verifier::spinoff_prover]
proof fn lemma_rt_prolog(s: Seq<char>)
    requires
        region(s, 0, header_chars()),
        s.len() > 189,
        s[182] == '\n',
        s[183] == '<',
        s[184] == 'x',
    ensures
        skip_trivia(s, 0) == 0,
        starts_at(s, 0, seq!['<', '?']),
        scan_past(s, 2, seq!['?', '>']) == 38,
        skip_trivia(s, 38) == 39,
        starts_at(s, 39, seq!['<', '!']),
        scan_past(s, 41, seq!['>']) == 182,
        skip_trivia(s, 182) == 183,
{
    lemma_header_points();
    lemma_header_no_q();
    lemma_header_no_gt_a();
    lemma_header_no_gt_b();
    assert(s[0] == '<' && s[1] == '?' && s[36] == '?' && s[37] == '>' && s[38] == '\n' && s[39]
        == '<' && s[40] == '!' && s[41] == 'D' && s[181] == '>');
    lemma_rt_skip_trivia_ws(s, 0, 0);
    assert(starts_at(s, 0, seq!['<', '?'])) by {
        assert(s.subrange(0, 2) =~= seq!['<', '?']);
    }
    let qgt = seq!['?', '>'];
    assert(scan_past(s, 2, qgt) == 38) by {
        assert(starts_at(s, 36, qgt)) by {
            assert(s.subrange(36, 38) =~= qgt);
        }
        assert forall|k: int| 2 <= k < 36 implies !starts_at(
            s,
            k,
            #[trigger] qgt.subrange(0, 2),
        ) by {
            assert(qgt.subrange(0, 2) =~= qgt);
            if starts_at(s, k, qgt) {
                assert(s.subrange(k, k + 2)[0] == s[k]);
                assert(s[k] == header_chars()[k]);
            }
        }
        lemma_rt_scan(s, 2, qgt, 36);
    }
    assert(skip_trivia(s, 38) == 39) by {
        assert(forall|j: int| 38 <= j < 39 ==> is_ws(#[trigger] s[j]));
        lemma_rt_skip_trivia_ws_bang(s, 38, 1);
    }
    assert(starts_at(s, 39, seq!['<', '!'])) by {
        assert(s.subrange(39, 41) =~= seq!['<', '!']);
    }
    let gt1 = seq!['>'];
    assert(scan_past(s, 41, gt1) == 182) by {
        assert(starts_at(s, 181, gt1)) by {
            assert(s.subrange(181, 182) =~= gt1);
        }
        assert forall|k: int| 41 <= k < 181 implies !starts_at(
            s,
            k,
            #[trigger] gt1.subrange(0, 1),
        ) by {
            assert(gt1.subrange(0, 1) =~= gt1);
            if starts_at(s, k, gt1) {
                assert(s.subrange(k, k + 1)[0] == s[k]);
                assert(s[k] == header_chars()[k]);
            }
        }
        lemma_rt_scan(s, 41, gt1, 181);
    }
    assert(skip_trivia(s, 182) == 183) by {
        assert(forall|j: int| 182 <= j < 183 ==> is_ws(#[trigger] s[j]));
        lemma_rt_skip_trivia_ws(s, 182, 1);
    }
}

/// The item run of a serialized document: the leading comment and blank
/// line are skipped, the items read back, and the run stops at the
/// closing root tag.
#[verifier::rlimit(100)]
#[verifier::spinoff_prover]
proof fn lemma_rt_doc_items(s: Seq<char>, n: nat, items: Seq<ItemView>, cl: int, tl: int)
    requires
        wf_items(items),
        cl == comment_chars(n).len(),
        tl == top_chars(items).len(),
        0 <= 203 < s.len(),
        s[203] == '\n',
        region(s, 204, comment_chars(n)),
        s[204 + cl] == '\n',
        s[205 + cl] == '\n',
        region(s, 206 + cl, top_chars(items)),
        s[206 + cl + tl] == '\n',
        region(s, 207 + cl + tl, xbel_close_chars()),
        s.len() == 214 + cl + tl,
    ensures
        p_items(s, 203) == PRes::<Seq<ItemView>>::Good(items, 207 + cl + tl),
        starts_at(s, 207 + cl + tl, xbel_close_chars()),
        skip_trivia(s, 214 + cl + tl) == s.len(),
{
    assert(s[207 + cl + tl] == '<' && s[208 + cl + tl] == '/') by {
        assert(region(s, 207 + cl + tl, xbel_close_chars()));
        assert(xbel_close_chars()[0] == '<');
        assert(xbel_close_chars()[1] == '/');
    }
    assert(starts_at(s, 207 + cl + tl, xbel_close_chars())) by {
        assert(s.subrange(207 + cl + tl, 214 + cl + tl) =~= xbel_close_chars());
    }
    assert(skip_trivia(s, 203) == skip_trivia(s, 204));
    lemma_rt_skip_comment(s, 204, n);
    if items.len() == 0 {
        assert(tl == 0);
        assert(items =~= Seq::<ItemView>::empty());
        assert(skip_trivia(s, 204 + cl) == 207 + cl) by {
            assert(forall|j: int| 204 + cl <= j < 207 + cl ==> is_ws(#[trigger] s[j]));
            lemma_rt_skip_trivia_ws(s, 204 + cl, 3);
        }
        crate::parse::lemma_skip_trivia(s, 203);
        lemma_p_items_at(s, 203);
        assert(p_items(s, 207 + cl) == PRes::<Seq<ItemView>>::Good(items, 207 + cl)) by {
            assert(skip_trivia(s, 207 + cl) == 207 + cl) by {
                lemma_rt_skip_trivia_ws(s, 207 + cl, 0);
            }
            assert(starts_at(s, 207 + cl, seq!['<', '/'])) by {
                assert(s.subrange(207 + cl, 209 + cl) =~= seq!['<', '/']);
            }
        }
    } else {
        let head = items[0];
        let ihead = item_chars(head, 0);
        assert(top_chars(items)[0] == ihead[0] && top_chars(items)[1] == ihead[1]) by {
            if items.len() == 1 {
                assert(top_chars(items) == ihead);
            } else {
                assert(top_chars(items) == (ihead + nl_chars()) + top_chars(items.drop_first()));
            }
            lemma_item_head_chars(head, 0);
        }
        assert(s[206 + cl] == '<' && (s[207 + cl] == 'f' || s[207 + cl] == 'b')) by {
            lemma_item_head_chars(head, 0);
            assert(region(s, 206 + cl, top_chars(items)));
        }
        assert(skip_trivia(s, 204 + cl) == 206 + cl) by {
            assert(forall|j: int| 204 + cl <= j < 206 + cl ==> is_ws(#[trigger] s[j]));
            lemma_rt_skip_trivia_ws(s, 204 + cl, 2);
        }
        crate::parse::lemma_skip_trivia(s, 203);
        lemma_p_items_at(s, 203);
        lemma_rt_top(s, 206 + cl, items);
    }
    assert(skip_trivia(s, 214 + cl + tl) == s.len());
}

/// Parsing a serialized well-formed tree gives back the tree and the
/// fixed version `1.0`: the round trip over the canonical rendering.
#[verifier::rlimit(100)]
#[verifier::spinoff_prover]
pub proof fn lemma_parse_serialize_round_trip(items: Seq<ItemView>)
    requires
        wf_items(items),
    ensures
        ({
            let r = p_xbel(doc_chars(items));
            r matches PRes::Good(d, e) && d.0 == crate::xbel_format::version_1_0() && d.1 == items
        }),
{
    let s = doc_chars(items);
    let n = items_high(items);
    let c = comment_chars(n);
    let cl = c.len() as int;
    let top = top_chars(items);
    let tl = top.len() as int;
    let ver = seq!['1', '.', '0'];
    let p1 = header_chars();
    let p2 = p1 + nl_chars();
    let p3 = p2 + xbel_open_chars();
    let p4 = p3 + ver;
    let p5 = p4 + attr_end_chars();
    let p6 = p5 + nl_chars();
    let p7 = p6 + c;
    let p8 = p7 + nl_chars();
    let p9 = p8 + nl_chars();
    let p10 = p9 + top;
    let p11 = p10 + nl_chars();
    lemma_header_points();
    assert(region(s, 0, p11 + xbel_close_chars()));
    lemma_region_shift(s, 0, p11, xbel_close_chars());
    lemma_region_shift(s, 0, p10, nl_chars());
    lemma_region_shift(s, 0, p9, top);
    lemma_region_shift(s, 0, p8, nl_chars());
    lemma_region_shift(s, 0, p7, nl_chars());
    lemma_region_shift(s, 0, p6, c);
    lemma_region_shift(s, 0, p5, nl_chars());
    lemma_region_shift(s, 0, p4, attr_end_chars());
    lemma_region_shift(s, 0, p3, ver);
    lemma_region_shift(s, 0, p2, xbel_open_chars());
    lemma_region_shift(s, 0, p1, nl_chars());
    assert(s.len() == 214 + cl + tl);
    assert(s[182] == '\n') by {
        assert(region(s, 182, nl_chars()));
        assert(nl_chars()[0] == '\n');
    }
    assert(region(s, 183, xbel_open_chars()));
    assert(s[183] == '<' && s[184] == 'x' && s[185] == 'b' && s[186] == 'e' && s[187] == 'l'
        && s[188] == ' ' && s[189] == 'v');
    lemma_rt_prolog(s);
    assert(starts_at(s, 183, seq!['<', 'x', 'b', 'e', 'l'])) by {
        assert(s.subrange(183, 188) =~= seq!['<', 'x', 'b', 'e', 'l']);
    }
    assert(skip_ws(s, 188) == 189) by {
        lemma_rt_skip_ws(s, 188, 1);
    }
    assert(starts_at(s, 189, crate::parse::attr_version_eq_chars())) by {
        assert(s.subrange(189, 198) =~= crate::parse::attr_version_eq_chars());
    }
    assert(p_text(s, 198, '"') == PRes::<Seq<char>>::Good(ver, 201)) by {
        assert(region(s, 198, ver));
        assert(s[201] == '"') by {
            assert(region(s, 201, attr_end_chars()));
            assert(attr_end_chars()[0] == '"');
        }
        lemma_rt_plain(s, 198, ver, '"');
    }
    assert(s[202] == '>') by {
        assert(region(s, 201, attr_end_chars()));
        assert(attr_end_chars()[1] == '>');
    }
    assert(skip_ws(s, 202) == 202) by {
        lemma_rt_skip_ws(s, 202, 0);
    }
    assert(s[203] == '\n') by {
        assert(region(s, 203, nl_chars()));
        assert(nl_chars()[0] == '\n');
    }
    assert(s[204 + cl] == '\n' && s[205 + cl] == '\n') by {
        assert(region(s, 204 + cl, nl_chars()));
        assert(region(s, 205 + cl, nl_chars()));
        assert(nl_chars()[0] == '\n');
    }
    assert(s[206 + cl + tl] == '\n') by {
        assert(region(s, 206 + cl + tl, nl_chars()));
        assert(nl_chars()[0] == '\n');
    }
    lemma_rt_doc_items(s, n, items, cl, tl);
    assert(p_xbel_body(s, 202, ver) == PRes::<(Seq<char>, Seq<ItemView>)>::Good(
        (ver, items),
        214 + cl + tl,
    ));
    assert(p_xbel(s) == PRes::<(Seq<char>, Seq<ItemView>)>::Good((ver, items), 214 + cl + tl));
    assert(ver =~= crate::xbel_format::version_1_0());
}

} // verus!
