//! The serializer.
//!
//! A tree is written to the exact on-disk layout the downstream sync
//! extension expects: a fixed XML prolog and DOCTYPE, the `xbel` root with
//! version `1.0`, a textual comment carrying the tree's highest id right
//! inside the root, then the items with two-space indentation. The layout
//! is stated character by character by the `doc_chars` family of spec
//! functions, and `write_to_string` produces exactly that.

use vstd::prelude::*;

use crate::num::dec_str;
use crate::text::{
    escape_seq, lemma_spaces_push, push_chars, push_escaped, push_str_chars, spaces,
    string_from_chars,
};
use crate::xbel_format::{
    item_view, items_high, items_view, lemma_items_view_index, wf_items, xbel_view, ItemView,
    Xbel, XbelItem,
};

verus! {

/// The fixed XML prolog and Floccus DOCTYPE, byte for byte, without a
/// trailing newline.
pub open spec fn header_chars() -> Seq<char> {
    seq![
        '<', '?', 'x', 'm', 'l', ' ', 'v', 'e', 'r', 's', 'i', 'o',
        'n', '=', '"', '1', '.', '0', '"', ' ', 'e', 'n', 'c', 'o',
        'd', 'i', 'n', 'g', '=', '"', 'U', 'T', 'F', '-', '8', '"',
        '?', '>', '\n', '<', '!', 'D', 'O', 'C', 'T', 'Y', 'P', 'E',
        ' ', 'x', 'b', 'e', 'l', ' ', 'P', 'U', 'B', 'L', 'I', 'C',
        ' ', '"', '+', '/', '/', 'I', 'D', 'N', ' ', 'p', 'y', 't',
        'h', 'o', 'n', '.', 'o', 'r', 'g', '/', '/', 'D', 'T', 'D',
        ' ', 'X', 'M', 'L', ' ', 'B', 'o', 'o', 'k', 'm', 'a', 'r',
        'k', ' ', 'E', 'x', 'c', 'h', 'a', 'n', 'g', 'e', ' ', 'L',
        'a', 'n', 'g', 'u', 'a', 'g', 'e', ' ', '1', '.', '0', '/',
        '/', 'E', 'N', '/', '/', 'X', 'M', 'L', '"', ' ', '"', 'h',
        't', 't', 'p', ':', '/', '/', 'p', 'y', 'x', 'm', 'l', '.',
        's', 'o', 'u', 'r', 'c', 'e', 'f', 'o', 'r', 'g', 'e', '.',
        'n', 'e', 't', '/', 't', 'o', 'p', 'i', 'c', 's', '/', 'd',
        't', 'd', 's', '/', 'x', 'b', 'e', 'l', '.', 'd', 't', 'd',
        '"', '>',
    ]
}

/// `<folder id="`.
pub open spec fn folder_open_chars() -> Seq<char> {
    seq!['<', 'f', 'o', 'l', 'd', 'e', 'r', ' ', 'i', 'd', '=', '"']
}

/// `">`.
pub open spec fn attr_end_chars() -> Seq<char> {
    seq!['"', '>']
}

/// `<title>`.
pub open spec fn title_open_chars() -> Seq<char> {
    seq!['<', 't', 'i', 't', 'l', 'e', '>']
}

/// `</title>`.
pub open spec fn title_close_chars() -> Seq<char> {
    seq!['<', '/', 't', 'i', 't', 'l', 'e', '>']
}

/// `</folder>`.
pub open spec fn folder_close_chars() -> Seq<char> {
    seq!['<', '/', 'f', 'o', 'l', 'd', 'e', 'r', '>']
}

/// `<bookmark href="`.
pub open spec fn bookmark_open_chars() -> Seq<char> {
    seq!['<', 'b', 'o', 'o', 'k', 'm', 'a', 'r', 'k', ' ', 'h', 'r', 'e', 'f', '=', '"']
}

/// `" id="`.
pub open spec fn attr_id_chars() -> Seq<char> {
    seq!['"', ' ', 'i', 'd', '=', '"']
}

/// `</bookmark>`.
pub open spec fn bookmark_close_chars() -> Seq<char> {
    seq!['<', '/', 'b', 'o', 'o', 'k', 'm', 'a', 'r', 'k', '>']
}

/// `<!--- highestId :`.
pub open spec fn comment_open_chars() -> Seq<char> {
    seq![
        '<', '!', '-', '-', '-', ' ', 'h', 'i', 'g', 'h', 'e', 's', 't', 'I', 'd', ' ', ':',
    ]
}

/// `: for Floccus bookmark sync browser extension -->`.
pub open spec fn comment_close_chars() -> Seq<char> {
    seq![
        ':', ' ', 'f', 'o', 'r', ' ', 'F', 'l', 'o', 'c', 'c', 'u', 's', ' ', 'b', 'o', 'o',
        'k', 'm', 'a', 'r', 'k', ' ', 's', 'y', 'n', 'c', ' ', 'b', 'r', 'o', 'w', 's', 'e',
        'r', ' ', 'e', 'x', 't', 'e', 'n', 's', 'i', 'o', 'n', ' ', '-', '-', '>',
    ]
}

/// `<xbel version="`.
pub open spec fn xbel_open_chars() -> Seq<char> {
    seq!['<', 'x', 'b', 'e', 'l', ' ', 'v', 'e', 'r', 's', 'i', 'o', 'n', '=', '"']
}

/// `</xbel>`.
pub open spec fn xbel_close_chars() -> Seq<char> {
    seq!['<', '/', 'x', 'b', 'e', 'l', '>']
}

/// A newline.
pub open spec fn nl_chars() -> Seq<char> {
    seq!['\n']
}

/// The title element on one line: `<title>`, the escaped text, `</title>`.
pub open spec fn title_elem_chars(t: Seq<char>) -> Seq<char> {
    title_open_chars() + escape_seq(t) + title_close_chars()
}

/// The highest-id comment: `<!--- highestId :`, the decimal id, the fixed
/// closing text.
pub open spec fn comment_chars(n: nat) -> Seq<char> {
    comment_open_chars() + dec_str(n) + comment_close_chars()
}

/// One item rendered at indentation `ind` (the item's own line starts
/// elsewhere; `ind` governs its inner lines and closing tag).
pub open spec fn item_chars(v: ItemView, ind: nat) -> Seq<char>
    decreases v, 0nat,
{
    match v {
        ItemView::Bookmark { id, href, title } => bookmark_open_chars() + escape_seq(href)
            + attr_id_chars() + id + attr_end_chars() + nl_chars() + spaces(ind + 2)
            + title_elem_chars(title) + nl_chars() + spaces(ind) + bookmark_close_chars(),
        ItemView::Folder { id, title, items } => folder_open_chars() + id + attr_end_chars()
            + nl_chars() + spaces(ind + 2) + title_elem_chars(title) + children_chars(items, ind)
            + nl_chars() + spaces(ind) + folder_close_chars(),
    }
}

/// A folder's children: each preceded by a newline and the children's
/// indentation.
pub open spec fn children_chars(s: Seq<ItemView>, ind: nat) -> Seq<char>
    decreases s, 1nat,
{
    if s.len() == 0 {
        Seq::<char>::empty()
    } else {
        nl_chars() + spaces(ind + 2) + item_chars(s[0], ind + 2) + children_chars(
            s.drop_first(),
            ind,
        )
    }
}

/// The top-level items: the first at column zero, each further one on a
/// new line.
pub open spec fn top_chars(s: Seq<ItemView>) -> Seq<char>
    decreases s,
{
    if s.len() == 0 {
        Seq::<char>::empty()
    } else if s.len() == 1 {
        item_chars(s[0], 0)
    } else {
        item_chars(s[0], 0) + nl_chars() + top_chars(s.drop_first())
    }
}

/// The whole document: header, root open tag, the highest-id comment, a
/// blank line, the items, and the closing root tag.
pub open spec fn doc_chars(items: Seq<ItemView>) -> Seq<char> {
    header_chars() + nl_chars() + xbel_open_chars() + seq!['1', '.', '0'] + attr_end_chars()
        + nl_chars() + comment_chars(items_high(items)) + nl_chars() + nl_chars() + top_chars(
        items,
    ) + nl_chars() + xbel_close_chars()
}

/// Append one item at the indentation the all-space run `indent` holds.
#[verifier::rlimit(100)]
fn write_item(it: &XbelItem, indent: &Vec<char>, out: &mut Vec<char>)
    requires
        indent@ == spaces(indent@.len() as nat),
    ensures
        final(out)@ == old(out)@ + item_chars(item_view(*it), indent@.len() as nat),
    decreases *it,
{
    let ghost ind = indent@.len() as nat;
    let mut inner: Vec<char> = Vec::new();
    push_chars(&mut inner, indent);
    inner.push(' ');
    inner.push(' ');
    proof {
        lemma_spaces_push(ind);
        lemma_spaces_push(ind + 1);
        assert(inner@ =~= spaces(ind + 2));
        assert(inner@.len() == ind + 2);
    }
    match it {
        XbelItem::Bookmark(b) => {
            push_str_chars(out, "<bookmark href=\"");
            proof {
                reveal_strlit("<bookmark href=\"");
                assert("<bookmark href=\""@ =~= bookmark_open_chars());
            }
            push_escaped(out, b.href.as_str());
            push_str_chars(out, "\" id=\"");
            proof {
                reveal_strlit("\" id=\"");
                assert("\" id=\""@ =~= attr_id_chars());
            }
            push_str_chars(out, b.id.as_str());
            push_str_chars(out, "\">\n");
            proof {
                reveal_strlit("\">\n");
                assert("\">\n"@ =~= attr_end_chars() + nl_chars());
            }
            push_chars(out, &inner);
            push_str_chars(out, "<title>");
            proof {
                reveal_strlit("<title>");
                assert("<title>"@ =~= title_open_chars());
            }
            push_escaped(out, b.title.text.as_str());
            push_str_chars(out, "</title>\n");
            proof {
                reveal_strlit("</title>\n");
                assert("</title>\n"@ =~= title_close_chars() + nl_chars());
            }
            push_chars(out, indent);
            push_str_chars(out, "</bookmark>");
            proof {
                reveal_strlit("</bookmark>");
                assert("</bookmark>"@ =~= bookmark_close_chars());
                assert(out@ =~= old(out)@ + item_chars(item_view(*it), ind));
            }
        },
        XbelItem::Folder(f) => {
            push_str_chars(out, "<folder id=\"");
            proof {
                reveal_strlit("<folder id=\"");
                assert("<folder id=\""@ =~= folder_open_chars());
            }
            push_str_chars(out, f.id.as_str());
            push_str_chars(out, "\">\n");
            proof {
                reveal_strlit("\">\n");
                assert("\">\n"@ =~= attr_end_chars() + nl_chars());
            }
            push_chars(out, &inner);
            push_str_chars(out, "<title>");
            proof {
                reveal_strlit("<title>");
                assert("<title>"@ =~= title_open_chars());
            }
            push_escaped(out, f.title.text.as_str());
            push_str_chars(out, "</title>");
            proof {
                reveal_strlit("</title>");
                assert("</title>"@ =~= title_close_chars());
            }
            let ghost mid = out@;
            proof {
                assert(mid =~= old(out)@ + (folder_open_chars() + f.id@ + attr_end_chars()
                    + nl_chars() + spaces(ind + 2) + title_elem_chars(f.title.text@)));
            }
            proof {
                assert(decreases_to!(*it => *f));
                assert(decreases_to!(*f => f.items));
                assert(decreases_to!(f.items => f.items@));
            }
            write_children(&f.items, indent, out);
            push_str_chars(out, "\n");
            proof {
                reveal_strlit("\n");
                assert("\n"@ =~= nl_chars());
            }
            push_chars(out, indent);
            push_str_chars(out, "</folder>");
            proof {
                reveal_strlit("</folder>");
                assert("</folder>"@ =~= folder_close_chars());
                assert(out@ =~= old(out)@ + item_chars(item_view(*it), ind));
            }
        },
    }
}

/// Append every child of a folder whose own indentation run is `indent`:
/// a newline and the deeper indentation before each.
fn write_children(v: &Vec<XbelItem>, indent: &Vec<char>, out: &mut Vec<char>)
    requires
        indent@ == spaces(indent@.len() as nat),
    ensures
        final(out)@ == old(out)@ + children_chars(items_view(v@), indent@.len() as nat),
    decreases v@,
{
    let ghost ind = indent@.len() as nat;
    let mut inner: Vec<char> = Vec::new();
    push_chars(&mut inner, indent);
    inner.push(' ');
    inner.push(' ');
    proof {
        lemma_spaces_push(ind);
        lemma_spaces_push(ind + 1);
        assert(inner@ =~= spaces(ind + 2));
        assert(inner@.len() == ind + 2);
        lemma_items_view_index(v@);
    }
    let mut i: usize = 0;
    while i < v.len()
        invariant
            0 <= i <= v@.len(),
            items_view(v@).len() == v@.len(),
            forall|t: int|
                0 <= t < v@.len() ==> #[trigger] items_view(v@)[t] == item_view(v@[t]),
            inner@ == spaces(ind + 2),
            inner@.len() == ind + 2,
            ind == indent@.len(),
            out@ == old(out)@ + children_chars(items_view(v@).subrange(0, i as int), ind),
        decreases v@.len() - i,
    {
        let ghost pre = out@;
        out.push('\n');
        push_chars(out, &inner);
        proof {
            assert(decreases_to!(v@ => v@[i as int]));
            assert(inner@ == spaces(inner@.len() as nat));
        }
        write_item(&v[i], &inner, out);
        proof {
            let x = items_view(v@)[i as int];
            let a = items_view(v@).subrange(0, i as int);
            let b = items_view(v@).subrange(0, i + 1);
            assert(b =~= a.push(x));
            lemma_children_chars_snoc(a, x, ind);
            assert(out@ =~= pre + (nl_chars() + spaces(ind + 2) + item_chars(x, ind + 2)));
            assert(out@ =~= old(out)@ + children_chars(b, ind));
        }
        i = i + 1;
    }
    proof {
        assert(items_view(v@).subrange(0, v@.len() as int) =~= items_view(v@));
    }
}

/// A list of children extended on the right appends one separator and
/// item rendering.
proof fn lemma_children_chars_snoc(s: Seq<ItemView>, x: ItemView, ind: nat)
    ensures
        children_chars(s.push(x), ind) == children_chars(s, ind) + (nl_chars() + spaces(ind + 2)
            + item_chars(x, ind + 2)),
    decreases s.len(),
{
    if s.len() == 0 {
        let one = s.push(x);
        assert(one[0] == x);
        assert(one.drop_first() =~= Seq::<ItemView>::empty());
        assert(children_chars(one.drop_first(), ind) == Seq::<char>::empty());
        assert(children_chars(one, ind) =~= children_chars(s, ind) + (nl_chars() + spaces(ind + 2)
            + item_chars(x, ind + 2)));
    } else {
        assert(s.push(x)[0] == s[0]);
        assert(s.push(x).drop_first() =~= s.drop_first().push(x));
        lemma_children_chars_snoc(s.drop_first(), x, ind);
        assert(children_chars(s.push(x), ind) =~= children_chars(s, ind) + (nl_chars() + spaces(
            ind + 2,
        ) + item_chars(x, ind + 2)));
    }
}

/// The top-level rendering extended on the right appends a newline and
/// the item (the newline only between items).
proof fn lemma_top_chars_snoc(s: Seq<ItemView>, x: ItemView)
    ensures
        s.len() == 0 ==> top_chars(s.push(x)) == item_chars(x, 0),
        s.len() > 0 ==> top_chars(s.push(x)) == top_chars(s) + nl_chars() + item_chars(x, 0),
    decreases s.len(),
{
    if s.len() == 0 {
        let one = s.push(x);
        assert(one[0] == x);
        assert(one.len() == 1);
    } else {
        assert(s.push(x)[0] == s[0]);
        assert(s.push(x).drop_first() =~= s.drop_first().push(x));
        lemma_top_chars_snoc(s.drop_first(), x);
        if s.len() == 1 {
            assert(s.drop_first().len() == 0);
            assert(top_chars(s) == item_chars(s[0], 0));
            assert(top_chars(s.push(x)) =~= top_chars(s) + nl_chars() + item_chars(x, 0));
        } else {
            assert(top_chars(s.push(x)) =~= top_chars(s) + nl_chars() + item_chars(x, 0));
        }
    }
}

impl Xbel {
    /// The fixed XML prolog and DOCTYPE lines.
    pub fn xml_header(&self) -> (r: &'static str)
        ensures
            r@ == header_chars(),
    {
        let r = "<?xml version=\"1.0\" encoding=\"UTF-8\"?>\n<!DOCTYPE xbel PUBLIC \"+//IDN python.org//DTD XML Bookmark Exchange Language 1.0//EN//XML\" \"http://pyxml.sourceforge.net/topics/dtds/xbel.dtd\">";
        proof {
            reveal_strlit(
                "<?xml version=\"1.0\" encoding=\"UTF-8\"?>\n<!DOCTYPE xbel PUBLIC \"+//IDN python.org//DTD XML Bookmark Exchange Language 1.0//EN//XML\" \"http://pyxml.sourceforge.net/topics/dtds/xbel.dtd\">",
            );
            assert(r@ =~= header_chars());
        }
        r
    }

    /// Serialize the tree to the exact on-disk layout, recomputing the
    /// highest id for the leading comment.
    pub fn write_to_string(&self) -> (r: String)
        requires
            wf_items(xbel_view(*self).items),
        ensures
            r@ == doc_chars(xbel_view(*self).items),
    {
        let ghost v = items_view(self.items@);
        let mut out: Vec<char> = Vec::new();
        push_str_chars(&mut out, self.xml_header());
        push_str_chars(&mut out, "\n<xbel version=\"1.0\">\n");
        proof {
            reveal_strlit("\n<xbel version=\"1.0\">\n");
            assert("\n<xbel version=\"1.0\">\n"@ =~= nl_chars() + xbel_open_chars() + seq![
                '1', '.', '0',
            ] + attr_end_chars() + nl_chars());
        }
        push_str_chars(&mut out, "<!--- highestId :");
        proof {
            reveal_strlit("<!--- highestId :");
            assert("<!--- highestId :"@ =~= comment_open_chars());
        }
        let high = self.get_highest_id();
        let digits = crate::num::u64_to_dec(high);
        push_chars(&mut out, &digits);
        push_str_chars(&mut out, ": for Floccus bookmark sync browser extension -->\n\n");
        proof {
            reveal_strlit(": for Floccus bookmark sync browser extension -->\n\n");
            assert(": for Floccus bookmark sync browser extension -->\n\n"@ =~=
                comment_close_chars() + nl_chars() + nl_chars());
        }
        let ghost mid = out@;
        proof {
            assert(mid =~= header_chars() + nl_chars() + xbel_open_chars() + seq!['1', '.', '0']
                + attr_end_chars() + nl_chars() + comment_chars(items_high(v)) + nl_chars()
                + nl_chars());
        }
        let empty_indent: Vec<char> = Vec::new();
        proof {
            assert(empty_indent@ =~= spaces(0));
            lemma_items_view_index(self.items@);
        }
        let mut i: usize = 0;
        while i < self.items.len()
            invariant
                0 <= i <= self.items@.len(),
                items_view(self.items@).len() == self.items@.len(),
                forall|t: int|
                    0 <= t < self.items@.len() ==> #[trigger] items_view(self.items@)[t]
                        == item_view(self.items@[t]),
                empty_indent@ == spaces(0),
                empty_indent@.len() == 0,
                out@ == mid + top_chars(items_view(self.items@).subrange(0, i as int)),
            decreases self.items@.len() - i,
        {
            let ghost pre = out@;
            if i > 0 {
                out.push('\n');
            }
            write_item(&self.items[i], &empty_indent, &mut out);
            proof {
                let x = items_view(self.items@)[i as int];
                let a = items_view(self.items@).subrange(0, i as int);
                let b = items_view(self.items@).subrange(0, i + 1);
                assert(b =~= a.push(x));
                lemma_top_chars_snoc(a, x);
                if i == 0 {
                    assert(out@ =~= mid + top_chars(b));
                } else {
                    assert(out@ =~= mid + top_chars(b));
                }
            }
            i = i + 1;
        }
        push_str_chars(&mut out, "\n</xbel>");
        proof {
            reveal_strlit("\n</xbel>");
            assert("\n</xbel>"@ =~= nl_chars() + xbel_close_chars());
            assert(items_view(self.items@).subrange(0, self.items@.len() as int) =~= items_view(
                self.items@,
            ));
            assert(out@ =~= doc_chars(v));
        }
        string_from_chars(&out)
    }

    /// Serialize the tree; the recommended form for a file the sync
    /// extension reads.
    pub fn to_string(&self) -> (r: String)
        requires
            wf_items(xbel_view(*self).items),
        ensures
            r@ == doc_chars(xbel_view(*self).items),
    {
        self.write_to_string()
    }

    /// Wrap an already-serialized `<xbel ...>` body: put the fixed header,
    /// a fresh root open tag carrying this tree's version, and the
    /// highest-id comment in front of `buffer` with its own root open tag
    /// dropped.
    pub fn add_header(&self, buffer: &str) -> (r: String)
        requires
            wf_items(xbel_view(*self).items),
        ensures
            ({
                let tag_len = xbel_open_chars().len() + self.version@.len()
                    + attr_end_chars().len();
                let kept = if tag_len <= buffer@.len() {
                    buffer@.skip(tag_len as int)
                } else {
                    Seq::<char>::empty()
                };
                r@ == header_chars() + nl_chars() + xbel_open_chars() + self.version@
                    + attr_end_chars() + nl_chars() + comment_chars(
                    items_high(xbel_view(*self).items),
                ) + nl_chars() + kept
            }),
    {
        let mut out: Vec<char> = Vec::new();
        push_str_chars(&mut out, self.xml_header());
        push_str_chars(&mut out, "\n<xbel version=\"");
        proof {
            reveal_strlit("\n<xbel version=\"");
            assert("\n<xbel version=\""@ =~= nl_chars() + xbel_open_chars());
        }
        push_str_chars(&mut out, self.version.as_str());
        push_str_chars(&mut out, "\">\n");
        proof {
            reveal_strlit("\">\n");
            assert("\">\n"@ =~= attr_end_chars() + nl_chars());
        }
        push_str_chars(&mut out, "<!--- highestId :");
        proof {
            reveal_strlit("<!--- highestId :");
            assert("<!--- highestId :"@ =~= comment_open_chars());
        }
        let high = self.get_highest_id();
        let digits = crate::num::u64_to_dec(high);
        push_chars(&mut out, &digits);
        push_str_chars(&mut out, ": for Floccus bookmark sync browser extension -->\n");
        proof {
            reveal_strlit(": for Floccus bookmark sync browser extension -->\n");
            assert(": for Floccus bookmark sync browser extension -->\n"@ =~=
                comment_close_chars() + nl_chars());
        }
        let bc = crate::text::chars_of(buffer);
        let vl = self.version.as_str().unicode_len();
        let skip_n = vl.saturating_add(17);
        let mut i: usize = skip_n;
        proof {
            assert(xbel_open_chars().len() == 15);
            assert(attr_end_chars().len() == 2);
        }
        let ghost mid = out@;
        while i < bc.len()
            invariant
                skip_n <= i || i == skip_n,
                skip_n <= i,
                i <= bc@.len() || i == skip_n,
                out@ == mid + (if skip_n <= bc@.len() && i <= bc@.len() {
                    bc@.subrange(skip_n as int, i as int)
                } else {
                    Seq::<char>::empty()
                }),
            decreases bc@.len() - i,
        {
            out.push(bc[i]);
            proof {
                assert(bc@.subrange(skip_n as int, i as int).push(bc@[i as int]) =~= bc@.subrange(
                    skip_n as int,
                    i + 1,
                ));
            }
            i = i + 1;
        }
        proof {
            let tag_len = xbel_open_chars().len() + self.version@.len() + attr_end_chars().len();
            assert(tag_len == vl + 17);
            assert(mid =~= header_chars() + nl_chars() + xbel_open_chars() + self.version@
                + attr_end_chars() + nl_chars() + comment_chars(
                items_high(xbel_view(*self).items),
            ) + nl_chars());
            if vl + 17 <= usize::MAX {
                assert(skip_n == vl + 17);
                if skip_n <= bc.len() {
                    assert(out@ =~= mid + bc@.skip(skip_n as int));
                } else {
                    assert(out@ =~= mid);
                    assert(tag_len > bc@.len());
                }
            } else {
                assert(skip_n == usize::MAX);
                assert(bc@.len() <= usize::MAX);
                assert(tag_len > bc@.len());
                if skip_n <= bc.len() {
                    assert(bc@.skip(skip_n as int) =~= Seq::<char>::empty());
                    assert(out@ =~= mid + bc@.skip(skip_n as int));
                    assert(out@ =~= mid);
                } else {
                    assert(out@ =~= mid);
                }
            }
        }
        string_from_chars(&out)
    }
}

} // verus!
