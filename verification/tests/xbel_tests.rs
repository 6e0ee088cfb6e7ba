//! Tests of the document model: parsing, traversal, resolution, mutation,
//! and serialization.

use floccus_cli::mutate::XbelError;
use floccus_cli::resolve::XbelPath;
use floccus_cli::xbel_format::{Bookmark, Folder, Xbel, XbelItem};
use floccus_cli::traverse::{XbelItemOrEnd, XbelIterator, XbelNestingIterator};

const XBEL_EMPTY: &str = r#"
            <?xml version="1.0" encoding="UTF-8"?>
            <!DOCTYPE xbel PUBLIC "+//IDN python.org//DTD XML Bookmark Exchange Language 1.0//EN//XML" "http://pyxml.sourceforge.net/topics/dtds/xbel.dtd">
            <xbel version="1.0">
            <!--- highestId :0: for Floccus bookmark sync browser extension -->
            </xbel>
        "#;
const XBEL_BANK: &str = r#"
            <?xml version="1.0" encoding="UTF-8"?>
            <!DOCTYPE xbel PUBLIC "+//IDN python.org//DTD XML Bookmark Exchange Language 1.0//EN//XML" "http://pyxml.sourceforge.net/topics/dtds/xbel.dtd">
            <xbel version="1.0">
            <!--- highestId :5: for Floccus bookmark sync browser extension -->

            <folder id="1">
                <title>admin</title>
                <folder id="2">
                    <title>bank</title>
                    <bookmark href="https://www.bank1.com/" id="3">
                        <title>Bank 1 - Best bank in the world</title>
                    </bookmark>
                    <bookmark href="https://www.bank2.com" id="4">
                        <title>Bank 2 because 2 > 1 !#€</title>
                    </bookmark>
                </folder>
                <bookmark href="https://www.bank3.com" id="5">
                    <title>My current bank U+1F929 </title>
                </bookmark>
            </folder>
            </xbel>
        "#;

/// Walk down to the sibling list a location names.
fn list_at_mut<'a>(items: &'a mut Vec<XbelItem>, loc: &[usize]) -> &'a mut Vec<XbelItem> {
    let mut cur = items;
    for &i in loc {
        cur = match &mut cur[i] {
            XbelItem::Folder(f) => &mut f.items,
            XbelItem::Bookmark(_) => panic!("location does not name a folder"),
        };
    }
    cur
}

#[test]
fn read_xbel_empty() {
    // Try to read an empty xbel file
    let xbel: Xbel = Xbel::try_from_str(XBEL_EMPTY).unwrap();
    println!("xbel: {:?}", xbel);
    assert_eq!(xbel.items.len(), 0);
}

#[test]
fn read_xbel_1() {
    // Try to read a valid xbel file
    let xbel: Xbel = Xbel::try_from_str(XBEL_BANK).unwrap();
    println!("xbel: {:?}", xbel);

    assert_eq!(xbel.items.len(), 1);
    assert!(matches!(xbel.items[0], XbelItem::Folder(..)));
    assert_eq!(xbel.items[0].get_title().text.as_str(), "admin");
    assert_eq!(xbel.items[0].get_id().as_str(), "1");

    // Check the first child is the folder with id 2 (holding bookmarks 3
    // and 4), followed by the bookmark with id 5 directly under folder 1.
    {
        if let XbelItem::Folder(f1) = &xbel.items[0] {
            if let XbelItem::Folder(f2) = &f1.items[0] {
                assert_eq!(f2.id, "2");
                assert_eq!(f2.items.len(), 2);
                if let XbelItem::Bookmark(b4) = &f2.items[1] {
                    assert_eq!(b4.id, "4");
                } else {
                    panic!("Expected a bookmark (with id 4)")
                }
            } else {
                panic!("Expected a folder (with id 2)");
            }

            if let XbelItem::Bookmark(b5) = &f1.items[1] {
                assert_eq!(b5.id, "5");
            } else {
                panic!("Expected a bookmark (with id 5)")
            }
        } else {
            panic!("Expected a folder (with id 2)");
        }
    }
}

#[test]
fn xbel_iter() {
    // Try to read a valid xbel file and to iterate over content
    let xbel: Xbel = Xbel::try_from_str(XBEL_BANK).unwrap();
    let mut xbel_it = XbelIterator::new(&xbel);

    let i = xbel_it.next().unwrap();
    assert_eq!(i.get_id(), "1");
    if let XbelItem::Folder(f1) = &i {
        assert_eq!(f1.title.text, "admin".to_string())
    } else {
        panic!("Expecting a folder");
    }
    let i = xbel_it.next().unwrap();
    assert_eq!(i.get_id(), "2");
    if let XbelItem::Folder(f2) = &i {
        assert_eq!(f2.title.text, "bank".to_string())
    } else {
        panic!("Expecting a folder");
    }
    let i = xbel_it.next().unwrap();
    assert_eq!(i.get_id(), "3");
    if let XbelItem::Bookmark(b3) = &i {
        assert_eq!(b3.href, "https://www.bank1.com/".to_string())
    } else {
        panic!("Expecting a folder");
    }
    let i = xbel_it.next().unwrap();
    assert_eq!(i.get_id(), "4");
    let i = xbel_it.next().unwrap();
    assert_eq!(i.get_id(), "5");
    assert_eq!(xbel_it.next().is_none(), true);

    let mut xbel_it2 = XbelIterator::new(&xbel);
    let mut bookmarks_only: Vec<&Bookmark> = Vec::new();
    while let Some(item) = xbel_it2.next() {
        if let XbelItem::Bookmark(b1) = item {
            bookmarks_only.push(b1);
        }
    }

    assert_eq!(bookmarks_only.len(), 3);
}

#[test]
fn xbel_nesting_iter() {
    // Try to read a valid xbel file and to iterate over content
    let xbel: Xbel = Xbel::try_from_str(XBEL_BANK).unwrap();
    let mut xbel_it = XbelNestingIterator::new(&xbel);

    let i = xbel_it.next().unwrap();
    if let XbelItemOrEnd::Item(XbelItem::Folder(f1)) = &i {
        assert_eq!(f1.id, "1");
        assert_eq!(f1.title.text, "admin".to_string())
    } else {
        panic!("Expecting a folder");
    }
    let i = xbel_it.next().unwrap();
    if let XbelItemOrEnd::Item(XbelItem::Folder(f2)) = &i {
        assert_eq!(f2.id, "2");
        assert_eq!(f2.title.text, "bank".to_string())
    } else {
        panic!("Expecting a folder");
    }
    // bookmark id 3
    let _i = xbel_it.next().unwrap();
    // bookmark id 4
    let _i = xbel_it.next().unwrap();
    let i = xbel_it.next().unwrap();
    if let XbelItemOrEnd::End(folder_id) = &i {
        assert_eq!(folder_id, "2");
    } else {
        panic!("Expecting a end folder marker");
    }
    // bookmark id 5
    let _i = xbel_it.next().unwrap();
    let i = xbel_it.next().unwrap();
    if let XbelItemOrEnd::End(folder_id) = &i {
        assert_eq!(folder_id, "1");
    } else {
        panic!("Expecting a end folder marker");
    }
}

#[test]
fn xbel_highest_id() {
    // Try to read a valid xbel file and to iterate over content
    let xbel: Xbel = Xbel::try_from_str(XBEL_BANK).unwrap();
    assert_eq!(xbel.get_highest_id(), 5);
}

#[test]
fn add_xbel_empty() {
    // Add bookmark to empty Xbel
    let mut xbel: Xbel = Xbel::try_from_str(XBEL_EMPTY).unwrap();
    println!("xbel: {:?}", xbel);
    assert_eq!(xbel.get_highest_id(), 0);
    let bookmark_id = (xbel.get_highest_id() + 1).to_string();
    let items_0 = xbel.get_items_mut(&XbelPath::Id(1));
    assert!(items_0.is_none());
    let (_index, loc) = xbel.get_items_mut(&XbelPath::Root).unwrap();
    let items = list_at_mut(&mut xbel.items, &loc);
    println!("items: {:?}", items);
    let bookmark = Bookmark::new(
        bookmark_id.as_str(),
        "https://www.example_bank.com",
        "Example bank",
    );
    items.push(XbelItem::Bookmark(bookmark));
    println!("xbel: {:?}", xbel);
}

#[test]
fn add_xbel_1() {
    let mut xbel: Xbel = Xbel::try_from_str(XBEL_BANK).unwrap();
    println!("xbel: {:?}", xbel);
    let bookmark_id = (xbel.get_highest_id() + 1).to_string();
    let (_item_index, loc) = xbel.get_items_mut(&XbelPath::Id(4)).unwrap();
    let items = list_at_mut(&mut xbel.items, &loc);
    println!("items: {:?}", items);
    let bookmark = Bookmark::new(
        bookmark_id.as_str(),
        "https://www.example_bank.com",
        "Example bank",
    );
    items.push(XbelItem::Bookmark(bookmark));
    println!("xbel: {:?}", xbel);
    assert_eq!(xbel.get_highest_id(), 6);
}

#[test]
fn write_xbel() {
    let bookmark_b1 = XbelItem::Bookmark(Bookmark::new(
        "3",
        "https://www.bank1.com/",
        "Bank 1 - Best bank in the world",
    ));
    let bookmark_b2 = XbelItem::Bookmark(Bookmark::new(
        "4",
        "https://www.bank2.com/",
        "Bank 2 because 2 gt 1 !#€",
    ));
    let folder_i2 = XbelItem::Folder(Folder::new(
        "2",
        "bank",
        Some(vec![bookmark_b1, bookmark_b2]),
    ));
    let folder_i1 = XbelItem::Folder(Folder::new("1", "admin", Some(vec![folder_i2])));

    let xbel = Xbel::new(Some(vec![folder_i1]));

    let buffer = xbel.write_to_string();
    let mut expected = String::new();
    expected.push_str("<?xml version=\"1.0\" encoding=\"UTF-8\"?>\n");
    expected.push_str("<!DOCTYPE xbel PUBLIC \"+//IDN python.org//DTD XML Bookmark Exchange Language 1.0//EN//XML\" \"http://pyxml.sourceforge.net/topics/dtds/xbel.dtd\">\n");
    expected.push_str("<xbel version=\"1.0\">\n");
    expected.push_str("<!--- highestId :4: for Floccus bookmark sync browser extension -->\n");
    expected.push_str("\n");
    expected.push_str("<folder id=\"1\">\n");
    expected.push_str("  <title>admin</title>\n");
    expected.push_str("  <folder id=\"2\">\n");
    expected.push_str("    <title>bank</title>\n");
    expected.push_str("    <bookmark href=\"https://www.bank1.com/\" id=\"3\">\n");
    expected.push_str("      <title>Bank 1 - Best bank in the world</title>\n");
    expected.push_str("    </bookmark>\n");
    expected.push_str("    <bookmark href=\"https://www.bank2.com/\" id=\"4\">\n");
    expected.push_str("      <title>Bank 2 because 2 gt 1 !#€</title>\n");
    expected.push_str("    </bookmark>\n");
    expected.push_str("  </folder>\n");
    expected.push_str("</folder>\n");
    expected.push_str("</xbel>");
    assert_eq!(buffer, expected);
}

#[test]
fn write_xbel_ser() {
    let url_e = "www.ecosia.org";
    let bookmark_e = XbelItem::Bookmark(Bookmark::new("1", url_e, "My main search engine"));
    let url_g = "www.google.com";
    let title_g = "A good search engine";
    let bookmark_g = XbelItem::Bookmark(Bookmark::new("4", url_g, title_g));
    let url_b = "www.bing.com";
    let bookmark_b = XbelItem::Bookmark(Bookmark::new("5", url_b, "Another good search engine"));

    let folder_a = XbelItem::Folder(Folder::new(
        "2",
        "Search engines",
        Some(vec![bookmark_g, bookmark_b]),
    ));

    let xbel = Xbel::new(Some(vec![bookmark_e, folder_a]));

    // A serialized body beginning with the root open tag, as a generic
    // serializer would emit it.
    let full = xbel.write_to_string();
    let body_start = full.find("<xbel").unwrap();
    let buffer_ = &full[body_start..];
    // Add xml header + the xml highest id (as a xml comment)
    let buffer = xbel.add_header(buffer_);

    println!("buffer:");
    println!("{}", buffer);

    assert!(buffer.starts_with(xbel.xml_header()));
    assert!(buffer.find(url_e).is_some());
    assert!(buffer.find(url_g).is_some());
    assert!(buffer.find(title_g).is_some());
    assert!(buffer.find(url_b).is_some());
}

#[test]
fn round_trip_parse_serialize() {
    // Titles and addresses exercising every escaped character.
    let b1 = XbelItem::Bookmark(Bookmark::new(
        "2",
        "https://ex.org/?a=1&b=<2>",
        "quotes \" and 'apostrophes' & angles <>",
    ));
    let folder = XbelItem::Folder(Folder::new("1", "a & b", Some(vec![b1])));
    let b2 = XbelItem::Bookmark(Bookmark::new("3", "https://plain.example", "plain"));
    let xbel = Xbel::new(Some(vec![folder, b2]));

    let text = xbel.write_to_string();
    let back = Xbel::try_from_str(text.as_str()).unwrap();
    assert_eq!(back, xbel);
}

#[test]
fn round_trip_empty_tree() {
    let xbel = Xbel::new(None);
    let text = xbel.write_to_string();
    let back = Xbel::try_from_str(text.as_str()).unwrap();
    assert_eq!(back, xbel);
    assert_eq!(back.items.len(), 0);
}

#[test]
fn parse_malformed_id() {
    let text = r#"<xbel version="1.0"><folder id="x"><title>t</title></folder></xbel>"#;
    match Xbel::try_from_str(text) {
        Err(XbelError::MalformedId(s)) => assert_eq!(s, "x"),
        other => panic!("expected a malformed id, got {:?}", other),
    }
}

#[test]
fn parse_format_failure() {
    assert_eq!(
        Xbel::try_from_str("this is not xbel"),
        Err(XbelError::FormatFailure)
    );
    assert_eq!(
        Xbel::try_from_str("<xbel version=\"1.0\"><folder id=\"1\"></xbel>"),
        Err(XbelError::FormatFailure)
    );
}

#[test]
fn highest_id_by_both_traversals() {
    // The two traversal protocols see the same highest id.
    let xbel: Xbel = Xbel::try_from_str(XBEL_BANK).unwrap();
    let mut flat_high: u64 = 0;
    let mut it = XbelIterator::new(&xbel);
    while let Some(i) = it.next() {
        let v: u64 = i.get_id().parse().unwrap();
        if v > flat_high {
            flat_high = v;
        }
    }
    let mut nest_high: u64 = 0;
    let mut nit = XbelNestingIterator::new(&xbel);
    while let Some(e) = nit.next() {
        if let XbelItemOrEnd::Item(i) = e {
            let v: u64 = i.get_id().parse().unwrap();
            if v > nest_high {
                nest_high = v;
            }
        }
    }
    assert_eq!(flat_high, nest_high);
    assert_eq!(flat_high, xbel.get_highest_id());
}
