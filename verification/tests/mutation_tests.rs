//! Tests of the mutation rules: the documented id-minting collision,
//! placements, removal, and the dry run.

use floccus_cli::cli_args::{Placement, Under};
use floccus_cli::mutate::XbelError;
use floccus_cli::resolve::XbelPath;
use floccus_cli::xbel_format::{Bookmark, Folder, Xbel, XbelItem};
use floccus_cli::traverse::{XbelItemOrEnd, XbelIterator, XbelNestingIterator};

/// The bank-style tree: folder 1 (admin) holds folder 2 (bank) with
/// bookmarks 3 and 4, and bookmark 5 directly under folder 1.
fn bank_tree() -> Xbel {
    let b3 = XbelItem::Bookmark(Bookmark::new("3", "https://www.bank1.com/", "Bank 1"));
    let b4 = XbelItem::Bookmark(Bookmark::new("4", "https://www.bank2.com", "Bank 2"));
    let f2 = XbelItem::Folder(Folder::new("2", "bank", Some(vec![b3, b4])));
    let b5 = XbelItem::Bookmark(Bookmark::new("5", "https://www.bank3.com", "Bank 3"));
    let f1 = XbelItem::Folder(Folder::new("1", "admin", Some(vec![f2, b5])));
    Xbel::new(Some(vec![f1]))
}

fn flat_ids(xbel: &Xbel) -> Vec<String> {
    let mut ids = Vec::new();
    let mut it = XbelIterator::new(xbel);
    while let Some(i) = it.next() {
        ids.push(i.get_id().clone());
    }
    ids
}

#[test]
fn add_under_root_mints_one() {
    // Scenario: an empty tree, one add under root, gives one bookmark id 1.
    let mut xbel = Xbel::new(None);
    xbel.add_bookmark(&Under::Root, "https://a.example", "a")
        .unwrap();
    assert_eq!(xbel.items.len(), 1);
    assert_eq!(xbel.items[0].get_id(), "1");

    // Two bookmarks minted against the same loaded snapshot carry the
    // same id: the documented collision, asserted, not corrected.
    let snapshot = Xbel::new(None);
    let first = snapshot.new_bookmark("https://a.example", "a");
    let second = snapshot.new_bookmark("https://b.example", "b");
    assert_eq!(first.get_id(), "1");
    assert_eq!(second.get_id(), "1");
}

#[test]
fn flat_and_nesting_orders() {
    // Scenario: flat order 1,2,3,4,5; nesting order with end markers.
    let xbel = bank_tree();
    assert_eq!(flat_ids(&xbel), vec!["1", "2", "3", "4", "5"]);

    let mut nit = XbelNestingIterator::new(&xbel);
    let mut shape = Vec::new();
    while let Some(e) = nit.next() {
        match e {
            XbelItemOrEnd::Item(i) => shape.push(format!("Item({})", i.get_id())),
            XbelItemOrEnd::End(id) => shape.push(format!("End({})", id)),
        }
    }
    assert_eq!(
        shape,
        vec![
            "Item(1)", "Item(2)", "Item(3)", "Item(4)", "End(2)", "Item(5)", "End(1)",
        ]
    );
}

#[test]
fn remove_by_title_path() {
    // Scenario: removing under path admin/bank deletes the bank folder
    // with its bookmarks.
    let mut xbel = bank_tree();
    let removed = xbel
        .remove(&XbelPath::Path("admin/bank".to_string()), false)
        .unwrap();
    assert_eq!(removed.get_id(), "2");
    assert_eq!(flat_ids(&xbel), vec!["1", "5"]);
}

#[test]
fn add_before_and_append_placements() {
    // Scenario: before=3 inserts right before bookmark 3 among its
    // siblings; append=2 lands at the end of folder 2's children.
    let mut xbel = bank_tree();
    xbel.add_bookmark(
        &Under::Id(3, Placement::Before),
        "https://n.example",
        "newcomer",
    )
    .unwrap();
    assert_eq!(flat_ids(&xbel), vec!["1", "2", "6", "3", "4", "5"]);

    let mut xbel2 = bank_tree();
    xbel2
        .add_bookmark(
            &Under::Id(2, Placement::InFolderAppend),
            "https://n.example",
            "newcomer",
        )
        .unwrap();
    assert_eq!(flat_ids(&xbel2), vec!["1", "2", "3", "4", "6", "5"]);

    // append onto a bookmark is refused: a bookmark has no children.
    let mut xbel3 = bank_tree();
    let r = xbel3.add_bookmark(
        &Under::Id(3, Placement::InFolderAppend),
        "https://n.example",
        "newcomer",
    );
    assert_eq!(r, Err(XbelError::NotAFolder("3".to_string())));
    assert_eq!(flat_ids(&xbel3), vec!["1", "2", "3", "4", "5"]);
}

#[test]
fn add_after_placement() {
    let mut xbel = bank_tree();
    xbel.add_bookmark(
        &Under::Id(3, Placement::After),
        "https://n.example",
        "newcomer",
    )
    .unwrap();
    assert_eq!(flat_ids(&xbel), vec!["1", "2", "3", "6", "4", "5"]);
}

#[test]
fn add_prepend_placement() {
    let mut xbel = bank_tree();
    xbel.add_bookmark(
        &Under::Id(2, Placement::InFolderPrepend),
        "https://n.example",
        "newcomer",
    )
    .unwrap();
    assert_eq!(flat_ids(&xbel), vec!["1", "2", "6", "3", "4", "5"]);
}

#[test]
fn add_under_missing_id() {
    let mut xbel = bank_tree();
    let r = xbel.add_bookmark(
        &Under::Id(99, Placement::Before),
        "https://n.example",
        "newcomer",
    );
    assert_eq!(r, Err(XbelError::AddressNotFound(XbelPath::Id(99))));
    assert_eq!(flat_ids(&xbel), vec!["1", "2", "3", "4", "5"]);
}

#[test]
fn add_under_folder_path() {
    let mut xbel = bank_tree();
    xbel.add_bookmark(
        &Under::Folder("admin/bank".to_string()),
        "https://n.example",
        "newcomer",
    )
    .unwrap();
    assert_eq!(flat_ids(&xbel), vec!["1", "2", "3", "4", "6", "5"]);

    let mut xbel2 = bank_tree();
    let r = xbel2.add_bookmark(
        &Under::Folder("nowhere".to_string()),
        "https://n.example",
        "newcomer",
    );
    assert!(matches!(r, Err(XbelError::AddressNotFound(_))));
}

#[test]
fn remove_dry_run_is_a_no_op() {
    // Dry-run remove changes neither item count nor highest id.
    let mut xbel = bank_tree();
    let count_before = flat_ids(&xbel).len();
    let high_before = xbel.get_highest_id();
    let would_go = xbel.remove(&XbelPath::Id(2), true).unwrap();
    assert_eq!(would_go.get_id(), "2");
    assert_eq!(flat_ids(&xbel).len(), count_before);
    assert_eq!(xbel.get_highest_id(), high_before);
    assert_eq!(xbel, bank_tree());
}

#[test]
fn remove_root_is_refused() {
    let mut xbel = bank_tree();
    assert_eq!(xbel.remove(&XbelPath::Root, false), Err(XbelError::RootRemoval));
}

#[test]
fn remove_missing_address() {
    let mut xbel = bank_tree();
    let r = xbel.remove(&XbelPath::Id(42), false);
    assert!(matches!(r, Err(XbelError::AddressNotFound(_))));
    assert_eq!(xbel, bank_tree());
}

#[test]
fn resolution_finds_first_match_level_by_level() {
    let xbel = bank_tree();
    // Id 5 sits in folder 1's children, at index 1.
    let (index, loc) = xbel.get_items_mut(&XbelPath::Id(5)).unwrap();
    assert_eq!(index, 1);
    assert_eq!(loc, vec![0]);
    // The path admin/bank ends at folder 1's child index 0.
    let (index, loc) = xbel
        .get_items_mut(&XbelPath::Path("admin/bank".to_string()))
        .unwrap();
    assert_eq!(index, 0);
    assert_eq!(loc, vec![0]);
    // Root resolves to the top-level list.
    let (index, loc) = xbel.get_items_mut(&XbelPath::Root).unwrap();
    assert_eq!(index, 0);
    assert!(loc.is_empty());
}

#[test]
fn new_bookmark_mints_highest_plus_one() {
    let xbel = bank_tree();
    let b = xbel.new_bookmark("https://n.example", "n");
    assert_eq!(b.get_id(), "6");
    match &b {
        XbelItem::Bookmark(bm) => {
            assert_eq!(bm.href, "https://n.example");
            assert_eq!(bm.title.text, "n");
        }
        XbelItem::Folder(_) => panic!("expected a bookmark"),
    }
}
