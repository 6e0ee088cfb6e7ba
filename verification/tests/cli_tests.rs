//! Tests of the command-line layer logic: target parsing, the
//! configuration overlay, and the find rules.

use floccus_cli::cli_args::{
    Cli, Commands, FindArgs, FloccusCliConfig, Git, Placement, RemoveArgs, Under, override_cli_with,
    under_parser,
};
use floccus_cli::find::{find_items, pluralize};
use floccus_cli::xbel_format::{Bookmark, Folder, Xbel, XbelItem};

fn cli_for_rm(disable_push: Option<bool>) -> Cli {
    Cli {
        repository_folder: None,
        repository_url: None,
        repository_name: "bookmarks".to_string(),
        repository_token: None,
        repository_ssh_key: "/home/someone/.ssh/id_ed25519".to_string(),
        command: Commands::Rm(RemoveArgs {
            under: Under::Id(5, Placement::InFolderAppend),
            disable_push,
            dry_run: false,
        }),
    }
}

#[test]
fn test_cli_override() {
    // As if parsed from: rm -i 5 --disable-push
    let mut cli = cli_for_rm(Some(true));
    let config = FloccusCliConfig {
        git: Git {
            enable: true,
            repository_url: Some(
                "https://github_pat_MY_TOKEN@github.com/sydhds/floccus_test.git".to_string(),
            ),
            repository_name: Some("bookmarks".to_string()),
            repository_token: None,
            repository_ssh_key: None,
            disable_push: Some(false),
        },
    };
    override_cli_with(&mut cli, config, "/home/someone/.ssh/id_ed25519").unwrap();

    if let Commands::Rm(rm_args) = cli.command {
        // Note: disable-push is set to false in config and then override by command line
        assert_eq!(rm_args.disable_push, Some(true))
    } else {
        unreachable!()
    }
}

#[test]
fn override_fills_missing_fields() {
    let mut cli = cli_for_rm(None);
    let config = FloccusCliConfig {
        git: Git {
            enable: true,
            repository_url: Some("https://github.com/someone/marks.git".to_string()),
            repository_name: Some("other".to_string()),
            repository_token: Some("tok".to_string()),
            repository_ssh_key: Some("/tmp/key".to_string()),
            disable_push: Some(false),
        },
    };
    override_cli_with(&mut cli, config, "/home/someone/.ssh/id_ed25519").unwrap();
    assert_eq!(cli.repository_token, Some("tok".to_string()));
    assert_eq!(cli.repository_ssh_key, "/tmp/key");
    // The token was spliced into the URL as its username.
    assert_eq!(
        cli.repository_url,
        Some("https://tok@github.com/someone/marks.git".to_string())
    );
    assert_eq!(cli.repository_name, "other");
    if let Commands::Rm(rm_args) = cli.command {
        assert_eq!(rm_args.disable_push, Some(false));
    } else {
        unreachable!()
    }
}

#[test]
fn override_disabled_config_changes_nothing() {
    let mut cli = cli_for_rm(None);
    let before = cli.clone();
    let config = FloccusCliConfig {
        git: Git {
            enable: false,
            repository_url: Some("https://github.com/x/y.git".to_string()),
            repository_name: Some("other".to_string()),
            repository_token: Some("tok".to_string()),
            repository_ssh_key: Some("/tmp/key".to_string()),
            disable_push: Some(false),
        },
    };
    override_cli_with(&mut cli, config, "/home/someone/.ssh/id_ed25519").unwrap();
    assert_eq!(cli, before);
}

#[test]
fn under_parsing() {
    assert_eq!(under_parser("root").unwrap(), Under::Root);
    assert_eq!(under_parser("7").unwrap(), Under::Id(7, Placement::InFolderAppend));
    assert_eq!(under_parser("before=3").unwrap(), Under::Id(3, Placement::Before));
    assert_eq!(under_parser("after=3").unwrap(), Under::Id(3, Placement::After));
    assert_eq!(
        under_parser("append=2").unwrap(),
        Under::Id(2, Placement::InFolderAppend)
    );
    assert_eq!(
        under_parser("prepend=2").unwrap(),
        Under::Id(2, Placement::InFolderPrepend)
    );
    assert_eq!(
        under_parser("admin/bank").unwrap(),
        Under::Folder("admin/bank".to_string())
    );
    assert_eq!(
        under_parser("before=bank").unwrap(),
        Under::Folder("before=bank".to_string())
    );
    assert_eq!(
        under_parser("99999999999999999999999").unwrap(),
        Under::Folder("99999999999999999999999".to_string())
    );
}

#[test]
fn find_rules() {
    let b1 = XbelItem::Bookmark(Bookmark::new("2", "https://news.example", "daily news"));
    let b2 = XbelItem::Bookmark(Bookmark::new("3", "https://mail.example", "mailbox"));
    let f = XbelItem::Folder(Folder::new("1", "news folder", Some(vec![b1, b2])));
    let xbel = Xbel::new(Some(vec![f]));

    let all_news = FindArgs {
        title: false,
        url: false,
        folder: false,
        bookmark: false,
        find: "news".to_string(),
    };
    let found = find_items(&xbel, &all_news);
    assert_eq!(found.len(), 2);
    assert_eq!(found[0].get_id(), "1");
    assert_eq!(found[1].get_id(), "2");

    let bookmarks_only = FindArgs { bookmark: true, ..all_news.clone() };
    let found = find_items(&xbel, &bookmarks_only);
    assert_eq!(found.len(), 1);
    assert_eq!(found[0].get_id(), "2");

    let titles_only = FindArgs { title: true, ..all_news.clone() };
    let found = find_items(&xbel, &titles_only);
    assert_eq!(found.len(), 2);

    let urls_only = FindArgs { url: true, ..all_news };
    let found = find_items(&xbel, &urls_only);
    assert_eq!(found.len(), 1);
    assert_eq!(found[0].get_id(), "2");
}

#[test]
fn pluralize_counts() {
    assert_eq!(pluralize("folder", 0), "folder");
    assert_eq!(pluralize("folder", 1), "folder");
    assert_eq!(pluralize("folder", 2), "folders");
    assert_eq!(pluralize("bookmark", 5), "bookmarks");
}
