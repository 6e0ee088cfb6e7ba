//! Command-line argument types and the address argument syntax.
//!
//! The `--under` / `--item` argument accepts `"root"`, an integer with an
//! optional placement prefix (`before=`, `after=`, `append=`, `prepend=`),
//! or any other string as a `/`-separated title path. An unprefixed
//! integer means append-inside-folder.

use vstd::prelude::*;

use crate::num::{dec_val, parse_u64, parses_as_u64};
use crate::text::chars_of;

verus! {

/// Where a new item lands relative to an id-addressed item.
#[derive(Debug, Clone, PartialEq, Eq, Structural)]
pub enum Placement {
    Before,
    After,
    InFolderPrepend,
    InFolderAppend,
}

/// A target parsed from the command line: the root list, an id with a
/// placement, or a folder title path.
#[derive(Debug, Clone, PartialEq)]
pub enum Under {
    Root,
    Id(u64, Placement),
    Folder(String),
}

/// Mathematical model of a target.
pub enum UnderView {
    Root,
    Id { id: u64, placement: Placement },
    Folder { path: Seq<char> },
}

/// The model of an exec target.
pub open spec fn under_view(u: Under) -> UnderView {
    match u {
        Under::Root => UnderView::Root,
        Under::Id(id, placement) => UnderView::Id { id, placement },
        Under::Folder(s) => UnderView::Folder { path: s@ },
    }
}

/// The character sequence `root`.
pub open spec fn root_chars() -> Seq<char> {
    seq!['r', 'o', 'o', 't']
}

/// The placement prefixes.
pub open spec fn after_prefix() -> Seq<char> {
    seq!['a', 'f', 't', 'e', 'r', '=']
}

pub open spec fn before_prefix() -> Seq<char> {
    seq!['b', 'e', 'f', 'o', 'r', 'e', '=']
}

pub open spec fn append_prefix() -> Seq<char> {
    seq!['a', 'p', 'p', 'e', 'n', 'd', '=']
}

pub open spec fn prepend_prefix() -> Seq<char> {
    seq!['p', 'r', 'e', 'p', 'e', 'n', 'd', '=']
}

/// Does `s` start with `p`?
pub open spec fn has_prefix(s: Seq<char>, p: Seq<char>) -> bool {
    p.len() <= s.len() && s.subrange(0, p.len() as int) == p
}

/// What the target syntax means: `root` is the root; a placement prefix
/// followed by digits, or bare digits (placement append-inside-folder),
/// is an id; everything else is a title path.
pub open spec fn parse_under(s: Seq<char>) -> UnderView {
    if s == root_chars() {
        UnderView::Root
    } else {
        let rem = strip_placement(s).0;
        let placement = strip_placement(s).1;
        if parses_as_u64(rem) {
            UnderView::Id { id: dec_val(rem) as u64, placement }
        } else {
            UnderView::Folder { path: s }
        }
    }
}

/// The remainder and placement after stripping the first matching
/// placement prefix, tried in the order after, before, append, prepend.
pub open spec fn strip_placement(s: Seq<char>) -> (Seq<char>, Placement) {
    if has_prefix(s, after_prefix()) {
        (s.skip(after_prefix().len() as int), Placement::After)
    } else if has_prefix(s, before_prefix()) {
        (s.skip(before_prefix().len() as int), Placement::Before)
    } else if has_prefix(s, append_prefix()) {
        (s.skip(append_prefix().len() as int), Placement::InFolderAppend)
    } else if has_prefix(s, prepend_prefix()) {
        (s.skip(prepend_prefix().len() as int), Placement::InFolderPrepend)
    } else {
        (s, Placement::InFolderAppend)
    }
}

/// Does `s` start with the characters of `p`?
fn has_prefix_exec(s: &Vec<char>, p: &Vec<char>) -> (r: bool)
    ensures
        r == has_prefix(s@, p@),
{
    if p.len() > s.len() {
        return false;
    }
    let mut i: usize = 0;
    while i < p.len()
        invariant
            p@.len() <= s@.len(),
            0 <= i <= p@.len(),
            forall|j: int| 0 <= j < i ==> s@[j] == p@[j],
        decreases p@.len() - i,
    {
        if s[i] != p[i] {
            proof {
                if has_prefix(s@, p@) {
                    assert(s@.subrange(0, p@.len() as int)[i as int] == s@[i as int]);
                }
            }
            return false;
        }
        i = i + 1;
    }
    proof {
        assert(s@.subrange(0, p@.len() as int) =~= p@);
    }
    true
}

impl Under {
    /// Parse a target argument. Never fails: a string that is neither
    /// `root` nor an id becomes a title path.
    pub fn from_str(s: &str) -> (r: Result<Under, ()>)
        ensures
            r matches Ok(u) && under_view(u) == parse_under(s@),
    {
        let cs = chars_of(s);
        let root_p = chars_of("root");
        let after_p = chars_of("after=");
        let before_p = chars_of("before=");
        let append_p = chars_of("append=");
        let prepend_p = chars_of("prepend=");
        proof {
            reveal_strlit("root");
            reveal_strlit("after=");
            reveal_strlit("before=");
            reveal_strlit("append=");
            reveal_strlit("prepend=");
            assert(root_p@ =~= root_chars());
            assert(after_p@ =~= after_prefix());
            assert(before_p@ =~= before_prefix());
            assert(append_p@ =~= append_prefix());
            assert(prepend_p@ =~= prepend_prefix());
        }
        if cs.len() == root_p.len() && has_prefix_exec(&cs, &root_p) {
            proof {
                assert(cs@.subrange(0, 4) =~= cs@);
            }
            return Ok(Under::Root);
        }
        proof {
            if cs@ == root_chars() {
                assert(cs@.subrange(0, 4) =~= cs@);
                assert(has_prefix(cs@, root_p@));
            }
        }
        let (start, placement) = if has_prefix_exec(&cs, &after_p) {
            (after_p.len(), Placement::After)
        } else if has_prefix_exec(&cs, &before_p) {
            (before_p.len(), Placement::Before)
        } else if has_prefix_exec(&cs, &append_p) {
            (append_p.len(), Placement::InFolderAppend)
        } else if has_prefix_exec(&cs, &prepend_p) {
            (prepend_p.len(), Placement::InFolderPrepend)
        } else {
            (0, Placement::InFolderAppend)
        };
        let mut rem: Vec<char> = Vec::new();
        let mut i: usize = start;
        proof {
            assert(strip_placement(cs@).0 =~= cs@.skip(start as int));
            assert(strip_placement(cs@).1 == placement);
        }
        while i < cs.len()
            invariant
                start <= i <= cs@.len() || (start > cs@.len() && i == start),
                start <= i,
                rem@ =~= cs@.subrange(start as int, i as int) || (start > cs@.len() && rem@
                    == Seq::<char>::empty()),
            decreases cs@.len() - i,
        {
            rem.push(cs[i]);
            proof {
                assert(rem@ =~= cs@.subrange(start as int, i + 1));
            }
            i = i + 1;
        }
        proof {
            assert(start <= cs@.len());
            assert(rem@ =~= cs@.skip(start as int));
        }
        match parse_u64(&rem) {
            Some(id) => Ok(Under::Id(id, placement)),
            None => Ok(Under::Folder(s.to_owned())),
        }
    }
}

/// Parse a target argument for the command-line layer.
pub fn under_parser(s: &str) -> (r: Result<Under, &'static str>)
    ensures
        r matches Ok(u) && under_view(u) == parse_under(s@),
{
    match Under::from_str(s) {
        Ok(u) => Ok(u),
        Err(_) => Err("cannot parse under argument"),
    }
}

/// The command-line settings, after parsing and config overlay. URLs and
/// paths are carried as plain strings; the calling layer converts.
#[derive(Debug, Clone, PartialEq)]
pub struct Cli {
    pub repository_folder: Option<String>,
    pub repository_url: Option<String>,
    pub repository_name: String,
    pub repository_token: Option<String>,
    pub repository_ssh_key: String,
    pub command: Commands,
}

/// The subcommands.
#[derive(Debug, Clone, PartialEq)]
pub enum Commands {
    Init(InitArgs),
    Print(PrintArgs),
    Add(AddArgs),
    Rm(RemoveArgs),
    Find(FindArgs),
}

#[derive(Debug, Clone, PartialEq)]
pub struct InitArgs {}

#[derive(Debug, Clone, PartialEq)]
pub struct PrintArgs {}

/// Arguments of the add command.
#[derive(Debug, Clone, PartialEq)]
pub struct AddArgs {
    pub url: String,
    pub title: String,
    pub under: Under,
    pub disable_push: Option<bool>,
}

/// Arguments of the remove command.
#[derive(Debug, Clone, PartialEq)]
pub struct RemoveArgs {
    pub under: Under,
    pub disable_push: Option<bool>,
    pub dry_run: bool,
}

/// Arguments of the find command.
#[derive(Debug, Clone, PartialEq)]
pub struct FindArgs {
    pub title: bool,
    pub url: bool,
    pub folder: bool,
    pub bookmark: bool,
    pub find: String,
}

/// The `[git]` table of the configuration file.
#[derive(Debug, Clone, PartialEq)]
pub struct Git {
    pub enable: bool,
    pub repository_url: Option<String>,
    pub repository_name: Option<String>,
    pub repository_token: Option<String>,
    pub repository_ssh_key: Option<String>,
    pub disable_push: Option<bool>,
}

/// The configuration file contents.
#[derive(Debug, Clone, PartialEq)]
pub struct FloccusCliConfig {
    pub git: Git,
}

/// Failure of the configuration overlay.
#[derive(Debug, PartialEq)]
pub enum OverrideCliError {
    UrlSetUsername,
}

#[verifier::external_type_specification]
#[verifier::external_body]
pub struct ExUrl(url::Url);

/// Relies on `url::Url::parse`: reads a URL from its textual form; `None`
/// when the text is not a URL.
#[verifier::external_body]
fn parse_url(s: &str) -> Option<url::Url> {
    url::Url::parse(s).ok()
}

/// Relies on `url::Url::set_username`: replaces the URL's username
/// component; false for URLs that cannot carry one.
#[verifier::external_body]
fn url_set_username(u: &mut url::Url, user: &str) -> bool {
    u.set_username(user).is_ok()
}

/// Relies on `url::Url::as_str`: the URL's textual form.
#[verifier::external_body]
fn url_as_string(u: &url::Url) -> String {
    u.as_str().to_owned()
}

/// Are two string slices equal?
fn str_eq(a: &str, b: &str) -> (r: bool)
    ensures
        r == (a@ == b@),
{
    let ca = chars_of(a);
    crate::text::chars_eq_str(&ca, b)
}

/// The default repository name.
pub open spec fn name_default() -> Seq<char> {
    seq!['b', 'o', 'o', 'k', 'm', 'a', 'r', 'k', 's']
}

/// Merge the configuration file into the command-line settings: the
/// command line wins field by field; a configured token is spliced into
/// the repository URL as its username. `default_ssh_key` is the built-in
/// ssh key path the command-line layer used as its default. A URL that
/// cannot take the username gives `UrlSetUsername`; fields merged before
/// that point keep their merged values, as the original flow leaves them.
pub fn override_cli_with(cli: &mut Cli, config: FloccusCliConfig, default_ssh_key: &str) -> (r:
    Result<(), OverrideCliError>)
    ensures
        !config.git.enable ==> *final(cli) == *old(cli) && r is Ok,
        config.git.enable ==> ({
            let token2 = if old(cli).repository_token is None {
                config.git.repository_token
            } else {
                old(cli).repository_token
            };
            let take_ssh = old(cli).repository_ssh_key@ == default_ssh_key@ && (
            config.git.repository_ssh_key matches Some(k) && k@.len() > 0);
            let url1 = if old(cli).repository_url is None {
                config.git.repository_url
            } else {
                old(cli).repository_url
            };
            let merge = (token2 matches Some(t) && t@.len() > 0) && url1 is Some;
            &&& final(cli).repository_token == token2
            &&& final(cli).repository_folder == old(cli).repository_folder
            &&& (take_ssh ==> final(cli).repository_ssh_key
                == config.git.repository_ssh_key->0)
            &&& (!take_ssh ==> final(cli).repository_ssh_key == old(cli).repository_ssh_key)
            &&& (!merge ==> final(cli).repository_url == url1)
            &&& (merge ==> final(cli).repository_url is Some || r is Err)
            &&& (r is Err ==> r == Result::<(), OverrideCliError>::Err(
                OverrideCliError::UrlSetUsername,
            ) && merge && final(cli).repository_name == old(cli).repository_name
                && final(cli).command == old(cli).command)
            &&& (r is Ok ==> ({
                let take_name = old(cli).repository_name@ == name_default()
                    && config.git.repository_name is Some;
                &&& (take_name ==> final(cli).repository_name
                    == config.git.repository_name->0)
                &&& (!take_name ==> final(cli).repository_name == old(cli).repository_name)
                &&& (config.git.disable_push is Some ==> match old(cli).command {
                    Commands::Add(a) => final(cli).command == Commands::Add(
                        AddArgs {
                            disable_push: if a.disable_push is None {
                                config.git.disable_push
                            } else {
                                a.disable_push
                            },
                            ..a
                        },
                    ),
                    Commands::Rm(a) => final(cli).command == Commands::Rm(
                        RemoveArgs {
                            disable_push: if a.disable_push is None {
                                config.git.disable_push
                            } else {
                                a.disable_push
                            },
                            ..a
                        },
                    ),
                    _ => final(cli).command == old(cli).command,
                })
                &&& (config.git.disable_push is None ==> final(cli).command == old(cli).command)
            }))
        }),
{
    if !config.git.enable {
        return Ok(());
    }
    if cli.repository_token.is_none() {
        cli.repository_token = config.git.repository_token;
    }
    if str_eq(cli.repository_ssh_key.as_str(), default_ssh_key) {
        match &config.git.repository_ssh_key {
            Some(k) => {
                if !k.as_str().is_empty() {
                    cli.repository_ssh_key = k.clone();
                }
            },
            None => {},
        }
    }
    if cli.repository_url.is_none() {
        cli.repository_url = config.git.repository_url;
    }
    let mut merged_failed = false;
    let mut merged: Option<String> = None;
    match &cli.repository_token {
        Some(t) => {
            if !t.as_str().is_empty() {
                match &cli.repository_url {
                    Some(u) => {
                        match parse_url(u.as_str()) {
                            Some(mut pu) => {
                                if url_set_username(&mut pu, t.as_str()) {
                                    merged = Some(url_as_string(&pu));
                                } else {
                                    merged_failed = true;
                                }
                            },
                            None => {
                                merged_failed = true;
                            },
                        }
                    },
                    None => {},
                }
            }
        },
        None => {},
    }
    if merged_failed {
        return Err(OverrideCliError::UrlSetUsername);
    }
    match merged {
        Some(m) => {
            cli.repository_url = Some(m);
        },
        None => {},
    }
    if str_eq(cli.repository_name.as_str(), "bookmarks") && config.git.repository_name.is_some() {
        proof {
            reveal_strlit("bookmarks");
            assert("bookmarks"@ =~= name_default());
        }
        cli.repository_name = match config.git.repository_name {
            Some(nm) => nm,
            None => String::new(),
        };
    } else {
        proof {
            reveal_strlit("bookmarks");
            assert("bookmarks"@ =~= name_default());
        }
    }
    if config.git.disable_push.is_some() {
        match &mut cli.command {
            Commands::Add(a) => {
                if a.disable_push.is_none() {
                    a.disable_push = config.git.disable_push;
                }
            },
            Commands::Rm(a) => {
                if a.disable_push.is_none() {
                    a.disable_push = config.git.disable_push;
                }
            },
            _ => {},
        }
    }
    Ok(())
}

} // verus!
