//! Turning one change of a commit into a record: which changes count, how the
//! author and path are written, and the cap on a commit's size.
use crate::record::{GourceActionType, GourceLogFormat};
use vstd::prelude::*;
use vstd::string::StringExecFns;

verus! {

/// How a file changed between two trees.
#[derive(Debug, Clone, Copy, PartialEq, Eq, Structural)]
pub enum ChangeKind {
    Added,
    Deleted,
    Modified,
    Renamed,
    Copied,
    Typechange,
    Untracked,
    Unmodified,
    Unreadable,
    Conflicted,
    Ignored,
}

pub open spec fn action_for_spec(kind: ChangeKind) -> Option<GourceActionType> {
    match kind {
        ChangeKind::Added => Some(GourceActionType::A),
        ChangeKind::Deleted => Some(GourceActionType::D),
        ChangeKind::Modified | ChangeKind::Renamed | ChangeKind::Copied
        | ChangeKind::Typechange => Some(GourceActionType::M),
        _ => None,
    }
}

/// The action a change stands for; changes that leave the tree as it was
/// stand for none.
pub fn action_for(kind: ChangeKind) -> (r: Option<GourceActionType>)
    ensures
        r == action_for_spec(kind),
{
    match kind {
        ChangeKind::Added => Some(GourceActionType::A),
        ChangeKind::Deleted => Some(GourceActionType::D),
        ChangeKind::Modified | ChangeKind::Renamed | ChangeKind::Copied
        | ChangeKind::Typechange => Some(GourceActionType::M),
        _ => None,
    }
}

/// `s` with every `from` written as `to`.
pub open spec fn with_char_replaced(s: Seq<char>, from: char, to: char) -> Seq<char> {
    s.map_values(|c: char| if c == from { to } else { c })
}

/// The name with every `|` written as `#`, so that it cannot break a field.
pub open spec fn sanitized(s: Seq<char>) -> Seq<char> {
    with_char_replaced(s, '|', '#')
}

/// Relies on str::replace with a `char` pattern, which replaces every match of
/// the pattern.
#[verifier::external_body]
fn replace_char(s: &str, from: char, to: char) -> (r: String)
    ensures
        r@ == with_char_replaced(s@, from, to),
{
    s.replace(from, to.encode_utf8(&mut [0u8; 4]))
}

/// The path of a file relative to the scanned root: the repository's own
/// directory, when it has one, then the path inside it.
pub open spec fn joined_path(dir: Seq<char>, path: Seq<char>) -> Seq<char> {
    if dir.len() == 0 {
        path
    } else {
        dir + seq!['/'] + path
    }
}

pub fn join_path(dir: &str, path: &str) -> (r: String)
    ensures
        r@ == joined_path(dir@, path@),
{
    if dir.is_empty() {
        path.to_owned()
    } else {
        let mut s = dir.to_owned();
        s.append("/");
        proof {
            reveal_strlit("/");
        }
        s.append(path);
        assert(s@ =~= dir@ + seq!['/'] + path@);
        s
    }
}

impl GourceLogFormat {
    /// The record of one change, or nothing for a change that leaves the tree
    /// as it was.
    pub fn from_change(
        timestamp: i64,
        author: &str,
        kind: ChangeKind,
        repo_dir: &str,
        path: &str,
    ) -> (r: Option<GourceLogFormat>)
        ensures
            action_for_spec(kind) is None ==> r is None,
            action_for_spec(kind) matches Some(a) ==> (r matches Some(x) && x.timestamp
                == timestamp && x.kind == a && x.username@ == sanitized(author@) && x.file@
                == joined_path(repo_dir@, path@)),
    {
        match action_for(kind) {
            None => None,
            Some(a) => Some(
                GourceLogFormat {
                    timestamp,
                    username: replace_char(author, '|', '#'),
                    kind: a,
                    file: join_path(repo_dir, path),
                },
            ),
        }
    }
}

/// A commit whose changes number more than `limit` counts for none of them.
pub fn apply_changeset_limit(changes: Vec<GourceLogFormat>, limit: Option<usize>) -> (r: Vec<
    GourceLogFormat,
>)
    ensures
        (limit matches Some(l) && changes@.len() > l) ==> r@.len() == 0,
        !(limit matches Some(l) && changes@.len() > l) ==> r@ == changes@,
{
    match limit {
        Some(l) => {
            if changes.len() > l {
                Vec::new()
            } else {
                changes
            }
        },
        None => changes,
    }
}

} // verus!
