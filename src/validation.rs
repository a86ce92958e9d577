//! Checks on what the user passed: username aliases, and which directory
//! entries are repositories or are searched further.
use vstd::prelude::*;
use vstd::string::{StringExecFns, StringSliceAdditionalSpecFns};
use vstd::utf8::{encode_utf8, is_char_boundary, pop_first_scalar, valid_utf8};

verus! {

broadcast use vstd::utf8::encode_utf8_valid_utf8;

/// `::` starts at byte `i` of `b`.
pub open spec fn is_sep(b: Seq<u8>, i: int) -> bool {
    0 <= i && i + 1 < b.len() && b[i] == 58u8 && b[i + 1] == 58u8
}

/// Split at every `::` from left to right, `b` has exactly two parts, and the
/// first `::` starts at byte `i`.
pub open spec fn splits_in_two_at(b: Seq<u8>, i: int) -> bool {
    &&& is_sep(b, i)
    &&& forall|j: int| 0 <= j < i ==> !is_sep(b, j)
    &&& forall|j: int| i + 2 <= j ==> !is_sep(b, j)
}

pub open spec fn splits_in_two(b: Seq<u8>) -> bool {
    exists|i: int| splits_in_two_at(b, i)
}

/// `name` and `replacement` are the two parts of `text` split at its `::`.
pub open spec fn alias_parts(text: Seq<char>, name: Seq<char>, replacement: Seq<char>) -> bool {
    exists|i: int|
        {
            &&& #[trigger] splits_in_two_at(encode_utf8(text), i)
            &&& encode_utf8(name) == encode_utf8(text).subrange(0, i)
            &&& encode_utf8(replacement) == encode_utf8(text).subrange(
                i + 2,
                encode_utf8(text).len() as int,
            )
        }
}

/// Why the aliases were refused.
#[derive(Debug, Clone, Copy, PartialEq, Eq, Structural)]
pub enum AliasError {
    /// An alias is not of the form `<USERNAME>::<REPLACEMENT>`.
    InvalidFormat,
}

/// The settings of the output step.
pub struct GourceLogConfig {
    /// Where the log goes; standard output when absent.
    pub output_file: Option<String>,
    /// Username replacements, later ones winning.
    pub aliases: Vec<(String, String)>,
    /// The disk-backed sort, when it is used.
    pub merge_sort_config: Option<crate::config::MergeSortConfig>,
}

/// The first `::` that starts at or after byte `start`.
fn next_sep(b: &[u8], start: usize) -> (r: Option<usize>)
    requires
        start <= b@.len(),
    ensures
        r matches Some(i) ==> start <= i && is_sep(b@, i as int) && forall|j: int|
            start <= j < i ==> !is_sep(b@, j),
        r is None ==> forall|j: int| start <= j ==> !is_sep(b@, j),
{
    let mut i: usize = start;
    while i < b.len()
        invariant
            start <= i <= b@.len(),
            forall|j: int| start <= j < i ==> !is_sep(b@, j),
        decreases b.len() - i,
    {
        if i + 1 < b.len() && b[i] == 58u8 && b[i + 1] == 58u8 {
            return Some(i);
        }
        i = i + 1;
    }
    None
}

/// Finds where `b` splits in two, if it does.
fn find_split(b: &[u8]) -> (r: Option<usize>)
    ensures
        r matches Some(i) ==> splits_in_two_at(b@, i as int),
        r is None ==> !splits_in_two(b@),
{
    match next_sep(b, 0) {
        None => None,
        Some(first) => match {
            assert(first + 1 < b.len());
            next_sep(b, first + 2)
        } {
            None => Some(first),
            Some(j) => {
                assert forall|k: int| !splits_in_two_at(b@, k) by {
                    if is_sep(b@, k) && k != first {
                        if k > first {
                            assert(is_sep(b@, first as int));
                        }
                    }
                    if k == first {
                        assert(is_sep(b@, j as int));
                    }
                }
                None
            },
        },
    }
}

/// Splits `text` around the `::` at byte `i`.
fn split_around(text: &str, i: usize) -> (r: (String, String))
    requires
        is_sep(text.spec_bytes(), i as int),
    ensures
        encode_utf8(r.0@) == text.spec_bytes().subrange(0, i as int),
        encode_utf8(r.1@) == text.spec_bytes().subrange(i + 2, text.spec_bytes().len() as int),
{
    let ghost b = text.spec_bytes();
    proof {
        vstd::utf8::is_char_boundary_iff_is_leading_byte(b, i as int);
    }
    let (head, rest) = text.split_at(i);
    let ghost rb = rest.spec_bytes();
    proof {
        assert(rb =~= b.subrange(i as int, b.len() as int));
        assert(rb[0] == 58u8 && rb[1] == 58u8);
        assert(valid_utf8(rb));
        let p1 = rb.subrange(1, rb.len() as int);
        assert(pop_first_scalar(rb) == p1);
        assert(valid_utf8(p1));
        let p2 = p1.subrange(1, p1.len() as int);
        assert(p1[0] == 58u8);
        assert(pop_first_scalar(p1) == p2);
        assert(is_char_boundary(p2, 0));
        assert(is_char_boundary(p1, 1));
        assert(is_char_boundary(rb, 2));
    }
    let (_, tail) = rest.split_at(2);
    proof {
        assert(tail.spec_bytes() =~= b.subrange(i + 2, b.len() as int));
    }
    (head.to_owned(), tail.to_owned())
}

/// Reads aliases of the form `<USERNAME>::<REPLACEMENT>`. Each must split at
/// `::` into exactly two parts; otherwise the whole list is refused.
pub fn validate_aliases(aliases: &Vec<String>) -> (r: Result<Vec<(String, String)>, AliasError>)
    ensures
        r is Ok <==> forall|k: int|
            0 <= k < aliases@.len() ==> splits_in_two(#[trigger] encode_utf8(aliases@[k]@)),
        r matches Ok(v) ==> v@.len() == aliases@.len() && forall|k: int|
            0 <= k < v@.len() ==> alias_parts(aliases@[k]@, (#[trigger] v@[k]).0@, v@[k].1@),
{
    let mut out: Vec<(String, String)> = Vec::new();
    let mut k: usize = 0;
    while k < aliases.len()
        invariant
            k <= aliases@.len(),
            out@.len() == k,
            forall|m: int| 0 <= m < k ==> splits_in_two(#[trigger] encode_utf8(aliases@[m]@)),
            forall|m: int|
                0 <= m < k ==> alias_parts(aliases@[m]@, (#[trigger] out@[m]).0@, out@[m].1@),
        decreases aliases.len() - k,
    {
        let text = aliases[k].as_str();
        match find_split(text.as_bytes()) {
            None => {
                return Err(AliasError::InvalidFormat);
            },
            Some(i) => {
                let pair = split_around(text, i);
                out.push(pair);
                assert(out@[k as int] == pair);
                assert(text.spec_bytes() == encode_utf8(aliases@[k as int]@));
                assert(splits_in_two_at(encode_utf8(aliases@[k as int]@), i as int));
                assert(alias_parts(aliases@[k as int]@, pair.0@, pair.1@));
            },
        }
        k = k + 1;
    }
    Ok(out)
}

/// The replacement for `name`: that of the last alias for it, if any.
pub open spec fn alias_lookup(aliases: Seq<(Seq<char>, Seq<char>)>, name: Seq<char>) -> Option<
    Seq<char>,
>
    decreases aliases.len(),
{
    if aliases.len() == 0 {
        None
    } else if aliases.last().0 == name {
        Some(aliases.last().1)
    } else {
        alias_lookup(aliases.drop_last(), name)
    }
}

pub open spec fn alias_views(aliases: Seq<(String, String)>) -> Seq<(Seq<char>, Seq<char>)> {
    aliases.map_values(|p: (String, String)| (p.0@, p.1@))
}

/// The name written for a user: the replacement of the last alias for them,
/// or the name itself.
pub fn resolve_alias(aliases: &Vec<(String, String)>, name: &String) -> (r: String)
    ensures
        r@ == match alias_lookup(alias_views(aliases@), name@) {
            Some(x) => x,
            None => name@,
        },
{
    let mut k: usize = aliases.len();
    assert(aliases@.subrange(0, k as int) =~= aliases@);
    while k > 0
        invariant
            k <= aliases@.len(),
            alias_lookup(alias_views(aliases@), name@) == alias_lookup(
                alias_views(aliases@.subrange(0, k as int)),
                name@,
            ),
        decreases k,
    {
        let ghost s = alias_views(aliases@.subrange(0, k as int));
        assert(s.last() == (aliases@[k - 1].0@, aliases@[k - 1].1@));
        if aliases[k - 1].0 == *name {
            return aliases[k - 1].1.clone();
        }
        assert(s.drop_last() =~= alias_views(aliases@.subrange(0, k - 1)));
        k = k - 1;
    }
    assert(alias_views(aliases@.subrange(0, 0)) =~= Seq::<(Seq<char>, Seq<char>)>::empty());
    name.clone()
}

/// What a directory scan does with one entry.
#[derive(Debug, Clone, Copy, PartialEq, Eq, Structural)]
pub enum EntryAction {
    /// Passed over.
    Skip,
    /// A `.git` directory: the directory being scanned is a repository.
    Repository,
    /// A directory searched in turn.
    Descend,
}

pub open spec fn entry_action_spec(
    name: Seq<char>,
    is_dir: bool,
    recursive: bool,
    keep_only: Seq<Seq<char>>,
    leave_out: Seq<Seq<char>>,
) -> EntryAction {
    if !is_dir {
        EntryAction::Skip
    } else if leave_out.len() > 0 && leave_out.contains(name) {
        EntryAction::Skip
    } else if keep_only.len() > 0 && !keep_only.contains(name) {
        EntryAction::Skip
    } else if name == ".git"@ {
        EntryAction::Repository
    } else if recursive {
        EntryAction::Descend
    } else {
        EntryAction::Skip
    }
}

pub open spec fn string_views(v: Seq<String>) -> Seq<Seq<char>> {
    v.map_values(|s: String| s@)
}

fn contains_name(names: &Vec<String>, name: &String) -> (r: bool)
    ensures
        r == string_views(names@).contains(name@),
{
    let mut k: usize = 0;
    while k < names.len()
        invariant
            k <= names@.len(),
            forall|m: int| 0 <= m < k ==> names@[m]@ != name@,
        decreases names.len() - k,
    {
        if names[k] == *name {
            assert(string_views(names@)[k as int] == name@);
            return true;
        }
        k = k + 1;
    }
    assert forall|m: int| 0 <= m < string_views(names@).len() implies string_views(names@)[m]
        != name@ by {
        assert(string_views(names@)[m] == names@[m]@);
    }
    false
}

/// Decides, for each entry of one directory (its name, and whether it is a
/// directory), whether it is skipped, marks the directory as a repository, or
/// is searched further. `keep_only` and `leave_out`, when not empty, keep or drop
/// entries by name.
pub fn discover_repositories(
    entries: &Vec<(String, bool)>,
    recursive: bool,
    keep_only: &Vec<String>,
    leave_out: &Vec<String>,
) -> (r: Vec<EntryAction>)
    ensures
        r@.len() == entries@.len(),
        forall|k: int|
            0 <= k < r@.len() ==> #[trigger] r@[k] == entry_action_spec(
                entries@[k].0@,
                entries@[k].1,
                recursive,
                string_views(keep_only@),
                string_views(leave_out@),
            ),
{
    let git = String::from_str(".git");
    let mut out: Vec<EntryAction> = Vec::new();
    let mut k: usize = 0;
    while k < entries.len()
        invariant
            k <= entries@.len(),
            out@.len() == k,
            git@ == ".git"@,
            forall|m: int|
                0 <= m < k ==> #[trigger] out@[m] == entry_action_spec(
                    entries@[m].0@,
                    entries@[m].1,
                    recursive,
                    string_views(keep_only@),
                    string_views(leave_out@),
                ),
        decreases entries.len() - k,
    {
        let name = &entries[k].0;
        let action = if !entries[k].1 {
            EntryAction::Skip
        } else if leave_out.len() > 0 && contains_name(leave_out, name) {
            EntryAction::Skip
        } else if keep_only.len() > 0 && !contains_name(keep_only, name) {
            EntryAction::Skip
        } else if *name == git {
            EntryAction::Repository
        } else if recursive {
            EntryAction::Descend
        } else {
            EntryAction::Skip
        };
        out.push(action);
        k = k + 1;
    }
    out
}

} // verus!
