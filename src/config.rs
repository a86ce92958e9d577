//! Configuration of the disk-backed sort: the memory budget and the temporary
//! directory.
use rand::Rng;
use vstd::prelude::*;
use vstd::string::{StringExecFns, StringSliceAdditionalSpecFns};
use vstd::utf8::encode_utf8;

verus! {

/// The budget, in MiB, when none is given.
pub const DEFAULT_CHUNK_SIZE_MB: u64 = 4096;

/// The smallest budget, in MiB, that is accepted.
pub const MIN_CHUNK_SIZE_MB: u64 = 64;

/// Bytes in one MiB.
pub const BYTES_PER_MB: u64 = 1048576;

/// How many random characters name a fresh temporary directory.
pub const TEMP_SUFFIX_LEN: usize = 5;

pub open spec fn is_ascii_alphanumeric(c: char) -> bool {
    ('a' <= c && c <= 'z') || ('A' <= c && c <= 'Z') || ('0' <= c && c <= '9')
}

/// Relies on rand's `Alphanumeric` distribution, which samples ASCII letters and
/// digits, drawn from the thread-local generator.
#[verifier::external_body]
fn random_alphanumeric(n: usize) -> (r: String)
    ensures
        r@.len() == n,
        forall|i: int| 0 <= i < n ==> is_ascii_alphanumeric(#[trigger] r@[i]),
{
    rand::thread_rng().sample_iter(&rand::distributions::Alphanumeric).take(n).map(char::from).collect()
}

/// Relies on shellexpand::tilde: a leading `~` alone or before `/` becomes the
/// home directory; any other text comes back unchanged.
#[verifier::external_body]
fn expand_home(path: &str) -> (r: String)
    ensures
        path@.len() == 0 || path@[0] != '~' ==> r@ == path@,
        r@ == path@ || exists|home: Seq<char>| r@ == home + path@.skip(1),
{
    shellexpand::tilde(path).into_owned()
}

/// Why a sort configuration was refused.
#[derive(Debug, Clone, Copy, PartialEq, Eq, Structural)]
pub enum ConfigError {
    /// The budget is under the smallest accepted.
    ChunkSizeTooSmall,
    /// The temporary location is the root or empty, so it has no parent.
    NoParent,
    /// The parent of the temporary location does not exist.
    ParentMissing,
}

/// The settings of the disk-backed sort.
#[derive(Debug, Clone)]
pub struct MergeSortConfig {
    /// The memory budget in MiB.
    pub chunk_size: u64,
    /// Where the spool and the chunks are kept.
    pub tmp_location: String,
}

pub open spec fn temp_name_spec(suffix: Seq<char>) -> Seq<char> {
    "./rource-temp-"@ + suffix + "/"@
}

/// The name of a fresh temporary directory under the working directory.
pub fn temp_dir_name(suffix: &str) -> (r: String)
    ensures
        r@ == temp_name_spec(suffix@),
{
    let mut s = String::from_str("./rource-temp-");
    s.append(suffix);
    s.append("/");
    s
}

/// The budget a configuration asks for, or the default.
pub open spec fn chunk_size_spec(chunk_size: Option<u64>) -> u64 {
    match chunk_size {
        Some(c) => c,
        None => DEFAULT_CHUNK_SIZE_MB,
    }
}

/// A location has a parent unless it is empty or made of `/` alone.
pub open spec fn has_parent(location: Seq<char>) -> bool {
    exists|i: int| 0 <= i < encode_utf8(location).len() && encode_utf8(location)[i] != 47u8
}

fn location_has_parent(location: &str) -> (r: bool)
    ensures
        r == has_parent(location@),
{
    let b = location.as_bytes();
    let mut i: usize = 0;
    while i < b.len()
        invariant
            b@ == encode_utf8(location@),
            i <= b@.len(),
            forall|j: int| 0 <= j < i ==> b@[j] == 47u8,
        decreases b.len() - i,
    {
        if b[i] != 47u8 {
            return true;
        }
        i = i + 1;
    }
    false
}

/// Where the temporary files go: a requested location with a leading `~`
/// expanded, or else a fresh randomly named directory under the working
/// directory.
pub fn temp_location(requested: Option<String>) -> (r: String)
    ensures
        requested matches Some(p) ==> ((p@.len() == 0 || p@[0] != '~') ==> r@ == p@),
        requested matches Some(p) ==> (r@ == p@ || exists|home: Seq<char>|
            r@ == home + p@.skip(1)),
        requested is None ==> exists|s: Seq<char>|
            s.len() == TEMP_SUFFIX_LEN && (forall|i: int|
                0 <= i < s.len() ==> is_ascii_alphanumeric(#[trigger] s[i])) && r@
                == temp_name_spec(s),
{
    match requested {
        Some(p) => expand_home(p.as_str()),
        None => {
            let suffix = random_alphanumeric(TEMP_SUFFIX_LEN);
            temp_dir_name(suffix.as_str())
        },
    }
}

impl MergeSortConfig {
    /// Builds the settings for a temporary location, given whether the
    /// location's parent exists. The location must have a parent, that parent
    /// must exist, and the budget, 4096 MiB by default, must be at least 64 MiB;
    /// the first of these that fails is the error.
    pub fn new(chunk_size: Option<u64>, tmp_location: String, parent_exists: bool) -> (r: Result<
        MergeSortConfig,
        ConfigError,
    >)
        ensures
            !has_parent(tmp_location@) ==> r == Err::<MergeSortConfig, ConfigError>(
                ConfigError::NoParent,
            ),
            has_parent(tmp_location@) && !parent_exists ==> r == Err::<
                MergeSortConfig,
                ConfigError,
            >(ConfigError::ParentMissing),
            has_parent(tmp_location@) && parent_exists && chunk_size_spec(chunk_size)
                < MIN_CHUNK_SIZE_MB ==> r == Err::<MergeSortConfig, ConfigError>(
                ConfigError::ChunkSizeTooSmall,
            ),
            r is Ok <==> has_parent(tmp_location@) && parent_exists && chunk_size_spec(chunk_size)
                >= MIN_CHUNK_SIZE_MB,
            r matches Ok(c) ==> c.chunk_size == chunk_size_spec(chunk_size) && c.tmp_location@
                == tmp_location@,
    {
        if !location_has_parent(tmp_location.as_str()) {
            return Err(ConfigError::NoParent);
        }
        if !parent_exists {
            return Err(ConfigError::ParentMissing);
        }
        let chunk_size = match chunk_size {
            Some(c) => c,
            None => DEFAULT_CHUNK_SIZE_MB,
        };
        if chunk_size < MIN_CHUNK_SIZE_MB {
            return Err(ConfigError::ChunkSizeTooSmall);
        }
        Ok(MergeSortConfig { chunk_size, tmp_location })
    }

    /// The budget in bytes, held at the largest `u64` where it would not fit.
    pub fn budget_bytes(&self) -> (r: u64)
        ensures
            r as int == if self.chunk_size as int * BYTES_PER_MB as int > u64::MAX as int {
                u64::MAX as int
            } else {
                self.chunk_size as int * BYTES_PER_MB as int
            },
    {
        if self.chunk_size > u64::MAX / BYTES_PER_MB {
            assert(self.chunk_size as int * BYTES_PER_MB as int > u64::MAX as int) by (nonlinear_arith)
                requires
                    self.chunk_size > u64::MAX / BYTES_PER_MB,
            ;
            u64::MAX
        } else {
            assert(self.chunk_size as int * BYTES_PER_MB as int <= u64::MAX as int) by (nonlinear_arith)
                requires
                    self.chunk_size <= u64::MAX / BYTES_PER_MB,
            ;
            self.chunk_size * BYTES_PER_MB
        }
    }
}

} // verus!
