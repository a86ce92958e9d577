//! The change record and its comparison key.
use core::cmp::Ordering;
use vstd::prelude::*;
use vstd::utf8::encode_utf8;

verus! {

/// What a change did to a file.
#[derive(Debug, Clone, Copy, PartialEq, Eq, Hash, Structural)]
pub enum GourceActionType {
    A,
    M,
    D,
}

impl GourceActionType {
    /// Position of the action in the key: added, modified, deleted.
    pub open spec fn ordinal(self) -> u8 {
        match self {
            GourceActionType::A => 0,
            GourceActionType::M => 1,
            GourceActionType::D => 2,
        }
    }

    pub open spec fn from_ordinal_spec(n: u8) -> Option<GourceActionType> {
        if n == 0 {
            Some(GourceActionType::A)
        } else if n == 1 {
            Some(GourceActionType::M)
        } else if n == 2 {
            Some(GourceActionType::D)
        } else {
            None
        }
    }

    pub fn to_ordinal(&self) -> (r: u8)
        ensures
            r == self.ordinal(),
    {
        match self {
            GourceActionType::A => 0,
            GourceActionType::M => 1,
            GourceActionType::D => 2,
        }
    }

    pub fn from_ordinal(n: u8) -> (r: Option<GourceActionType>)
        ensures
            r == Self::from_ordinal_spec(n),
            r matches Some(a) ==> a.ordinal() == n,
    {
        if n == 0 {
            Some(GourceActionType::A)
        } else if n == 1 {
            Some(GourceActionType::M)
        } else if n == 2 {
            Some(GourceActionType::D)
        } else {
            None
        }
    }

    /// The one-letter tag written in the output log.
    pub fn letter(&self) -> (r: &'static str)
        ensures
            r@ == seq![match self {
                GourceActionType::A => 'A',
                GourceActionType::M => 'M',
                GourceActionType::D => 'D',
            }],
    {
        proof {
            reveal_strlit("A");
            reveal_strlit("M");
            reveal_strlit("D");
        }
        match self {
            GourceActionType::A => "A",
            GourceActionType::M => "M",
            GourceActionType::D => "D",
        }
    }
}

/// One normalised change: when, who, what, and which file.
#[derive(Debug, Clone, PartialEq, Eq)]
pub struct GourceLogFormat {
    pub timestamp: i64,
    pub username: String,
    pub kind: GourceActionType,
    pub file: String,
}

/// The mathematical value of a record.
pub ghost struct LogView {
    pub timestamp: i64,
    pub username: Seq<char>,
    pub action: GourceActionType,
    pub file: Seq<char>,
}

impl View for GourceLogFormat {
    type V = LogView;

    open spec fn view(&self) -> LogView {
        LogView {
            timestamp: self.timestamp,
            username: self.username@,
            action: self.kind,
            file: self.file@,
        }
    }
}

/// Lexicographic three-way comparison of byte strings.
pub open spec fn bytes_cmp(a: Seq<u8>, b: Seq<u8>) -> Ordering
    decreases a.len(),
{
    if a.len() == 0 {
        if b.len() == 0 {
            Ordering::Equal
        } else {
            Ordering::Less
        }
    } else if b.len() == 0 {
        Ordering::Greater
    } else if a[0] < b[0] {
        Ordering::Less
    } else if a[0] > b[0] {
        Ordering::Greater
    } else {
        bytes_cmp(a.drop_first(), b.drop_first())
    }
}

/// Text compares as its UTF-8 bytes do, which is the order of `String`.
pub open spec fn text_cmp(a: Seq<char>, b: Seq<char>) -> Ordering {
    bytes_cmp(encode_utf8(a), encode_utf8(b))
}

pub open spec fn int_cmp(a: int, b: int) -> Ordering {
    if a < b {
        Ordering::Less
    } else if a > b {
        Ordering::Greater
    } else {
        Ordering::Equal
    }
}

/// The comparison key: timestamp, then file, then action, then username.
pub open spec fn log_cmp(a: LogView, b: LogView) -> Ordering {
    if a.timestamp != b.timestamp {
        int_cmp(a.timestamp as int, b.timestamp as int)
    } else if text_cmp(a.file, b.file) != Ordering::Equal {
        text_cmp(a.file, b.file)
    } else if a.action != b.action {
        int_cmp(a.action.ordinal() as int, b.action.ordinal() as int)
    } else {
        text_cmp(a.username, b.username)
    }
}

/// `a` comes no later than `b` in the output.
pub open spec fn log_le(a: LogView, b: LogView) -> bool {
    log_cmp(a, b) != Ordering::Greater
}

pub open spec fn sorted_logs(s: Seq<LogView>) -> bool {
    forall|i: int, j: int| 0 <= i < j < s.len() ==> log_le(#[trigger] s[i], #[trigger] s[j])
}

pub open spec fn views(s: Seq<GourceLogFormat>) -> Seq<LogView> {
    s.map_values(|r: GourceLogFormat| r@)
}

pub proof fn lemma_bytes_cmp_equal(a: Seq<u8>, b: Seq<u8>)
    ensures
        (bytes_cmp(a, b) == Ordering::Equal) <==> (a == b),
    decreases a.len(),
{
    if a.len() == 0 && b.len() == 0 {
        assert(a =~= b);
    }
    if a.len() > 0 && b.len() > 0 && a[0] == b[0] {
        lemma_bytes_cmp_equal(a.drop_first(), b.drop_first());
        if a.drop_first() == b.drop_first() {
            assert(a =~= seq![a[0]] + a.drop_first());
            assert(b =~= seq![b[0]] + b.drop_first());
        }
        if a == b {
            assert(a.drop_first() =~= b.drop_first());
        }
    }
}

pub proof fn lemma_bytes_cmp_flip(a: Seq<u8>, b: Seq<u8>)
    ensures
        (bytes_cmp(a, b) == Ordering::Less) <==> (bytes_cmp(b, a) == Ordering::Greater),
        (bytes_cmp(a, b) == Ordering::Equal) <==> (bytes_cmp(b, a) == Ordering::Equal),
    decreases a.len(),
{
    if a.len() > 0 && b.len() > 0 && a[0] == b[0] {
        lemma_bytes_cmp_flip(a.drop_first(), b.drop_first());
    }
}

pub proof fn lemma_bytes_cmp_trans(a: Seq<u8>, b: Seq<u8>, c: Seq<u8>)
    requires
        bytes_cmp(a, b) != Ordering::Greater,
        bytes_cmp(b, c) != Ordering::Greater,
    ensures
        bytes_cmp(a, c) != Ordering::Greater,
        bytes_cmp(a, b) == Ordering::Less || bytes_cmp(b, c) == Ordering::Less ==> bytes_cmp(
            a,
            c,
        ) == Ordering::Less,
    decreases a.len(),
{
    if a.len() > 0 && b.len() > 0 && c.len() > 0 && a[0] == b[0] && b[0] == c[0] {
        lemma_bytes_cmp_trans(a.drop_first(), b.drop_first(), c.drop_first());
    }
}

pub proof fn lemma_text_cmp_equal(a: Seq<char>, b: Seq<char>)
    ensures
        (text_cmp(a, b) == Ordering::Equal) <==> (a == b),
{
    lemma_bytes_cmp_equal(encode_utf8(a), encode_utf8(b));
    if encode_utf8(a) == encode_utf8(b) {
        vstd::utf8::encode_utf8_decode_utf8(a);
        vstd::utf8::encode_utf8_decode_utf8(b);
    }
}

pub proof fn lemma_log_cmp_facts(a: LogView, b: LogView)
    ensures
        (log_cmp(a, b) == Ordering::Equal) <==> (a == b),
        (log_cmp(a, b) == Ordering::Less) <==> (log_cmp(b, a) == Ordering::Greater),
{
    lemma_text_cmp_equal(a.file, b.file);
    lemma_text_cmp_equal(a.username, b.username);
    lemma_bytes_cmp_flip(encode_utf8(a.file), encode_utf8(b.file));
    lemma_bytes_cmp_flip(encode_utf8(a.username), encode_utf8(b.username));
    if a.action != b.action {
        assert(a.action.ordinal() != b.action.ordinal());
    }
}

pub proof fn lemma_log_cmp_trans(a: LogView, b: LogView, c: LogView)
    requires
        log_le(a, b),
        log_le(b, c),
    ensures
        log_le(a, c),
{
    lemma_log_cmp_facts(a, b);
    lemma_log_cmp_facts(b, c);
    lemma_log_cmp_facts(a, c);
    lemma_text_cmp_equal(a.file, b.file);
    lemma_text_cmp_equal(b.file, c.file);
    lemma_text_cmp_equal(a.file, c.file);
    if text_cmp(a.file, b.file) != Ordering::Greater && text_cmp(b.file, c.file)
        != Ordering::Greater {
        lemma_bytes_cmp_trans(encode_utf8(a.file), encode_utf8(b.file), encode_utf8(c.file));
    }
    if text_cmp(a.username, b.username) != Ordering::Greater && text_cmp(b.username, c.username)
        != Ordering::Greater {
        lemma_bytes_cmp_trans(
            encode_utf8(a.username),
            encode_utf8(b.username),
            encode_utf8(c.username),
        );
    }
    if a.action != b.action {
        assert(a.action.ordinal() != b.action.ordinal());
    }
    if b.action != c.action {
        assert(b.action.ordinal() != c.action.ordinal());
    }
    if a.action != c.action {
        assert(a.action.ordinal() != c.action.ordinal());
    }
}

/// The comparison key orders records totally: every two records are comparable,
/// and only equal records compare equal.
pub proof fn lemma_log_le_total()
    ensures
        vstd::relations::total_ordering(|a: LogView, b: LogView| log_le(a, b)),
{
    assert forall|a: LogView, b: LogView, c: LogView|
        log_le(a, b) && log_le(b, c) implies log_le(a, c) by {
        lemma_log_cmp_trans(a, b, c);
    }
    assert forall|a: LogView, b: LogView| log_le(a, b) && log_le(b, a) implies a == b by {
        lemma_log_cmp_facts(a, b);
    }
    assert forall|a: LogView, b: LogView| log_le(a, b) || log_le(b, a) by {
        lemma_log_cmp_facts(a, b);
    }
    assert forall|a: LogView| log_le(a, a) by {
        lemma_log_cmp_facts(a, a);
    }
}

/// Compares two byte strings lexicographically.
fn compare_bytes(a: &[u8], b: &[u8]) -> (r: Ordering)
    ensures
        r == bytes_cmp(a@, b@),
{
    let mut i: usize = 0;
    assert(a@.skip(0) =~= a@);
    assert(b@.skip(0) =~= b@);
    while i < a.len() && i < b.len()
        invariant
            i <= a@.len(),
            i <= b@.len(),
            bytes_cmp(a@, b@) == bytes_cmp(a@.skip(i as int), b@.skip(i as int)),
        decreases a.len() - i,
    {
        assert(a@.skip(i as int)[0] == a@[i as int]);
        assert(b@.skip(i as int)[0] == b@[i as int]);
        if a[i] < b[i] {
            return Ordering::Less;
        } else if a[i] > b[i] {
            return Ordering::Greater;
        }
        assert(a@.skip(i as int).drop_first() =~= a@.skip(i + 1));
        assert(b@.skip(i as int).drop_first() =~= b@.skip(i + 1));
        i = i + 1;
    }
    if i < b.len() {
        Ordering::Less
    } else if i < a.len() {
        Ordering::Greater
    } else {
        Ordering::Equal
    }
}

fn compare_text(a: &String, b: &String) -> (r: Ordering)
    ensures
        r == text_cmp(a@, b@),
{
    compare_bytes(a.as_str().as_bytes(), b.as_str().as_bytes())
}

impl GourceLogFormat {
    /// Compares two records by the key: timestamp, file, action, username.
    pub fn cmp_key(&self, other: &GourceLogFormat) -> (r: Ordering)
        ensures
            r == log_cmp(self@, other@),
    {
        if self.timestamp < other.timestamp {
            return Ordering::Less;
        } else if self.timestamp > other.timestamp {
            return Ordering::Greater;
        }
        let f = compare_text(&self.file, &other.file);
        match f {
            Ordering::Equal => {},
            _ => {
                return f;
            },
        }
        let x = self.kind.to_ordinal();
        let y = other.kind.to_ordinal();
        if x < y {
            return Ordering::Less;
        } else if x > y {
            return Ordering::Greater;
        }
        compare_text(&self.username, &other.username)
    }

    /// `self` comes no later than `other` in the output.
    pub fn le_key(&self, other: &GourceLogFormat) -> (r: bool)
        ensures
            r == log_le(self@, other@),
    {
        match self.cmp_key(other) {
            Ordering::Greater => false,
            _ => true,
        }
    }
}

} // verus!
