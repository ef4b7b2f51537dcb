//! Shared enums of the datastore: error taxonomy, key variants and
//! listing depth, together with their specification-level views and the
//! order in which keys are kept inside a table.
use vstd::prelude::*;

use crate::strutil::{str_lt, text_lt};

verus! {

/// Errors surfaced to callers of the datastore.
#[derive(Debug, Clone)]
pub enum ErrorKind {
    /// The root name in the key does not match the root table name.
    InvalidRoot(String),
    /// Wrong key is specified; the reason is in the message.
    InvalidKey(String),
    /// An internal invariant would have been violated.
    InternalError(String),
    /// The hook manager is not attached.
    InactiveHookManager,
    /// An error reported back by the logger.
    LogError(String),
}

impl ErrorKind {
    /// Human-readable description of the error, one line.
    pub fn to_message(&self) -> (r: String)
        ensures
            match self {
                ErrorKind::InvalidKey(m) => r@ == "Invalid key: "@ + m@,
                ErrorKind::InvalidRoot(m) => r@ == "Invalid root: "@ + m@,
                ErrorKind::InternalError(m) => r@ == "Internal error: "@ + m@,
                ErrorKind::InactiveHookManager => r@
                    == "Inactive hook manager: database is not subscribed"@,
                ErrorKind::LogError(m) => r@ == "LogError: "@ + m@,
            },
    {
        match self {
            ErrorKind::InvalidKey(m) => "Invalid key: ".to_owned().concat(m.as_str()),
            ErrorKind::InvalidRoot(m) => "Invalid root: ".to_owned().concat(m.as_str()),
            ErrorKind::InternalError(m) => "Internal error: ".to_owned().concat(m.as_str()),
            ErrorKind::InactiveHookManager => "Inactive hook manager: database is not subscribed"
                .to_owned(),
            ErrorKind::LogError(m) => "LogError: ".to_owned().concat(m.as_str()),
        }
    }
}

/// The three kinds of entry a table can hold.
#[derive(Clone, Copy, PartialEq, Eq, Structural, Debug)]
pub enum EntryKind {
    Record,
    Queue,
    Table,
}

/// Depth of a key listing.
#[derive(Clone, Copy, PartialEq, Eq, Structural, Debug)]
pub enum ListType {
    /// List only the entries of the addressed table.
    OneLevel,
    /// List every entry below the addressed table, recursively.
    All,
}

/// Key of a table entry: the kind tag together with the name.
#[derive(Debug)]
pub enum KeyType {
    /// The value is a nested table.
    Table(String),
    /// The value is a string record.
    Record(String),
    /// The value is a queue of strings.
    Queue(String),
}

/// Mathematical view of a `KeyType`: same shape, name as a character
/// sequence.
pub enum KeyView {
    Table(Seq<char>),
    Record(Seq<char>),
    Queue(Seq<char>),
}

impl View for KeyType {
    type V = KeyView;

    open spec fn view(&self) -> KeyView {
        match self {
            KeyType::Table(s) => KeyView::Table(s@),
            KeyType::Record(s) => KeyView::Record(s@),
            KeyType::Queue(s) => KeyView::Queue(s@),
        }
    }
}

impl DeepView for KeyType {
    type V = KeyView;

    open spec fn deep_view(&self) -> KeyView {
        self.view()
    }
}

/// Name carried by a key.
pub open spec fn key_name(k: KeyView) -> Seq<char> {
    match k {
        KeyView::Table(s) => s,
        KeyView::Record(s) => s,
        KeyView::Queue(s) => s,
    }
}

/// Kind tag carried by a key.
pub open spec fn key_kind(k: KeyView) -> EntryKind {
    match k {
        KeyView::Table(_) => EntryKind::Table,
        KeyView::Record(_) => EntryKind::Record,
        KeyView::Queue(_) => EntryKind::Queue,
    }
}

/// Rank used to break ties between entries of equal name: records come
/// first, queues next, tables last.
pub open spec fn kind_rank(k: EntryKind) -> int {
    match k {
        EntryKind::Record => 0,
        EntryKind::Queue => 1,
        EntryKind::Table => 2,
    }
}

/// Strict order on keys: names lexicographically, ties broken by kind
/// rank.
pub open spec fn key_lt(a: KeyView, b: KeyView) -> bool {
    text_lt(key_name(a), key_name(b)) || (key_name(a) == key_name(b) && kind_rank(key_kind(a))
        < kind_rank(key_kind(b)))
}

/// `key_lt` never relates a key to itself.
pub proof fn lemma_key_lt_irreflexive(a: KeyView)
    ensures
        !key_lt(a, a),
{
    crate::strutil::lemma_text_lt_irreflexive(key_name(a));
}

/// Two keys that `key_lt` relates in neither direction are equal.
pub proof fn lemma_key_lt_connected(a: KeyView, b: KeyView)
    requires
        !key_lt(a, b),
        !key_lt(b, a),
    ensures
        a == b,
{
    crate::strutil::lemma_text_lt_connected(key_name(a), key_name(b));
}

/// `key_lt` relates two keys in at most one direction.
pub proof fn lemma_key_lt_asymmetric(a: KeyView, b: KeyView)
    requires
        key_lt(a, b),
    ensures
        !key_lt(b, a),
{
    if key_lt(b, a) {
        lemma_key_lt_transitive(a, b, a);
        lemma_key_lt_irreflexive(a);
    }
}

/// `key_lt` is transitive.
pub proof fn lemma_key_lt_transitive(a: KeyView, b: KeyView, c: KeyView)
    requires
        key_lt(a, b),
        key_lt(b, c),
    ensures
        key_lt(a, c),
{
    if text_lt(key_name(a), key_name(b)) && text_lt(key_name(b), key_name(c)) {
        crate::strutil::lemma_text_lt_transitive(key_name(a), key_name(b), key_name(c));
    }
}

impl KeyType {
    /// Whether the key addresses a nested table.
    pub fn is_table(&self) -> (r: bool)
        ensures
            r == (key_kind(self@) == EntryKind::Table),
    {
        match self {
            KeyType::Table(_) => true,
            _ => false,
        }
    }

    /// Whether the key addresses a string record.
    pub fn is_record(&self) -> (r: bool)
        ensures
            r == (key_kind(self@) == EntryKind::Record),
    {
        match self {
            KeyType::Record(_) => true,
            _ => false,
        }
    }

    /// Whether the key addresses a queue.
    pub fn is_queue(&self) -> (r: bool)
        ensures
            r == (key_kind(self@) == EntryKind::Queue),
    {
        match self {
            KeyType::Queue(_) => true,
            _ => false,
        }
    }

    /// The name carried by the key.
    pub fn get_key(&self) -> (r: &str)
        ensures
            r@ == key_name(self@),
    {
        match self {
            KeyType::Record(k) => k.as_str(),
            KeyType::Table(k) => k.as_str(),
            KeyType::Queue(k) => k.as_str(),
        }
    }

    /// One-letter code of the key's kind.
    pub fn get_type(&self) -> (r: &str)
        ensures
            key_kind(self@) == EntryKind::Record ==> r@ == "r"@,
            key_kind(self@) == EntryKind::Table ==> r@ == "t"@,
            key_kind(self@) == EntryKind::Queue ==> r@ == "q"@,
    {
        match self {
            KeyType::Record(_) => "r",
            KeyType::Table(_) => "t",
            KeyType::Queue(_) => "q",
        }
    }

    /// The kind tag of the key.
    pub fn kind(&self) -> (r: EntryKind)
        ensures
            r == key_kind(self@),
    {
        match self {
            KeyType::Table(_) => EntryKind::Table,
            KeyType::Record(_) => EntryKind::Record,
            KeyType::Queue(_) => EntryKind::Queue,
        }
    }
}

impl Clone for KeyType {
    /// Copy of the key, preserving kind and name.
    fn clone(&self) -> (r: Self)
        ensures
            r@ == self@,
    {
        match self {
            KeyType::Table(s) => KeyType::Table(s.clone()),
            KeyType::Record(s) => KeyType::Record(s.clone()),
            KeyType::Queue(s) => KeyType::Queue(s.clone()),
        }
    }
}

/// Executable equality of keys: kind and name must both match.
pub fn key_eq(a: &KeyType, b: &KeyType) -> (r: bool)
    ensures
        r == (a@ == b@),
{
    match (a, b) {
        (KeyType::Table(x), KeyType::Table(y)) => *x == *y,
        (KeyType::Record(x), KeyType::Record(y)) => *x == *y,
        (KeyType::Queue(x), KeyType::Queue(y)) => *x == *y,
        _ => false,
    }
}

/// Executable form of `key_lt`.
pub fn key_before(a: &KeyType, b: &KeyType) -> (r: bool)
    ensures
        r == key_lt(a@, b@),
{
    let an = a.get_key();
    let bn = b.get_key();
    if str_lt(an, bn) {
        true
    } else if str_lt(bn, an) {
        false
    } else {
        proof {
            crate::strutil::lemma_text_lt_connected(key_name(a@), key_name(b@));
        }
        let ra = kind_rank_exec(a.kind());
        let rb = kind_rank_exec(b.kind());
        ra < rb
    }
}

/// Executable form of `kind_rank`.
fn kind_rank_exec(k: EntryKind) -> (r: u8)
    ensures
        r as int == kind_rank(k),
{
    match k {
        EntryKind::Record => 0,
        EntryKind::Queue => 1,
        EntryKind::Table => 2,
    }
}

} // verus!
