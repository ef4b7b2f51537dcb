//! The datastore: key validation, the database over the hierarchical
//! table, and the worker step that turns one request into a reply, a
//! log record and, where needed, a request to the hook manager or the
//! logger.
use vstd::prelude::*;

use crate::enums::{key_kind, key_name, EntryKind, ErrorKind, KeyType, KeyView, ListType};
use crate::hook::HookManagerAction;
use crate::logger::{LogItem, LoggerAction, LoggerResponse};
use crate::types::{
    display_tables, find_table, remove_at_route, set_at_route, tv_entry_at, tv_listing,
    tv_remove_route, tv_set_route, tv_sub, tv_wf, Table, ValueType, ValueView,
};

verus! {

/// Segments of a key: the maximal runs of characters between `/`
/// separators, empties dropped; `cur` accumulates the run being read.
pub open spec fn split_acc(s: Seq<char>, cur: Seq<char>) -> Seq<Seq<char>>
    decreases s.len(),
{
    if s.len() == 0 {
        if cur.len() > 0 {
            seq![cur]
        } else {
            Seq::empty()
        }
    } else if s[0] == '/' {
        (if cur.len() > 0 {
            seq![cur]
        } else {
            Seq::empty()
        }) + split_acc(s.drop_first(), Seq::empty())
    } else {
        split_acc(s.drop_first(), cur.push(s[0]))
    }
}

/// The non-empty segments of a key string, in order.
pub open spec fn key_segments(s: Seq<char>) -> Seq<Seq<char>> {
    split_acc(s, Seq::empty())
}

/// A valid key: starts with `/`, has at least one segment, and its
/// first segment names the root table.
pub open spec fn key_ok(s: Seq<char>, root: Seq<char>) -> bool {
    &&& s.len() > 0
    &&& s[0] == '/'
    &&& key_segments(s).len() >= 1
    &&& key_segments(s)[0] == root
}

/// The error a key failing validation is rejected with.
pub open spec fn key_error_for(s: Seq<char>, root: Seq<char>, e: ErrorKind) -> bool {
    match e {
        ErrorKind::InvalidKey(m) => {
            if !(s.len() > 0 && s[0] == '/') {
                m@ == "Key must begin with '/' sign"@
            } else if key_segments(s).len() < 1 {
                m@ == "Key must contain at least 1 items, e.g.: /root/status"@
            } else {
                key_segments(s)[0] != root && m@ == "Key does not begin with the root table"@
            }
        },
        _ => false,
    }
}

/// Parse a key string into its route of segments, rejecting keys that
/// do not start with `/`, have no segment, or do not begin with the
/// root table's name.
pub fn validate_key(key_string: &str, db_name: &String) -> (r: Result<Vec<String>, ErrorKind>)
    ensures
        match r {
            Ok(v) => key_ok(key_string@, db_name@) && v.deep_view() == key_segments(key_string@)
                && v@.len() >= 1,
            Err(e) => !key_ok(key_string@, db_name@) && key_error_for(key_string@, db_name@, e),
        },
{
    let ghost s = key_string@;
    let n = key_string.unicode_len();
    if n == 0 || key_string.get_char(0) != '/' {
        return Err(ErrorKind::InvalidKey("Key must begin with '/' sign".to_owned()));
    }
    let mut segs: Vec<String> = Vec::new();
    let mut start: usize = 0;
    let mut i: usize = 0;
    proof {
        assert(s.skip(0) =~= s);
        assert(s.subrange(0, 0) =~= Seq::<char>::empty());
        assert(segs.deep_view() =~= Seq::<Seq<char>>::empty());
    }
    while i < n
        invariant
            start <= i <= n,
            s == key_string@,
            n == s.len(),
            key_segments(s) == segs.deep_view() + split_acc(
                s.skip(i as int),
                s.subrange(start as int, i as int),
            ),
        decreases n - i,
    {
        let ghost cur = s.subrange(start as int, i as int);
        proof {
            assert(s.skip(i as int)[0] == s[i as int]);
            assert(s.skip(i as int).drop_first() =~= s.skip(i + 1));
        }
        let c = key_string.get_char(i);
        if c == '/' {
            if i > start {
                let ghost pre = segs.deep_view();
                let piece = key_string.substring_char(start, i).to_owned();
                segs.push(piece);
                proof {
                    assert(cur.len() > 0);
                    assert forall|j: int| 0 <= j < segs.deep_view().len() implies segs.deep_view()[j]
                        == (pre + seq![cur])[j] by {
                        assert(segs.deep_view()[j] == segs@[j]@);
                    }
                    assert(segs.deep_view() =~= pre + seq![cur]);
                }
            } else {
                proof {
                    assert(cur.len() == 0);
                }
            }
            start = i + 1;
            proof {
                assert(s.subrange(start as int, i + 1) =~= Seq::<char>::empty());
            }
        } else {
            proof {
                assert(s.subrange(start as int, i + 1) =~= cur.push(s[i as int]));
            }
        }
        i = i + 1;
    }
    if start < n {
        let ghost pre = segs.deep_view();
        let ghost cur = s.subrange(start as int, n as int);
        let piece = key_string.substring_char(start, n).to_owned();
        segs.push(piece);
        proof {
            assert(s.skip(n as int).len() == 0);
            assert(cur.len() > 0);
            assert forall|j: int| 0 <= j < segs.deep_view().len() implies segs.deep_view()[j] == (pre
                + seq![cur])[j] by {
                assert(segs.deep_view()[j] == segs@[j]@);
            }
            assert(segs.deep_view() =~= pre + seq![cur]);
            assert(key_segments(s) =~= segs.deep_view());
        }
    } else {
        proof {
            assert(s.skip(n as int).len() == 0);
            assert(s.subrange(start as int, n as int).len() == 0);
            assert(key_segments(s) =~= segs.deep_view());
        }
    }
    if segs.len() == 0 {
        return Err(
            ErrorKind::InvalidKey("Key must contain at least 1 items, e.g.: /root/status".to_owned()),
        );
    }
    if !crate::strutil::str_eq(segs[0].as_str(), db_name.as_str()) {
        proof {
            assert(segs.deep_view()[0] == segs@[0]@);
        }
        return Err(ErrorKind::InvalidKey("Key does not begin with the root table".to_owned()));
    }
    proof {
        assert(segs.deep_view()[0] == segs@[0]@);
    }
    Ok(segs)
}

/// The in-memory database: the root table and its name, and whether a
/// hook manager and a logger are attached to the worker around it.
pub struct Database {
    /// Name of the database; the root table's name.
    pub name: String,
    /// The root table.
    pub root: Table,
    /// Whether hook requests can be forwarded anywhere.
    pub hook_attached: bool,
    /// Whether log records have anywhere to go.
    pub logger_attached: bool,
}

/// Name, attachments and well-formedness carried across an operation.
pub open spec fn db_frame(pre: Database, post: Database) -> bool {
    &&& post.name == pre.name
    &&& post.hook_attached == pre.hook_attached
    &&& post.logger_attached == pre.logger_attached
}

/// What `insert` guarantees: success exactly on valid keys, the record
/// then stored under the key's route, and nothing on an invalid key.
pub open spec fn insert_post(
    pre: Database,
    post: Database,
    k: KeyView,
    vv: ValueView,
    r: Result<(), ErrorKind>,
) -> bool {
    &&& db_frame(pre, post)
    &&& tv_wf(post.root@)
    &&& match r {
        Ok(_) => key_ok(key_name(k), pre.name@) && (vv matches ValueView::Record(sv)
            && post.root@ == tv_set_route(pre.root@, key_segments(key_name(k)), sv)),
        Err(e) => !key_ok(key_name(k), pre.name@) && key_error_for(key_name(k), pre.name@, e)
            && post.root@ == pre.root@,
    }
}

/// What `get` guarantees: a copy of the record stored under the key,
/// and an exact error otherwise.
pub open spec fn get_post(db: Database, k: KeyView, r: Result<ValueType, ErrorKind>) -> bool {
    match r {
        Ok(v) => key_kind(k) != EntryKind::Table && key_ok(key_name(k), db.name@) && tv_entry_at(
            db.root@,
            key_segments(key_name(k)),
            EntryKind::Record,
        ) == Some(v@),
        Err(e) => {
            if key_kind(k) == EntryKind::Table {
                e matches ErrorKind::InvalidKey(m) && m@ == "Parameter must be a Record type"@
            } else if !key_ok(key_name(k), db.name@) {
                key_error_for(key_name(k), db.name@, e)
            } else {
                tv_entry_at(db.root@, key_segments(key_name(k)), EntryKind::Record) is None && (
                e matches ErrorKind::InvalidKey(m) && m@ == "Specified key does not exist"@)
            }
        },
    }
}

/// What `delete_key` guarantees: the record entry under the key is
/// gone; an error names the reason exactly.
pub open spec fn delete_key_post(
    pre: Database,
    post: Database,
    k: KeyView,
    r: Result<(), ErrorKind>,
) -> bool {
    &&& db_frame(pre, post)
    &&& tv_wf(post.root@)
    &&& match r {
        Ok(_) => key_kind(k) != EntryKind::Table && key_ok(key_name(k), pre.name@) && tv_entry_at(
            pre.root@,
            key_segments(key_name(k)),
            EntryKind::Record,
        ) is Some && post.root@ == tv_remove_route(
            pre.root@,
            key_segments(key_name(k)),
            EntryKind::Record,
        ),
        Err(e) => {
            if key_kind(k) == EntryKind::Table {
                post.root@ == pre.root@ && (e matches ErrorKind::InvalidKey(m) && m@
                    == "Parameter must be a Record type"@)
            } else if !key_ok(key_name(k), pre.name@) {
                post.root@ == pre.root@ && key_error_for(key_name(k), pre.name@, e)
            } else {
                tv_entry_at(pre.root@, key_segments(key_name(k)), EntryKind::Record) is None
                    && post.root@ == tv_remove_route(
                    pre.root@,
                    key_segments(key_name(k)),
                    EntryKind::Record,
                ) && (e matches ErrorKind::InvalidKey(m) && m@ == "Specified key does not exist"@)
            }
        },
    }
}

/// What `delete_table` guarantees: the table entry under the key is
/// gone, its whole subtree with it; an error names the reason exactly.
pub open spec fn delete_table_post(
    pre: Database,
    post: Database,
    k: KeyView,
    r: Result<(), ErrorKind>,
) -> bool {
    &&& db_frame(pre, post)
    &&& tv_wf(post.root@)
    &&& match r {
        Ok(_) => key_kind(k) != EntryKind::Record && key_ok(key_name(k), pre.name@) && tv_entry_at(
            pre.root@,
            key_segments(key_name(k)),
            EntryKind::Table,
        ) is Some && post.root@ == tv_remove_route(
            pre.root@,
            key_segments(key_name(k)),
            EntryKind::Table,
        ),
        Err(e) => {
            if key_kind(k) == EntryKind::Record {
                post.root@ == pre.root@ && (e matches ErrorKind::InvalidKey(m) && m@
                    == "Parameter must be a Table type"@)
            } else if !key_ok(key_name(k), pre.name@) {
                post.root@ == pre.root@ && key_error_for(key_name(k), pre.name@, e)
            } else {
                tv_entry_at(pre.root@, key_segments(key_name(k)), EntryKind::Table) is None
                    && post.root@ == tv_remove_route(
                    pre.root@,
                    key_segments(key_name(k)),
                    EntryKind::Table,
                ) && (e matches ErrorKind::InvalidKey(m) && m@ == "Specified key does not exist"@)
            }
        },
    }
}

/// What `list_keys` guarantees: the listing of the table the key
/// routes to, under the key as prefix; an error names the reason.
pub open spec fn list_post(
    db: Database,
    k: KeyView,
    level: ListType,
    r: Result<Vec<KeyType>, ErrorKind>,
) -> bool {
    match r {
        Ok(list) => key_kind(k) != EntryKind::Table && key_ok(key_name(k), db.name@) && (tv_sub(
            db.root@,
            key_segments(key_name(k)),
        ) matches Some(s) && list.deep_view() == tv_listing(s, key_name(k), level)),
        Err(e) => {
            if key_kind(k) == EntryKind::Table {
                e matches ErrorKind::InvalidKey(m) && m@ == "Parameter must be a Record type"@
            } else if !key_ok(key_name(k), db.name@) {
                key_error_for(key_name(k), db.name@, e)
            } else {
                tv_sub(db.root@, key_segments(key_name(k))) is None && (
                e matches ErrorKind::InvalidKey(m) && m@ == "Specified route does not exist"@)
            }
        },
    }
}

impl Database {
    /// The database invariant: the tree is well formed.
    pub open spec fn wf(&self) -> bool {
        tv_wf(self.root@)
    }

    /// Fresh database under the given root name; rejected when the name
    /// contains a `/`.
    pub fn new(root_name: String) -> (r: Result<Self, ErrorKind>)
        ensures
            match r {
                Ok(db) => {
                    &&& !root_name@.contains('/')
                    &&& db.name == root_name
                    &&& db.root@ == Seq::<(KeyView, ValueView)>::empty()
                    &&& db.wf()
                    &&& !db.hook_attached
                    &&& !db.logger_attached
                },
                Err(e) => root_name@.contains('/') && (e matches ErrorKind::InvalidRoot(m) && m@
                    == "Root name cannot contains '/' character"@),
            },
    {
        if crate::strutil::str_contains_char(root_name.as_str(), '/') {
            return Err(
                ErrorKind::InvalidRoot("Root name cannot contains '/' character".to_owned()),
            );
        }
        Ok(
            Database {
                name: root_name,
                root: Table::new(),
                hook_attached: false,
                logger_attached: false,
            },
        )
    }

    /// Note that a hook manager is reachable from the worker.
    pub fn subscribe_to_hook_manager(&mut self)
        ensures
            final(self).hook_attached,
            final(self).name == old(self).name,
            final(self).root == old(self).root,
            final(self).logger_attached == old(self).logger_attached,
    {
        self.hook_attached = true;
    }

    /// Note that a logger is reachable from the worker.
    pub fn subscribe_to_logger(&mut self)
        ensures
            final(self).logger_attached,
            final(self).name == old(self).name,
            final(self).root == old(self).root,
            final(self).hook_attached == old(self).hook_attached,
    {
        self.logger_attached = true;
    }

    /// Insert or overwrite the record named by the key, creating the
    /// intermediate tables on demand.
    pub fn insert(&mut self, key: KeyType, value: ValueType) -> (r: Result<(), ErrorKind>)
        requires
            old(self).wf(),
            value is RecordPointer,
        ensures
            insert_post(*old(self), *final(self), key@, value@, r),
    {
        let routes = match validate_key(key.get_key(), &self.name) {
            Ok(v) => v,
            Err(e) => {
                return Err(e);
            },
        };
        let text = match value {
            ValueType::RecordPointer(s) => s,
            _ => vstd::pervasive::unreached(),
        };
        let mut root = Table::new();
        core::mem::swap(&mut self.root, &mut root);
        let newroot = set_at_route(root, &routes, 0, text);
        self.root = newroot;
        proof {
            assert(routes.deep_view().skip(0) =~= key_segments(key_name(key@)));
            crate::types::lemma_tv_set_route_wf(
                old(self).root@,
                key_segments(key_name(key@)),
                value@->Record_0,
            );
        }
        Ok(())
    }

    /// A copy of the record stored under the key.
    pub fn get(&self, key: KeyType) -> (r: Result<ValueType, ErrorKind>)
        requires
            self.wf(),
        ensures
            get_post(*self, key@, r),
    {
        if key.is_table() {
            return Err(ErrorKind::InvalidKey("Parameter must be a Record type".to_owned()));
        }
        let routes = match validate_key(key.get_key(), &self.name) {
            Ok(v) => v,
            Err(e) => {
                return Err(e);
            },
        };
        let ghost segs = key_segments(key_name(key@));
        let last = routes.len() - 1;
        proof {
            assert(routes.deep_view().subrange(0, last as int) =~= segs.drop_last());
            assert(routes.deep_view()[last as int] == segs.last());
        }
        match find_table(&self.root, &routes, 0, last) {
            Some(table) => {
                match crate::types::find_entry_in(
                    &table.entries,
                    EntryKind::Record,
                    routes[last].as_str(),
                ) {
                    Some(v) => Ok(v),
                    None => Err(ErrorKind::InvalidKey("Specified key does not exist".to_owned())),
                }
            },
            None => Err(ErrorKind::InvalidKey("Specified key does not exist".to_owned())),
        }
    }

    /// List the keys below the route the key names.
    pub fn list_keys(&self, key_prefix: KeyType, level: ListType) -> (r: Result<
        Vec<KeyType>,
        ErrorKind,
    >)
        requires
            self.wf(),
        ensures
            list_post(*self, key_prefix@, level, r),
    {
        if key_prefix.is_table() {
            return Err(ErrorKind::InvalidKey("Parameter must be a Record type".to_owned()));
        }
        let routes = match validate_key(key_prefix.get_key(), &self.name) {
            Ok(v) => v,
            Err(e) => {
                return Err(e);
            },
        };
        proof {
            assert(routes.deep_view().subrange(0, routes@.len() as int) =~= key_segments(
                key_name(key_prefix@),
            ));
        }
        let table = match find_table(&self.root, &routes, 0, routes.len()) {
            Some(table) => table,
            None => {
                return Err(ErrorKind::InvalidKey("Specified route does not exist".to_owned()));
            },
        };
        match display_tables(table, key_prefix.get_key(), level) {
            Ok(result) => Ok(result),
            Err(e) => Err(e),
        }
    }

    /// Delete the record entry named by the key.
    pub fn delete_key(&mut self, key: KeyType) -> (r: Result<(), ErrorKind>)
        requires
            old(self).wf(),
        ensures
            delete_key_post(*old(self), *final(self), key@, r),
    {
        if key.is_table() {
            return Err(ErrorKind::InvalidKey("Parameter must be a Record type".to_owned()));
        }
        let routes = match validate_key(key.get_key(), &self.name) {
            Ok(v) => v,
            Err(e) => {
                return Err(e);
            },
        };
        let mut root = Table::new();
        core::mem::swap(&mut self.root, &mut root);
        let (newroot, found) = remove_at_route(root, &routes, 0, EntryKind::Record);
        self.root = newroot;
        proof {
            assert(routes.deep_view().skip(0) =~= key_segments(key_name(key@)));
            crate::types::lemma_tv_remove_route_wf(
                old(self).root@,
                key_segments(key_name(key@)),
                EntryKind::Record,
            );
        }
        if found {
            Ok(())
        } else {
            Err(ErrorKind::InvalidKey("Specified key does not exist".to_owned()))
        }
    }

    /// Delete the table entry named by the key, with its whole subtree.
    pub fn delete_table(&mut self, key: KeyType) -> (r: Result<(), ErrorKind>)
        requires
            old(self).wf(),
        ensures
            delete_table_post(*old(self), *final(self), key@, r),
    {
        if key.is_record() {
            return Err(ErrorKind::InvalidKey("Parameter must be a Table type".to_owned()));
        }
        let routes = match validate_key(key.get_key(), &self.name) {
            Ok(v) => v,
            Err(e) => {
                return Err(e);
            },
        };
        let mut root = Table::new();
        core::mem::swap(&mut self.root, &mut root);
        let (newroot, found) = remove_at_route(root, &routes, 0, EntryKind::Table);
        self.root = newroot;
        proof {
            assert(routes.deep_view().skip(0) =~= key_segments(key_name(key@)));
            crate::types::lemma_tv_remove_route_wf(
                old(self).root@,
                key_segments(key_name(key@)),
                EntryKind::Table,
            );
        }
        if found {
            Ok(())
        } else {
            Err(ErrorKind::InvalidKey("Specified key does not exist".to_owned()))
        }
    }
}

/// One request to the datastore worker, with the inputs it carries.
/// The reply travels back on a channel owned by the caller.
pub enum DatabaseAction {
    /// Set or update a key-value pair.
    SetKey(String, String),
    /// Get the value of a key.
    GetKey(String),
    /// Delete a pair.
    DeleteKey(String),
    /// Delete a whole table.
    DeleteTable(String),
    /// List keys below a route.
    ListKeys(String, ListType),
    /// Register a hook.
    HookSet(String, String),
    /// Look a hook prefix up.
    HookGet(String),
    /// Remove a hook.
    HookRemove(String, String),
    /// List hooks below a prefix.
    HookList(String),
    /// Resume logging.
    ResumeLog,
    /// Suspend logging.
    SuspendLog,
}

/// Reply of the datastore worker, by the shape of its payload.
pub enum DbReply {
    /// Outcome without a payload.
    Done(Result<(), ErrorKind>),
    /// A value out of the tree.
    Value(Result<ValueType, ErrorKind>),
    /// A listing of keys.
    KeyList(Result<Vec<KeyType>, ErrorKind>),
    /// One hook prefix with its links.
    HookInfo(Result<(String, Vec<String>), ErrorKind>),
    /// Hook prefixes with their links.
    HookMap(Result<Vec<(String, Vec<String>)>, ErrorKind>),
}

/// What the worker is to do next for a request: reply at once, round-trip
/// to the hook manager or the logger first, or nothing at all.
pub enum DbStep {
    /// Send this reply to the caller.
    Reply(DbReply),
    /// Forward to the hook manager, then finish with `finish_hook`.
    Hook(HookManagerAction),
    /// Forward to the logger, then finish with `finish_log_control`.
    Logger(LoggerAction),
    /// No reply is owed; the request is dropped.
    Silent,
}

/// Next step and log record of one worker step.
pub struct Outcome {
    /// What to do towards the caller.
    pub step: DbStep,
    /// Record to hand to the logger, fire-and-forget.
    pub log: Option<LogItem>,
}

impl Database {
    /// One worker step: apply a request to the tree, and say what to
    /// reply, what to log, and what to forward. Hook requests are
    /// answered as inactive when no hook manager is attached, and
    /// otherwise handed over verbatim; log control is handed to the
    /// logger when one is attached and dropped silently otherwise. A
    /// data mutation does not itself announce hooks: announcing is the
    /// hook manager's `Send` action, issued explicitly.
    pub fn execute(&mut self, action: DatabaseAction) -> (o: Outcome)
        requires
            old(self).wf(),
        ensures
            final(self).wf(),
            db_frame(*old(self), *final(self)),
            match action {
                DatabaseAction::SetKey(k, v) => {
                    &&& o.step matches DbStep::Reply(DbReply::Done(r)) && insert_post(
                        *old(self),
                        *final(self),
                        KeyView::Record(k@),
                        ValueView::Record(v@),
                        r,
                    ) && (if r is Ok && old(self).logger_attached {
                        o.log matches Some(LogItem::SetKey(k2, v2)) && k2@ == k@ && v2@ == v@
                    } else {
                        o.log is None
                    })
                },
                DatabaseAction::GetKey(k) => {
                    &&& final(self).root@ == old(self).root@
                    &&& o.step matches DbStep::Reply(DbReply::Value(r)) && get_post(
                        *final(self),
                        KeyView::Record(k@),
                        r,
                    ) && (if r is Ok && old(self).logger_attached {
                        o.log matches Some(LogItem::GetKey(k2)) && k2@ == k@
                    } else {
                        o.log is None
                    })
                },
                DatabaseAction::DeleteKey(k) => {
                    &&& o.step matches DbStep::Reply(DbReply::Done(r)) && delete_key_post(
                        *old(self),
                        *final(self),
                        KeyView::Record(k@),
                        r,
                    ) && (if r is Ok && old(self).logger_attached {
                        o.log matches Some(LogItem::RemKey(k2)) && k2@ == k@
                    } else {
                        o.log is None
                    })
                },
                DatabaseAction::DeleteTable(k) => {
                    &&& o.step matches DbStep::Reply(DbReply::Done(r)) && delete_table_post(
                        *old(self),
                        *final(self),
                        KeyView::Table(k@),
                        r,
                    ) && (if r is Ok && old(self).logger_attached {
                        o.log matches Some(LogItem::RemPath(k2)) && k2@ == k@
                    } else {
                        o.log is None
                    })
                },
                DatabaseAction::ListKeys(k, level) => {
                    &&& final(self).root@ == old(self).root@
                    &&& o.step matches DbStep::Reply(DbReply::KeyList(r)) && list_post(
                        *final(self),
                        KeyView::Record(k@),
                        level,
                        r,
                    ) && (if r is Ok && old(self).logger_attached {
                        o.log matches Some(LogItem::ListKeys(k2)) && k2@ == k@
                    } else {
                        o.log is None
                    })
                },
                DatabaseAction::HookSet(p, l) => {
                    &&& final(self).root@ == old(self).root@
                    &&& o.log is None
                    &&& if old(self).hook_attached {
                        o.step matches DbStep::Hook(HookManagerAction::Add(p2, l2)) && p2@ == p@
                            && l2@ == l@
                    } else {
                        o.step matches DbStep::Reply(DbReply::Done(r)) && r matches Err(
                            ErrorKind::InactiveHookManager,
                        )
                    }
                },
                DatabaseAction::HookGet(p) => {
                    &&& final(self).root@ == old(self).root@
                    &&& o.log is None
                    &&& if old(self).hook_attached {
                        o.step matches DbStep::Hook(HookManagerAction::Get(p2)) && p2@ == p@
                    } else {
                        o.step matches DbStep::Reply(DbReply::HookInfo(r)) && r matches Err(
                            ErrorKind::InactiveHookManager,
                        )
                    }
                },
                DatabaseAction::HookRemove(p, l) => {
                    &&& final(self).root@ == old(self).root@
                    &&& o.log is None
                    &&& if old(self).hook_attached {
                        o.step matches DbStep::Hook(HookManagerAction::Remove(p2, l2)) && p2@ == p@
                            && l2@ == l@
                    } else {
                        o.step matches DbStep::Reply(DbReply::Done(r)) && r matches Err(
                            ErrorKind::InactiveHookManager,
                        )
                    }
                },
                DatabaseAction::HookList(p) => {
                    &&& final(self).root@ == old(self).root@
                    &&& o.log is None
                    &&& if old(self).hook_attached {
                        o.step matches DbStep::Hook(HookManagerAction::List(p2)) && p2@ == p@
                    } else {
                        o.step matches DbStep::Reply(DbReply::HookMap(r)) && r matches Err(
                            ErrorKind::InactiveHookManager,
                        )
                    }
                },
                DatabaseAction::ResumeLog => {
                    &&& final(self).root@ == old(self).root@
                    &&& o.log is None
                    &&& if old(self).logger_attached {
                        o.step matches DbStep::Logger(LoggerAction::Resume)
                    } else {
                        o.step is Silent
                    }
                },
                DatabaseAction::SuspendLog => {
                    &&& final(self).root@ == old(self).root@
                    &&& o.log is None
                    &&& if old(self).logger_attached {
                        o.step matches DbStep::Logger(LoggerAction::Suspend)
                    } else {
                        o.step is Silent
                    }
                },
            },
    {
        match action {
            DatabaseAction::SetKey(key, value) => {
                let log_key = key.clone();
                let log_value = value.clone();
                let r = self.insert(
                    KeyType::Record(key),
                    ValueType::RecordPointer(value),
                );
                let log = if r.is_ok() && self.logger_attached {
                    Some(LogItem::SetKey(log_key, log_value))
                } else {
                    None
                };
                Outcome { step: DbStep::Reply(DbReply::Done(r)), log }
            },
            DatabaseAction::GetKey(key) => {
                let log_key = key.clone();
                let r = self.get(KeyType::Record(key));
                let log = if r.is_ok() && self.logger_attached {
                    Some(LogItem::GetKey(log_key))
                } else {
                    None
                };
                Outcome { step: DbStep::Reply(DbReply::Value(r)), log }
            },
            DatabaseAction::DeleteKey(key) => {
                let log_key = key.clone();
                let r = self.delete_key(KeyType::Record(key));
                let log = if r.is_ok() && self.logger_attached {
                    Some(LogItem::RemKey(log_key))
                } else {
                    None
                };
                Outcome { step: DbStep::Reply(DbReply::Done(r)), log }
            },
            DatabaseAction::DeleteTable(key) => {
                let log_key = key.clone();
                let r = self.delete_table(KeyType::Table(key));
                let log = if r.is_ok() && self.logger_attached {
                    Some(LogItem::RemPath(log_key))
                } else {
                    None
                };
                Outcome { step: DbStep::Reply(DbReply::Done(r)), log }
            },
            DatabaseAction::ListKeys(key, level) => {
                let log_key = key.clone();
                let r = self.list_keys(KeyType::Record(key), level);
                let log = if r.is_ok() && self.logger_attached {
                    Some(LogItem::ListKeys(log_key))
                } else {
                    None
                };
                Outcome { step: DbStep::Reply(DbReply::KeyList(r)), log }
            },
            DatabaseAction::HookSet(prefix, link) => {
                if self.hook_attached {
                    Outcome {
                        step: DbStep::Hook(HookManagerAction::Add(prefix, link)),
                        log: None,
                    }
                } else {
                    Outcome {
                        step: DbStep::Reply(DbReply::Done(Err(ErrorKind::InactiveHookManager))),
                        log: None,
                    }
                }
            },
            DatabaseAction::HookGet(prefix) => {
                if self.hook_attached {
                    Outcome { step: DbStep::Hook(HookManagerAction::Get(prefix)), log: None }
                } else {
                    Outcome {
                        step: DbStep::Reply(
                            DbReply::HookInfo(Err(ErrorKind::InactiveHookManager)),
                        ),
                        log: None,
                    }
                }
            },
            DatabaseAction::HookRemove(prefix, link) => {
                if self.hook_attached {
                    Outcome {
                        step: DbStep::Hook(HookManagerAction::Remove(prefix, link)),
                        log: None,
                    }
                } else {
                    Outcome {
                        step: DbStep::Reply(DbReply::Done(Err(ErrorKind::InactiveHookManager))),
                        log: None,
                    }
                }
            },
            DatabaseAction::HookList(prefix) => {
                if self.hook_attached {
                    Outcome { step: DbStep::Hook(HookManagerAction::List(prefix)), log: None }
                } else {
                    Outcome {
                        step: DbStep::Reply(DbReply::HookMap(Err(ErrorKind::InactiveHookManager))),
                        log: None,
                    }
                }
            },
            DatabaseAction::ResumeLog => {
                if self.logger_attached {
                    Outcome { step: DbStep::Logger(LoggerAction::Resume), log: None }
                } else {
                    Outcome { step: DbStep::Silent, log: None }
                }
            },
            DatabaseAction::SuspendLog => {
                if self.logger_attached {
                    Outcome { step: DbStep::Logger(LoggerAction::Suspend), log: None }
                } else {
                    Outcome { step: DbStep::Silent, log: None }
                }
            },
        }
    }

    /// Translate the hook manager's answer (or its absence, on a failed
    /// receive) into the reply owed for a forwarded hook action, with
    /// the record to log on success.
    pub fn finish_hook(
        &self,
        action: &DatabaseAction,
        response: Option<crate::hook::HookManagerResponse>,
    ) -> (r: (DbReply, Option<LogItem>))
        requires
            action matches DatabaseAction::HookSet(_, _) || action matches DatabaseAction::HookGet(
                _,
            ) || action matches DatabaseAction::HookRemove(_, _)
                || action matches DatabaseAction::HookList(_),
        ensures
            match response {
                None => {
                    &&& r.1 is None
                    &&& match action {
                        DatabaseAction::HookGet(_) => r.0 matches DbReply::HookInfo(rr)
                            && rr matches Err(ErrorKind::InternalError(m)) && m@
                            == "Failed to receive from hook manager"@,
                        DatabaseAction::HookList(_) => r.0 matches DbReply::HookMap(rr)
                            && rr matches Err(ErrorKind::InternalError(m)) && m@
                            == "Failed to receive from hook manager"@,
                        _ => r.0 matches DbReply::Done(rr) && rr matches Err(
                            ErrorKind::InternalError(m),
                        ) && m@ == "Failed to receive from hook manager"@,
                    }
                },
                Some(resp) => match action {
                    DatabaseAction::HookSet(p, l) => {
                        if resp is Done {
                            &&& r.0 matches DbReply::Done(rr) && rr is Ok
                            &&& if self.logger_attached {
                                r.1 matches Some(LogItem::SetHook(p2, l2)) && p2@ == p@ && l2@
                                    == l@
                            } else {
                                r.1 is None
                            }
                        } else {
                            r.1 is None && (r.0 matches DbReply::Done(rr) && rr matches Err(
                                ErrorKind::InternalError(m),
                            ) && m@ == "Failed to add hook"@)
                        }
                    },
                    DatabaseAction::HookRemove(p, l) => {
                        if resp is Done {
                            &&& r.0 matches DbReply::Done(rr) && rr is Ok
                            &&& if self.logger_attached {
                                r.1 matches Some(LogItem::RemHook(p2, l2)) && p2@ == p@ && l2@
                                    == l@
                            } else {
                                r.1 is None
                            }
                        } else {
                            r.1 is None && (r.0 matches DbReply::Done(rr) && rr matches Err(
                                ErrorKind::InvalidKey(m),
                            ) && m@ == "Hook is not found"@)
                        }
                    },
                    DatabaseAction::HookGet(p) => match resp {
                        crate::hook::HookManagerResponse::Hook(p2, links) => {
                            &&& r.0 matches DbReply::HookInfo(rr) && rr matches Ok(pair)
                                && pair.0 == p2 && pair.1 == links
                            &&& if self.logger_attached {
                                r.1 matches Some(LogItem::GetHook(p3, l3)) && p3@ == p@ && l3@
                                    == Seq::<char>::empty()
                            } else {
                                r.1 is None
                            }
                        },
                        _ => r.1 is None && (r.0 matches DbReply::HookInfo(rr) && rr matches Err(
                            ErrorKind::InvalidKey(m),
                        ) && m@ == "Hook is not found"@),
                    },
                    DatabaseAction::HookList(p) => match resp {
                        crate::hook::HookManagerResponse::HookList(entries) => {
                            &&& r.0 matches DbReply::HookMap(rr) && rr matches Ok(es) && es
                                == entries
                            &&& if self.logger_attached {
                                r.1 matches Some(LogItem::ListHooks(p2)) && p2@ == p@
                            } else {
                                r.1 is None
                            }
                        },
                        _ => r.1 is None && (r.0 matches DbReply::HookMap(rr) && rr matches Err(
                            ErrorKind::InvalidKey(m),
                        ) && m@ == "Hook is not found"@),
                    },
                    _ => true,
                },
            },
    {
        match response {
            None => {
                let err = ErrorKind::InternalError(
                    "Failed to receive from hook manager".to_owned(),
                );
                let reply = match action {
                    DatabaseAction::HookGet(_) => DbReply::HookInfo(Err(err)),
                    DatabaseAction::HookList(_) => DbReply::HookMap(Err(err)),
                    _ => DbReply::Done(Err(err)),
                };
                (reply, None)
            },
            Some(resp) => match action {
                DatabaseAction::HookSet(p, l) => match resp {
                    crate::hook::HookManagerResponse::Done => {
                        let log = if self.logger_attached {
                            Some(LogItem::SetHook(p.clone(), l.clone()))
                        } else {
                            None
                        };
                        (DbReply::Done(Ok(())), log)
                    },
                    _ => (
                        DbReply::Done(
                            Err(ErrorKind::InternalError("Failed to add hook".to_owned())),
                        ),
                        None,
                    ),
                },
                DatabaseAction::HookRemove(p, l) => match resp {
                    crate::hook::HookManagerResponse::Done => {
                        let log = if self.logger_attached {
                            Some(LogItem::RemHook(p.clone(), l.clone()))
                        } else {
                            None
                        };
                        (DbReply::Done(Ok(())), log)
                    },
                    _ => (
                        DbReply::Done(Err(ErrorKind::InvalidKey("Hook is not found".to_owned()))),
                        None,
                    ),
                },
                DatabaseAction::HookGet(p) => match resp {
                    crate::hook::HookManagerResponse::Hook(p2, links) => {
                        let log = if self.logger_attached {
                            Some(LogItem::GetHook(p.clone(), String::new()))
                        } else {
                            None
                        };
                        (DbReply::HookInfo(Ok((p2, links))), log)
                    },
                    _ => (
                        DbReply::HookInfo(
                            Err(ErrorKind::InvalidKey("Hook is not found".to_owned())),
                        ),
                        None,
                    ),
                },
                DatabaseAction::HookList(p) => match resp {
                    crate::hook::HookManagerResponse::HookList(entries) => {
                        let log = if self.logger_attached {
                            Some(LogItem::ListHooks(p.clone()))
                        } else {
                            None
                        };
                        (DbReply::HookMap(Ok(entries)), log)
                    },
                    _ => (
                        DbReply::HookMap(Err(ErrorKind::InvalidKey("Hook is not found".to_owned()))),
                        None,
                    ),
                },
                _ => vstd::pervasive::unreached(),
            },
        }
    }
}

/// Translate the logger's answer to a resume or suspend request into
/// the reply owed to the caller; a failed receive carries its message.
pub fn finish_log_control(response: Result<LoggerResponse, String>) -> (r: Result<(), ErrorKind>)
    ensures
        match response {
            Ok(LoggerResponse::Done) => r is Ok,
            Ok(LoggerResponse::Failed(m)) => r matches Err(ErrorKind::LogError(m2)) && m2@ == m@,
            Err(m) => r matches Err(ErrorKind::LogError(m2)) && m2@ == m@,
        },
{
    match response {
        Ok(LoggerResponse::Done) => Ok(()),
        Ok(LoggerResponse::Failed(m)) => Err(ErrorKind::LogError(m)),
        Err(m) => Err(ErrorKind::LogError(m)),
    }
}

/// After a successful `insert` of a record, the key's route holds that
/// record, so a `get` of the same key name must return it.
pub proof fn lemma_set_then_get(
    pre: Database,
    post: Database,
    k: KeyView,
    sv: Seq<char>,
    r2: Result<ValueType, ErrorKind>,
)
    requires
        insert_post(pre, post, k, ValueView::Record(sv), Ok(())),
        get_post(post, KeyView::Record(key_name(k)), r2),
    ensures
        tv_entry_at(post.root@, key_segments(key_name(k)), EntryKind::Record) == Some(
            ValueView::Record(sv),
        ),
        r2 matches Ok(v) && v@ == ValueView::Record(sv),
{
    crate::types::lemma_tv_set_route_entry(pre.root@, key_segments(key_name(k)), sv);
    match r2 {
        Ok(_) => {},
        Err(e) => {
            assert(key_ok(key_name(k), post.name@));
        },
    }
}

/// Setting a key twice leaves the second value stored: an `insert`
/// determines the record regardless of what was there before.
pub proof fn lemma_overwrite(
    a: Database,
    b: Database,
    c: Database,
    k: KeyView,
    v1: Seq<char>,
    v2: Seq<char>,
)
    requires
        insert_post(a, b, k, ValueView::Record(v1), Ok(())),
        insert_post(b, c, k, ValueView::Record(v2), Ok(())),
    ensures
        tv_entry_at(c.root@, key_segments(key_name(k)), EntryKind::Record) == Some(
            ValueView::Record(v2),
        ),
{
    crate::types::lemma_tv_set_route_entry(b.root@, key_segments(key_name(k)), v2);
}

/// After a successful `delete_key`, the key's route holds no record, so
/// a `get` of the same key name must fail as not existing.
pub proof fn lemma_delete_then_get(
    pre: Database,
    post: Database,
    k: KeyView,
    r2: Result<ValueType, ErrorKind>,
)
    requires
        pre.wf(),
        delete_key_post(pre, post, k, Ok(())),
        get_post(post, KeyView::Record(key_name(k)), r2),
    ensures
        tv_entry_at(post.root@, key_segments(key_name(k)), EntryKind::Record) == None::<ValueView>,
        r2 matches Err(e) && (e matches ErrorKind::InvalidKey(m) && m@
            == "Specified key does not exist"@),
{
    crate::types::lemma_tv_remove_route_entry(
        pre.root@,
        key_segments(key_name(k)),
        EntryKind::Record,
    );
    match r2 {
        Ok(_) => {},
        Err(_) => {},
    }
}

/// After a successful `delete_table`, nothing remains anywhere below
/// the deleted route: every longer route holds no entry of any kind.
pub proof fn lemma_delete_table_subtree(
    pre: Database,
    post: Database,
    k: KeyView,
    longer: Seq<Seq<char>>,
    kind: EntryKind,
)
    requires
        pre.wf(),
        delete_table_post(pre, post, k, Ok(())),
        longer.len() > key_segments(key_name(k)).len(),
        longer.subrange(0, key_segments(key_name(k)).len() as int) == key_segments(key_name(k)),
    ensures
        tv_entry_at(post.root@, longer, kind) == None::<ValueView>,
{
    crate::types::lemma_tv_remove_table_subtree(
        pre.root@,
        key_segments(key_name(k)),
        longer,
        kind,
    );
}

/// A key that does not start with `/`, or whose first segment is not
/// the root's name, is not a valid key; every operation's contract then
/// forces an `InvalidKey` reply.
pub proof fn lemma_invalid_key_rejected(s: Seq<char>, root: Seq<char>)
    requires
        s.len() == 0 || s[0] != '/' || (key_segments(s).len() >= 1 && key_segments(s)[0] != root),
    ensures
        !key_ok(s, root),
        forall|e: ErrorKind| key_error_for(s, root, e) ==> e is InvalidKey,
{
}

/// Every key a listing returns lies strictly below the prefix it was
/// asked for: its name extends the prefix followed by a slash.
pub proof fn lemma_listing_below_prefix(
    tv: crate::types::TableView,
    prefix: Seq<char>,
    level: ListType,
    i: int,
)
    requires
        0 <= i < tv_listing(tv, prefix, level).len(),
    ensures
        (prefix + seq!['/']).is_prefix_of(key_name(tv_listing(tv, prefix, level)[i])),
        key_kind(tv_listing(tv, prefix, level)[i]) != EntryKind::Table,
    decreases tv,
{
    if tv.len() > 0 {
        let head = crate::types::entry_listing(tv[0], prefix, level);
        let tail = tv_listing(tv.drop_first(), prefix, level);
        if i < head.len() {
            match tv[0].0 {
                KeyView::Record(n) => {
                    assert(head[i] == KeyView::Record(crate::types::path_join(prefix, n)));
                    assert((prefix + seq!['/']).is_prefix_of(
                        crate::types::path_join(prefix, n),
                    )) by {
                        assert((crate::types::path_join(prefix, n)).subrange(
                            0,
                            prefix.len() as int + 1,
                        ) =~= prefix + seq!['/']);
                    }
                },
                KeyView::Queue(n) => {
                    assert(head[i] == KeyView::Queue(crate::types::path_join(prefix, n)));
                    assert((prefix + seq!['/']).is_prefix_of(
                        crate::types::path_join(prefix, n),
                    )) by {
                        assert((crate::types::path_join(prefix, n)).subrange(
                            0,
                            prefix.len() as int + 1,
                        ) =~= prefix + seq!['/']);
                    }
                },
                KeyView::Table(n) => {
                    if level == ListType::All {
                        match tv[0].1 {
                            ValueView::Table(s) => {
                                let sub_prefix = crate::types::path_join(prefix, n);
                                lemma_listing_below_prefix(s, sub_prefix, level, i);
                                let kn = key_name(tv_listing(s, sub_prefix, level)[i]);
                                assert((prefix + seq!['/']).is_prefix_of(kn)) by {
                                    assert((sub_prefix + seq!['/']).is_prefix_of(kn));
                                    assert(kn.subrange(0, prefix.len() as int + 1) =~= (sub_prefix
                                        + seq!['/']).subrange(0, prefix.len() as int + 1));
                                    assert((sub_prefix + seq!['/']).subrange(0, prefix.len() as int + 1)
                                        =~= prefix + seq!['/']);
                                }
                            },
                            _ => {},
                        }
                    }
                },
            }
        } else {
            lemma_listing_below_prefix(tv.drop_first(), prefix, level, i - head.len());
            assert((head + tail)[i] == tail[i - head.len()]);
        }
    }
}

/// The path named by walking a route of segments below a prefix.
pub open spec fn joined_path(prefix: Seq<char>, route: Seq<Seq<char>>) -> Seq<char>
    decreases route.len(),
{
    if route.len() == 0 {
        prefix
    } else {
        joined_path(crate::types::path_join(prefix, route[0]), route.drop_first())
    }
}

/// A lookup that succeeds hits some entry of the table.
proof fn lemma_tv_get_some_index(tv: crate::types::TableView, kind: EntryKind, name: Seq<char>)
    requires
        crate::types::tv_get(tv, kind, name) is Some,
    ensures
        exists|i: int|
            0 <= i < tv.len() && crate::types::entry_is(#[trigger] tv[i].0, kind, name),
    decreases tv,
{
    if tv.len() > 0 {
        if crate::types::entry_is(tv[0].0, kind, name) {
        } else {
            lemma_tv_get_some_index(tv.drop_first(), kind, name);
            let i0 = choose|i: int|
                0 <= i < tv.drop_first().len() && crate::types::entry_is(
                    #[trigger] tv.drop_first()[i].0,
                    kind,
                    name,
                );
            assert(tv[i0 + 1] == tv.drop_first()[i0]);
        }
    }
}

/// Every key a full listing returns names a stored entry of the same
/// tag: below the listed prefix there is a route of segments leading to
/// an entry of the key's kind, and the key's name is that route's path.
pub proof fn lemma_listing_names_entries(
    tv: crate::types::TableView,
    prefix: Seq<char>,
    i: int,
)
    requires
        crate::types::tv_wf(tv),
        0 <= i < tv_listing(tv, prefix, ListType::All).len(),
    ensures
        exists|r: Seq<Seq<char>>|
            {
                &&& r.len() >= 1
                &&& #[trigger] tv_entry_at(
                    tv,
                    r,
                    key_kind(tv_listing(tv, prefix, ListType::All)[i]),
                ) is Some
                &&& key_name(tv_listing(tv, prefix, ListType::All)[i]) == joined_path(prefix, r)
            },
    decreases tv,
{
    let level = ListType::All;
    let head = crate::types::entry_listing(tv[0], prefix, level);
    let tail = tv_listing(tv.drop_first(), prefix, level);
    let k = tv_listing(tv, prefix, level)[i];
    if i < head.len() {
        match tv[0].0 {
            KeyView::Record(n) => {
                let r = seq![n];
                assert(tv_entry_at(tv, r, EntryKind::Record) is Some) by {
                    assert(r.drop_last() =~= Seq::<Seq<char>>::empty());
                    assert(r.last() == n);
                    assert(crate::types::entry_is(tv[0].0, EntryKind::Record, n));
                }
                assert(joined_path(prefix, r) == crate::types::path_join(prefix, n)) by {
                    assert(r[0] == n);
                    assert(r.drop_first() =~= Seq::<Seq<char>>::empty());
                    assert(joined_path(crate::types::path_join(prefix, n), r.drop_first())
                        == crate::types::path_join(prefix, n));
                }
                assert(k == KeyView::Record(crate::types::path_join(prefix, n)));
            },
            KeyView::Queue(n) => {
                let r = seq![n];
                assert(tv_entry_at(tv, r, EntryKind::Queue) is Some) by {
                    assert(r.drop_last() =~= Seq::<Seq<char>>::empty());
                    assert(r.last() == n);
                    assert(crate::types::entry_is(tv[0].0, EntryKind::Queue, n));
                }
                assert(joined_path(prefix, r) == crate::types::path_join(prefix, n)) by {
                    assert(r[0] == n);
                    assert(r.drop_first() =~= Seq::<Seq<char>>::empty());
                    assert(joined_path(crate::types::path_join(prefix, n), r.drop_first())
                        == crate::types::path_join(prefix, n));
                }
                assert(k == KeyView::Queue(crate::types::path_join(prefix, n)));
            },
            KeyView::Table(n) => {
                match tv[0].1 {
                    ValueView::Table(s) => {
                        let sub_prefix = crate::types::path_join(prefix, n);
                        assert(crate::types::value_wf(tv[0].1)) by {
                            crate::types::lemma_children_wf_index(tv, 0);
                        }
                        lemma_listing_names_entries(s, sub_prefix, i);
                        let r0 = choose|r: Seq<Seq<char>>|
                            {
                                &&& r.len() >= 1
                                &&& #[trigger] tv_entry_at(
                                    s,
                                    r,
                                    key_kind(tv_listing(s, sub_prefix, level)[i]),
                                ) is Some
                                &&& key_name(tv_listing(s, sub_prefix, level)[i]) == joined_path(
                                    sub_prefix,
                                    r,
                                )
                            };
                        let r = seq![n] + r0;
                        assert(r[0] == n);
                        assert(r.drop_first() =~= r0);
                        assert(crate::types::tv_get(tv, EntryKind::Table, n) == Some(
                            ValueView::Table(s),
                        )) by {
                            assert(crate::types::entry_is(tv[0].0, EntryKind::Table, n));
                        }
                        crate::types::lemma_entry_at_step(tv, r, key_kind(k));
                        assert(tv_entry_at(tv, r, key_kind(k)) is Some);
                        assert(joined_path(prefix, r) == joined_path(sub_prefix, r0));
                        assert(key_name(k) == joined_path(prefix, r));
                    },
                    _ => {
                        assert(false);
                    },
                }
            },
        }
    } else {
        let tv2 = tv.drop_first();
        assert(crate::types::tv_wf(tv2)) by {
            assert(forall|j: int| 0 <= j < tv2.len() ==> tv2[j] == tv[j + 1]);
        }
        lemma_listing_names_entries(tv2, prefix, i - head.len());
        assert((head + tail)[i] == tail[i - head.len()]);
        let k2 = tail[i - head.len()];
        let r0 = choose|r: Seq<Seq<char>>|
            {
                &&& r.len() >= 1
                &&& #[trigger] tv_entry_at(tv2, r, key_kind(k2)) is Some
                &&& key_name(k2) == joined_path(prefix, r)
            };
        assert(tv_entry_at(tv, r0, key_kind(k2)) is Some) by {
            if r0.len() == 1 {
                assert(r0.drop_last() =~= Seq::<Seq<char>>::empty());
                assert(r0.last() == r0[0]);
                assert(crate::types::tv_get(tv2, key_kind(k2), r0[0]) is Some);
                lemma_tv_get_some_index(tv2, key_kind(k2), r0[0]);
                let w = choose|w: int|
                    0 <= w < tv2.len() && crate::types::entry_is(
                        #[trigger] tv2[w].0,
                        key_kind(k2),
                        r0[0],
                    );
                assert(tv2[w] == tv[w + 1]);
                assert(crate::enums::key_lt(tv[0].0, tv[w + 1].0));
                assert(!crate::types::entry_is(tv[0].0, key_kind(k2), r0[0])) by {
                    if crate::types::entry_is(tv[0].0, key_kind(k2), r0[0]) {
                        crate::types::lemma_entry_is_eq(tv[0].0, tv2[w].0);
                        crate::enums::lemma_key_lt_irreflexive(tv[0].0);
                    }
                }
            } else {
                crate::types::lemma_entry_at_step(tv2, r0, key_kind(k2));
                assert(crate::types::tv_get(tv2, EntryKind::Table, r0[0]) is Some);
                lemma_tv_get_some_index(tv2, EntryKind::Table, r0[0]);
                let w = choose|w: int|
                    0 <= w < tv2.len() && crate::types::entry_is(
                        #[trigger] tv2[w].0,
                        EntryKind::Table,
                        r0[0],
                    );
                assert(tv2[w] == tv[w + 1]);
                assert(crate::enums::key_lt(tv[0].0, tv[w + 1].0));
                assert(!crate::types::entry_is(tv[0].0, EntryKind::Table, r0[0])) by {
                    if crate::types::entry_is(tv[0].0, EntryKind::Table, r0[0]) {
                        crate::types::lemma_entry_is_eq(tv[0].0, tv2[w].0);
                        crate::enums::lemma_key_lt_irreflexive(tv[0].0);
                    }
                }
                crate::types::lemma_entry_at_step(tv, r0, key_kind(k2));
            }
        }
    }
}

} // verus!
