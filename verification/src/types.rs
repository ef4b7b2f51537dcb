//! The hierarchical table type of the datastore: values, nested tables,
//! their mathematical views, the well-formedness invariant, and the
//! specification-level operations on a single table that the tree
//! operations are built from.
use vstd::prelude::*;

use crate::enums::{key_before, key_kind, key_lt, key_name, EntryKind, KeyType, KeyView};

verus! {

/// Value stored under a key: a string record, a queue of strings, or a
/// nested table.
#[derive(Debug)]
pub enum ValueType {
    /// A nested table; belongs to `KeyType::Table`.
    TablePointer(Table),
    /// A string record; belongs to `KeyType::Record`.
    RecordPointer(String),
    /// A queue of strings; belongs to `KeyType::Queue`.
    QueuePointer(Vec<String>),
}

/// One table of the tree: a sequence of key-value entries kept sorted
/// by `key_lt` on the keys.
#[derive(Debug)]
pub struct Table {
    pub entries: Vec<(KeyType, ValueType)>,
}

/// Mathematical view of a `ValueType`.
pub enum ValueView {
    Table(Seq<(KeyView, ValueView)>),
    Record(Seq<char>),
    Queue(Seq<Seq<char>>),
}

/// Mathematical view of a table: the sequence of viewed entries.
pub type TableView = Seq<(KeyView, ValueView)>;

/// View of a value, recursively through nested tables.
pub open spec fn value_view(v: ValueType) -> ValueView
    decreases v,
{
    match v {
        ValueType::TablePointer(t) => ValueView::Table(table_view(t)),
        ValueType::RecordPointer(s) => ValueView::Record(s@),
        ValueType::QueuePointer(q) => ValueView::Queue(q.deep_view()),
    }
}

/// View of a table.
pub open spec fn table_view(t: Table) -> TableView
    decreases t,
{
    entries_view(t.entries@)
}

/// View of a sequence of entries.
pub open spec fn entries_view(s: Seq<(KeyType, ValueType)>) -> TableView
    decreases s,
{
    if s.len() == 0 {
        Seq::empty()
    } else {
        seq![(s[0].0@, value_view(s[0].1))] + entries_view(s.drop_first())
    }
}

impl View for ValueType {
    type V = ValueView;

    open spec fn view(&self) -> ValueView {
        value_view(*self)
    }
}

impl View for Table {
    type V = TableView;

    open spec fn view(&self) -> TableView {
        table_view(*self)
    }
}

/// The viewed entries are as many as the entries.
pub proof fn lemma_entries_view_len(s: Seq<(KeyType, ValueType)>)
    ensures
        entries_view(s).len() == s.len(),
    decreases s,
{
    if s.len() > 0 {
        lemma_entries_view_len(s.drop_first());
    }
}

/// Each viewed entry is the view of the entry in place.
pub proof fn lemma_entries_view_index(s: Seq<(KeyType, ValueType)>, i: int)
    requires
        0 <= i < s.len(),
    ensures
        entries_view(s).len() == s.len(),
        entries_view(s)[i] == (s[i].0@, value_view(s[i].1)),
    decreases s,
{
    lemma_entries_view_len(s);
    if i > 0 {
        lemma_entries_view_index(s.drop_first(), i - 1);
    }
}

/// Kind of entry a value belongs to.
pub open spec fn view_kind(v: ValueView) -> EntryKind {
    match v {
        ValueView::Table(_) => EntryKind::Table,
        ValueView::Record(_) => EntryKind::Record,
        ValueView::Queue(_) => EntryKind::Queue,
    }
}

/// The entries are strictly ordered by `key_lt`; in particular no two
/// entries share both kind and name.
pub open spec fn tv_sorted(tv: TableView) -> bool {
    forall|i: int, j: int| 0 <= i < j < tv.len() ==> key_lt(#[trigger] tv[i].0, #[trigger] tv[j].0)
}

/// Every value's kind matches its key's kind.
pub open spec fn tv_kinds_ok(tv: TableView) -> bool {
    forall|i: int| 0 <= i < tv.len() ==> view_kind(#[trigger] tv[i].1) == key_kind(tv[i].0)
}

/// Every nested table is itself well formed.
pub open spec fn tv_children_wf(tv: TableView) -> bool
    decreases tv,
{
    tv.len() == 0 || (value_wf(tv[0].1) && tv_children_wf(tv.drop_first()))
}

/// Well-formedness of a value: nested tables are well formed.
pub open spec fn value_wf(v: ValueView) -> bool
    decreases v,
{
    match v {
        ValueView::Table(tv) => tv_sorted(tv) && tv_kinds_ok(tv) && tv_children_wf(tv),
        _ => true,
    }
}

/// Well-formedness of a table: sorted, kinds consistent, children well
/// formed.
pub open spec fn tv_wf(tv: TableView) -> bool {
    tv_sorted(tv) && tv_kinds_ok(tv) && tv_children_wf(tv)
}

/// Out of a well-formed table, every entry's value is well formed.
pub proof fn lemma_children_wf_index(tv: TableView, i: int)
    requires
        tv_children_wf(tv),
        0 <= i < tv.len(),
    ensures
        value_wf(tv[i].1),
    decreases tv,
{
    if i > 0 {
        lemma_children_wf_index(tv.drop_first(), i - 1);
    }
}

/// Whether a key has the given kind and name.
pub open spec fn entry_is(k: KeyView, kind: EntryKind, name: Seq<char>) -> bool {
    key_kind(k) == kind && key_name(k) == name
}

/// A key is determined by its kind and name.
pub proof fn lemma_entry_is_eq(h: KeyView, k: KeyView)
    requires
        entry_is(h, key_kind(k), key_name(k)),
    ensures
        h == k,
{
}

/// Value stored in a table under the given kind and name, if any.
pub open spec fn tv_get(tv: TableView, kind: EntryKind, name: Seq<char>) -> Option<ValueView>
    decreases tv,
{
    if tv.len() == 0 {
        None
    } else if entry_is(tv[0].0, kind, name) {
        Some(tv[0].1)
    } else {
        tv_get(tv.drop_first(), kind, name)
    }
}

/// Table with the value under key `k` inserted or overwritten, keeping
/// the sorted order.
pub open spec fn tv_put(tv: TableView, k: KeyView, v: ValueView) -> TableView
    decreases tv,
{
    if tv.len() == 0 {
        seq![(k, v)]
    } else if key_lt(k, tv[0].0) {
        seq![(k, v)] + tv
    } else if k == tv[0].0 {
        seq![(k, v)] + tv.drop_first()
    } else {
        seq![tv[0]] + tv_put(tv.drop_first(), k, v)
    }
}

/// Table with the entry of the given kind and name removed, if present.
pub open spec fn tv_remove(tv: TableView, kind: EntryKind, name: Seq<char>) -> TableView
    decreases tv,
{
    if tv.len() == 0 {
        tv
    } else if entry_is(tv[0].0, kind, name) {
        tv.drop_first()
    } else {
        seq![tv[0]] + tv_remove(tv.drop_first(), kind, name)
    }
}

/// A table without a matching entry holds nothing under that key.
pub proof fn lemma_tv_get_none(tv: TableView, kind: EntryKind, name: Seq<char>)
    requires
        forall|i: int| 0 <= i < tv.len() ==> !entry_is(#[trigger] tv[i].0, kind, name),
    ensures
        tv_get(tv, kind, name) == None::<ValueView>,
    decreases tv,
{
    if tv.len() > 0 {
        assert(forall|i: int|
            0 <= i < tv.drop_first().len() ==> tv.drop_first()[i] == tv[i + 1]);
        lemma_tv_get_none(tv.drop_first(), kind, name);
    }
}

/// After `tv_put`, looking the key up yields the inserted value.
pub proof fn lemma_tv_put_get_same(tv: TableView, k: KeyView, v: ValueView)
    ensures
        tv_get(tv_put(tv, k, v), key_kind(k), key_name(k)) == Some(v),
    decreases tv,
{
    if tv.len() > 0 && !key_lt(k, tv[0].0) && k != tv[0].0 {
        if entry_is(tv[0].0, key_kind(k), key_name(k)) {
            lemma_entry_is_eq(tv[0].0, k);
        }
        lemma_tv_put_get_same(tv.drop_first(), k, v);
        assert((seq![tv[0]] + tv_put(tv.drop_first(), k, v)).drop_first() =~= tv_put(
            tv.drop_first(),
            k,
            v,
        ));
    }
}

/// `tv_put` leaves every other key unchanged.
pub proof fn lemma_tv_put_get_other(
    tv: TableView,
    k: KeyView,
    v: ValueView,
    kind: EntryKind,
    name: Seq<char>,
)
    requires
        !entry_is(k, kind, name),
    ensures
        tv_get(tv_put(tv, k, v), kind, name) == tv_get(tv, kind, name),
    decreases tv,
{
    if tv.len() == 0 {
        let res = seq![(k, v)];
        assert(res[0] == (k, v));
        assert(res.drop_first() =~= Seq::<(KeyView, ValueView)>::empty());
        assert(tv_get(res, kind, name) == tv_get(res.drop_first(), kind, name));
        assert(tv_get(res.drop_first(), kind, name) == None::<ValueView>);
    } else if key_lt(k, tv[0].0) {
        let res = seq![(k, v)] + tv;
        assert(res[0] == (k, v));
        assert(res.drop_first() =~= tv);
        assert(tv_get(res, kind, name) == tv_get(tv, kind, name));
    } else if k == tv[0].0 {
        let res = seq![(k, v)] + tv.drop_first();
        assert(res[0] == (k, v));
        assert(res.drop_first() =~= tv.drop_first());
        assert(tv_get(res, kind, name) == tv_get(tv.drop_first(), kind, name));
        assert(!entry_is(tv[0].0, kind, name));
        assert(tv_get(tv, kind, name) == tv_get(tv.drop_first(), kind, name));
    } else {
        lemma_tv_put_get_other(tv.drop_first(), k, v, kind, name);
        let res = seq![tv[0]] + tv_put(tv.drop_first(), k, v);
        assert(res[0] == tv[0]);
        assert(res.drop_first() =~= tv_put(tv.drop_first(), k, v));
        assert(tv_get(res, kind, name) == tv_get(tv, kind, name));
    }
}

/// A strict lower bound on a table stays a strict lower bound after
/// `tv_put` of a key above the bound.
pub proof fn lemma_tv_put_lower_bound(tv: TableView, k: KeyView, v: ValueView, b: KeyView)
    requires
        key_lt(b, k),
        forall|i: int| 0 <= i < tv.len() ==> key_lt(b, #[trigger] tv[i].0),
    ensures
        forall|i: int|
            0 <= i < tv_put(tv, k, v).len() ==> key_lt(b, #[trigger] tv_put(tv, k, v)[i].0),
    decreases tv,
{
    if tv.len() == 0 {
    } else if key_lt(k, tv[0].0) {
    } else if k == tv[0].0 {
    } else {
        assert(forall|i: int|
            0 <= i < tv.drop_first().len() ==> key_lt(b, #[trigger] tv.drop_first()[i].0));
        lemma_tv_put_lower_bound(tv.drop_first(), k, v, b);
        assert(forall|i: int|
            1 <= i < tv_put(tv, k, v).len() ==> tv_put(tv, k, v)[i] == tv_put(
                tv.drop_first(),
                k,
                v,
            )[i - 1]);
    }
}

/// `tv_put` keeps the table sorted.
pub proof fn lemma_tv_put_sorted(tv: TableView, k: KeyView, v: ValueView)
    requires
        tv_sorted(tv),
    ensures
        tv_sorted(tv_put(tv, k, v)),
    decreases tv,
{
    if tv.len() == 0 {
    } else if key_lt(k, tv[0].0) {
        assert forall|i: int, j: int|
            0 <= i < j < tv_put(tv, k, v).len() implies key_lt(
            tv_put(tv, k, v)[i].0,
            tv_put(tv, k, v)[j].0,
        ) by {
            if i == 0 {
                if j > 1 {
                    crate::enums::lemma_key_lt_transitive(k, tv[0].0, tv[j - 1].0);
                }
            }
        }
    } else if k == tv[0].0 {
        assert forall|i: int, j: int|
            0 <= i < j < tv_put(tv, k, v).len() implies key_lt(
            tv_put(tv, k, v)[i].0,
            tv_put(tv, k, v)[j].0,
        ) by {}
    } else {
        if !key_lt(tv[0].0, k) {
            crate::enums::lemma_key_lt_connected(k, tv[0].0);
        }
        assert(key_lt(tv[0].0, k));
        let tail = tv.drop_first();
        assert(tv_sorted(tail)) by {
            assert(forall|i: int| 0 <= i < tail.len() ==> tail[i] == tv[i + 1]);
        }
        lemma_tv_put_sorted(tail, k, v);
        assert(forall|i: int| 0 <= i < tail.len() ==> key_lt(tv[0].0, #[trigger] tail[i].0));
        lemma_tv_put_lower_bound(tail, k, v, tv[0].0);
        let res = seq![tv[0]] + tv_put(tail, k, v);
        assert forall|i: int, j: int| 0 <= i < j < res.len() implies key_lt(
            res[i].0,
            res[j].0,
        ) by {
            if i > 0 {
                assert(res[i] == tv_put(tail, k, v)[i - 1]);
                assert(res[j] == tv_put(tail, k, v)[j - 1]);
            } else {
                assert(res[j] == tv_put(tail, k, v)[j - 1]);
            }
        }
    }
}

/// `tv_put` keeps the kinds consistent when the new value matches its
/// key's kind.
pub proof fn lemma_tv_put_kinds_ok(tv: TableView, k: KeyView, v: ValueView)
    requires
        tv_kinds_ok(tv),
        view_kind(v) == key_kind(k),
    ensures
        tv_kinds_ok(tv_put(tv, k, v)),
    decreases tv,
{
    if tv.len() == 0 {
    } else if key_lt(k, tv[0].0) {
    } else if k == tv[0].0 {
    } else {
        let tail = tv.drop_first();
        assert(tv_kinds_ok(tail)) by {
            assert(forall|i: int| 0 <= i < tail.len() ==> tail[i] == tv[i + 1]);
        }
        lemma_tv_put_kinds_ok(tail, k, v);
        assert(forall|i: int|
            1 <= i < tv_put(tv, k, v).len() ==> tv_put(tv, k, v)[i] == tv_put(tail, k, v)[i - 1]);
    }
}

/// `tv_put` keeps the children well formed when the new value is.
pub proof fn lemma_tv_put_children_wf(tv: TableView, k: KeyView, v: ValueView)
    requires
        tv_children_wf(tv),
        value_wf(v),
    ensures
        tv_children_wf(tv_put(tv, k, v)),
    decreases tv,
{
    if tv.len() == 0 {
        let res = seq![(k, v)];
        assert(res[0] == (k, v));
        assert(res.drop_first() =~= Seq::<(KeyView, ValueView)>::empty());
        assert(tv_children_wf(res.drop_first()));
        assert(tv_children_wf(res));
    } else if key_lt(k, tv[0].0) {
        let res = seq![(k, v)] + tv;
        assert(res[0] == (k, v));
        assert(res.drop_first() =~= tv);
        assert(tv_children_wf(res));
    } else if k == tv[0].0 {
        let res = seq![(k, v)] + tv.drop_first();
        assert(res[0] == (k, v));
        assert(res.drop_first() =~= tv.drop_first());
        assert(tv_children_wf(tv.drop_first()));
        assert(tv_children_wf(res));
    } else {
        lemma_tv_put_children_wf(tv.drop_first(), k, v);
        let res = seq![tv[0]] + tv_put(tv.drop_first(), k, v);
        assert(res.drop_first() =~= tv_put(tv.drop_first(), k, v));
        assert(res[0] == tv[0]);
        assert(value_wf(res[0].1));
    }
}

/// `tv_put` preserves well-formedness.
pub proof fn lemma_tv_put_wf(tv: TableView, k: KeyView, v: ValueView)
    requires
        tv_wf(tv),
        value_wf(v),
        view_kind(v) == key_kind(k),
    ensures
        tv_wf(tv_put(tv, k, v)),
{
    lemma_tv_put_sorted(tv, k, v);
    lemma_tv_put_kinds_ok(tv, k, v);
    lemma_tv_put_children_wf(tv, k, v);
}

/// In a sorted table, removing a key removes it entirely.
pub proof fn lemma_tv_remove_get_same(tv: TableView, kind: EntryKind, name: Seq<char>)
    requires
        tv_sorted(tv),
    ensures
        tv_get(tv_remove(tv, kind, name), kind, name) == None::<ValueView>,
    decreases tv,
{
    if tv.len() == 0 {
    } else if entry_is(tv[0].0, kind, name) {
        let tail = tv.drop_first();
        assert forall|i: int| 0 <= i < tail.len() implies !entry_is(
            #[trigger] tail[i].0,
            kind,
            name,
        ) by {
            assert(tail[i] == tv[i + 1]);
            assert(key_lt(tv[0].0, tv[i + 1].0));
            if entry_is(tail[i].0, kind, name) {
                lemma_entry_is_eq(tail[i].0, tv[0].0);
                crate::enums::lemma_key_lt_irreflexive(tv[0].0);
            }
        }
        lemma_tv_get_none(tail, kind, name);
    } else {
        let tail = tv.drop_first();
        assert(tv_sorted(tail)) by {
            assert(forall|i: int| 0 <= i < tail.len() ==> tail[i] == tv[i + 1]);
        }
        lemma_tv_remove_get_same(tail, kind, name);
        assert((seq![tv[0]] + tv_remove(tail, kind, name)).drop_first() =~= tv_remove(
            tail,
            kind,
            name,
        ));
    }
}

/// `tv_remove` leaves every other key unchanged.
pub proof fn lemma_tv_remove_get_other(
    tv: TableView,
    kind: EntryKind,
    name: Seq<char>,
    kind2: EntryKind,
    name2: Seq<char>,
)
    requires
        kind != kind2 || name != name2,
    ensures
        tv_get(tv_remove(tv, kind, name), kind2, name2) == tv_get(tv, kind2, name2),
    decreases tv,
{
    if tv.len() == 0 {
    } else if entry_is(tv[0].0, kind, name) {
    } else {
        lemma_tv_remove_get_other(tv.drop_first(), kind, name, kind2, name2);
        assert((seq![tv[0]] + tv_remove(tv.drop_first(), kind, name)).drop_first() =~= tv_remove(
            tv.drop_first(),
            kind,
            name,
        ));
    }
}

/// The entries that survive `tv_remove` all come from the original
/// table.
pub proof fn lemma_tv_remove_frame(tv: TableView, kind: EntryKind, name: Seq<char>)
    ensures
        forall|i: int|
            0 <= i < tv_remove(tv, kind, name).len() ==> exists|j: int|
                0 <= j < tv.len() && #[trigger] tv_remove(tv, kind, name)[i] == tv[j],
    decreases tv,
{
    if tv.len() == 0 {
    } else if entry_is(tv[0].0, kind, name) {
        assert forall|i: int| 0 <= i < tv_remove(tv, kind, name).len() implies exists|j: int|
            0 <= j < tv.len() && #[trigger] tv_remove(tv, kind, name)[i] == tv[j] by {
            assert(tv_remove(tv, kind, name)[i] == tv[i + 1]);
        }
    } else {
        lemma_tv_remove_frame(tv.drop_first(), kind, name);
        let res = seq![tv[0]] + tv_remove(tv.drop_first(), kind, name);
        assert forall|i: int| 0 <= i < res.len() implies exists|j: int|
            0 <= j < tv.len() && #[trigger] res[i] == tv[j] by {
            if i == 0 {
                assert(res[0] == tv[0]);
            } else {
                assert(res[i] == tv_remove(tv.drop_first(), kind, name)[i - 1]);
                let j0 = choose|j0: int|
                    0 <= j0 < tv.drop_first().len() && tv_remove(tv.drop_first(), kind, name)[i - 1]
                        == tv.drop_first()[j0];
                assert(tv.drop_first()[j0] == tv[j0 + 1]);
            }
        }
    }
}

/// `tv_remove` preserves well-formedness.
pub proof fn lemma_tv_remove_wf(tv: TableView, kind: EntryKind, name: Seq<char>)
    requires
        tv_wf(tv),
    ensures
        tv_wf(tv_remove(tv, kind, name)),
    decreases tv,
{
    if tv.len() == 0 {
    } else if entry_is(tv[0].0, kind, name) {
        let tail = tv.drop_first();
        assert(forall|i: int| 0 <= i < tail.len() ==> tail[i] == tv[i + 1]);
        assert(tv_children_wf(tail));
    } else {
        let tail = tv.drop_first();
        assert(forall|i: int| 0 <= i < tail.len() ==> tail[i] == tv[i + 1]);
        assert(tv_wf(tail));
        lemma_tv_remove_wf(tail, kind, name);
        lemma_tv_remove_frame(tail, kind, name);
        let res = seq![tv[0]] + tv_remove(tail, kind, name);
        assert(res.drop_first() =~= tv_remove(tail, kind, name));
        assert forall|i: int, j: int| 0 <= i < j < res.len() implies key_lt(
            res[i].0,
            res[j].0,
        ) by {
            if i > 0 {
                assert(res[i] == tv_remove(tail, kind, name)[i - 1]);
                assert(res[j] == tv_remove(tail, kind, name)[j - 1]);
            } else {
                assert(res[j] == tv_remove(tail, kind, name)[j - 1]);
                let j0 = choose|j0: int|
                    0 <= j0 < tail.len() && tv_remove(tail, kind, name)[j - 1] == tail[j0];
                assert(key_lt(tv[0].0, tail[j0].0));
            }
        }
        assert(tv_kinds_ok(res)) by {
            assert(forall|i: int|
                1 <= i < res.len() ==> res[i] == tv_remove(tail, kind, name)[i - 1]);
        }
        assert(tv_children_wf(res));
    }
}

/// Subtable reached by walking every segment of `route` through
/// nested tables.
pub open spec fn tv_sub(tv: TableView, route: Seq<Seq<char>>) -> Option<TableView>
    decreases route.len(),
{
    if route.len() == 0 {
        Some(tv)
    } else {
        match tv_get(tv, EntryKind::Table, route[0]) {
            Some(ValueView::Table(s)) => tv_sub(s, route.drop_first()),
            _ => None,
        }
    }
}

/// Entry of the given kind reached by walking all but the last segment
/// of `route` through tables and looking the last segment up.
pub open spec fn tv_entry_at(tv: TableView, route: Seq<Seq<char>>, kind: EntryKind) -> Option<
    ValueView,
> {
    if route.len() == 0 {
        None
    } else {
        match tv_sub(tv, route.drop_last()) {
            Some(p) => tv_get(p, kind, route.last()),
            None => None,
        }
    }
}

/// Table after storing the record `value` under `route`, creating the
/// intermediate tables on demand.
pub open spec fn tv_set_route(tv: TableView, route: Seq<Seq<char>>, value: Seq<char>) -> TableView
    decreases route.len(),
{
    if route.len() == 0 {
        tv
    } else if route.len() == 1 {
        tv_put(tv, KeyView::Record(route[0]), ValueView::Record(value))
    } else {
        let sub = match tv_get(tv, EntryKind::Table, route[0]) {
            Some(ValueView::Table(s)) => s,
            _ => Seq::empty(),
        };
        tv_put(
            tv,
            KeyView::Table(route[0]),
            ValueView::Table(tv_set_route(sub, route.drop_first(), value)),
        )
    }
}

/// Table after removing the entry of the given kind under `route`; the
/// table is unchanged where the route does not lead to such an entry.
pub open spec fn tv_remove_route(tv: TableView, route: Seq<Seq<char>>, kind: EntryKind) -> TableView
    decreases route.len(),
{
    if route.len() == 0 {
        tv
    } else if route.len() == 1 {
        tv_remove(tv, kind, route[0])
    } else {
        match tv_get(tv, EntryKind::Table, route[0]) {
            Some(ValueView::Table(s)) => tv_put(
                tv,
                KeyView::Table(route[0]),
                ValueView::Table(tv_remove_route(s, route.drop_first(), kind)),
            ),
            _ => tv,
        }
    }
}

/// A value found in a well-formed table is well formed and of its
/// key's kind.
pub proof fn lemma_tv_get_wf(tv: TableView, kind: EntryKind, name: Seq<char>, v: ValueView)
    requires
        tv_wf(tv),
        tv_get(tv, kind, name) == Some(v),
    ensures
        value_wf(v),
        view_kind(v) == kind,
    decreases tv,
{
    if tv.len() == 0 {
    } else if entry_is(tv[0].0, kind, name) {
        assert(value_wf(tv[0].1));
        assert(view_kind(tv[0].1) == key_kind(tv[0].0));
    } else {
        let tail = tv.drop_first();
        assert(forall|i: int| 0 <= i < tail.len() ==> tail[i] == tv[i + 1]);
        assert(tv_wf(tail));
        lemma_tv_get_wf(tail, kind, name, v);
    }
}

/// The empty table has no entry under any route.
pub proof fn lemma_entry_at_empty(route: Seq<Seq<char>>, kind: EntryKind)
    ensures
        tv_entry_at(Seq::empty(), route, kind) == None::<ValueView>,
{
    if route.len() == 1 {
        assert(route.drop_last() =~= Seq::<Seq<char>>::empty());
    } else if route.len() > 1 {
        assert(route.drop_last().len() >= 1);
    }
}

/// Walking an entry out of a route of two or more segments goes through
/// the table named by the first segment.
pub proof fn lemma_entry_at_step(tv: TableView, route: Seq<Seq<char>>, kind: EntryKind)
    requires
        route.len() >= 2,
    ensures
        tv_entry_at(tv, route, kind) == match tv_get(tv, EntryKind::Table, route[0]) {
            Some(ValueView::Table(s)) => tv_entry_at(s, route.drop_first(), kind),
            _ => None,
        },
{
    let parent = route.drop_last();
    assert(parent[0] == route[0]);
    assert(parent.drop_first() =~= route.drop_first().drop_last());
    assert(route.last() == route.drop_first().last());
}

/// `tv_sub` of a nonempty route is determined by the table entry at
/// that route.
pub proof fn lemma_sub_via_entry(tv: TableView, route: Seq<Seq<char>>)
    requires
        route.len() >= 1,
    ensures
        tv_sub(tv, route) == match tv_entry_at(tv, route, EntryKind::Table) {
            Some(ValueView::Table(s)) => Some(s),
            _ => None::<TableView>,
        },
    decreases route.len(),
{
    if route.len() == 1 {
        assert(route.drop_last() =~= Seq::<Seq<char>>::empty());
        assert(route.drop_first() =~= Seq::<Seq<char>>::empty());
        assert(route.last() == route[0]);
        match tv_get(tv, EntryKind::Table, route[0]) {
            Some(ValueView::Table(s)) => {
                assert(tv_sub(s, route.drop_first()) == Some(s));
            },
            _ => {},
        }
    } else {
        lemma_entry_at_step(tv, route, EntryKind::Table);
        match tv_get(tv, EntryKind::Table, route[0]) {
            Some(ValueView::Table(s)) => {
                lemma_sub_via_entry(s, route.drop_first());
            },
            _ => {},
        }
    }
}

/// Below a route that leads nowhere, no entry exists.
pub proof fn lemma_entry_at_through_missing(
    tv: TableView,
    route: Seq<Seq<char>>,
    longer: Seq<Seq<char>>,
    kind: EntryKind,
)
    requires
        route.len() >= 1,
        tv_sub(tv, route) == None::<TableView>,
        longer.len() > route.len(),
        longer.subrange(0, route.len() as int) == route,
    ensures
        tv_entry_at(tv, longer, kind) == None::<ValueView>,
    decreases route.len(),
{
    assert(longer[0] == route[0]);
    assert(longer.len() >= 2);
    lemma_entry_at_step(tv, longer, kind);
    match tv_get(tv, EntryKind::Table, route[0]) {
        Some(ValueView::Table(s)) => {
            if route.len() == 1 {
                assert(tv_sub(s, route.drop_first()) == None::<TableView>);
                assert(route.drop_first() =~= Seq::<Seq<char>>::empty());
                assert(false);
            } else {
                assert(longer.drop_first().subrange(0, route.drop_first().len() as int)
                    =~= route.drop_first()) by {
                    assert(forall|i: int|
                        0 <= i < route.len() - 1 ==> longer.drop_first()[i] == longer[i + 1]);
                }
                lemma_entry_at_through_missing(s, route.drop_first(), longer.drop_first(), kind);
            }
        },
        _ => {},
    }
}

/// Storing a record keeps the tree well formed.
pub proof fn lemma_tv_set_route_wf(tv: TableView, route: Seq<Seq<char>>, value: Seq<char>)
    requires
        tv_wf(tv),
        route.len() >= 1,
    ensures
        tv_wf(tv_set_route(tv, route, value)),
    decreases route.len(),
{
    if route.len() == 1 {
        lemma_tv_put_wf(tv, KeyView::Record(route[0]), ValueView::Record(value));
    } else {
        let sub = match tv_get(tv, EntryKind::Table, route[0]) {
            Some(ValueView::Table(s)) => s,
            _ => Seq::empty(),
        };
        assert(tv_wf(sub)) by {
            match tv_get(tv, EntryKind::Table, route[0]) {
                Some(v) => {
                    lemma_tv_get_wf(tv, EntryKind::Table, route[0], v);
                },
                None => {},
            }
        }
        lemma_tv_set_route_wf(sub, route.drop_first(), value);
        lemma_tv_put_wf(
            tv,
            KeyView::Table(route[0]),
            ValueView::Table(tv_set_route(sub, route.drop_first(), value)),
        );
    }
}

/// After storing a record under a route, that route holds the record.
pub proof fn lemma_tv_set_route_entry(tv: TableView, route: Seq<Seq<char>>, value: Seq<char>)
    requires
        route.len() >= 1,
    ensures
        tv_entry_at(tv_set_route(tv, route, value), route, EntryKind::Record) == Some(
            ValueView::Record(value),
        ),
    decreases route.len(),
{
    let new = tv_set_route(tv, route, value);
    if route.len() == 1 {
        assert(route.drop_last() =~= Seq::<Seq<char>>::empty());
        assert(route.last() == route[0]);
        lemma_tv_put_get_same(tv, KeyView::Record(route[0]), ValueView::Record(value));
    } else {
        let sub = match tv_get(tv, EntryKind::Table, route[0]) {
            Some(ValueView::Table(s)) => s,
            _ => Seq::empty(),
        };
        let subnew = tv_set_route(sub, route.drop_first(), value);
        lemma_tv_put_get_same(tv, KeyView::Table(route[0]), ValueView::Table(subnew));
        lemma_entry_at_step(new, route, EntryKind::Record);
        lemma_tv_set_route_entry(sub, route.drop_first(), value);
    }
}

/// Storing a record changes no entry but the record stored and the
/// tables created on the way to it.
pub proof fn lemma_tv_set_route_frame(
    tv: TableView,
    route: Seq<Seq<char>>,
    value: Seq<char>,
    other: Seq<Seq<char>>,
    kind: EntryKind,
)
    requires
        route.len() >= 1,
        !(kind == EntryKind::Record && other == route),
        !(kind == EntryKind::Table && other.len() < route.len() && other == route.subrange(
            0,
            other.len() as int,
        )),
    ensures
        tv_entry_at(tv_set_route(tv, route, value), other, kind) == tv_entry_at(tv, other, kind),
    decreases route.len(),
{
    let new = tv_set_route(tv, route, value);
    if other.len() == 0 {
    } else if route.len() == 1 {
        let k = KeyView::Record(route[0]);
        let v = ValueView::Record(value);
        if other.len() == 1 {
            assert(other.drop_last() =~= Seq::<Seq<char>>::empty());
            assert(other.last() == other[0]);
            if kind == EntryKind::Record && other[0] == route[0] {
                assert(other =~= route);
                assert(false);
            }
            lemma_tv_put_get_other(tv, k, v, kind, other[0]);
        } else {
            lemma_entry_at_step(new, other, kind);
            lemma_entry_at_step(tv, other, kind);
            lemma_tv_put_get_other(tv, k, v, EntryKind::Table, other[0]);
        }
    } else {
        let sub = match tv_get(tv, EntryKind::Table, route[0]) {
            Some(ValueView::Table(s)) => s,
            _ => Seq::empty(),
        };
        let subnew = tv_set_route(sub, route.drop_first(), value);
        let k = KeyView::Table(route[0]);
        let v = ValueView::Table(subnew);
        if other.len() == 1 {
            assert(other.drop_last() =~= Seq::<Seq<char>>::empty());
            assert(other.last() == other[0]);
            if kind == EntryKind::Table && other[0] == route[0] {
                assert(other =~= route.subrange(0, 1));
                assert(false);
            }
            lemma_tv_put_get_other(tv, k, v, kind, other[0]);
        } else {
            lemma_entry_at_step(new, other, kind);
            lemma_entry_at_step(tv, other, kind);
            if other[0] != route[0] {
                lemma_tv_put_get_other(tv, k, v, EntryKind::Table, other[0]);
            } else {
                lemma_tv_put_get_same(tv, k, v);
                assert(tv_entry_at(new, other, kind) == tv_entry_at(
                    subnew,
                    other.drop_first(),
                    kind,
                ));
                assert(!(kind == EntryKind::Record && other.drop_first() == route.drop_first()))
                    by {
                    if other.drop_first() == route.drop_first() && other[0] == route[0] {
                        assert(other.len() == route.len());
                        assert forall|i: int| 0 <= i < other.len() implies other[i]
                            == route[i] by {
                            if i >= 1 {
                                assert(other[i] == other.drop_first()[i - 1]);
                                assert(route[i] == route.drop_first()[i - 1]);
                            }
                        }
                        assert(other =~= route);
                    }
                }
                assert(!(kind == EntryKind::Table && other.drop_first().len()
                    < route.drop_first().len() && other.drop_first()
                    == route.drop_first().subrange(0, other.drop_first().len() as int))) by {
                    if other.len() < route.len() && other.drop_first()
                        == route.drop_first().subrange(0, other.len() - 1) {
                        assert(other =~= route.subrange(0, other.len() as int)) by {
                            assert(forall|i: int|
                                1 <= i < other.len() ==> other[i]
                                    == #[trigger] other.drop_first()[i - 1]);
                            assert(forall|i: int|
                                1 <= i < other.len()
                                    ==> route.drop_first().subrange(0, other.len() - 1)[i - 1]
                                    == #[trigger] route[i]);
                        }
                    }
                }
                lemma_tv_set_route_frame(sub, route.drop_first(), value, other.drop_first(), kind);
                match tv_get(tv, EntryKind::Table, route[0]) {
                    Some(ValueView::Table(s)) => {
                        assert(tv_entry_at(tv, other, kind) == tv_entry_at(
                            s,
                            other.drop_first(),
                            kind,
                        ));
                    },
                    _ => {
                        lemma_entry_at_empty(other.drop_first(), kind);
                        assert(tv_entry_at(tv, other, kind) == None::<ValueView>);
                        assert(tv_entry_at(sub, other.drop_first(), kind) == None::<ValueView>);
                    },
                }
            }
        }
    }
}

/// Removing along a route keeps the tree well formed.
pub proof fn lemma_tv_remove_route_wf(tv: TableView, route: Seq<Seq<char>>, kind: EntryKind)
    requires
        tv_wf(tv),
        route.len() >= 1,
    ensures
        tv_wf(tv_remove_route(tv, route, kind)),
    decreases route.len(),
{
    if route.len() == 1 {
        lemma_tv_remove_wf(tv, kind, route[0]);
    } else {
        match tv_get(tv, EntryKind::Table, route[0]) {
            Some(v) => {
                lemma_tv_get_wf(tv, EntryKind::Table, route[0], v);
                match v {
                    ValueView::Table(s) => {
                        lemma_tv_remove_route_wf(s, route.drop_first(), kind);
                        lemma_tv_put_wf(
                            tv,
                            KeyView::Table(route[0]),
                            ValueView::Table(tv_remove_route(s, route.drop_first(), kind)),
                        );
                    },
                    _ => {},
                }
            },
            None => {},
        }
    }
}

/// After removing an entry, its route holds nothing of that kind.
pub proof fn lemma_tv_remove_route_entry(tv: TableView, route: Seq<Seq<char>>, kind: EntryKind)
    requires
        tv_wf(tv),
        route.len() >= 1,
    ensures
        tv_entry_at(tv_remove_route(tv, route, kind), route, kind) == None::<ValueView>,
    decreases route.len(),
{
    let new = tv_remove_route(tv, route, kind);
    if route.len() == 1 {
        assert(route.drop_last() =~= Seq::<Seq<char>>::empty());
        assert(route.last() == route[0]);
        lemma_tv_remove_get_same(tv, kind, route[0]);
    } else {
        lemma_entry_at_step(new, route, kind);
        match tv_get(tv, EntryKind::Table, route[0]) {
            Some(v) => {
                lemma_tv_get_wf(tv, EntryKind::Table, route[0], v);
                match v {
                    ValueView::Table(s) => {
                        let subnew = tv_remove_route(s, route.drop_first(), kind);
                        lemma_tv_put_get_same(tv, KeyView::Table(route[0]), ValueView::Table(subnew));
                        lemma_tv_remove_route_entry(s, route.drop_first(), kind);
                    },
                    _ => {},
                }
            },
            None => {},
        }
    }
}

/// Removing an entry changes no other entry, apart from the tables it
/// was reached through.
pub proof fn lemma_tv_remove_route_frame(
    tv: TableView,
    route: Seq<Seq<char>>,
    kind: EntryKind,
    other: Seq<Seq<char>>,
    kind2: EntryKind,
)
    requires
        route.len() >= 1,
        !(kind2 == kind && other == route),
        !(kind2 == EntryKind::Table && other.len() < route.len() && other == route.subrange(
            0,
            other.len() as int,
        )),
        !(kind == EntryKind::Table && other.len() > route.len() && other.subrange(
            0,
            route.len() as int,
        ) == route),
    ensures
        tv_entry_at(tv_remove_route(tv, route, kind), other, kind2) == tv_entry_at(
            tv,
            other,
            kind2,
        ),
    decreases route.len(),
{
    let new = tv_remove_route(tv, route, kind);
    if other.len() == 0 {
    } else if route.len() == 1 {
        if other.len() == 1 {
            assert(other.drop_last() =~= Seq::<Seq<char>>::empty());
            assert(other.last() == other[0]);
            if kind2 == kind && other[0] == route[0] {
                assert(other =~= route);
                assert(false);
            }
            lemma_tv_remove_get_other(tv, kind, route[0], kind2, other[0]);
        } else {
            lemma_entry_at_step(new, other, kind);
            lemma_entry_at_step(tv, other, kind);
            if kind == EntryKind::Table && other[0] == route[0] {
                assert(other.subrange(0, 1) =~= route);
                assert(false);
            }
            lemma_tv_remove_get_other(tv, kind, route[0], EntryKind::Table, other[0]);
        }
    } else {
        match tv_get(tv, EntryKind::Table, route[0]) {
            Some(ValueView::Table(s)) => {
                let subnew = tv_remove_route(s, route.drop_first(), kind);
                let k = KeyView::Table(route[0]);
                let v = ValueView::Table(subnew);
                if other.len() == 1 {
                    assert(other.drop_last() =~= Seq::<Seq<char>>::empty());
                    assert(other.last() == other[0]);
                    if kind2 == EntryKind::Table && other[0] == route[0] {
                        assert(other =~= route.subrange(0, 1));
                        assert(false);
                    }
                    lemma_tv_put_get_other(tv, k, v, kind2, other[0]);
                } else {
                    lemma_entry_at_step(new, other, kind2);
                    lemma_entry_at_step(tv, other, kind2);
                    if other[0] != route[0] {
                        lemma_tv_put_get_other(tv, k, v, EntryKind::Table, other[0]);
                    } else {
                        lemma_tv_put_get_same(tv, k, v);
                        assert(!(kind2 == kind && other.drop_first() == route.drop_first())) by {
                            if other.drop_first() == route.drop_first() && other[0] == route[0] {
                                assert(other.len() == route.len());
                                assert forall|i: int| 0 <= i < other.len() implies other[i]
                                    == route[i] by {
                                    if i >= 1 {
                                        assert(other[i] == other.drop_first()[i - 1]);
                                        assert(route[i] == route.drop_first()[i - 1]);
                                    }
                                }
                                assert(other =~= route);
                            }
                        }
                        assert(!(kind2 == EntryKind::Table && other.drop_first().len()
                            < route.drop_first().len() && other.drop_first()
                            == route.drop_first().subrange(0, other.drop_first().len() as int)))
                            by {
                            if other.len() < route.len() && other.drop_first()
                                == route.drop_first().subrange(0, other.len() - 1) {
                                assert forall|i: int| 0 <= i < other.len() implies other[i]
                                    == route.subrange(0, other.len() as int)[i] by {
                                    if i >= 1 {
                                        assert(other[i] == other.drop_first()[i - 1]);
                                        assert(route.drop_first().subrange(0, other.len() - 1)[i - 1]
                                            == route[i]);
                                    }
                                }
                                assert(other =~= route.subrange(0, other.len() as int));
                            }
                        }
                        assert(!(kind == EntryKind::Table && other.drop_first().len()
                            > route.drop_first().len() && other.drop_first().subrange(
                            0,
                            route.drop_first().len() as int,
                        ) == route.drop_first())) by {
                            if kind == EntryKind::Table && other.len() > route.len()
                                && other.drop_first().subrange(0, route.len() - 1)
                                == route.drop_first() {
                                assert forall|i: int|
                                    0 <= i < route.len() implies other.subrange(
                                    0,
                                    route.len() as int,
                                )[i] == route[i] by {
                                    if i >= 1 {
                                        assert(other.drop_first().subrange(0, route.len() - 1)[i - 1]
                                            == other[i]);
                                        assert(route.drop_first()[i - 1] == route[i]);
                                    }
                                }
                                assert(other.subrange(0, route.len() as int) =~= route);
                            }
                        }
                        lemma_tv_remove_route_frame(
                            s,
                            route.drop_first(),
                            kind,
                            other.drop_first(),
                            kind2,
                        );
                    }
                }
            },
            _ => {},
        }
    }
}

/// After a table is removed, nothing below its route remains.
pub proof fn lemma_tv_remove_table_subtree(
    tv: TableView,
    route: Seq<Seq<char>>,
    longer: Seq<Seq<char>>,
    kind2: EntryKind,
)
    requires
        tv_wf(tv),
        route.len() >= 1,
        longer.len() > route.len(),
        longer.subrange(0, route.len() as int) == route,
    ensures
        tv_entry_at(tv_remove_route(tv, route, EntryKind::Table), longer, kind2) == None::<
            ValueView,
        >,
{
    let new = tv_remove_route(tv, route, EntryKind::Table);
    lemma_tv_remove_route_entry(tv, route, EntryKind::Table);
    lemma_sub_via_entry(new, route);
    lemma_entry_at_through_missing(new, route, longer, kind2);
}

/// Size of a value, counting every entry of every nested table; the
/// termination measure of the executable tree walks.
pub open spec fn value_size(v: ValueType) -> nat
    decreases v,
{
    match v {
        ValueType::TablePointer(t) => 1 + table_size(t),
        ValueType::RecordPointer(_) => 1,
        ValueType::QueuePointer(_) => 1,
    }
}

/// Size of a table.
pub open spec fn table_size(t: Table) -> nat
    decreases t,
{
    entries_size(t.entries@)
}

/// Size of a sequence of entries.
pub open spec fn entries_size(s: Seq<(KeyType, ValueType)>) -> nat
    decreases s,
{
    if s.len() == 0 {
        0
    } else {
        value_size(s[0].1) + entries_size(s.drop_first())
    }
}

/// Every entry's value weighs no more than the whole table.
pub proof fn lemma_entries_size_elem(s: Seq<(KeyType, ValueType)>, i: int)
    requires
        0 <= i < s.len(),
    ensures
        value_size(s[i].1) <= entries_size(s),
    decreases s,
{
    if i > 0 {
        lemma_entries_size_elem(s.drop_first(), i - 1);
    }
}

/// In a table where nothing before `pos` matches and `pos` does,
/// lookup returns the value at `pos`.
pub proof fn lemma_tv_get_position(tv: TableView, kind: EntryKind, name: Seq<char>, pos: int)
    requires
        0 <= pos < tv.len(),
        entry_is(tv[pos].0, kind, name),
        forall|j: int| 0 <= j < pos ==> !entry_is(#[trigger] tv[j].0, kind, name),
    ensures
        tv_get(tv, kind, name) == Some(tv[pos].1),
    decreases tv,
{
    if pos > 0 {
        let tail = tv.drop_first();
        assert(forall|i: int| 0 <= i < tail.len() ==> tail[i] == tv[i + 1]);
        lemma_tv_get_position(tail, kind, name, pos - 1);
    }
}

/// Where nothing before `pos` matches and `tv[pos]` carries exactly the
/// key, `tv_put` replaces the entry at `pos`.
pub proof fn lemma_tv_put_at_replace(tv: TableView, k: KeyView, v: ValueView, pos: int)
    requires
        0 <= pos < tv.len(),
        forall|j: int| 0 <= j < pos ==> key_lt(#[trigger] tv[j].0, k),
        tv[pos].0 == k,
    ensures
        tv_put(tv, k, v) == tv.subrange(0, pos) + seq![(k, v)] + tv.subrange(
            pos + 1,
            tv.len() as int,
        ),
    decreases tv,
{
    if pos == 0 {
        crate::enums::lemma_key_lt_irreflexive(k);
        assert(tv_put(tv, k, v) =~= tv.subrange(0, 0) + seq![(k, v)] + tv.subrange(
            1,
            tv.len() as int,
        ));
    } else {
        crate::enums::lemma_key_lt_asymmetric(tv[0].0, k);
        crate::enums::lemma_key_lt_irreflexive(tv[0].0);
        let tail = tv.drop_first();
        assert(forall|i: int| 0 <= i < tail.len() ==> tail[i] == tv[i + 1]);
        lemma_tv_put_at_replace(tail, k, v, pos - 1);
        assert(tv_put(tv, k, v) =~= tv.subrange(0, pos) + seq![(k, v)] + tv.subrange(
            pos + 1,
            tv.len() as int,
        )) by {
            assert(tv_put(tv, k, v) == seq![tv[0]] + tv_put(tail, k, v));
            assert(tail.subrange(0, pos - 1) =~= tv.subrange(1, pos));
            assert(tail.subrange(pos, tail.len() as int) =~= tv.subrange(
                pos + 1,
                tv.len() as int,
            ));
        }
    }
}

/// Where everything before `pos` is below the key and `pos` (if it
/// exists) is above it, `tv_put` inserts the entry at `pos`.
pub proof fn lemma_tv_put_at_insert(tv: TableView, k: KeyView, v: ValueView, pos: int)
    requires
        0 <= pos <= tv.len(),
        forall|j: int| 0 <= j < pos ==> key_lt(#[trigger] tv[j].0, k),
        pos < tv.len() ==> key_lt(k, tv[pos].0),
    ensures
        tv_put(tv, k, v) == tv.subrange(0, pos) + seq![(k, v)] + tv.subrange(pos, tv.len() as int),
    decreases tv,
{
    if pos == 0 {
        assert(tv_put(tv, k, v) =~= tv.subrange(0, 0) + seq![(k, v)] + tv.subrange(
            0,
            tv.len() as int,
        ));
    } else {
        crate::enums::lemma_key_lt_asymmetric(tv[0].0, k);
        crate::enums::lemma_key_lt_irreflexive(tv[0].0);
        let tail = tv.drop_first();
        assert(forall|i: int| 0 <= i < tail.len() ==> tail[i] == tv[i + 1]);
        lemma_tv_put_at_insert(tail, k, v, pos - 1);
        assert(tv_put(tv, k, v) =~= tv.subrange(0, pos) + seq![(k, v)] + tv.subrange(
            pos,
            tv.len() as int,
        )) by {
            assert(tv_put(tv, k, v) == seq![tv[0]] + tv_put(tail, k, v));
            assert(tail.subrange(0, pos - 1) =~= tv.subrange(1, pos));
            assert(tail.subrange(pos - 1, tail.len() as int) =~= tv.subrange(
                pos,
                tv.len() as int,
            ));
        }
    }
}

/// Where nothing before `pos` matches and `pos` does, `tv_remove`
/// removes the entry at `pos`.
pub proof fn lemma_tv_remove_at(tv: TableView, kind: EntryKind, name: Seq<char>, pos: int)
    requires
        0 <= pos < tv.len(),
        entry_is(tv[pos].0, kind, name),
        forall|j: int| 0 <= j < pos ==> !entry_is(#[trigger] tv[j].0, kind, name),
    ensures
        tv_remove(tv, kind, name) == tv.subrange(0, pos) + tv.subrange(pos + 1, tv.len() as int),
    decreases tv,
{
    if pos == 0 {
        assert(tv_remove(tv, kind, name) =~= tv.subrange(0, 0) + tv.subrange(1, tv.len() as int));
    } else {
        let tail = tv.drop_first();
        assert(forall|i: int| 0 <= i < tail.len() ==> tail[i] == tv[i + 1]);
        lemma_tv_remove_at(tail, kind, name, pos - 1);
        assert(tv_remove(tv, kind, name) =~= tv.subrange(0, pos) + tv.subrange(
            pos + 1,
            tv.len() as int,
        )) by {
            assert(tv_remove(tv, kind, name) == seq![tv[0]] + tv_remove(tail, kind, name));
            assert(tail.subrange(0, pos - 1) =~= tv.subrange(1, pos));
            assert(tail.subrange(pos, tail.len() as int) =~= tv.subrange(
                pos + 1,
                tv.len() as int,
            ));
        }
    }
}

/// Removing an absent entry changes nothing.
pub proof fn lemma_tv_remove_absent(tv: TableView, kind: EntryKind, name: Seq<char>)
    requires
        forall|j: int| 0 <= j < tv.len() ==> !entry_is(#[trigger] tv[j].0, kind, name),
    ensures
        tv_remove(tv, kind, name) == tv,
    decreases tv,
{
    if tv.len() > 0 {
        let tail = tv.drop_first();
        assert(forall|i: int| 0 <= i < tail.len() ==> tail[i] == tv[i + 1]);
        lemma_tv_remove_absent(tail, kind, name);
        assert(tv_remove(tv, kind, name) =~= tv) by {
            assert(tv_remove(tv, kind, name) == seq![tv[0]] + tail);
        }
    }
}

impl ValueType {
    /// Whether the value is a nested table.
    pub fn is_table(&self) -> (r: bool)
        ensures
            r == (view_kind(self@) == EntryKind::Table),
    {
        match self {
            ValueType::TablePointer(_) => true,
            _ => false,
        }
    }

    /// Whether the value is a string record.
    pub fn is_record(&self) -> (r: bool)
        ensures
            r == (view_kind(self@) == EntryKind::Record),
    {
        match self {
            ValueType::RecordPointer(_) => true,
            _ => false,
        }
    }

    /// Whether the value is a queue.
    pub fn is_queue(&self) -> (r: bool)
        ensures
            r == (view_kind(self@) == EntryKind::Queue),
    {
        match self {
            ValueType::QueuePointer(_) => true,
            _ => false,
        }
    }

    /// The record's text; for the other kinds, the kind's name.
    pub fn get_value(&self) -> (r: &str)
        ensures
            match self {
                ValueType::RecordPointer(s) => r@ == s@,
                ValueType::TablePointer(_) => r@ == "TablePointer"@,
                ValueType::QueuePointer(_) => r@ == "QueuePointer"@,
            },
    {
        match self {
            ValueType::TablePointer(_) => "TablePointer",
            ValueType::RecordPointer(s) => s.as_str(),
            ValueType::QueuePointer(_) => "QueuePointer",
        }
    }
}

impl Clone for ValueType {
    /// Deep copy of the value, preserving its view.
    fn clone(&self) -> (r: Self)
        ensures
            r@ == self@,
        decreases value_size(*self), 0int,
    {
        match self {
            ValueType::TablePointer(t) => ValueType::TablePointer(t.clone()),
            ValueType::RecordPointer(s) => ValueType::RecordPointer(s.clone()),
            ValueType::QueuePointer(q) => {
                let mut copy: Vec<String> = Vec::new();
                let mut i: usize = 0;
                while i < q.len()
                    invariant
                        i <= q@.len(),
                        copy@.len() == i,
                        forall|j: int| 0 <= j < i ==> (#[trigger] copy@[j])@ == q@[j]@,
                    decreases q@.len() - i,
                {
                    copy.push(q[i].clone());
                    i = i + 1;
                }
                proof {
                    assert forall|j: int| 0 <= j < q@.len() implies copy.deep_view()[j]
                        == q.deep_view()[j] by {
                        assert(copy.deep_view()[j] == copy@[j]@);
                        assert(q.deep_view()[j] == q@[j]@);
                    }
                    assert(copy.deep_view() =~= q.deep_view());
                }
                ValueType::QueuePointer(copy)
            },
        }
    }
}

impl Clone for Table {
    /// Deep copy of the table, preserving its view.
    fn clone(&self) -> (r: Self)
        ensures
            r@ == self@,
        decreases table_size(*self), 1int,
    {
        let mut entries: Vec<(KeyType, ValueType)> = Vec::new();
        let mut i: usize = 0;
        while i < self.entries.len()
            invariant
                i <= self.entries@.len(),
                entries@.len() == i,
                forall|j: int|
                    0 <= j < i ==> (#[trigger] entries@[j]).0@ == self.entries@[j].0@ && value_view(
                        entries@[j].1,
                    ) == value_view(self.entries@[j].1),
            decreases self.entries@.len() - i,
        {
            proof {
                lemma_entries_size_elem(self.entries@, i as int);
            }
            let pair = (self.entries[i].0.clone(), self.entries[i].1.clone());
            entries.push(pair);
            i = i + 1;
        }
        proof {
            lemma_entries_view_len(entries@);
            lemma_entries_view_len(self.entries@);
            assert forall|j: int| 0 <= j < entries@.len() implies entries_view(entries@)[j]
                == entries_view(self.entries@)[j] by {
                lemma_entries_view_index(entries@, j);
                lemma_entries_view_index(self.entries@, j);
            }
            assert(entries_view(entries@) =~= entries_view(self.entries@));
        }
        Table { entries }
    }
}

impl Table {
    /// Fresh empty table.
    pub fn new() -> (r: Table)
        ensures
            r@ == Seq::<(KeyView, ValueView)>::empty(),
            tv_wf(r@),
    {
        let t = Table { entries: Vec::new() };
        proof {
            assert(t@ =~= Seq::<(KeyView, ValueView)>::empty());
            assert(tv_children_wf(t@));
        }
        t
    }
}

/// Index of the first entry with the given kind and name, if any.
fn find_entry(entries: &Vec<(KeyType, ValueType)>, kind: EntryKind, name: &str) -> (r: Option<
    usize,
>)
    ensures
        match r {
            Some(pos) => pos < entries@.len() && entry_is(
                entries_view(entries@)[pos as int].0,
                kind,
                name@,
            ) && (forall|j: int|
                0 <= j < pos ==> !entry_is(#[trigger] entries_view(entries@)[j].0, kind, name@)),
            None => forall|j: int|
                0 <= j < entries@.len() ==> !entry_is(
                    #[trigger] entries_view(entries@)[j].0,
                    kind,
                    name@,
                ),
        },
{
    let n = entries.len();
    let mut i: usize = 0;
    while i < n
        invariant
            i <= n,
            n == entries@.len(),
            forall|j: int|
                0 <= j < i ==> !entry_is(#[trigger] entries_view(entries@)[j].0, kind, name@),
        decreases n - i,
    {
        proof {
            lemma_entries_view_index(entries@, i as int);
        }
        let same_kind = entries[i].0.kind() == kind;
        if same_kind && crate::strutil::str_eq(entries[i].0.get_key(), name) {
            return Some(i);
        }
        i = i + 1;
    }
    None
}

/// Copy of the value stored in a table under the given kind and name,
/// if any.
pub fn find_entry_in(entries: &Vec<(KeyType, ValueType)>, kind: EntryKind, name: &str) -> (r:
    Option<ValueType>)
    ensures
        match r {
            Some(v) => tv_get(entries_view(entries@), kind, name@) == Some(v@),
            None => tv_get(entries_view(entries@), kind, name@) == None::<ValueView>,
        },
{
    match find_entry(entries, kind, name) {
        Some(pos) => {
            proof {
                lemma_entries_view_len(entries@);
                lemma_tv_get_position(entries_view(entries@), kind, name@, pos as int);
                lemma_entries_view_index(entries@, pos as int);
            }
            Some(entries[pos].1.clone())
        },
        None => {
            proof {
                lemma_entries_view_len(entries@);
                lemma_tv_get_none(entries_view(entries@), kind, name@);
            }
            None
        },
    }
}

/// Insert or overwrite an entry, keeping the entries sorted by key.
fn put_entry(entries: Vec<(KeyType, ValueType)>, key: KeyType, value: ValueType) -> (r: Vec<
    (KeyType, ValueType),
>)
    ensures
        entries_view(r@) == tv_put(entries_view(entries@), key@, value@),
{
    let ghost tv = entries_view(entries@);
    proof {
        lemma_entries_view_len(entries@);
    }
    let mut es = entries;
    let n = es.len();
    let mut pos: usize = 0;
    while pos < n && key_before(&es[pos].0, &key)
        invariant
            pos <= n,
            n == es@.len(),
            es@ == entries@,
            tv == entries_view(entries@),
            forall|j: int| 0 <= j < pos ==> key_lt((#[trigger] tv[j]).0, key@),
        decreases n - pos,
    {
        proof {
            lemma_entries_view_index(entries@, pos as int);
        }
        pos = pos + 1;
    }
    proof {
        if pos < tv.len() {
            lemma_entries_view_index(entries@, pos as int);
        }
    }
    if pos < n && crate::enums::key_eq(&es[pos].0, &key) {
        let _ = es.remove(pos);
        es.insert(pos, (key, value));
        proof {
            lemma_tv_put_at_replace(tv, key@, value@, pos as int);
            lemma_entries_view_len(es@);
            assert forall|m: int| 0 <= m < es@.len() implies entries_view(es@)[m] == tv_put(
                tv,
                key@,
                value@,
            )[m] by {
                lemma_entries_view_index(es@, m);
                if m < pos {
                    lemma_entries_view_index(entries@, m);
                } else if m > pos {
                    lemma_entries_view_index(entries@, m);
                }
            }
            assert(entries_view(es@) =~= tv_put(tv, key@, value@));
        }
        es
    } else {
        proof {
            if pos < tv.len() {
                assert(!key_lt(tv[pos as int].0, key@));
                assert(tv[pos as int].0 != key@);
                if !key_lt(key@, tv[pos as int].0) {
                    crate::enums::lemma_key_lt_connected(key@, tv[pos as int].0);
                }
                assert(key_lt(key@, tv[pos as int].0));
            }
        }
        es.insert(pos, (key, value));
        proof {
            lemma_tv_put_at_insert(tv, key@, value@, pos as int);
            lemma_entries_view_len(es@);
            assert forall|m: int| 0 <= m < es@.len() implies entries_view(es@)[m] == tv_put(
                tv,
                key@,
                value@,
            )[m] by {
                lemma_entries_view_index(es@, m);
                if m < pos {
                    lemma_entries_view_index(entries@, m);
                } else if m > pos {
                    lemma_entries_view_index(entries@, m - 1);
                }
            }
            assert(entries_view(es@) =~= tv_put(tv, key@, value@));
        }
        es
    }
}

/// Subtable reached by walking the route's segments from `from` up to
/// (not including) `upto`; the executable form of `tv_sub`.
pub fn find_table<'a>(t: &'a Table, route: &Vec<String>, from: usize, upto: usize) -> (r: Option<
    &'a Table,
>)
    requires
        from <= upto <= route@.len(),
    ensures
        match r {
            Some(s) => tv_sub(t@, route.deep_view().subrange(from as int, upto as int)) == Some(
                s@,
            ),
            None => tv_sub(t@, route.deep_view().subrange(from as int, upto as int)) == None::<
                TableView,
            >,
        },
    decreases upto - from,
{
    let ghost rv = route.deep_view().subrange(from as int, upto as int);
    if from == upto {
        proof {
            assert(rv =~= Seq::<Seq<char>>::empty());
        }
        return Some(t);
    }
    proof {
        assert(rv[0] == route.deep_view()[from as int]);
        assert(rv.drop_first() =~= route.deep_view().subrange(from + 1, upto as int));
    }
    match find_entry(&t.entries, EntryKind::Table, route[from].as_str()) {
        Some(pos) => {
            proof {
                lemma_entries_view_len(t.entries@);
                lemma_tv_get_position(t@, EntryKind::Table, rv[0], pos as int);
                lemma_entries_view_index(t.entries@, pos as int);
            }
            match &t.entries[pos].1 {
                ValueType::TablePointer(sub) => find_table(sub, route, from + 1, upto),
                _ => None,
            }
        },
        None => {
            proof {
                lemma_entries_view_len(t.entries@);
                lemma_tv_get_none(t@, EntryKind::Table, rv[0]);
            }
            None
        },
    }
}

/// Store the record `value` under the route's segments from `from` on,
/// creating intermediate tables on demand; the executable form of
/// `tv_set_route`.
pub fn set_at_route(t: Table, route: &Vec<String>, from: usize, value: String) -> (r: Table)
    requires
        from < route@.len(),
        tv_wf(t@),
    ensures
        r@ == tv_set_route(t@, route.deep_view().skip(from as int), value@),
    decreases route@.len() - from,
{
    let ghost rv = route.deep_view().skip(from as int);
    let ghost tv = table_view(t);
    proof {
        assert(rv[0] == route.deep_view()[from as int]);
        assert(rv.drop_first() =~= route.deep_view().skip(from + 1));
        lemma_entries_view_len(t.entries@);
    }
    if route.len() - from == 1 {
        let key = KeyType::Record(route[from].clone());
        let es = put_entry(t.entries, key, ValueType::RecordPointer(value));
        return Table { entries: es };
    }
    let mut es = t.entries;
    match find_entry(&es, EntryKind::Table, route[from].as_str()) {
        Some(pos) => {
            proof {
                lemma_tv_get_position(tv, EntryKind::Table, rv[0], pos as int);
                lemma_entries_view_index(es@, pos as int);
                lemma_children_wf_index(tv, pos as int);
            }
            let (k, v) = es.remove(pos);
            match v {
                ValueType::TablePointer(sub) => {
                    let newsub = set_at_route(sub, route, from + 1, value);
                    es.insert(pos, (k, ValueType::TablePointer(newsub)));
                    proof {
                        let target = tv_put(
                            tv,
                            KeyView::Table(rv[0]),
                            ValueView::Table(tv_set_route(sub@, rv.drop_first(), value@)),
                        );
                        lemma_entry_is_eq(tv[pos as int].0, KeyView::Table(rv[0]));
                        lemma_tv_put_at_replace(
                            tv,
                            KeyView::Table(rv[0]),
                            ValueView::Table(tv_set_route(sub@, rv.drop_first(), value@)),
                            pos as int,
                        );
                        lemma_entries_view_len(es@);
                        assert forall|m: int| 0 <= m < es@.len() implies entries_view(es@)[m]
                            == target[m] by {
                            lemma_entries_view_index(es@, m);
                            if m != pos {
                                lemma_entries_view_index(t.entries@, m);
                            }
                        }
                        assert(entries_view(es@) =~= target);
                    }
                    Table { entries: es }
                },
                _ => {
                    proof {
                        assert(view_kind(tv[pos as int].1) == key_kind(tv[pos as int].0));
                        assert(false);
                    }
                    vstd::pervasive::unreached()
                },
            }
        },
        None => {
            proof {
                lemma_tv_get_none(tv, EntryKind::Table, rv[0]);
            }
            let empty = Table::new();
            let newsub = set_at_route(empty, route, from + 1, value);
            let key = KeyType::Table(route[from].clone());
            let es2 = put_entry(es, key, ValueType::TablePointer(newsub));
            Table { entries: es2 }
        },
    }
}

/// Remove the entry of the given kind under the route's segments from
/// `from` on; the executable form of `tv_remove_route`, also reporting
/// whether the entry existed.
pub fn remove_at_route(t: Table, route: &Vec<String>, from: usize, kind: EntryKind) -> (r: (
    Table,
    bool,
))
    requires
        from < route@.len(),
        tv_wf(t@),
    ensures
        r.0@ == tv_remove_route(t@, route.deep_view().skip(from as int), kind),
        r.1 == (tv_entry_at(t@, route.deep_view().skip(from as int), kind) is Some),
    decreases route@.len() - from,
{
    let ghost rv = route.deep_view().skip(from as int);
    let ghost tv = table_view(t);
    proof {
        assert(rv[0] == route.deep_view()[from as int]);
        assert(rv.drop_first() =~= route.deep_view().skip(from + 1));
        lemma_entries_view_len(t.entries@);
    }
    let mut es = t.entries;
    if route.len() - from == 1 {
        proof {
            assert(rv.drop_last() =~= Seq::<Seq<char>>::empty());
            assert(rv.last() == rv[0]);
        }
        match find_entry(&es, kind, route[from].as_str()) {
            Some(pos) => {
                proof {
                    lemma_tv_get_position(tv, kind, rv[0], pos as int);
                    lemma_tv_remove_at(tv, kind, rv[0], pos as int);
                }
                let _ = es.remove(pos);
                proof {
                    lemma_entries_view_len(es@);
                    assert forall|m: int| 0 <= m < es@.len() implies entries_view(es@)[m]
                        == tv_remove(tv, kind, rv[0])[m] by {
                        lemma_entries_view_index(es@, m);
                        if m < pos {
                            lemma_entries_view_index(t.entries@, m);
                        } else {
                            lemma_entries_view_index(t.entries@, m + 1);
                        }
                    }
                    assert(entries_view(es@) =~= tv_remove(tv, kind, rv[0]));
                }
                (Table { entries: es }, true)
            },
            None => {
                proof {
                    lemma_tv_get_none(tv, kind, rv[0]);
                    lemma_tv_remove_absent(tv, kind, rv[0]);
                }
                (Table { entries: es }, false)
            },
        }
    } else {
        match find_entry(&es, EntryKind::Table, route[from].as_str()) {
            Some(pos) => {
                proof {
                    lemma_tv_get_position(tv, EntryKind::Table, rv[0], pos as int);
                    lemma_entries_view_index(es@, pos as int);
                    lemma_children_wf_index(tv, pos as int);
                }
                let (k, v) = es.remove(pos);
                match v {
                    ValueType::TablePointer(sub) => {
                        let (newsub, found) = remove_at_route(sub, route, from + 1, kind);
                        es.insert(pos, (k, ValueType::TablePointer(newsub)));
                        proof {
                            let target = tv_put(
                                tv,
                                KeyView::Table(rv[0]),
                                ValueView::Table(tv_remove_route(sub@, rv.drop_first(), kind)),
                            );
                            lemma_entry_is_eq(tv[pos as int].0, KeyView::Table(rv[0]));
                            lemma_tv_put_at_replace(
                                tv,
                                KeyView::Table(rv[0]),
                                ValueView::Table(tv_remove_route(sub@, rv.drop_first(), kind)),
                                pos as int,
                            );
                            lemma_entries_view_len(es@);
                            assert forall|m: int| 0 <= m < es@.len() implies entries_view(es@)[m]
                                == target[m] by {
                                lemma_entries_view_index(es@, m);
                                if m != pos {
                                    lemma_entries_view_index(t.entries@, m);
                                }
                            }
                            assert(entries_view(es@) =~= target);
                            lemma_entry_at_step(tv, rv, kind);
                        }
                        (Table { entries: es }, found)
                    },
                    _ => {
                        proof {
                            assert(view_kind(tv[pos as int].1) == key_kind(tv[pos as int].0));
                            assert(false);
                        }
                        vstd::pervasive::unreached()
                    },
                }
            },
            None => {
                proof {
                    lemma_tv_get_none(tv, EntryKind::Table, rv[0]);
                    lemma_entry_at_step(tv, rv, kind);
                }
                (Table { entries: es }, false)
            },
        }
    }
}

/// Path obtained by appending `/name` to `prefix`.
pub open spec fn path_join(prefix: Seq<char>, name: Seq<char>) -> Seq<char> {
    prefix + seq!['/'] + name
}

/// Keys contributed to a listing by a single entry: records and queues
/// under their joined path, tables recursively when `level` asks for
/// all levels.
pub open spec fn entry_listing(
    e: (KeyView, ValueView),
    prefix: Seq<char>,
    level: crate::enums::ListType,
) -> Seq<KeyView>
    decreases e,
{
    match e.0 {
        KeyView::Record(n) => seq![KeyView::Record(path_join(prefix, n))],
        KeyView::Queue(n) => seq![KeyView::Queue(path_join(prefix, n))],
        KeyView::Table(n) => {
            if level == crate::enums::ListType::OneLevel {
                Seq::empty()
            } else {
                match e.1 {
                    ValueView::Table(s) => tv_listing(s, path_join(prefix, n), level),
                    _ => Seq::empty(),
                }
            }
        },
    }
}

/// Keys listed out of a table, in the table's own order.
pub open spec fn tv_listing(
    tv: TableView,
    prefix: Seq<char>,
    level: crate::enums::ListType,
) -> Seq<KeyView>
    decreases tv,
{
    if tv.len() == 0 {
        Seq::empty()
    } else {
        entry_listing(tv[0], prefix, level) + tv_listing(tv.drop_first(), prefix, level)
    }
}

/// Executable form of `path_join`.
pub fn join_path(prefix: &str, name: &str) -> (r: String)
    ensures
        r@ == path_join(prefix@, name@),
{
    let mut s = prefix.to_owned();
    s.append("/");
    s.append(name);
    proof {
        reveal_strlit("/");
        assert(s@ =~= path_join(prefix@, name@));
    }
    s
}

/// List the keys of a table under `key_prefix`: records and queues of
/// the table itself, and, for `ListType::All`, of every nested table.
pub fn display_tables(
    t: &Table,
    key_prefix: &str,
    level: crate::enums::ListType,
) -> (r: Result<Vec<KeyType>, crate::enums::ErrorKind>)
    ensures
        r matches Ok(list) && list.deep_view() == tv_listing(t@, key_prefix@, level),
    decreases table_size(*t),
{
    let mut result: Vec<KeyType> = Vec::new();
    let n = t.entries.len();
    let mut i: usize = 0;
    proof {
        lemma_entries_view_len(t.entries@);
        assert(t@.skip(0) =~= t@);
        assert(result.deep_view() =~= Seq::<KeyView>::empty());
    }
    while i < n
        invariant
            i <= n,
            n == t.entries@.len(),
            n == t@.len(),
            tv_listing(t@, key_prefix@, level) == result.deep_view() + tv_listing(
                t@.skip(i as int),
                key_prefix@,
                level,
            ),
        decreases n - i,
    {
        let ghost pre = result.deep_view();
        proof {
            lemma_entries_view_index(t.entries@, i as int);
            assert(t@.skip(i as int)[0] == t@[i as int]);
            assert(t@.skip(i as int).drop_first() =~= t@.skip(i + 1));
        }
        match &t.entries[i].0 {
            KeyType::Record(name) => {
                let new_key = KeyType::Record(join_path(key_prefix, name.as_str()));
                result.push(new_key);
                proof {
                    assert forall|j: int| 0 <= j < result.deep_view().len() implies result.deep_view()[j]
                        == (pre + entry_listing(t@[i as int], key_prefix@, level))[j] by {
                        assert(result.deep_view()[j] == result@[j]@);
                    }
                    assert(result.deep_view() =~= pre + entry_listing(
                        t@[i as int],
                        key_prefix@,
                        level,
                    ));
                }
            },
            KeyType::Queue(name) => {
                let new_key = KeyType::Queue(join_path(key_prefix, name.as_str()));
                result.push(new_key);
                proof {
                    assert forall|j: int| 0 <= j < result.deep_view().len() implies result.deep_view()[j]
                        == (pre + entry_listing(t@[i as int], key_prefix@, level))[j] by {
                        assert(result.deep_view()[j] == result@[j]@);
                    }
                    assert(result.deep_view() =~= pre + entry_listing(
                        t@[i as int],
                        key_prefix@,
                        level,
                    ));
                }
            },
            KeyType::Table(name) => {
                match level {
                    crate::enums::ListType::OneLevel => {
                        proof {
                            assert(result.deep_view() =~= pre + entry_listing(
                                t@[i as int],
                                key_prefix@,
                                level,
                            ));
                        }
                    },
                    crate::enums::ListType::All => {
                        match &t.entries[i].1 {
                            ValueType::TablePointer(sub) => {
                                proof {
                                    lemma_entries_size_elem(t.entries@, i as int);
                                }
                                let new_prefix = join_path(key_prefix, name.as_str());
                                let inner = display_tables(sub, new_prefix.as_str(), level);
                                match inner {
                                    Ok(mut temp) => {
                                        let ghost tview = temp.deep_view();
                                        result.append(&mut temp);
                                        proof {
                                            assert forall|j: int|
                                                0 <= j < result.deep_view().len() implies result.deep_view()[j]
                                                == (pre + tview)[j] by {
                                                assert(result.deep_view()[j] == result@[j]@);
                                                if j < pre.len() {
                                                    assert(pre[j] == result@[j]@);
                                                } else {
                                                    assert(tview[j - pre.len()] == result@[j]@);
                                                }
                                            }
                                            assert(result.deep_view() =~= pre + tview);
                                        }
                                    },
                                    Err(e) => {
                                        return Err(e);
                                    },
                                }
                            },
                            _ => {
                                proof {
                                    assert(result.deep_view() =~= pre + entry_listing(
                                        t@[i as int],
                                        key_prefix@,
                                        level,
                                    ));
                                }
                            },
                        }
                    },
                }
            },
        }
        i = i + 1;
    }
    proof {
        assert(t@.skip(n as int) =~= Seq::<(KeyView, ValueView)>::empty());
        assert(tv_listing(t@, key_prefix@, level) =~= result.deep_view());
    }
    Ok(result)
}

} // verus!
