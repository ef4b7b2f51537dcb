//! The hook registry: an ordered mapping from key prefixes to lists of
//! link targets, with the worker actions that drive it. A mutation
//! whose key starts with a registered prefix is to be announced to
//! every link under that prefix; this module computes which links,
//! while the sending itself stays outside the crate.
use vstd::prelude::*;

use crate::strutil::{lemma_text_lt_connected, lemma_text_lt_irreflexive, lemma_text_lt_transitive,
    str_eq, str_lt, str_starts_with, text_lt};

verus! {

/// View of the registry: prefixes with their link lists.
pub type HooksView = Seq<(Seq<char>, Seq<Seq<char>>)>;

/// Requests the hook manager worker accepts.
pub enum HookManagerAction {
    /// Register a link under a prefix.
    Add(String, String),
    /// Remove a link from a prefix.
    Remove(String, String),
    /// Look one prefix up.
    Get(String),
    /// List every prefix that starts with the given query.
    List(String),
    /// Announce a mutated key and its value to the matching links.
    Send(String, String),
}

/// Replies the hook manager worker gives.
#[derive(Debug)]
pub enum HookManagerResponse {
    /// The request was carried out.
    Done,
    /// The request failed; the reason is in the message.
    Error(String),
    /// One prefix with its links.
    Hook(String, Vec<String>),
    /// Every matching prefix with its links.
    HookList(Vec<(String, Vec<String>)>),
}

/// Links stored under a prefix, if the prefix is registered.
pub open spec fn hm_get(v: HooksView, p: Seq<char>) -> Option<Seq<Seq<char>>>
    decreases v,
{
    if v.len() == 0 {
        None
    } else if v[0].0 == p {
        Some(v[0].1)
    } else {
        hm_get(v.drop_first(), p)
    }
}

/// Registry after adding a link: appended to the prefix's list when the
/// prefix exists, else a fresh entry at its sorted position.
pub open spec fn hm_add(v: HooksView, p: Seq<char>, l: Seq<char>) -> HooksView
    decreases v,
{
    if v.len() == 0 {
        seq![(p, seq![l])]
    } else if text_lt(p, v[0].0) {
        seq![(p, seq![l])] + v
    } else if p == v[0].0 {
        seq![(v[0].0, v[0].1.push(l))] + v.drop_first()
    } else {
        seq![v[0]] + hm_add(v.drop_first(), p, l)
    }
}

/// Link list with the first occurrence of `l` removed.
pub open spec fn links_remove(ls: Seq<Seq<char>>, l: Seq<char>) -> Seq<Seq<char>>
    decreases ls,
{
    if ls.len() == 0 {
        ls
    } else if ls[0] == l {
        ls.drop_first()
    } else {
        seq![ls[0]] + links_remove(ls.drop_first(), l)
    }
}

/// Registry after removing a link from a prefix's list.
pub open spec fn hm_remove(v: HooksView, p: Seq<char>, l: Seq<char>) -> HooksView
    decreases v,
{
    if v.len() == 0 {
        v
    } else if v[0].0 == p {
        seq![(v[0].0, links_remove(v[0].1, l))] + v.drop_first()
    } else {
        seq![v[0]] + hm_remove(v.drop_first(), p, l)
    }
}

/// The entries whose prefix starts with the query, in registry order.
pub open spec fn hm_matching(v: HooksView, q: Seq<char>) -> HooksView
    decreases v,
{
    if v.len() == 0 {
        v
    } else if q.is_prefix_of(v[0].0) {
        seq![v[0]] + hm_matching(v.drop_first(), q)
    } else {
        hm_matching(v.drop_first(), q)
    }
}

/// The links to announce a key to: the lists of every prefix the key
/// starts with, flattened in registry order.
pub open spec fn hm_targets(v: HooksView, key: Seq<char>) -> Seq<Seq<char>>
    decreases v,
{
    if v.len() == 0 {
        Seq::empty()
    } else if v[0].0.is_prefix_of(key) {
        v[0].1 + hm_targets(v.drop_first(), key)
    } else {
        hm_targets(v.drop_first(), key)
    }
}

/// Well-formedness of the registry: prefixes strictly sorted (hence
/// unique), and no duplicate link under one prefix.
pub open spec fn hm_wf(v: HooksView) -> bool {
    &&& forall|i: int, j: int| 0 <= i < j < v.len() ==> text_lt((#[trigger] v[i]).0, (#[trigger] v[j]).0)
    &&& forall|i: int, a: int, b: int|
        0 <= i < v.len() && 0 <= a < b < v[i].1.len() ==> #[trigger] v[i].1[a] != #[trigger] v[i].1[b]
}

/// The hook manager: the registry of prefixes and links.
pub struct HookManager {
    pub hooks: Vec<(String, Vec<String>)>,
}

impl View for HookManager {
    type V = HooksView;

    open spec fn view(&self) -> HooksView {
        self.hooks.deep_view()
    }
}

impl HookManager {
    /// The registry invariant.
    pub open spec fn wf(&self) -> bool {
        hm_wf(self@)
    }

    /// Fresh empty registry.
    pub fn new() -> (r: HookManager)
        ensures
            r@ == Seq::<(Seq<char>, Seq<Seq<char>>)>::empty(),
            r.wf(),
    {
        let m = HookManager { hooks: Vec::new() };
        proof {
            assert(m@ =~= Seq::<(Seq<char>, Seq<Seq<char>>)>::empty());
        }
        m
    }
}

/// Index of the entry holding the given prefix, if any.
fn find_prefix(hooks: &Vec<(String, Vec<String>)>, prefix: &str) -> (r: Option<usize>)
    ensures
        match r {
            Some(i) => i < hooks@.len() && hooks.deep_view()[i as int].0 == prefix@ && (forall|
                j: int,
            |
                0 <= j < i ==> (#[trigger] hooks.deep_view()[j]).0 != prefix@),
            None => forall|j: int|
                0 <= j < hooks@.len() ==> (#[trigger] hooks.deep_view()[j]).0 != prefix@,
        },
{
    let n = hooks.len();
    let mut i: usize = 0;
    while i < n
        invariant
            i <= n,
            n == hooks@.len(),
            forall|j: int| 0 <= j < i ==> (#[trigger] hooks.deep_view()[j]).0 != prefix@,
        decreases n - i,
    {
        if str_eq(hooks[i].0.as_str(), prefix) {
            return Some(i);
        }
        i = i + 1;
    }
    None
}

/// Index of the first occurrence of a link in a list, if any.
fn find_link(links: &Vec<String>, link: &str) -> (r: Option<usize>)
    ensures
        match r {
            Some(i) => i < links@.len() && links.deep_view()[i as int] == link@ && (forall|j: int|
                0 <= j < i ==> links.deep_view()[j] != link@),
            None => forall|j: int| 0 <= j < links@.len() ==> links.deep_view()[j] != link@,
        },
{
    let n = links.len();
    let mut i: usize = 0;
    while i < n
        invariant
            i <= n,
            n == links@.len(),
            forall|j: int| 0 <= j < i ==> links.deep_view()[j] != link@,
        decreases n - i,
    {
        if str_eq(links[i].as_str(), link) {
            return Some(i);
        }
        i = i + 1;
    }
    None
}

/// Copy of a list of strings.
fn clone_links(links: &Vec<String>) -> (r: Vec<String>)
    ensures
        r.deep_view() == links.deep_view(),
{
    let mut copy: Vec<String> = Vec::new();
    let mut i: usize = 0;
    while i < links.len()
        invariant
            i <= links@.len(),
            copy@.len() == i,
            forall|j: int| 0 <= j < i ==> (#[trigger] copy@[j])@ == links@[j]@,
        decreases links@.len() - i,
    {
        copy.push(links[i].clone());
        i = i + 1;
    }
    proof {
        assert forall|j: int| 0 <= j < links@.len() implies copy.deep_view()[j]
            == links.deep_view()[j] by {
            assert(copy.deep_view()[j] == copy@[j]@);
        }
        assert(copy.deep_view() =~= links.deep_view());
    }
    copy
}

/// In a registry without the prefix, `hm_get` finds nothing.
proof fn lemma_hm_get_none(v: HooksView, p: Seq<char>)
    requires
        forall|j: int| 0 <= j < v.len() ==> (#[trigger] v[j]).0 != p,
    ensures
        hm_get(v, p) == None::<Seq<Seq<char>>>,
    decreases v,
{
    if v.len() > 0 {
        assert(forall|j: int| 0 <= j < v.drop_first().len() ==> v.drop_first()[j] == v[j + 1]);
        lemma_hm_get_none(v.drop_first(), p);
    }
}

/// Where nothing before `pos` holds the prefix and `pos` does,
/// `hm_get` returns the links at `pos`.
proof fn lemma_hm_get_position(v: HooksView, p: Seq<char>, pos: int)
    requires
        0 <= pos < v.len(),
        v[pos].0 == p,
        forall|j: int| 0 <= j < pos ==> (#[trigger] v[j]).0 != p,
    ensures
        hm_get(v, p) == Some(v[pos].1),
    decreases v,
{
    if pos > 0 {
        assert(forall|j: int| 0 <= j < v.drop_first().len() ==> v.drop_first()[j] == v[j + 1]);
        lemma_hm_get_position(v.drop_first(), p, pos - 1);
    }
}

/// Where nothing before `pos` holds the prefix and `pos` does,
/// `hm_add` appends to the list at `pos`.
proof fn lemma_hm_add_at_found(v: HooksView, p: Seq<char>, l: Seq<char>, pos: int)
    requires
        0 <= pos < v.len(),
        v[pos].0 == p,
        forall|j: int| 0 <= j < pos ==> text_lt((#[trigger] v[j]).0, p),
    ensures
        hm_add(v, p, l) == v.subrange(0, pos) + seq![(p, v[pos].1.push(l))] + v.subrange(
            pos + 1,
            v.len() as int,
        ),
    decreases v,
{
    if pos == 0 {
        lemma_text_lt_irreflexive(p);
        assert(hm_add(v, p, l) =~= v.subrange(0, 0) + seq![(p, v[0].1.push(l))] + v.subrange(
            1,
            v.len() as int,
        ));
    } else {
        if text_lt(p, v[0].0) {
            lemma_text_lt_transitive(v[0].0, p, v[0].0);
            lemma_text_lt_irreflexive(v[0].0);
        }
        lemma_text_lt_irreflexive(v[0].0);
        let tail = v.drop_first();
        assert(forall|j: int| 0 <= j < tail.len() ==> tail[j] == v[j + 1]);
        lemma_hm_add_at_found(tail, p, l, pos - 1);
        assert(hm_add(v, p, l) =~= v.subrange(0, pos) + seq![(p, v[pos].1.push(l))] + v.subrange(
            pos + 1,
            v.len() as int,
        )) by {
            assert(hm_add(v, p, l) == seq![v[0]] + hm_add(tail, p, l));
            assert(tail.subrange(0, pos - 1) =~= v.subrange(1, pos));
            assert(tail.subrange(pos, tail.len() as int) =~= v.subrange(pos + 1, v.len() as int));
        }
    }
}

/// Where everything before `pos` is below the prefix and `pos` (if it
/// exists) is above it, `hm_add` inserts a fresh entry at `pos`.
proof fn lemma_hm_add_at_insert(v: HooksView, p: Seq<char>, l: Seq<char>, pos: int)
    requires
        0 <= pos <= v.len(),
        forall|j: int| 0 <= j < pos ==> text_lt((#[trigger] v[j]).0, p),
        pos < v.len() ==> text_lt(p, v[pos].0),
    ensures
        hm_add(v, p, l) == v.subrange(0, pos) + seq![(p, seq![l])] + v.subrange(
            pos,
            v.len() as int,
        ),
    decreases v,
{
    if pos == 0 {
        if v.len() > 0 {
            lemma_text_lt_irreflexive(p);
        }
        assert(hm_add(v, p, l) =~= v.subrange(0, 0) + seq![(p, seq![l])] + v.subrange(
            0,
            v.len() as int,
        ));
    } else {
        if text_lt(p, v[0].0) {
            lemma_text_lt_transitive(v[0].0, p, v[0].0);
            lemma_text_lt_irreflexive(v[0].0);
        }
        lemma_text_lt_irreflexive(v[0].0);
        let tail = v.drop_first();
        assert(forall|j: int| 0 <= j < tail.len() ==> tail[j] == v[j + 1]);
        lemma_hm_add_at_insert(tail, p, l, pos - 1);
        assert(hm_add(v, p, l) =~= v.subrange(0, pos) + seq![(p, seq![l])] + v.subrange(
            pos,
            v.len() as int,
        )) by {
            assert(hm_add(v, p, l) == seq![v[0]] + hm_add(tail, p, l));
            assert(tail.subrange(0, pos - 1) =~= v.subrange(1, pos));
            assert(tail.subrange(pos - 1, tail.len() as int) =~= v.subrange(
                pos,
                v.len() as int,
            ));
        }
    }
}

/// Where nothing before `pos` holds the prefix and `pos` does,
/// `hm_remove` rewrites the entry at `pos`.
proof fn lemma_hm_remove_at(v: HooksView, p: Seq<char>, l: Seq<char>, pos: int)
    requires
        0 <= pos < v.len(),
        v[pos].0 == p,
        forall|j: int| 0 <= j < pos ==> (#[trigger] v[j]).0 != p,
    ensures
        hm_remove(v, p, l) == v.subrange(0, pos) + seq![(p, links_remove(v[pos].1, l))]
            + v.subrange(pos + 1, v.len() as int),
    decreases v,
{
    if pos == 0 {
        assert(hm_remove(v, p, l) =~= v.subrange(0, 0) + seq![(p, links_remove(v[0].1, l))]
            + v.subrange(1, v.len() as int));
    } else {
        let tail = v.drop_first();
        assert(forall|j: int| 0 <= j < tail.len() ==> tail[j] == v[j + 1]);
        lemma_hm_remove_at(tail, p, l, pos - 1);
        assert(hm_remove(v, p, l) =~= v.subrange(0, pos) + seq![(p, links_remove(v[pos].1, l))]
            + v.subrange(pos + 1, v.len() as int)) by {
            assert(hm_remove(v, p, l) == seq![v[0]] + hm_remove(tail, p, l));
            assert(tail.subrange(0, pos - 1) =~= v.subrange(1, pos));
            assert(tail.subrange(pos, tail.len() as int) =~= v.subrange(pos + 1, v.len() as int));
        }
    }
}

/// Where nothing before `pos` equals the link and `pos` does,
/// `links_remove` removes the element at `pos`.
proof fn lemma_links_remove_at(ls: Seq<Seq<char>>, l: Seq<char>, pos: int)
    requires
        0 <= pos < ls.len(),
        ls[pos] == l,
        forall|j: int| 0 <= j < pos ==> ls[j] != l,
    ensures
        links_remove(ls, l) == ls.subrange(0, pos) + ls.subrange(pos + 1, ls.len() as int),
    decreases ls,
{
    if pos == 0 {
        assert(links_remove(ls, l) =~= ls.subrange(0, 0) + ls.subrange(1, ls.len() as int));
    } else {
        let tail = ls.drop_first();
        assert(forall|j: int| 0 <= j < tail.len() ==> tail[j] == ls[j + 1]);
        lemma_links_remove_at(tail, l, pos - 1);
        assert(links_remove(ls, l) =~= ls.subrange(0, pos) + ls.subrange(pos + 1, ls.len() as int))
            by {
            assert(links_remove(ls, l) == seq![ls[0]] + links_remove(tail, l));
            assert(tail.subrange(0, pos - 1) =~= ls.subrange(1, pos));
            assert(tail.subrange(pos, tail.len() as int) =~= ls.subrange(
                pos + 1,
                ls.len() as int,
            ));
        }
    }
}

impl HookManager {
    /// Register `link` under `prefix`: a fresh entry for a new prefix,
    /// appended to the existing list otherwise; rejected when the pair
    /// is already registered.
    pub fn add(&mut self, prefix: String, link: String) -> (r: Result<(), HookManagerResponse>)
        requires
            old(self).wf(),
        ensures
            final(self).wf(),
            match r {
                Ok(_) => !(hm_get(old(self)@, prefix@) matches Some(ls) && ls.contains(link@))
                    && final(self)@ == hm_add(old(self)@, prefix@, link@),
                Err(e) => (hm_get(old(self)@, prefix@) matches Some(ls) && ls.contains(link@)) && (
                e matches HookManagerResponse::Error(m) && m@ == "Already defined"@) && final(self)@
                    == old(self)@,
            },
    {
        let ghost v = self@;
        match find_prefix(&self.hooks, prefix.as_str()) {
            Some(pos) => {
                proof {
                    lemma_hm_get_position(v, prefix@, pos as int);
                }
                match find_link(&self.hooks[pos].1, link.as_str()) {
                    Some(_) => Err(HookManagerResponse::Error("Already defined".to_owned())),
                    None => {
                        let (p, mut ls) = self.hooks.remove(pos);
                        ls.push(link);
                        self.hooks.insert(pos, (p, ls));
                        proof {
                            assert forall|j: int| 0 <= j < pos implies text_lt(
                                (#[trigger] v[j]).0,
                                prefix@,
                            ) by {
                                assert(text_lt(v[j].0, v[pos as int].0));
                            }
                            lemma_hm_add_at_found(v, prefix@, link@, pos as int);
                            assert forall|m: int| 0 <= m < self@.len() implies self@[m] == hm_add(
                                v,
                                prefix@,
                                link@,
                            )[m] by {
                                assert(self@[m] == (self.hooks@[m].0@, self.hooks@[m].1.deep_view()));
                            }
                            assert(self@ =~= hm_add(v, prefix@, link@));
                            assert(hm_wf(self@)) by {
                                assert(forall|j: int|
                                    0 <= j < self@.len() && j != pos ==> self@[j] == v[j]);
                                assert(self@[pos as int].0 == v[pos as int].0);
                                assert(self@[pos as int].1 =~= v[pos as int].1.push(link@));
                            }
                        }
                        Ok(())
                    },
                }
            },
            None => {
                proof {
                    lemma_hm_get_none(v, prefix@);
                }
                let n = self.hooks.len();
                let mut pos: usize = 0;
                while pos < n && str_lt(self.hooks[pos].0.as_str(), prefix.as_str())
                    invariant
                        pos <= n,
                        n == self.hooks@.len(),
                        self.hooks@ == old(self).hooks@,
                        v == self@,
                        v.len() == n,
                        forall|j: int| 0 <= j < pos ==> text_lt((#[trigger] v[j]).0, prefix@),
                    decreases n - pos,
                {
                    proof {
                        assert(v[pos as int].0 == self.hooks@[pos as int].0@);
                    }
                    pos = pos + 1;
                }
                proof {
                    assert(v.len() == n);
                    if pos < n {
                        assert(v[pos as int].0 == self.hooks@[pos as int].0@);
                    }
                }
                proof {
                    if pos < n {
                        assert(v[pos as int].0 != prefix@);
                        if !text_lt(prefix@, v[pos as int].0) {
                            lemma_text_lt_connected(prefix@, v[pos as int].0);
                        }
                        assert(text_lt(prefix@, v[pos as int].0));
                    }
                }
                let mut fresh: Vec<String> = Vec::new();
                fresh.push(link);
                self.hooks.insert(pos, (prefix, fresh));
                proof {
                    lemma_hm_add_at_insert(v, prefix@, link@, pos as int);
                    assert(fresh.deep_view() =~= seq![link@]);
                    assert forall|m: int| 0 <= m < self@.len() implies self@[m] == hm_add(
                        v,
                        prefix@,
                        link@,
                    )[m] by {
                        assert(self@[m] == (self.hooks@[m].0@, self.hooks@[m].1.deep_view()));
                    }
                    assert(self@ =~= hm_add(v, prefix@, link@));
                    assert(hm_wf(self@)) by {
                        assert(forall|j: int| 0 <= j < pos ==> self@[j] == v[j]);
                        assert(forall|j: int|
                            pos < j < self@.len() ==> self@[j] == v[j - 1]);
                        assert(self@[pos as int] == (prefix@, seq![link@]));
                        assert forall|i: int, j: int|
                            0 <= i < j < self@.len() implies text_lt(
                            (#[trigger] self@[i]).0,
                            (#[trigger] self@[j]).0,
                        ) by {
                            if i == pos {
                                assert(text_lt(prefix@, v[pos as int].0));
                                if j - 1 > pos {
                                    assert(text_lt(v[pos as int].0, v[j - 1].0));
                                    lemma_text_lt_transitive(prefix@, v[pos as int].0, v[j - 1].0);
                                }
                                assert(text_lt(prefix@, v[j - 1].0));
                            } else if j == pos {
                                assert(text_lt(v[i].0, prefix@));
                            } else if i < pos && j > pos {
                                assert(text_lt(v[i].0, v[j - 1].0));
                            }
                        }
                    }
                }
                Ok(())
            },
        }
    }

    /// Remove `link` from the list under `prefix`; rejected when the
    /// prefix is unknown or the link is not in its list.
    pub fn remove(&mut self, prefix: String, link: String) -> (r: Result<(), HookManagerResponse>)
        requires
            old(self).wf(),
        ensures
            final(self).wf(),
            match r {
                Ok(_) => (hm_get(old(self)@, prefix@) matches Some(ls) && ls.contains(link@))
                    && final(self)@ == hm_remove(old(self)@, prefix@, link@),
                Err(e) => !(hm_get(old(self)@, prefix@) matches Some(ls) && ls.contains(link@))
                    && (e matches HookManagerResponse::Error(m) && m@ == "Not found"@) && final(self)@
                    == old(self)@,
            },
    {
        let ghost v = self@;
        match find_prefix(&self.hooks, prefix.as_str()) {
            Some(pos) => {
                proof {
                    lemma_hm_get_position(v, prefix@, pos as int);
                }
                match find_link(&self.hooks[pos].1, link.as_str()) {
                    Some(li) => {
                        let (p, mut ls) = self.hooks.remove(pos);
                        let _ = ls.remove(li);
                        self.hooks.insert(pos, (p, ls));
                        proof {
                            let old_links = v[pos as int].1;
                            assert(old_links.contains(link@)) by {
                                assert(old_links[li as int] == link@);
                            }
                            lemma_links_remove_at(old_links, link@, li as int);
                            lemma_hm_remove_at(v, prefix@, link@, pos as int);
                            assert(ls.deep_view() =~= links_remove(old_links, link@));
                            assert forall|m: int| 0 <= m < self@.len() implies self@[m]
                                == hm_remove(v, prefix@, link@)[m] by {
                                assert(self@[m] == (self.hooks@[m].0@, self.hooks@[m].1.deep_view()));
                            }
                            assert(self@ =~= hm_remove(v, prefix@, link@));
                            assert(hm_wf(self@)) by {
                                assert(forall|j: int|
                                    0 <= j < self@.len() && j != pos ==> self@[j] == v[j]);
                                assert(self@[pos as int].0 == v[pos as int].0);
                                let newls = self@[pos as int].1;
                                assert forall|a: int, b: int|
                                    0 <= a < b < newls.len() implies newls[a] != newls[b] by {
                                    if b < li {
                                    } else if a < li {
                                        assert(newls[a] == old_links[a]);
                                        assert(newls[b] == old_links[b + 1]);
                                    } else {
                                        assert(newls[a] == old_links[a + 1]);
                                        assert(newls[b] == old_links[b + 1]);
                                    }
                                }
                            }
                        }
                        Ok(())
                    },
                    None => {
                        proof {
                            assert(!v[pos as int].1.contains(link@)) by {
                                if v[pos as int].1.contains(link@) {
                                    let w = choose|w: int|
                                        0 <= w < v[pos as int].1.len() && v[pos as int].1[w]
                                            == link@;
                                    assert(self.hooks@[pos as int].1.deep_view()[w] == link@);
                                }
                            }
                        }
                        Err(HookManagerResponse::Error("Not found".to_owned()))
                    },
                }
            },
            None => {
                proof {
                    lemma_hm_get_none(v, prefix@);
                }
                Err(HookManagerResponse::Error("Not found".to_owned()))
            },
        }
    }

    /// Links registered under exactly this prefix, as a copy.
    pub fn get(&self, prefix: &String) -> (r: Option<Vec<String>>)
        ensures
            match r {
                Some(ls) => hm_get(self@, prefix@) == Some(ls.deep_view()),
                None => hm_get(self@, prefix@) == None::<Seq<Seq<char>>>,
            },
    {
        match find_prefix(&self.hooks, prefix.as_str()) {
            Some(pos) => {
                proof {
                    lemma_hm_get_position(self@, prefix@, pos as int);
                }
                Some(clone_links(&self.hooks[pos].1))
            },
            None => {
                proof {
                    lemma_hm_get_none(self@, prefix@);
                }
                None
            },
        }
    }

    /// Every entry whose prefix starts with the query, as copies, in
    /// registry order.
    pub fn list(&self, key: &String) -> (r: Vec<(String, Vec<String>)>)
        ensures
            r.deep_view() == hm_matching(self@, key@),
    {
        let mut result: Vec<(String, Vec<String>)> = Vec::new();
        let n = self.hooks.len();
        let mut i: usize = 0;
        proof {
            assert(self@.skip(0) =~= self@);
            assert(result.deep_view() =~= Seq::<(Seq<char>, Seq<Seq<char>>)>::empty());
        }
        while i < n
            invariant
                i <= n,
                n == self.hooks@.len(),
                hm_matching(self@, key@) == result.deep_view() + hm_matching(
                    self@.skip(i as int),
                    key@,
                ),
            decreases n - i,
        {
            let ghost pre = result.deep_view();
            proof {
                assert(self@.skip(i as int)[0] == self@[i as int]);
                assert(self@.skip(i as int).drop_first() =~= self@.skip(i + 1));
            }
            if str_starts_with(self.hooks[i].0.as_str(), key.as_str()) {
                let entry = (self.hooks[i].0.clone(), clone_links(&self.hooks[i].1));
                result.push(entry);
                proof {
                    assert forall|j: int| 0 <= j < result.deep_view().len() implies result.deep_view()[j]
                        == (pre + seq![self@[i as int]])[j] by {
                        assert(result.deep_view()[j] == (result@[j].0@, result@[j].1.deep_view()));
                    }
                    assert(result.deep_view() =~= pre + seq![self@[i as int]]);
                }
            }
            i = i + 1;
        }
        proof {
            assert(self@.skip(n as int) =~= Seq::<(Seq<char>, Seq<Seq<char>>)>::empty());
            assert(result.deep_view() =~= hm_matching(self@, key@));
        }
        result
    }

    /// The links a mutation of `key` is to be announced to, flattened
    /// in registry order; their number is the number of requests the
    /// dispatch will make.
    pub fn matching_links(&self, key: &String) -> (r: Vec<String>)
        ensures
            r.deep_view() == hm_targets(self@, key@),
    {
        let mut result: Vec<String> = Vec::new();
        let n = self.hooks.len();
        let mut i: usize = 0;
        proof {
            assert(self@.skip(0) =~= self@);
            assert(result.deep_view() =~= Seq::<Seq<char>>::empty());
        }
        while i < n
            invariant
                i <= n,
                n == self.hooks@.len(),
                hm_targets(self@, key@) == result.deep_view() + hm_targets(
                    self@.skip(i as int),
                    key@,
                ),
            decreases n - i,
        {
            let ghost pre = result.deep_view();
            proof {
                assert(self@.skip(i as int)[0] == self@[i as int]);
                assert(self@.skip(i as int).drop_first() =~= self@.skip(i + 1));
            }
            if str_starts_with(key.as_str(), self.hooks[i].0.as_str()) {
                let mut links = clone_links(&self.hooks[i].1);
                let ghost lview = links.deep_view();
                result.append(&mut links);
                proof {
                    assert forall|j: int| 0 <= j < result.deep_view().len() implies result.deep_view()[j]
                        == (pre + lview)[j] by {
                        assert(result.deep_view()[j] == result@[j]@);
                        if j < pre.len() {
                            assert(pre[j] == result@[j]@);
                        } else {
                            assert(lview[j - pre.len()] == result@[j]@);
                        }
                    }
                    assert(result.deep_view() =~= pre + lview);
                }
            }
            i = i + 1;
        }
        proof {
            assert(self@.skip(n as int) =~= Seq::<(Seq<char>, Seq<Seq<char>>)>::empty());
            assert(result.deep_view() =~= hm_targets(self@, key@));
        }
        result
    }

    /// One worker step: apply an action to the registry and say what to
    /// reply and what to announce. The reply is `None` for `Send`,
    /// which expects none; the second component carries the key, the
    /// value and the links of a pending announcement.
    pub fn handle_action(&mut self, action: HookManagerAction) -> (r: (
        Option<HookManagerResponse>,
        Option<(String, String, Vec<String>)>,
    ))
        requires
            old(self).wf(),
        ensures
            final(self).wf(),
            match action {
                HookManagerAction::Add(p, l) => {
                    &&& final(self)@ == if !(hm_get(old(self)@, p@) matches Some(ls) && ls.contains(l@)) {
                        hm_add(old(self)@, p@, l@)
                    } else {
                        old(self)@
                    }
                    &&& r.0 matches Some(resp) && (if !(hm_get(old(self)@, p@) matches Some(ls)
                        && ls.contains(l@)) {
                        resp is Done
                    } else {
                        resp matches HookManagerResponse::Error(m) && m@ == "Already defined"@
                    })
                    &&& r.1 is None
                },
                HookManagerAction::Remove(p, l) => {
                    &&& final(self)@ == if hm_get(old(self)@, p@) matches Some(ls) && ls.contains(l@) {
                        hm_remove(old(self)@, p@, l@)
                    } else {
                        old(self)@
                    }
                    &&& r.0 matches Some(resp) && (if hm_get(old(self)@, p@) matches Some(ls)
                        && ls.contains(l@) {
                        resp is Done
                    } else {
                        resp matches HookManagerResponse::Error(m) && m@ == "Not found"@
                    })
                    &&& r.1 is None
                },
                HookManagerAction::Get(p) => {
                    &&& final(self)@ == old(self)@
                    &&& r.0 matches Some(resp) && (match hm_get(final(self)@, p@) {
                        Some(ls) => resp matches HookManagerResponse::Hook(p2, ls2) && p2@ == p@
                            && ls2.deep_view() == ls,
                        None => resp matches HookManagerResponse::Error(m) && m@ == "Not found"@,
                    })
                    &&& r.1 is None
                },
                HookManagerAction::List(p) => {
                    &&& final(self)@ == old(self)@
                    &&& r.0 matches Some(HookManagerResponse::HookList(entries))
                        && entries.deep_view() == hm_matching(final(self)@, p@)
                    &&& r.1 is None
                },
                HookManagerAction::Send(k, val) => {
                    &&& final(self)@ == old(self)@
                    &&& r.0 is None
                    &&& r.1 matches Some(post) && post.0@ == k@ && post.1@ == val@
                        && post.2.deep_view() == hm_targets(final(self)@, k@)
                },
            },
    {
        match action {
            HookManagerAction::Add(p, l) => {
                match self.add(p, l) {
                    Ok(_) => (Some(HookManagerResponse::Done), None),
                    Err(e) => (Some(e), None),
                }
            },
            HookManagerAction::Remove(p, l) => {
                match self.remove(p, l) {
                    Ok(_) => (Some(HookManagerResponse::Done), None),
                    Err(e) => (Some(e), None),
                }
            },
            HookManagerAction::Get(p) => {
                match self.get(&p) {
                    Some(ls) => (Some(HookManagerResponse::Hook(p, ls)), None),
                    None => (Some(HookManagerResponse::Error("Not found".to_owned())), None),
                }
            },
            HookManagerAction::List(p) => {
                let entries = self.list(&p);
                (Some(HookManagerResponse::HookList(entries)), None)
            },
            HookManagerAction::Send(k, val) => {
                let links = self.matching_links(&k);
                (None, Some((k, val, links)))
            },
        }
    }
}

/// Registering a link makes it present under its prefix, so
/// registering the same pair again is rejected as already defined.
pub proof fn lemma_hook_add_twice(v: HooksView, p: Seq<char>, l: Seq<char>)
    ensures
        hm_get(hm_add(v, p, l), p) matches Some(ls) && ls.contains(l),
    decreases v,
{
    if v.len() == 0 {
        assert(hm_add(v, p, l)[0] == (p, seq![l]));
        assert(hm_get(hm_add(v, p, l), p) == Some(seq![l]));
        assert(seq![l][0] == l);
    } else if text_lt(p, v[0].0) {
        assert(hm_add(v, p, l)[0] == (p, seq![l]));
        assert(hm_get(hm_add(v, p, l), p) == Some(seq![l]));
        assert(seq![l][0] == l);
    } else if p == v[0].0 {
        assert(hm_add(v, p, l)[0] == (v[0].0, v[0].1.push(l)));
        assert(hm_get(hm_add(v, p, l), p) == Some(v[0].1.push(l)));
        assert(v[0].1.push(l)[v[0].1.len() as int] == l);
    } else {
        lemma_hook_add_twice(v.drop_first(), p, l);
        let res = seq![v[0]] + hm_add(v.drop_first(), p, l);
        assert(res[0] == v[0]);
        assert(res.drop_first() =~= hm_add(v.drop_first(), p, l));
    }
}

/// A listing holds exactly the registered entries whose prefix starts
/// with the query.
pub proof fn lemma_hook_list_membership(v: HooksView, q: Seq<char>, e: (Seq<char>, Seq<Seq<char>>))
    ensures
        hm_matching(v, q).contains(e) <==> v.contains(e) && q.is_prefix_of(e.0),
    decreases v,
{
    if v.len() > 0 {
        lemma_hook_list_membership(v.drop_first(), q, e);
        let tailm = hm_matching(v.drop_first(), q);
        if q.is_prefix_of(v[0].0) {
            let res = seq![v[0]] + tailm;
            assert(res[0] == v[0]);
            assert(res.drop_first() =~= tailm);
            assert forall|w: int| 0 <= w < res.len() && res[w] == e implies (v.contains(e)
                && q.is_prefix_of(e.0)) by {
                if w == 0 {
                    assert(v[0] == e);
                } else {
                    assert(tailm[w - 1] == e);
                    assert(tailm.contains(e));
                    let u = choose|u: int|
                        0 <= u < v.drop_first().len() && v.drop_first()[u] == e;
                    assert(v[u + 1] == e);
                }
            }
            if v.contains(e) && q.is_prefix_of(e.0) {
                let u = choose|u: int| 0 <= u < v.len() && v[u] == e;
                if u == 0 {
                    assert(res[0] == e);
                } else {
                    assert(v.drop_first()[u - 1] == e);
                    assert(v.drop_first().contains(e));
                    assert(tailm.contains(e));
                    let w = choose|w: int| 0 <= w < tailm.len() && tailm[w] == e;
                    assert(res[w + 1] == e);
                }
            }
        } else {
            assert forall|w: int| 0 <= w < tailm.len() && tailm[w] == e implies (v.contains(e)
                && q.is_prefix_of(e.0)) by {
                assert(tailm.contains(e));
                let u = choose|u: int| 0 <= u < v.drop_first().len() && v.drop_first()[u] == e;
                assert(v[u + 1] == e);
            }
            if v.contains(e) && q.is_prefix_of(e.0) {
                let u = choose|u: int| 0 <= u < v.len() && v[u] == e;
                assert(u != 0);
                assert(v.drop_first()[u - 1] == e);
                assert(v.drop_first().contains(e));
            }
        }
    }
}

} // verus!
