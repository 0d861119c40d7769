//! Persistent OMT settings (`settings.xml`), matching libomtnet `OMTSettings`.
//!
//! Keys are first-level XML elements under `<Settings>`; there is no fixed
//! schema. Typical keys are `DiscoveryServer` (`omt://host:port`, blank for
//! DNS-SD), `NetworkPortStart` and `NetworkPortEnd`.
//!
//! The store keeps its entries sorted by key, each key once. Reading and
//! writing the file is left to the caller, which hands over its text.
use vstd::prelude::*;
use crate::logging::{path_join_on, join_path_on};
use crate::protocol::xml::{strip_bom, skip_bom};
use crate::text::{
    str_chars, string_of, owned, push_str, push_char, push_chars, trim, trim_bounds, is_ws,
    is_whitespace, find_from, find_chars, lemma_find_from_bounds, escape_seq, push_escaped_str,
    signed_decimal, push_signed_decimal, str_eq, key_lt, lemma_key_lt_irreflexive,
    lemma_key_lt_transitive, lemma_key_lt_total, key_less, escape_char, no_match_at,
    lemma_find_shift, lemma_find_skip,
};
use crate::types::{NETWORK_PORT_END, NETWORK_PORT_START};

verus! {

broadcast use vstd::string::group_string_axioms;

/// File name used under the storage directory (libomtnet `settings.xml`).
pub const SETTINGS_FILE_NAME: &'static str = "settings.xml";
/// Discovery server URL (`omt://host:port`). Empty = default DNS-SD.
pub const KEY_DISCOVERY_SERVER: &'static str = "DiscoveryServer";
/// First TCP port used when binding a sender.
pub const KEY_NETWORK_PORT_START: &'static str = "NetworkPortStart";
/// Last TCP port used when binding a sender.
pub const KEY_NETWORK_PORT_END: &'static str = "NetworkPortEnd";

/// Entries of a settings store: key and value.
pub type Entries = Seq<(Seq<char>, Seq<char>)>;

/// Keys strictly increasing.
pub open spec fn sorted_keys(s: Entries) -> bool {
    forall|i: int, j: int| 0 <= i < j < s.len() ==> key_lt(#[trigger] s[i].0, #[trigger] s[j].0)
}

/// Position of the first entry whose key is `k`, from `i` on.
pub open spec fn find_key(s: Entries, k: Seq<char>, i: int) -> Option<int>
    decreases s.len() - i,
{
    if i < 0 || i >= s.len() {
        None
    } else if s[i].0 == k {
        Some(i)
    } else {
        find_key(s, k, i + 1)
    }
}

/// The value stored under `k`.
pub open spec fn lookup(s: Entries, k: Seq<char>) -> Option<Seq<char>> {
    match find_key(s, k, 0) {
        Some(i) => Some(s[i].1),
        None => None,
    }
}

/// Position where `k` belongs: the first entry, from `i` on, whose key does
/// not sort before `k`.
pub open spec fn insert_pos(s: Entries, k: Seq<char>, i: int) -> int
    decreases s.len() - i,
{
    if i < 0 || i >= s.len() || !key_lt(s[i].0, k) {
        i
    } else {
        insert_pos(s, k, i + 1)
    }
}

/// `s` with `k` set to `v`: the value replaced when the key is present,
/// otherwise a new entry at its sorted place.
pub open spec fn insert_entry(s: Entries, k: Seq<char>, v: Seq<char>) -> Entries {
    let p = insert_pos(s, k, 0);
    if p < s.len() && s[p].0 == k {
        s.update(p, (k, v))
    } else {
        s.insert(p, (k, v))
    }
}

/// `s` without the entry for `k`.
pub open spec fn remove_entry(s: Entries, k: Seq<char>) -> Entries {
    match find_key(s, k, 0) {
        Some(i) => s.remove(i),
        None => s,
    }
}

/// `s` after setting each of `items` in turn.
pub open spec fn apply_items(s: Entries, items: Entries) -> Entries
    decreases items.len(),
{
    if items.len() == 0 {
        s
    } else {
        insert_entry(apply_items(s, items.drop_last()), items.last().0, items.last().1)
    }
}

/// A valid XML element name as settings keys use them: an ASCII letter or
/// `_`, then ASCII letters, digits, `_`, `-` or `.`.
pub open spec fn xml_name(k: Seq<char>) -> bool {
    &&& k.len() > 0
    &&& ('a' <= k[0] <= 'z' || 'A' <= k[0] <= 'Z' || k[0] == '_')
    &&& forall|i: int|
        1 <= i < k.len() ==> ('a' <= #[trigger] k[i] <= 'z' || 'A' <= k[i] <= 'Z' || '0' <= k[i]
            <= '9' || k[i] == '_' || k[i] == '-' || k[i] == '.')
}


proof fn lemma_find_key_none(s: Entries, k: Seq<char>, i: int)
    requires
        0 <= i <= s.len(),
        forall|j: int| i <= j < s.len() ==> s[j].0 != k,
    ensures
        find_key(s, k, i) is None,
    decreases s.len() - i,
{
    if i < s.len() {
        lemma_find_key_none(s, k, i + 1);
    }
}

proof fn lemma_find_key_at(s: Entries, k: Seq<char>, i: int, p: int)
    requires
        0 <= i <= p < s.len(),
        s[p].0 == k,
        forall|j: int| i <= j < p ==> s[j].0 != k,
    ensures
        find_key(s, k, i) == Some(p),
    decreases p - i,
{
    if i < p {
        lemma_find_key_at(s, k, i + 1, p);
    }
}

proof fn lemma_find_key_exists(s: Entries, k: Seq<char>, i: int, p: int)
    requires
        0 <= i <= p < s.len(),
        s[p].0 == k,
    ensures
        find_key(s, k, i) is Some,
    decreases p - i,
{
    if i < p && s[i].0 != k {
        lemma_find_key_exists(s, k, i + 1, p);
    }
}

proof fn lemma_find_key_found(s: Entries, k: Seq<char>, i: int)
    requires
        0 <= i,
    ensures
        find_key(s, k, i) matches Some(p) ==> i <= p < s.len() && s[p].0 == k && forall|j: int|
            i <= j < p ==> s[j].0 != k,
    decreases s.len() - i,
{
    if 0 <= i < s.len() && s[i].0 != k {
        lemma_find_key_found(s, k, i + 1);
    }
}

proof fn lemma_insert_pos(s: Entries, k: Seq<char>, i: int)
    requires
        0 <= i <= s.len(),
        sorted_keys(s),
        forall|j: int| 0 <= j < i ==> key_lt(s[j].0, k),
    ensures
        i <= insert_pos(s, k, i) <= s.len(),
        forall|j: int| 0 <= j < insert_pos(s, k, i) ==> key_lt(#[trigger] s[j].0, k),
        forall|j: int| insert_pos(s, k, i) <= j < s.len() ==> !key_lt(#[trigger] s[j].0, k),
    decreases s.len() - i,
{
    if i < s.len() && key_lt(s[i].0, k) {
        lemma_insert_pos(s, k, i + 1);
    } else if i < s.len() {
        assert forall|j: int| i <= j < s.len() implies !key_lt(#[trigger] s[j].0, k) by {
            if j > i && key_lt(s[j].0, k) {
                lemma_key_lt_transitive(s[i].0, s[j].0, k);
            }
        }
    }
}

/// Setting a key keeps the keys sorted; afterwards the key holds the new
/// value and every other key holds what it held before.
/// Every key is a valid XML element name.
pub open spec fn xml_keys(s: Entries) -> bool {
    forall|i: int| 0 <= i < s.len() ==> xml_name(#[trigger] s[i].0)
}

proof fn lemma_insert_xml(s: Entries, k: Seq<char>, v: Seq<char>)
    requires
        sorted_keys(s),
        xml_keys(s),
        xml_name(k),
    ensures
        xml_keys(insert_entry(s, k, v)),
{
    lemma_insert_pos(s, k, 0);
    let p = insert_pos(s, k, 0);
    let t = insert_entry(s, k, v);
    assert forall|i: int| 0 <= i < t.len() implies xml_name(#[trigger] t[i].0) by {
        if p < s.len() && s[p].0 == k {
            if i != p {
                assert(t[i] == s[i]);
            }
        } else {
            if i < p {
                assert(t[i] == s[i]);
            } else if i > p {
                assert(t[i] == s[i - 1]);
            }
        }
    }
}

proof fn lemma_remove_xml(s: Entries, k: Seq<char>)
    requires
        xml_keys(s),
    ensures
        xml_keys(remove_entry(s, k)),
{
    lemma_find_key_found(s, k, 0);
    let t = remove_entry(s, k);
    match find_key(s, k, 0) {
        Some(p) => {
            assert forall|i: int| 0 <= i < t.len() implies xml_name(#[trigger] t[i].0) by {
                if i < p {
                    assert(t[i] == s[i]);
                } else {
                    assert(t[i] == s[i + 1]);
                }
            }
        },
        None => {},
    }
}

pub proof fn lemma_insert_entry(s: Entries, k: Seq<char>, v: Seq<char>)
    requires
        sorted_keys(s),
    ensures
        sorted_keys(insert_entry(s, k, v)),
        lookup(insert_entry(s, k, v), k) == Some(v),
        forall|k2: Seq<char>| k2 != k ==> lookup(insert_entry(s, k, v), k2) == #[trigger] lookup(s, k2),
{
    let p = insert_pos(s, k, 0);
    lemma_insert_pos(s, k, 0);
    let t = insert_entry(s, k, v);
    if p < s.len() && s[p].0 == k {
        assert forall|i: int, j: int| 0 <= i < j < t.len() implies key_lt(#[trigger] t[i].0, #[trigger] t[j].0) by {
            assert(t[i].0 == s[i].0);
            assert(t[j].0 == s[j].0);
        }
        assert forall|j: int| 0 <= j < p implies t[j].0 != k by {
            lemma_key_lt_irreflexive(k);
        }
        lemma_find_key_at(t, k, 0, p);
        assert forall|k2: Seq<char>| k2 != k implies lookup(t, k2) == #[trigger] lookup(s, k2) by {
            lemma_find_key_found(s, k2, 0);
            lemma_find_key_found(t, k2, 0);
            match find_key(s, k2, 0) {
                Some(q) => {
                    assert(t[q].0 == k2);
                    lemma_find_key_at(t, k2, 0, q);
                },
                None => {
                    assert forall|j: int| 0 <= j < t.len() implies t[j].0 != k2 by {
                        if j != p {
                            assert(t[j] == s[j]);
                            if s[j].0 == k2 {
                                lemma_find_key_exists(s, k2, 0, j);
                                assert(false);
                            }
                        }
                    }
                    lemma_find_key_none(t, k2, 0);
                },
            }
        }
    } else {
        assert forall|j: int| p <= j < s.len() implies key_lt(k, #[trigger] s[j].0) by {
            lemma_key_lt_total(k, s[j].0);
            if j > p && s[j].0 == k {
                lemma_key_lt_total(s[p].0, k);
                assert(key_lt(s[p].0, s[j].0));
            }
        }
        assert forall|i: int, j: int| 0 <= i < j < t.len() implies key_lt(#[trigger] t[i].0, #[trigger] t[j].0) by {
            if j < p {
                assert(t[i] == s[i] && t[j] == s[j]);
            } else if j == p {
                assert(t[i] == s[i]);
            } else if i < p {
                assert(t[i] == s[i] && t[j] == s[j - 1]);
                lemma_key_lt_transitive(s[i].0, k, s[j - 1].0);
            } else if i == p {
                assert(t[j] == s[j - 1]);
            } else {
                assert(t[i] == s[i - 1] && t[j] == s[j - 1]);
            }
        }
        assert forall|j: int| 0 <= j < p implies t[j].0 != k by {
            lemma_key_lt_irreflexive(k);
        }
        lemma_find_key_at(t, k, 0, p);
        assert forall|k2: Seq<char>| k2 != k implies lookup(t, k2) == #[trigger] lookup(s, k2) by {
            lemma_find_key_found(s, k2, 0);
            lemma_find_key_found(t, k2, 0);
            match find_key(s, k2, 0) {
                Some(q) => {
                    let q2 = if q < p {
                        q
                    } else {
                        q + 1
                    };
                    assert(t[q2] == s[q]);
                    assert forall|j: int| 0 <= j < q2 implies t[j].0 != k2 by {
                        if j < p {
                            assert(t[j] == s[j]);
                        } else if j > p {
                            assert(t[j] == s[j - 1]);
                        }
                    }
                    lemma_find_key_at(t, k2, 0, q2);
                },
                None => {
                    assert forall|j: int| 0 <= j < t.len() implies t[j].0 != k2 by {
                        if j != p {
                            let js = if j < p {
                                j
                            } else {
                                j - 1
                            };
                            assert(t[j] == s[js]);
                            if s[js].0 == k2 {
                                lemma_find_key_exists(s, k2, 0, js);
                                assert(false);
                            }
                        }
                    }
                    lemma_find_key_none(t, k2, 0);
                },
            }
        }
    }
}

/// Removing a key keeps the keys sorted; afterwards the key is absent and
/// every other key holds what it held before.
pub proof fn lemma_remove_entry(s: Entries, k: Seq<char>)
    requires
        sorted_keys(s),
    ensures
        sorted_keys(remove_entry(s, k)),
        lookup(remove_entry(s, k), k) is None,
        forall|k2: Seq<char>| k2 != k ==> lookup(remove_entry(s, k), k2) == #[trigger] lookup(s, k2),
{
    lemma_find_key_found(s, k, 0);
    let t = remove_entry(s, k);
    match find_key(s, k, 0) {
        Some(p) => {
            assert forall|i: int, j: int| 0 <= i < j < t.len() implies key_lt(#[trigger] t[i].0, #[trigger] t[j].0) by {
                let is = if i < p {
                    i
                } else {
                    i + 1
                };
                let js = if j < p {
                    j
                } else {
                    j + 1
                };
                assert(t[i] == s[is] && t[j] == s[js]);
            }
            assert forall|j: int| 0 <= j < t.len() implies t[j].0 != k by {
                let js = if j < p {
                    j
                } else {
                    j + 1
                };
                assert(t[j] == s[js]);
                if js != p {
                    lemma_key_lt_irreflexive(k);
                    assert(key_lt(s[js].0, s[p].0) || key_lt(s[p].0, s[js].0));
                }
            }
            lemma_find_key_none(t, k, 0);
            assert forall|k2: Seq<char>| k2 != k implies lookup(t, k2) == #[trigger] lookup(s, k2) by {
                lemma_find_key_found(s, k2, 0);
                match find_key(s, k2, 0) {
                    Some(q) => {
                        let q2 = if q < p {
                            q
                        } else {
                            q - 1
                        };
                        assert(q != p);
                        assert(t[q2] == s[q]);
                        assert forall|j: int| 0 <= j < q2 implies t[j].0 != k2 by {
                            if j < p {
                                assert(t[j] == s[j]);
                            } else {
                                assert(t[j] == s[j + 1]);
                            }
                        }
                        lemma_find_key_at(t, k2, 0, q2);
                    },
                    None => {
                        assert forall|j: int| 0 <= j < t.len() implies t[j].0 != k2 by {
                            let js = if j < p {
                                j
                            } else {
                                j + 1
                            };
                            assert(t[j] == s[js]);
                            if s[js].0 == k2 {
                                lemma_find_key_exists(s, k2, 0, js);
                                assert(false);
                            }
                        }
                        lemma_find_key_none(t, k2, 0);
                    },
                }
            }
        },
        None => {},
    }
}

proof fn lemma_apply_sorted(s: Entries, items: Entries)
    requires
        sorted_keys(s),
    ensures
        sorted_keys(apply_items(s, items)),
    decreases items.len(),
{
    if items.len() > 0 {
        lemma_apply_sorted(s, items.drop_last());
        lemma_insert_entry(apply_items(s, items.drop_last()), items.last().0, items.last().1);
    }
}

/// Settings store: the path of its file and its entries, sorted by key.
#[derive(Debug, Clone)]
pub struct Settings {
    path: String,
    values: Vec<(String, String)>,
}

impl Settings {
    /// The entries, in key order.
    pub closed spec fn entries_view(&self) -> Entries {
        self.values.deep_view()
    }

    /// The path of the settings file.
    pub closed spec fn path_view(&self) -> Seq<char> {
        self.path@
    }

    /// Keys are sorted, unique and valid XML element names.
    pub open spec fn wf(&self) -> bool {
        sorted_keys(self.entries_view()) && xml_keys(self.entries_view())
    }

    /// An empty store for the file at `path`.
    pub fn new(path: &str) -> (r: Settings)
        ensures
            r.wf(),
            r.path_view() == path@,
            r.entries_view() == Seq::<(Seq<char>, Seq<char>)>::empty(),
    {
        let r = Settings { path: owned(path), values: Vec::new() };
        assert(r.values.deep_view() =~= Seq::<(Seq<char>, Seq<char>)>::empty());
        r
    }

    /// Position of `key`, if stored.
    fn position(&self, key: &str) -> (r: Option<usize>)
        ensures
            match find_key(self.entries_view(), key@, 0) {
                Some(i) => r matches Some(u) && u as int == i,
                None => r is None,
            },
            r matches Some(i) ==> i < self.values@.len() && self.values@[i as int].0@ == key@,
    {
        let ghost s = self.values.deep_view();
        proof {
            lemma_find_key_found(s, key@, 0);
        }
        let mut i: usize = 0;
        while i < self.values.len()
            invariant
                i <= self.values@.len(),
                s == self.values.deep_view(),
                find_key(s, key@, 0) == find_key(s, key@, i as int),
            decreases self.values@.len() - i,
        {
            if str_eq(self.values[i].0.as_str(), key) {
                return Some(i);
            }
            i = i + 1;
        }
        None
    }

    /// Path of the XML file this store reads and writes.
    pub fn path(&self) -> (r: &str)
        ensures
            r@ == self.path_view(),
    {
        self.path.as_str()
    }

    /// Number of stored keys.
    pub fn len(&self) -> (r: usize)
        ensures
            r == self.entries_view().len(),
    {
        self.values.len()
    }

    /// True when no keys are stored.
    pub fn is_empty(&self) -> (r: bool)
        ensures
            r == (self.entries_view().len() == 0),
    {
        self.values.len() == 0
    }

    /// True when `key` is present (even if the value is empty).
    pub fn contains_key(&self, key: &str) -> (r: bool)
        ensures
            r == lookup(self.entries_view(), key@) is Some,
    {
        self.position(key).is_some()
    }

    /// Keys in sorted order, each once.
    pub fn keys(&self) -> (r: Vec<&str>)
        ensures
            r@.len() == self.entries_view().len(),
            forall|i: int| 0 <= i < r@.len() ==> (#[trigger] r@[i])@ == self.entries_view()[i].0,
            self.wf() ==> forall|i: int, j: int|
                0 <= i < j < r@.len() ==> key_lt(#[trigger] r@[i]@, #[trigger] r@[j]@),
    {
        let mut out: Vec<&str> = Vec::new();
        let mut i: usize = 0;
        while i < self.values.len()
            invariant
                i <= self.values@.len(),
                out@.len() == i,
                forall|k: int| 0 <= k < i ==> (#[trigger] out@[k])@ == self.values@[k].0@,
            decreases self.values@.len() - i,
        {
            out.push(self.values[i].0.as_str());
            i = i + 1;
        }
        proof {
            assert forall|a: int| 0 <= a < out@.len() implies (#[trigger] out@[a])@
                == self.entries_view()[a].0 by {
                assert(self.entries_view()[a] == self.values@[a].deep_view());
            }
        }
        out
    }

    /// Key/value pairs in sorted key order.
    pub fn entries(&self) -> (r: Vec<(&str, &str)>)
        ensures
            r@.len() == self.entries_view().len(),
            forall|i: int| 0 <= i < r@.len() ==> (#[trigger] r@[i]).0@ == self.entries_view()[i].0 && r@[i].1@
                == self.entries_view()[i].1,
    {
        let mut out: Vec<(&str, &str)> = Vec::new();
        let mut i: usize = 0;
        while i < self.values.len()
            invariant
                i <= self.values@.len(),
                out@.len() == i,
                forall|k: int| 0 <= k < i ==> (#[trigger] out@[k]).0@ == self.values@[k].0@ && out@[k].1@ == self.values@[k].1@,
            decreases self.values@.len() - i,
        {
            out.push((self.values[i].0.as_str(), self.values[i].1.as_str()));
            i = i + 1;
        }
        out
    }

    /// All key/value pairs as owned strings (sorted by key).
    pub fn to_vec(&self) -> (r: Vec<(String, String)>)
        ensures
            r.deep_view() == self.entries_view(),
    {
        crate::protocol::xml::copy_pairs(&self.values)
    }

    /// Remove a key, returning its value.
    pub fn remove(&mut self, key: &str) -> (r: Option<String>)
        requires
            old(self).wf(),
        ensures
            final(self).wf(),
            final(self).path_view() == old(self).path_view(),
            final(self).entries_view() == remove_entry(old(self).entries_view(), key@),
            match lookup(old(self).entries_view(), key@) {
                Some(v) => r matches Some(s) && s@ == v,
                None => r is None,
            },
    {
        proof {
            lemma_remove_entry(self.values.deep_view(), key@);
            lemma_remove_xml(self.values.deep_view(), key@);
        }
        match self.position(key) {
            Some(i) => {
                let ghost before = self.values.deep_view();
                let ghost old_vals = self.values@;
                assert(before[i as int] == old_vals[i as int].deep_view());
                let (_, v) = self.values.remove(i);
                assert(self.values@ == old_vals.remove(i as int));
                assert(self.values.deep_view() =~= before.remove(i as int));
                Some(v)
            },
            None => None,
        }
    }

    /// Look up a string key, returning `default` when missing.
    pub fn get_string(&self, key: &str, default: &str) -> (r: String)
        ensures
            r@ == match lookup(self.entries_view(), key@) {
                Some(v) => v,
                None => default@,
            },
    {
        match self.position(key) {
            Some(i) => {
                assert(self.entries_view()[i as int] == self.values@[i as int].deep_view());
                self.values[i].1.clone()
            },
            None => owned(default),
        }
    }

    /// Set `key` to `value` (keys must be valid XML element names; others
    /// are ignored).
    pub fn set_string(&mut self, key: &str, value: &str)
        requires
            old(self).wf(),
        ensures
            final(self).wf(),
            final(self).path_view() == old(self).path_view(),
            final(self).entries_view() == if xml_name(key@) {
                insert_entry(old(self).entries_view(), key@, value@)
            } else {
                old(self).entries_view()
            },
    {
        if !is_xml_name(key) {
            return;
        }
        self.insert_value(key, value);
    }

    /// Set `key` to `value` in key order.
    fn insert_value(&mut self, key: &str, value: &str)
        requires
            old(self).wf(),
            xml_name(key@),
        ensures
            final(self).wf(),
            final(self).path_view() == old(self).path_view(),
            final(self).entries_view() == insert_entry(old(self).entries_view(), key@, value@),
    {
        let ghost s = self.values.deep_view();
        proof {
            lemma_insert_entry(s, key@, value@);
            lemma_insert_xml(s, key@, value@);
        }
        let kcs = str_chars(key);
        let mut i: usize = 0;
        loop
            invariant
                i <= self.values@.len(),
                s == self.values.deep_view(),
                kcs@ == key@,
                insert_pos(s, key@, 0) == insert_pos(s, key@, i as int),
            ensures
                i <= self.values@.len(),
                i as int == insert_pos(s, key@, 0),
            decreases self.values@.len() - i,
        {
            if i >= self.values.len() {
                break;
            }
            let ks = str_chars(self.values[i].0.as_str());
            assert(s[i as int] == self.values@[i as int].deep_view());
            if !key_less(ks.as_slice(), kcs.as_slice()) {
                break;
            }
            i = i + 1;
        }
        proof {
            if (i as int) < s.len() {
                assert(s[i as int] == self.values@[i as int].deep_view());
            }
        }
        if i < self.values.len() && str_eq(self.values[i].0.as_str(), key) {
            self.values.set(i, (owned(key), owned(value)));
            assert(self.values.deep_view() =~= s.update(i as int, (key@, value@)));
        } else {
            self.values.insert(i, (owned(key), owned(value)));
            assert(self.values.deep_view() =~= s.insert(i as int, (key@, value@)));
        }
    }

    /// Look up an integer key, returning `default` when missing, empty or
    /// not a decimal `i32`.
    pub fn get_integer(&self, key: &str, default: i32) -> (r: i32)
        ensures
            r == match lookup(self.entries_view(), key@) {
                Some(v) => match parse_i32(v) {
                    Some(n) => n,
                    None => default,
                },
                None => default,
            },
    {
        let value = self.get_string(key, "");
        proof {
            reveal_strlit("");
        }
        if value.as_str().is_empty() {
            proof {
                assert(parse_i32(Seq::<char>::empty()) is None);
            }
            return default;
        }
        match parse_i32_text(value.as_str()) {
            Some(n) => n,
            None => default,
        }
    }

    /// Set an integer key (decimal text).
    pub fn set_integer(&mut self, key: &str, value: i32)
        requires
            old(self).wf(),
        ensures
            final(self).wf(),
            final(self).path_view() == old(self).path_view(),
            final(self).entries_view() == if xml_name(key@) {
                insert_entry(old(self).entries_view(), key@, signed_decimal(value as int))
            } else {
                old(self).entries_view()
            },
    {
        let mut text = String::new();
        push_signed_decimal(&mut text, value as i64);
        assert(text@ =~= signed_decimal(value as int));
        self.set_string(key, text.as_str());
    }

    /// Configured discovery server URL (trimmed), or `None` when it is unset
    /// or blank and DNS-SD should be used.
    pub fn discovery_server(&self) -> (r: Option<String>)
        ensures
            ({
                let v = match lookup(self.entries_view(), KEY_DISCOVERY_SERVER@) {
                    Some(v) => trim(v),
                    None => trim(Seq::empty()),
                };
                if v.len() == 0 {
                    r is None
                } else {
                    r matches Some(s) && s@ == v
                }
            }),
    {
        let url = self.get_string(KEY_DISCOVERY_SERVER, "");
        proof {
            reveal_strlit("");
        }
        let t = crate::text::trim_str(url.as_str());
        if t.as_str().is_empty() {
            None
        } else {
            Some(t)
        }
    }

    /// Sender listen-port range from settings, each falling back to the OMT
    /// default when missing or not a port number.
    pub fn network_port_range(&self) -> (r: (u16, u16))
        ensures
            r.0 == port_or_default(match lookup(self.entries_view(), KEY_NETWORK_PORT_START@) {
                Some(v) => match parse_i32(v) {
                    Some(n) => n,
                    None => NETWORK_PORT_START as i32,
                },
                None => NETWORK_PORT_START as i32,
            }, NETWORK_PORT_START),
            r.1 == port_or_default(match lookup(self.entries_view(), KEY_NETWORK_PORT_END@) {
                Some(v) => match parse_i32(v) {
                    Some(n) => n,
                    None => NETWORK_PORT_END as i32,
                },
                None => NETWORK_PORT_END as i32,
            }, NETWORK_PORT_END),
    {
        let start = self.get_integer(KEY_NETWORK_PORT_START, NETWORK_PORT_START as i32);
        let end = self.get_integer(KEY_NETWORK_PORT_END, NETWORK_PORT_END as i32);
        (port_value(start, NETWORK_PORT_START), port_value(end, NETWORK_PORT_END))
    }

    /// The `<Settings>` document holding the entries, one per line.
    pub fn to_xml(&self) -> (r: String)
        ensures
            r@ == settings_xml(self.entries_view()),
    {
        let ghost s = self.values.deep_view();
        let mut out = owned("<Settings>\n");
        let ghost head = out@;
        let mut i: usize = 0;
        while i < self.values.len()
            invariant
                i <= self.values@.len(),
                s == self.values.deep_view(),
                out@ == head + entry_lines(s.take(i as int)),
            decreases self.values@.len() - i,
        {
            push_str(&mut out, "  <");
            push_str(&mut out, self.values[i].0.as_str());
            push_str(&mut out, ">");
            push_escaped_str(&mut out, self.values[i].1.as_str());
            push_str(&mut out, "</");
            push_str(&mut out, self.values[i].0.as_str());
            push_str(&mut out, ">\n");
            proof {
                assert(s.take(i + 1).drop_last() =~= s.take(i as int));
                assert(s.take(i + 1).last() == s[i as int]);
            }
            i = i + 1;
            proof {
                assert(out@ =~= head + entry_lines(s.take(i as int)));
            }
        }
        proof {
            assert(s.take(s.len() as int) =~= s);
        }
        push_str(&mut out, "</Settings>\n");
        out
    }

    /// Build a store for `path` from the text of its file (`None` when the
    /// file is missing or unreadable: no entries).
    pub fn from_contents(path: &str, contents: Option<&str>) -> (r: Settings)
        ensures
            r.wf(),
            r.path_view() == path@,
            r.entries_view() == match contents {
                Some(x) => settings_entries(x@),
                None => Seq::empty(),
            },
    {
        let mut r = Settings::new(path);
        match contents {
            Some(x) => {
                r.values = parse_settings_xml(x);
            },
            None => {},
        }
        r
    }

    /// Reloading the text a store wrote restores the entries it had then,
    /// whatever was changed in memory since, when no key is `Settings` and no
    /// value has white space at either end.
    #[verifier::spinoff_prover]
    pub proof fn lemma_reload_restores(saved: &Settings, text: Seq<char>)
        requires
            saved.wf(),
            forall|i: int|
                0 <= i < saved.entries_view().len() ==> #[trigger] saved.entries_view()[i].0
                    != "Settings"@ && edge_trimmed(saved.entries_view()[i].1),
            text == settings_xml(saved.entries_view()),
        ensures
            settings_entries(text) == saved.entries_view(),
    {
        let e = saved.entries_view();
        assert(xml_keys(e));
        assert forall|i: int| 0 <= i < e.len() implies storable_key(#[trigger] e[i].0)
            && edge_trimmed(e[i].1) by {
            assert(xml_name(e[i].0));
            assert(e[i].0 != "Settings"@ && edge_trimmed(e[i].1));
        }
        lemma_settings_roundtrip(e);
    }

    /// Replace the entries with those of the file's current text (`None`
    /// when it is missing or unreadable).
    pub fn reload(&mut self, contents: Option<&str>)
        ensures
            final(self).wf(),
            final(self).path_view() == old(self).path_view(),
            final(self).entries_view() == match contents {
                Some(x) => settings_entries(x@),
                None => Seq::empty(),
            },
    {
        let fresh = Settings::from_contents(self.path.as_str(), contents);
        *self = fresh;
    }
}

/// `value` as a port number, or `default` when it is out of range.
pub open spec fn port_or_default(value: i32, default: u16) -> u16 {
    if 0 <= value <= 65535 {
        value as u16
    } else {
        default
    }
}

/// `value` as a port number, or `default` when it is out of range.
fn port_value(value: i32, default: u16) -> (r: u16)
    ensures
        r == port_or_default(value, default),
{
    if 0 <= value && value <= 65535 {
        value as u16
    } else {
        default
    }
}

/// Whether `key` is a valid XML element name.
fn is_xml_name(key: &str) -> (r: bool)
    ensures
        r == xml_name(key@),
{
    let cs = str_chars(key);
    if cs.len() == 0 {
        return false;
    }
    let c0 = cs[0];
    if !(('a' <= c0 && c0 <= 'z') || ('A' <= c0 && c0 <= 'Z') || c0 == '_') {
        return false;
    }
    let mut i: usize = 1;
    while i < cs.len()
        invariant
            1 <= i <= cs@.len(),
            cs@ == key@,
            forall|j: int|
                1 <= j < i ==> ('a' <= #[trigger] cs@[j] <= 'z' || 'A' <= cs@[j] <= 'Z' || '0'
                    <= cs@[j] <= '9' || cs@[j] == '_' || cs@[j] == '-' || cs@[j] == '.'),
        decreases cs@.len() - i,
    {
        let c = cs[i];
        if !(('a' <= c && c <= 'z') || ('A' <= c && c <= 'Z') || ('0' <= c && c <= '9') || c == '_'
            || c == '-' || c == '.') {
            return false;
        }
        i = i + 1;
    }
    true
}

/// `str::parse::<i32>`: an optional `+` or `-`, then one or more decimal
/// digits, the value in range.
pub open spec fn parse_i32(s: Seq<char>) -> Option<i32> {
    let neg = s.len() > 0 && s[0] == '-';
    let d = if s.len() > 0 && (s[0] == '+' || s[0] == '-') {
        s.drop_first()
    } else {
        s
    };
    if d.len() == 0 || !crate::protocol::metadata::all_digits(d) {
        None
    } else if neg {
        if crate::protocol::metadata::digits_value(d) > 2147483648 {
            None
        } else {
            Some((0 - crate::protocol::metadata::digits_value(d)) as i32)
        }
    } else if crate::protocol::metadata::digits_value(d) > 2147483647 {
        None
    } else {
        Some(crate::protocol::metadata::digits_value(d) as i32)
    }
}

proof fn lemma_digits_prefix(s: Seq<char>, k: int)
    requires
        0 <= k <= s.len(),
        crate::protocol::metadata::all_digits(s),
    ensures
        crate::protocol::metadata::digits_value(s.take(k)) <= crate::protocol::metadata::digits_value(s),
    decreases s.len() - k,
{
    if k < s.len() {
        lemma_digits_prefix(s, k + 1);
        assert(s.take(k + 1).drop_last() =~= s.take(k));
        assert(s.take(k + 1).last() == s[k]);
        assert('0' <= s[k] <= '9');
    } else {
        assert(s.take(k) =~= s);
    }
}

/// Parse a decimal `i32` (`str::parse::<i32>`).
pub fn parse_i32_text(s: &str) -> (r: Option<i32>)
    ensures
        r == parse_i32(s@),
{
    let cs = str_chars(s);
    let neg = cs.len() > 0 && cs[0] == '-';
    let start: usize = if cs.len() > 0 && (cs[0] == '+' || cs[0] == '-') {
        1
    } else {
        0
    };
    let ghost d = if s@.len() > 0 && (s@[0] == '+' || s@[0] == '-') {
        s@.drop_first()
    } else {
        s@
    };
    proof {
        assert(d =~= cs@.subrange(start as int, cs@.len() as int));
    }
    if start == cs.len() {
        return None;
    }
    let mut v: u64 = 0;
    let mut i: usize = start;
    while i < cs.len()
        invariant
            start <= i <= cs@.len(),
            cs@ == s@,
            d == cs@.subrange(start as int, cs@.len() as int),
            d == (if s@.len() > 0 && (s@[0] == '+' || s@[0] == '-') {
                s@.drop_first()
            } else {
                s@
            }),
            d.len() > 0,
            crate::protocol::metadata::all_digits(d.take(i - start)),
            v == crate::protocol::metadata::digits_value(d.take(i - start)),
            v <= 2147483648,
        decreases cs@.len() - i,
    {
        let c = cs[i];
        if c < '0' || c > '9' {
            proof {
                assert(d[i - start] == c);
            }
            return None;
        }
        proof {
            assert(d.take(i - start + 1).drop_last() =~= d.take(i - start));
            assert(d.take(i - start + 1).last() == c);
        }
        v = v * 10 + ((c as u32) - ('0' as u32)) as u64;
        i = i + 1;
        proof {
            assert forall|k: int| 0 <= k < d.take(i - start).len() implies '0' <= #[trigger] d.take(
                i - start,
            )[k] <= '9' by {
                if k < i - start - 1 {
                    assert(d.take(i - start)[k] == d.take(i - start - 1)[k]);
                }
            }
        }
        if v > 2147483648 {
            proof {
                if crate::protocol::metadata::all_digits(d) {
                    lemma_digits_prefix(d, i - start);
                }
            }
            return None;
        }
    }
    proof {
        assert(d.take(d.len() as int) =~= d);
    }
    if neg {
        if v > 2147483648 {
            None
        } else if v == 2147483648 {
            Some(i32::MIN)
        } else {
            Some(0 - (v as i32))
        }
    } else if v > 2147483647 {
        None
    } else {
        Some(v as i32)
    }
}

/// One `  <key>value</key>` line per entry (values escaped).
pub open spec fn entry_lines(s: Entries) -> Seq<char>
    decreases s.len(),
{
    if s.len() == 0 {
        Seq::empty()
    } else {
        entry_lines(s.drop_last()) + "  <"@ + s.last().0 + ">"@ + escape_seq(s.last().1) + "</"@
            + s.last().0 + ">\n"@
    }
}

/// The `<Settings>` document for `s`.
pub open spec fn settings_xml(s: Entries) -> Seq<char> {
    "<Settings>\n"@ + entry_lines(s) + "</Settings>\n"@
}

/// Full path of `settings.xml` in the storage directory.
pub fn settings_file_path(windows: bool, storage_dir: &str) -> (r: String)
    ensures
        r@ == path_join_on(windows, storage_dir@, SETTINGS_FILE_NAME@),
{
    join_path_on(windows, storage_dir, SETTINGS_FILE_NAME)
}


/// Whether `pat` occurs in `b` at position `p`.
pub open spec fn starts_at(b: Seq<char>, p: int, pat: Seq<char>) -> bool {
    0 <= p && p + pat.len() <= b.len() && b.subrange(p, p + pat.len()) == pat
}

/// `s[from..]` with every occurrence of `pat` replaced by `rep`, scanning
/// left to right (`str::replace`).
pub open spec fn replace_from(s: Seq<char>, pat: Seq<char>, rep: Seq<char>, from: int) -> Seq<char>
    decreases s.len() + 1 - from,
{
    if from < 0 || from > s.len() {
        Seq::empty()
    } else {
        match find_from(s, pat, from) {
            Some(k) => if from <= k && from < k + pat.len() <= s.len() {
                s.subrange(from, k) + rep + replace_from(s, pat, rep, k + pat.len())
            } else {
                s.skip(from)
            },
            None => s.skip(from),
        }
    }
}

/// `s` with the five XML entities decoded, in the order `&lt;`, `&gt;`,
/// `&quot;`, `&apos;`, `&amp;`, each as a whole-text replacement.
pub open spec fn unescape(s: Seq<char>) -> Seq<char> {
    let a = replace_from(s, "&lt;"@, "<"@, 0);
    let b = replace_from(a, "&gt;"@, ">"@, 0);
    let c = replace_from(b, "&quot;"@, "\""@, 0);
    let d = replace_from(c, "&apos;"@, "'"@, 0);
    replace_from(d, "&amp;"@, "&"@, 0)
}

/// The text inside the first `<tag …>…</tag>` element of `x` (empty for a
/// self-closing `<tag …/>`).
pub open spec fn inner_body(x: Seq<char>, tag: Seq<char>) -> Option<Seq<char>> {
    let open = seq!['<'] + tag;
    match find_from(x, open, 0) {
        None => None,
        Some(start) => match find_from(x, seq!['>'], start + open.len()) {
            None => None,
            Some(gt) => if x[gt - 1] == '/' {
                Some(Seq::empty())
            } else {
                match find_from(x, "</"@ + tag + ">"@, gt + 1) {
                    Some(end) => Some(x.subrange(gt + 1, end)),
                    None => None,
                }
            },
        },
    }
}

/// End of an element name that starts at `i`: the first white space, `>` or
/// `/` (or the end of `b`).
pub open spec fn name_end(b: Seq<char>, i: int) -> int
    decreases b.len() - i,
{
    if i < 0 || i >= b.len() {
        b.len() as int
    } else if is_ws(b[i]) || b[i] == '>' || b[i] == '/' {
        i
    } else {
        name_end(b, i + 1)
    }
}

/// The entries set by the child elements of a `<Settings>` body, read from
/// position `pos` on: comments and processing instructions are skipped, as is
/// text between elements; a self-closing element sets an empty value, others
/// their trimmed, unescaped text; reading stops at a closing tag, an invalid
/// name or an unterminated construct.
pub open spec fn settings_items(b: Seq<char>, pos: int) -> Entries
    decreases b.len() - pos,
{
    if pos < 0 || pos > b.len() {
        Seq::empty()
    } else {
        let p = crate::text::skip_ws(b, pos);
        if p >= b.len() {
            Seq::empty()
        } else if starts_at(b, p, "<!--"@) {
            match find_from(b, "-->"@, p + 4) {
                Some(e) => if pos < e + 3 <= b.len() {
                    settings_items(b, e + 3)
                } else {
                    Seq::empty()
                },
                None => Seq::empty(),
            }
        } else if starts_at(b, p, "<?"@) {
            match find_from(b, "?>"@, p) {
                Some(e) => if pos < e + 2 <= b.len() {
                    settings_items(b, e + 2)
                } else {
                    Seq::empty()
                },
                None => Seq::empty(),
            }
        } else if b[p] != '<' {
            match find_from(b, seq!['<'], p) {
                Some(q) => if pos < q <= b.len() {
                    settings_items(b, q)
                } else {
                    Seq::empty()
                },
                None => Seq::empty(),
            }
        } else if starts_at(b, p, "</"@) {
            Seq::empty()
        } else {
            let ne = name_end(b, p + 1);
            let name = b.subrange(p + 1, ne);
            if name.len() == 0 || !xml_name(name) {
                Seq::empty()
            } else {
                match find_from(b, seq!['>'], ne) {
                    None => Seq::empty(),
                    Some(gt) => {
                        let head = trim(b.subrange(ne, gt));
                        if head.len() > 0 && head.last() == '/' {
                            if pos < gt + 1 <= b.len() {
                                seq![(name, Seq::<char>::empty())] + settings_items(b, gt + 1)
                            } else {
                                Seq::empty()
                            }
                        } else {
                            let close = "</"@ + name + ">"@;
                            match find_from(b, close, gt + 1) {
                                None => Seq::empty(),
                                Some(end) => if pos < end + close.len() <= b.len() {
                                    seq![(name, unescape(trim(b.subrange(gt + 1, end))))]
                                        + settings_items(b, end + close.len())
                                } else {
                                    Seq::empty()
                                },
                            }
                        }
                    },
                }
            }
        }
    }
}

/// The entries of a `settings.xml` text: the children of its `<Settings>`
/// element (leading byte-order marks skipped); none without that element.
pub open spec fn settings_entries(xml: Seq<char>) -> Entries {
    match inner_body(strip_bom(xml), "Settings"@) {
        Some(body) => apply_items(Seq::empty(), settings_items(body, 0)),
        None => Seq::empty(),
    }
}

/// `s` with every occurrence of `pat` replaced by `rep`.
fn replace_all(s: &[char], pat: &str, rep: &str) -> (r: Vec<char>)
    requires
        pat@.len() > 0,
    ensures
        r@ == replace_from(s@, pat@, rep@, 0),
{
    let pcs = str_chars(pat);
    let rcs = str_chars(rep);
    let mut out: Vec<char> = Vec::new();
    let mut from: usize = 0;
    let n = s.len();
    loop
        invariant
            from <= s@.len(),
            n == s@.len(),
            pcs@ == pat@,
            pat@.len() > 0,
            rcs@ == rep@,
            out@ + replace_from(s@, pat@, rep@, from as int) == replace_from(s@, pat@, rep@, 0),
        decreases s@.len() + 1 - from,
    {
        match find_chars(s, pcs.as_slice(), from) {
            Some(k) => {
                proof {
                    lemma_find_from_bounds(s@, pat@, from as int);
                }
                let ghost before = out@;
                let mut j = from;
                while j < k
                    invariant
                        from <= j <= k,
                        k < n,
                        n == s@.len(),
                        out@ == before + s@.subrange(from as int, j as int),
                    decreases k - j,
                {
                    out.push(s[j]);
                    j = j + 1;
                    assert(out@ =~= before + s@.subrange(from as int, j as int));
                }
                let mut t: usize = 0;
                while t < rcs.len()
                    invariant
                        t <= rcs@.len(),
                        out@ == before + s@.subrange(from as int, k as int) + rcs@.take(t as int),
                    decreases rcs@.len() - t,
                {
                    out.push(rcs[t]);
                    t = t + 1;
                    assert(out@ =~= before + s@.subrange(from as int, k as int) + rcs@.take(t as int));
                }
                assert(rcs@.take(rcs@.len() as int) =~= rcs@);
                let next = k + pcs.len();
                proof {
                    assert(out@ + replace_from(s@, pat@, rep@, next as int) =~= before + replace_from(
                        s@,
                        pat@,
                        rep@,
                        from as int,
                    ));
                }
                from = next;
            },
            None => {
                let ghost before = out@;
                let mut j = from;
                while j < n
                    invariant
                        from <= j <= n,
                        n == s@.len(),
                        out@ == before + s@.subrange(from as int, j as int),
                    decreases n - j,
                {
                    out.push(s[j]);
                    j = j + 1;
                    assert(out@ =~= before + s@.subrange(from as int, j as int));
                }
                assert(out@ =~= before + s@.skip(from as int));
                return out;
            },
        }
    }
}

/// The five XML entities decoded (see [`unescape`]).
fn unescape_xml(s: &[char]) -> (r: Vec<char>)
    ensures
        r@ == unescape(s@),
{
    proof {
        reveal_strlit("&lt;");
        reveal_strlit("&gt;");
        reveal_strlit("&quot;");
        reveal_strlit("&apos;");
        reveal_strlit("&amp;");
    }
    let a = replace_all(s, "&lt;", "<");
    let b = replace_all(a.as_slice(), "&gt;", ">");
    let c = replace_all(b.as_slice(), "&quot;", "\"");
    let d = replace_all(c.as_slice(), "&apos;", "'");
    replace_all(d.as_slice(), "&amp;", "&")
}


/// Whether `pat` occurs in `b` at `p`.
fn at(b: &[char], p: usize, pat: &str) -> (r: bool)
    ensures
        r == starts_at(b@, p as int, pat@),
{
    let pcs = str_chars(pat);
    if p > b.len() || pcs.len() > b.len() - p {
        return false;
    }
    crate::text::chars_eq(b, p, p + pcs.len(), pat)
}

/// First position of `c` in `b` at or after `from`.
fn find_char_from(b: &[char], c: char, from: usize) -> (r: Option<usize>)
    requires
        from <= b@.len(),
    ensures
        r matches Some(k) ==> find_from(b@, seq![c], from as int) == Some(k as int) && from <= k < b@.len(),
        r is None ==> find_from(b@, seq![c], from as int) is None,
{
    let pat: Vec<char> = vec![c];
    assert(pat@ =~= seq![c]);
    let r = find_chars(b, pat.as_slice(), from);
    proof {
        lemma_find_from_bounds(b@, seq![c], from as int);
    }
    r
}

/// The span of the text inside the first `<tag …>…</tag>` element.
fn inner_element(x: &[char], tag: &str) -> (r: Option<(usize, usize)>)
    ensures
        match inner_body(x@, tag@) {
            Some(body) => r matches Some((a, c)) && a <= c <= x@.len() && x@.subrange(a as int, c as int) == body,
            None => r is None,
        },
{
    let n = x.len();
    let mut open_s = owned("<");
    push_str(&mut open_s, tag);
    let open = str_chars(open_s.as_str());
    proof {
        reveal_strlit("<");
        assert(open@ =~= seq!['<'] + tag@);
    }
    let start = match find_chars(x, open.as_slice(), 0) {
        Some(k) => k,
        None => return None,
    };
    proof {
        lemma_find_from_bounds(x@, open@, 0);
    }
    let after = start + open.len();
    let gt = match find_char_from(x, '>', after) {
        Some(g) => g,
        None => return None,
    };
    proof {
        assert(open@.len() >= 1);
    }
    if x[gt - 1] == '/' {
        return Some((0, 0));
    }
    let mut close_s = owned("</");
    push_str(&mut close_s, tag);
    push_str(&mut close_s, ">");
    let close = str_chars(close_s.as_str());
    let end = match find_chars(x, close.as_slice(), gt + 1) {
        Some(e) => e,
        None => return None,
    };
    proof {
        lemma_find_from_bounds(x@, close@, gt + 1);
    }
    Some((gt + 1, end))
}

/// What reading a `<Settings>` body at one position yields.
enum SettingsStep {
    /// Reading stops.
    Stop,
    /// Nothing is set; reading goes on at the position.
    Skip(usize),
    /// The key is set to the value; reading goes on at the position.
    Item(String, String, usize),
}

/// The read at position `pos` of a `<Settings>` body.
fn settings_step(b: &[char], pos: usize) -> (r: SettingsStep)
    requires
        pos <= b@.len(),
    ensures
        match r {
            SettingsStep::Stop => settings_items(b@, pos as int) == Seq::<(Seq<char>, Seq<char>)>::empty(),
            SettingsStep::Skip(next) => pos < next <= b@.len() && settings_items(b@, pos as int)
                == settings_items(b@, next as int),
            SettingsStep::Item(k, v, next) => pos < next <= b@.len() && xml_name(k@) && settings_items(
                b@,
                pos as int,
            ) == seq![(k@, v@)] + settings_items(b@, next as int),
        },
{
    let n = b.len();
    let mut p = pos;
    while p < n && is_whitespace(b[p])
        invariant
            pos <= p <= n,
            n == b@.len(),
            crate::text::skip_ws(b@, p as int) == crate::text::skip_ws(b@, pos as int),
        decreases n - p,
    {
        p = p + 1;
    }
    if p >= n {
        return SettingsStep::Stop;
    }
    if at(b, p, "<!--") {
        proof {
            reveal_strlit("<!--");
            reveal_strlit("-->");
        }
        let pat = str_chars("-->");
        let e = match find_chars(b, pat.as_slice(), p + 4) {
            Some(e) => e,
            None => return SettingsStep::Stop,
        };
        proof {
            lemma_find_from_bounds(b@, pat@, p + 4);
        }
        return SettingsStep::Skip(e + 3);
    }
    if at(b, p, "<?") {
        proof {
            reveal_strlit("<?");
            reveal_strlit("?>");
        }
        let pat = str_chars("?>");
        let e = match find_chars(b, pat.as_slice(), p) {
            Some(e) => e,
            None => return SettingsStep::Stop,
        };
        proof {
            lemma_find_from_bounds(b@, pat@, p as int);
        }
        if e + 2 <= pos {
            return SettingsStep::Stop;
        }
        return SettingsStep::Skip(e + 2);
    }
    if b[p] != '<' {
        let q = match find_char_from(b, '<', p) {
            Some(q) => q,
            None => return SettingsStep::Stop,
        };
        proof {
            lemma_find_from_bounds(b@, seq!['<'], p as int);
            assert(b@.subrange(q as int, q + 1)[0] == b@[q as int]);
        }
        return SettingsStep::Skip(q);
    }
    if at(b, p, "</") {
        return SettingsStep::Stop;
    }
    let mut ne = p + 1;
    while ne < n && !(is_whitespace(b[ne]) || b[ne] == '>' || b[ne] == '/')
        invariant
            p + 1 <= ne <= n,
            n == b@.len(),
            name_end(b@, ne as int) == name_end(b@, p + 1),
        decreases n - ne,
    {
        ne = ne + 1;
    }
    let name = string_of(b, p + 1, ne);
    if ne == p + 1 || !is_xml_name(name.as_str()) {
        return SettingsStep::Stop;
    }
    let gt = match find_char_from(b, '>', ne) {
        Some(g) => g,
        None => return SettingsStep::Stop,
    };
    let (ha, hb) = trim_bounds(b, ne, gt);
    proof {
        if ha < hb {
            assert(trim(b@.subrange(ne as int, gt as int)).last() == b@[hb - 1]);
        }
    }
    if ha < hb && b[hb - 1] == '/' {
        proof {
            reveal_strlit("");
        }
        return SettingsStep::Item(name, String::new(), gt + 1);
    }
    let mut close_s = owned("</");
    push_str(&mut close_s, name.as_str());
    push_str(&mut close_s, ">");
    let close = str_chars(close_s.as_str());
    let end = match find_chars(b, close.as_slice(), gt + 1) {
        Some(e) => e,
        None => return SettingsStep::Stop,
    };
    proof {
        lemma_find_from_bounds(b@, close@, gt + 1);
        reveal_strlit("</");
        reveal_strlit(">");
    }
    let (va, vb) = trim_bounds(b, gt + 1, end);
    let raw = str_chars(string_of(b, va, vb).as_str());
    let value_cs = unescape_xml(raw.as_slice());
    let value = string_of(value_cs.as_slice(), 0, value_cs.len());
    assert(value_cs@.subrange(0, value_cs@.len() as int) =~= value_cs@);
    SettingsStep::Item(name, value, end + close.len())
}

/// The entries set by the children of a `<Settings>` body.
fn parse_children(b: &[char]) -> (r: Settings)
    ensures
        r.wf(),
        r.entries_view() == apply_items(Seq::empty(), settings_items(b@, 0)),
{
    let n = b.len();
    let mut st = Settings::new("");
    let ghost mut done: Entries = Seq::empty();
    let mut pos: usize = 0;
    proof {
        assert(done + settings_items(b@, 0) =~= settings_items(b@, 0));
    }
    loop
        invariant
            pos <= n,
            n == b@.len(),
            st.wf(),
            st.entries_view() == apply_items(Seq::empty(), done),
            done + settings_items(b@, pos as int) == settings_items(b@, 0),
        ensures
            st.wf(),
            st.entries_view() == apply_items(Seq::empty(), settings_items(b@, 0)),
        decreases n - pos,
    {
        match settings_step(b, pos) {
            SettingsStep::Stop => {
                assert(done + Seq::<(Seq<char>, Seq<char>)>::empty() =~= done);
                break;
            },
            SettingsStep::Skip(next) => {
                pos = next;
            },
            SettingsStep::Item(k, v, next) => {
                st.insert_value(k.as_str(), v.as_str());
                proof {
                    let item = (k@, v@);
                    assert(done.push(item).drop_last() =~= done);
                    assert(done.push(item).last() == item);
                    assert(done.push(item) + settings_items(b@, next as int) =~= done + settings_items(b@, pos as int));
                    done = done.push(item);
                }
                pos = next;
            },
        }
    }
    st
}

/// The entries of a `settings.xml` text, sorted by key.
pub fn parse_settings_xml(xml: &str) -> (r: Vec<(String, String)>)
    ensures
        r.deep_view() == settings_entries(xml@),
        sorted_keys(r.deep_view()),
        xml_keys(r.deep_view()),
{
    let cs = str_chars(xml);
    let mut i: usize = 0;
    while i < cs.len() && cs[i] == '\u{feff}'
        invariant
            i <= cs@.len(),
            cs@ == xml@,
            skip_bom(xml@, i as int) == skip_bom(xml@, 0),
        decreases cs.len() - i,
    {
        i = i + 1;
    }
    let x = str_chars(string_of(cs.as_slice(), i, cs.len()).as_str());
    assert(x@ == strip_bom(xml@));
    match inner_element(x.as_slice(), "Settings") {
        Some((a, c)) => {
            let body = str_chars(string_of(x.as_slice(), a, c).as_str());
            let st = parse_children(body.as_slice());
            st.values
        },
        None => {
            let v: Vec<(String, String)> = Vec::new();
            assert(v.deep_view() =~= Seq::<(Seq<char>, Seq<char>)>::empty());
            v
        },
    }
}

/// The characters `unescape` decodes, in its order: `<`, `>`, `"`, `'`, `&`.
spec fn decoded_char(k: int) -> char {
    if k == 0 {
        '<'
    } else if k == 1 {
        '>'
    } else if k == 2 {
        '"'
    } else if k == 3 {
        '\''
    } else {
        '&'
    }
}

/// Whether `c` is among the first `k` characters `unescape` decodes.
spec fn decoded_before(c: char, k: int) -> bool {
    (k > 0 && c == '<') || (k > 1 && c == '>') || (k > 2 && c == '"') || (k > 3 && c == '\'') || (k
        > 4 && c == '&')
}

/// A character after the first `k` decoding passes of an escaped text.
spec fn stage_char(k: int, c: char) -> Seq<char> {
    if decoded_before(c, k) {
        seq![c]
    } else {
        escape_char(c)
    }
}

/// A text after the first `k` decoding passes of its escape.
spec fn stage_seq(k: int, v: Seq<char>) -> Seq<char>
    decreases v.len(),
{
    if v.len() == 0 {
        Seq::empty()
    } else {
        stage_char(k, v[0]) + stage_seq(k, v.drop_first())
    }
}

proof fn lemma_replace_shift(a: Seq<char>, b: Seq<char>, pat: Seq<char>, rep: Seq<char>, i: int)
    requires
        pat.len() > 0,
        0 <= i <= b.len(),
    ensures
        replace_from(a + b, pat, rep, a.len() + i) == replace_from(b, pat, rep, i),
    decreases b.len() + 1 - i,
{
    let t = a + b;
    lemma_find_shift(a, b, pat, i);
    lemma_find_from_bounds(b, pat, i);
    match find_from(b, pat, i) {
        Some(j) => {
            assert(t.subrange(a.len() + i, j + a.len()) =~= b.subrange(i, j));
            lemma_replace_shift(a, b, pat, rep, j + pat.len());
            assert(a.len() + (j + pat.len()) == j + a.len() + pat.len());
        },
        None => {
            assert(t.skip(a.len() + i) =~= b.skip(i));
        },
    }
}

proof fn lemma_replace_skip(t: Seq<char>, pat: Seq<char>, rep: Seq<char>, from: int, m: int)
    requires
        pat.len() > 0,
        0 <= from <= m <= t.len(),
        forall|j: int| from <= j < m ==> #[trigger] no_match_at(t, pat, j),
    ensures
        replace_from(t, pat, rep, from) == t.subrange(from, m) + replace_from(t, pat, rep, m),
{
    lemma_find_skip(t, pat, from, m);
    lemma_find_from_bounds(t, pat, m);
    match find_from(t, pat, m) {
        Some(k) => {
            assert(t.subrange(from, k) =~= t.subrange(from, m) + t.subrange(m, k));
        },
        None => {
            assert(t.skip(from) =~= t.subrange(from, m) + t.skip(m));
        },
    }
}

/// Decoding pass `k` of `unescape` turns the text after `k` passes into
/// the text after `k + 1`.
proof fn lemma_stage_step(k: int, v: Seq<char>)
    requires
        0 <= k <= 4,
    ensures
        replace_from(stage_seq(k, v), escape_char(decoded_char(k)), seq![decoded_char(k)], 0)
            == stage_seq(k + 1, v),
    decreases v.len(),
{
    let pat = escape_char(decoded_char(k));
    let rep = seq![decoded_char(k)];
    let t = stage_seq(k, v);
    if v.len() == 0 {
        assert(t.skip(0) =~= Seq::<char>::empty());
    } else {
        let c = v[0];
        let p = stage_char(k, c);
        let rest = stage_seq(k, v.drop_first());
        assert(t == p + rest);
        lemma_stage_step(k, v.drop_first());
        if c == decoded_char(k) {
            assert(p == pat);
            assert(t.subrange(0, pat.len() as int) =~= pat);
            assert(find_from(t, pat, 0) == Some(0int));
            lemma_replace_shift(p, rest, pat, rep, 0);
            assert(t.subrange(0, 0) + rep + replace_from(t, pat, rep, pat.len() as int) =~= rep
                + stage_seq(k + 1, v.drop_first()));
            assert(stage_char(k + 1, c) == rep);
        } else {
            assert(stage_char(k + 1, c) == p);
            assert forall|j: int| 0 <= j < p.len() implies #[trigger] no_match_at(t, pat, j) by {
                if j + pat.len() <= t.len() && t.subrange(j, j + pat.len()) == pat {
                    assert(t[j] == t.subrange(j, j + pat.len())[0]);
                    assert(t[j] == p[j]);
                    if j == 0 {
                        assert(t[1] == t.subrange(0, pat.len() as int)[1]);
                        assert(t[1] == p[1]);
                        if p.len() > 2 && pat.len() > 2 {
                            assert(t[2] == t.subrange(0, pat.len() as int)[2]);
                            assert(t[2] == p[2]);
                        }
                    }
                }
            }
            lemma_replace_skip(t, pat, rep, 0, p.len() as int);
            assert(t.subrange(0, p.len() as int) =~= p);
            lemma_replace_shift(p, rest, pat, rep, 0);
        }
    }
}

proof fn lemma_stage_concat(k: int, a: Seq<char>, b: Seq<char>)
    ensures
        stage_seq(k, a + b) == stage_seq(k, a) + stage_seq(k, b),
    decreases a.len(),
{
    if a.len() == 0 {
        assert(a + b =~= b);
    } else {
        assert((a + b).drop_first() =~= a.drop_first() + b);
        lemma_stage_concat(k, a.drop_first(), b);
    }
}

proof fn lemma_escape_is_stage(v: Seq<char>)
    ensures
        escape_seq(v) == stage_seq(0, v),
    decreases v.len(),
{
    if v.len() > 0 {
        lemma_escape_is_stage(v.drop_last());
        lemma_stage_concat(0, v.drop_last(), seq![v.last()]);
        assert(v.drop_last() + seq![v.last()] =~= v);
        let one = seq![v.last()];
        assert(one.drop_first() =~= Seq::<char>::empty());
        assert(stage_seq(0, one.drop_first()) == Seq::<char>::empty());
        assert(one[0] == v.last());
        assert(stage_char(0, v.last()) == escape_char(v.last()));
        assert(stage_seq(0, one) == stage_char(0, one[0]) + stage_seq(0, one.drop_first()));
        assert(stage_seq(0, one) =~= escape_char(v.last()));
    }
}

proof fn lemma_stage_last(v: Seq<char>)
    ensures
        stage_seq(5, v) == v,
    decreases v.len(),
{
    if v.len() > 0 {
        lemma_stage_last(v.drop_first());
        assert(stage_char(5, v[0]) == seq![v[0]]);
        assert(seq![v[0]] + v.drop_first() =~= v);
    }
}

/// Decoding the entities of an escaped text gives the text back.
pub proof fn lemma_unescape_escape(v: Seq<char>)
    ensures
        unescape(escape_seq(v)) == v,
{
    reveal_strlit("&lt;");
    reveal_strlit("&gt;");
    reveal_strlit("&quot;");
    reveal_strlit("&apos;");
    reveal_strlit("&amp;");
    reveal_strlit("<");
    reveal_strlit(">");
    reveal_strlit("\"");
    reveal_strlit("'");
    reveal_strlit("&");
    lemma_escape_is_stage(v);
    lemma_stage_step(0, v);
    lemma_stage_step(1, v);
    lemma_stage_step(2, v);
    lemma_stage_step(3, v);
    lemma_stage_step(4, v);
    lemma_stage_last(v);
    assert("&lt;"@ =~= escape_char(decoded_char(0)));
    assert("<"@ =~= seq![decoded_char(0)]);
    assert("&gt;"@ =~= escape_char(decoded_char(1)));
    assert(">"@ =~= seq![decoded_char(1)]);
    assert("&quot;"@ =~= escape_char(decoded_char(2)));
    assert("\""@ =~= seq![decoded_char(2)]);
    assert("&apos;"@ =~= escape_char(decoded_char(3)));
    assert("'"@ =~= seq![decoded_char(3)]);
    assert("&amp;"@ =~= escape_char(decoded_char(4)));
    assert("&"@ =~= seq![decoded_char(4)]);
}

/// One line of the settings document: `  <key>value</key>` (value escaped).
spec fn entry_line(e: (Seq<char>, Seq<char>)) -> Seq<char> {
    seq![' ', ' ', '<'] + e.0 + seq!['>'] + escape_seq(e.1) + seq!['<', '/'] + e.0 + seq!['>', '\n']
}

/// The lines of the settings document, first entry first.
spec fn lines_from(s: Entries) -> Seq<char>
    decreases s.len(),
{
    if s.len() == 0 {
        Seq::empty()
    } else {
        entry_line(s[0]) + lines_from(s.drop_first())
    }
}

proof fn lemma_lines_concat(a: Entries, b: Entries)
    ensures
        lines_from(a + b) == lines_from(a) + lines_from(b),
    decreases a.len(),
{
    if a.len() == 0 {
        assert(a + b =~= b);
    } else {
        assert((a + b).drop_first() =~= a.drop_first() + b);
        lemma_lines_concat(a.drop_first(), b);
    }
}

proof fn lemma_entry_lines_from(s: Entries)
    ensures
        entry_lines(s) == lines_from(s),
    decreases s.len(),
{
    reveal_strlit("  <");
    reveal_strlit(">");
    reveal_strlit("</");
    reveal_strlit(">\n");
    if s.len() > 0 {
        lemma_entry_lines_from(s.drop_last());
        lemma_lines_concat(s.drop_last(), seq![s.last()]);
        assert(s.drop_last() + seq![s.last()] =~= s);
        let one = seq![s.last()];
        assert(one.drop_first() =~= Seq::<(Seq<char>, Seq<char>)>::empty());
        assert(lines_from(one) == entry_line(s.last()) + lines_from(one.drop_first()));
        assert(lines_from(one) =~= entry_line(s.last()));
        assert(entry_lines(s) =~= entry_lines(s.drop_last()) + entry_line(s.last()));
    }
}

/// A value without white space at either end (the reader trims values).
pub open spec fn edge_trimmed(v: Seq<char>) -> bool {
    v.len() == 0 || (!is_ws(v[0]) && !is_ws(v.last()))
}

proof fn lemma_key_chars(k: Seq<char>)
    requires
        xml_name(k),
    ensures
        forall|i: int| 0 <= i < k.len() ==> !is_ws(#[trigger] k[i]) && k[i] != '>' && k[i] != '/'
            && k[i] != '<' && k[i] != '!' && k[i] != '?',
{
    assert forall|i: int| 0 <= i < k.len() implies !is_ws(#[trigger] k[i]) && k[i] != '>' && k[i]
        != '/' && k[i] != '<' && k[i] != '!' && k[i] != '?' by {
        if i == 0 {
        } else {
            assert(1 <= i < k.len());
        }
    }
}

proof fn lemma_escape_no_open(v: Seq<char>)
    ensures
        forall|i: int| 0 <= i < escape_seq(v).len() ==> #[trigger] escape_seq(v)[i] != '<',
    decreases v.len(),
{
    if v.len() > 0 {
        lemma_escape_no_open(v.drop_last());
        let a = escape_seq(v.drop_last());
        let c = escape_char(v.last());
        assert(escape_seq(v) == a + c);
        assert forall|i: int| 0 <= i < escape_seq(v).len() implies #[trigger] escape_seq(v)[i] != '<' by {
            if i >= a.len() {
                assert(escape_seq(v)[i] == c[i - a.len()]);
            } else {
                assert(escape_seq(v)[i] == a[i]);
            }
        }
    }
}

proof fn lemma_escape_len(v: Seq<char>)
    ensures
        v.len() > 0 ==> escape_seq(v).len() > 0,
{
    if v.len() > 0 {
        assert(escape_seq(v) == escape_seq(v.drop_last()) + escape_char(v.last()));
    }
}

proof fn lemma_escape_trimmed(v: Seq<char>)
    requires
        edge_trimmed(v),
    ensures
        trim(escape_seq(v)) == escape_seq(v),
{
    let t = escape_seq(v);
    if v.len() == 0 {
        assert(t =~= Seq::<char>::empty());
        assert(t.subrange(0, 0) =~= t);
    } else {
        lemma_escape_is_stage(v);
        lemma_escape_len(v);
        assert(t == stage_seq(0, v));
        assert(stage_seq(0, v) == stage_char(0, v[0]) + stage_seq(0, v.drop_first()));
        assert(t[0] == stage_char(0, v[0])[0]);
        assert(!is_ws(t[0]));
        assert(t == escape_seq(v.drop_last()) + escape_char(v.last()));
        assert(t.last() == escape_char(v.last()).last());
        assert(!is_ws(t.last()));
        assert(t.subrange(0, t.len() as int) =~= t);
    }
}

proof fn lemma_name_end_over(b: Seq<char>, i: int, m: int)
    requires
        0 <= i <= m < b.len(),
        forall|j: int| i <= j < m ==> !is_ws(#[trigger] b[j]) && b[j] != '>' && b[j] != '/',
        b[m] == '>',
    ensures
        name_end(b, i) == m,
    decreases m - i,
{
    if i < m {
        lemma_name_end_over(b, i + 1, m);
    }
}

/// Reading the lines of entries `s`, which `b` ends with from `off` on,
/// from a position whose white space ends at the first line's `<` (or at
/// the end), gives back `s`.
#[verifier::spinoff_prover]
#[verifier::rlimit(60)]
proof fn lemma_items(b: Seq<char>, s: Entries, off: int, pos: int)
    requires
        0 <= pos <= off <= b.len(),
        b.skip(off) == lines_from(s),
        crate::text::skip_ws(b, pos) == if s.len() > 0 {
            off + 2
        } else {
            b.len() as int
        },
        forall|i: int| 0 <= i < s.len() ==> xml_name(#[trigger] s[i].0) && edge_trimmed(s[i].1),
    ensures
        settings_items(b, pos) == s,
    decreases s.len(),
{
    reveal_strlit("<!--");
    reveal_strlit("<?");
    reveal_strlit("</");
    reveal_strlit(">");
    if s.len() == 0 {
        return;
    }
    let k = s[0].0;
    let v = s[0].1;
    assert(xml_name(k) && edge_trimmed(v));
    let e = escape_seq(v);
    let line = entry_line(s[0]);
    let rest = lines_from(s.drop_first());
    assert(lines_from(s) == line + rest);
    assert(line =~= seq![' ', ' ', '<'] + k + seq!['>'] + e + seq!['<', '/'] + k + seq!['>', '\n']);
    let kl = k.len() as int;
    let el = e.len() as int;
    assert(line.len() == 3 + kl + 1 + el + 2 + kl + 2);
    assert forall|t: int| 0 <= t < line.len() implies b[off + t] == #[trigger] line[t] by {
        assert(b.skip(off)[t] == b[off + t]);
        assert((line + rest)[t] == line[t]);
    }
    lemma_key_chars(k);
    lemma_escape_no_open(v);
    let p = off + 2;
    assert(b[p] == line[2]);
    assert(line[2] == '<');
    assert(b[p + 1] == line[3]);
    assert(line[3] == k[0]);
    assert(!starts_at(b, p, "<!--"@)) by {
        if starts_at(b, p, "<!--"@) {
            assert(b.subrange(p, p + 4)[1] == b[p + 1]);
        }
    }
    assert(!starts_at(b, p, "<?"@)) by {
        if starts_at(b, p, "<?"@) {
            assert(b.subrange(p, p + 2)[1] == b[p + 1]);
        }
    }
    assert(!starts_at(b, p, "</"@)) by {
        if starts_at(b, p, "</"@) {
            assert(b.subrange(p, p + 2)[1] == b[p + 1]);
        }
    }
    let ne = p + 1 + kl;
    assert forall|j: int| p + 1 <= j < ne implies !is_ws(#[trigger] b[j]) && b[j] != '>' && b[j]
        != '/' by {
        assert(b[j] == line[j - off]);
        assert(line[j - off] == k[j - off - 3]);
    }
    assert(b[ne] == line[3 + kl]);
    assert(line[3 + kl] == '>');
    lemma_name_end_over(b, p + 1, ne);
    assert(b.subrange(p + 1, ne) =~= k) by {
        assert forall|j: int| 0 <= j < kl implies b.subrange(p + 1, ne)[j] == k[j] by {
            assert(b[p + 1 + j] == line[3 + j]);
        }
    }
    assert(b.subrange(ne, ne + 1) =~= seq!['>']);
    assert(find_from(b, seq!['>'], ne) == Some(ne));
    assert(b.subrange(ne, ne) =~= Seq::<char>::empty());
    assert(trim(b.subrange(ne, ne)).len() == 0);
    let close = "</"@ + k + ">"@;
    assert(close =~= seq!['<', '/'] + k + seq!['>']);
    let endpos = ne + 1 + el;
    assert forall|j: int| ne + 1 <= j < endpos implies #[trigger] no_match_at(b, close, j) by {
        assert(b[j] == line[j - off]);
        assert(line[j - off] == e[j - off - 4 - kl]);
        if j + close.len() <= b.len() && b.subrange(j, j + close.len()) == close {
            assert(b.subrange(j, j + close.len())[0] == b[j]);
        }
    }
    lemma_find_skip(b, close, ne + 1, endpos);
    assert(b.subrange(endpos, endpos + close.len()) =~= close) by {
        assert forall|j: int| 0 <= j < close.len() implies b.subrange(endpos, endpos + close.len())[j]
            == close[j] by {
            assert(b[endpos + j] == line[4 + kl + el + j]);
        }
    }
    assert(find_from(b, close, endpos) == Some(endpos));
    assert(b.subrange(ne + 1, endpos) =~= e) by {
        assert forall|j: int| 0 <= j < el implies b.subrange(ne + 1, endpos)[j] == e[j] by {
            assert(b[ne + 1 + j] == line[4 + kl + j]);
        }
    }
    lemma_escape_trimmed(v);
    lemma_unescape_escape(v);
    let next = endpos + close.len();
    assert(next == off + line.len() - 1);
    let off2 = off + line.len();
    assert(b.skip(off2) =~= rest) by {
        assert(b.skip(off) =~= line + rest);
        assert forall|j: int| 0 <= j < b.skip(off2).len() implies b.skip(off2)[j] == rest[j] by {
            assert(b.skip(off2)[j] == b.skip(off)[line.len() + j]);
        }
    }
    assert(b[next] == line[line.len() - 1]);
    assert(is_ws(b[next]));
    let s2 = s.drop_first();
    assert(crate::text::skip_ws(b, next) == crate::text::skip_ws(b, off2));
    if s2.len() > 0 {
        let line2 = entry_line(s2[0]);
        assert(rest == line2 + lines_from(s2.drop_first()));
        assert(line2 =~= seq![' ', ' ', '<'] + s2[0].0 + seq!['>'] + escape_seq(s2[0].1) + seq!['<', '/'] + s2[0].0 + seq!['>', '\n']);
        assert(b[off2] == b.skip(off2)[0]);
        assert(b[off2 + 1] == b.skip(off2)[1]);
        assert(b[off2 + 2] == b.skip(off2)[2]);
        assert(b.skip(off2)[0] == line2[0]);
        assert(b.skip(off2)[1] == line2[1]);
        assert(b.skip(off2)[2] == line2[2]);
        assert(crate::text::skip_ws(b, off2 + 1) == crate::text::skip_ws(b, off2 + 2));
        assert(crate::text::skip_ws(b, off2) == off2 + 2);
    } else {
        assert(b.len() == off2);
    }
    assert forall|i: int| 0 <= i < s2.len() implies xml_name(#[trigger] s2[i].0) && edge_trimmed(s2[i].1) by {
        assert(s2[i] == s[i + 1]);
    }
    lemma_items(b, s2, off2, next);
    assert(settings_items(b, pos) == seq![(k, v)] + settings_items(b, next));
    assert(seq![(k, v)] + s2 =~= s);
}

/// A key of an entry the document can carry: an XML name other than
/// `Settings`, whose closing tag would end the document's element.
pub open spec fn storable_key(k: Seq<char>) -> bool {
    xml_name(k) && k != "Settings"@
}

proof fn lemma_line_no_close(b: Seq<char>, off: int, en: (Seq<char>, Seq<char>))
    requires
        0 <= off,
        off + entry_line(en).len() <= b.len(),
        b.subrange(off, off + entry_line(en).len()) == entry_line(en),
        storable_key(en.0),
    ensures
        forall|j: int| off <= j < off + entry_line(en).len() ==> #[trigger] no_match_at(
            b,
            "</Settings>"@,
            j,
        ),
{
    reveal_strlit("</Settings>");
    reveal_strlit("Settings");
    let close = "</Settings>"@;
    let k = en.0;
    let e = escape_seq(en.1);
    let line = entry_line(en);
    let kl = k.len() as int;
    let el = e.len() as int;
    assert(line =~= seq![' ', ' ', '<'] + k + seq!['>'] + e + seq!['<', '/'] + k + seq!['>', '\n']);
    assert forall|t: int| 0 <= t < line.len() implies b[off + t] == #[trigger] line[t] by {
        assert(b.subrange(off, off + line.len())[t] == b[off + t]);
    }
    lemma_key_chars(k);
    lemma_escape_no_open(en.1);
    assert forall|j: int| off <= j < off + line.len() implies #[trigger] no_match_at(b, close, j) by {
        if j + close.len() <= b.len() && b.subrange(j, j + close.len()) == close {
            let w = b.subrange(j, j + close.len());
            assert(w[0] == b[j]);
            assert(b[j] == line[j - off]);
            let t = j - off;
            if t == 2 {
                assert(w[1] == b[j + 1]);
                assert(b[j + 1] == line[3]);
            } else if t == 4 + kl + el {
                assert forall|u: int| 0 <= u < kl && u < 9 implies k[u] == close[2 + u] by {
                    assert(w[2 + u] == b[j + 2 + u]);
                    assert(b[j + 2 + u] == line[t + 2 + u]);
                }
                if kl < 9 {
                    assert(w[2 + kl] == b[j + 2 + kl]);
                    assert(b[j + 2 + kl] == line[t + 2 + kl]);
                    if kl == 8 {
                        assert(k =~= "Settings"@);
                    }
                } else {
                    assert(k[8] == close[10]);
                }
            } else if 3 <= t < 3 + kl {
                assert(line[t] == k[t - 3]);
            } else if 4 + kl <= t < 4 + kl + el {
                assert(line[t] == e[t - 4 - kl]);
            } else if 6 + kl + el <= t < 6 + 2 * kl + el {
                assert(line[t] == k[t - 6 - kl - el]);
            }
        }
    }
}

proof fn lemma_lines_no_close(b: Seq<char>, s: Entries, off: int)
    requires
        0 <= off,
        off + lines_from(s).len() <= b.len(),
        b.subrange(off, off + lines_from(s).len()) == lines_from(s),
        forall|i: int| 0 <= i < s.len() ==> storable_key(#[trigger] s[i].0),
    ensures
        forall|j: int| off <= j < off + lines_from(s).len() ==> #[trigger] no_match_at(
            b,
            "</Settings>"@,
            j,
        ),
    decreases s.len(),
{
    if s.len() > 0 {
        let line = entry_line(s[0]);
        let rest = lines_from(s.drop_first());
        assert(lines_from(s) == line + rest);
        assert(b.subrange(off, off + line.len()) =~= line) by {
            assert forall|t: int| 0 <= t < line.len() implies b.subrange(off, off + line.len())[t]
                == line[t] by {
                assert(b.subrange(off, off + lines_from(s).len())[t] == (line + rest)[t]);
            }
        }
        assert(storable_key(s[0].0));
        lemma_line_no_close(b, off, s[0]);
        let off2 = off + line.len();
        assert(b.subrange(off2, off2 + rest.len()) =~= rest) by {
            assert forall|t: int| 0 <= t < rest.len() implies b.subrange(off2, off2 + rest.len())[t]
                == rest[t] by {
                assert(b.subrange(off, off + lines_from(s).len())[line.len() + t] == (line + rest)[line.len() + t]);
            }
        }
        assert forall|i: int| 0 <= i < s.drop_first().len() implies storable_key(#[trigger] s.drop_first()[i].0) by {
            assert(s.drop_first()[i] == s[i + 1]);
        }
        lemma_lines_no_close(b, s.drop_first(), off2);
    }
}

proof fn lemma_insert_pos_end(s: Entries, k: Seq<char>, i: int)
    requires
        0 <= i <= s.len(),
        forall|j: int| 0 <= j < s.len() ==> key_lt(#[trigger] s[j].0, k),
    ensures
        insert_pos(s, k, i) == s.len(),
    decreases s.len() - i,
{
    if i < s.len() {
        lemma_insert_pos_end(s, k, i + 1);
    }
}

proof fn lemma_apply_in_order(s: Entries)
    requires
        sorted_keys(s),
    ensures
        apply_items(Seq::empty(), s) == s,
    decreases s.len(),
{
    if s.len() > 0 {
        let d = s.drop_last();
        assert(sorted_keys(d)) by {
            assert forall|i: int, j: int| 0 <= i < j < d.len() implies key_lt(#[trigger] d[i].0, #[trigger] d[j].0) by {
                assert(d[i] == s[i] && d[j] == s[j]);
            }
        }
        lemma_apply_in_order(d);
        assert forall|j: int| 0 <= j < d.len() implies key_lt(#[trigger] d[j].0, s.last().0) by {
            assert(d[j] == s[j]);
        }
        lemma_insert_pos_end(d, s.last().0, 0);
        assert(d.insert(d.len() as int, (s.last().0, s.last().1)) =~= s);
    }
}

/// Reading the document written for a store's entries gives the entries
/// back, when every key is an XML name other than `Settings` and no value
/// has white space at either end (values are read trimmed).
pub proof fn lemma_settings_roundtrip(s: Entries)
    requires
        sorted_keys(s),
        forall|i: int| 0 <= i < s.len() ==> storable_key(#[trigger] s[i].0) && edge_trimmed(s[i].1),
    ensures
        settings_entries(settings_xml(s)) == s,
{
    reveal_strlit("<Settings>\n");
    reveal_strlit("</Settings>\n");
    reveal_strlit("</Settings>");
    reveal_strlit("Settings");
    reveal_strlit("</");
    reveal_strlit(">");
    let e = entry_lines(s);
    lemma_entry_lines_from(s);
    let x = settings_xml(s);
    let el = e.len() as int;
    assert(x =~= seq!['<', 'S', 'e', 't', 't', 'i', 'n', 'g', 's', '>', '\n'] + e + seq!['<', '/', 'S', 'e', 't', 't', 'i', 'n', 'g', 's', '>', '\n']);
    assert(x[0] == '<');
    assert(skip_bom(x, 0) == 0);
    assert(strip_bom(x) =~= x);
    let open = seq!['<'] + "Settings"@;
    assert(x.subrange(0, 9) =~= open);
    assert(find_from(x, open, 0) == Some(0int));
    assert(x.subrange(9, 10) =~= seq!['>']);
    assert(find_from(x, seq!['>'], 9) == Some(9int));
    assert(x[8] == 's');
    let close = "</"@ + "Settings"@ + ">"@;
    assert(close =~= "</Settings>"@);
    assert(x.subrange(11, 11 + el) =~= lines_from(s));
    assert forall|i: int| 0 <= i < s.len() implies storable_key(#[trigger] s[i].0) by {}
    lemma_lines_no_close(x, s, 11);
    assert forall|j: int| 10 <= j < 11 + el implies #[trigger] no_match_at(x, close, j) by {
        if j == 10 {
            if j + close.len() <= x.len() && x.subrange(j, j + close.len()) == close {
                assert(x.subrange(j, j + close.len())[0] == x[10]);
            }
        }
    }
    lemma_find_skip(x, close, 10, 11 + el);
    assert(x.subrange(11 + el, 11 + el + 11) =~= close);
    assert(find_from(x, close, 11 + el) == Some(11 + el));
    assert(inner_body(x, "Settings"@) == Some(x.subrange(10, 11 + el)));
    let body = x.subrange(10, 11 + el);
    assert(body.skip(1) =~= lines_from(s));
    assert(body[0] == '\n');
    if s.len() > 0 {
        let line = entry_line(s[0]);
        assert(lines_from(s) == line + lines_from(s.drop_first()));
        assert(line =~= seq![' ', ' ', '<'] + s[0].0 + seq!['>'] + escape_seq(s[0].1) + seq!['<', '/'] + s[0].0 + seq!['>', '\n']);
        assert(body[1] == line[0]);
        assert(body[2] == line[1]);
        assert(body[3] == line[2]);
        assert(body[1] == ' ' && body[2] == ' ' && body[3] == '<');
        assert(crate::text::skip_ws(body, 3) == 3);
        assert(crate::text::skip_ws(body, 2) == crate::text::skip_ws(body, 3));
        assert(crate::text::skip_ws(body, 1) == crate::text::skip_ws(body, 2));
        assert(crate::text::skip_ws(body, 0) == crate::text::skip_ws(body, 1));
    } else {
        assert(body.len() == 1);
        assert(crate::text::skip_ws(body, 1) == 1);
        assert(is_ws(body[0]));
        assert(crate::text::skip_ws(body, 0) == crate::text::skip_ws(body, 1));
    }
    assert forall|i: int| 0 <= i < s.len() implies xml_name(#[trigger] s[i].0) && edge_trimmed(s[i].1) by {
        assert(storable_key(s[i].0) && edge_trimmed(s[i].1));
    }
    lemma_items(body, s, 1, 0);
    lemma_apply_in_order(s);
}

} // verus!
