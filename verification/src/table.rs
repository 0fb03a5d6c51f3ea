//! Tables as Cloudstate reads them: sequences of key/value entries in the
//! order of their keys, and the edits that an operation makes to them.

use vstd::prelude::*;

verus! {

/// No key occurs twice among the entries.
pub open spec fn keys_unique<K, V>(s: Seq<(K, V)>) -> bool {
    forall|i: int, j: int| 0 <= i < j < s.len() ==> s[i].0 != s[j].0
}

/// The map that a sequence of entries with unique keys describes.
pub open spec fn table_map<K, V>(s: Seq<(K, V)>) -> Map<K, V>
    decreases s.len(),
{
    if s.len() == 0 {
        Map::empty()
    } else {
        table_map(s.drop_last()).insert(s.last().0, s.last().1)
    }
}

/// The entries, each key and value taken by its view.
pub open spec fn entries_view<K: View, V: View>(s: Seq<(K, V)>) -> Seq<(K::V, V::V)> {
    s.map_values(|e: (K, V)| (e.0@, e.1@))
}

/// A key is in the map of a sequence exactly when some entry holds it.
pub proof fn lemma_table_map_dom<K, V>(s: Seq<(K, V)>, k: K)
    ensures
        table_map(s).dom().contains(k) <==> exists|i: int| 0 <= i < s.len() && s[i].0 == k,
    decreases s.len(),
{
    if s.len() > 0 {
        lemma_table_map_dom(s.drop_last(), k);
        if table_map(s.drop_last()).dom().contains(k) {
            let i = choose|i: int| 0 <= i < s.drop_last().len() && s.drop_last()[i].0 == k;
            assert(s[i].0 == k);
        }
        if exists|i: int| 0 <= i < s.len() && s[i].0 == k {
            let i = choose|i: int| 0 <= i < s.len() && s[i].0 == k;
            if i < s.len() - 1 {
                assert(s.drop_last()[i].0 == k);
            }
        }
    }
}

/// With unique keys, the map holds each entry's value under its key.
pub proof fn lemma_table_map_index<K, V>(s: Seq<(K, V)>, i: int)
    requires
        keys_unique(s),
        0 <= i < s.len(),
    ensures
        table_map(s).dom().contains(s[i].0),
        table_map(s)[s[i].0] == s[i].1,
    decreases s.len(),
{
    if i < s.len() - 1 {
        assert(keys_unique(s.drop_last()));
        assert(s.drop_last()[i] == s[i]);
        lemma_table_map_index(s.drop_last(), i);
        assert(s.last().0 != s[i].0);
    }
}

/// The map of a sequence of entries has as many keys as there are entries.
pub proof fn lemma_table_map_len<K, V>(s: Seq<(K, V)>)
    requires
        keys_unique(s),
    ensures
        table_map(s).dom().finite(),
        table_map(s).dom().len() == s.len(),
    decreases s.len(),
{
    if s.len() > 0 {
        assert(keys_unique(s.drop_last()));
        lemma_table_map_len(s.drop_last());
        lemma_table_map_dom(s.drop_last(), s.last().0);
        if table_map(s.drop_last()).dom().contains(s.last().0) {
            let i = choose|i: int|
                0 <= i < s.drop_last().len() && s.drop_last()[i].0 == s.last().0;
            assert(s[i].0 == s[s.len() - 1].0);
        }
    }
}

/// One change to a table.
pub enum TableEdit<K, V> {
    Insert(K, V),
    Remove(K),
}

impl<K: View, V: View> View for TableEdit<K, V> {
    type V = TableEdit<K::V, V::V>;

    open spec fn view(&self) -> TableEdit<K::V, V::V> {
        match self {
            TableEdit::Insert(k, v) => TableEdit::Insert(k@, v@),
            TableEdit::Remove(k) => TableEdit::Remove(k@),
        }
    }
}

/// The edits, each taken by its view.
pub open spec fn edits_view<K: View, V: View>(s: Seq<TableEdit<K, V>>) -> Seq<TableEdit<K::V, V::V>> {
    s.map_values(|e: TableEdit<K, V>| e@)
}

/// The table after one edit.
pub open spec fn apply_edit<K, V>(m: Map<K, V>, e: TableEdit<K, V>) -> Map<K, V> {
    match e {
        TableEdit::Insert(k, v) => m.insert(k, v),
        TableEdit::Remove(k) => m.remove(k),
    }
}

/// The table after a sequence of edits, applied first to last.
pub open spec fn apply_edits<K, V>(m: Map<K, V>, es: Seq<TableEdit<K, V>>) -> Map<K, V>
    decreases es.len(),
{
    if es.len() == 0 {
        m
    } else {
        apply_edit(apply_edits(m, es.drop_last()), es.last())
    }
}

/// Storing a new value under a key that an entry holds changes that entry only.
pub proof fn lemma_table_map_update<K, V>(s: Seq<(K, V)>, i: int, v: V)
    requires
        keys_unique(s),
        0 <= i < s.len(),
    ensures
        keys_unique(s.update(i, (s[i].0, v))),
        table_map(s.update(i, (s[i].0, v))) == table_map(s).insert(s[i].0, v),
    decreases s.len(),
{
    let e = (s[i].0, v);
    let u = s.update(i, e);
    assert(keys_unique(u)) by {
        assert forall|a: int, b: int| 0 <= a < b < u.len() implies u[a].0 != u[b].0 by {
            assert(u[a].0 == s[a].0);
            assert(u[b].0 == s[b].0);
        }
    }
    if i == s.len() - 1 {
        assert(u.drop_last() =~= s.drop_last());
        assert(table_map(u) =~= table_map(s).insert(s[i].0, v));
    } else {
        assert(u.drop_last() =~= s.drop_last().update(i, e));
        assert(keys_unique(s.drop_last()));
        lemma_table_map_update(s.drop_last(), i, v);
        assert(s.last().0 != s[i].0);
        assert(table_map(u) =~= table_map(s).insert(s[i].0, v));
    }
}

/// Appending an entry with a new key keeps the keys unique.
pub proof fn lemma_table_map_push<K, V>(s: Seq<(K, V)>, k: K, v: V)
    requires
        keys_unique(s),
        forall|i: int| 0 <= i < s.len() ==> s[i].0 != k,
    ensures
        keys_unique(s.push((k, v))),
        table_map(s.push((k, v))) == table_map(s).insert(k, v),
{
    assert(s.push((k, v)).drop_last() =~= s);
}

/// A table reads back what a write stored under a key and has nothing under a
/// key that a removal took; the other keys keep what they held.
pub proof fn lemma_read_after_write<K, V>(m: Map<K, V>, k: K, v: V, other: K)
    requires
        other != k,
    ensures
        apply_edit(m, TableEdit::Insert(k, v)).contains_key(k),
        apply_edit(m, TableEdit::Insert(k, v))[k] == v,
        !apply_edit(m, TableEdit::<K, V>::Remove(k)).contains_key(k),
        apply_edit(m, TableEdit::Insert(k, v)).contains_key(other) == m.contains_key(other),
        apply_edit(m, TableEdit::<K, V>::Remove(k)).contains_key(other) == m.contains_key(other),
        m.contains_key(other) ==> apply_edit(m, TableEdit::Insert(k, v))[other] == m[other]
            && apply_edit(m, TableEdit::<K, V>::Remove(k))[other] == m[other],
{
}

/// The map of a sequence holds under each key the value of the key's last
/// entry.
pub proof fn lemma_table_map_last<K, V>(s: Seq<(K, V)>, i: int)
    requires
        0 <= i < s.len(),
        forall|j: int| i < j < s.len() ==> s[j].0 != s[i].0,
    ensures
        table_map(s).contains_key(s[i].0),
        table_map(s)[s[i].0] == s[i].1,
    decreases s.len(),
{
    if i < s.len() - 1 {
        let dl = s.drop_last();
        assert(dl[i] == s[i]);
        assert forall|j: int| i < j < dl.len() implies dl[j].0 != dl[i].0 by {
            assert(dl[j] == s[j]);
        }
        lemma_table_map_last(dl, i);
    }
}

} // verus!
