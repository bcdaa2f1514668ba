use vstd::prelude::*;
use indexmap::IndexMap;
use crate::schedule::{RunView, ServerRun};

verus! {

#[verifier::external_type_specification]
#[verifier::external_body]
#[verifier::reject_recursive_types(K)]
#[verifier::reject_recursive_types(V)]
#[verifier::reject_recursive_types(S)]
pub struct ExIndexMap<K, V, S>(IndexMap<K, V, S>);

/// Whether some entry has the key.
pub open spec fn has_key<V>(entries: Seq<(Seq<char>, V)>, key: Seq<char>) -> bool {
    exists|i: int| 0 <= i < entries.len() && #[trigger] entries[i].0 == key
}

/// No two entries share a key.
pub open spec fn keys_distinct<V>(entries: Seq<(Seq<char>, V)>) -> bool {
    forall|i: int, j: int| 0 <= i < j < entries.len() ==> #[trigger] entries[i].0 != #[trigger] entries[j].0
}

/// The position of the entry with the key (meaningful when there is one).
pub open spec fn key_position<V>(entries: Seq<(Seq<char>, V)>, key: Seq<char>) -> int {
    choose|i: int| 0 <= i < entries.len() && #[trigger] entries[i].0 == key
}

/// Inserting into an ordered map: an entry with the key keeps its place and
/// takes the new value; otherwise the entry goes last.
pub open spec fn insert_entry<V>(entries: Seq<(Seq<char>, V)>, key: Seq<char>, value: V) -> Seq<(Seq<char>, V)> {
    if has_key(entries, key) {
        entries.update(key_position(entries, key), (key, value))
    } else {
        entries.push((key, value))
    }
}

/// The keys, in order.
pub open spec fn keys_of<V>(entries: Seq<(Seq<char>, V)>) -> Seq<Seq<char>> {
    entries.map_values(|e: (Seq<char>, V)| e.0)
}

/// Inserting keeps keys distinct.
pub proof fn lemma_insert_keeps_keys_distinct<V>(entries: Seq<(Seq<char>, V)>, key: Seq<char>, value: V)
    requires
        keys_distinct(entries),
    ensures
        keys_distinct(insert_entry(entries, key, value)),
        has_key(insert_entry(entries, key, value), key),
{
    let r = insert_entry(entries, key, value);
    if has_key(entries, key) {
        let p: int = key_position(entries, key);
        assert forall|i: int, j: int| 0 <= i < j < r.len() implies #[trigger] r[i].0 != #[trigger] r[j].0 by {
            assert(entries[i].0 != entries[j].0);
        }
        assert(r[p].0 == key);
    } else {
        assert forall|i: int, j: int| 0 <= i < j < r.len() implies #[trigger] r[i].0 != #[trigger] r[j].0 by {
            if j < entries.len() {
                assert(entries[i].0 != entries[j].0);
            } else {
                assert(r[i].0 == entries[i].0);
            }
        }
        assert(r[entries.len() as int].0 == key);
    }
}

// ---- Maps from server names to recorded milliseconds ----

/// What a map from server names to recorded milliseconds holds, in order.
pub uninterp spec fn duration_entries(m: IndexMap<String, Vec<u128>>) -> Seq<(Seq<char>, Seq<u128>)>;

/// An empty map (`indexmap::IndexMap::new`).
#[verifier::external_body]
pub(crate) fn new_duration_map() -> (m: IndexMap<String, Vec<u128>>)
    ensures
        duration_entries(m) == Seq::<(Seq<char>, Seq<u128>)>::empty(),
{
    IndexMap::new()
}

/// `indexmap::IndexMap::insert`: an entry with an equal key keeps its place
/// (and its key) and takes the new value, and the old value is returned;
/// otherwise the pair goes last and `None` is returned.
#[verifier::external_body]
pub(crate) fn insert_durations(m: &mut IndexMap<String, Vec<u128>>, key: String, value: Vec<u128>) -> (previous: Option<Vec<u128>>)
    ensures
        duration_entries(*final(m)) == insert_entry(duration_entries(*old(m)), key@, value@),
        previous is None <==> !has_key(duration_entries(*old(m)), key@),
{
    m.insert(key, value)
}

/// The number of entries (`indexmap::IndexMap::len`).
#[verifier::external_body]
pub(crate) fn duration_map_len(m: &IndexMap<String, Vec<u128>>) -> (n: usize)
    ensures
        n == duration_entries(*m).len(),
{
    m.len()
}

/// The entry at a position (`indexmap::IndexMap::get_index`). No other
/// entry has its key: a map holds each key once (for `String` keys, equal
/// means equal text).
#[verifier::external_body]
pub(crate) fn duration_entry_at(m: &IndexMap<String, Vec<u128>>, index: usize) -> (entry: Option<(&String, &Vec<u128>)>)
    ensures
        index < duration_entries(*m).len() <==> entry is Some,
        entry matches Some(e) ==> e.0@ == duration_entries(*m)[index as int].0
            && e.1@ == duration_entries(*m)[index as int].1,
        entry matches Some(e) ==> forall|j: int| 0 <= j < duration_entries(*m).len() && j != index
            ==> #[trigger] duration_entries(*m)[j].0 != e.0@,
{
    m.get_index(index)
}

// ---- Maps from server names to their runs ----

/// What a map from server names to their runs holds, in order.
pub uninterp spec fn run_entries(m: IndexMap<String, ServerRun>) -> Seq<(Seq<char>, RunView)>;

/// An empty map (`indexmap::IndexMap::new`).
#[verifier::external_body]
pub(crate) fn new_run_map() -> (m: IndexMap<String, ServerRun>)
    ensures
        run_entries(m) == Seq::<(Seq<char>, RunView)>::empty(),
{
    IndexMap::new()
}

/// `indexmap::IndexMap::insert`: an entry with an equal key keeps its place
/// (and its key) and takes the new value, and the old value is returned;
/// otherwise the pair goes last and `None` is returned.
#[verifier::external_body]
pub(crate) fn insert_run(m: &mut IndexMap<String, ServerRun>, key: String, value: ServerRun) -> (previous: Option<ServerRun>)
    ensures
        run_entries(*final(m)) == insert_entry(run_entries(*old(m)), key@, value@),
        previous is None <==> !has_key(run_entries(*old(m)), key@),
{
    m.insert(key, value)
}

/// The number of entries (`indexmap::IndexMap::len`).
#[verifier::external_body]
pub(crate) fn run_map_len(m: &IndexMap<String, ServerRun>) -> (n: usize)
    ensures
        n == run_entries(*m).len(),
{
    m.len()
}

/// The entry at a position (`indexmap::IndexMap::get_index`). No other
/// entry has its key: a map holds each key once (for `String` keys, equal
/// means equal text).
#[verifier::external_body]
pub(crate) fn run_entry_at(m: &IndexMap<String, ServerRun>, index: usize) -> (entry: Option<(&String, &ServerRun)>)
    ensures
        index < run_entries(*m).len() <==> entry is Some,
        entry matches Some(e) ==> e.0@ == run_entries(*m)[index as int].0
            && e.1@ == run_entries(*m)[index as int].1,
        entry matches Some(e) ==> forall|j: int| 0 <= j < run_entries(*m).len() && j != index
            ==> #[trigger] run_entries(*m)[j].0 != e.0@,
{
    m.get_index(index)
}

} // verus!
