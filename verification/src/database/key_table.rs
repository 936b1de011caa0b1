//! The table of localization keys.
//!
//! The table holds at most one row for a key. To add a row whose key the
//! table has already is to overwrite that row, in its place; a row with a
//! new key is added behind the others. So the rows stand in the order in
//! which their keys first came.
//!
//! A key is found through its hash: the table keeps, for each hash, the
//! places of the rows whose keys have it.

use crate::database::models::{LocalizationKey, LocalizationKeyRow};
use crate::text::str_equal;
use std::collections::HashMap;
use vstd::prelude::*;
use vstd::string::*;
use vstd::utf8::*;

verus! {

/// No two rows have the same key.
pub open spec fn distinct_keys(table: Seq<LocalizationKeyRow>) -> bool {
    forall|i: int, j: int|
        0 <= i < j < table.len() ==> (#[trigger] table[i]).key != (#[trigger] table[j]).key
}

/// The place of the first row for `key`, or the number of rows if there is
/// none.
pub open spec fn key_position(table: Seq<LocalizationKeyRow>, key: Seq<char>) -> int
    decreases table.len(),
{
    if table.len() == 0 || table[0].key == key {
        0
    } else {
        1 + key_position(table.skip(1), key)
    }
}

/// The row for `key`, if the table has one.
pub open spec fn lookup(table: Seq<LocalizationKeyRow>, key: Seq<char>) -> Option<
    LocalizationKeyRow,
> {
    let at = key_position(table, key);
    if 0 <= at < table.len() {
        Some(table[at])
    } else {
        None
    }
}

/// The table with `row` in it: in place of the row that had its key, or,
/// where there was none, behind the other rows.
pub open spec fn upsert(table: Seq<LocalizationKeyRow>, row: LocalizationKeyRow) -> Seq<
    LocalizationKeyRow,
> {
    let at = key_position(table, row.key);
    if 0 <= at < table.len() {
        table.update(at, row)
    } else {
        table.push(row)
    }
}

/// The position of a key is the least place whose row has the key, and the
/// number of rows where none has it.
pub proof fn lemma_key_position(table: Seq<LocalizationKeyRow>, key: Seq<char>)
    ensures
        0 <= key_position(table, key) <= table.len(),
        key_position(table, key) < table.len() ==> table[key_position(table, key)].key == key,
        forall|i: int| 0 <= i < key_position(table, key) ==> (#[trigger] table[i]).key != key,
    decreases table.len(),
{
    if table.len() == 0 || table[0].key == key {
    } else {
        let rest = table.skip(1);
        lemma_key_position(rest, key);
        let at = key_position(rest, key);
        assert forall|i: int| 0 <= i < key_position(table, key) implies (#[trigger] table[i]).key
            != key by {
            if i > 0 {
                assert(rest[i - 1] == table[i]);
            }
        }
        if at < rest.len() {
            assert(rest[at] == table[at + 1]);
        }
    }
}

/// A place whose row has the key, or the number of rows, with no row for
/// the key before it, is the position of the key.
pub proof fn lemma_key_position_is(table: Seq<LocalizationKeyRow>, key: Seq<char>, at: int)
    requires
        0 <= at <= table.len(),
        at < table.len() ==> table[at].key == key,
        forall|i: int| 0 <= i < at ==> (#[trigger] table[i]).key != key,
    ensures
        key_position(table, key) == at,
{
    lemma_key_position(table, key);
    let found = key_position(table, key);
    if found < at {
        assert(table[found].key != key);
    }
}

/// Of adding a row to a table without double keys: the table stays without
/// double keys; it then holds the row for the row's key; the rows for all
/// other keys are as before; and it has grown by one row exactly where the
/// key was new.
pub proof fn lemma_upsert(table: Seq<LocalizationKeyRow>, row: LocalizationKeyRow, key: Seq<char>)
    requires
        distinct_keys(table),
    ensures
        distinct_keys(upsert(table, row)),
        lookup(upsert(table, row), row.key) == Some(row),
        key != row.key ==> lookup(upsert(table, row), key) == lookup(table, key),
        upsert(table, row).len() == table.len() + if lookup(table, row.key) is None {
            1int
        } else {
            0int
        },
{
    let at = key_position(table, row.key);
    let after = upsert(table, row);
    lemma_key_position(table, row.key);
    lemma_key_position(table, key);
    assert(distinct_keys(after)) by {
        assert forall|i: int, j: int| 0 <= i < j < after.len() implies (#[trigger] after[i]).key != (
        #[trigger] after[j]).key by {
            if at < table.len() {
                assert(after[i].key == table[i].key);
                assert(after[j].key == table[j].key);
            } else if j == table.len() {
                assert(after[i] == table[i]);
            } else {
                assert(after[i] == table[i] && after[j] == table[j]);
            }
        }
    }
    assert(after[at] == row);
    assert forall|i: int| 0 <= i < at implies (#[trigger] after[i]).key != row.key by {
        assert(after[i] == table[i]);
    }
    lemma_key_position_is(after, row.key, at);
    if key != row.key {
        let place = key_position(table, key);
        assert forall|i: int| 0 <= i < place && i < after.len() implies (#[trigger] after[i]).key
            != key by {
            if i != at {
                assert(after[i] == table[i]);
            }
        }
        if place < table.len() {
            assert(place != at);
            assert(after[place] == table[place]);
            lemma_key_position_is(after, key, place);
        } else {
            assert forall|i: int| 0 <= i < after.len() implies (#[trigger] after[i]).key != key by {
                if i < table.len() && i != at {
                    assert(after[i] == table[i]);
                }
            }
            lemma_key_position_is(after, key, after.len() as int);
        }
    }
}

/// Adding a key twice leaves one row for it, the second: the table does
/// not grow with the second row, and it holds no key twice.
pub proof fn lemma_upsert_twice(
    table: Seq<LocalizationKeyRow>,
    first: LocalizationKeyRow,
    second: LocalizationKeyRow,
)
    requires
        distinct_keys(table),
        first.key == second.key,
    ensures
        distinct_keys(upsert(upsert(table, first), second)),
        upsert(upsert(table, first), second).len() == upsert(table, first).len(),
        lookup(upsert(upsert(table, first), second), second.key) == Some(second),
        upsert(upsert(table, first), second) == upsert(table, second),
{
    let once = upsert(table, first);
    lemma_upsert(table, first, first.key);
    lemma_upsert(once, second, second.key);
    lemma_key_position(table, first.key);
    lemma_key_position(once, second.key);
    assert(upsert(once, second) =~= upsert(table, second));
}

/// The hash of no bytes.
pub open spec fn hash_seed() -> u64 {
    0xcbf2_9ce4_8422_2325
}

/// The hash when one more byte is taken in.
pub open spec fn hash_step(hash: u64, byte: u8) -> u64 {
    (hash ^ (byte as u64)).wrapping_mul(0x0000_0100_0000_01b3)
}

/// The hash of a sequence of bytes.
pub open spec fn hash_of_bytes(bytes: Seq<u8>) -> u64
    decreases bytes.len(),
{
    if bytes.len() == 0 {
        hash_seed()
    } else {
        hash_step(hash_of_bytes(bytes.drop_last()), bytes.last())
    }
}

/// The hash of a key: that of its UTF-8 encoding.
pub open spec fn key_hash(key: Seq<char>) -> u64 {
    hash_of_bytes(encode_utf8(key))
}

/// The hash of `key`.
fn hash_key(key: &str) -> (hash: u64)
    ensures
        hash == key_hash(key@),
{
    let bytes = key.as_bytes();
    let mut hash: u64 = 0xcbf2_9ce4_8422_2325;
    let mut i: usize = 0;
    assert(bytes@.take(0) =~= Seq::empty());
    while i < bytes.len()
        invariant
            i <= bytes.len(),
            hash == hash_of_bytes(bytes@.take(i as int)),
        decreases bytes.len() - i,
    {
        assert(bytes@.take(i + 1).drop_last() =~= bytes@.take(i as int));
        hash = (hash ^ (bytes[i] as u64)).wrapping_mul(0x0000_0100_0000_01b3);
        i += 1;
    }
    assert(bytes@.take(i as int) =~= bytes@);
    hash
}

/// The index finds every row: the place of each row is listed under the
/// hash of the row's key, and nothing is listed that is no place of a row.
spec fn indexed(table: Seq<LocalizationKeyRow>, index: Map<u64, Vec<usize>>) -> bool {
    &&& forall|i: int|
        0 <= i < table.len() ==> index.contains_key(key_hash((#[trigger] table[i]).key))
            && exists|j: int|
            0 <= j < index[key_hash(table[i].key)]@.len() && #[trigger] index[key_hash(
                table[i].key,
            )]@[j] == i
    &&& forall|hash: u64, j: int|
        index.contains_key(hash) && 0 <= j < index[hash]@.len() ==> (#[trigger] index[hash]@[j])
            < table.len()
}

/// The localization keys with their rows, each key once. The view is the
/// sequence of the rows, in the order in which their keys first came.
#[derive(Debug)]
pub struct LocalizationKeyMap {
    rows: Vec<LocalizationKey>,
    index: HashMap<u64, Vec<usize>>,
}

impl View for LocalizationKeyMap {
    type V = Seq<LocalizationKeyRow>;

    closed spec fn view(&self) -> Seq<LocalizationKeyRow> {
        self.rows.deep_view()
    }
}

impl LocalizationKeyMap {
    #[verifier::type_invariant]
    spec fn kept(self) -> bool {
        &&& distinct_keys(self.rows.deep_view())
        &&& indexed(self.rows.deep_view(), self.index@)
    }

    /// The map without keys.
    pub fn new() -> (map: LocalizationKeyMap)
        ensures
            map@ == Seq::<LocalizationKeyRow>::empty(),
    {
        let rows: Vec<LocalizationKey> = Vec::new();
        assert(rows.deep_view() =~= Seq::empty());
        LocalizationKeyMap { rows, index: HashMap::new() }
    }

    /// The place of the row for `key`, if there is one.
    fn position(&self, key: &str) -> (at: Option<usize>)
        ensures
            match at {
                Some(at) => at == key_position(self@, key@) && at < self@.len(),
                None => key_position(self@, key@) == self@.len(),
            },
            distinct_keys(self@),
    {
        proof {
            use_type_invariant(self);
        }
        let ghost table = self.rows.deep_view();
        let hash = hash_key(key);
        match self.index.get(&hash) {
            Some(places) => {
                let mut j: usize = 0;
                while j < places.len()
                    invariant
                        j <= places.len(),
                        table == self.rows.deep_view(),
                        distinct_keys(table),
                        forall|k: int| 0 <= k < places@.len() ==> (#[trigger] places@[k]) < table.len(),
                        forall|k: int| 0 <= k < j ==> table[places@[k] as int].key != key@,
                    decreases places.len() - j,
                {
                    let at = places[j];
                    assert(table[at as int] == self.rows@[at as int]@);
                    if str_equal(self.rows[at].key.as_str(), key) {
                        proof {
                            lemma_key_position_is(table, key@, at as int);
                        }
                        return Some(at);
                    }
                    j += 1;
                }
                proof {
                    assert forall|i: int| 0 <= i < table.len() implies (#[trigger] table[i]).key
                        != key@ by {
                        if table[i].key == key@ {
                            let k = choose|k: int|
                                0 <= k < places@.len() && #[trigger] places@[k] == i;
                            assert(table[places@[k] as int].key != key@);
                        }
                    }
                    lemma_key_position_is(table, key@, table.len() as int);
                }
                None
            },
            None => {
                proof {
                    assert forall|i: int| 0 <= i < table.len() implies (#[trigger] table[i]).key
                        != key@ by {
                        if table[i].key == key@ {
                            assert(self.index@.contains_key(key_hash(table[i].key)));
                        }
                    }
                    lemma_key_position_is(table, key@, table.len() as int);
                }
                None
            },
        }
    }

    /// Adds `row`, in place of the row that had its key if there was one.
    pub fn insert(&mut self, row: LocalizationKey)
        ensures
            final(self)@ == upsert(old(self)@, row@),
            distinct_keys(final(self)@),
    {
        let at = self.position(row.key.as_str());
        proof {
            use_type_invariant(&*self);
            lemma_upsert(self@, row@, row@.key);
        }
        let ghost table = self.rows.deep_view();
        let ghost listed = self.index@;
        let mut taken = LocalizationKeyMap::new();
        std::mem::swap(self, &mut taken);
        let LocalizationKeyMap { rows, index } = taken;
        let mut rows = rows;
        let mut index = index;
        match at {
            Some(at) => {
                rows.set(at, row);
                proof {
                    let after = rows.deep_view();
                    lemma_key_position(table, row@.key);
                    assert(after =~= table.update(at as int, row@));
                    assert forall|i: int| 0 <= i < after.len() implies key_hash(
                        (#[trigger] after[i]).key,
                    ) == key_hash(table[i].key) by {
                        if i != at {
                            assert(after[i] == table[i]);
                        }
                    }
                    assert(indexed(after, index@)) by {
                        assert forall|i: int| 0 <= i < after.len() implies index@.contains_key(
                            key_hash((#[trigger] after[i]).key),
                        ) && exists|j: int|
                            0 <= j < index@[key_hash(after[i].key)]@.len() && #[trigger] index@[key_hash(
                                after[i].key,
                            )]@[j] == i by {
                            assert(key_hash(after[i].key) == key_hash(table[i].key));
                            assert(index@.contains_key(key_hash(table[i].key)));
                        }
                    }
                }
            },
            None => {
                let hash = hash_key(row.key.as_str());
                let place = rows.len();
                let ghost added = row@;
                rows.push(row);
                let mut places = match index.remove(&hash) {
                    Some(places) => places,
                    None => Vec::new(),
                };
                let ghost before = places@;
                places.push(place);
                index.insert(hash, places);
                proof {
                    let after = rows.deep_view();
                    assert(after =~= table.push(added));
                    assert(indexed(after, index@)) by {
                        assert forall|i: int| 0 <= i < after.len() implies index@.contains_key(
                            key_hash((#[trigger] after[i]).key),
                        ) && exists|j: int|
                            0 <= j < index@[key_hash(after[i].key)]@.len() && #[trigger] index@[key_hash(
                                after[i].key,
                            )]@[j] == i by {
                            let h = key_hash(after[i].key);
                            if i == place {
                                assert(index@[h]@[before.len() as int] == i);
                            } else {
                                assert(after[i] == table[i]);
                                let j = choose|j: int|
                                    0 <= j < listed[h]@.len() && #[trigger] listed[h]@[j] == i;
                                if h == hash {
                                    assert(index@[h]@[j] == before[j]);
                                } else {
                                    assert(index@[h] == listed[h]);
                                }
                            }
                        }
                        assert forall|h: u64, j: int|
                            index@.contains_key(h) && 0 <= j < index@[h]@.len() implies (
                        #[trigger] index@[h]@[j]) < after.len() by {
                            if h == hash {
                                if j < before.len() {
                                    assert(index@[h]@[j] == before[j]);
                                    assert(listed.contains_key(h));
                                    assert(listed[h]@[j] < table.len());
                                }
                            } else {
                                assert(listed.contains_key(h) && index@[h] == listed[h]);
                                assert(listed[h]@[j] < table.len());
                            }
                        }
                    }
                }
            },
        }
        *self = LocalizationKeyMap { rows, index };
    }

    /// The row for `key`, if the map has one.
    pub fn get(&self, key: &str) -> (row: Option<&LocalizationKey>)
        ensures
            match row {
                Some(row) => lookup(self@, key@) == Some(row@),
                None => lookup(self@, key@) is None,
            },
    {
        match self.position(key) {
            Some(at) => {
                assert(self.rows.deep_view()[at as int] == self.rows@[at as int]@);
                Some(&self.rows[at])
            },
            None => None,
        }
    }

    /// The rows, in the order in which their keys first came; no two have
    /// the same key.
    pub fn rows(&self) -> (rows: &Vec<LocalizationKey>)
        ensures
            rows.deep_view() == self@,
            distinct_keys(self@),
    {
        proof {
            use_type_invariant(self);
        }
        &self.rows
    }
}

impl Default for LocalizationKeyMap {
    fn default() -> (map: LocalizationKeyMap)
        ensures
            map@ == Seq::<LocalizationKeyRow>::empty(),
    {
        LocalizationKeyMap::new()
    }
}

} // verus!
