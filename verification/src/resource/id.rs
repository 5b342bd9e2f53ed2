//! Interned resource identifiers.
use std::cmp::Ordering;
use vstd::prelude::*;

use crate::util::table::Identity;
use crate::util::text::{bytes_before, lemma_bytes_before_total, quoted_text, text_before, u64_text};

verus! {

/// The append-only vector that holds the interned strings.
#[verifier::external_type_specification]
#[verifier::external_body]
#[verifier::reject_recursive_types(T)]
pub struct ExBoxcarVec<T>(boxcar::Vec<T>);

/// The hash map that finds the number of an interned string.
#[verifier::external_type_specification]
#[verifier::external_body]
#[verifier::reject_recursive_types(K)]
#[verifier::reject_recursive_types(V)]
#[verifier::reject_recursive_types(S)]
pub struct ExPapayaHashMap<K, V, S>(papaya::HashMap<K, V, S>);

/// The hasher of that map.
#[verifier::external_type_specification]
#[verifier::external_body]
pub struct ExAHashRandomState(ahash::RandomState);

/// The strings that the vector holds, in the order in which they were pushed.
pub uninterp spec fn stored_ids(ids: boxcar::Vec<String>) -> Seq<Seq<char>>;

/// The number that the map holds for each string.
pub uninterp spec fn stored_numbers(
    numbers: papaya::HashMap<String, u32, ahash::RandomState>,
) -> Map<Seq<char>, u32>;

/// `boxcar::Vec::new`: a vector that holds nothing.
#[verifier::external_body]
fn ids_new() -> (r: boxcar::Vec<String>)
    ensures
        stored_ids(r) == Seq::<Seq<char>>::empty(),
{
    boxcar::Vec::new()
}

/// `boxcar::Vec::push`: appends the string and returns the index at which it was put. A vector
/// that nothing else accesses during the call gives out its length as that index.
#[verifier::external_body]
fn ids_push(ids: &mut boxcar::Vec<String>, id: String) -> (r: usize)
    requires
        stored_ids(*old(ids)).len() <= u32::MAX,
    ensures
        r == stored_ids(*old(ids)).len(),
        stored_ids(*final(ids)) == stored_ids(*old(ids)).push(id@),
{
    ids.push(id)
}

/// `boxcar::Vec::get`: the string at an index, `None` from the length on.
#[verifier::external_body]
fn ids_get(ids: &boxcar::Vec<String>, index: usize) -> (r: Option<&String>)
    ensures
        r.is_some() == (index < stored_ids(*ids).len()),
        r.is_some() ==> r.unwrap()@ == stored_ids(*ids)[index as int],
{
    ids.get(index)
}

/// `papaya::HashMap::with_hasher`: a map that holds nothing.
#[verifier::external_body]
fn numbers_new() -> (r: papaya::HashMap<String, u32, ahash::RandomState>)
    ensures
        forall|s: Seq<char>| !#[trigger] stored_numbers(r).contains_key(s),
{
    papaya::HashMap::with_hasher(ahash::RandomState::new())
}

/// `papaya::HashMapRef::get`: the number stored for the string, `None` if there is none.
#[verifier::external_body]
fn numbers_get(
    numbers: &papaya::HashMap<String, u32, ahash::RandomState>,
    id: &str,
) -> (r: Option<u32>)
    ensures
        r.is_some() == stored_numbers(*numbers).contains_key(id@),
        r.is_some() ==> r.unwrap() == stored_numbers(*numbers)[id@],
{
    numbers.pin().get(id).copied()
}

/// `papaya::HashMapRef::insert`: stores the number for the string, in place of any earlier one.
#[verifier::external_body]
fn numbers_insert(
    numbers: &mut papaya::HashMap<String, u32, ahash::RandomState>,
    id: String,
    number: u32,
)
    ensures
        stored_numbers(*final(numbers)) == stored_numbers(*old(numbers)).insert(id@, number),
{
    numbers.pin().insert(id, number);
}

/// The table that numbers every identifier string in use.
pub struct IdTable {
    ids: boxcar::Vec<String>,
    numbers: papaya::HashMap<String, u32, ahash::RandomState>,
}

impl View for IdTable {
    type V = Seq<Seq<char>>;

    closed spec fn view(&self) -> Seq<Seq<char>> {
        stored_ids(self.ids)
    }
}

impl IdTable {
    /// Every string is stored once, under the number of its position.
    pub closed spec fn wf(&self) -> bool {
        &&& self@.len() <= u32::MAX + 1
        &&& forall|i: int|
            0 <= i < self@.len() ==> {
                &&& stored_numbers(self.numbers).contains_key(#[trigger] self@[i])
                &&& stored_numbers(self.numbers)[self@[i]] == i
            }
        &&& forall|s: Seq<char>|
            #[trigger] stored_numbers(self.numbers).contains_key(s) ==> {
                let n = stored_numbers(self.numbers)[s];
                n < self@.len() && self@[n as int] == s
            }
    }

    /// The table without any string.
    pub fn new() -> (r: Self)
        ensures
            r.wf(),
            r@ == Seq::<Seq<char>>::empty(),
    {
        IdTable { ids: ids_new(), numbers: numbers_new() }
    }

    /// Whether the table holds a string.
    pub fn contains(&self, id: &str) -> (r: bool)
        requires
            self.wf(),
        ensures
            r == self@.contains(id@),
    {
        let found = numbers_get(&self.numbers, id);
        proof {
            if self@.contains(id@) {
                let i = choose|i: int| 0 <= i < self@.len() && self@[i] == id@;
                assert(stored_numbers(self.numbers).contains_key(self@[i]));
            }
            if found.is_some() {
                assert(self@[stored_numbers(self.numbers)[id@] as int] == id@);
            }
        }
        found.is_some()
    }

    /// Whether there is no number left for another string.
    pub fn is_full(&self) -> (r: bool)
        ensures
            r == (self@.len() > u32::MAX),
    {
        ids_get(&self.ids, u32::MAX as usize).is_some()
    }

    /// Every string of the table has one number only.
    pub proof fn lemma_distinct(&self)
        requires
            self.wf(),
        ensures
            self@.no_duplicates(),
    {
        assert forall|i: int, j: int| 0 <= i < self@.len() && 0 <= j < self@.len() && i != j implies self@[i]
            != self@[j] by {
            if self@[i] == self@[j] {
                assert(stored_numbers(self.numbers)[self@[i]] == i);
                assert(stored_numbers(self.numbers)[self@[j]] == j);
            }
        }
    }
}

/// The number of an interned identifier string.
#[derive(Clone, Copy, PartialEq, Eq, Structural, Hash, Debug)]
pub struct ResourceId {
    pub index: u32,
}

impl Identity for ResourceId {
    fn same(&self, other: &Self) -> (r: bool) {
        *self == *other
    }
}

impl ResourceId {
    /// Whether the identifier was given out by the table.
    pub open spec fn known(self, table: IdTable) -> bool {
        self.index < table@.len()
    }

    /// The string that the identifier stands for.
    pub open spec fn name(self, table: IdTable) -> Seq<char> {
        table@[self.index as int]
    }

    /// The identifier of a string. A string that the table holds already keeps its identifier; any
    /// other is added under the next number.
    pub fn new(id: &str, table: &mut IdTable) -> (r: Self)
        requires
            old(table).wf(),
            old(table)@.contains(id@) || old(table)@.len() <= u32::MAX,
        ensures
            final(table).wf(),
            final(table)@ == (if old(table)@.contains(id@) {
                old(table)@
            } else {
                old(table)@.push(id@)
            }),
            r.known(*final(table)),
            r.name(*final(table)) == id@,
    {
        let ghost pre = *table;
        match numbers_get(&table.numbers, id) {
            Some(index) => {
                assert(pre@[index as int] == id@);
                ResourceId { index }
            },
            None => {
                proof {
                    if pre@.contains(id@) {
                        let i = choose|i: int| 0 <= i < pre@.len() && pre@[i] == id@;
                        assert(stored_numbers(pre.numbers).contains_key(pre@[i]));
                    }
                }
                let index: u32 = ids_push(&mut table.ids, id.to_owned()) as u32;
                numbers_insert(&mut table.numbers, id.to_owned(), index);
                proof {
                    assert(table@ == pre@.push(id@));
                    assert forall|i: int| 0 <= i < table@.len() implies {
                        &&& stored_numbers(table.numbers).contains_key(#[trigger] table@[i])
                        &&& stored_numbers(table.numbers)[table@[i]] == i
                    } by {
                        if i < pre@.len() {
                            assert(table@[i] == pre@[i]);
                            assert(stored_numbers(pre.numbers).contains_key(pre@[i]));
                        }
                    }
                    assert forall|s: Seq<char>| #[trigger]
                        stored_numbers(table.numbers).contains_key(s) implies {
                        let n = stored_numbers(table.numbers)[s];
                        n < table@.len() && table@[n as int] == s
                    } by {
                        if s != id@ {
                            assert(stored_numbers(pre.numbers).contains_key(s));
                        }
                    }
                }
                ResourceId { index }
            },
        }
    }

    /// The string that the identifier stands for.
    pub fn as_str<'a>(&self, table: &'a IdTable) -> (r: &'a str)
        requires
            self.known(*table),
        ensures
            r@ == self.name(*table),
    {
        match ids_get(&table.ids, self.index as usize) {
            Some(s) => s.as_str(),
            None => "",
        }
    }

    /// The description of the identifier: its number and its string.
    pub open spec fn description(self, table: IdTable) -> Seq<char> {
        "ResourceId { idx: "@ + crate::util::text::decimal(self.index as nat) + ", str: "@
            + crate::util::text::quoted(self.name(table)) + " }"@
    }

    /// The description of the identifier: its number and its string.
    pub fn debug_text(&self, table: &IdTable) -> (r: String)
        requires
            self.known(*table),
        ensures
            r@ == self.description(*table),
    {
        let mut s = "ResourceId { idx: ".to_owned();
        let number = u64_text(self.index as u64);
        s.append(number.as_str());
        s.append(", str: ");
        let name = quoted_text(self.as_str(table));
        s.append(name.as_str());
        s.append(" }");
        s
    }

    /// How the strings of two identifiers compare, byte by byte.
    pub fn compare_names(&self, other: &Self, table: &IdTable) -> (r: Ordering)
        requires
            table.wf(),
            self.known(*table),
            other.known(*table),
        ensures
            r == (if self.name(*table) == other.name(*table) {
                Ordering::Equal
            } else if id_before(*self, *other, *table) {
                Ordering::Less
            } else {
                Ordering::Greater
            }),
    {
        proof {
            lemma_same_id(*table, *self, *other);
        }
        if *self == *other {
            Ordering::Equal
        } else if text_before(self.as_str(table), other.as_str(table)) {
            Ordering::Less
        } else {
            Ordering::Greater
        }
    }
}

/// Whether the string of `a` comes strictly before the string of `b`.
pub open spec fn id_before(a: ResourceId, b: ResourceId, table: IdTable) -> bool {
    bytes_before(
        vstd::utf8::encode_utf8(a.name(table)),
        vstd::utf8::encode_utf8(b.name(table)),
    )
}

/// Two identifiers of one table are the same exactly when their strings are the same.
pub proof fn lemma_same_id(table: IdTable, a: ResourceId, b: ResourceId)
    requires
        table.wf(),
        a.known(table),
        b.known(table),
    ensures
        a == b <==> a.name(table) == b.name(table),
{
    table.lemma_distinct();
}

/// An identifier keeps its string, whatever strings are added later.
pub proof fn lemma_id_stable(table: IdTable, later: IdTable, id: ResourceId)
    requires
        id.known(table),
        table@.is_prefix_of(later@),
    ensures
        id.known(later),
        id.name(later) == id.name(table),
{
}

/// Identifiers with different strings are ordered one way or the other, not both.
pub proof fn lemma_id_order_total(table: IdTable, a: ResourceId, b: ResourceId)
    requires
        table.wf(),
        a.known(table),
        b.known(table),
        a.name(table) != b.name(table),
    ensures
        id_before(a, b, table) != id_before(b, a, table),
{
    let x = a.name(table);
    let y = b.name(table);
    lemma_bytes_before_total(vstd::utf8::encode_utf8(x), vstd::utf8::encode_utf8(y));
    if vstd::utf8::encode_utf8(x) == vstd::utf8::encode_utf8(y) {
        vstd::utf8::encode_utf8_decode_utf8(x);
        vstd::utf8::encode_utf8_decode_utf8(y);
    }
}

/// Identifiers are ordered by the bytes of their strings: the first byte in which they differ decides,
/// and a string comes before its continuations.
pub proof fn lemma_id_order_by_bytes(table: IdTable, a: ResourceId, b: ResourceId, k: int)
    requires
        ({
            let x = vstd::utf8::encode_utf8(a.name(table));
            let y = vstd::utf8::encode_utf8(b.name(table));
            &&& 0 <= k <= x.len()
            &&& 0 <= k < y.len()
            &&& forall|i: int| 0 <= i < k ==> x[i] == y[i]
            &&& k < x.len() ==> x[k] < y[k]
        }),
    ensures
        id_before(a, b, table),
        !id_before(b, a, table),
{
    crate::util::text::lemma_first_difference_decides(
        vstd::utf8::encode_utf8(a.name(table)),
        vstd::utf8::encode_utf8(b.name(table)),
        k,
    );
}

/// An identifier is that of a table if and only if the table has a string under its number, and that
/// string is its name.
pub proof fn lemma_number_names_string(table: IdTable, id: ResourceId)
    ensures
        id.known(table) <==> (id.index as int) < table@.len(),
        id.known(table) ==> table@.contains(id.name(table)) && id.name(table) == table@[id.index as int],
{
    if id.known(table) {
        assert(table@[id.index as int] == id.name(table));
    }
}

} // verus!
