//! Stop identifiers and the tables that are keyed by them.

use crate::text::{chars_of, trim, trimmed_field, trimmed_field_without_commas, without_commas};
use vstd::hash_map::StringHashMap;
use vstd::prelude::*;

verus! {

/// A stop or station identifier. Its view is the identifier's text.
#[derive(Debug, PartialEq, Eq, Hash, PartialOrd, Ord)]
pub struct Atco(pub String);

impl View for Atco {
    type V = Seq<char>;

    open spec fn view(&self) -> Seq<char> {
        self.0@
    }
}

impl Clone for Atco {
    fn clone(&self) -> (copy: Self)
        ensures
            copy == *self,
    {
        Atco(self.0.clone())
    }
}

/// Whether an identifier's text begins with `999`, the prefix of stops at
/// which passengers can neither board nor alight.
pub open spec fn starts_with_999(code: Seq<char>) -> bool {
    code.len() >= 3 && code[0] == '9' && code[1] == '9' && code[2] == '9'
}

/// The canonical form of an identifier that stands for itself: without the
/// white space around it, and without commas.
pub open spec fn canonical_code(code: Seq<char>) -> Seq<char> {
    without_commas(trim(code))
}

impl Atco {
    /// The canonical form of the identifier.
    pub fn canonical(&self) -> (code: Atco)
        ensures
            code@ == canonical_code(self@),
    {
        let chars = chars_of(self.0.as_str());
        assert(self@.subrange(0, self@.len() as int) == self@);
        Atco(trimmed_field_without_commas(chars.as_slice(), 0, chars.len()))
    }

    /// The identifier written in `s`: `s` without the white space around it.
    /// Every text is accepted.
    pub fn from_str(s: &str) -> (code: Result<Atco, ()>)
        ensures
            code matches Ok(atco) && atco@ == trim(s@),
    {
        let chars = chars_of(s);
        let code = Atco::from_field(chars.as_slice(), 0, chars.len());
        assert(s@.subrange(0, s@.len() as int) == s@);
        Ok(code)
    }

    /// The identifier written in the columns `from..to` of `line`.
    pub fn from_field(line: &[char], from: usize, to: usize) -> (code: Atco)
        requires
            from <= to <= line@.len(),
        ensures
            code@ == trim(line@.subrange(from as int, to as int)),
    {
        Atco(trimmed_field(line, from, to))
    }

    /// Whether the identifier begins with `999`.
    pub fn starts_with_999(&self) -> (b: bool)
        ensures
            b == starts_with_999(self@),
    {
        let s = self.0.as_str();
        s.unicode_len() >= 3 && s.get_char(0) == '9' && s.get_char(1) == '9' && s.get_char(2)
            == '9'
    }

    /// Whether two identifiers have the same text.
    pub fn same_as(&self, other: &Atco) -> (b: bool)
        ensures
            b == (self@ == other@),
    {
        self.0 == other.0
    }
}

/// A table from identifiers to values that remembers the order in which its
/// keys were first inserted. No identifier is held twice.
pub struct AtcoMap<V> {
    keys: Vec<Atco>,
    values: Vec<V>,
    index: StringHashMap<usize>,
}

impl<V> AtcoMap<V> {
    /// The keys, in the order of their insertion.
    pub closed spec fn codes(&self) -> Seq<Seq<char>> {
        Seq::new(self.keys@.len(), |i: int| self.keys@[i]@)
    }

    /// The values, each at the position of its key in `codes`.
    pub closed spec fn entries(&self) -> Seq<V> {
        self.values@
    }

    /// The lookup index agrees with the list of keys.
    pub closed spec fn indexed(&self) -> bool {
        &&& forall|i: int|
            0 <= i < self.keys@.len() ==> self.index@.contains_key(#[trigger] self.keys@[i]@)
                && self.index@[self.keys@[i]@] == i
        &&& forall|k: Seq<char>| #[trigger]
            self.index@.contains_key(k) ==> self.index@[k] < self.keys@.len()
                && self.keys@[self.index@[k] as int]@ == k
    }

    /// The table's invariant: one value per key, no key twice.
    pub open spec fn wf(&self) -> bool {
        &&& self.codes().len() == self.entries().len()
        &&& self.codes().no_duplicates()
        &&& self.indexed()
    }

    /// Position of `code` among the keys of a table that holds it.
    pub open spec fn position_of(&self, code: Seq<char>) -> int {
        self.codes().index_of(code)
    }

    /// The table as a map from identifier text to value.
    pub open spec fn view(&self) -> Map<Seq<char>, V> {
        Map::new(
            |code: Seq<char>| self.codes().contains(code),
            |code: Seq<char>| self.entries()[self.position_of(code)],
        )
    }

    /// In a well-formed table the position of a key is the only place where
    /// that key stands.
    pub proof fn lemma_position(&self, i: int)
        requires
            self.wf(),
            0 <= i < self.codes().len(),
        ensures
            self.codes().contains(self.codes()[i]),
            self.position_of(self.codes()[i]) == i,
            self@.contains_key(self.codes()[i]),
            self@[self.codes()[i]] == self.entries()[i],
    {
        let code = self.codes()[i];
        assert(self.codes().contains(code));
        let p = self.codes().index_of(code);
        assert(0 <= p < self.codes().len() && self.codes()[p] == code);
    }

    /// A key of the map stands at its position.
    pub proof fn lemma_contained(&self, code: Seq<char>)
        requires
            self.wf(),
            self@.contains_key(code),
        ensures
            0 <= self.position_of(code) < self.codes().len(),
            self.codes()[self.position_of(code)] == code,
            self@[code] == self.entries()[self.position_of(code)],
    {
        assert(self.codes().contains(code));
    }

    /// An empty table.
    pub fn new() -> (table: Self)
        ensures
            table.wf(),
            table.codes() == Seq::<Seq<char>>::empty(),
            table.entries() == Seq::<V>::empty(),
            table@ == Map::<Seq<char>, V>::empty(),
    {
        let table = AtcoMap { keys: Vec::new(), values: Vec::new(), index: StringHashMap::new() };
        assert(table.codes() == Seq::<Seq<char>>::empty());
        assert(table@ == Map::<Seq<char>, V>::empty());
        table
    }

    /// The number of keys.
    pub fn len(&self) -> (n: usize)
        requires
            self.wf(),
        ensures
            n == self.codes().len(),
            n == self.entries().len(),
    {
        self.keys.len()
    }

    /// Where `key` stands in the table, if it does.
    pub fn position(&self, key: &Atco) -> (found: Option<usize>)
        requires
            self.wf(),
        ensures
            found == (if self@.contains_key(key@) {
                Some(self.position_of(key@) as usize)
            } else {
                None
            }),
            found matches Some(i) ==> i < self.codes().len() && self.codes()[i as int] == key@
                && self.position_of(key@) == i,
    {
        match self.index.get(key.0.as_str()) {
            Some(i) => {
                proof {
                    assert(self.codes()[*i as int] == key@);
                    self.lemma_position(*i as int);
                }
                Some(*i)
            },
            None => {
                proof {
                    if self.codes().contains(key@) {
                        let p = self.codes().index_of(key@);
                        assert(self.keys@[p]@ == key@);
                    }
                }
                None
            },
        }
    }

    /// Whether the table holds `key`.
    pub fn contains_key(&self, key: &Atco) -> (b: bool)
        requires
            self.wf(),
        ensures
            b == self@.contains_key(key@),
    {
        self.position(key).is_some()
    }

    /// The value stored for `key`, if there is one.
    pub fn get(&self, key: &Atco) -> (found: Option<&V>)
        requires
            self.wf(),
        ensures
            found == (if self@.contains_key(key@) {
                Some(&self@[key@])
            } else {
                None
            }),
    {
        match self.position(key) {
            Some(i) => Some(&self.values[i]),
            None => None,
        }
    }

    /// The key at position `i`.
    pub fn key_at(&self, i: usize) -> (key: &Atco)
        requires
            self.wf(),
            i < self.codes().len(),
        ensures
            key@ == self.codes()[i as int],
    {
        &self.keys[i]
    }

    /// The value at position `i`.
    pub fn value_at(&self, i: usize) -> (value: &V)
        requires
            self.wf(),
            i < self.codes().len(),
        ensures
            *value == self.entries()[i as int],
            *value == self@[self.codes()[i as int]],
    {
        proof {
            self.lemma_position(i as int);
        }
        &self.values[i]
    }

    /// Mutable access to the value at position `i`; keys and the other values
    /// stay as they are.
    pub fn value_at_mut(&mut self, i: usize) -> (value: &mut V)
        requires
            old(self).wf(),
            i < old(self).codes().len(),
        ensures
            *value == old(self).entries()[i as int],
            final(self).wf(),
            final(self).codes() == old(self).codes(),
            final(self).entries() == old(self).entries().update(i as int, *final(value)),
            final(self)@ == old(self)@.insert(old(self).codes()[i as int], *final(value)),
    {
        proof {
            self.lemma_position(i as int);
        }
        &mut self.values[i]
    }

    /// Adds `key` with `value` at the end of a table that does not hold `key`.
    pub fn push_new(&mut self, key: Atco, value: V)
        requires
            old(self).wf(),
            !old(self)@.contains_key(key@),
        ensures
            final(self).wf(),
            final(self).codes() == old(self).codes().push(key@),
            final(self).entries() == old(self).entries().push(value),
            final(self)@ == old(self)@.insert(key@, value),
    {
        let n = self.keys.len();
        self.index.insert(key.0.clone(), n);
        self.keys.push(key);
        self.values.push(value);
        proof {
            assert(final(self).codes() == old(self).codes().push(key@));
            assert forall|i: int| 0 <= i < self.keys@.len() implies self.index@.contains_key(
                #[trigger] self.keys@[i]@,
            ) && self.index@[self.keys@[i]@] == i by {
                if i < n {
                    assert(old(self).codes()[i] == self.keys@[i]@);
                    assert(old(self).codes().contains(self.keys@[i]@));
                }
            }
            assert(self.codes().no_duplicates()) by {
                assert forall|i: int, j: int|
                    0 <= i < self.codes().len() && 0 <= j < self.codes().len() && i != j implies
                    self.codes()[i] != self.codes()[j] by {
                    if i < n {
                        assert(old(self).codes()[i] == self.codes()[i]);
                        assert(old(self).codes().contains(self.codes()[i]));
                    }
                    if j < n {
                        assert(old(self).codes()[j] == self.codes()[j]);
                        assert(old(self).codes().contains(self.codes()[j]));
                    }
                }
            }
            assert(self.wf());
            assert(self@ =~= old(self)@.insert(key@, value)) by {
                assert forall|code: Seq<char>| #[trigger] self@.contains_key(code) implies self@[code]
                    == old(self)@.insert(key@, value)[code] by {
                    self.lemma_contained(code);
                    let p = self.position_of(code);
                    if p < n {
                        assert(old(self).codes()[p] == code);
                        old(self).lemma_position(p);
                    }
                }
                assert forall|code: Seq<char>| old(self)@.insert(key@, value).contains_key(
                    code,
                ) implies #[trigger] self@.contains_key(code) by {
                    if code == key@ {
                        assert(self.codes()[n as int] == code);
                    } else {
                        old(self).lemma_contained(code);
                        assert(self.codes()[old(self).position_of(code)] == code);
                    }
                }
            }
        }
    }

    /// Stores `value` for `key` unless the table already holds `key`, in which
    /// case the table stays as it is: the first writer wins. Returns the
    /// position of `key`.
    pub fn insert_if_absent(&mut self, key: Atco, value: V) -> (at: usize)
        requires
            old(self).wf(),
        ensures
            final(self).wf(),
            at < final(self).codes().len(),
            final(self).codes()[at as int] == key@,
            old(self)@.contains_key(key@) ==> {
                &&& final(self).codes() == old(self).codes()
                &&& final(self).entries() == old(self).entries()
                &&& final(self)@ == old(self)@
            },
            !old(self)@.contains_key(key@) ==> {
                &&& final(self).codes() == old(self).codes().push(key@)
                &&& final(self).entries() == old(self).entries().push(value)
                &&& final(self)@ == old(self)@.insert(key@, value)
            },
    {
        match self.position(&key) {
            Some(i) => i,
            None => {
                let n = self.len();
                self.push_new(key, value);
                n
            },
        }
    }
}

impl AtcoMap<Atco> {
    /// A table of identifiers as a map from text to text.
    pub open spec fn texts(&self) -> Map<Seq<char>, Seq<char>> {
        Map::new(|code: Seq<char>| self@.contains_key(code), |code: Seq<char>| self@[code]@)
    }
}

/// The identifier that a raw field names under a replacement table: nothing
/// where the trimmed field begins with `999`, its replacement where the table
/// holds one, the trimmed field itself otherwise.
pub open spec fn mapped_code(field: Seq<char>, replacements: Map<Seq<char>, Seq<char>>) -> Option<
    Seq<char>,
> {
    let code = trim(field);
    if starts_with_999(code) {
        None
    } else if replacements.contains_key(code) {
        Some(replacements[code])
    } else {
        Some(code)
    }
}

impl Atco {
    /// Reads the identifier in the columns `from..to` of `line` and replaces
    /// it through `atco_mapping`; `None` for an identifier that begins with
    /// `999`.
    pub fn from_mapped_field(
        line: &[char],
        from: usize,
        to: usize,
        atco_mapping: &AtcoMap<Atco>,
    ) -> (code: Option<Atco>)
        requires
            from <= to <= line@.len(),
            atco_mapping.wf(),
        ensures
            code.is_some() == mapped_code(
                line@.subrange(from as int, to as int),
                atco_mapping.texts(),
            ).is_some(),
            code matches Some(atco) ==> Some(atco@) == mapped_code(
                line@.subrange(from as int, to as int),
                atco_mapping.texts(),
            ),
    {
        let atco = Atco::from_field(line, from, to);
        if atco.starts_with_999() {
            return None;
        }
        match atco_mapping.get(&atco) {
            Some(replacement) => Some(replacement.clone()),
            None => Some(atco),
        }
    }

    /// Reads the identifier written in `s` and replaces it through
    /// `atco_mapping`; `None` for an identifier that begins with `999`.
    pub fn from_mapped_str(s: &str, atco_mapping: &AtcoMap<Atco>) -> (code: Option<Atco>)
        requires
            atco_mapping.wf(),
        ensures
            code.is_some() == mapped_code(s@, atco_mapping.texts()).is_some(),
            code matches Some(atco) ==> Some(atco@) == mapped_code(s@, atco_mapping.texts()),
    {
        let chars = chars_of(s);
        assert(s@.subrange(0, s@.len() as int) == s@);
        Atco::from_mapped_field(chars.as_slice(), 0, chars.len(), atco_mapping)
    }
}

} // verus!
