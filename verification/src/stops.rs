//! The names of the stops, and the canonical codes of their identifiers.
//!
//! The identifier that a journey's stop record carries is resolved to a
//! canonical code before departures are counted. Two ways of building the
//! table of canonical codes are offered, for the two kinds of stop definition
//! that timetables come with:
//!
//! * *directly*: every defined stop stands for itself;
//! * *indirectly*: stops are linked to stations through a numeric reference.
//!   First the references are mapped to station codes, then every stop
//!   identifier is rewritten through its reference.
//!
//! Both can be restricted to an allow-list of canonical codes. Wherever two
//! records define the same key, the first one wins.

use crate::atco::{canonical_code, Atco, AtcoMap};
use crate::records::{record_views, Record, RecordView};
use std::collections::HashMap;
use vstd::prelude::*;

verus! {

broadcast use vstd::std_specs::hash::group_hash_axioms;

/// The name of a stop.
#[derive(Debug, PartialEq, Eq, Hash)]
pub struct StationName(pub String);

impl View for StationName {
    type V = Seq<char>;

    open spec fn view(&self) -> Seq<char> {
        self.0@
    }
}

impl Clone for StationName {
    fn clone(&self) -> (copy: Self)
        ensures
            copy == *self,
    {
        StationName(self.0.clone())
    }
}

/// The map that a list of optional entries gives when they are inserted in
/// order and an entry whose key is already held is passed over.
pub open spec fn first_wins<K, V>(entries: Seq<Option<(K, V)>>) -> Map<K, V>
    decreases entries.len(),
{
    if entries.len() == 0 {
        Map::empty()
    } else {
        let before = first_wins(entries.drop_last());
        match entries.last() {
            Some((key, value)) => if before.contains_key(key) {
                before
            } else {
                before.insert(key, value)
            },
            None => before,
        }
    }
}

/// No two entries give different values to one key.
pub open spec fn agreeing<K, V>(entries: Seq<Option<(K, V)>>) -> bool {
    forall|i: int, j: int|
        0 <= i < entries.len() && 0 <= j < entries.len() && (#[trigger] entries[i]) is Some && (
        #[trigger] entries[j]) is Some && (entries[i]->0).0 == (entries[j]->0).0 ==> (entries[i]->0).1
            == (entries[j]->0).1
}

/// Two lists hold the same items, in whatever order and number.
pub open spec fn same_items<T>(a: Seq<T>, b: Seq<T>) -> bool {
    forall|item: T| a.contains(item) <==> b.contains(item)
}

/// The map holds the key of every entry, and every key of the map with its
/// value is one of the entries.
pub proof fn lemma_first_wins_holds<K, V>(entries: Seq<Option<(K, V)>>)
    ensures
        forall|i: int|
            0 <= i < entries.len() && (#[trigger] entries[i]) is Some ==> first_wins(
                entries,
            ).contains_key((entries[i]->0).0),
        forall|key: K| #[trigger]
            first_wins(entries).contains_key(key) ==> entries.contains(
                Some((key, first_wins(entries)[key])),
            ),
    decreases entries.len(),
{
    if entries.len() > 0 {
        let shorter = entries.drop_last();
        lemma_first_wins_holds(shorter);
        assert forall|i: int| 0 <= i < entries.len() && (#[trigger] entries[i]) is Some implies first_wins(
            entries,
        ).contains_key((entries[i]->0).0) by {
            if i < shorter.len() {
                assert(shorter[i] == entries[i]);
            }
        }
        assert forall|key: K| #[trigger] first_wins(entries).contains_key(key) implies entries.contains(
            Some((key, first_wins(entries)[key])),
        ) by {
            if first_wins(shorter).contains_key(key) {
                let found = Some((key, first_wins(shorter)[key]));
                assert(shorter.contains(found));
                let i = choose|i: int| 0 <= i < shorter.len() && shorter[i] == found;
                assert(entries[i] == found);
            } else {
                assert(entries[entries.len() - 1] == Some((key, first_wins(entries)[key])));
            }
        }
    }
}

/// Where no two entries give different values to one key, the order of the
/// entries has no part in the map.
pub proof fn lemma_first_wins_reordered<K, V>(a: Seq<Option<(K, V)>>, b: Seq<Option<(K, V)>>)
    requires
        same_items(a, b),
        agreeing(a),
    ensures
        first_wins(a) == first_wins(b),
{
    lemma_first_wins_holds(a);
    lemma_first_wins_holds(b);
    let ma = first_wins(a);
    let mb = first_wins(b);
    assert forall|key: K| ma.contains_key(key) implies #[trigger] mb.contains_key(key) by {
        let found = Some((key, ma[key]));
        assert(a.contains(found));
        assert(b.contains(found));
        let j = choose|j: int| 0 <= j < b.len() && b[j] == found;
        assert(b[j] is Some);
    }
    assert forall|key: K| mb.contains_key(key) implies #[trigger] ma.contains_key(key) by {
        let found = Some((key, mb[key]));
        assert(b.contains(found));
        assert(a.contains(found));
        let j = choose|j: int| 0 <= j < a.len() && a[j] == found;
        assert(a[j] is Some);
    }
    assert forall|key: K| ma.contains_key(key) && mb.contains_key(key) implies #[trigger] ma[key]
        == mb[key] by {
        let in_a = Some((key, ma[key]));
        let in_b = Some((key, mb[key]));
        assert(a.contains(in_a));
        assert(b.contains(in_b));
        assert(a.contains(in_b));
        let i = choose|i: int| 0 <= i < a.len() && a[i] == in_a;
        let j = choose|j: int| 0 <= j < a.len() && a[j] == in_b;
        assert((a[i]->0).1 == (a[j]->0).1);
    }
    assert(ma =~= mb);
}

/// The name that a record gives to a stop.
pub open spec fn names_stop(record: RecordView) -> Option<(Seq<char>, Seq<char>)> {
    match record {
        RecordView::StopName(name) => Some((name.atco_code, name.name)),
        _ => None,
    }
}

/// The names of the stops that `records` define: of several names for one
/// stop, the first.
pub open spec fn names_of(records: Seq<RecordView>) -> Map<Seq<char>, Seq<char>> {
    first_wins(Seq::new(records.len(), |i: int| names_stop(records[i])))
}

/// The names that a table of stop names holds.
pub open spec fn name_texts(lookup: AtcoMap<StationName>) -> Map<Seq<char>, Seq<char>> {
    Map::new(|code: Seq<char>| lookup@.contains_key(code), |code: Seq<char>| lookup@[code]@)
}

/// Gathers the names of the stops that `records` define.
pub fn create_lookup(records: &[Record]) -> (lookup: AtcoMap<StationName>)
    ensures
        lookup.wf(),
        name_texts(lookup) == names_of(record_views(records@)),
{
    let mut pt_stop_lookup: AtcoMap<StationName> = AtcoMap::new();
    let ghost views = record_views(records@);
    let ghost entries = Seq::new(views.len(), |i: int| names_stop(views[i]));
    let mut i: usize = 0;
    proof {
        assert(entries.take(0) == Seq::<Option<(Seq<char>, Seq<char>)>>::empty());
        assert(name_texts(pt_stop_lookup) =~= first_wins(entries.take(0)));
    }
    while i < records.len()
        invariant
            i <= records@.len(),
            views == record_views(records@),
            entries == Seq::new(views.len(), |i: int| names_stop(views[i])),
            pt_stop_lookup.wf(),
            name_texts(pt_stop_lookup) == first_wins(entries.take(i as int)),
        decreases records@.len() - i,
    {
        proof {
            assert(entries.take(i + 1).drop_last() == entries.take(i as int));
            assert(entries.take(i + 1).last() == names_stop(records@[i as int]@));
        }
        match &records[i] {
            Record::StopName(stop_name) => {
                let ghost before = name_texts(pt_stop_lookup);
                pt_stop_lookup.insert_if_absent(
                    stop_name.atco_code.clone(),
                    StationName(stop_name.name.clone()),
                );
                proof {
                    if before.contains_key(stop_name.atco_code@) {
                        assert(name_texts(pt_stop_lookup) =~= before);
                    } else {
                        assert(name_texts(pt_stop_lookup) =~= before.insert(
                            stop_name.atco_code@,
                            stop_name.name@,
                        ));
                    }
                }
            },
            _ => {},
        }
        i += 1;
    }
    proof {
        assert(entries.take(records@.len() as int) == entries);
    }
    pt_stop_lookup
}

/// A list of the canonical codes that are to be counted.
pub struct AllowList {
    codes: AtcoMap<()>,
}

impl AllowList {
    /// The list's invariant.
    pub closed spec fn wf(&self) -> bool {
        self.codes.wf()
    }

    /// The codes on the list.
    pub closed spec fn view(&self) -> Set<Seq<char>> {
        self.codes@.dom()
    }

    /// An empty list.
    pub fn new() -> (list: AllowList)
        ensures
            list.wf(),
            list@ == Set::<Seq<char>>::empty(),
    {
        let list = AllowList { codes: AtcoMap::new() };
        assert(list@ =~= Set::<Seq<char>>::empty());
        list
    }

    /// Puts `code` on the list.
    pub fn insert(&mut self, code: Atco)
        requires
            old(self).wf(),
        ensures
            final(self).wf(),
            final(self)@ == old(self)@.insert(code@),
    {
        self.codes.insert_if_absent(code, ());
        assert(final(self)@ =~= old(self)@.insert(code@));
    }

    /// Whether `code` is on the list.
    pub fn contains(&self, code: &Atco) -> (b: bool)
        requires
            self.wf(),
        ensures
            b == self@.contains(code@),
    {
        self.codes.contains_key(code)
    }
}

/// The codes of an allow-list, where one is given.
pub open spec fn allowed_codes(allow: Option<&AllowList>) -> Option<Set<Seq<char>>> {
    match allow {
        Some(list) => Some(list@),
        None => None,
    }
}

/// Whether a code may be counted: it is on the allow-list, or there is none.
pub open spec fn permitted(allow: Option<Set<Seq<char>>>, code: Seq<char>) -> bool {
    match allow {
        Some(codes) => codes.contains(code),
        None => true,
    }
}

fn is_permitted(allow: Option<&AllowList>, code: &Atco) -> (b: bool)
    requires
        allow matches Some(list) ==> list.wf(),
    ensures
        b == permitted(allowed_codes(allow), code@),
{
    match allow {
        Some(list) => list.contains(code),
        None => true,
    }
}

/// Whether a record defines the stop `code` for itself: it is the definition
/// of that stop, and the canonical form of the identifier may be counted.
pub open spec fn defines(record: RecordView, allow: Option<Set<Seq<char>>>, code: Seq<char>) -> bool {
    record matches RecordView::StopName(name) && name.atco_code == code && permitted(
        allow,
        canonical_code(code),
    )
}

/// The canonical codes under direct resolution: every stop that one of the
/// records defines stands for itself, under the canonical form of its
/// identifier.
pub open spec fn direct_identifiers(
    records: Seq<RecordView>,
    allow: Option<Set<Seq<char>>>,
) -> Map<Seq<char>, Seq<char>> {
    Map::new(
        |code: Seq<char>| exists|i: int| 0 <= i < records.len() && defines(records[i], allow, code),
        |code: Seq<char>| canonical_code(code),
    )
}

/// Builds the table of canonical codes directly.
pub fn resolve_direct(records: &[Record], allow: Option<&AllowList>) -> (identifiers: AtcoMap<Atco>)
    requires
        allow matches Some(list) ==> list.wf(),
    ensures
        identifiers.wf(),
        identifiers.texts() == direct_identifiers(record_views(records@), allowed_codes(allow)),
{
    let mut identifiers: AtcoMap<Atco> = AtcoMap::new();
    let ghost views = record_views(records@);
    let ghost allowed = allowed_codes(allow);
    let mut i: usize = 0;
    proof {
        assert(identifiers.texts() =~= direct_identifiers(views.take(0), allowed));
    }
    while i < records.len()
        invariant
            i <= records@.len(),
            views == record_views(records@),
            allowed == allowed_codes(allow),
            allow matches Some(list) ==> list.wf(),
            identifiers.wf(),
            identifiers.texts() == direct_identifiers(views.take(i as int), allowed),
        decreases records@.len() - i,
    {
        let ghost before = identifiers.texts();
        let ghost shorter = views.take(i as int);
        let ghost longer = views.take(i + 1);
        proof {
            assert(longer[i as int] == records@[i as int]@);
            assert forall|j: int| 0 <= j < i implies longer[j] == shorter[j] by {}
        }
        match &records[i] {
            Record::StopName(stop_name) => {
                let canonical = stop_name.atco_code.canonical();
                if is_permitted(allow, &canonical) {
                    identifiers.insert_if_absent(stop_name.atco_code.clone(), canonical);
                    proof {
                        let code = stop_name.atco_code@;
                        let own = canonical_code(code);
                        assert(defines(longer[i as int], allowed, code));
                        assert forall|c: Seq<char>|
                            direct_identifiers(longer, allowed).contains_key(
                                c,
                            ) implies #[trigger] before.insert(code, own).contains_key(c) by {
                            let j = choose|j: int|
                                0 <= j < longer.len() && defines(longer[j], allowed, c);
                            if j < i {
                                assert(defines(shorter[j], allowed, c));
                            }
                        }
                        assert forall|c: Seq<char>| #[trigger]
                            before.insert(code, own).contains_key(
                                c,
                            ) implies direct_identifiers(longer, allowed).contains_key(c) by {
                            if c != code {
                                let j = choose|j: int|
                                    0 <= j < shorter.len() && defines(shorter[j], allowed, c);
                                assert(defines(longer[j], allowed, c));
                            }
                        }
                        if before.contains_key(code) {
                            assert(before.insert(code, own) =~= before);
                        }
                        assert(identifiers.texts() =~= before.insert(code, own));
                        assert(identifiers.texts() =~= direct_identifiers(longer, allowed));
                    }
                } else {
                    proof {
                        lemma_direct_unchanged(shorter, longer, allowed);
                    }
                }
            },
            _ => {
                proof {
                    lemma_direct_unchanged(shorter, longer, allowed);
                }
            },
        }
        i += 1;
    }
    proof {
        assert(views.take(records@.len() as int) == views);
    }
    identifiers
}

/// A record that defines no stop adds nothing to the directly resolved codes.
proof fn lemma_direct_unchanged(
    shorter: Seq<RecordView>,
    longer: Seq<RecordView>,
    allow: Option<Set<Seq<char>>>,
)
    requires
        longer.len() == shorter.len() + 1,
        forall|j: int| 0 <= j < shorter.len() ==> longer[j] == shorter[j],
        forall|code: Seq<char>| !defines(longer[shorter.len() as int], allow, code),
    ensures
        direct_identifiers(longer, allow) == direct_identifiers(shorter, allow),
{
    assert forall|c: Seq<char>| direct_identifiers(longer, allow).contains_key(c) implies #[trigger] direct_identifiers(
        shorter,
        allow,
    ).contains_key(c) by {
        let j = choose|j: int| 0 <= j < longer.len() && defines(longer[j], allow, c);
        assert(defines(shorter[j], allow, c));
    }
    assert forall|c: Seq<char>| #[trigger] direct_identifiers(shorter, allow).contains_key(c) implies direct_identifiers(
        longer,
        allow,
    ).contains_key(c) by {
        let j = choose|j: int| 0 <= j < shorter.len() && defines(shorter[j], allow, c);
        assert(defines(longer[j], allow, c));
    }
    assert(direct_identifiers(longer, allow) =~= direct_identifiers(shorter, allow));
}

/// The station to which a record links a numeric reference: the record is a
/// stop definition that carries both a reference and a station code, and the
/// station code may be counted.
pub open spec fn links_station(record: RecordView, allow: Option<Set<Seq<char>>>) -> Option<
    (u64, Seq<char>),
> {
    match record {
        RecordView::StopName(name) => if name.reference is Some && name.station_code is Some
            && permitted(allow, name.station_code->0) {
            Some((name.reference->0, name.station_code->0))
        } else {
            None
        },
        _ => None,
    }
}

/// What each of `records` says of references and stations.
pub open spec fn station_links(records: Seq<RecordView>, allow: Option<Set<Seq<char>>>) -> Seq<
    Option<(u64, Seq<char>)>,
> {
    Seq::new(records.len(), |i: int| links_station(records[i], allow))
}

/// The first stage of indirect resolution: the station code of every numeric
/// reference, restricted to the codes that may be counted.
pub open spec fn station_references(
    records: Seq<RecordView>,
    allow: Option<Set<Seq<char>>>,
) -> Map<u64, Seq<char>> {
    first_wins(station_links(records, allow))
}

/// The canonical code that a record gives to a stop identifier through the
/// stop's numeric reference. A stop without reference, or whose reference has
/// no station, gets none.
pub open spec fn rewrites(record: RecordView, references: Map<u64, Seq<char>>) -> Option<
    (Seq<char>, Seq<char>),
> {
    match record {
        RecordView::StopName(name) => if name.reference is Some && references.contains_key(
            name.reference->0,
        ) {
            Some((name.atco_code, references[name.reference->0]))
        } else {
            None
        },
        _ => None,
    }
}

/// What each of `records` says of stop identifiers and canonical codes.
pub open spec fn rewritings(records: Seq<RecordView>, references: Map<u64, Seq<char>>) -> Seq<
    Option<(Seq<char>, Seq<char>)>,
> {
    Seq::new(records.len(), |i: int| rewrites(records[i], references))
}

/// The second stage of indirect resolution: the canonical code of every stop
/// identifier, found through the stop's numeric reference.
pub open spec fn rewritten_identifiers(
    records: Seq<RecordView>,
    references: Map<u64, Seq<char>>,
) -> Map<Seq<char>, Seq<char>> {
    first_wins(rewritings(records, references))
}

/// The canonical codes under indirect resolution: both stages, one after the
/// other.
pub open spec fn indirect_identifiers(
    records: Seq<RecordView>,
    allow: Option<Set<Seq<char>>>,
) -> Map<Seq<char>, Seq<char>> {
    rewritten_identifiers(records, station_references(records, allow))
}

/// The station codes that a table of references holds.
pub open spec fn reference_texts(references: Map<u64, Atco>) -> Map<u64, Seq<char>> {
    Map::new(|r: u64| references.contains_key(r), |r: u64| references[r]@)
}

/// The first stage of indirect resolution.
pub fn build_reference_map(records: &[Record], allow: Option<&AllowList>) -> (references: HashMap<
    u64,
    Atco,
>)
    requires
        allow matches Some(list) ==> list.wf(),
    ensures
        reference_texts(references@) == station_references(
            record_views(records@),
            allowed_codes(allow),
        ),
{
    let mut references: HashMap<u64, Atco> = HashMap::new();
    let ghost views = record_views(records@);
    let ghost allowed = allowed_codes(allow);
    let ghost links = station_links(views, allowed);
    let mut i: usize = 0;
    proof {
        assert(links.take(0) == Seq::<Option<(u64, Seq<char>)>>::empty());
        assert(reference_texts(references@) =~= first_wins(links.take(0)));
    }
    while i < records.len()
        invariant
            i <= records@.len(),
            views == record_views(records@),
            allowed == allowed_codes(allow),
            links == station_links(views, allowed),
            allow matches Some(list) ==> list.wf(),
            reference_texts(references@) == first_wins(links.take(i as int)),
        decreases records@.len() - i,
    {
        proof {
            assert(links.take(i + 1).drop_last() == links.take(i as int));
            assert(links.take(i + 1).last() == links_station(records@[i as int]@, allowed));
        }
        let ghost before = reference_texts(references@);
        match &records[i] {
            Record::StopName(stop_name) => {
                match (stop_name.reference, &stop_name.station_code) {
                    (Some(reference), Some(station_code)) => {
                        if is_permitted(allow, station_code) && !references.contains_key(
                            &reference,
                        ) {
                            references.insert(reference, station_code.clone());
                            assert(reference_texts(references@) =~= before.insert(
                                reference,
                                station_code@,
                            ));
                        }
                    },
                    _ => {},
                }
            },
            _ => {},
        }
        i += 1;
    }
    proof {
        assert(links.take(records@.len() as int) == links);
    }
    references
}

/// The second stage of indirect resolution.
pub fn rewrite_identifiers(records: &[Record], references: &HashMap<u64, Atco>) -> (identifiers:
    AtcoMap<Atco>)
    ensures
        identifiers.wf(),
        identifiers.texts() == rewritten_identifiers(
            record_views(records@),
            reference_texts(references@),
        ),
{
    let mut identifiers: AtcoMap<Atco> = AtcoMap::new();
    let ghost views = record_views(records@);
    let ghost stations = reference_texts(references@);
    let ghost pairs = rewritings(views, stations);
    let mut i: usize = 0;
    proof {
        assert(pairs.take(0) == Seq::<Option<(Seq<char>, Seq<char>)>>::empty());
        assert(identifiers.texts() =~= first_wins(pairs.take(0)));
    }
    while i < records.len()
        invariant
            i <= records@.len(),
            views == record_views(records@),
            stations == reference_texts(references@),
            pairs == rewritings(views, stations),
            identifiers.wf(),
            identifiers.texts() == first_wins(pairs.take(i as int)),
        decreases records@.len() - i,
    {
        proof {
            assert(pairs.take(i + 1).drop_last() == pairs.take(i as int));
            assert(pairs.take(i + 1).last() == rewrites(records@[i as int]@, stations));
        }
        let ghost before = identifiers.texts();
        match &records[i] {
            Record::StopName(stop_name) => {
                match stop_name.reference {
                    Some(reference) => {
                        match references.get(&reference) {
                            Some(station_code) => {
                                identifiers.insert_if_absent(
                                    stop_name.atco_code.clone(),
                                    station_code.clone(),
                                );
                                proof {
                                    if before.contains_key(stop_name.atco_code@) {
                                        assert(identifiers.texts() =~= before);
                                    } else {
                                        assert(identifiers.texts() =~= before.insert(
                                            stop_name.atco_code@,
                                            station_code@,
                                        ));
                                    }
                                }
                            },
                            None => {},
                        }
                    },
                    None => {},
                }
            },
            _ => {},
        }
        i += 1;
    }
    proof {
        assert(pairs.take(records@.len() as int) == pairs);
    }
    identifiers
}

/// Builds the table of canonical codes indirectly, in its two stages.
pub fn resolve_indirect(records: &[Record], allow: Option<&AllowList>) -> (identifiers: AtcoMap<
    Atco,
>)
    requires
        allow matches Some(list) ==> list.wf(),
    ensures
        identifiers.wf(),
        identifiers.texts() == indirect_identifiers(record_views(records@), allowed_codes(allow)),
{
    let references = build_reference_map(records, allow);
    rewrite_identifiers(records, &references)
}

/// No two records link one reference to different stations, and no two give
/// one stop identifier different canonical codes.
pub open spec fn unambiguous(records: Seq<RecordView>, allow: Option<Set<Seq<char>>>) -> bool {
    &&& agreeing(station_links(records, allow))
    &&& agreeing(rewritings(records, station_references(records, allow)))
}

/// Two lists of the same items give the same items when each item is mapped.
proof fn lemma_same_items_mapped<T, U>(a: Seq<T>, b: Seq<T>, f: spec_fn(T) -> U)
    requires
        same_items(a, b),
    ensures
        same_items(Seq::new(a.len(), |i: int| f(a[i])), Seq::new(b.len(), |i: int| f(b[i]))),
{
    let fa = Seq::new(a.len(), |i: int| f(a[i]));
    let fb = Seq::new(b.len(), |i: int| f(b[i]));
    assert forall|item: U| fa.contains(item) implies fb.contains(item) by {
        let i = choose|i: int| 0 <= i < fa.len() && fa[i] == item;
        assert(a.contains(a[i]));
        assert(b.contains(a[i]));
        let j = choose|j: int| 0 <= j < b.len() && b[j] == a[i];
        assert(fb[j] == item);
    }
    assert forall|item: U| fb.contains(item) implies fa.contains(item) by {
        let i = choose|i: int| 0 <= i < fb.len() && fb[i] == item;
        assert(b.contains(b[i]));
        assert(a.contains(b[i]));
        let j = choose|j: int| 0 <= j < a.len() && a[j] == b[i];
        assert(fa[j] == item);
    }
}

/// Direct resolution does not depend on the order of the records, nor on how
/// often a record occurs.
pub proof fn lemma_direct_resolution_ignores_order(
    a: Seq<RecordView>,
    b: Seq<RecordView>,
    allow: Option<Set<Seq<char>>>,
)
    requires
        same_items(a, b),
    ensures
        direct_identifiers(a, allow) == direct_identifiers(b, allow),
{
    assert forall|code: Seq<char>| direct_identifiers(a, allow).contains_key(code) implies #[trigger] direct_identifiers(
        b,
        allow,
    ).contains_key(code) by {
        let i = choose|i: int| 0 <= i < a.len() && defines(a[i], allow, code);
        assert(a.contains(a[i]));
        let j = choose|j: int| 0 <= j < b.len() && b[j] == a[i];
        assert(defines(b[j], allow, code));
    }
    assert forall|code: Seq<char>| #[trigger] direct_identifiers(b, allow).contains_key(code) implies direct_identifiers(
        a,
        allow,
    ).contains_key(code) by {
        let i = choose|i: int| 0 <= i < b.len() && defines(b[i], allow, code);
        assert(b.contains(b[i]));
        let j = choose|j: int| 0 <= j < a.len() && a[j] == b[i];
        assert(defines(a[j], allow, code));
    }
    assert(direct_identifiers(a, allow) =~= direct_identifiers(b, allow));
}

/// Indirect resolution does not depend on the order of the records, unless
/// two of them compete for one key with different values: then the first
/// one wins, and the order decides which that is.
pub proof fn lemma_indirect_resolution_ignores_order(
    a: Seq<RecordView>,
    b: Seq<RecordView>,
    allow: Option<Set<Seq<char>>>,
)
    requires
        same_items(a, b),
        unambiguous(a, allow),
    ensures
        station_references(a, allow) == station_references(b, allow),
        indirect_identifiers(a, allow) == indirect_identifiers(b, allow),
{
    lemma_same_items_mapped(a, b, |record: RecordView| links_station(record, allow));
    assert(station_links(a, allow) =~= Seq::new(
        a.len(),
        |i: int| (|record: RecordView| links_station(record, allow))(a[i]),
    ));
    assert(station_links(b, allow) =~= Seq::new(
        b.len(),
        |i: int| (|record: RecordView| links_station(record, allow))(b[i]),
    ));
    lemma_first_wins_reordered(station_links(a, allow), station_links(b, allow));
    let references = station_references(a, allow);
    lemma_same_items_mapped(a, b, |record: RecordView| rewrites(record, references));
    assert(rewritings(a, references) =~= Seq::new(
        a.len(),
        |i: int| (|record: RecordView| rewrites(record, references))(a[i]),
    ));
    assert(rewritings(b, references) =~= Seq::new(
        b.len(),
        |i: int| (|record: RecordView| rewrites(record, references))(b[i]),
    ));
    lemma_first_wins_reordered(rewritings(a, references), rewritings(b, references));
}

/// The names of the stops do not depend on the order of the records, unless
/// two records name one stop differently.
pub proof fn lemma_names_ignore_order(a: Seq<RecordView>, b: Seq<RecordView>)
    requires
        same_items(a, b),
        agreeing(Seq::new(a.len(), |i: int| names_stop(a[i]))),
    ensures
        names_of(a) == names_of(b),
{
    lemma_same_items_mapped(a, b, |record: RecordView| names_stop(record));
    let na = Seq::new(a.len(), |i: int| names_stop(a[i]));
    let nb = Seq::new(b.len(), |i: int| names_stop(b[i]));
    assert(na =~= Seq::new(a.len(), |i: int| (|record: RecordView| names_stop(record))(a[i])));
    assert(nb =~= Seq::new(b.len(), |i: int| (|record: RecordView| names_stop(record))(b[i])));
    lemma_first_wins_reordered(na, nb);
}

} // verus!
