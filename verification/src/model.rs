//! Stop points, transfers, and the model that holds them.
//!
//! The transfers of a model form a mapping from an ordered pair of stop point
//! identifiers to the timing of the transfer. The model keeps them in a list
//! in which no pair occurs twice and every identifier names a stop point of
//! the model: this is the invariant of the type, which every model meets.
//! Beside the lists a model keeps the place of each identifier in the list of
//! stop points, and the pairs of places that have a transfer, so that neither
//! has to be searched for.

use vstd::prelude::*;
use vstd::hash_map::StringHashMap;
use crate::error::TransferError;
use crate::geometry::Position;
use crate::occupancy::Occupancy;

verus! {

/// A single boardable location.
#[derive(Clone, Debug, PartialEq, Eq)]
pub struct StopPoint {
    /// The identifier, unique within a model.
    pub id: String,
    /// Where the stop point lies.
    pub position: Position,
    /// The identifier of the stop area that groups it with others, if any.
    pub stop_area: Option<String>,
}

/// The timing of a transfer, in seconds.
#[derive(Clone, Copy, Debug, PartialEq, Eq, Structural)]
pub struct TransferTimes {
    /// The whole duration of the transfer.
    pub duration: u64,
    /// The time spent walking.
    pub real_walking_time: u64,
    /// The time spent waiting.
    pub waiting_time: u32,
}

/// A directed walking connection from one stop point to another.
#[derive(Clone, Debug, PartialEq, Eq)]
pub struct Transfer {
    /// The identifier of the stop point where the transfer starts.
    pub from_stop_id: String,
    /// The identifier of the stop point where the transfer ends.
    pub to_stop_id: String,
    /// How long the transfer takes.
    pub times: TransferTimes,
}

/// The identifiers of the two ends of a transfer, start first.
pub type TransferKey = (Seq<char>, Seq<char>);

impl Transfer {
    /// The pair of identifiers under which a collection keeps this transfer.
    pub open spec fn key(&self) -> TransferKey {
        (self.from_stop_id@, self.to_stop_id@)
    }
}

/// Some stop point of `stops` has the identifier `id`.
pub open spec fn has_stop(stops: Seq<StopPoint>, id: Seq<char>) -> bool {
    exists|i: int| 0 <= i < stops.len() && (#[trigger] stops[i]).id@ == id
}

/// Some transfer of `transfers` has the key `key`.
pub open spec fn has_key(transfers: Seq<Transfer>, key: TransferKey) -> bool {
    exists|i: int| 0 <= i < transfers.len() && #[trigger] transfers[i].key() == key
}

/// No two stop points share an identifier.
pub open spec fn distinct_ids(stops: Seq<StopPoint>) -> bool {
    forall|i: int, j: int|
        0 <= i < j < stops.len() ==> (#[trigger] stops[i]).id@ != (#[trigger] stops[j]).id@
}

/// No two transfers share a key.
pub open spec fn distinct_keys(transfers: Seq<Transfer>) -> bool {
    forall|i: int, j: int|
        0 <= i < j < transfers.len() ==> #[trigger] transfers[i].key() != #[trigger] transfers[j].key()
}

/// Both ends of every transfer are stop points of `stops`.
pub open spec fn all_resolved(stops: Seq<StopPoint>, transfers: Seq<Transfer>) -> bool {
    forall|i: int|
        0 <= i < transfers.len() ==> {
            &&& has_stop(stops, (#[trigger] transfers[i]).from_stop_id@)
            &&& has_stop(stops, transfers[i].to_stop_id@)
        }
}

/// No transfer of `transfers` before the one at `i` has the same key as it.
pub open spec fn is_first(transfers: Seq<Transfer>, i: int) -> bool {
    forall|j: int| 0 <= j < i ==> #[trigger] transfers[j].key() != transfers[i].key()
}

/// The mapping that results when the transfers of `added` are put into `base`
/// one after the other, each only where `base` and the transfers before it
/// have left its key free.
pub open spec fn merged(
    base: Map<TransferKey, TransferTimes>,
    added: Seq<Transfer>,
) -> Map<TransferKey, TransferTimes>
    decreases added.len(),
{
    if added.len() == 0 {
        base
    } else {
        let before = merged(base, added.drop_last());
        let last = added.last();
        if before.contains_key(last.key()) {
            before
        } else {
            before.insert(last.key(), last.times)
        }
    }
}

/// What `merged` holds: the keys of `base` with their values, and each other
/// key of `added` with the value of its first occurrence.
pub proof fn lemma_merged(base: Map<TransferKey, TransferTimes>, added: Seq<Transfer>)
    ensures
        forall|k: TransferKey|
            #[trigger] merged(base, added).contains_key(k) <==> base.contains_key(k) || has_key(
                added,
                k,
            ),
        forall|k: TransferKey|
            base.contains_key(k) ==> #[trigger] merged(base, added)[k] == base[k],
        forall|i: int|
            0 <= i < added.len() && !base.contains_key(added[i].key()) && #[trigger] is_first(
                added,
                i,
            ) ==> merged(base, added)[added[i].key()] == added[i].times,
    decreases added.len(),
{
    if added.len() > 0 {
        let front = added.drop_last();
        let last = added.last();
        let before = merged(base, front);
        let after = merged(base, added);
        lemma_merged(base, front);
        assert(after == (if before.contains_key(last.key()) {
            before
        } else {
            before.insert(last.key(), last.times)
        }));
        assert(added[added.len() - 1].key() == last.key());
        assert(has_key(added, last.key()));
        assert forall|k: TransferKey|
            #[trigger] after.contains_key(k) <==> base.contains_key(k) || has_key(added, k) by {
            assert(before.contains_key(k) <==> base.contains_key(k) || has_key(front, k));
            if has_key(front, k) {
                let i: int = choose|i: int| 0 <= i < front.len() && #[trigger] front[i].key() == k;
                assert(added[i].key() == k);
                assert(has_key(added, k));
            }
            if has_key(added, k) && k != last.key() {
                let i: int = choose|i: int| 0 <= i < added.len() && #[trigger] added[i].key() == k;
                assert(i < front.len());
                assert(front[i].key() == k);
                assert(has_key(front, k));
            }
        }
        assert forall|k: TransferKey| base.contains_key(k) implies #[trigger] after[k]
            == base[k] by {
            assert(before.contains_key(k));
            assert(before[k] == base[k]);
        }
        assert forall|i: int|
            0 <= i < added.len() && !base.contains_key(added[i].key()) && #[trigger] is_first(
                added,
                i,
            ) implies after[added[i].key()] == added[i].times by {
            let k = added[i].key();
            if i < front.len() {
                assert(front[i].key() == k);
                assert forall|j: int| 0 <= j < i implies #[trigger] front[j].key() != front[i].key() by {
                    assert(added[j].key() != added[i].key());
                }
                assert(is_first(front, i));
                assert(before[k] == front[i].times);
                assert(has_key(front, k));
                assert(before.contains_key(k));
            } else {
                assert(added[i] == last);
                if has_key(front, k) {
                    let j: int = choose|j: int|
                        0 <= j < front.len() && #[trigger] front[j].key() == k;
                    assert(added[j].key() == added[i].key());
                }
                assert(!before.contains_key(k));
            }
        }
    }
}

/// Putting in two lists one after the other is putting in their
/// concatenation: transfers can be merged in batches.
pub proof fn lemma_merged_concat(
    base: Map<TransferKey, TransferTimes>,
    first: Seq<Transfer>,
    second: Seq<Transfer>,
)
    ensures
        merged(merged(base, first), second) == merged(base, first + second),
    decreases second.len(),
{
    if second.len() == 0 {
        assert(first + second =~= first);
    } else {
        lemma_merged_concat(base, first, second.drop_last());
        assert((first + second).drop_last() =~= first + second.drop_last());
        assert((first + second).last() == second.last());
    }
}

/// The position in `transfers` of the first transfer from `from` to `to`.
pub fn find_transfer(transfers: &Vec<Transfer>, from: &String, to: &String) -> (found: Option<
    usize,
>)
    ensures
        match found {
            Some(i) => i < transfers.len() && transfers[i as int].key() == (from@, to@)
                && is_first(transfers@, i as int),
            None => !has_key(transfers@, (from@, to@)),
        },
{
    let mut i: usize = 0;
    while i < transfers.len()
        invariant
            i <= transfers.len(),
            forall|j: int| 0 <= j < i ==> #[trigger] transfers[j].key() != (from@, to@),
        decreases transfers.len() - i,
    {
        if transfers[i].from_stop_id.eq(from) && transfers[i].to_stop_id.eq(to) {
            return Some(i);
        }
        i += 1;
    }
    None
}

/// A copy of a transfer.
pub fn copy_transfer(transfer: &Transfer) -> (copy: Transfer)
    ensures
        copy == *transfer,
{
    Transfer {
        from_stop_id: transfer.from_stop_id.clone(),
        to_stop_id: transfer.to_stop_id.clone(),
        times: transfer.times,
    }
}

/// The key of a transfer from the stop point at the place `a` to the one at
/// the place `b`.
pub open spec fn key_of(stops: Seq<StopPoint>, a: int, b: int) -> TransferKey {
    (stops[a].id@, stops[b].id@)
}

/// A list of transfers with one more at its end holds the keys that it held
/// before, and the key of that one.
pub proof fn lemma_has_key_push(transfers: Seq<Transfer>, transfer: Transfer, key: TransferKey)
    ensures
        has_key(transfers.push(transfer), key) <==> has_key(transfers, key) || transfer.key() == key,
{
    let longer = transfers.push(transfer);
    if has_key(transfers, key) {
        let i: int = choose|i: int| 0 <= i < transfers.len() && #[trigger] transfers[i].key() == key;
        assert(longer[i].key() == key);
    }
    if transfer.key() == key {
        assert(longer[longer.len() - 1].key() == key);
    }
    if has_key(longer, key) {
        let i: int = choose|i: int| 0 <= i < longer.len() && #[trigger] longer[i].key() == key;
        if i < transfers.len() {
            assert(transfers[i].key() == key);
        }
    }
}

/// The stop points of a network and the transfers between them.
///
/// Identifiers and keys are unique in a model, and every transfer joins two
/// stop points of the model.
pub struct Model {
    stop_points: Vec<StopPoint>,
    transfers: Vec<Transfer>,
    places: StringHashMap<usize>,
    taken: Occupancy,
}

/// What a model keeps beside its lists agrees with them: `places` gives the
/// place of each identifier, and `taken` the pairs of places that have a
/// transfer.
spec fn indexed(
    stops: Seq<StopPoint>,
    transfers: Seq<Transfer>,
    places: Map<Seq<char>, usize>,
    taken: Occupancy,
) -> bool {
    &&& forall|i: int|
        0 <= i < stops.len() ==> #[trigger] places.contains_key(stops[i].id@) && places[stops[i].id@]
            == i
    &&& forall|id: Seq<char>| #[trigger]
        places.contains_key(id) ==> places[id] < stops.len() && stops[places[id] as int].id@ == id
    &&& taken.size() == stops.len()
    &&& forall|a: int, b: int| #[trigger]
        taken.holds(a, b) ==> 0 <= a < stops.len() && 0 <= b < stops.len() && has_key(
            transfers,
            key_of(stops, a, b),
        )
    &&& forall|a: int, b: int|
        0 <= a < stops.len() && 0 <= b < stops.len() && has_key(
            transfers,
            #[trigger] key_of(stops, a, b),
        ) ==> taken.holds(a, b)
}

impl Model {
    #[verifier::type_invariant]
    spec fn well_formed(&self) -> bool {
        &&& distinct_ids(self.stop_points@)
        &&& distinct_keys(self.transfers@)
        &&& all_resolved(self.stop_points@, self.transfers@)
        &&& indexed(self.stop_points@, self.transfers@, self.places@, self.taken)
    }

    /// The stop points, in the order in which they were put in.
    pub closed spec fn stops(&self) -> Seq<StopPoint> {
        self.stop_points@
    }

    /// The transfers, in the order in which they were put in.
    pub closed spec fn transfer_list(&self) -> Seq<Transfer> {
        self.transfers@
    }

    /// The transfers as a mapping from their keys to their timing.
    pub open spec fn transfer_map(&self) -> Map<TransferKey, TransferTimes> {
        merged(Map::empty(), self.transfer_list())
    }

    /// A model without stop points or transfers.
    pub fn new() -> (model: Model)
        ensures
            model.stops() == Seq::<StopPoint>::empty(),
            model.transfer_list() == Seq::<Transfer>::empty(),
            model.transfer_map() == Map::<TransferKey, TransferTimes>::empty(),
    {
        Model {
            stop_points: Vec::new(),
            transfers: Vec::new(),
            places: StringHashMap::new(),
            taken: Occupancy::new(0),
        }
    }

    /// The stop points of the model. No two of them share an identifier.
    pub fn stop_points(&self) -> (stops: &Vec<StopPoint>)
        ensures
            stops@ == self.stops(),
            distinct_ids(stops@),
    {
        proof {
            use_type_invariant(self);
        }
        &self.stop_points
    }

    /// The transfers of the model. No two of them share a key, and each
    /// joins two stop points of the model.
    pub fn transfers(&self) -> (transfers: &Vec<Transfer>)
        ensures
            transfers@ == self.transfer_list(),
            distinct_keys(transfers@),
            all_resolved(self.stops(), transfers@),
    {
        proof {
            use_type_invariant(self);
        }
        &self.transfers
    }

    /// The place in the list of stop points of the one with the identifier
    /// `id`.
    pub fn find_stop_point(&self, id: &String) -> (found: Option<usize>)
        ensures
            match found {
                Some(i) => i < self.stops().len() && self.stops()[i as int].id@ == id@,
                None => !has_stop(self.stops(), id@),
            },
    {
        proof {
            use_type_invariant(self);
        }
        match self.places.get(id.as_str()) {
            Some(place) => Some(*place),
            None => {
                proof {
                    if has_stop(self.stop_points@, id@) {
                        let i: int = choose|i: int|
                            0 <= i < self.stop_points@.len() && (
                            #[trigger] self.stop_points@[i]).id@ == id@;
                        assert(self.places@.contains_key(self.stop_points@[i].id@));
                    }
                }
                None
            },
        }
    }

    /// Adds a stop point, unless the model already holds one with the same
    /// identifier. Says whether it was added.
    pub fn insert_stop_point(&mut self, stop_point: StopPoint) -> (inserted: bool)
        ensures
            inserted == !has_stop(old(self).stops(), stop_point.id@),
            final(self).stops() == (if inserted {
                old(self).stops().push(stop_point)
            } else {
                old(self).stops()
            }),
            final(self).transfer_list() == old(self).transfer_list(),
    {
        proof {
            use_type_invariant(&*self);
        }
        if self.find_stop_point(&stop_point.id).is_some() {
            return false;
        }
        let mut whole = Model::new();
        std::mem::swap(self, &mut whole);
        let Model { mut stop_points, transfers, mut places, mut taken } = whole;
        let place: usize = stop_points.len();
        let ghost stops = stop_points@;
        let ghost grown = stops.push(stop_point);
        let ghost held = transfers@;
        let ghost placed = places@;
        let ghost marked = taken;
        proof {
            assert forall|i: int| 0 <= i < held.len() implies {
                &&& has_stop(grown, (#[trigger] held[i]).from_stop_id@)
                &&& has_stop(grown, held[i].to_stop_id@)
            } by {
                let a: int = choose|a: int|
                    0 <= a < stops.len() && (#[trigger] stops[a]).id@ == held[i].from_stop_id@;
                assert(grown[a].id@ == held[i].from_stop_id@);
                let b: int = choose|b: int|
                    0 <= b < stops.len() && (#[trigger] stops[b]).id@ == held[i].to_stop_id@;
                assert(grown[b].id@ == held[i].to_stop_id@);
            }
            assert forall|i: int, j: int| 0 <= i < j < grown.len() implies (#[trigger] grown[i]).id@
                != (#[trigger] grown[j]).id@ by {
                if j == stops.len() {
                    assert(stops[i].id@ != stop_point.id@);
                } else {
                    assert(stops[i].id@ != stops[j].id@);
                }
            }
            assert forall|a: int, b: int|
                0 <= a < grown.len() && 0 <= b < grown.len() && has_key(
                    held,
                    #[trigger] key_of(grown, a, b),
                ) implies a < stops.len() && b < stops.len() && key_of(grown, a, b) == key_of(
                stops,
                a,
                b,
            ) by {
                let i: int = choose|i: int|
                    0 <= i < held.len() && #[trigger] held[i].key() == key_of(grown, a, b);
                assert(has_stop(stops, held[i].from_stop_id@));
                assert(has_stop(stops, held[i].to_stop_id@));
            }
        }
        places.insert(stop_point.id.clone(), place);
        taken.add_place();
        stop_points.push(stop_point);
        proof {
            assert(stop_points@ == grown);
            assert forall|i: int| 0 <= i < grown.len() implies #[trigger] places@.contains_key(
                grown[i].id@,
            ) && places@[grown[i].id@] == i by {
                if i < stops.len() {
                    assert(placed.contains_key(stops[i].id@));
                    assert(stops[i].id@ != stop_point.id@);
                }
            }
            assert forall|a: int, b: int| #[trigger] taken.holds(a, b) implies 0 <= a < grown.len()
                && 0 <= b < grown.len() && has_key(held, key_of(grown, a, b)) by {
                assert(marked.holds(a, b));
                assert(key_of(grown, a, b) == key_of(stops, a, b));
            }
        }
        *self = Model { stop_points, transfers, places, taken };
        true
    }

    /// The timing of the transfer from `from` to `to`, if the model holds one.
    pub fn get_transfer(&self, from: &String, to: &String) -> (times: Option<TransferTimes>)
        ensures
            times == (if self.transfer_map().contains_key((from@, to@)) {
                Some(self.transfer_map()[(from@, to@)])
            } else {
                None::<TransferTimes>
            }),
    {
        proof {
            use_type_invariant(self);
            lemma_merged(Map::empty(), self.transfers@);
            if has_key(self.transfers@, (from@, to@)) {
                let i: int = choose|i: int|
                    0 <= i < self.transfers@.len() && #[trigger] self.transfers@[i].key() == (
                        from@,
                        to@,
                    );
                assert(has_stop(self.stop_points@, self.transfers@[i].from_stop_id@));
                assert(has_stop(self.stop_points@, self.transfers@[i].to_stop_id@));
            }
        }
        let start = self.find_stop_point(from);
        let end = self.find_stop_point(to);
        match (start, end) {
            (Some(a), Some(b)) => {
                proof {
                    assert(key_of(self.stop_points@, a as int, b as int) == (from@, to@));
                }
                if !self.taken.contains(a, b) {
                    return None;
                }
                match find_transfer(&self.transfers, from, to) {
                    Some(i) => {
                        assert(is_first(self.transfers@, i as int));
                        Some(self.transfers[i].times)
                    },
                    None => None,
                }
            },
            _ => None,
        }
    }

    /// Adds a transfer between the stop points at the places `from` and `to`
    /// where the model holds none yet.
    fn put(&mut self, transfer: Transfer, from: usize, to: usize) -> (inserted: bool)
        requires
            from < old(self).stops().len(),
            to < old(self).stops().len(),
            transfer.key() == key_of(old(self).stops(), from as int, to as int),
        ensures
            final(self).stops() == old(self).stops(),
            inserted == !old(self).transfer_map().contains_key(transfer.key()),
            final(self).transfer_list() == (if inserted {
                old(self).transfer_list().push(transfer)
            } else {
                old(self).transfer_list()
            }),
            final(self).transfer_map() == (if inserted {
                old(self).transfer_map().insert(transfer.key(), transfer.times)
            } else {
                old(self).transfer_map()
            }),
    {
        let ghost stops = self.stop_points@;
        let ghost held = self.transfers@;
        let ghost more = held.push(transfer);
        proof {
            use_type_invariant(&*self);
            lemma_merged(Map::empty(), held);
        }
        if self.taken.contains(from, to) {
            return false;
        }
        let mut whole = Model::new();
        std::mem::swap(self, &mut whole);
        let Model { stop_points, mut transfers, places, mut taken } = whole;
        proof {
            assert(!has_key(held, transfer.key()));
            assert(more.drop_last() =~= held);
            assert forall|i: int, j: int| 0 <= i < j < more.len() implies #[trigger] more[i].key()
                != #[trigger] more[j].key() by {
                if j == held.len() {
                    assert(held[i].key() == more[i].key());
                } else {
                    assert(held[i].key() != held[j].key());
                }
            }
            assert forall|i: int| 0 <= i < more.len() implies {
                &&& has_stop(stops, (#[trigger] more[i]).from_stop_id@)
                &&& has_stop(stops, more[i].to_stop_id@)
            } by {
                if i == held.len() {
                    assert(stops[from as int].id@ == transfer.from_stop_id@);
                    assert(stops[to as int].id@ == transfer.to_stop_id@);
                } else {
                    assert(more[i] == held[i]);
                }
            }
        }
        taken.mark(from, to);
        transfers.push(transfer);
        proof {
            assert forall|a: int, b: int| #[trigger] taken.holds(a, b) implies 0 <= a < stops.len()
                && 0 <= b < stops.len() && has_key(more, key_of(stops, a, b)) by {
                lemma_has_key_push(held, transfer, key_of(stops, a, b));
            }
            assert forall|a: int, b: int|
                0 <= a < stops.len() && 0 <= b < stops.len() && has_key(
                    more,
                    #[trigger] key_of(stops, a, b),
                ) implies taken.holds(a, b) by {
                lemma_has_key_push(held, transfer, key_of(stops, a, b));
                if transfer.key() == key_of(stops, a, b) {
                    assert(stops[a].id@ == stops[from as int].id@);
                    assert(stops[b].id@ == stops[to as int].id@);
                }
            }
        }
        *self = Model { stop_points, transfers, places, taken };
        true
    }

    /// Adds a transfer where the model holds none with the same key: a
    /// transfer that is already there stays as it is. Says whether the
    /// transfer was added. Fails, and changes nothing, when an end of the
    /// transfer is no stop point of the model.
    pub fn insert_transfer(&mut self, transfer: Transfer) -> (res: Result<bool, TransferError>)
        ensures
            final(self).stops() == old(self).stops(),
            res is Ok <==> has_stop(old(self).stops(), transfer.from_stop_id@) && has_stop(
                old(self).stops(),
                transfer.to_stop_id@,
            ),
            match res {
                Ok(inserted) => {
                    &&& inserted == !old(self).transfer_map().contains_key(transfer.key())
                    &&& final(self).transfer_list() == (if inserted {
                        old(self).transfer_list().push(transfer)
                    } else {
                        old(self).transfer_list()
                    })
                    &&& final(self).transfer_map() == (if inserted {
                        old(self).transfer_map().insert(transfer.key(), transfer.times)
                    } else {
                        old(self).transfer_map()
                    })
                },
                Err(e) => {
                    &&& e == TransferError::DanglingReference
                    &&& final(self).transfer_list() == old(self).transfer_list()
                },
            },
    {
        let from = self.find_stop_point(&transfer.from_stop_id);
        let to = self.find_stop_point(&transfer.to_stop_id);
        match (from, to) {
            (Some(a), Some(b)) => {
                proof {
                    assert(self.stop_points@[a as int].id@ == transfer.from_stop_id@);
                    assert(self.stop_points@[b as int].id@ == transfer.to_stop_id@);
                }
                Ok(self.put(transfer, a, b))
            },
            _ => Err(TransferError::DanglingReference),
        }
    }

    /// Adds each transfer of `added`, in order, where the model holds none
    /// with the same key, and gives the number of transfers added. Fails, and
    /// changes nothing, when an end of one of them is no stop point of the
    /// model.
    pub fn merge_transfers(&mut self, added: &Vec<Transfer>) -> (res: Result<usize, TransferError>)
        ensures
            final(self).stops() == old(self).stops(),
            res is Ok <==> all_resolved(old(self).stops(), added@),
            match res {
                Ok(count) => {
                    &&& final(self).transfer_map() == merged(old(self).transfer_map(), added@)
                    &&& final(self).transfer_list().len() == old(self).transfer_list().len()
                        + count
                    &&& final(self).transfer_list().subrange(
                        0,
                        old(self).transfer_list().len() as int,
                    ) == old(self).transfer_list()
                },
                Err(e) => {
                    &&& e == TransferError::DanglingReference
                    &&& final(self).transfer_list() == old(self).transfer_list()
                },
            },
    {
        let mut i: usize = 0;
        while i < added.len()
            invariant
                i <= added.len(),
                self.stop_points@ == old(self).stop_points@,
                self.transfers@ == old(self).transfers@,
                forall|j: int|
                    0 <= j < i ==> {
                        &&& has_stop(self.stop_points@, (#[trigger] added[j]).from_stop_id@)
                        &&& has_stop(self.stop_points@, added[j].to_stop_id@)
                    },
            decreases added.len() - i,
        {
            if self.find_stop_point(&added[i].from_stop_id).is_none() || self.find_stop_point(
                &added[i].to_stop_id,
            ).is_none() {
                return Err(TransferError::DanglingReference);
            }
            i += 1;
        }
        let ghost before = self.transfers@;
        let mut count: usize = 0;
        let mut k: usize = 0;
        proof {
            assert(added@.take(0) =~= Seq::<Transfer>::empty());
            assert(before.subrange(0, before.len() as int) =~= before);
        }
        while k < added.len()
            invariant
                k <= added.len(),
                count <= k,
                self.stop_points@ == old(self).stop_points@,
                all_resolved(self.stop_points@, added@),
                before == old(self).transfers@,
                self.transfers@.len() == before.len() + count,
                self.transfers@.subrange(0, before.len() as int) == before,
                self.transfer_map() == merged(old(self).transfer_map(), added@.take(k as int)),
            decreases added.len() - k,
        {
            let next = &added[k];
            let ghost held = self.transfers@;
            proof {
                assert(added@.take(k + 1).drop_last() =~= added@.take(k as int));
                assert(added@.take(k + 1).last() == added@[k as int]);
            }
            let from = self.find_stop_point(&next.from_stop_id);
            let to = self.find_stop_point(&next.to_stop_id);
            match (from, to) {
                (Some(a), Some(b)) => {
                    let copy = copy_transfer(next);
                    if self.put(copy, a, b) {
                        proof {
                            assert(held.push(copy).subrange(0, before.len() as int)
                                =~= held.subrange(0, before.len() as int));
                        }
                        count += 1;
                    }
                },
                _ => {},
            }
            k += 1;
        }
        proof {
            assert(added@.take(added.len() as int) =~= added@);
        }
        Ok(count)
    }
}

} // verus!
