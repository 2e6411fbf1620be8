use hashbrown::HashMap;
use rand::rngs::ThreadRng;
use rand::Rng;
use vstd::prelude::*;

verus! {

#[verifier::external_type_specification]
#[verifier::external_body]
#[verifier::reject_recursive_types(K)]
#[verifier::reject_recursive_types(V)]
#[verifier::reject_recursive_types(S)]
pub struct ExHashMap<K, V, S>(hashbrown::HashMap<K, V, S>);

#[verifier::external_type_specification]
#[verifier::external_body]
pub struct ExDefaultHashBuilder(hashbrown::hash_map::DefaultHashBuilder);

#[verifier::external_type_specification]
#[verifier::external_body]
pub struct ExThreadRng(rand::rngs::ThreadRng);

/// The entries of a `hashbrown` map from point numbers to slots.
pub uninterp spec fn slot_map(m: HashMap<usize, usize>) -> Map<usize, usize>;

/// A bound on the number of entries below which `hashbrown` never reports a
/// capacity overflow: the table holds at most about 16/7 buckets per entry
/// of 16 bytes each, far below `isize::MAX` bytes.
pub open spec fn map_room() -> int {
    usize::MAX as int / 128
}

/// `hashbrown::HashMap::new`: a map with no entries.
#[verifier::external_body]
fn slots_new() -> (m: HashMap<usize, usize>)
    ensures
        slot_map(m) =~= Map::empty(),
{
    HashMap::new()
}

/// `hashbrown::HashMap::insert`: afterwards `k` maps to `v`, every other key
/// as before; the previous value of `k`, if any, is returned. The map's
/// capacity computation panics only for sizes far beyond `map_room()`.
#[verifier::external_body]
fn slots_insert(m: &mut HashMap<usize, usize>, k: usize, v: usize) -> (r: Option<usize>)
    requires
        slot_map(*old(m)).dom().len() < map_room(),
    ensures
        slot_map(*final(m)) == slot_map(*old(m)).insert(k, v),
        r == (if slot_map(*old(m)).dom().contains(k) {
            Some(slot_map(*old(m))[k])
        } else {
            None
        }),
{
    m.insert(k, v)
}

/// `hashbrown::HashMap::get`: the value of `k`, if `k` is a key.
#[verifier::external_body]
fn slots_get(m: &HashMap<usize, usize>, k: usize) -> (r: Option<usize>)
    ensures
        r == (if slot_map(*m).dom().contains(k) {
            Some(slot_map(*m)[k])
        } else {
            None
        }),
{
    m.get(&k).copied()
}

/// `rand::Rng::gen_range(0, high)` on the thread's generator: some number in
/// `0..high` (which one is left to chance). It panics when `high` is 0.
#[verifier::external_body]
fn draw_below(rng: &mut ThreadRng, high: usize) -> (r: usize)
    requires
        0 < high,
    ensures
        r < high,
{
    rng.gen_range(0, high)
}

/// The points set aside ("sprinkled") to be sent first in the output stream,
/// keyed by their running number in the input. Each key has a slot, in the
/// order the keys were first marked; the slot holds the point once it has
/// been read.
pub struct Sprinkler<T> {
    slots: HashMap<usize, usize>,
    keys: Vec<usize>,
    points: Vec<Option<T>>,
}

impl<T> View for Sprinkler<T> {
    type V = Map<usize, Option<T>>;

    closed spec fn view(&self) -> Map<usize, Option<T>> {
        Map::new(
            |k: usize| slot_map(self.slots).dom().contains(k),
            |k: usize| self.points@[slot_map(self.slots)[k] as int],
        )
    }
}

impl<T> Sprinkler<T> {
    /// The marked point numbers, in the order their slots were given.
    pub closed spec fn order(&self) -> Seq<usize> {
        self.keys@
    }

    /// Slots and keys correspond one to one.
    pub closed spec fn wf(&self) -> bool {
        let m = slot_map(self.slots);
        &&& self.keys@.len() == self.points@.len()
        &&& m.dom().finite()
        &&& m.dom().len() == self.keys@.len()
        &&& forall|s: int|
            0 <= s < self.keys@.len() ==> m.dom().contains(#[trigger] self.keys@[s]) && m[self.keys@[s]]
                == s
        &&& forall|k: usize| #[trigger] m.dom().contains(k) ==> m[k] < self.keys@.len() && self.keys@[m[k] as int] == k
    }

    /// No point marked.
    pub fn new() -> (s: Sprinkler<T>)
        ensures
            s.wf(),
            s@ == Map::<usize, Option<T>>::empty(),
            s.order() == Seq::<usize>::empty(),
    {
        let s = Sprinkler { slots: slots_new(), keys: Vec::new(), points: Vec::new() };
        assert(s@ =~= Map::<usize, Option<T>>::empty());
        s
    }

    /// Marks point number `idx`, with no point recorded for it yet.
    pub fn mark(&mut self, idx: usize)
        requires
            old(self).wf(),
            old(self)@.dom().len() < map_room(),
        ensures
            final(self).wf(),
            final(self)@ == old(self)@.insert(idx, None),
            final(self).order() == if old(self)@.dom().contains(idx) {
                old(self).order()
            } else {
                old(self).order().push(idx)
            },
    {
        let ghost m0 = slot_map(self.slots);
        let ghost v0 = self@;
        assert(v0.dom() == m0.dom());
        match slots_get(&self.slots, idx) {
            Some(slot) => {
                self.points.set(slot, None);
                assert(self@ =~= v0.insert(idx, None));
            },
            None => {
                let slot = self.keys.len();
                slots_insert(&mut self.slots, idx, slot);
                self.keys.push(idx);
                self.points.push(None);
                proof {
                    let m = slot_map(self.slots);
                    assert(m.dom() == m0.dom().insert(idx));
                    assert forall|s: int| 0 <= s < self.keys@.len() implies m.dom().contains(
                        #[trigger] self.keys@[s],
                    ) && m[self.keys@[s]] == s by {
                        if s < slot {
                            assert(self.keys@[s] != idx);
                        }
                    }
                }
                assert(self@ =~= v0.insert(idx, None));
            },
        }
    }

    /// The sprinkler marking exactly the given point numbers.
    pub fn from_indices(draws: &Vec<usize>) -> (s: Sprinkler<T>)
        requires
            draws@.len() < map_room(),
        ensures
            s.wf(),
            s@.dom() == draws@.to_set(),
            forall|k: usize| #[trigger] s@.dom().contains(k) ==> s@[k] is None,
    {
        let mut s = Sprinkler::new();
        for i in 0..draws.len()
            invariant
                draws@.len() < map_room(),
                s.wf(),
                s@.dom() == draws@.take(i as int).to_set(),
                forall|k: usize| #[trigger] s@.dom().contains(k) ==> s@[k] is None,
        {
            proof {
                draws@.take(i as int).lemma_cardinality_of_set();
            }
            s.mark(draws[i]);
            assert(draws@.take(i + 1) == draws@.take(i as int).push(draws@[i as int]));
            proof {
                draws@.take(i as int).lemma_push_to_set_commute(draws@[i as int]);
            }
        }
        assert(draws@.take(draws@.len() as int) == draws@);
        s
    }

    /// Marks `nc` point numbers drawn at random below `total` (a number drawn
    /// twice is marked once).
    pub fn sprinkle(rng: &mut ThreadRng, total: usize, nc: usize) -> (s: Sprinkler<T>)
        requires
            nc == 0 || total > 0,
            nc < map_room(),
        ensures
            s.wf(),
            exists|d: Seq<usize>|
                d.len() == nc && (forall|j: int| 0 <= j < nc ==> #[trigger] d[j] < total) && s@.dom()
                    == d.to_set(),
            s@.dom().len() <= nc,
            forall|k: usize| #[trigger] s@.dom().contains(k) ==> k < total && s@[k] is None,
    {
        let mut draws: Vec<usize> = Vec::new();
        for _i in 0..nc
            invariant
                draws@.len() == _i,
                nc == 0 || total > 0,
                forall|j: int| 0 <= j < draws@.len() ==> draws@[j] < total,
        {
            let r = draw_below(rng, total);
            draws.push(r);
        }
        let s = Sprinkler::from_indices(&draws);
        proof {
            draws@.lemma_cardinality_of_set();
            assert(forall|j: int| 0 <= j < nc ==> #[trigger] draws@[j] < total);
            assert forall|k: usize| #[trigger] s@.dom().contains(k) implies k < total by {
                assert(draws@.to_set().contains(k));
            }
        }
        s
    }

    /// Whether point number `idx` is marked.
    pub fn contains(&self, idx: usize) -> (b: bool)
        requires
            self.wf(),
        ensures
            b == self@.dom().contains(idx),
    {
        slots_get(&self.slots, idx).is_some()
    }

    /// Records `item` as point number `idx` if that number is marked; does
    /// nothing otherwise.
    pub fn record(&mut self, idx: usize, item: T)
        requires
            old(self).wf(),
        ensures
            final(self).wf(),
            final(self).order() == old(self).order(),
            final(self)@ == if old(self)@.dom().contains(idx) {
                old(self)@.insert(idx, Some(item))
            } else {
                old(self)@
            },
    {
        let ghost v0 = self@;
        if let Some(slot) = slots_get(&self.slots, idx) {
            self.points.set(slot, Some(item));
            assert(self@ =~= v0.insert(idx, Some(item)));
        }
    }

    /// The number of marked points.
    pub fn len(&self) -> (n: usize)
        requires
            self.wf(),
        ensures
            n == self@.dom().len(),
    {
        assert(self@.dom() =~= slot_map(self.slots).dom());
        self.keys.len()
    }

    /// What is recorded for each marked point, one entry per marked point, in
    /// the order of `order()`.
    pub fn values(&self) -> (res: &Vec<Option<T>>)
        requires
            self.wf(),
        ensures
            res@.len() == self.order().len(),
            self.order().no_duplicates(),
            self.order().to_set() == self@.dom(),
            forall|i: int| 0 <= i < res@.len() ==> res@[i] == self@[#[trigger] self.order()[i]],
    {
        let ghost m = slot_map(self.slots);
        assert forall|i: int, j: int|
            0 <= i < self.keys@.len() && 0 <= j < self.keys@.len() && i != j implies self.keys@[i]
            != self.keys@[j] by {
            assert(m[self.keys@[i]] == i);
            assert(m[self.keys@[j]] == j);
        }
        assert(self.keys@.to_set() =~= self@.dom()) by {
            assert forall|k: usize| self@.dom().contains(k) implies self.keys@.to_set().contains(k) by {
                assert(self.keys@[m[k] as int] == k);
            }
        }
        &self.points
    }
}

} // verus!
