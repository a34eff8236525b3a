//! A keyed store built directly on open addressing: a fixed array of slots,
//! a pluggable hash-builder capability, a pluggable probe strategy, and
//! load-factor-triggered growth.  Lookup, insertion, growth, clearing,
//! draining and iteration are all verified against a map view of the table.

pub mod hash;
pub mod probe;

use vstd::prelude::*;

verus! {

use crate::hash::{BuildIndexHasher, IndexHasherBuilder, IndexKey};
use crate::probe::{Probing, QuadraticProbing};
use vstd::set_lib::lemma_len_subset;
use vstd::std_specs::vec::vec_index_mut;

/// A slot of the table: empty, or occupied by one key-value pair.
pub type Bucket<K, V> = Option<(K, V)>;

/// An exact ratio of two machine integers, standing in for the load-factor
/// and growth tunables.  The denominator is always at least one.
#[derive(Clone, Copy)]
pub struct Ratio {
    num: u64,
    den: u64,
}

impl Ratio {
    #[verifier::type_invariant]
    spec fn type_wf(self) -> bool {
        self.den >= 1
    }

    /// The numerator, as a specification value.
    pub closed spec fn num_spec(self) -> u64 {
        self.num
    }

    /// The denominator, as a specification value.
    pub closed spec fn den_spec(self) -> u64 {
        self.den
    }

    /// Builds the ratio `num / den`.
    pub fn new(num: u64, den: u64) -> (r: Ratio)
        requires
            den >= 1,
        ensures
            r.num_spec() == num,
            r.den_spec() == den,
    {
        Ratio { num, den }
    }

    /// The numerator.
    pub fn numerator(&self) -> (n: u64)
        ensures
            n == self.num_spec(),
    {
        self.num
    }

    /// The denominator.
    pub fn denominator(&self) -> (d: u64)
        ensures
            d == self.den_spec(),
    {
        self.den
    }
}

/// Parameters needed in the configuration of an [`Index`] hash table:
/// the maximum load factor accepted before the table grows, the ratio by
/// which the capacity then grows, the hash-builder capability, and the
/// probe strategy.
#[derive(Clone, Copy)]
pub struct Parameters<S, P> {
    /// Maximum load factor accepted before the table is resized.
    /// Default is `7 / 10`.
    pub max_load: Ratio,
    /// Ratio by which the table's capacity is grown.  Default is `2 / 1`.
    pub growth_policy: Ratio,
    /// Hasher builder.  Default is [`IndexHasherBuilder`].
    pub hasher_builder: S,
    /// Open addressing probe strategy.  Default is quadratic probing.
    pub probe: P,
}

/// The default configuration, as a specification value.
pub closed spec fn spec_default_parameters() -> Parameters<
    IndexHasherBuilder,
    QuadraticProbing,
> {
    Parameters {
        max_load: Ratio { num: 7, den: 10 },
        growth_policy: Ratio { num: 2, den: 1 },
        hasher_builder: IndexHasherBuilder,
        probe: QuadraticProbing,
    }
}

/// The default configuration: maximum load `7 / 10`, growth `2 / 1`, the
/// default hasher builder, quadratic probing.
pub fn default_parameters() -> (p: Parameters<IndexHasherBuilder, QuadraticProbing>)
    ensures
        p == spec_default_parameters(),
        p.max_load.num_spec() == 7 && p.max_load.den_spec() == 10,
        p.growth_policy.num_spec() == 2 && p.growth_policy.den_spec() == 1,
{
    Parameters {
        max_load: Ratio::new(7, 10),
        growth_policy: Ratio::new(2, 1),
        hasher_builder: IndexHasherBuilder,
        probe: QuadraticProbing,
    }
}

/// How many slots of the sequence are occupied.
spec fn bucket_count<K, V>(s: Seq<Bucket<K, V>>) -> nat
    decreases s.len(),
{
    if s.len() == 0 {
        0
    } else {
        bucket_count(s.drop_last()) + if s.last() is Some {
            1nat
        } else {
            0nat
        }
    }
}

/// The occupied pairs of the sequence, in slot order.
spec fn entries_of<K, V>(s: Seq<Bucket<K, V>>) -> Seq<(K, V)>
    decreases s.len(),
{
    if s.len() == 0 {
        Seq::empty()
    } else {
        entries_of(s.drop_last()) + match s.last() {
            Some(pair) => seq![pair],
            None => Seq::empty(),
        }
    }
}

/// What a scan of the probe sequence finds.
#[allow(dead_code)]
enum Lookup {
    /// A slot occupied by the key looked for.
    Hit(int),
    /// The first empty slot, with no prior hit.
    Free(int),
    /// Neither, within capacity-many attempts.
    Missing,
}

/// A hash table using open addressing.
///
/// Collisions are resolved by probing alternate slots; by default with
/// quadratic probing, though any [`Probing`] strategy can be supplied
/// through [`Parameters`].  The table grows once its load factor reaches the
/// configured maximum, and whenever a probe sequence is exhausted.
#[derive(Clone)]
#[verifier::ext_equal]
pub struct Index<K, V, S = IndexHasherBuilder, P = QuadraticProbing> {
    params: Parameters<S, P>,
    capacity: usize,
    len: usize,
    table: Vec<Bucket<K, V>>,
}

impl<K: IndexKey, V, S: BuildIndexHasher<K>, P: Probing> Index<K, V, S, P> {
    /// The number of slots, as a specification value.
    pub closed spec fn spec_capacity(self) -> nat {
        self.capacity as nat
    }

    /// The number of occupied slots, as a specification value.
    pub closed spec fn spec_len(self) -> nat {
        self.len as nat
    }

    /// The configuration, as a specification value.
    pub closed spec fn spec_params(self) -> Parameters<S, P> {
        self.params
    }

    /// The hash the configured builder assigns to a key view.
    pub closed spec fn spec_hash_of(self, q: <K as View>::V) -> u64 {
        self.params.hasher_builder.hash_spec(q)
    }

    /// The slot probed at the given attempt for the given hash.
    spec fn probe_at(self, h: u64, attempt: nat) -> nat {
        self.params.probe.probe_spec(h, attempt, self.spec_capacity())
    }

    /// Whether slot `j` exists and is occupied.
    spec fn slot_occupied(self, j: int) -> bool {
        0 <= j < self.table@.len() && self.table@[j] is Some
    }

    /// The view of the key occupying slot `j`.
    spec fn key_view_at(self, j: int) -> <K as View>::V {
        self.table@[j].unwrap().0@
    }

    /// The value occupying slot `j`.
    spec fn value_at(self, j: int) -> V {
        self.table@[j].unwrap().1
    }

    /// Whether slot `j` is occupied by a key with view `q`.
    spec fn slot_with(self, j: int, q: <K as View>::V) -> bool {
        self.slot_occupied(j) && self.key_view_at(j) == q
    }

    /// Scanning the probe sequence of hash `h` for key view `q`, starting at
    /// the given attempt: the first slot occupied by `q` (a hit), else the
    /// first empty slot, else nothing within capacity-many attempts.
    spec fn scan(self, h: u64, q: <K as View>::V, attempt: nat) -> Lookup
        decreases self.spec_capacity() - attempt,
    {
        if attempt >= self.spec_capacity() {
            Lookup::Missing
        } else {
            let p = self.probe_at(h, attempt) as int;
            match self.table@[p] {
                None => Lookup::Free(p),
                Some(pair) => if pair.0@ == q {
                    Lookup::Hit(p)
                } else {
                    self.scan(h, q, (attempt + 1) as nat)
                },
            }
        }
    }

    /// Every occupied slot's key is found by scanning its own probe
    /// sequence from the start: the structural soundness of the table.
    spec fn inv(self) -> bool {
        &&& self.capacity >= 1
        &&& self.table@.len() == self.capacity as int
        &&& self.len as nat == bucket_count(self.table@)
        &&& forall|j: int|
            #[trigger] self.slot_occupied(j) ==> self.scan(
                self.spec_hash_of(self.key_view_at(j)),
                self.key_view_at(j),
                0,
            ) == Lookup::Hit(j)
    }

    /// Structural soundness of the table: constructors establish it, and
    /// every operation preserves it.
    pub closed spec fn well_formed(self) -> bool {
        self.inv()
    }

    /// Whether some slot holds a key with view `q`.
    spec fn has_key(self, q: <K as View>::V) -> bool {
        exists|j: int| self.slot_with(j, q)
    }

    /// The slot holding the key with view `q`.
    spec fn index_of(self, q: <K as View>::V) -> int {
        choose|j: int| self.slot_with(j, q)
    }

    /// The table, read as a map from key views to values.
    pub closed spec fn as_map(self) -> Map<<K as View>::V, V> {
        Map::new(|q: <K as View>::V| self.has_key(q), |q: <K as View>::V| self.value_at(self.index_of(q)))
    }

    /// The occupied pairs in slot order.
    pub closed spec fn entry_seq(self) -> Seq<(K, V)> {
        entries_of(self.table@)
    }
}

impl<K: IndexKey, V, S: BuildIndexHasher<K>, P: Probing> View for Index<K, V, S, P> {
    type V = Map<<K as View>::V, V>;

    open spec fn view(&self) -> Map<<K as View>::V, V> {
        self.as_map()
    }
}

/// A sequence of empty slots holds nothing.
proof fn lemma_bucket_count_none<K, V>(s: Seq<Bucket<K, V>>)
    requires
        forall|j: int| 0 <= j < s.len() ==> s[j] is None,
    ensures
        bucket_count(s) == 0,
    decreases s.len(),
{
    if s.len() > 0 {
        lemma_bucket_count_none(s.drop_last());
    }
}

impl<K: IndexKey, V, S: BuildIndexHasher<K>, P: Probing> Index<K, V, S, P> {
    /// Fills `table` with `capacity` empty slots.
    fn init_table(table: &mut Vec<Bucket<K, V>>, capacity: usize)
        requires
            old(table)@.len() == 0,
        ensures
            final(table)@.len() == capacity as int,
            forall|j: int| 0 <= j < capacity as int ==> final(table)@[j] is None,
    {
        let mut i: usize = 0;
        while i < capacity
            invariant
                i <= capacity,
                table@.len() == i as int,
                forall|j: int| 0 <= j < i as int ==> table@[j] is None,
            decreases capacity - i,
        {
            table.push(None);
            i = i + 1;
        }
    }

    /// Creates an empty `Index` with the specified capacity (zero is coerced
    /// to one) and the given configuration.
    pub fn with_capacity_and_parameters(capacity: usize, params: Parameters<S, P>) -> (index:
        Index<K, V, S, P>)
        ensures
            index.well_formed(),
            index@ == Map::<<K as View>::V, V>::empty(),
            index.spec_len() == 0,
            index.spec_capacity() == if capacity == 0 { 1nat } else { capacity as nat },
            index.spec_params() == params,
    {
        let capacity = if capacity == 0 { 1 } else { capacity };
        let mut table: Vec<Bucket<K, V>> = Vec::new();
        Self::init_table(&mut table, capacity);
        let index = Index { params, capacity, len: 0, table };
        proof {
            lemma_bucket_count_none(index.table@);
            assert forall|j: int| !index.slot_occupied(j) by {}
            assert(index.as_map() =~= Map::<<K as View>::V, V>::empty());
        }
        index
    }

    /// The number of slots of the table.
    pub fn capacity(&self) -> (c: usize)
        ensures
            c as nat == self.spec_capacity(),
    {
        self.capacity
    }

    /// The number of entries of the table.
    pub fn len(&self) -> (l: usize)
        ensures
            l as nat == self.spec_len(),
    {
        self.len
    }

    /// Whether the table holds no entry.
    pub fn is_empty(&self) -> (b: bool)
        ensures
            b == (self.spec_len() == 0),
    {
        self.len == 0
    }

    /// The current load factor, as the exact ratio of entries to slots.
    pub fn load(&self) -> (r: Ratio)
        requires
            self.well_formed(),
        ensures
            r.num_spec() as nat == self.spec_len(),
            r.den_spec() as nat == self.spec_capacity(),
    {
        Ratio::new(self.len as u64, self.capacity as u64)
    }

    /// The maximum load factor accepted before the table is resized.
    pub fn max_load(&self) -> (r: Ratio)
        ensures
            r == self.spec_params().max_load,
    {
        self.params.max_load
    }

    /// The ratio by which the table's capacity is grown.
    pub fn growth_policy(&self) -> (r: Ratio)
        ensures
            r == self.spec_params().growth_policy,
    {
        self.params.growth_policy
    }

    /// The hasher builder used by the table.
    pub fn hasher(&self) -> (s: &S)
        ensures
            s == self.spec_params().hasher_builder,
    {
        &self.params.hasher_builder
    }

    /// The probe strategy used by the table.
    pub fn probe(&self) -> (p: &P)
        ensures
            p == self.spec_params().probe,
    {
        &self.params.probe
    }
}

impl<K: IndexKey, V> Index<K, V, IndexHasherBuilder, QuadraticProbing> {
    /// Creates an empty `Index` with capacity one and the default
    /// configuration.
    pub fn new() -> (index: Index<K, V, IndexHasherBuilder, QuadraticProbing>)
        ensures
            index.well_formed(),
            index@ == Map::<<K as View>::V, V>::empty(),
            index.spec_len() == 0,
            index.spec_capacity() == 1,
            index.spec_params() == spec_default_parameters(),
    {
        Self::with_capacity(1)
    }

    /// Creates an empty `Index` with the specified capacity (zero is coerced
    /// to one) and the default configuration.
    pub fn with_capacity(capacity: usize) -> (index: Index<
        K,
        V,
        IndexHasherBuilder,
        QuadraticProbing,
    >)
        ensures
            index.well_formed(),
            index@ == Map::<<K as View>::V, V>::empty(),
            index.spec_len() == 0,
            index.spec_capacity() == if capacity == 0 { 1nat } else { capacity as nat },
            index.spec_params() == spec_default_parameters(),
    {
        Index::with_capacity_and_parameters(capacity, default_parameters())
    }
}

impl<K: IndexKey, V> Default for Index<K, V, IndexHasherBuilder, QuadraticProbing> {
    /// An empty `Index` with capacity one and the default configuration.
    fn default() -> (index: Self)
        ensures
            index.well_formed(),
            index@ == Map::<<K as View>::V, V>::empty(),
            index.spec_len() == 0,
            index.spec_capacity() == 1,
            index.spec_params() == spec_default_parameters(),
    {
        Self::new()
    }
}



/// Occupancy counts agree on update: the new count differs from the old by
/// the occupancy of what was written versus what stood there.
proof fn lemma_bucket_count_update<K, V>(s: Seq<Bucket<K, V>>, j: int, b: Bucket<K, V>)
    requires
        0 <= j < s.len(),
    ensures
        bucket_count(s.update(j, b)) + (if s[j] is Some { 1nat } else { 0nat }) == bucket_count(s)
            + (if b is Some { 1nat } else { 0nat }),
    decreases s.len(),
{
    let t = s.update(j, b);
    if j == s.len() - 1 {
        assert(t.drop_last() =~= s.drop_last());
        assert(t.last() == b);
    } else {
        assert(t.drop_last() =~= s.drop_last().update(j, b));
        lemma_bucket_count_update(s.drop_last(), j, b);
        assert(t.last() == s.last());
    }
}

/// Sequences occupied at the same slots hold the same number of entries.
proof fn lemma_bucket_count_agree<K1, V1, K2, V2>(s1: Seq<Bucket<K1, V1>>, s2: Seq<Bucket<K2, V2>>)
    requires
        s1.len() == s2.len(),
        forall|j: int| 0 <= j < s1.len() ==> (s1[j] is Some) == (s2[j] is Some),
    ensures
        bucket_count(s1) == bucket_count(s2),
    decreases s1.len(),
{
    if s1.len() > 0 {
        assert(forall|j: int|
            0 <= j < s1.drop_last().len() ==> s1.drop_last()[j] == s1[j] && s2.drop_last()[j]
                == s2[j]);
        lemma_bucket_count_agree(s1.drop_last(), s2.drop_last());
        assert(s1.last() == s1[s1.len() - 1]);
        assert(s2.last() == s2[s2.len() - 1]);
    }
}

/// The set of occupied slot positions.
spec fn occ_set<K, V>(s: Seq<Bucket<K, V>>) -> Set<int> {
    Set::new(|j: int| 0 <= j < s.len() && s[j] is Some)
}

/// The occupied positions form a finite set of cardinality `bucket_count`.
proof fn lemma_occ_set_card<K, V>(s: Seq<Bucket<K, V>>)
    ensures
        occ_set(s).finite(),
        occ_set(s).len() == bucket_count(s),
    decreases s.len(),
{
    if s.len() == 0 {
        assert(occ_set(s) =~= Set::<int>::empty());
    } else {
        let d = s.drop_last();
        lemma_occ_set_card(d);
        assert(forall|j: int| 0 <= j < d.len() ==> d[j] == s[j]);
        if s.last() is Some {
            assert(s[s.len() - 1] is Some);
            assert(occ_set(s) =~= occ_set(d).insert(s.len() - 1));
            assert(!occ_set(d).contains(s.len() - 1));
        } else {
            assert(occ_set(s) =~= occ_set(d));
        }
    }
}

/// The occupied pairs of the sequence, counted.
proof fn lemma_entries_len<K, V>(s: Seq<Bucket<K, V>>)
    ensures
        entries_of(s).len() == bucket_count(s),
    decreases s.len(),
{
    if s.len() > 0 {
        lemma_entries_len(s.drop_last());
    }
}

/// A pair stands among the occupied entries exactly when some slot holds it.
proof fn lemma_entries_membership<K, V>(s: Seq<Bucket<K, V>>, i: int)
    requires
        0 <= i < entries_of(s).len(),
    ensures
        exists|j: int| 0 <= j < s.len() && s[j] == Some(#[trigger] entries_of(s)[i]),
    decreases s.len(),
{
    if s.len() > 0 {
        let d = s.drop_last();
        if s.last() is Some && i == entries_of(s).len() - 1 {
            assert(entries_of(s)[i] == s.last().unwrap());
            assert(s[s.len() - 1] == Some(entries_of(s)[i]));
        } else {
            lemma_entries_membership(d, i);
            let j = choose|j: int| 0 <= j < d.len() && d[j] == Some(entries_of(d)[i]);
            assert(entries_of(s)[i] == entries_of(d)[i]);
            assert(s[j] == Some(entries_of(s)[i]));
        }
    }
}

/// Every occupied slot contributes its pair to the occupied entries.
proof fn lemma_entries_cover<K, V>(s: Seq<Bucket<K, V>>, j: int)
    requires
        0 <= j < s.len(),
        s[j] is Some,
    ensures
        exists|i: int| 0 <= i < entries_of(s).len() && #[trigger] entries_of(s)[i] == s[j].unwrap(),
    decreases s.len(),
{
    let d = s.drop_last();
    if j == s.len() - 1 {
        let i = entries_of(s).len() - 1;
        assert(entries_of(s)[i] == s[j].unwrap());
    } else {
        lemma_entries_cover(d, j);
        let i = choose|i: int| 0 <= i < entries_of(d).len() && entries_of(d)[i] == d[j].unwrap();
        assert(entries_of(s)[i] == entries_of(d)[i]);
        assert(entries_of(s)[i] == s[j].unwrap());
    }
}

impl<K: IndexKey, V, S: BuildIndexHasher<K>, P: Probing> Index<K, V, S, P> {
    /// Two tables with equal shape, configuration, occupancy and key views
    /// scan alike: a scan never reads the values.
    proof fn lemma_scan_agree(self, other: Self, h: u64, q: <K as View>::V, attempt: nat)
        requires
            self.capacity >= 1,
            self.table@.len() == self.capacity as int,
            other.spec_capacity() == self.spec_capacity(),
            other.spec_params() == self.spec_params(),
            other.table@.len() == self.table@.len(),
            forall|j: int|
                0 <= j < self.table@.len() ==> (self.table@[j] is Some) == (other.table@[j]
                    is Some),
            forall|j: int|
                0 <= j < self.table@.len() && self.table@[j] is Some ==> self.key_view_at(j)
                    == other.key_view_at(j),
        ensures
            self.scan(h, q, attempt) == other.scan(h, q, attempt),
        decreases self.spec_capacity() - attempt,
    {
        if attempt < self.spec_capacity() {
            self.params.probe.lemma_in_range(h, attempt, self.spec_capacity());
            let p = self.probe_at(h, attempt) as int;
            assert(other.probe_at(h, attempt) == self.probe_at(h, attempt));
            if self.table@[p] is Some {
                assert(self.key_view_at(p) == other.key_view_at(p));
                if self.table@[p].unwrap().0@ != q {
                    self.lemma_scan_agree(other, h, q, (attempt + 1) as nat);
                }
            }
        }
    }

    /// What a hit or a free outcome says of the slot it names.
    proof fn lemma_scan_props(self, h: u64, q: <K as View>::V, attempt: nat)
        requires
            self.capacity >= 1,
            self.table@.len() == self.capacity as int,
        ensures
            self.scan(h, q, attempt) matches Lookup::Hit(j) ==> self.slot_with(j, q),
            self.scan(h, q, attempt) matches Lookup::Free(j) ==> 0 <= j < self.table@.len()
                && self.table@[j] is None,
        decreases self.spec_capacity() - attempt,
    {
        if attempt < self.spec_capacity() {
            self.params.probe.lemma_in_range(h, attempt, self.spec_capacity());
            let p = self.probe_at(h, attempt) as int;
            if self.table@[p] is Some && self.table@[p].unwrap().0@ != q {
                self.lemma_scan_props(h, q, (attempt + 1) as nat);
            }
        }
    }

    /// Occupied slots hold pairwise distinct key views.
    proof fn lemma_unique_slot(self, j1: int, j2: int, q: <K as View>::V)
        requires
            self.inv(),
            self.slot_with(j1, q),
            self.slot_with(j2, q),
        ensures
            j1 == j2,
    {
        assert(self.slot_occupied(j1));
        assert(self.slot_occupied(j2));
    }

    /// After a miss, every attempt within capacity probes an occupied slot
    /// whose key differs from the one looked for.
    proof fn lemma_scan_missing_at(self, h: u64, q: <K as View>::V, attempt: nat, i: nat)
        requires
            self.capacity >= 1,
            self.table@.len() == self.capacity as int,
            self.scan(h, q, attempt) is Missing,
            attempt <= i < self.spec_capacity(),
        ensures
            self.slot_occupied(self.probe_at(h, i) as int),
            self.key_view_at(self.probe_at(h, i) as int) != q,
        decreases i - attempt,
    {
        self.params.probe.lemma_in_range(h, attempt, self.spec_capacity());
        if i == attempt {
        } else {
            self.lemma_scan_missing_at(h, q, (attempt + 1) as nat, i);
        }
    }

    /// The set of slots probed by the first `k` attempts.
    spec fn probed_set(self, h: u64, k: nat) -> Set<int> {
        Set::new(|x: int| exists|i: nat| i < k && x == (#[trigger] self.probe_at(h, i)) as int)
    }

    /// Distinct attempts probe a set of slots as large as their number.
    proof fn lemma_probed_card(self, h: u64, k: nat)
        requires
            self.capacity >= 1,
            k <= self.params.probe.distinct_attempts(self.spec_capacity()),
        ensures
            self.probed_set(h, k).finite(),
            self.probed_set(h, k).len() == k,
        decreases k,
    {
        if k == 0 {
            assert(self.probed_set(h, 0) =~= Set::<int>::empty());
        } else {
            let prev = (k - 1) as nat;
            self.lemma_probed_card(h, prev);
            let p = self.probe_at(h, prev) as int;
            if self.probed_set(h, prev).contains(p) {
                let i = choose|i: nat| i < prev && p == (#[trigger] self.probe_at(h, i)) as int;
                self.params.probe.lemma_distinct(h, self.spec_capacity(), i, prev);
            }
            assert(self.probed_set(h, k) =~= self.probed_set(h, prev).insert(p));
        }
    }

    /// A scan cannot miss while fewer entries are stored than the probe
    /// strategy guarantees distinct slots.
    proof fn lemma_scan_complete(self, h: u64, q: <K as View>::V)
        requires
            self.inv(),
            self.spec_len() < self.params.probe.distinct_attempts(self.spec_capacity()),
        ensures
            !(self.scan(h, q, 0) is Missing),
    {
        if self.scan(h, q, 0) is Missing {
            let d = self.params.probe.distinct_attempts(self.spec_capacity());
            self.params.probe.lemma_distinct_within_cap(self.spec_capacity());
            let k = (self.spec_len() + 1) as nat;
            self.lemma_probed_card(h, k);
            lemma_occ_set_card(self.table@);
            assert forall|x: int| self.probed_set(h, k).contains(x) implies occ_set(
                self.table@,
            ).contains(x) by {
                let i = choose|i: nat| i < k && x == (#[trigger] self.probe_at(h, i)) as int;
                self.lemma_scan_missing_at(h, q, 0, i);
            }
            lemma_len_subset(self.probed_set(h, k), occ_set(self.table@));
        }
    }
}

/// What a lookup found: a matching slot, the first free slot, or nothing
/// within capacity-many attempts.
enum FindOutcome {
    Hit(usize),
    Free(usize),
    Exhausted,
}

impl<K: IndexKey, V, S: BuildIndexHasher<K>, P: Probing> Index<K, V, S, P> {
    /// Scans the probe positions of `hash` for an occupant equal to `key`,
    /// up to capacity-many attempts.
    fn find(&self, hash: u64, key: &K) -> (r: FindOutcome)
        requires
            self.well_formed(),
        ensures
            r matches FindOutcome::Hit(p) ==> self.scan(hash, key@, 0) == Lookup::Hit(p as int),
            r matches FindOutcome::Free(p) ==> self.scan(hash, key@, 0) == Lookup::Free(p as int),
            r is Exhausted ==> self.scan(hash, key@, 0) is Missing,
    {
        let ghost q = key@;
        let mut i: usize = 0;
        while i < self.capacity
            invariant
                self.well_formed(),
                i <= self.capacity,
                q == key@,
                self.scan(hash, q, 0) == self.scan(hash, q, i as nat),
            decreases self.capacity - i,
        {
            let p = self.params.probe.probe(hash, i, self.capacity);
            match &self.table[p] {
                Some(pair) => {
                    if key.key_eq(&pair.0) {
                        proof {
                            assert(self.scan(hash, q, i as nat) == Lookup::Hit(p as int));
                        }
                        return FindOutcome::Hit(p);
                    }
                    proof {
                        assert(self.scan(hash, q, i as nat) == self.scan(
                            hash,
                            q,
                            (i + 1) as nat,
                        ));
                    }
                },
                None => {
                    proof {
                        assert(self.scan(hash, q, i as nat) == Lookup::Free(p as int));
                    }
                    return FindOutcome::Free(p);
                },
            }
            i = i + 1;
        }
        FindOutcome::Exhausted
    }

    /// Returns a reference to the value associated with the given key, or
    /// `None` if the table holds no entry for it.
    pub fn get(&self, key: &K) -> (r: Option<&V>)
        requires
            self.well_formed(),
        ensures
            match r {
                Some(v) => self@.contains_key(key@) && *v == self@[key@],
                None => !self@.contains_key(key@),
            },
    {
        let hash = crate::hash::make_hash(&self.params.hasher_builder, key);
        match self.find(hash, key) {
            FindOutcome::Hit(p) => {
                proof {
                    self.lemma_scan_props(hash, key@, 0);
                    assert(self.slot_with(p as int, key@));
                    self.lemma_unique_slot(self.index_of(key@), p as int, key@);
                }
                match &self.table[p] {
                    Some(pair) => Some(&pair.1),
                    None => None,
                }
            },
            _ => {
                proof {
                    if self.has_key(key@) {
                        let j = choose|j: int| self.slot_with(j, key@);
                        assert(self.slot_occupied(j));
                    }
                }
                None
            },
        }
    }

    /// Returns a reference to the full key-value pair associated with the
    /// given key, or `None` if the table holds no entry for it.
    pub fn get_pair(&self, key: &K) -> (r: Option<&(K, V)>)
        requires
            self.well_formed(),
        ensures
            match r {
                Some(pair) => self@.contains_key(key@) && pair.0@ == key@ && pair.1
                    == self@[key@],
                None => !self@.contains_key(key@),
            },
    {
        let hash = crate::hash::make_hash(&self.params.hasher_builder, key);
        match self.find(hash, key) {
            FindOutcome::Hit(p) => {
                proof {
                    self.lemma_scan_props(hash, key@, 0);
                    assert(self.slot_with(p as int, key@));
                    self.lemma_unique_slot(self.index_of(key@), p as int, key@);
                }
                match &self.table[p] {
                    Some(pair) => Some(pair),
                    None => None,
                }
            },
            _ => {
                proof {
                    if self.has_key(key@) {
                        let j = choose|j: int| self.slot_with(j, key@);
                        assert(self.slot_occupied(j));
                    }
                }
                None
            },
        }
    }
}


/// At most as many entries as slots.
proof fn lemma_bucket_count_le<K, V>(s: Seq<Bucket<K, V>>)
    ensures
        bucket_count(s) <= s.len(),
    decreases s.len(),
{
    if s.len() > 0 {
        lemma_bucket_count_le(s.drop_last());
    }
}

/// A sequence with an empty slot holds strictly fewer entries than slots.
proof fn lemma_bucket_count_below<K, V>(s: Seq<Bucket<K, V>>, j: int)
    requires
        0 <= j < s.len(),
        s[j] is None,
    ensures
        bucket_count(s) < s.len(),
    decreases s.len(),
{
    if j == s.len() - 1 {
        lemma_bucket_count_le(s.drop_last());
    } else {
        lemma_bucket_count_below(s.drop_last(), j);
    }
}

/// When the occupied slots hold pairwise distinct key views, so do the
/// occupied entries.
proof fn lemma_entries_distinct<K: View, V>(s: Seq<Bucket<K, V>>)
    requires
        forall|j1: int, j2: int|
            0 <= j1 < j2 < s.len() && s[j1] is Some && s[j2] is Some ==> (#[trigger] s[j1]).unwrap().0@
                != (#[trigger] s[j2]).unwrap().0@,
    ensures
        forall|i1: int, i2: int|
            0 <= i1 < i2 < entries_of(s).len() ==> (#[trigger] entries_of(s)[i1]).0@
                != (#[trigger] entries_of(s)[i2]).0@,
    decreases s.len(),
{
    if s.len() > 0 {
        let d = s.drop_last();
        assert(forall|j: int| 0 <= j < d.len() ==> d[j] == s[j]);
        lemma_entries_distinct(d);
        if s.last() is Some {
            assert forall|i: int| 0 <= i < entries_of(d).len() implies (#[trigger] entries_of(
                d,
            )[i]).0@ != s.last().unwrap().0@ by {
                lemma_entries_membership(d, i);
                let j = choose|j: int| 0 <= j < d.len() && d[j] == Some(entries_of(d)[i]);
                assert(s[j] == d[j]);
                assert(s[s.len() - 1] is Some);
            }
            assert(forall|i: int|
                0 <= i < entries_of(d).len() ==> entries_of(s)[i] == entries_of(d)[i]);
            assert(entries_of(s).last() == s.last().unwrap());
        } else {
            assert(entries_of(s) =~= entries_of(d));
        }
    }
}

/// The entries, read as a map from key views to values; the first entry of
/// a key wins, though the table never stores a key twice.
spec fn map_of_entries<K: View, V>(s: Seq<(K, V)>) -> Map<<K as View>::V, V>
    decreases s.len(),
{
    if s.len() == 0 {
        Map::empty()
    } else {
        map_of_entries(s.drop_first()).insert(s.first().0@, s.first().1)
    }
}

/// Domain and contents of `map_of_entries` under pairwise distinct keys.
proof fn lemma_map_of_entries_props<K: View, V>(s: Seq<(K, V)>)
    requires
        forall|i1: int, i2: int|
            0 <= i1 < i2 < s.len() ==> (#[trigger] s[i1]).0@ != (#[trigger] s[i2]).0@,
    ensures
        forall|q: <K as View>::V|
            #[trigger] map_of_entries(s).contains_key(q) <==> exists|i: int|
                0 <= i < s.len() && (#[trigger] s[i]).0@ == q,
        forall|i: int| 0 <= i < s.len() ==> map_of_entries(s)[(#[trigger] s[i]).0@] == s[i].1,
    decreases s.len(),
{
    if s.len() > 0 {
        let d = s.drop_first();
        assert(forall|i: int| 0 <= i < d.len() ==> d[i] == s[i + 1]);
        lemma_map_of_entries_props(d);
        assert(map_of_entries(s) == map_of_entries(d).insert(s.first().0@, s.first().1));
        assert forall|q: <K as View>::V| #[trigger] map_of_entries(s).contains_key(q) implies
            exists|i: int| 0 <= i < s.len() && (#[trigger] s[i]).0@ == q by {
            if q == s.first().0@ {
                assert((#[trigger] s[0]).0@ == q);
            } else {
                assert(map_of_entries(d).contains_key(q));
                let i = choose|i: int| 0 <= i < d.len() && (#[trigger] d[i]).0@ == q;
                assert((#[trigger] s[i + 1]).0@ == q);
            }
        }
        assert forall|q: <K as View>::V|
            (exists|i: int| 0 <= i < s.len() && (#[trigger] s[i]).0@ == q) implies #[trigger]
            map_of_entries(s).contains_key(q) by {
            let i = choose|i: int| 0 <= i < s.len() && (#[trigger] s[i]).0@ == q;
            if i == 0 {
            } else {
                assert((#[trigger] d[i - 1]).0@ == q);
            }
        }
        assert forall|i: int| 0 <= i < s.len() implies map_of_entries(s)[(#[trigger] s[i]).0@]
            == s[i].1 by {
            if i == 0 {
            } else {
                assert((#[trigger] d[i - 1]).0@ == s[i].0@);
                assert(s[i].0@ != s.first().0@);
                assert(map_of_entries(d)[d[i - 1].0@] == d[i - 1].1);
            }
        }
    }
}

impl<K: IndexKey, V, S: BuildIndexHasher<K>, P: Probing> Index<K, V, S, P> {
    /// Whether the load factor has reached the configured maximum: the
    /// comparison `len / capacity >= max_load` taken exactly, by
    /// cross-multiplication.
    pub closed spec fn spec_load_reached(self) -> bool {
        self.spec_len() * self.params.max_load.den as nat >= self.spec_capacity()
            * self.params.max_load.num as nat
    }

    /// Executable form of `spec_load_reached`.
    fn load_reached(&self) -> (b: bool)
        ensures
            b == self.spec_load_reached(),
    {
        proof {
            assert((self.len as u128) * (self.params.max_load.den as u128)
                <= 0xffff_ffff_ffff_ffffu128 * 0xffff_ffff_ffff_ffffu128) by (nonlinear_arith)
                requires
                    self.len as u128 <= 0xffff_ffff_ffff_ffffu128,
                    self.params.max_load.den as u128 <= 0xffff_ffff_ffff_ffffu128,
            ;
            assert((self.capacity as u128) * (self.params.max_load.num as u128)
                <= 0xffff_ffff_ffff_ffffu128 * 0xffff_ffff_ffff_ffffu128) by (nonlinear_arith)
                requires
                    self.capacity as u128 <= 0xffff_ffff_ffff_ffffu128,
                    self.params.max_load.num as u128 <= 0xffff_ffff_ffff_ffffu128,
            ;
        }
        (self.len as u128) * (self.params.max_load.den as u128) >= (self.capacity as u128)
            * (self.params.max_load.num as u128)
    }

    /// Tables agreeing on shape, configuration, occupancy and key views
    /// stay sound together: values play no part in the invariant.
    proof fn lemma_inv_preserved_pointwise(pre: Self, post: Self)
        requires
            pre.inv(),
            post.capacity == pre.capacity,
            post.params == pre.params,
            post.len == pre.len,
            post.table@.len() == pre.table@.len(),
            forall|j: int|
                0 <= j < pre.table@.len() ==> (pre.table@[j] is Some) == (post.table@[j]
                    is Some),
            forall|j: int|
                0 <= j < pre.table@.len() && pre.table@[j] is Some ==> pre.key_view_at(j)
                    == post.key_view_at(j),
        ensures
            post.inv(),
    {
        lemma_bucket_count_agree(pre.table@, post.table@);
        assert forall|j: int| #[trigger] post.slot_occupied(j) implies post.scan(
            post.spec_hash_of(post.key_view_at(j)),
            post.key_view_at(j),
            0,
        ) == Lookup::Hit(j) by {
            assert(pre.slot_occupied(j));
            let q = pre.key_view_at(j);
            pre.lemma_scan_agree(post, pre.spec_hash_of(q), q, 0);
        }
    }

    /// Filling a formerly empty slot preserves every hit, and turns the
    /// free outcome at that slot into a hit for the key written there.
    proof fn lemma_scan_fill(
        pre: Self,
        post: Self,
        p: int,
        k: K,
        v: V,
        h: u64,
        q: <K as View>::V,
        attempt: nat,
    )
        requires
            pre.capacity >= 1,
            pre.table@.len() == pre.capacity as int,
            post.capacity == pre.capacity,
            post.params == pre.params,
            0 <= p < pre.table@.len(),
            pre.table@[p] is None,
            post.table@ == pre.table@.update(p, Some((k, v))),
        ensures
            pre.scan(h, q, attempt) matches Lookup::Hit(j) ==> post.scan(h, q, attempt)
                == Lookup::Hit(j),
            pre.scan(h, q, attempt) == Lookup::Free(p) && k@ == q ==> post.scan(h, q, attempt)
                == Lookup::Hit(p),
        decreases pre.spec_capacity() - attempt,
    {
        if attempt < pre.spec_capacity() {
            pre.params.probe.lemma_in_range(h, attempt, pre.spec_capacity());
            let pos = pre.probe_at(h, attempt) as int;
            assert(post.probe_at(h, attempt) == pre.probe_at(h, attempt));
            if pos == p {
            } else {
                assert(post.table@[pos] == pre.table@[pos]);
                match pre.table@[pos] {
                    None => {},
                    Some(pair) => {
                        if pair.0@ != q {
                            Self::lemma_scan_fill(pre, post, p, k, v, h, q, (attempt + 1) as nat);
                        }
                    },
                }
            }
        }
    }

    /// Writing a new pair into a free slot found by its own probe sequence
    /// keeps the table sound.
    proof fn lemma_inv_fill(pre: Self, post: Self, p: int, k: K, v: V)
        requires
            pre.inv(),
            post.capacity == pre.capacity,
            post.params == pre.params,
            post.len as int == pre.len + 1,
            0 <= p < pre.table@.len(),
            pre.table@[p] is None,
            post.table@ == pre.table@.update(p, Some((k, v))),
            pre.scan(pre.spec_hash_of(k@), k@, 0) == Lookup::Free(p),
        ensures
            post.inv(),
    {
        lemma_bucket_count_update(pre.table@, p, Some((k, v)));
        assert forall|j: int| #[trigger] post.slot_occupied(j) implies post.scan(
            post.spec_hash_of(post.key_view_at(j)),
            post.key_view_at(j),
            0,
        ) == Lookup::Hit(j) by {
            if j == p {
                Self::lemma_scan_fill(pre, post, p, k, v, pre.spec_hash_of(k@), k@, 0);
                assert(post.key_view_at(p) == k@);
            } else {
                assert(pre.slot_occupied(j));
                let q = pre.key_view_at(j);
                Self::lemma_scan_fill(pre, post, p, k, v, pre.spec_hash_of(q), q, 0);
            }
        }
    }

    /// Updating one slot with a pair for key view `k@` — either overwriting
    /// the slot already holding that key, or filling an empty slot — turns
    /// the map view into the map with that binding inserted.
    proof fn lemma_as_map_update(pre: Self, post: Self, p: int, k: K, v: V)
        requires
            pre.inv(),
            post.inv(),
            0 <= p < pre.table@.len(),
            post.table@ == pre.table@.update(p, Some((k, v))),
            pre.table@[p] is None || pre.slot_with(p, k@),
        ensures
            post.as_map() == pre.as_map().insert(k@, v),
    {
        assert(post.slot_with(p, k@));
        assert forall|q: <K as View>::V| #[trigger] post.has_key(q) && q != k@ implies
            pre.has_key(q) by {
            let j = choose|j: int| post.slot_with(j, q);
            assert(j != p);
            assert(pre.slot_with(j, q));
        }
        assert forall|q: <K as View>::V| #[trigger] pre.has_key(q) && q != k@ implies
            post.has_key(q) by {
            let j = choose|j: int| pre.slot_with(j, q);
            assert(j != p);
            assert(post.slot_with(j, q));
        }
        assert forall|q: <K as View>::V| q != k@ && #[trigger] post.has_key(q) implies
            post.as_map()[q] == pre.as_map()[q] by {
            let j = choose|j: int| post.slot_with(j, q);
            assert(j != p);
            assert(pre.slot_with(j, q));
            pre.lemma_unique_slot(pre.index_of(q), j, q);
            post.lemma_unique_slot(post.index_of(q), j, q);
        }
        assert(post.as_map()[k@] == v) by {
            post.lemma_unique_slot(post.index_of(k@), p, k@);
        }
        assert(post.as_map() =~= pre.as_map().insert(k@, v));
    }

    /// The occupied entries match the map view: as many entries as the
    /// table's length, each entry a current binding, the keys pairwise
    /// distinct, and every binding of the map among them.
    pub proof fn lemma_entries_match_view(self)
        requires
            self.well_formed(),
        ensures
            self.entry_seq().len() == self.spec_len(),
            forall|i: int|
                0 <= i < self.entry_seq().len() ==> self@.contains_key(
                    (#[trigger] self.entry_seq()[i]).0@,
                ) && self@[self.entry_seq()[i].0@] == self.entry_seq()[i].1,
            forall|i1: int, i2: int|
                0 <= i1 < i2 < self.entry_seq().len() ==> (#[trigger] self.entry_seq()[i1]).0@
                    != (#[trigger] self.entry_seq()[i2]).0@,
            forall|q: <K as View>::V|
                #[trigger] self@.contains_key(q) ==> exists|i: int|
                    0 <= i < self.entry_seq().len() && (#[trigger] self.entry_seq()[i]).0@ == q,
    {
        let es = self.entry_seq();
        lemma_entries_len(self.table@);
        assert forall|i: int| 0 <= i < es.len() implies self@.contains_key(
            (#[trigger] es[i]).0@,
        ) && self@[es[i].0@] == es[i].1 by {
            lemma_entries_membership(self.table@, i);
            let j = choose|j: int|
                0 <= j < self.table@.len() && self.table@[j] == Some(entries_of(self.table@)[i]);
            assert(self.slot_with(j, es[i].0@));
            self.lemma_unique_slot(self.index_of(es[i].0@), j, es[i].0@);
        }
        assert forall|j1: int, j2: int|
            0 <= j1 < j2 < self.table@.len() && self.table@[j1] is Some && self.table@[j2]
                is Some implies (#[trigger] self.table@[j1]).unwrap().0@
            != (#[trigger] self.table@[j2]).unwrap().0@ by {
            if self.table@[j1].unwrap().0@ == self.table@[j2].unwrap().0@ {
                self.lemma_unique_slot(j1, j2, self.table@[j1].unwrap().0@);
            }
        }
        lemma_entries_distinct(self.table@);
        assert forall|q: <K as View>::V| #[trigger] self@.contains_key(q) implies exists|i: int|
            0 <= i < es.len() && (#[trigger] es[i]).0@ == q by {
            let j = choose|j: int| self.slot_with(j, q);
            lemma_entries_cover(self.table@, j);
            let i = choose|i: int|
                0 <= i < entries_of(self.table@).len() && #[trigger] entries_of(self.table@)[i]
                    == self.table@[j].unwrap();
            assert((#[trigger] es[i]).0@ == q);
        }
    }

    /// The occupied entries, read as a map, are exactly the map view.
    proof fn lemma_entry_map(self)
        requires
            self.well_formed(),
        ensures
            map_of_entries(self.entry_seq()) == self@,
    {
        let es = self.entry_seq();
        self.lemma_entries_match_view();
        lemma_map_of_entries_props(es);
        assert forall|q: <K as View>::V| #[trigger] map_of_entries(es).contains_key(q) implies
            self@.contains_key(q) && map_of_entries(es)[q] == self@[q] by {
            let i = choose|i: int| 0 <= i < es.len() && (#[trigger] es[i]).0@ == q;
            assert(map_of_entries(es)[es[i].0@] == es[i].1);
        }
        assert forall|q: <K as View>::V| #[trigger] self@.contains_key(q) implies map_of_entries(
            es,
        ).contains_key(q) by {
            let i = choose|i: int| 0 <= i < es.len() && (#[trigger] es[i]).0@ == q;
        }
        assert(map_of_entries(es) =~= self@);
    }
}



impl<K: IndexKey, V, S: BuildIndexHasher<K>, P: Probing> Index<K, V, S, P> {
    /// Resets every slot to empty; the capacity is kept.
    pub fn clear(&mut self)
        requires
            old(self).well_formed(),
        ensures
            final(self).well_formed(),
            final(self)@ == Map::<<K as View>::V, V>::empty(),
            final(self).spec_len() == 0,
            final(self).spec_capacity() == old(self).spec_capacity(),
            final(self).spec_params() == old(self).spec_params(),
            forall|j: int| final(self).spec_slot(j) is None,
    {
        self.table.clear();
        let cap = self.capacity;
        Self::init_table(&mut self.table, cap);
        self.len = 0;
        proof {
            lemma_bucket_count_none(self.table@);
            assert(forall|j: int| !self.slot_occupied(j));
            assert(self.as_map() =~= Map::<<K as View>::V, V>::empty());
        }
    }

    /// Takes every occupied pair out of the table, in slot order, leaving
    /// every slot empty; the capacity is kept.
    pub fn drain(&mut self) -> (pairs: Vec<(K, V)>)
        requires
            old(self).well_formed(),
        ensures
            pairs@ == old(self).entry_seq(),
            final(self).well_formed(),
            final(self)@ == Map::<<K as View>::V, V>::empty(),
            final(self).spec_len() == 0,
            final(self).spec_capacity() == old(self).spec_capacity(),
            final(self).spec_params() == old(self).spec_params(),
            forall|j: int| final(self).spec_slot(j) is None,
    {
        let mut out: Vec<(K, V)> = Vec::new();
        let cap = self.capacity;
        let mut j: usize = 0;
        while j < cap
            invariant
                j <= cap,
                self.params == old(self).params,
                self.capacity == old(self).capacity,
                self.len == old(self).len,
                cap == self.capacity,
                self.table@.len() == old(self).table@.len(),
                cap as int <= self.table@.len(),
                forall|t: int| 0 <= t < j as int ==> self.table@[t] is None,
                forall|t: int|
                    j as int <= t < self.table@.len() ==> self.table@[t] == old(self).table@[t],
                out@ == entries_of(old(self).table@.subrange(0, j as int)),
            decreases cap - j,
        {
            let mut taken: Bucket<K, V> = None;
            core::mem::swap(&mut taken, vec_index_mut(&mut self.table, j));
            proof {
                let pre = old(self).table@.subrange(0, (j + 1) as int);
                assert(pre.drop_last() =~= old(self).table@.subrange(0, j as int));
                assert(pre.last() == old(self).table@[j as int]);
            }
            match taken {
                Some(pair) => {
                    out.push(pair);
                },
                None => {},
            }
            j = j + 1;
        }
        self.len = 0;
        proof {
            assert(old(self).table@.subrange(0, cap as int) =~= old(self).table@);
            lemma_bucket_count_none(self.table@);
            assert(forall|t: int| !self.slot_occupied(t));
            assert(self.as_map() =~= Map::<<K as View>::V, V>::empty());
        }
        out
    }
}

impl<K: IndexKey, V, S: BuildIndexHasher<K> + Copy, P: Probing + Copy> Index<K, V, S, P> {
    /// Inserts the pair into the table.
    ///
    /// If the table already holds an entry with the same key, the value is
    /// overwritten in place and the previous pair returned.  Before writing,
    /// the table grows once if the load factor has reached the configured
    /// maximum, and it grows and retries whenever the probe sequence is
    /// exhausted; each growth strictly enlarges the capacity, and the probe
    /// strategy's `capacity_for` bound makes the retries terminate.
    pub fn insert(&mut self, key: K, value: V) -> (prev: Bucket<K, V>)
        requires
            old(self).well_formed(),
            old(self).spec_params().probe.capacity_for(old(self).spec_len() + 1)
                <= usize::MAX as nat,
        ensures
            final(self).well_formed(),
            final(self)@ == old(self)@.insert(key@, value),
            final(self).spec_params() == old(self).spec_params(),
            final(self).spec_capacity() >= old(self).spec_capacity(),
            match prev {
                Some(pair) => old(self)@.contains_key(key@) && pair.0@ == key@ && pair.1
                    == old(self)@[key@] && final(self).spec_len() == old(self).spec_len(),
                None => !old(self)@.contains_key(key@) && final(self).spec_len() == old(
                    self,
                ).spec_len() + 1,
            },
            old(self).spec_capacity() < usize::MAX as nat && final(self).spec_capacity() == old(
                self,
            ).spec_capacity() ==> !old(self).spec_load_reached(),
        decreases old(self).spec_len(), 2int,
    {
        let hash = crate::hash::make_hash(&self.params.hasher_builder, &key);
        let ghost mut first: bool = true;
        loop
            invariant
                self.well_formed(),
                self@ == old(self)@,
                self.len == old(self).len,
                self.params == old(self).params,
                self.capacity >= old(self).capacity,
                hash == self.spec_hash_of(key@),
                self.spec_params().probe.capacity_for(self.spec_len() + 1) <= usize::MAX as nat,
                first ==> *self == *old(self),
                !first && old(self).spec_capacity() < usize::MAX as nat && self.spec_capacity()
                    == old(self).spec_capacity() ==> !old(self).spec_load_reached(),
            decreases usize::MAX - self.capacity,
        {
            // a table of maximal capacity cannot grow any further; it also
            // cannot exhaust its probe sequence below the strategy's bound
            if self.load_reached() && self.capacity < usize::MAX {
                proof {
                    self.params.probe.lemma_capacity_for_monotonic(
                        self.spec_len(),
                        self.spec_len() + 1,
                    );
                }
                self.grow();
            }
            proof {
                first = false;
            }
            match self.find(hash, &key) {
                FindOutcome::Hit(p) => {
                    proof {
                        self.lemma_scan_props(hash, key@, 0);
                        assert(self.slot_with(p as int, key@));
                        self.lemma_unique_slot(self.index_of(key@), p as int, key@);
                    }
                    let ghost pre = *self;
                    let ghost gkey = key;
                    let ghost gval = value;
                    let mut content: Bucket<K, V> = Some((key, value));
                    core::mem::swap(&mut content, vec_index_mut(&mut self.table, p));
                    proof {
                        assert(self.table@ == pre.table@.update(p as int, Some((gkey, gval))));
                        Self::lemma_inv_preserved_pointwise(pre, *self);
                        Self::lemma_as_map_update(pre, *self, p as int, gkey, gval);
                    }
                    return content;
                },
                FindOutcome::Free(p) => {
                    proof {
                        self.lemma_scan_props(hash, key@, 0);
                        lemma_bucket_count_below(self.table@, p as int);
                        if self.has_key(key@) {
                            let j = choose|j: int| self.slot_with(j, key@);
                            assert(self.slot_occupied(j));
                        }
                    }
                    let ghost pre = *self;
                    let ghost gkey = key;
                    let ghost gval = value;
                    let mut content: Bucket<K, V> = Some((key, value));
                    core::mem::swap(&mut content, vec_index_mut(&mut self.table, p));
                    self.len = self.len + 1;
                    proof {
                        assert(self.table@ == pre.table@.update(p as int, Some((gkey, gval))));
                        Self::lemma_inv_fill(pre, *self, p as int, gkey, gval);
                        Self::lemma_as_map_update(pre, *self, p as int, gkey, gval);
                    }
                    return content;
                },
                FindOutcome::Exhausted => {
                    proof {
                        if self.capacity == usize::MAX {
                            self.params.probe.lemma_capacity_for(
                                self.spec_len() + 1,
                                self.spec_capacity(),
                            );
                            self.lemma_scan_complete(hash, key@);
                        }
                        self.params.probe.lemma_capacity_for_monotonic(
                            self.spec_len(),
                            self.spec_len() + 1,
                        );
                    }
                    self.grow();
                },
            }
        }
    }

    /// Grows the table according to the growth policy; the new capacity is
    /// always strictly larger, even under a growth ratio at or below one.
    fn grow(&mut self)
        requires
            old(self).well_formed(),
            old(self).spec_params().probe.capacity_for(old(self).spec_len())
                <= usize::MAX as nat,
            old(self).spec_capacity() < usize::MAX as nat,
        ensures
            final(self).well_formed(),
            final(self)@ == old(self)@,
            final(self).spec_len() == old(self).spec_len(),
            final(self).spec_params() == old(self).spec_params(),
            final(self).spec_capacity() > old(self).spec_capacity(),
        decreases old(self).spec_len(), 1int,
    {
        let cap = self.capacity;
        let g = self.params.growth_policy;
        proof {
            use_type_invariant(g);
            assert((cap as u128) * (g.num as u128) <= 0xffff_ffff_ffff_ffffu128
                * 0xffff_ffff_ffff_ffffu128) by (nonlinear_arith)
                requires
                    cap as u128 <= 0xffff_ffff_ffff_ffffu128,
                    g.num as u128 <= 0xffff_ffff_ffff_ffffu128,
            ;
        }
        let t: u128 = (cap as u128) * (g.num as u128) / (g.den as u128);
        let grown: usize = if t > (usize::MAX as u128) {
            usize::MAX
        } else {
            t as usize
        };
        let requested: usize = if grown > cap {
            grown
        } else {
            cap + 1
        };
        self.resize(requested);
    }

    /// Rebuilds the table with the given capacity (zero is coerced to one)
    /// and the same configuration, rehashing every entry; the map view is
    /// unchanged.  If the requested capacity is too small for the entries,
    /// insertion grows the fresh table as usual.
    pub fn resize(&mut self, new_capacity: usize)
        requires
            old(self).well_formed(),
            old(self).spec_params().probe.capacity_for(old(self).spec_len())
                <= usize::MAX as nat,
        ensures
            final(self).well_formed(),
            final(self)@ == old(self)@,
            final(self).spec_len() == old(self).spec_len(),
            final(self).spec_params() == old(self).spec_params(),
            final(self).spec_capacity() >= if new_capacity == 0 {
                1nat
            } else {
                new_capacity as nat
            },
        decreases old(self).spec_len(), 0int,
    {
        proof {
            old(self).lemma_entry_map();
            old(self).lemma_entries_match_view();
        }
        let params = self.params;
        let ghost m = self.spec_len();
        let mut pairs = self.drain();
        let ghost es = pairs@;
        let mut fresh: Index<K, V, S, P> = Index::with_capacity_and_parameters(
            new_capacity,
            params,
        );
        while pairs.len() > 0
            invariant
                fresh.well_formed(),
                fresh.spec_params() == params,
                es == old(self).entry_seq(),
                es.len() == m,
                m == old(self).spec_len(),
                pairs@ == es.subrange(0, pairs@.len() as int),
                pairs@.len() <= es.len(),
                fresh@ == map_of_entries(es.skip(pairs@.len() as int)),
                fresh.spec_len() == es.len() - pairs@.len(),
                fresh.spec_capacity() >= if new_capacity == 0 {
                    1nat
                } else {
                    new_capacity as nat
                },
                params.probe.capacity_for(m) <= usize::MAX as nat,
                forall|i1: int, i2: int|
                    0 <= i1 < i2 < es.len() ==> (#[trigger] es[i1]).0@ != (#[trigger] es[i2]).0@,
            decreases pairs@.len(),
        {
            let ghost l = pairs@.len() as int;
            let pair = pairs.pop().unwrap();
            proof {
                assert(pairs@ =~= es.subrange(0, l - 1));
                assert(pair == es[l - 1]);
                params.probe.lemma_capacity_for_monotonic(fresh.spec_len() + 1, m);
                // the key about to go in is absent from the suffix already in
                let suffix = es.skip(l);
                assert(forall|i: int| 0 <= i < suffix.len() ==> suffix[i] == es[l + i]);
                assert forall|i1: int, i2: int|
                    0 <= i1 < i2 < suffix.len() implies (#[trigger] suffix[i1]).0@
                    != (#[trigger] suffix[i2]).0@ by {
                    assert(es[l + i1].0@ != es[l + i2].0@);
                }
                lemma_map_of_entries_props(suffix);
                if fresh@.contains_key(pair.0@) {
                    let i = choose|i: int| 0 <= i < suffix.len() && (#[trigger] suffix[i]).0@
                        == pair.0@;
                    assert(es[l - 1].0@ != es[l + i].0@);
                }
            }
            let prev = fresh.insert(pair.0, pair.1);
            proof {
                assert(prev is None);
                let stepped = es.skip(l - 1);
                assert(stepped.drop_first() =~= es.skip(l));
                assert(stepped.first() == es[l - 1]);
                assert(fresh@ == map_of_entries(stepped));
            }
        }
        proof {
            assert(es.skip(0) =~= es);
            assert(fresh@ == map_of_entries(old(self).entry_seq()));
        }
        *self = fresh;
    }
}


/// Round-trip law: inserting a binding into a map makes lookup of that key
/// return exactly the inserted value, and leaves every other binding as it
/// was — so a pair put into the table is returned by `get` until the key is
/// overwritten or the table is cleared, drained or rebuilt.
pub proof fn lemma_round_trip<K: View, V>(m: Map<<K as View>::V, V>, q: <K as View>::V, v: V)
    ensures
        m.insert(q, v).contains_key(q),
        m.insert(q, v)[q] == v,
        forall|q2: <K as View>::V|
            q2 != q && m.contains_key(q2) ==> m.insert(q, v).contains_key(q2) && m.insert(
                q,
                v,
            )[q2] == m[q2],
{
}

impl<K: IndexKey, V, S: BuildIndexHasher<K>, P: Probing> Index<K, V, S, P> {
    /// The content of a slot, empty outside the table.
    pub closed spec fn spec_slot(self, slot: int) -> Bucket<K, V> {
        if 0 <= slot < self.table@.len() {
            self.table@[slot]
        } else {
            None
        }
    }

    /// References to the keys of the table, in slot order; as many as the
    /// table's length.
    pub fn keys(&self) -> (r: Vec<&K>)
        requires
            self.well_formed(),
        ensures
            r@.len() == self.spec_len(),
            forall|i: int| 0 <= i < r@.len() ==> *r@[i] == (#[trigger] self.entry_seq()[i]).0,
    {
        let mut out: Vec<&K> = Vec::new();
        let mut j: usize = 0;
        while j < self.capacity
            invariant
                self.well_formed(),
                j <= self.capacity,
                out@.len() == entries_of(self.table@.subrange(0, j as int)).len(),
                forall|i: int|
                    0 <= i < out@.len() ==> *out@[i] == (#[trigger] entries_of(
                        self.table@.subrange(0, j as int),
                    )[i]).0,
            decreases self.capacity - j,
        {
            match &self.table[j] {
                Some(pair) => {
                    out.push(&pair.0);
                },
                None => {},
            }
            proof {
                let pre = self.table@.subrange(0, (j + 1) as int);
                assert(pre.drop_last() =~= self.table@.subrange(0, j as int));
                assert(pre.last() == self.table@[j as int]);
            }
            j = j + 1;
        }
        proof {
            assert(self.table@.subrange(0, self.capacity as int) =~= self.table@);
            lemma_entries_len(self.table@);
        }
        out
    }

    /// References to the values of the table, in slot order; as many as the
    /// table's length.
    pub fn values(&self) -> (r: Vec<&V>)
        requires
            self.well_formed(),
        ensures
            r@.len() == self.spec_len(),
            forall|i: int| 0 <= i < r@.len() ==> *r@[i] == (#[trigger] self.entry_seq()[i]).1,
    {
        let mut out: Vec<&V> = Vec::new();
        let mut j: usize = 0;
        while j < self.capacity
            invariant
                self.well_formed(),
                j <= self.capacity,
                out@.len() == entries_of(self.table@.subrange(0, j as int)).len(),
                forall|i: int|
                    0 <= i < out@.len() ==> *out@[i] == (#[trigger] entries_of(
                        self.table@.subrange(0, j as int),
                    )[i]).1,
            decreases self.capacity - j,
        {
            match &self.table[j] {
                Some(pair) => {
                    out.push(&pair.1);
                },
                None => {},
            }
            proof {
                let pre = self.table@.subrange(0, (j + 1) as int);
                assert(pre.drop_last() =~= self.table@.subrange(0, j as int));
                assert(pre.last() == self.table@[j as int]);
            }
            j = j + 1;
        }
        proof {
            assert(self.table@.subrange(0, self.capacity as int) =~= self.table@);
            lemma_entries_len(self.table@);
        }
        out
    }

    /// References to the key-value pairs of the table, in slot order; as
    /// many as the table's length.
    pub fn iter(&self) -> (r: Vec<(&K, &V)>)
        requires
            self.well_formed(),
        ensures
            r@.len() == self.spec_len(),
            forall|i: int|
                0 <= i < r@.len() ==> *r@[i].0 == (#[trigger] self.entry_seq()[i]).0 && *r@[i].1
                    == self.entry_seq()[i].1,
    {
        let mut out: Vec<(&K, &V)> = Vec::new();
        let mut j: usize = 0;
        while j < self.capacity
            invariant
                self.well_formed(),
                j <= self.capacity,
                out@.len() == entries_of(self.table@.subrange(0, j as int)).len(),
                forall|i: int|
                    0 <= i < out@.len() ==> *out@[i].0 == (#[trigger] entries_of(
                        self.table@.subrange(0, j as int),
                    )[i]).0 && *out@[i].1 == entries_of(self.table@.subrange(0, j as int))[i].1,
            decreases self.capacity - j,
        {
            match &self.table[j] {
                Some(pair) => {
                    out.push((&pair.0, &pair.1));
                },
                None => {},
            }
            proof {
                let pre = self.table@.subrange(0, (j + 1) as int);
                assert(pre.drop_last() =~= self.table@.subrange(0, j as int));
                assert(pre.last() == self.table@[j as int]);
            }
            j = j + 1;
        }
        proof {
            assert(self.table@.subrange(0, self.capacity as int) =~= self.table@);
            lemma_entries_len(self.table@);
        }
        out
    }

    /// Exclusive access to the value stored at the given slot, or `None` if
    /// the slot is empty or out of range.  The key of the slot is untouched,
    /// so the table stays sound whatever is written through the reference.
    pub fn values_mut(&mut self, slot: usize) -> (r: Option<&mut V>)
        requires
            old(self).well_formed(),
        ensures
            match r {
                Some(v) => {
                    &&& old(self).spec_slot(slot as int) is Some
                    &&& *v == old(self).spec_slot(slot as int).unwrap().1
                    &&& final(self).well_formed()
                    &&& final(self)@ == old(self)@.insert(
                        old(self).spec_slot(slot as int).unwrap().0@,
                        *final(v),
                    )
                    &&& final(self).spec_len() == old(self).spec_len()
                    &&& final(self).spec_capacity() == old(self).spec_capacity()
                    &&& final(self).spec_params() == old(self).spec_params()
                },
                None => old(self).spec_slot(slot as int) is None && *final(self) == *old(self),
            },
    {
        if slot >= self.capacity {
            return None;
        }
        let occupied = match &self.table[slot] {
            Some(_) => true,
            None => false,
        };
        if !occupied {
            return None;
        }
        let ghost pre = *self;
        match vec_index_mut(&mut self.table, slot) {
            Some(pair) => {
                let v = &mut pair.1;
                proof {
                    let k0 = pre.table@[slot as int].unwrap().0;
                    assert(after_borrow(*self).table@ == pre.table@.update(
                        slot as int,
                        Some((k0, *final(v))),
                    ));
                    Self::lemma_inv_preserved_pointwise(pre, after_borrow(*self));
                    Self::lemma_as_map_update(pre, after_borrow(*self), slot as int, k0, *final(v));
                }
                Some(v)
            },
            None => None,
        }
    }

    /// Shared access to the key and exclusive access to the value stored at
    /// the given slot, or `None` if the slot is empty or out of range.
    pub fn iter_mut(&mut self, slot: usize) -> (r: Option<(&K, &mut V)>)
        requires
            old(self).well_formed(),
        ensures
            match r {
                Some((k, v)) => {
                    &&& old(self).spec_slot(slot as int) is Some
                    &&& *k == old(self).spec_slot(slot as int).unwrap().0
                    &&& *v == old(self).spec_slot(slot as int).unwrap().1
                    &&& final(self).well_formed()
                    &&& final(self)@ == old(self)@.insert(k@, *final(v))
                    &&& final(self).spec_len() == old(self).spec_len()
                    &&& final(self).spec_capacity() == old(self).spec_capacity()
                    &&& final(self).spec_params() == old(self).spec_params()
                },
                None => old(self).spec_slot(slot as int) is None && *final(self) == *old(self),
            },
    {
        if slot >= self.capacity {
            return None;
        }
        let occupied = match &self.table[slot] {
            Some(_) => true,
            None => false,
        };
        if !occupied {
            return None;
        }
        let ghost pre = *self;
        match vec_index_mut(&mut self.table, slot) {
            Some(pair) => {
                let k = &pair.0;
                let v = &mut pair.1;
                proof {
                    let k0 = pre.table@[slot as int].unwrap().0;
                    assert(after_borrow(*self).table@ == pre.table@.update(
                        slot as int,
                        Some((k0, *final(v))),
                    ));
                    Self::lemma_inv_preserved_pointwise(pre, after_borrow(*self));
                    Self::lemma_as_map_update(pre, after_borrow(*self), slot as int, k0, *final(v));
                }
                Some((k, v))
            },
            None => None,
        }
    }

    /// Exclusive access to the value associated with the given key, or
    /// `None` if the table holds no entry for it.  Only the value can be
    /// written through the reference; the key stays, so the table stays
    /// sound whatever is written.
    pub fn get_mut(&mut self, key: &K) -> (r: Option<&mut V>)
        requires
            old(self).well_formed(),
        ensures
            match r {
                Some(v) => {
                    &&& old(self)@.contains_key(key@)
                    &&& *v == old(self)@[key@]
                    &&& final(self).well_formed()
                    &&& final(self)@ == old(self)@.insert(key@, *final(v))
                    &&& final(self).spec_len() == old(self).spec_len()
                    &&& final(self).spec_capacity() == old(self).spec_capacity()
                    &&& final(self).spec_params() == old(self).spec_params()
                },
                None => !old(self)@.contains_key(key@) && *final(self) == *old(self),
            },
    {
        let hash = crate::hash::make_hash(&self.params.hasher_builder, key);
        match self.find(hash, key) {
            FindOutcome::Hit(p) => {
                proof {
                    self.lemma_scan_props(hash, key@, 0);
                    assert(self.slot_with(p as int, key@));
                    self.lemma_unique_slot(self.index_of(key@), p as int, key@);
                }
                let ghost pre = *self;
                match vec_index_mut(&mut self.table, p) {
                    Some(pair) => {
                        let v = &mut pair.1;
                        proof {
                            let k0 = pre.table@[p as int].unwrap().0;
                            assert(after_borrow(*self).table@ == pre.table@.update(
                                p as int,
                                Some((k0, *final(v))),
                            ));
                            Self::lemma_inv_preserved_pointwise(pre, after_borrow(*self));
                            Self::lemma_as_map_update(pre, after_borrow(*self), p as int, k0, *final(v));
                        }
                        Some(v)
                    },
                    None => None,
                }
            },
            _ => {
                proof {
                    if self.has_key(key@) {
                        let j = choose|j: int| self.slot_with(j, key@);
                        assert(self.slot_occupied(j));
                    }
                }
                None
            },
        }
    }
}


/// Under pairwise distinct keys, the map of the entries binds exactly as
/// many keys as there are entries.
proof fn lemma_map_of_entries_size<K: View, V>(s: Seq<(K, V)>)
    requires
        forall|i1: int, i2: int|
            0 <= i1 < i2 < s.len() ==> (#[trigger] s[i1]).0@ != (#[trigger] s[i2]).0@,
    ensures
        map_of_entries(s).dom().finite(),
        map_of_entries(s).dom().len() == s.len(),
    decreases s.len(),
{
    if s.len() == 0 {
        assert(map_of_entries(s).dom() =~= Set::<<K as View>::V>::empty());
    } else {
        let d = s.drop_first();
        assert(forall|i: int| 0 <= i < d.len() ==> d[i] == s[i + 1]);
        lemma_map_of_entries_size(d);
        lemma_map_of_entries_props(d);
        assert(map_of_entries(s) == map_of_entries(d).insert(s.first().0@, s.first().1));
        if map_of_entries(d).contains_key(s.first().0@) {
            let i = choose|i: int| 0 <= i < d.len() && (#[trigger] d[i]).0@ == s.first().0@;
            assert((#[trigger] s[0]).0@ == s[i + 1].0@);
        }
        assert(map_of_entries(s).dom() =~= map_of_entries(d).dom().insert(s.first().0@));
    }
}

impl<K: IndexKey, V, S: BuildIndexHasher<K>, P: Probing> Index<K, V, S, P> {
    /// Length law: the table's length is the number of bindings of its map
    /// view, and the table is empty exactly when its view is the empty map —
    /// so the key, value and pair iterations, whose lengths equal the
    /// table's length, each yield one element per binding.
    pub proof fn lemma_len_matches_view(self)
        requires
            self.well_formed(),
        ensures
            self@.dom().finite(),
            self@.dom().len() == self.spec_len(),
            self.spec_len() == 0 <==> self@ == Map::<<K as View>::V, V>::empty(),
    {
        self.lemma_entry_map();
        self.lemma_entries_match_view();
        lemma_map_of_entries_size(self.entry_seq());
        if self.spec_len() == 0 {
            assert(self@.dom() =~= Set::<<K as View>::V>::empty());
            assert(self@ =~= Map::<<K as View>::V, V>::empty());
        }
        if self@ == Map::<<K as View>::V, V>::empty() {
            assert(self@.dom().len() == 0);
        }
    }
}

} // verus!
