//! Sets of pixel coordinates.

use std::collections::HashSet;
use vstd::prelude::*;
use vstd::relations::injective_on;
use vstd::set_lib::{lemma_len_subset, lemma_map_size, FiniteRange};
use vstd::std_specs::iter::IteratorSpec;

verus! {

broadcast use vstd::std_specs::hash::group_hash_axioms;

/// A set of points `(x, y)`: no point twice, in no order.
///
/// A point is kept as the one number `x * 65536 + y`.
pub struct Points {
    cells: HashSet<u32>,
}

/// The number under which a point is kept.
spec fn point_key(point: (u16, u16)) -> u32 {
    (point.0 * 0x1_0000 + point.1) as u32
}

/// The point that is kept under a number.
spec fn key_point(key: u32) -> (u16, u16) {
    ((key / 0x1_0000) as u16, (key % 0x1_0000) as u16)
}

/// The points that a set of numbers stands for.
spec fn keyed_points(keys: Set<u32>) -> Set<(u16, u16)> {
    Set::new(|point: (u16, u16)| keys.contains(point_key(point)))
}

/// Points and numbers stand for each other one to one.
proof fn lemma_key_round_trip()
    ensures
        forall|point: (u16, u16)| key_point(#[trigger] point_key(point)) == point,
        forall|key: u32| point_key(#[trigger] key_point(key)) == key,
{
}

/// A finite set of numbers stands for as many points.
proof fn lemma_keyed_points_len(keys: Set<u32>)
    requires
        keys.finite(),
    ensures
        keyed_points(keys).finite(),
        keyed_points(keys).len() == keys.len(),
{
    lemma_key_round_trip();
    let decode = |key: u32| key_point(key);
    assert(injective_on(decode, keys)) by {
        assert forall|k1: u32, k2: u32|
            keys.contains(k1) && keys.contains(k2) && #[trigger] decode(k1) == #[trigger] decode(
                k2,
            ) implies k1 == k2 by {
            assert(point_key(key_point(k1)) == k1);
            assert(point_key(key_point(k2)) == k2);
        }
    }
    assert(keys.map(decode) =~= keyed_points(keys)) by {
        assert forall|point: (u16, u16)| keys.map(decode).contains(point) implies keyed_points(
            keys,
        ).contains(point) by {
            let key = choose|key: u32| keys.contains(key) && point == decode(key);
            assert(point_key(key_point(key)) == key);
        }
        assert forall|point: (u16, u16)| keyed_points(keys).contains(point) implies keys.map(
            decode,
        ).contains(point) by {
            assert(keys.contains(point_key(point)) && point == decode(point_key(point)));
        }
    }
    lemma_map_size(keys, keyed_points(keys), decode);
}

/// The set that a sequence of numbers without repetition stands for is the set
/// of the points that the numbers stand for, one by one.
proof fn lemma_keyed_points_of_seq(keys: Seq<u32>, points: Seq<(u16, u16)>)
    requires
        keys.no_duplicates(),
        points.len() == keys.len(),
        forall|i: int| 0 <= i < keys.len() ==> points[i] == key_point(#[trigger] keys[i]),
    ensures
        points.no_duplicates(),
        points.to_set() == keyed_points(keys.to_set()),
{
    lemma_key_round_trip();
    assert forall|i: int, j: int|
        0 <= i < points.len() && 0 <= j < points.len() && i != j implies points[i] != points[j] by {
        assert(point_key(key_point(keys[i])) == keys[i]);
        assert(point_key(key_point(keys[j])) == keys[j]);
    }
    assert(points.to_set() =~= keyed_points(keys.to_set())) by {
        assert forall|point: (u16, u16)| points.to_set().contains(point) implies keyed_points(
            keys.to_set(),
        ).contains(point) by {
            let i = choose|i: int| 0 <= i < points.len() && points[i] == point;
            assert(point_key(key_point(keys[i])) == keys[i]);
            assert(keys.to_set().contains(keys[i]));
        }
        assert forall|point: (u16, u16)| keyed_points(keys.to_set()).contains(point) implies points.to_set().contains(
            point,
        ) by {
            let i = choose|i: int| 0 <= i < keys.len() && keys[i] == point_key(point);
            assert(points[i] == point);
        }
    }
}

/// Taking one more item of a sequence without repetition adds it to the set of
/// the items taken, and to what that set shares with another set if the item is
/// in the other set.
pub proof fn lemma_common_step<T>(items: Seq<T>, i: int, other: Set<T>)
    requires
        items.no_duplicates(),
        0 <= i < items.len(),
    ensures
        items.take(i + 1).to_set() == items.take(i).to_set().insert(items[i]),
        !items.take(i).to_set().contains(items[i]),
        items.take(i + 1).to_set().intersect(other).len() == items.take(i).to_set().intersect(
            other,
        ).len() + if other.contains(items[i]) {
            1int
        } else {
            0int
        },
{
    let shorter = items.take(i);
    let longer = items.take(i + 1);
    let before = shorter.to_set();
    let after = longer.to_set();
    vstd::seq_lib::seq_to_set_is_finite(shorter);
    assert(after =~= before.insert(items[i])) by {
        assert forall|item: T| after.contains(item) implies before.insert(items[i]).contains(
            item,
        ) by {
            let j = choose|j: int| 0 <= j < longer.len() && longer[j] == item;
            if j < i {
                assert(shorter[j] == item);
            }
        }
        assert forall|item: T| before.insert(items[i]).contains(item) implies after.contains(
            item,
        ) by {
            if item == items[i] {
                assert(longer[i] == item);
            } else {
                let j = choose|j: int| 0 <= j < shorter.len() && shorter[j] == item;
                assert(longer[j] == item);
            }
        }
    }
    assert(!before.contains(items[i])) by {
        if before.contains(items[i]) {
            let j = choose|j: int| 0 <= j < shorter.len() && shorter[j] == items[i];
            assert(items[j] == items[i]);
        }
    }
    if other.contains(items[i]) {
        assert(after.intersect(other) =~= before.intersect(other).insert(items[i]));
    } else {
        assert(after.intersect(other) =~= before.intersect(other));
    }
}

/// The points that are in exactly one of two sets.
pub open spec fn symmetric_difference(a: Set<(u16, u16)>, b: Set<(u16, u16)>) -> Set<(u16, u16)> {
    a.difference(b).union(b.difference(a))
}

/// Two finite sets differ by the points of each that the other lacks.
pub proof fn lemma_symmetric_difference_len(a: Set<(u16, u16)>, b: Set<(u16, u16)>)
    requires
        a.finite(),
        b.finite(),
    ensures
        symmetric_difference(a, b).finite(),
        a.intersect(b).len() <= a.len(),
        a.intersect(b).len() <= b.len(),
        symmetric_difference(a, b).len() == (a.len() - a.intersect(b).len()) + (b.len()
            - a.intersect(b).len()),
{
    vstd::set_lib::lemma_set_difference_len(a, b);
    vstd::set_lib::lemma_set_difference_len(b, a);
    assert(b.intersect(a) =~= a.intersect(b));
    assert(a.difference(b).disjoint(b.difference(a)));
    vstd::set_lib::lemma_set_disjoint_lens(a.difference(b), b.difference(a));
}

impl View for Points {
    type V = Set<(u16, u16)>;

    closed spec fn view(&self) -> Set<(u16, u16)> {
        keyed_points(self.cells@)
    }
}

impl Points {
    /// Every set of points is finite.
    pub proof fn lemma_finite(&self)
        ensures
            self@.finite(),
    {
        self.lemma_keys();
    }

    /// The set holds finitely many numbers, as many as it has points.
    proof fn lemma_keys(&self)
        ensures
            self.cells@.finite(),
            self@.finite(),
            self@.len() == self.cells@.len(),
    {
        let keys = self.cells.iter().remaining().unref();
        vstd::seq_lib::seq_to_set_is_finite(keys);
        lemma_keyed_points_len(self.cells@);
    }

    /// The set without a point.
    pub fn new() -> (points: Points)
        ensures
            points@ == Set::<(u16, u16)>::empty(),
    {
        let points = Points { cells: HashSet::new() };
        assert(points@ =~= Set::<(u16, u16)>::empty());
        points
    }

    /// The number under which the set keeps a point.
    fn key(point: (u16, u16)) -> (key: u32)
        ensures
            key == point_key(point),
    {
        let x: u32 = point.0 as u32;
        let y: u32 = point.1 as u32;
        x * 0x1_0000 + y
    }

    /// Puts a point into the set, and says whether it was new to the set.
    pub fn insert(&mut self, point: (u16, u16)) -> (fresh: bool)
        ensures
            final(self)@ == old(self)@.insert(point),
            fresh == !old(self)@.contains(point),
    {
        let fresh = self.cells.insert(Self::key(point));
        proof {
            lemma_key_round_trip();
            assert forall|other: (u16, u16)| other != point implies point_key(other) != point_key(
                point,
            ) by {
                assert(key_point(point_key(other)) == other);
                assert(key_point(point_key(point)) == point);
            }
            assert(self@ =~= old(self)@.insert(point));
        }
        fresh
    }

    /// Whether a point is in the set.
    pub fn contains(&self, point: (u16, u16)) -> (found: bool)
        ensures
            found == self@.contains(point),
    {
        let key = Self::key(point);
        self.cells.contains(&key)
    }

    /// The number of points in the set.
    pub fn len(&self) -> (count: usize)
        ensures
            count == self@.len(),
            self@.finite(),
    {
        proof {
            self.lemma_keys();
        }
        self.cells.len()
    }

    /// Whether the set is without a point.
    pub fn is_empty(&self) -> (empty: bool)
        ensures
            empty == (self@ == Set::<(u16, u16)>::empty()),
    {
        proof {
            self.lemma_keys();
            if self.cells@.len() == 0 {
                assert(self.cells@ =~= Set::<u32>::empty());
                assert(self@ =~= Set::<(u16, u16)>::empty());
            }
        }
        self.cells.len() == 0
    }

    /// There are no more points than pairs of coordinates.
    pub proof fn lemma_len_bound(&self)
        ensures
            self@.finite(),
            self@.len() <= 0x1_0000_0000,
    {
        self.lemma_keys();
        let below = Set::<u32>::range(0, u32::MAX);
        u32::range_properties(0, u32::MAX);
        assert(self.cells@.subset_of(below.insert(u32::MAX)));
        lemma_len_subset(self.cells@, below.insert(u32::MAX));
    }

    /// The number of points that are in both sets.
    pub fn common_count(&self, other: &Points) -> (count: usize)
        ensures
            count == self@.intersect(other@).len(),
            count <= self@.len(),
            count <= other@.len(),
    {
        let mut count: usize = 0;
        let ghost keys = self.cells.iter().remaining().unref();
        proof {
            assert(keys.len() == self.cells.len());
            assert(keys.take(0).to_set().intersect(other.cells@) =~= Set::<u32>::empty());
        }
        for key in it: self.cells.iter()
            invariant
                it.seq().unref() == keys,
                keys.to_set() == self.cells@,
                keys.no_duplicates(),
                keys.len() <= usize::MAX,
                count <= it.index(),
                count == keys.take(it.index()).to_set().intersect(other.cells@).len(),
        {
            proof {
                assert(*key == keys[it.index()]);
                lemma_common_step(keys, it.index(), other.cells@);
            }
            if other.cells.contains(key) {
                count = count + 1;
            }
        }
        proof {
            assert(keys.take(keys.len() as int) =~= keys);
            self.lemma_keys();
            other.lemma_keys();
            let shared = self.cells@.intersect(other.cells@);
            lemma_keyed_points_len(shared);
            assert(keyed_points(shared) =~= self@.intersect(other@));
            lemma_symmetric_difference_len(self@, other@);
        }
        count
    }

    /// The set of the points of a slice; a point that the slice holds twice is in
    /// the set once.
    pub fn from_slice(points: &[(u16, u16)]) -> (set: Points)
        ensures
            set@ == points@.to_set(),
    {
        let mut set = Points::new();
        let mut i: usize = 0;
        while i < points.len()
            invariant
                i <= points.len(),
                set@ == points@.take(i as int).to_set(),
            decreases points.len() - i,
        {
            set.insert(points[i]);
            proof {
                let before = points@.take(i as int);
                let after = points@.take(i + 1);
                assert(after =~= before.push(points@[i as int]));
                assert(after.to_set() =~= before.to_set().insert(points@[i as int])) by {
                    assert forall|p: (u16, u16)| after.to_set().contains(p) implies before.to_set().insert(
                        points@[i as int],
                    ).contains(p) by {
                        let j = choose|j: int| 0 <= j < after.len() && after[j] == p;
                        if j < i {
                            assert(before[j] == p);
                        }
                    }
                    assert forall|p: (u16, u16)|
                        before.to_set().insert(points@[i as int]).contains(
                            p,
                        ) implies after.to_set().contains(p) by {
                        if p == points@[i as int] {
                            assert(after[i as int] == p);
                        } else {
                            let j = choose|j: int| 0 <= j < before.len() && before[j] == p;
                            assert(after[j] == p);
                        }
                    }
                }
            }
            i = i + 1;
        }
        proof {
            assert(points@.take(points.len() as int) =~= points@);
        }
        set
    }

    /// The points of the set, each once, in an order that is not fixed.
    pub fn to_vec(&self) -> (points: Vec<(u16, u16)>)
        ensures
            points@.no_duplicates(),
            points@.to_set() == self@,
            points@.len() == self@.len(),
    {
        let mut points: Vec<(u16, u16)> = Vec::new();
        let ghost keys = self.cells.iter().remaining().unref();
        for key in it: self.cells.iter()
            invariant
                it.seq().unref() == keys,
                keys.to_set() == self.cells@,
                keys.no_duplicates(),
                points@.len() == it.index(),
                forall|i: int| 0 <= i < points@.len() ==> points@[i] == key_point(#[trigger] keys[i]),
        {
            let k: u32 = *key;
            assert(k == keys[it.index() as int]);
            points.push(((k / 0x1_0000) as u16, (k % 0x1_0000) as u16));
        }
        proof {
            lemma_keyed_points_of_seq(keys, points@);
            points@.unique_seq_to_set();
        }
        points
    }
}

} // verus!
