use crate::search::State;
use vstd::prelude::*;

verus! {

/// The finite map that an association list denotes: later entries shadow
/// earlier ones with the same key.
pub open spec fn map_of(entries: Seq<(State, u32)>) -> Map<State, u32>
    decreases entries.len(),
{
    if entries.len() == 0 {
        Map::empty()
    } else {
        map_of(entries.drop_last()).insert(entries.last().0, entries.last().1)
    }
}

/// The sum of the recorded times of an association list.
pub open spec fn sum_values(entries: Seq<(State, u32)>) -> int
    decreases entries.len(),
{
    if entries.len() == 0 {
        0
    } else {
        sum_values(entries.drop_last()) + entries.last().1
    }
}

/// The number of distinct states a search can ever record: each of the
/// four state fields ranges over its machine type.
pub open spec fn state_space() -> int {
    (usize::MAX as int + 1) * (u32::MAX as int + 1) * (u32::MAX as int + 1) * (u32::MAX as int + 1)
}

/// A mixed-radix encoding of a state, injective into [0, state_space()).
pub open spec fn state_code(s: State) -> int {
    ((s.current_node as int * (u32::MAX as int + 1) + s.lap as int) * (u32::MAX as int + 1)
        + s.current_fuel as int) * (u32::MAX as int + 1) + s.tyre_distance as int
}

/// A quotient-remainder pair with the remainder in range is determined by
/// its combined value.
proof fn lemma_mixed_radix_inj(q1: int, r1: int, q2: int, r2: int, b: int)
    requires
        b > 0,
        0 <= r1 < b,
        0 <= r2 < b,
        q1 * b + r1 == q2 * b + r2,
    ensures
        q1 == q2,
        r1 == r2,
{
    assert(q1 == q2 && r1 == r2) by (nonlinear_arith)
        requires
            b > 0,
            0 <= r1 < b,
            0 <= r2 < b,
            q1 * b + r1 == q2 * b + r2,
    ;
}

/// The state encoding stays within the state-space bound.
proof fn lemma_state_code_bounds(s: State)
    ensures
        0 <= state_code(s) < state_space(),
{
    let b = u32::MAX as int + 1;
    let u = usize::MAX as int + 1;
    let n = s.current_node as int;
    let l = s.lap as int;
    let f = s.current_fuel as int;
    let t = s.tyre_distance as int;
    assert(0 <= ((n * b + l) * b + f) * b + t < ((u * b) * b) * b) by (nonlinear_arith)
        requires
            0 <= n < u,
            0 <= l < b,
            0 <= f < b,
            0 <= t < b,
            b > 0,
            u > 0,
    ;
    assert(((u * b) * b) * b == state_space()) by (nonlinear_arith)
        requires
            u == usize::MAX as int + 1,
            b == u32::MAX as int + 1,
    ;
}

/// The state encoding is injective.
proof fn lemma_state_code_injective(s1: State, s2: State)
    requires
        state_code(s1) == state_code(s2),
    ensures
        s1 == s2,
{
    let b = u32::MAX as int + 1;
    lemma_mixed_radix_inj(
        (s1.current_node as int * b + s1.lap as int) * b + s1.current_fuel as int,
        s1.tyre_distance as int,
        (s2.current_node as int * b + s2.lap as int) * b + s2.current_fuel as int,
        s2.tyre_distance as int,
        b,
    );
    lemma_mixed_radix_inj(
        s1.current_node as int * b + s1.lap as int,
        s1.current_fuel as int,
        s2.current_node as int * b + s2.lap as int,
        s2.current_fuel as int,
        b,
    );
    lemma_mixed_radix_inj(
        s1.current_node as int,
        s1.lap as int,
        s2.current_node as int,
        s2.lap as int,
        b,
    );
}

/// The recorded times sum to a non-negative total.
proof fn lemma_sum_values_nonneg(entries: Seq<(State, u32)>)
    ensures
        sum_values(entries) >= 0,
    decreases entries.len(),
{
    if entries.len() > 0 {
        lemma_sum_values_nonneg(entries.drop_last());
    }
}

/// Replacing one entry changes the sum by the difference of the values.
proof fn lemma_sum_values_update(entries: Seq<(State, u32)>, i: int, s: State, t: u32)
    requires
        0 <= i < entries.len(),
    ensures
        sum_values(entries.update(i, (s, t))) == sum_values(entries) - entries[i].1 + t,
    decreases entries.len(),
{
    let upd = entries.update(i, (s, t));
    if i == entries.len() - 1 {
        assert(upd.drop_last() =~= entries.drop_last());
        assert(upd.last() == (s, t));
    } else {
        assert(upd.drop_last() =~= entries.drop_last().update(i, (s, t)));
        assert(upd.last() == entries.last());
        assert(entries.drop_last()[i] == entries[i]);
        lemma_sum_values_update(entries.drop_last(), i, s, t);
    }
}

/// The best-known-time table of the search: for each state already seen,
/// the least cumulative time any frontier label has reached it with. Used
/// for dominance pruning only.
pub struct BestTimes {
    entries: Vec<(State, u32)>,
}

impl View for BestTimes {
    type V = Map<State, u32>;

    closed spec fn view(&self) -> Map<State, u32> {
        map_of(self.entries@)
    }
}

/// A key appears in the denoted map exactly when some entry carries it.
proof fn lemma_map_of_contains(entries: Seq<(State, u32)>, s: State)
    ensures
        map_of(entries).contains_key(s) <==> exists|i: int|
            0 <= i < entries.len() && (#[trigger] entries[i]).0 == s,
    decreases entries.len(),
{
    if entries.len() > 0 {
        lemma_map_of_contains(entries.drop_last(), s);
        if entries.last().0 == s {
            assert(entries[entries.len() - 1].0 == s);
        } else if exists|i: int| 0 <= i < entries.len() && (#[trigger] entries[i]).0 == s {
            let i = choose|i: int| 0 <= i < entries.len() && (#[trigger] entries[i]).0 == s;
            assert(entries.drop_last()[i] == entries[i]);
        }
    }
}

/// With pairwise distinct keys, each entry's value is the denoted map's
/// value at its key.
proof fn lemma_map_of_value(entries: Seq<(State, u32)>, i: int)
    requires
        forall|a: int, b: int|
            0 <= a < b < entries.len() ==> (#[trigger] entries[a]).0 != (#[trigger] entries[b]).0,
        0 <= i < entries.len(),
    ensures
        map_of(entries).contains_key(entries[i].0),
        map_of(entries)[entries[i].0] == entries[i].1,
    decreases entries.len(),
{
    if i == entries.len() - 1 {
        assert(entries.last() == entries[i]);
    } else {
        assert(entries.drop_last()[i] == entries[i]);
        lemma_map_of_value(entries.drop_last(), i);
        assert(entries.last().0 != entries[i].0);
    }
}

impl BestTimes {
    /// The entries carry pairwise distinct keys.
    pub closed spec fn wf(&self) -> bool {
        forall|a: int, b: int|
            0 <= a < b < self.entries@.len() ==> (#[trigger] self.entries@[a]).0 != (
            #[trigger] self.entries@[b]).0
    }

    /// How many states the table records.
    pub closed spec fn size(&self) -> int {
        self.entries@.len() as int
    }

    /// The sum of all recorded times; together with `size`, the search's
    /// termination measure.
    pub closed spec fn potential(&self) -> int {
        sum_values(self.entries@)
    }

    /// The table never records more states than the state space holds,
    /// and its potential is never negative.
    pub proof fn lemma_size_bounds(&self)
        requires
            self.wf(),
        ensures
            0 <= self.size() <= state_space(),
            self.potential() >= 0,
    {
        lemma_sum_values_nonneg(self.entries@);
        let codes = self.entries@.map_values(|e: (State, u32)| state_code(e.0));
        assert forall|a: int, b: int| 0 <= a < b < codes.len() implies codes[a] != codes[b] by {
            assert(codes[a] == state_code(self.entries@[a].0));
            assert(codes[b] == state_code(self.entries@[b].0));
            if codes[a] == codes[b] {
                lemma_state_code_injective(self.entries@[a].0, self.entries@[b].0);
            }
        }
        assert(codes.no_duplicates());
        codes.unique_seq_to_set();
        broadcast use vstd::seq_lib::seq_to_set_is_finite;

        let range = vstd::set_lib::set_int_range(0, state_space());
        assert forall|x: int| codes.to_set().contains(x) implies range.contains(x) by {
            assert(codes.contains(x));
            let i = choose|i: int| 0 <= i < codes.len() && codes[i] == x;
            assert(codes[i] == state_code(self.entries@[i].0));
            lemma_state_code_bounds(self.entries@[i].0);
        }
        vstd::set_lib::lemma_int_range(0, state_space());
        vstd::set_lib::lemma_len_subset(codes.to_set(), range);
    }

    /// An empty table.
    pub fn new() -> (t: BestTimes)
        ensures
            t.wf(),
            t@ == Map::<State, u32>::empty(),
            t.size() == 0,
            t.potential() == 0,
    {
        BestTimes { entries: Vec::new() }
    }

    /// The recorded time for state `s`, if one has been recorded.
    pub fn get(&self, s: &State) -> (r: Option<u32>)
        requires
            self.wf(),
        ensures
            match r {
                Some(t) => self@.contains_key(*s) && self@[*s] == t,
                None => !self@.contains_key(*s),
            },
    {
        let mut i: usize = 0;
        while i < self.entries.len()
            invariant
                i <= self.entries@.len(),
                self.wf(),
                forall|k: int| 0 <= k < i ==> (#[trigger] self.entries@[k]).0 != *s,
            decreases self.entries@.len() - i,
        {
            if self.entries[i].0 == *s {
                proof {
                    lemma_map_of_value(self.entries@, i as int);
                }
                return Some(self.entries[i].1);
            }
            i += 1;
        }
        proof {
            lemma_map_of_contains(self.entries@, *s);
        }
        None
    }

    /// Records time `t` for state `s`, replacing any earlier record.
    pub fn insert(&mut self, s: State, t: u32)
        requires
            old(self).wf(),
        ensures
            final(self).wf(),
            final(self)@ == old(self)@.insert(s, t),
            old(self)@.contains_key(s) ==> final(self).size() == old(self).size()
                && final(self).potential() == old(self).potential() - old(self)@[s] + t,
            !old(self)@.contains_key(s) ==> final(self).size() == old(self).size() + 1
                && final(self).potential() == old(self).potential() + t,
    {
        let mut i: usize = 0;
        while i < self.entries.len()
            invariant
                i <= self.entries@.len(),
                self.entries@ == old(self).entries@,
                old(self).wf(),
                forall|k: int| 0 <= k < i ==> (#[trigger] self.entries@[k]).0 != s,
            decreases self.entries@.len() - i,
        {
            if self.entries[i].0 == s {
                let ghost prev = self.entries@;
                self.entries[i] = (s, t);
                proof {
                    lemma_map_of_overwrite(prev, i as int, s, t);
                    lemma_map_of_value(prev, i as int);
                    lemma_sum_values_update(prev, i as int, s, t);
                }
                return;
            }
            i += 1;
        }
        let ghost prev = self.entries@;
        self.entries.push((s, t));
        proof {
            assert(self.entries@.drop_last() =~= prev);
            assert(self.entries@.last() == (s, t));
            lemma_map_of_contains(prev, s);
        }
    }
}

/// Overwriting the entry that carries key `s` denotes the same map as a
/// direct insertion, and keeps the keys distinct.
proof fn lemma_map_of_overwrite(entries: Seq<(State, u32)>, i: int, s: State, t: u32)
    requires
        forall|a: int, b: int|
            0 <= a < b < entries.len() ==> (#[trigger] entries[a]).0 != (#[trigger] entries[b]).0,
        0 <= i < entries.len(),
        entries[i].0 == s,
    ensures
        map_of(entries.update(i, (s, t))) == map_of(entries).insert(s, t),
        forall|a: int, b: int|
            0 <= a < b < entries.update(i, (s, t)).len() ==> (#[trigger] entries.update(
                i,
                (s, t),
            )[a]).0 != (#[trigger] entries.update(i, (s, t))[b]).0,
    decreases entries.len(),
{
    let upd = entries.update(i, (s, t));
    if i == entries.len() - 1 {
        assert(upd.drop_last() =~= entries.drop_last());
        assert(upd.last() == (s, t));
        assert(map_of(entries.drop_last()).insert(s, entries.last().1).insert(s, t)
            =~= map_of(entries.drop_last()).insert(s, t));
    } else {
        assert(upd.drop_last() =~= entries.drop_last().update(i, (s, t)));
        assert(upd.last() == entries.last());
        assert(entries.drop_last()[i] == entries[i]);
        lemma_map_of_overwrite(entries.drop_last(), i, s, t);
        let k = entries.last().0;
        assert(k != s);
        assert(map_of(entries.drop_last()).insert(s, t).insert(k, entries.last().1)
            =~= map_of(entries.drop_last()).insert(k, entries.last().1).insert(s, t));
    }
}

} // verus!
