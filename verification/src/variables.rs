//! Identifiers that a test case hands out, and pools of them.
use std::collections::HashSet;
use vstd::prelude::*;

verus! {

broadcast use vstd::std_specs::hash::group_hash_axioms;

/// Whether a sequence is in strictly rising order.
pub open spec fn rising(s: Seq<i64>) -> bool {
    forall|i: int, j: int| 0 <= i < j < s.len() ==> s[i] < s[j]
}

/// Whether every identifier there can be is in use.
pub open spec fn is_full(used: Set<i64>) -> bool {
    forall|id: i64| 0 <= id ==> used.contains(id)
}

/// Whether `id` is the smallest identifier that is not in use.
pub open spec fn is_smallest_unused(used: Set<i64>, id: i64) -> bool {
    &&& 0 <= id
    &&& !used.contains(id)
    &&& forall|j: i64| 0 <= j < id ==> used.contains(j)
}

/// Whether `id` is the largest identifier in use, or minus one where none is.
pub open spec fn is_max_used(used: Set<i64>, id: i64) -> bool {
    if used == Set::<i64>::empty() {
        id == -1
    } else {
        used.contains(id) && forall|j: i64| used.contains(j) ==> j <= id
    }
}

/// The largest identifier in use, or minus one where none is.
pub open spec fn max_used_of(used: Set<i64>) -> i64 {
    choose|id: i64| is_max_used(used, id)
}

/// The smallest identifier that is not in use.
pub open spec fn smallest_unused_of(used: Set<i64>) -> i64 {
    choose|id: i64| is_smallest_unused(used, id)
}

/// There is at most one largest identifier in use.
pub proof fn lemma_max_used_is_unique(used: Set<i64>, a: i64, b: i64)
    requires
        is_max_used(used, a),
        is_max_used(used, b),
    ensures
        a == b,
{
}

/// The identifiers that a test case has handed out.
pub struct FreshIds {
    ids: Vec<i64>,
}

/// Whether a list has the members of a set in rising order.
pub open spec fn is_rising(list: Seq<i64>, set: Set<i64>) -> bool {
    &&& list.to_set() == set
    &&& forall|i: int, j: int| 0 <= i < j < list.len() ==> list[i] < list[j]
}

impl View for FreshIds {
    type V = Set<i64>;

    closed spec fn view(&self) -> Set<i64> {
        self.ids@.to_set()
    }
}

impl Default for FreshIds {
    fn default() -> (r: Self)
        ensures
            r@ == Set::<i64>::empty(),
    {
        let r = FreshIds { ids: Vec::new() };
        assert(r@ =~= Set::<i64>::empty());
        r
    }
}

impl FreshIds {
    #[verifier::type_invariant]
    closed spec fn in_order(self) -> bool {
        rising(self.ids@)
    }

    /// How many of the identifiers in use are below `id`.
    fn position(&self, id: i64) -> (r: usize)
        ensures
            r <= self.ids@.len(),
            forall|i: int| 0 <= i < r ==> self.ids@[i] < id,
            forall|i: int| r <= i < self.ids@.len() ==> self.ids@[i] >= id,
    {
        proof {
            use_type_invariant(self);
        }
        let mut lo: usize = 0;
        let mut hi: usize = self.ids.len();
        while lo < hi
            invariant
                lo <= hi <= self.ids@.len(),
                rising(self.ids@),
                forall|i: int| 0 <= i < lo ==> self.ids@[i] < id,
                forall|i: int| hi <= i < self.ids@.len() ==> self.ids@[i] >= id,
            decreases hi - lo,
        {
            let mid: usize = lo + (hi - lo) / 2;
            if self.ids[mid] < id {
                assert forall|i: int| 0 <= i < mid + 1 implies self.ids@[i] < id by {
                    assert(self.ids@[i] <= self.ids@[mid as int]);
                }
                lo = mid + 1;
            } else {
                assert forall|i: int| mid <= i < self.ids@.len() implies self.ids@[i] >= id by {
                    assert(self.ids@[i] >= self.ids@[mid as int]);
                }
                hi = mid;
            }
        }
        lo
    }

    /// Whether `id` is in use.
    pub fn contains(&self, id: i64) -> (r: bool)
        ensures
            r == self@.contains(id),
    {
        let at: usize = self.position(id);
        if at < self.ids.len() && self.ids[at] == id {
            assert(self.ids@.contains(id));
            return true;
        }
        proof {
            use_type_invariant(self);
            if self.ids@.contains(id) {
                let i = choose|i: int| 0 <= i < self.ids@.len() && self.ids@[i] == id;
                assert(self.ids@[at as int] <= self.ids@[i]);
            }
        }
        false
    }

    /// Marks `id` as in use.
    pub fn insert(&mut self, id: i64)
        ensures
            final(self)@ == old(self)@.insert(id),
    {
        proof {
            use_type_invariant(&*self);
        }
        let at: usize = self.position(id);
        if at < self.ids.len() && self.ids[at] == id {
            assert(self.ids@.contains(id));
            assert(self@ =~= old(self)@.insert(id));
            return;
        }
        let ghost before = self.ids@;
        let mut ids: Vec<i64> = Vec::new();
        std::mem::swap(&mut ids, &mut self.ids);
        ids.insert(at, id);
        self.ids = ids;
        proof {
            let after = self.ids@;
            assert(after == before.insert(at as int, id));
            assert forall|x: i64| after.to_set().contains(x) <==> before.to_set().insert(
                id,
            ).contains(x) by {
                if after.contains(x) {
                    let i = choose|i: int| 0 <= i < after.len() && after[i] == x;
                    if i < at {
                        assert(before[i] == x);
                    } else if i > at {
                        assert(before[i - 1] == x);
                    }
                }
                if before.contains(x) {
                    let i = choose|i: int| 0 <= i < before.len() && before[i] == x;
                    if i < at {
                        assert(after[i] == x);
                    } else {
                        assert(after[i + 1] == x);
                    }
                }
                assert(after[at as int] == id);
            }
            assert(self@ =~= old(self)@.insert(id));
        }
    }

    /// The largest identifier in use, or minus one where none is.
    pub fn max_used(&self) -> (r: i64)
        ensures
            is_max_used(self@, r),
            r == max_used_of(self@),
    {
        let r: i64 = self.find_max_used();
        proof {
            lemma_max_used_is_unique(self@, r, max_used_of(self@));
        }
        r
    }

    fn find_max_used(&self) -> (r: i64)
        ensures
            is_max_used(self@, r),
    {
        proof {
            use_type_invariant(self);
        }
        let count: usize = self.ids.len();
        if count == 0 {
            assert(self@ =~= Set::<i64>::empty());
            return -1;
        }
        let last: i64 = self.ids[count - 1];
        proof {
            assert(self.ids@.contains(last));
            assert forall|j: i64| self@.contains(j) implies j <= last by {
                let i = choose|i: int| 0 <= i < self.ids@.len() && self.ids@[i] == j;
                assert(self.ids@[i] <= self.ids@[count - 1]);
            }
            assert(self@.contains(last));
        }
        last
    }

    /// The smallest identifier that is not in use.
    pub fn smallest_unused(&self) -> (r: i64)
        ensures
            !is_full(self@) ==> is_smallest_unused(self@, r) && r == smallest_unused_of(self@),
            0 <= r,
    {
        let r: i64 = self.find_smallest_unused();
        proof {
            if !is_full(self@) {
                lemma_smallest_unused_is_unique(self@, r, smallest_unused_of(self@));
            }
        }
        r
    }

    fn find_smallest_unused(&self) -> (r: i64)
        ensures
            !is_full(self@) ==> is_smallest_unused(self@, r),
            0 <= r,
    {
        proof {
            use_type_invariant(self);
        }
        let mut candidate: i64 = 0;
        let mut i: usize = 0;
        while i < self.ids.len() && self.ids[i] <= candidate
            invariant
                i <= self.ids@.len(),
                0 <= candidate,
                rising(self.ids@),
                forall|j: i64| 0 <= j < candidate ==> self@.contains(j),
                forall|k: int| 0 <= k < i ==> self.ids@[k] < candidate,
            decreases self.ids@.len() - i,
        {
            if self.ids[i] == candidate {
                assert(self.ids@.contains(candidate));
                assert(self@.contains(candidate));
                if candidate == i64::MAX {
                    assert(is_full(self@));
                    return candidate;
                }
                candidate = candidate + 1;
            }
            i = i + 1;
        }
        proof {
            if self@.contains(candidate) {
                let k = choose|k: int| 0 <= k < self.ids@.len() && self.ids@[k] == candidate;
                assert(k >= i);
                assert(self.ids@[i as int] <= self.ids@[k]);
            }
        }
        candidate
    }
}

impl FreshIds {
    /// The identifiers, in rising order.
    pub closed spec fn list(&self) -> Seq<i64> {
        self.ids@
    }

    /// How many identifiers are in use.
    pub fn len(&self) -> (r: usize)
        ensures
            r == self.list().len(),
            r == 0 <==> self@ == Set::<i64>::empty(),
            is_rising(self.list(), self@),
    {
        proof {
            use_type_invariant(self);
            if self.ids@.len() > 0 {
                assert(self.ids@.contains(self.ids@[0]));
                assert(self@.contains(self.ids@[0]));
            } else {
                assert(self@ =~= Set::<i64>::empty());
            }
        }
        self.ids.len()
    }

    /// The identifier at place `i` of the rising order.
    pub fn get(&self, i: usize) -> (r: i64)
        requires
            i < self.list().len(),
        ensures
            r == self.list()[i as int],
            self@.contains(r),
            i == 0 ==> forall|j: i64| #[trigger] self@.contains(j) ==> r <= j,
    {
        proof {
            use_type_invariant(self);
            assert(self.ids@.contains(self.ids@[i as int]));
            if i == 0 {
                assert forall|j: i64| #[trigger] self@.contains(j) implies self.ids@[0] <= j by {
                    let k = choose|k: int| 0 <= k < self.ids@.len() && self.ids@[k] == j;
                    assert(self.ids@[0] <= self.ids@[k]);
                }
            }
        }
        self.ids[i]
    }

    /// The largest identifier that is at most `id`, or the smallest of all
    /// where none is.
    pub fn nearest(&self, id: i64) -> (r: i64)
        requires
            self@ != Set::<i64>::empty(),
        ensures
            is_nearest(self@, id, r),
    {
        let n: usize = self.len();
        let at: usize = self.position(id);
        if at < n && self.ids[at] == id {
            assert(self.ids@.contains(id));
            return id;
        }
        proof {
            use_type_invariant(self);
            assert forall|j: i64| #[trigger] self@.contains(j) implies j != id && (j < id
                ==> at > 0 && j <= self.ids@[at - 1]) && self.ids@[0] <= j by {
                let k = choose|k: int| 0 <= k < self.ids@.len() && self.ids@[k] == j;
                assert(self.ids@[0] <= self.ids@[k]);
                if k < at {
                    assert(self.ids@[k] <= self.ids@[at - 1]);
                } else {
                    assert(self.ids@[at as int] <= self.ids@[k]);
                }
            }
        }
        if at == 0 {
            assert(self.ids@.contains(self.ids@[0]));
            self.ids[0]
        } else {
            assert(self.ids@.contains(self.ids@[at - 1]));
            self.ids[at - 1]
        }
    }
}

/// Whether `r` is the largest member that is at most `id`, or the smallest
/// member of all where none is.
pub open spec fn is_nearest(members: Set<i64>, id: i64, r: i64) -> bool {
    &&& members.contains(r)
    &&& r <= id ==> forall|j: i64| #[trigger] members.contains(j) && j <= id ==> j <= r
    &&& r > id ==> forall|j: i64| #[trigger] members.contains(j) ==> r <= j
}

/// There is at most one nearest member.
pub proof fn lemma_nearest_is_unique(members: Set<i64>, id: i64, a: i64, b: i64)
    requires
        is_nearest(members, id, a),
        is_nearest(members, id, b),
    ensures
        a == b,
{
}

/// A member is its own nearest member.
pub proof fn lemma_member_is_nearest(members: Set<i64>, id: i64)
    requires
        members.contains(id),
    ensures
        is_nearest(members, id, id),
{
}

/// There is at most one smallest unused identifier.
pub proof fn lemma_smallest_unused_is_unique(used: Set<i64>, a: i64, b: i64)
    requires
        is_smallest_unused(used, a),
        is_smallest_unused(used, b),
    ensures
        a == b,
{
    if a < b {
        assert(used.contains(a));
    }
    if b < a {
        assert(used.contains(b));
    }
}

/// Where some identifier is not in use, one of these is the smallest.
pub proof fn lemma_some_unused_is_smallest(used: Set<i64>, id: i64)
    requires
        0 <= id,
        !used.contains(id),
    ensures
        is_smallest_unused(used, smallest_unused_of(used)),
    decreases id,
{
    if exists|j: i64| 0 <= j < id && !used.contains(j) {
        let j = choose|j: i64| 0 <= j < id && !used.contains(j);
        lemma_some_unused_is_smallest(used, j);
    } else {
        assert(is_smallest_unused(used, id));
    }
}

/// Where no identifier in use is above `bound`, one is the largest, or none is in
/// use.
pub proof fn lemma_some_used_is_largest(used: Set<i64>, bound: i64)
    requires
        forall|j: i64| used.contains(j) ==> j <= bound,
    ensures
        is_max_used(used, max_used_of(used)),
    decreases bound - i64::MIN,
{
    if used =~= Set::<i64>::empty() {
        assert(is_max_used(used, -1i64));
    } else if used.contains(bound) {
        assert(is_max_used(used, bound));
    } else {
        let member = choose|j: i64| used.contains(j);
        assert(used.contains(member));
        lemma_some_used_is_largest(used, (bound - 1) as i64);
    }
}

/// The smallest unused identifier is at most one above the largest in use.
pub proof fn lemma_smallest_unused_is_next_at_most(used: Set<i64>, id: i64, max: i64)
    requires
        is_smallest_unused(used, id),
        is_max_used(used, max),
    ensures
        id <= max + 1 || id == 0,
{
    if id > max + 1 && id > 0 {
        let below = (id - 1) as i64;
        assert(used.contains(below));
        assert(below <= max);
    }
}

/// The identifiers of a pool that were not consumed, in order.
pub open spec fn active_ids(variables: Seq<i64>, removed: Set<i64>) -> Seq<i64>
    decreases variables.len(),
{
    if variables.len() == 0 {
        Seq::empty()
    } else {
        let rest = active_ids(variables.drop_last(), removed);
        if removed.contains(variables.last()) {
            rest
        } else {
            rest.push(variables.last())
        }
    }
}

/// A pool without the consumed identifiers at its end, and the consumed ones
/// that are still in it.
pub open spec fn trimmed(variables: Seq<i64>, removed: Set<i64>) -> (Seq<i64>, Set<i64>)
    decreases variables.len(),
{
    if variables.len() == 0 || !removed.contains(variables.last()) {
        (variables, removed)
    } else {
        trimmed(variables.drop_last(), removed.remove(variables.last()))
    }
}

/// A pool of the identifiers of variables of a stateful test.
pub struct NativeVariables {
    variables: Vec<i64>,
    removed: HashSet<i64>,
}

impl NativeVariables {
    /// All identifiers of the pool.
    pub closed spec fn variables(&self) -> Seq<i64> {
        self.variables@
    }

    /// The consumed identifiers.
    pub closed spec fn removed(&self) -> Set<i64> {
        self.removed@
    }

    /// An empty pool.
    pub fn new() -> (r: Self)
        ensures
            r.variables() == Seq::<i64>::empty(),
            r.removed() == Set::<i64>::empty(),
    {
        NativeVariables { variables: Vec::new(), removed: HashSet::new() }
    }

    /// Adds an identifier to the pool.
    pub fn add(&mut self, id: i64)
        ensures
            final(self).variables() == old(self).variables().push(id),
            final(self).removed() == old(self).removed(),
    {
        self.variables.push(id);
    }

    /// The identifiers that were not consumed, in order.
    pub fn active(&self) -> (r: Vec<i64>)
        ensures
            r@ == active_ids(self.variables(), self.removed()),
    {
        let mut out: Vec<i64> = Vec::new();
        let mut i: usize = 0;
        assert(self.variables@.take(0) =~= Seq::<i64>::empty());
        while i < self.variables.len()
            invariant
                i <= self.variables@.len(),
                out@ == active_ids(self.variables@.take(i as int), self.removed@),
            decreases self.variables@.len() - i,
        {
            let id: i64 = self.variables[i];
            assert(self.variables@.take(i + 1).drop_last() =~= self.variables@.take(i as int));
            if !self.removed.contains(&id) {
                out.push(id);
            }
            i = i + 1;
        }
        assert(self.variables@.take(i as int) =~= self.variables@);
        out
    }

    /// Marks an identifier as consumed, and drops consumed ones from the end.
    pub fn consume(&mut self, variable_id: i64)
        ensures
            (final(self).variables(), final(self).removed()) == trimmed(
                old(self).variables(),
                old(self).removed().insert(variable_id),
            ),
    {
        self.removed.insert(variable_id);
        let ghost goal = trimmed(self.variables@, self.removed@);
        while self.variables.len() > 0 && self.removed.contains(
            &self.variables[self.variables.len() - 1],
        )
            invariant
                trimmed(self.variables@, self.removed@) == goal,
            decreases self.variables@.len(),
        {
            let last: i64 = self.variables[self.variables.len() - 1];
            let ghost before = self.variables@;
            self.variables.pop();
            assert(self.variables@ =~= before.drop_last());
            self.removed.remove(&last);
        }
    }
}

proof fn lemma_active_keeps(variables: Seq<i64>, a: Set<i64>, b: Set<i64>)
    requires
        forall|i: int|
            0 <= i < variables.len() ==> (a.contains(#[trigger] variables[i]) <==> b.contains(
                variables[i],
            )),
    ensures
        active_ids(variables, a) == active_ids(variables, b),
    decreases variables.len(),
{
    if variables.len() > 0 {
        assert forall|i: int| 0 <= i < variables.drop_last().len() implies (a.contains(
            #[trigger] variables.drop_last()[i],
        ) <==> b.contains(variables.drop_last()[i])) by {
            assert(variables.drop_last()[i] == variables[i]);
        }
        assert(variables[variables.len() - 1] == variables.last());
        lemma_active_keeps(variables.drop_last(), a, b);
    }
}

/// Dropping consumed identifiers from the end of a pool without duplicates
/// changes nothing of what is active.
pub proof fn lemma_trimming_keeps_active(variables: Seq<i64>, removed: Set<i64>)
    requires
        variables.no_duplicates(),
    ensures
        active_ids(trimmed(variables, removed).0, trimmed(variables, removed).1) == active_ids(
            variables,
            removed,
        ),
        trimmed(variables, removed).0.no_duplicates(),
    decreases variables.len(),
{
    if variables.len() > 0 && removed.contains(variables.last()) {
        let rest = variables.drop_last();
        let fewer = removed.remove(variables.last());
        assert(rest.no_duplicates());
        lemma_trimming_keeps_active(rest, fewer);
        assert forall|i: int| 0 <= i < rest.len() implies (fewer.contains(#[trigger] rest[i])
            <==> removed.contains(rest[i])) by {
            assert(rest[i] == variables[i]);
            assert(variables[variables.len() - 1] == variables.last());
        }
        lemma_active_keeps(rest, fewer, removed);
    }
}

/// Consuming an identifier of a pool without duplicates takes that one out of
/// the active identifiers and keeps the others in their order.
pub proof fn lemma_consume_takes_one(variables: Seq<i64>, removed: Set<i64>, id: i64)
    requires
        variables.no_duplicates(),
    ensures
        ({
            let after = trimmed(variables, removed.insert(id));
            active_ids(after.0, after.1) == active_ids(variables, removed).filter(
                |x: i64| x != id,
            )
        }),
    decreases variables.len(),
{
    lemma_trimming_keeps_active(variables, removed.insert(id));
    lemma_insert_filters(variables, removed, id);
}

proof fn lemma_insert_filters(variables: Seq<i64>, removed: Set<i64>, id: i64)
    ensures
        active_ids(variables, removed.insert(id)) == active_ids(variables, removed).filter(
            |x: i64| x != id,
        ),
    decreases variables.len(),
{
    reveal(Seq::filter);
    if variables.len() > 0 {
        lemma_insert_filters(variables.drop_last(), removed, id);
        let rest = active_ids(variables.drop_last(), removed);
        let pushed = rest.push(variables.last());
        assert(pushed.drop_last() =~= rest);
    }
}

} // verus!
