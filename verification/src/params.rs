//! Request parameters: a mapping from string keys to string values, kept in
//! the order in which the signature reads it.

use crate::order::{
    key_lt, key_rank, lemma_key_lt_asymmetric, lemma_key_lt_irreflexive, lemma_key_lt_total,
    lemma_key_lt_transitive, Rank,
};
use vstd::prelude::*;

verus! {

/// A key with its value, as sequences of characters.
pub type Pair = (Seq<char>, Seq<char>);

/// The pairs that a vector of owned strings stands for.
pub open spec fn pairs_view(v: Seq<(String, String)>) -> Seq<Pair> {
    Seq::new(v.len(), |i: int| (v[i].0@, v[i].1@))
}

/// The keys ascend strictly from one pair to the next.
pub open spec fn strictly_sorted(s: Seq<Pair>) -> bool {
    forall|i: int, j: int| #![trigger s[i], s[j]] 0 <= i < j < s.len() ==> key_lt(s[i].0, s[j].0)
}

/// No key occurs in two places.
pub open spec fn distinct_keys(s: Seq<Pair>) -> bool {
    forall|i: int, j: int| #![trigger s[i], s[j]] 0 <= i < j < s.len() ==> s[i].0 != s[j].0
}

/// The mapping that results from inserting the pairs one after the other.
pub open spec fn map_of(s: Seq<Pair>) -> Map<Seq<char>, Seq<char>>
    decreases s.len(),
{
    if s.len() == 0 {
        Map::empty()
    } else {
        map_of(s.drop_last()).insert(s.last().0, s.last().1)
    }
}

/// The pairs of `m` listed by ascending key.
pub open spec fn sorted_entries(m: Map<Seq<char>, Seq<char>>) -> Seq<Pair> {
    choose|s: Seq<Pair>| strictly_sorted(s) && map_of(s) == m
}

/// The keys of `map_of(s)` are the keys that occur in `s`, and there are
/// finitely many of them.
pub proof fn lemma_map_of_keys(s: Seq<Pair>)
    ensures
        map_of(s).dom().finite(),
        forall|k: Seq<char>| #[trigger]
            map_of(s).contains_key(k) <==> exists|i: int| 0 <= i < s.len() && #[trigger] s[i].0 == k,
    decreases s.len(),
{
    if s.len() > 0 {
        let front = s.drop_last();
        lemma_map_of_keys(front);
        assert forall|k: Seq<char>| #[trigger]
            map_of(s).contains_key(k) <==> exists|i: int|
                0 <= i < s.len() && #[trigger] s[i].0 == k by {
            if map_of(s).contains_key(k) {
                if k == s.last().0 {
                    assert(s[s.len() - 1].0 == k);
                } else {
                    assert(map_of(front).contains_key(k));
                    let i = choose|i: int| 0 <= i < front.len() && #[trigger] front[i].0 == k;
                    assert(s[i].0 == k);
                }
            }
            if exists|i: int| 0 <= i < s.len() && #[trigger] s[i].0 == k {
                let i = choose|i: int| 0 <= i < s.len() && #[trigger] s[i].0 == k;
                if i < s.len() - 1 {
                    assert(front[i].0 == k);
                }
            }
        }
    }
}

/// Where no key repeats, every pair of `s` is a pair of `map_of(s)`.
pub proof fn lemma_map_of_values(s: Seq<Pair>)
    requires
        distinct_keys(s),
    ensures
        forall|i: int| 0 <= i < s.len() ==> map_of(s).contains_pair(#[trigger] s[i].0, s[i].1),
        map_of(s).len() == s.len(),
    decreases s.len(),
{
    if s.len() > 0 {
        let front = s.drop_last();
        assert(distinct_keys(front)) by {
            assert forall|i: int, j: int| #![trigger front[i], front[j]]
                0 <= i < j < front.len() implies front[i].0 != front[j].0 by {
                assert(s[i].0 != s[j].0);
            }
        }
        lemma_map_of_values(front);
        lemma_map_of_keys(front);
        assert forall|i: int| 0 <= i < s.len() implies map_of(s).contains_pair(
            #[trigger] s[i].0,
            s[i].1,
        ) by {
            if i < s.len() - 1 {
                assert(front[i] == s[i]);
                assert(s[i].0 != s[s.len() - 1].0);
                assert(map_of(front).contains_pair(front[i].0, front[i].1));
            }
        }
        assert(!map_of(front).contains_key(s.last().0)) by {
            if map_of(front).contains_key(s.last().0) {
                let i = choose|i: int| 0 <= i < front.len() && #[trigger] front[i].0 == s.last().0;
                assert(s[i].0 != s[s.len() - 1].0);
            }
        }
        assert(map_of(s).dom() =~= map_of(front).dom().insert(s.last().0));
    }
}

/// Strictly ascending keys do not repeat.
pub proof fn lemma_sorted_distinct(s: Seq<Pair>)
    requires
        strictly_sorted(s),
    ensures
        distinct_keys(s),
{
    assert forall|i: int, j: int| #![trigger s[i], s[j]] 0 <= i < j < s.len() implies s[i].0
        != s[j].0 by {
        lemma_key_lt_asymmetric(s[i].0, s[j].0);
    }
}

/// A mapping has at most one listing by ascending key.
pub proof fn lemma_sorted_listing_unique(a: Seq<Pair>, b: Seq<Pair>)
    requires
        strictly_sorted(a),
        strictly_sorted(b),
        map_of(a) == map_of(b),
    ensures
        a == b,
    decreases a.len(),
{
    lemma_map_of_keys(a);
    lemma_map_of_keys(b);
    lemma_sorted_distinct(a);
    lemma_sorted_distinct(b);
    lemma_map_of_values(a);
    lemma_map_of_values(b);
    if a.len() == 0 {
        assert(a =~= b);
    } else {
        let (ka, va) = a.last();
        let (kb, vb) = b.last();
        assert(a[a.len() - 1].0 == ka);
        assert(b[b.len() - 1].0 == kb);
        assert(map_of(b).contains_key(ka));
        assert(map_of(a).contains_key(kb));
        let i = choose|i: int| 0 <= i < b.len() && #[trigger] b[i].0 == ka;
        let j = choose|j: int| 0 <= j < a.len() && #[trigger] a[j].0 == kb;
        assert(ka == kb) by {
            if i < b.len() - 1 && j < a.len() - 1 {
                assert(key_lt(b[i].0, b[b.len() - 1].0));
                assert(key_lt(a[j].0, a[a.len() - 1].0));
                lemma_key_lt_asymmetric(ka, kb);
            }
        }
        assert(map_of(a).contains_pair(a[a.len() - 1].0, a[a.len() - 1].1));
        assert(map_of(b).contains_pair(b[b.len() - 1].0, b[b.len() - 1].1));
        assert(va == vb);
        let fa = a.drop_last();
        let fb = b.drop_last();
        lemma_map_of_keys(fa);
        lemma_map_of_keys(fb);
        assert(!map_of(fa).contains_key(ka)) by {
            if map_of(fa).contains_key(ka) {
                let n = choose|n: int| 0 <= n < fa.len() && #[trigger] fa[n].0 == ka;
                assert(a[n].0 != a[a.len() - 1].0);
            }
        }
        assert(!map_of(fb).contains_key(kb)) by {
            if map_of(fb).contains_key(kb) {
                let n = choose|n: int| 0 <= n < fb.len() && #[trigger] fb[n].0 == kb;
                assert(b[n].0 != b[b.len() - 1].0);
            }
        }
        assert(map_of(fa) =~= map_of(a).remove(ka));
        assert(map_of(fb) =~= map_of(b).remove(kb));
        assert(strictly_sorted(fa)) by {
            assert forall|x: int, y: int| #![trigger fa[x], fa[y]]
                0 <= x < y < fa.len() implies key_lt(fa[x].0, fa[y].0) by {
                assert(key_lt(a[x].0, a[y].0));
            }
        }
        assert(strictly_sorted(fb)) by {
            assert forall|x: int, y: int| #![trigger fb[x], fb[y]]
                0 <= x < y < fb.len() implies key_lt(fb[x].0, fb[y].0) by {
                assert(key_lt(b[x].0, b[y].0));
            }
        }
        lemma_sorted_listing_unique(fa, fb);
        assert(a =~= fa.push(a.last()));
        assert(b =~= fb.push(b.last()));
    }
}

/// A listing by ascending key is the listing of its mapping.
pub proof fn lemma_sorted_entries_of(s: Seq<Pair>)
    requires
        strictly_sorted(s),
    ensures
        sorted_entries(map_of(s)) == s,
{
    let t = sorted_entries(map_of(s));
    assert(strictly_sorted(t) && map_of(t) == map_of(s));
    lemma_sorted_listing_unique(t, s);
}

/// A sequence without repeated keys stands for the mapping that holds exactly
/// its pairs.
pub proof fn lemma_map_of_is(s: Seq<Pair>, m: Map<Seq<char>, Seq<char>>)
    requires
        distinct_keys(s),
        forall|i: int| 0 <= i < s.len() ==> m.contains_pair(#[trigger] s[i].0, s[i].1),
        forall|k: Seq<char>| #[trigger]
            m.contains_key(k) ==> exists|i: int| 0 <= i < s.len() && #[trigger] s[i].0 == k,
    ensures
        map_of(s) == m,
{
    lemma_map_of_keys(s);
    lemma_map_of_values(s);
    assert forall|k: Seq<char>| map_of(s).contains_key(k) implies m.contains_key(k) by {
        let i = choose|i: int| 0 <= i < s.len() && #[trigger] s[i].0 == k;
        assert(m.contains_pair(s[i].0, s[i].1));
    }
    assert forall|k: Seq<char>| m.contains_key(k) implies #[trigger] map_of(s)[k] == m[k] by {
        let i = choose|i: int| 0 <= i < s.len() && #[trigger] s[i].0 == k;
        assert(m.contains_pair(s[i].0, s[i].1));
        assert(map_of(s).contains_pair(s[i].0, s[i].1));
    }
    assert(map_of(s) =~= m);
}

/// Putting a new key into an ascending listing at the place where it
/// belongs keeps the listing ascending and adds the pair to its mapping.
pub proof fn lemma_insert_at(before: Seq<Pair>, i: int, key: Seq<char>, value: Seq<char>)
    requires
        strictly_sorted(before),
        0 <= i <= before.len(),
        forall|j: int| 0 <= j < i ==> key_lt(#[trigger] before[j].0, key),
        forall|j: int| i <= j < before.len() ==> key_lt(key, #[trigger] before[j].0),
    ensures
        strictly_sorted(before.insert(i, (key, value))),
        map_of(before.insert(i, (key, value))) == map_of(before).insert(key, value),
        !map_of(before).contains_key(key),
{
    let after = before.insert(i, (key, value));
    let target = map_of(before).insert(key, value);
    lemma_sorted_distinct(before);
    lemma_map_of_keys(before);
    lemma_map_of_values(before);
    lemma_key_lt_irreflexive(key);
    assert(!map_of(before).contains_key(key)) by {
        if map_of(before).contains_key(key) {
            let n = choose|n: int| 0 <= n < before.len() && #[trigger] before[n].0 == key;
            assert(before[n].0 == key);
        }
    }
    assert(strictly_sorted(after)) by {
        assert forall|x: int, y: int| #![trigger after[x], after[y]]
            0 <= x < y < after.len() implies key_lt(after[x].0, after[y].0) by {
            if y < i {
                assert(key_lt(before[x].0, before[y].0));
            } else if y == i {
                assert(key_lt(before[x].0, key));
            } else if x < i {
                assert(key_lt(before[x].0, key));
                assert(key_lt(key, before[y - 1].0));
                lemma_key_lt_transitive(after[x].0, key, after[y].0);
            } else if x == i {
                assert(key_lt(key, before[y - 1].0));
            } else {
                assert(key_lt(before[x - 1].0, before[y - 1].0));
            }
        }
    }
    lemma_sorted_distinct(after);
    assert forall|n: int| 0 <= n < after.len() implies target.contains_pair(
        #[trigger] after[n].0,
        after[n].1,
    ) by {
        if n < i {
            assert(map_of(before).contains_pair(before[n].0, before[n].1));
        } else if n > i {
            assert(map_of(before).contains_pair(before[n - 1].0, before[n - 1].1));
        }
    }
    assert forall|k: Seq<char>| #[trigger] target.contains_key(k) implies exists|n: int|
        0 <= n < after.len() && #[trigger] after[n].0 == k by {
        if k == key {
            assert(after[i].0 == k);
        } else {
            let n = choose|n: int| 0 <= n < before.len() && #[trigger] before[n].0 == k;
            if n < i {
                assert(after[n].0 == k);
            } else {
                assert(after[n + 1].0 == k);
            }
        }
    }
    lemma_map_of_is(after, target);
}

/// Giving a key of an ascending listing a new value keeps the listing
/// ascending and changes that one pair of its mapping.
pub proof fn lemma_update_at(before: Seq<Pair>, i: int, value: Seq<char>)
    requires
        strictly_sorted(before),
        0 <= i < before.len(),
    ensures
        strictly_sorted(before.update(i, (before[i].0, value))),
        map_of(before.update(i, (before[i].0, value))) == map_of(before).insert(
            before[i].0,
            value,
        ),
        map_of(before).contains_pair(before[i].0, before[i].1),
{
    let key = before[i].0;
    let after = before.update(i, (key, value));
    let target = map_of(before).insert(key, value);
    lemma_sorted_distinct(before);
    lemma_map_of_keys(before);
    lemma_map_of_values(before);
    assert(map_of(before).contains_pair(before[i].0, before[i].1));
    assert(strictly_sorted(after)) by {
        assert forall|x: int, y: int| #![trigger after[x], after[y]]
            0 <= x < y < after.len() implies key_lt(after[x].0, after[y].0) by {
            assert(key_lt(before[x].0, before[y].0));
        }
    }
    lemma_sorted_distinct(after);
    assert forall|n: int| 0 <= n < after.len() implies target.contains_pair(
        #[trigger] after[n].0,
        after[n].1,
    ) by {
        if n != i {
            assert(map_of(before).contains_pair(before[n].0, before[n].1));
            if n < i {
                assert(before[n].0 != before[i].0);
            } else {
                assert(before[i].0 != before[n].0);
            }
        }
    }
    assert forall|k: Seq<char>| #[trigger] target.contains_key(k) implies exists|n: int|
        0 <= n < after.len() && #[trigger] after[n].0 == k by {
        if k == key {
            assert(after[i].0 == k);
        } else {
            let n = choose|n: int| 0 <= n < before.len() && #[trigger] before[n].0 == k;
            assert(after[n].0 == k);
        }
    }
    lemma_map_of_is(after, target);
}

/// Taking a pair out of an ascending listing keeps the listing ascending
/// and takes its key out of the mapping.
pub proof fn lemma_remove_at(before: Seq<Pair>, i: int)
    requires
        strictly_sorted(before),
        0 <= i < before.len(),
    ensures
        strictly_sorted(before.remove(i)),
        map_of(before.remove(i)) == map_of(before).remove(before[i].0),
{
    let after = before.remove(i);
    let target = map_of(before).remove(before[i].0);
    lemma_sorted_distinct(before);
    lemma_map_of_keys(before);
    lemma_map_of_values(before);
    assert(strictly_sorted(after)) by {
        assert forall|x: int, y: int| #![trigger after[x], after[y]]
            0 <= x < y < after.len() implies key_lt(after[x].0, after[y].0) by {
            let bx = if x < i { x } else { x + 1 };
            let by = if y < i { y } else { y + 1 };
            assert(key_lt(before[bx].0, before[by].0));
        }
    }
    lemma_sorted_distinct(after);
    assert forall|n: int| 0 <= n < after.len() implies target.contains_pair(
        #[trigger] after[n].0,
        after[n].1,
    ) by {
        let bn = if n < i { n } else { n + 1 };
        assert(map_of(before).contains_pair(before[bn].0, before[bn].1));
        if bn < i {
            assert(before[bn].0 != before[i].0);
        } else {
            assert(before[i].0 != before[bn].0);
        }
    }
    assert forall|k: Seq<char>| #[trigger] target.contains_key(k) implies exists|n: int|
        0 <= n < after.len() && #[trigger] after[n].0 == k by {
        let n = choose|n: int| 0 <= n < before.len() && #[trigger] before[n].0 == k;
        if n < i {
            assert(after[n].0 == k);
        } else {
            assert(after[n - 1].0 == k);
        }
    }
    lemma_map_of_is(after, target);
}

/// The number of keys of an ascending listing that come before `key`.
pub open spec fn place_of(s: Seq<Pair>, key: Seq<char>) -> int
    decreases s.len(),
{
    if s.len() == 0 {
        0
    } else if key_lt(s.last().0, key) {
        s.len() as int
    } else {
        place_of(s.drop_last(), key)
    }
}

/// In an ascending listing the keys before `place_of` come before `key`, and
/// no other does.
pub proof fn lemma_place_of(s: Seq<Pair>, key: Seq<char>)
    requires
        strictly_sorted(s),
    ensures
        0 <= place_of(s, key) <= s.len(),
        forall|j: int| 0 <= j < place_of(s, key) ==> key_lt(#[trigger] s[j].0, key),
        forall|j: int| place_of(s, key) <= j < s.len() ==> !key_lt(#[trigger] s[j].0, key),
    decreases s.len(),
{
    if s.len() > 0 {
        let front = s.drop_last();
        assert(strictly_sorted(front)) by {
            assert forall|x: int, y: int| #![trigger front[x], front[y]]
                0 <= x < y < front.len() implies key_lt(front[x].0, front[y].0) by {
                assert(key_lt(s[x].0, s[y].0));
            }
        }
        lemma_place_of(front, key);
        if key_lt(s.last().0, key) {
            assert forall|j: int| 0 <= j < s.len() implies key_lt(#[trigger] s[j].0, key) by {
                if j < s.len() - 1 {
                    assert(key_lt(s[j].0, s[s.len() - 1].0));
                    lemma_key_lt_transitive(s[j].0, s.last().0, key);
                }
            }
        } else {
            assert forall|j: int| place_of(s, key) <= j < s.len() implies !key_lt(
                #[trigger] s[j].0,
                key,
            ) by {
                if j < s.len() - 1 {
                    assert(front[j] == s[j]);
                }
            }
            assert forall|j: int| 0 <= j < place_of(s, key) implies key_lt(
                #[trigger] s[j].0,
                key,
            ) by {
                assert(front[j] == s[j]);
            }
        }
    }
}

/// Every mapping with finitely many keys has a listing by ascending key, and
/// `sorted_entries` is that listing.
pub proof fn lemma_sorted_entries(m: Map<Seq<char>, Seq<char>>)
    requires
        m.dom().finite(),
    ensures
        strictly_sorted(sorted_entries(m)),
        map_of(sorted_entries(m)) == m,
        sorted_entries(m).len() == m.len(),
    decreases m.len(),
{
    if m.len() == 0 {
        let empty = Seq::<Pair>::empty();
        assert(m.dom() =~= Set::empty());
        assert(map_of(empty) =~= m);
        assert(strictly_sorted(empty));
    } else {
        let key = m.dom().choose();
        let rest = m.remove(key);
        lemma_sorted_entries(rest);
        let before = sorted_entries(rest);
        lemma_map_of_keys(before);
        lemma_place_of(before, key);
        let i = place_of(before, key);
        assert forall|j: int| i <= j < before.len() implies key_lt(key, #[trigger] before[j].0) by {
            lemma_key_lt_total(before[j].0, key);
            assert(rest.contains_key(before[j].0));
        }
        lemma_insert_at(before, i, key, m[key]);
        let after = before.insert(i, (key, m[key]));
        assert(rest.insert(key, m[key]) =~= m);
        assert(strictly_sorted(after) && map_of(after) == m);
    }
    lemma_sorted_distinct(sorted_entries(m));
    lemma_map_of_values(sorted_entries(m));
}

/// Request parameters: string keys, each with one string value.
///
/// The pairs are held by ascending key, so that a set of parameters has one
/// representation whatever the order in which it was filled.
#[derive(Debug)]
pub struct Params {
    entries: Vec<(String, String)>,
}

impl View for Params {
    type V = Map<Seq<char>, Seq<char>>;

    closed spec fn view(&self) -> Map<Seq<char>, Seq<char>> {
        map_of(pairs_view(self.entries@))
    }
}

impl Clone for Params {
    fn clone(&self) -> (r: Params)
        ensures
            r@ == self@,
    {
        proof {
            use_type_invariant(self);
        }
        let mut entries: Vec<(String, String)> = Vec::new();
        let mut i: usize = 0;
        while i < self.entries.len()
            invariant
                i <= self.entries@.len(),
                pairs_view(entries@) == pairs_view(self.entries@).take(i as int),
            decreases self.entries@.len() - i,
        {
            let key = self.entries[i].0.clone();
            let value = self.entries[i].1.clone();
            let ghost copied = pairs_view(entries@);
            entries.push((key, value));
            proof {
                let all = pairs_view(self.entries@);
                assert(pairs_view(entries@) =~= copied.push((key@, value@)));
                assert(all.take(i + 1) =~= all.take(i as int).push(all[i as int]));
            }
            i += 1;
        }
        proof {
            assert(pairs_view(self.entries@).take(i as int) =~= pairs_view(self.entries@));
        }
        Params { entries }
    }
}

impl Params {
    #[verifier::type_invariant]
    spec fn ascending(&self) -> bool {
        strictly_sorted(pairs_view(self.entries@))
    }

    /// Parameters are finitely many.
    pub proof fn lemma_finite(self)
        ensures
            self@.dom().finite(),
    {
        lemma_map_of_keys(pairs_view(self.entries@));
    }

    /// An empty set of parameters.
    pub fn new() -> (r: Params)
        ensures
            r@ == Map::<Seq<char>, Seq<char>>::empty(),
    {
        Params { entries: Vec::new() }
    }

    /// The number of parameters.
    pub fn len(&self) -> (n: usize)
        ensures
            n == self@.len(),
    {
        proof {
            use_type_invariant(self);
            lemma_sorted_distinct(pairs_view(self.entries@));
            lemma_map_of_values(pairs_view(self.entries@));
        }
        self.entries.len()
    }

    /// Whether there is no parameter.
    pub fn is_empty(&self) -> (r: bool)
        ensures
            r == (self@.len() == 0),
    {
        self.len() == 0
    }

    /// The first place whose key does not come before `key`, and whether the
    /// key at that place is `key`.
    fn locate(&self, key: &str) -> (r: (usize, bool))
        ensures
            r.0 <= self.entries@.len(),
            forall|j: int| 0 <= j < r.0 ==> key_lt(#[trigger] self.entries@[j].0@, key@),
            r.1 ==> r.0 < self.entries@.len() && self.entries@[r.0 as int].0@ == key@,
            !r.1 ==> forall|j: int|
                r.0 <= j < self.entries@.len() ==> key_lt(key@, #[trigger] self.entries@[j].0@),
    {
        proof {
            use_type_invariant(self);
        }
        let ghost listing = pairs_view(self.entries@);
        let mut i: usize = 0;
        while i < self.entries.len()
            invariant
                i <= self.entries@.len(),
                listing == pairs_view(self.entries@),
                strictly_sorted(listing),
                forall|j: int| 0 <= j < i ==> key_lt(#[trigger] self.entries@[j].0@, key@),
            decreases self.entries@.len() - i,
        {
            match key_rank(key, self.entries[i].0.as_str()) {
                Rank::Before => {
                    proof {
                        assert forall|j: int| i <= j < self.entries@.len() implies key_lt(
                            key@,
                            #[trigger] self.entries@[j].0@,
                        ) by {
                            if i < j {
                                assert(key_lt(listing[i as int].0, listing[j].0));
                                lemma_key_lt_transitive(
                                    key@,
                                    self.entries@[i as int].0@,
                                    self.entries@[j].0@,
                                );
                            }
                        }
                    }
                    return (i, false);
                },
                Rank::Same => {
                    return (i, true);
                },
                Rank::After => {},
            }
            i += 1;
        }
        (i, false)
    }

    /// The value stored under `key`, if there is one.
    pub fn get(&self, key: &str) -> (r: Option<&String>)
        ensures
            match r {
                Some(v) => self@.contains_key(key@) && v@ == self@[key@],
                None => !self@.contains_key(key@),
            },
    {
        let (i, found) = self.locate(key);
        proof {
            use_type_invariant(self);
            let listing = pairs_view(self.entries@);
            lemma_sorted_distinct(listing);
            lemma_map_of_keys(listing);
            lemma_map_of_values(listing);
            if found {
                assert(listing[i as int].0 == key@);
                assert(self@.contains_pair(listing[i as int].0, listing[i as int].1));
            } else if self@.contains_key(key@) {
                let j = choose|j: int| 0 <= j < listing.len() && #[trigger] listing[j].0 == key@;
                lemma_key_lt_irreflexive(key@);
                assert(self.entries@[j].0@ == key@);
            }
        }
        if found {
            Some(&self.entries[i].1)
        } else {
            None
        }
    }

    /// Whether a value is stored under `key`.
    pub fn contains_key(&self, key: &str) -> (r: bool)
        ensures
            r == self@.contains_key(key@),
    {
        self.get(key).is_some()
    }

    /// Stores `value` under `key` and returns the value that was there before.
    pub fn insert(&mut self, key: String, value: String) -> (previous: Option<String>)
        ensures
            final(self)@ == old(self)@.insert(key@, value@),
            match previous {
                Some(v) => old(self)@.contains_key(key@) && v@ == old(self)@[key@],
                None => !old(self)@.contains_key(key@),
            },
    {
        let (i, found) = self.locate(key.as_str());
        let ghost before = pairs_view(self.entries@);
        let mut entries: Vec<(String, String)> = Vec::new();
        proof {
            use_type_invariant(&*self);
        }
        if found {
            let previous = self.entries[i].1.clone();
            proof {
                lemma_update_at(before, i as int, value@);
                assert(pairs_view(self.entries@.update(i as int, (key, value)))
                    =~= before.update(i as int, (key@, value@)));
            }
            core::mem::swap(&mut self.entries, &mut entries);
            entries.set(i, (key, value));
            self.entries = entries;
            Some(previous)
        } else {
            proof {
                lemma_insert_at(before, i as int, key@, value@);
                assert(pairs_view(self.entries@.insert(i as int, (key, value)))
                    =~= before.insert(i as int, (key@, value@)));
            }
            core::mem::swap(&mut self.entries, &mut entries);
            entries.insert(i, (key, value));
            self.entries = entries;
            None
        }
    }

    /// The pairs by ascending key.
    pub fn entries(&self) -> (r: &Vec<(String, String)>)
        ensures
            pairs_view(r@) == sorted_entries(self@),
            strictly_sorted(pairs_view(r@)),
            map_of(pairs_view(r@)) == self@,
    {
        proof {
            use_type_invariant(self);
            lemma_sorted_entries_of(pairs_view(self.entries@));
        }
        &self.entries
    }

    /// The parameters that result from storing the given pairs one after the
    /// other; of two pairs with the same key the later one stays.
    pub fn from_pairs(pairs: &[(String, String)]) -> (r: Params)
        ensures
            r@ == map_of(pairs_view(pairs@)),
    {
        let mut r = Params::new();
        let mut i: usize = 0;
        while i < pairs.len()
            invariant
                i <= pairs@.len(),
                r@ == map_of(pairs_view(pairs@).take(i as int)),
            decreases pairs@.len() - i,
        {
            let key = pairs[i].0.clone();
            let value = pairs[i].1.clone();
            proof {
                let all = pairs_view(pairs@);
                assert(all.take(i + 1).drop_last() =~= all.take(i as int));
                assert(all.take(i + 1).last() == (key@, value@));
            }
            r.insert(key, value);
            i += 1;
        }
        proof {
            assert(pairs_view(pairs@).take(i as int) =~= pairs_view(pairs@));
        }
        r
    }
}

} // verus!
