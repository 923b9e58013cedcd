//! The flat variant of the visited-domain store: a sharded collection of
//! domain strings with set semantics.  `insert` reports whether the domain
//! was new, which is the admission decision the crawl scheduler relies on.

use vstd::prelude::*;
use vstd::seq_lib::*;
use vstd::set_lib::*;
use crate::shard::spec_shard_of;
use crate::shard::shard_of;

verus! {

/// All domains held by a sequence of shards, as one set.
pub open spec fn domains_of(shards: Seq<Seq<Seq<char>>>) -> Set<Seq<char>>
    decreases shards.len(),
{
    if shards.len() == 0 {
        Set::empty()
    } else {
        domains_of(shards.drop_last()) + shards.last().to_set()
    }
}

/// Total number of entries across all shards.
pub open spec fn total_len(shards: Seq<Seq<Seq<char>>>) -> int
    decreases shards.len(),
{
    if shards.len() == 0 {
        0
    } else {
        total_len(shards.drop_last()) + shards.last().len()
    }
}

/// Every entry sits in the shard its hash selects, and no shard holds a
/// domain twice.  `count` is the shard count the hash is reduced by.
pub open spec fn shards_wf(shards: Seq<Seq<Seq<char>>>, count: int) -> bool {
    &&& forall|s: int, i: int|
        0 <= s < shards.len() && 0 <= i < shards[s].len() ==> spec_shard_of(
            #[trigger] shards[s][i],
            count,
        ) == s
    &&& forall|s: int| 0 <= s < shards.len() ==> (#[trigger] shards[s]).no_duplicates()
}

pub proof fn lemma_domains_of_finite(shards: Seq<Seq<Seq<char>>>)
    ensures
        domains_of(shards).finite(),
    decreases shards.len(),
{
    if shards.len() > 0 {
        lemma_domains_of_finite(shards.drop_last());
        seq_to_set_is_finite(shards.last());
    }
}

/// A domain is in the union of the shards exactly when some shard holds it.
pub proof fn lemma_domains_of_member(shards: Seq<Seq<Seq<char>>>, d: Seq<char>)
    ensures
        domains_of(shards).contains(d) <==> exists|s: int|
            0 <= s < shards.len() && (#[trigger] shards[s]).contains(d),
    decreases shards.len(),
{
    if shards.len() > 0 {
        let prefix = shards.drop_last();
        lemma_domains_of_member(prefix, d);
        if domains_of(shards).contains(d) {
            if domains_of(prefix).contains(d) {
                let s = choose|s: int| 0 <= s < prefix.len() && (#[trigger] prefix[s]).contains(d);
                assert(shards[s].contains(d));
            } else {
                assert(shards.last().to_set().contains(d));
                assert(shards[shards.len() - 1].contains(d));
            }
        }
        if exists|s: int| 0 <= s < shards.len() && (#[trigger] shards[s]).contains(d) {
            let s = choose|s: int| 0 <= s < shards.len() && (#[trigger] shards[s]).contains(d);
            if s < shards.len() - 1 {
                assert(prefix[s].contains(d));
            } else {
                assert(shards.last().to_set().contains(d));
            }
        }
    }
}

/// Under the sharding invariant the shards hold pairwise different domains,
/// so the size of the union is the sum of the shard sizes.
pub proof fn lemma_domains_of_len(shards: Seq<Seq<Seq<char>>>, count: int)
    requires
        shards_wf(shards, count),
        shards.len() <= count,
    ensures
        domains_of(shards).len() == total_len(shards),
    decreases shards.len(),
{
    if shards.len() > 0 {
        let prefix = shards.drop_last();
        let last = shards.last();
        assert(shards_wf(prefix, count)) by {
            assert(forall|s: int, i: int|
                0 <= s < prefix.len() && 0 <= i < prefix[s].len() ==> spec_shard_of(
                    #[trigger] prefix[s][i],
                    count,
                ) == s) by {
                assert(forall|s: int| 0 <= s < prefix.len() ==> prefix[s] == shards[s]);
            }
        }
        lemma_domains_of_len(prefix, count);
        lemma_domains_of_finite(prefix);
        last.unique_seq_to_set();
        assert(domains_of(prefix).disjoint(last.to_set())) by {
            assert forall|d: Seq<char>|
                domains_of(prefix).contains(d) && last.to_set().contains(d) implies false by {
                lemma_domains_of_member(prefix, d);
                let s = choose|s: int| 0 <= s < prefix.len() && (#[trigger] prefix[s]).contains(d);
                let i = choose|i: int| 0 <= i < prefix[s].len() && prefix[s][i] == d;
                assert(spec_shard_of(d, count) == s);
                let j = choose|j: int| 0 <= j < last.len() && last[j] == d;
                assert(spec_shard_of(shards[shards.len() - 1][j], count) == shards.len() - 1);
            }
        }
        lemma_set_disjoint_lens(domains_of(prefix), last.to_set());
    }
}

/// Extending one shard with a fresh entry adds exactly that domain to the
/// union of the shards.
pub proof fn lemma_domains_of_update_push(shards: Seq<Seq<Seq<char>>>, s: int, d: Seq<char>)
    requires
        0 <= s < shards.len(),
    ensures
        domains_of(shards.update(s, shards[s].push(d))) =~= domains_of(shards).insert(d),
    decreases shards.len(),
{
    let updated = shards.update(s, shards[s].push(d));
    if s == shards.len() - 1 {
        assert(updated.drop_last() =~= shards.drop_last());
        assert(updated.last() == shards[s].push(d));
        assert(shards[s].push(d).to_set() =~= shards[s].to_set().insert(d)) by {
            assert forall|x: Seq<char>| #[trigger]
                shards[s].push(d).contains(x) implies shards[s].contains(x) || x == d by {
                let i = choose|i: int| 0 <= i < shards[s].push(d).len() && shards[s].push(d)[i] == x;
                if i < shards[s].len() {
                    assert(shards[s][i] == x);
                }
            }
            assert forall|x: Seq<char>| shards[s].contains(x) implies shards[s].push(d).contains(
                x,
            ) by {
                let i = choose|i: int| 0 <= i < shards[s].len() && shards[s][i] == x;
                assert(shards[s].push(d)[i] == x);
            }
            assert(shards[s].push(d)[shards[s].len() as int] == d);
        }
        assert(shards.last() == shards[s]);
    } else {
        assert(updated.drop_last() =~= shards.drop_last().update(s, shards[s].push(d)));
        assert(shards.drop_last()[s] == shards[s]);
        lemma_domains_of_update_push(shards.drop_last(), s, d);
        assert(updated.last() == shards.last());
    }
}

/// The flat visited-domain store: domain strings, sharded by hash.
pub struct History {
    shards: Vec<Vec<String>>,
}

impl View for History {
    type V = Set<Seq<char>>;

    closed spec fn view(&self) -> Set<Seq<char>> {
        domains_of(self.shard_views())
    }
}

impl History {
    /// The shards' contents as sequences of domain names.
    pub closed spec fn shard_views(&self) -> Seq<Seq<Seq<char>>> {
        self.shards@.map_values(|sh: Vec<String>| sh@.map_values(|d: String| d@))
    }

    /// Number of shards, fixed at construction.
    pub closed spec fn shard_count(&self) -> int {
        self.shards@.len() as int
    }

    /// Structural invariant: at least one shard, and each domain sits,
    /// once, in the shard its hash selects.
    pub open spec fn wf(&self) -> bool {
        &&& self.shard_count() >= 1
        &&& self.shard_count() <= usize::MAX
        &&& shards_wf(self.shard_views(), self.shard_count())
    }

    /// Create an empty store with `num_shards` independent shards.
    pub fn new(num_shards: u64) -> (h: History)
        requires
            1 <= num_shards <= usize::MAX,
        ensures
            h.wf(),
            h.shard_count() == num_shards,
            h@ == Set::<Seq<char>>::empty(),
    {
        let n = num_shards as usize;
        let mut shards: Vec<Vec<String>> = Vec::new();
        while shards.len() < n
            invariant
                shards@.len() <= n,
                forall|s: int| 0 <= s < shards@.len() ==> (#[trigger] shards@[s])@.len() == 0,
            decreases n - shards.len(),
        {
            shards.push(Vec::new());
        }
        let h = History { shards };
        proof {
            lemma_domains_of_all_empty(h.shard_views());
            assert(h@ =~= Set::<Seq<char>>::empty());
        }
        h
    }

    /// True exactly when the domain was previously recorded.
    pub fn contains(&self, val: String) -> (r: bool)
        requires
            self.wf(),
        ensures
            r == self@.contains(val@),
    {
        let idx = shard_of(val.as_str(), self.shards.len());
        let sh: &Vec<String> = &self.shards[idx];
        let ghost shv = self.shard_views()[idx as int];
        let mut j: usize = 0;
        while j < sh.len()
            invariant
                self.wf(),
                idx < self.shards@.len(),
                sh == &self.shards@[idx as int],
                shv == self.shard_views()[idx as int],
                j <= sh@.len(),
                shv.len() == sh@.len(),
                forall|k: int| 0 <= k < j ==> shv[k] != val@,
            decreases sh.len() - j,
        {
            if sh[j] == val {
                proof {
                    assert(shv[j as int] == val@);
                    lemma_domains_of_member(self.shard_views(), val@);
                }
                return true;
            }
            j += 1;
        }
        proof {
            lemma_domains_of_member(self.shard_views(), val@);
            if self@.contains(val@) {
                let s = choose|s: int|
                    0 <= s < self.shard_views().len() && (#[trigger] self.shard_views()[s]).contains(
                        val@,
                    );
                let i = choose|i: int|
                    0 <= i < self.shard_views()[s].len() && self.shard_views()[s][i] == val@;
                assert(spec_shard_of(val@, self.shard_count()) == s);
            }
        }
        false
    }

    /// Record a domain.  Reports true exactly when it was not yet present,
    /// in which case it is now; a domain once recorded is never lost.
    pub fn insert(&mut self, val: String) -> (r: bool)
        requires
            old(self).wf(),
        ensures
            final(self).wf(),
            final(self).shard_count() == old(self).shard_count(),
            r == !old(self)@.contains(val@),
            final(self)@ == old(self)@.insert(val@),
    {
        let idx = shard_of(val.as_str(), self.shards.len());
        let ghost shv = self.shard_views()[idx as int];
        let mut j: usize = 0;
        let n = self.shards[idx].len();
        while j < n
            invariant
                self.wf(),
                idx < self.shards@.len(),
                n == self.shards@[idx as int]@.len(),
                shv == self.shard_views()[idx as int],
                j <= n,
                shv.len() == n,
                forall|k: int| 0 <= k < j ==> shv[k] != val@,
            decreases n - j,
        {
            if self.shards[idx][j] == val {
                proof {
                    assert(shv[j as int] == val@);
                    lemma_domains_of_member(self.shard_views(), val@);
                    assert(self@.contains(val@));
                    assert(self@ =~= self@.insert(val@));
                }
                return false;
            }
            j += 1;
        }
        proof {
            lemma_domains_of_member(old(self).shard_views(), val@);
            if old(self)@.contains(val@) {
                let s = choose|s: int|
                    0 <= s < old(self).shard_views().len() && (#[trigger] old(
                        self,
                    ).shard_views()[s]).contains(val@);
                let i = choose|i: int|
                    0 <= i < old(self).shard_views()[s].len() && old(self).shard_views()[s][i]
                        == val@;
                assert(spec_shard_of(val@, old(self).shard_count()) == s);
            }
        }
        let ghost pre = self.shard_views();
        self.shards[idx].push(val);
        proof {
            assert(self.shard_views() =~~= pre.update(idx as int, pre[idx as int].push(val@)));
            lemma_domains_of_update_push(pre, idx as int, val@);
            assert(final(self)@ =~= old(self)@.insert(val@));
            assert forall|s: int| 0 <= s < self.shard_views().len() implies (
            #[trigger] self.shard_views()[s]).no_duplicates() by {
                if s == idx {
                    assert(forall|k: int| 0 <= k < shv.len() ==> shv[k] != val@);
                }
            }
        }
        true
    }

    /// Total number of distinct domains recorded, summed shard by shard.
    pub fn len(&self) -> (n: usize)
        requires
            self.wf(),
            self@.len() <= usize::MAX,
        ensures
            n == self@.len(),
    {
        let count = self.shards.len();
        let mut total: usize = 0;
        proof {
            lemma_domains_of_len(self.shard_views(), self.shard_count());
            assert(self.shard_views().take(0) =~= Seq::empty());
        }
        for i in 0..count
            invariant
                self.wf(),
                count == self.shards@.len(),
                total == total_len(self.shard_views().take(i as int)),
                total_len(self.shard_views()) == self@.len(),
                self@.len() <= usize::MAX,
        {
            proof {
                lemma_total_len_take_step(self.shard_views(), i as int);
                lemma_total_len_prefix_bound(self.shard_views(), i + 1);
            }
            total += self.shards[i].len();
        }
        proof {
            assert(self.shard_views().take(count as int) =~= self.shard_views());
        }
        total
    }
}

/// The union of all-empty shards is empty.
proof fn lemma_domains_of_all_empty(shards: Seq<Seq<Seq<char>>>)
    requires
        forall|s: int| 0 <= s < shards.len() ==> (#[trigger] shards[s]).len() == 0,
    ensures
        domains_of(shards) =~= Set::empty(),
    decreases shards.len(),
{
    if shards.len() > 0 {
        lemma_domains_of_all_empty(shards.drop_last());
    }
}

/// One more shard adds its length to the running total.
pub proof fn lemma_total_len_take_step(shards: Seq<Seq<Seq<char>>>, i: int)
    requires
        0 <= i < shards.len(),
    ensures
        total_len(shards.take(i + 1)) == total_len(shards.take(i)) + shards[i].len(),
{
    assert(shards.take(i + 1).drop_last() =~= shards.take(i));
    assert(shards.take(i + 1).last() == shards[i]);
}

/// A prefix never holds more entries than the whole.
pub proof fn lemma_total_len_prefix_bound(shards: Seq<Seq<Seq<char>>>, i: int)
    requires
        0 <= i <= shards.len(),
    ensures
        total_len(shards.take(i)) <= total_len(shards),
    decreases shards.len() - i,
{
    if i == shards.len() {
        assert(shards.take(i) =~= shards);
    } else {
        lemma_total_len_take_step(shards, i);
        lemma_total_len_prefix_bound(shards, i + 1);
        lemma_total_len_nonneg(shards.take(i));
        lemma_total_len_nonneg(shards.take(i + 1));
    }
}

/// Entry counts are never negative.
proof fn lemma_total_len_nonneg(shards: Seq<Seq<Seq<char>>>)
    ensures
        total_len(shards) >= 0,
    decreases shards.len(),
{
    if shards.len() > 0 {
        lemma_total_len_nonneg(shards.drop_last());
    }
}

/// A domain just recorded is reported present by every later lookup, and
/// recording further domains never removes it.
pub proof fn lemma_recorded_domain_persists(s: Set<Seq<char>>, d: Seq<char>, e: Seq<char>)
    ensures
        s.insert(d).contains(d),
        s.contains(d) ==> s.insert(e).contains(d),
{
}

/// Two insertions of one domain, serialized one after the other, report
/// `!s.contains(d)` and `!s.insert(d).contains(d)` respectively.  The
/// second report is always false: once the first insertion has recorded
/// the domain, no later insertion of it is reported as new, so of any
/// serialized run of insertions of an absent domain exactly the first
/// admits it.
pub proof fn lemma_insert_admits_once(s: Set<Seq<char>>, d: Seq<char>)
    ensures
        !s.insert(d).contains(d) == false,
{
}

/// The store contents after a sequence of domains is inserted into `s`,
/// in order.
pub open spec fn after_inserts(s: Set<Seq<char>>, domains: Seq<Seq<char>>) -> Set<Seq<char>>
    decreases domains.len(),
{
    if domains.len() == 0 {
        s
    } else {
        after_inserts(s, domains.drop_last()).insert(domains.last())
    }
}

proof fn lemma_after_inserts_to_set(domains: Seq<Seq<char>>)
    ensures
        after_inserts(Set::empty(), domains) =~= domains.to_set(),
    decreases domains.len(),
{
    if domains.len() > 0 {
        let prefix = domains.drop_last();
        lemma_after_inserts_to_set(prefix);
        assert forall|x: Seq<char>| #[trigger]
            domains.to_set().contains(x) implies prefix.to_set().insert(
            domains.last(),
        ).contains(x) by {
            let i = choose|i: int| 0 <= i < domains.len() && domains[i] == x;
            if i < domains.len() - 1 {
                assert(prefix[i] == x);
                assert(prefix.to_set().contains(x));
            }
        }
        assert forall|x: Seq<char>|
            prefix.to_set().insert(domains.last()).contains(x) implies domains.to_set().contains(
            x,
        ) by {
            if prefix.to_set().contains(x) {
                let i = choose|i: int| 0 <= i < prefix.len() && prefix[i] == x;
                assert(domains[i] == x);
            } else {
                assert(domains[domains.len() - 1] == x);
            }
        }
    }
}

/// Starting from an empty store, inserting any number of pairwise
/// distinct domains leaves the store counting exactly that number.  The
/// store's model does not mention the shard count, so the count is the
/// same whatever the sharding.
pub proof fn lemma_distinct_inserts_count(domains: Seq<Seq<char>>)
    requires
        domains.no_duplicates(),
    ensures
        after_inserts(Set::empty(), domains).len() == domains.len(),
{
    lemma_after_inserts_to_set(domains);
    domains.unique_seq_to_set();
}

/// Recording a fresh domain grows the count by one; recording a domain
/// already present leaves the count unchanged.
pub proof fn lemma_size_counts_distinct(s: Set<Seq<char>>, d: Seq<char>)
    requires
        s.finite(),
    ensures
        !s.contains(d) ==> s.insert(d).len() == s.len() + 1,
        s.contains(d) ==> s.insert(d).len() == s.len(),
{
    if s.contains(d) {
        assert(s.insert(d) =~= s);
    }
}

} // verus!
