use std::collections::HashMap;
use vstd::multiset::Multiset;
use vstd::prelude::*;

verus! {

broadcast use vstd::std_specs::hash::group_hash_axioms;

/// One completed hash: the fingerprint of a file and its path.
pub type OutcomeView = (u64, Seq<char>);

/// The groups in order of first arrival: a fingerprint and its paths in arrival order.
pub type GroupsView = Seq<(u64, Seq<Seq<char>>)>;

/// Whether some group is keyed by `k`.
pub open spec fn has_key(gs: GroupsView, k: u64) -> bool {
    exists|i: int| 0 <= i < gs.len() && gs[i].0 == k
}

/// No two groups share a fingerprint.
pub open spec fn keys_unique(gs: GroupsView) -> bool {
    forall|i: int, j: int| 0 <= i < gs.len() && 0 <= j < gs.len() && i != j ==> gs[i].0 != gs[j].0
}

/// The position of the group keyed by `k`, where there is one.
pub open spec fn key_index(gs: GroupsView, k: u64) -> int {
    choose|i: int| 0 <= i < gs.len() && gs[i].0 == k
}

/// The groups after one more outcome: appended to the tail of its fingerprint's
/// group, or opening a new singleton group at the end.
pub open spec fn add_outcome(gs: GroupsView, k: u64, p: Seq<char>) -> GroupsView {
    if has_key(gs, k) {
        let i = key_index(gs, k);
        gs.update(i, (k, gs[i].1.push(p)))
    } else {
        gs.push((k, seq![p]))
    }
}

/// The groups that a sequence of outcomes, applied one at a time, yields.
pub open spec fn aggregate(s: Seq<OutcomeView>) -> GroupsView
    decreases s.len(),
{
    if s.len() == 0 {
        Seq::empty()
    } else {
        add_outcome(aggregate(s.drop_last()), s.last().0, s.last().1)
    }
}

/// The sum of `w` over the sizes of the groups.
pub open spec fn weigh(gs: GroupsView, w: spec_fn(nat) -> nat) -> nat
    decreases gs.len(),
{
    if gs.len() == 0 {
        0
    } else {
        weigh(gs.drop_last(), w) + w(gs.last().1.len())
    }
}

/// Counts every member.
pub open spec fn by_size() -> spec_fn(nat) -> nat {
    |n: nat| n
}

/// Counts one for each group of two or more members.
pub open spec fn one_per_duplicate_set() -> spec_fn(nat) -> nat {
    |n: nat|
        if n >= 2 {
            1nat
        } else {
            0nat
        }
}

/// Counts the members of groups of two or more.
pub open spec fn size_of_duplicate_set() -> spec_fn(nat) -> nat {
    |n: nat|
        if n >= 2 {
            n
        } else {
            0nat
        }
}

/// Total number of paths over all groups.
pub open spec fn total_paths(gs: GroupsView) -> nat {
    weigh(gs, by_size())
}

/// Number of groups with two or more members.
pub open spec fn duplicate_group_count(gs: GroupsView) -> nat {
    weigh(gs, one_per_duplicate_set())
}

/// Number of paths that belong to groups of two or more.
pub open spec fn duplicate_path_count(gs: GroupsView) -> nat {
    weigh(gs, size_of_duplicate_set())
}

/// The paths of the outcomes with fingerprint `k`, in order.
pub open spec fn paths_with(s: Seq<OutcomeView>, k: u64) -> Seq<Seq<char>>
    decreases s.len(),
{
    if s.len() == 0 {
        Seq::empty()
    } else if s.last().0 == k {
        paths_with(s.drop_last(), k).push(s.last().1)
    } else {
        paths_with(s.drop_last(), k)
    }
}

/// Replacing one group changes a weighted sum by the difference of its weights.
proof fn lemma_weigh_update(gs: GroupsView, i: int, g: (u64, Seq<Seq<char>>), w: spec_fn(nat) -> nat)
    requires
        0 <= i < gs.len(),
    ensures
        weigh(gs.update(i, g), w) + w(gs[i].1.len()) == weigh(gs, w) + w(g.1.len()),
    decreases gs.len(),
{
    let u = gs.update(i, g);
    if i == gs.len() - 1 {
        assert(u.drop_last() =~= gs.drop_last());
    } else {
        assert(u.drop_last() =~= gs.drop_last().update(i, g));
        lemma_weigh_update(gs.drop_last(), i, g, w);
    }
}

/// A pointwise smaller weight gives a smaller sum.
proof fn lemma_weigh_mono(gs: GroupsView, w1: spec_fn(nat) -> nat, w2: spec_fn(nat) -> nat)
    requires
        forall|n: nat| #[trigger] w1(n) <= w2(n),
    ensures
        weigh(gs, w1) <= weigh(gs, w2),
    decreases gs.len(),
{
    if gs.len() > 0 {
        lemma_weigh_mono(gs.drop_last(), w1, w2);
    }
}

/// A fingerprint and the paths that produced it, in order of arrival.
pub struct Group {
    pub fingerprint: u64,
    pub paths: Vec<String>,
}

impl View for Group {
    type V = (u64, Seq<Seq<char>>);

    open spec fn view(&self) -> (u64, Seq<Seq<char>>) {
        (self.fingerprint, self.paths@.map_values(|s: String| s@))
    }
}

impl Group {
    /// Whether two or more paths share this fingerprint.
    pub fn is_duplicate_set(&self) -> (r: bool)
        ensures
            r == (self@.1.len() >= 2),
    {
        self.paths.len() >= 2
    }
}

/// The counters that the output stage reports beside the groups.
pub struct Summary {
    pub files_hashed: usize,
    pub unique_fingerprints: usize,
    pub duplicate_groups: usize,
    pub duplicate_files: usize,
}

/// The single-owner map from fingerprint to the ordered list of paths that
/// share it, with the summary counters kept up to date.
pub struct Aggregator {
    groups: Vec<Group>,
    index: HashMap<u64, usize>,
    files: usize,
    dup_groups: usize,
    dup_files: usize,
}

impl View for Aggregator {
    type V = GroupsView;

    closed spec fn view(&self) -> GroupsView {
        self.groups@.map_values(|g: Group| g@)
    }
}

impl Aggregator {
    pub closed spec fn wf(&self) -> bool {
        &&& keys_unique(self@)
        &&& forall|i: int| 0 <= i < self@.len() ==> #[trigger] self@[i].1.len() > 0
        &&& forall|k: u64| #[trigger] self.index@.contains_key(k) <==> has_key(self@, k)
        &&& forall|k: u64|
            #[trigger] self.index@.contains_key(k) ==> self.index@[k] < self.groups@.len()
                && self@[self.index@[k] as int].0 == k
        &&& self.files == total_paths(self@)
        &&& self.dup_groups == duplicate_group_count(self@)
        &&& self.dup_files == duplicate_path_count(self@)
    }

    /// The empty map: no groups, every counter zero.
    pub fn new() -> (a: Aggregator)
        ensures
            a.wf(),
            a@ == Seq::<(u64, Seq<Seq<char>>)>::empty(),
    {
        let a = Aggregator {
            groups: Vec::new(),
            index: HashMap::new(),
            files: 0,
            dup_groups: 0,
            dup_files: 0,
        };
        assert(a@ =~= Seq::<(u64, Seq<Seq<char>>)>::empty());
        a
    }

    /// Adds one completed hash: appended to the tail of the group of its
    /// fingerprint, or a new singleton group when the fingerprint is new.
    pub fn record(&mut self, fingerprint: u64, path: String)
        requires
            old(self).wf(),
            total_paths(old(self)@) < usize::MAX,
        ensures
            final(self).wf(),
            final(self)@ == add_outcome(old(self)@, fingerprint, path@),
            total_paths(final(self)@) == total_paths(old(self)@) + 1,
    {
        let ghost gs = self@;
        let ghost p = path@;
        let found = self.index.get(&fingerprint);
        match found {
            Some(ir) => {
                let i = *ir;
                proof {
                    assert(has_key(gs, fingerprint));
                    assert(key_index(gs, fingerprint) == i as int);
                }
                let old_len = self.groups[i].paths.len();
                self.groups[i].paths.push(path);
                let ghost ng = (fingerprint, gs[i as int].1.push(p));
                proof {
                    assert(self.groups@[i as int]@.1 =~= ng.1);
                    assert(self@ =~= gs.update(i as int, ng));
                    lemma_weigh_update(gs, i as int, ng, by_size());
                    lemma_weigh_update(gs, i as int, ng, one_per_duplicate_set());
                    lemma_weigh_update(gs, i as int, ng, size_of_duplicate_set());
                    lemma_weigh_mono(self@, size_of_duplicate_set(), by_size());
                    lemma_weigh_mono(self@, one_per_duplicate_set(), by_size());
                }
                self.files = self.files + 1;
                if old_len == 1 {
                    self.dup_groups = self.dup_groups + 1;
                    self.dup_files = self.dup_files + 2;
                } else {
                    self.dup_files = self.dup_files + 1;
                }
                proof {
                    assert forall|k: u64| #[trigger] self.index@.contains_key(k) <==> has_key(
                        self@,
                        k,
                    ) by {
                        if has_key(gs, k) {
                            let j = choose|j: int| 0 <= j < gs.len() && gs[j].0 == k;
                            assert(self@[j].0 == k);
                        }
                        if has_key(self@, k) {
                            let j = choose|j: int| 0 <= j < self@.len() && self@[j].0 == k;
                            assert(gs[j].0 == k);
                        }
                    }
                }
            },
            None => {
                let n = self.groups.len();
                let mut paths: Vec<String> = Vec::new();
                paths.push(path);
                self.index.insert(fingerprint, n);
                self.groups.push(Group { fingerprint, paths });
                let ghost ng = (fingerprint, seq![p]);
                proof {
                    assert(!has_key(gs, fingerprint));
                    assert(self.groups@[n as int]@.1 =~= seq![p]);
                    assert(self@ =~= gs.push(ng));
                    assert(self@.drop_last() =~= gs);
                    lemma_weigh_mono(self@, size_of_duplicate_set(), by_size());
                    lemma_weigh_mono(self@, one_per_duplicate_set(), by_size());
                }
                self.files = self.files + 1;
                proof {
                    assert forall|k: u64| #[trigger] self.index@.contains_key(k) <==> has_key(
                        self@,
                        k,
                    ) by {
                        if has_key(gs, k) {
                            let j = choose|j: int| 0 <= j < gs.len() && gs[j].0 == k;
                            assert(self@[j].0 == k);
                        }
                        if has_key(self@, k) && k != fingerprint {
                            let j = choose|j: int| 0 <= j < self@.len() && self@[j].0 == k;
                            assert(gs[j].0 == k);
                        }
                        if k == fingerprint {
                            assert(self@[n as int].0 == k);
                        }
                    }
                }
            },
        }
    }

    /// Total number of paths hashed into the map.
    pub fn files_hashed(&self) -> (r: usize)
        requires
            self.wf(),
        ensures
            r == total_paths(self@),
    {
        self.files
    }

    /// Number of distinct fingerprints, one per group.
    pub fn unique_fingerprints(&self) -> (r: usize)
        ensures
            r == self@.len(),
    {
        self.groups.len()
    }

    /// Number of groups with two or more members.
    pub fn duplicate_groups(&self) -> (r: usize)
        requires
            self.wf(),
        ensures
            r == duplicate_group_count(self@),
    {
        self.dup_groups
    }

    /// Number of paths that belong to a group of two or more.
    pub fn duplicate_files(&self) -> (r: usize)
        requires
            self.wf(),
        ensures
            r == duplicate_path_count(self@),
    {
        self.dup_files
    }

    /// The summary counters, all at once.
    pub fn summary(&self) -> (r: Summary)
        requires
            self.wf(),
        ensures
            r.files_hashed == total_paths(self@),
            r.unique_fingerprints == self@.len(),
            r.duplicate_groups == duplicate_group_count(self@),
            r.duplicate_files == duplicate_path_count(self@),
    {
        Summary {
            files_hashed: self.files,
            unique_fingerprints: self.groups.len(),
            duplicate_groups: self.dup_groups,
            duplicate_files: self.dup_files,
        }
    }

    /// The full group listing, in order of first arrival.
    pub fn groups(&self) -> (r: &Vec<Group>)
        ensures
            r@.map_values(|g: Group| g@) == self@,
    {
        &self.groups
    }
}

/// No outcome with fingerprint `k` leaves no path under `k`.
proof fn lemma_paths_with_absent(s: Seq<OutcomeView>, k: u64)
    requires
        forall|j: int| 0 <= j < s.len() ==> #[trigger] s[j].0 != k,
    ensures
        paths_with(s, k) == Seq::<Seq<char>>::empty(),
    decreases s.len(),
{
    if s.len() > 0 {
        lemma_paths_with_absent(s.drop_last(), k);
    }
}

/// What the groups hold, stated of the whole sequence of outcomes at once:
/// fingerprints are unique, each group lists exactly the paths of the
/// outcomes with its fingerprint, in arrival order, a fingerprint has a group
/// exactly when some outcome carries it, and every outcome is counted once.
pub proof fn lemma_aggregate_exact(s: Seq<OutcomeView>)
    ensures
        keys_unique(aggregate(s)),
        forall|i: int|
            0 <= i < aggregate(s).len() ==> #[trigger] aggregate(s)[i].1 == paths_with(
                s,
                aggregate(s)[i].0,
            ) && aggregate(s)[i].1.len() > 0,
        forall|k: u64| #[trigger]
            has_key(aggregate(s), k) <==> exists|j: int| 0 <= j < s.len() && #[trigger] s[j].0 == k,
        total_paths(aggregate(s)) == s.len(),
    decreases s.len(),
{
    if s.len() > 0 {
        let pre = s.drop_last();
        let k = s.last().0;
        let p = s.last().1;
        lemma_aggregate_exact(pre);
        let gs = aggregate(pre);
        let ns = aggregate(s);
        assert forall|j: int| 0 <= j < pre.len() implies #[trigger] pre[j] == s[j] by {}
        if has_key(gs, k) {
            let i = key_index(gs, k);
            let ng = (k, gs[i].1.push(p));
            assert(ns == gs.update(i, ng));
            lemma_weigh_update(gs, i, ng, by_size());
            assert forall|m: int| 0 <= m < ns.len() implies #[trigger] ns[m].1 == paths_with(
                s,
                ns[m].0,
            ) && ns[m].1.len() > 0 by {
                if m != i {
                    assert(gs[m].0 != k);
                }
            }
            assert forall|kk: u64| #[trigger]
                has_key(ns, kk) <==> exists|j: int| 0 <= j < s.len() && #[trigger] s[j].0 == kk by {
                if has_key(ns, kk) {
                    let m = choose|m: int| 0 <= m < ns.len() && ns[m].0 == kk;
                    assert(gs[m].0 == kk);
                    assert(has_key(gs, kk));
                    let j = choose|j: int| 0 <= j < pre.len() && #[trigger] pre[j].0 == kk;
                    assert(s[j].0 == kk);
                }
                if exists|j: int| 0 <= j < s.len() && #[trigger] s[j].0 == kk {
                    let j = choose|j: int| 0 <= j < s.len() && #[trigger] s[j].0 == kk;
                    if j < pre.len() {
                        assert(pre[j].0 == kk);
                        assert(has_key(gs, kk));
                        let m = choose|m: int| 0 <= m < gs.len() && gs[m].0 == kk;
                        assert(ns[m].0 == kk);
                    } else {
                        assert(ns[i].0 == kk);
                    }
                }
            }
        } else {
            let ng = (k, seq![p]);
            assert(ns == gs.push(ng));
            assert(ns.drop_last() =~= gs);
            assert forall|j: int| 0 <= j < pre.len() implies #[trigger] pre[j].0 != k by {
                if pre[j].0 == k {
                    assert(exists|jj: int| 0 <= jj < pre.len() && #[trigger] pre[jj].0 == k);
                }
            }
            lemma_paths_with_absent(pre, k);
            assert(paths_with(s, k) =~= seq![p]);
            assert forall|m: int| 0 <= m < ns.len() implies #[trigger] ns[m].1 == paths_with(
                s,
                ns[m].0,
            ) && ns[m].1.len() > 0 by {
                if m < gs.len() {
                    assert(gs[m].0 != k);
                }
            }
            assert forall|kk: u64| #[trigger]
                has_key(ns, kk) <==> exists|j: int| 0 <= j < s.len() && #[trigger] s[j].0 == kk by {
                if has_key(ns, kk) {
                    let m = choose|m: int| 0 <= m < ns.len() && ns[m].0 == kk;
                    if m < gs.len() {
                        assert(gs[m].0 == kk);
                        assert(has_key(gs, kk));
                        let j = choose|j: int| 0 <= j < pre.len() && #[trigger] pre[j].0 == kk;
                        assert(s[j].0 == kk);
                    } else {
                        assert(s[s.len() - 1].0 == kk);
                    }
                }
                if exists|j: int| 0 <= j < s.len() && #[trigger] s[j].0 == kk {
                    let j = choose|j: int| 0 <= j < s.len() && #[trigger] s[j].0 == kk;
                    if j < pre.len() {
                        assert(pre[j].0 == kk);
                        assert(has_key(gs, kk));
                        let m = choose|m: int| 0 <= m < gs.len() && gs[m].0 == kk;
                        assert(ns[m].0 == kk);
                    } else {
                        assert(ns[gs.len() as int].0 == kk);
                    }
                }
            }
        }
    }
}

/// A path is listed under `k` as often as the outcome `(k, p)` occurs.
pub proof fn lemma_paths_with_count(s: Seq<OutcomeView>, k: u64, p: Seq<char>)
    ensures
        paths_with(s, k).to_multiset().count(p) == s.to_multiset().count((k, p)),
    decreases s.len(),
{
    broadcast use vstd::seq_lib::group_to_multiset_ensures;

    if s.len() > 0 {
        let pre = s.drop_last();
        lemma_paths_with_count(pre, k, p);
        assert(s =~= pre.push(s.last()));
        if s.last().0 == k {
            assert(paths_with(s, k) == paths_with(pre, k).push(s.last().1));
        }
    } else {
        assert(s.to_multiset() =~= Multiset::empty());
        assert(paths_with(s, k).to_multiset() =~= Multiset::empty());
    }
}

/// Each group holds exactly the paths whose outcome carried its fingerprint:
/// a path is a member of a group if and only if it was hashed to that group's
/// fingerprint.
pub proof fn lemma_group_membership(s: Seq<OutcomeView>)
    ensures
        forall|i: int, p: Seq<char>|
            0 <= i < aggregate(s).len() ==> (#[trigger] aggregate(s)[i].1.contains(p)
                <==> s.contains((aggregate(s)[i].0, p))),
        forall|k: u64, p: Seq<char>| #[trigger]
            s.contains((k, p)) ==> exists|i: int|
                0 <= i < aggregate(s).len() && aggregate(s)[i].0 == k
                    && #[trigger] aggregate(s)[i].1.contains(p),
{
    broadcast use vstd::seq_lib::group_to_multiset_ensures;

    lemma_aggregate_exact(s);
    let a = aggregate(s);
    assert forall|i: int, p: Seq<char>| 0 <= i < a.len() implies (#[trigger] a[i].1.contains(p)
        <==> s.contains((a[i].0, p))) by {
        lemma_paths_with_count(s, a[i].0, p);
    }
    assert forall|k: u64, p: Seq<char>| #[trigger] s.contains((k, p)) implies exists|i: int|
        0 <= i < a.len() && a[i].0 == k && #[trigger] a[i].1.contains(p) by {
        let j = choose|j: int| 0 <= j < s.len() && s[j] == (k, p);
        assert(s[j].0 == k);
        assert(has_key(a, k));
        let i = choose|i: int| 0 <= i < a.len() && a[i].0 == k;
        lemma_paths_with_count(s, k, p);
        assert(a[i].1.contains(p));
    }
}

/// Two paths hashed to the same fingerprint end up in the same group.
pub proof fn lemma_same_fingerprint_same_group(s: Seq<OutcomeView>, k: u64, a: Seq<char>, b: Seq<char>)
    requires
        s.contains((k, a)),
        s.contains((k, b)),
    ensures
        exists|i: int|
            0 <= i < aggregate(s).len() && aggregate(s)[i].0 == k && aggregate(s)[i].1.contains(a)
                && #[trigger] aggregate(s)[i].1.contains(b),
{
    lemma_group_membership(s);
    lemma_aggregate_exact(s);
    let g = aggregate(s);
    let i = choose|i: int| 0 <= i < g.len() && g[i].0 == k && #[trigger] g[i].1.contains(a);
    assert(g[i].1.contains(b));
}

/// Applying the same outcomes in another order gives the same fingerprints and,
/// under each, the same members: only their order within a group may differ.
pub proof fn lemma_reordered_outcomes_same_groups(s1: Seq<OutcomeView>, s2: Seq<OutcomeView>)
    requires
        s1.to_multiset() == s2.to_multiset(),
    ensures
        forall|k: u64| #[trigger] has_key(aggregate(s1), k) <==> has_key(aggregate(s2), k),
        forall|i: int, j: int|
            0 <= i < aggregate(s1).len() && 0 <= j < aggregate(s2).len() && aggregate(s1)[i].0
                == aggregate(s2)[j].0 ==> #[trigger] aggregate(s1)[i].1.to_multiset()
                == #[trigger] aggregate(s2)[j].1.to_multiset(),
        aggregate(s1).len() == aggregate(s2).len(),
{
    broadcast use vstd::seq_lib::group_to_multiset_ensures;

    lemma_aggregate_exact(s1);
    lemma_aggregate_exact(s2);
    let a1 = aggregate(s1);
    let a2 = aggregate(s2);
    assert forall|k: u64| #[trigger] has_key(a1, k) implies has_key(a2, k) by {
        let j = choose|j: int| 0 <= j < s1.len() && #[trigger] s1[j].0 == k;
        assert(s1.contains(s1[j]));
        assert(s1.to_multiset().count(s1[j]) > 0);
        assert(s2.to_multiset().count(s1[j]) > 0);
        assert(s2.contains(s1[j]));
        let j2 = choose|j2: int| 0 <= j2 < s2.len() && s2[j2] == s1[j];
        assert(s2[j2].0 == k);
    }
    assert forall|k: u64| #[trigger] has_key(a2, k) implies has_key(a1, k) by {
        let j = choose|j: int| 0 <= j < s2.len() && #[trigger] s2[j].0 == k;
        assert(s2.contains(s2[j]));
        assert(s2.to_multiset().count(s2[j]) > 0);
        assert(s1.to_multiset().count(s2[j]) > 0);
        assert(s1.contains(s2[j]));
        let j1 = choose|j1: int| 0 <= j1 < s1.len() && s1[j1] == s2[j];
        assert(s1[j1].0 == k);
    }
    assert forall|i: int, j: int|
        0 <= i < a1.len() && 0 <= j < a2.len() && a1[i].0 == a2[j].0 implies #[trigger] a1[i].1.to_multiset()
        == #[trigger] a2[j].1.to_multiset() by {
        assert forall|p: Seq<char>| a1[i].1.to_multiset().count(p) == a2[j].1.to_multiset().count(p) by {
            lemma_paths_with_count(s1, a1[i].0, p);
            lemma_paths_with_count(s2, a2[j].0, p);
        }
        assert(a1[i].1.to_multiset() =~= a2[j].1.to_multiset());
    }
    lemma_same_keys_same_len(a1, a2);
}

/// Two key-unique listings with the same set of keys have the same length.
proof fn lemma_same_keys_same_len(a1: GroupsView, a2: GroupsView)
    requires
        keys_unique(a1),
        keys_unique(a2),
        forall|k: u64| #[trigger] has_key(a1, k) <==> has_key(a2, k),
    ensures
        a1.len() == a2.len(),
{
    let ks1 = a1.map_values(|g: (u64, Seq<Seq<char>>)| g.0);
    let ks2 = a2.map_values(|g: (u64, Seq<Seq<char>>)| g.0);
    assert forall|k: u64| ks1.contains(k) <==> ks2.contains(k) by {
        if ks1.contains(k) {
            let i = choose|i: int| 0 <= i < ks1.len() && ks1[i] == k;
            assert(a1[i].0 == k);
            assert(has_key(a1, k));
            assert(has_key(a2, k));
            let j = choose|j: int| 0 <= j < a2.len() && a2[j].0 == k;
            assert(ks2[j] == k);
        }
        if ks2.contains(k) {
            let i = choose|i: int| 0 <= i < ks2.len() && ks2[i] == k;
            assert(a2[i].0 == k);
            assert(has_key(a2, k));
            assert(has_key(a1, k));
            let j = choose|j: int| 0 <= j < a1.len() && a1[j].0 == k;
            assert(ks1[j] == k);
        }
    }
    assert(ks1.no_duplicates());
    assert(ks2.no_duplicates());
    assert(ks1.to_set() =~= ks2.to_set());
    ks1.unique_seq_to_set();
    ks2.unique_seq_to_set();
}

/// When no two outcomes share a fingerprint, every group is a singleton and
/// there is no duplicate set.
pub proof fn lemma_distinct_fingerprints_singletons(s: Seq<OutcomeView>)
    requires
        forall|i: int, j: int| 0 <= i < s.len() && 0 <= j < s.len() && i != j ==> s[i].0 != s[j].0,
    ensures
        aggregate(s).len() == s.len(),
        forall|i: int| 0 <= i < aggregate(s).len() ==> #[trigger] aggregate(s)[i].1.len() == 1,
        duplicate_group_count(aggregate(s)) == 0,
        duplicate_path_count(aggregate(s)) == 0,
    decreases s.len(),
{
    if s.len() > 0 {
        let pre = s.drop_last();
        let k = s.last().0;
        lemma_distinct_fingerprints_singletons(pre);
        lemma_aggregate_exact(pre);
        let gs = aggregate(pre);
        if has_key(gs, k) {
            let j = choose|j: int| 0 <= j < pre.len() && #[trigger] pre[j].0 == k;
            assert(s[j].0 == s[s.len() - 1].0);
        }
        let ns = aggregate(s);
        assert(ns == gs.push((k, seq![s.last().1])));
        assert(ns.drop_last() =~= gs);
    }
}

/// No outcomes, no groups: every counter is zero.
pub proof fn lemma_no_outcomes_no_groups()
    ensures
        aggregate(Seq::empty()).len() == 0,
        total_paths(aggregate(Seq::empty())) == 0,
        duplicate_group_count(aggregate(Seq::empty())) == 0,
        duplicate_path_count(aggregate(Seq::empty())) == 0,
{
}

/// Two paths hashed once each, to different fingerprints, never share a group.
pub proof fn lemma_different_fingerprints_different_groups(
    s: Seq<OutcomeView>,
    ka: u64,
    a: Seq<char>,
    kb: u64,
    b: Seq<char>,
)
    requires
        s.contains((ka, a)),
        s.contains((kb, b)),
        ka != kb,
        forall|j: int| 0 <= j < s.len() && (#[trigger] s[j]).1 == a ==> s[j].0 == ka,
        forall|j: int| 0 <= j < s.len() && (#[trigger] s[j]).1 == b ==> s[j].0 == kb,
    ensures
        forall|i: int|
            0 <= i < aggregate(s).len() ==> !(aggregate(s)[i].1.contains(a)
                && #[trigger] aggregate(s)[i].1.contains(b)),
{
    lemma_group_membership(s);
    let g = aggregate(s);
    assert forall|i: int| 0 <= i < g.len() implies !(g[i].1.contains(a) && #[trigger] g[i].1.contains(b)) by {
        if g[i].1.contains(a) && g[i].1.contains(b) {
            assert(s.contains((g[i].0, a)));
            assert(s.contains((g[i].0, b)));
            let ja = choose|j: int| 0 <= j < s.len() && s[j] == (g[i].0, a);
            let jb = choose|j: int| 0 <= j < s.len() && s[j] == (g[i].0, b);
            assert(s[ja].1 == a);
            assert(s[jb].1 == b);
        }
    }
}

} // verus!
