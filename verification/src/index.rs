use vstd::prelude::*;

verus! {

/// Age order on `(age_in_hours, original_position)` pairs: the younger
/// repository comes first, and equally old repositories keep their
/// original relative order, so the ordering is stable and strict.
pub open spec fn age_before(a: (i64, int), b: (i64, int)) -> bool {
    ||| a.0 < b.0
    ||| (a.0 == b.0 && a.1 < b.1)
}

/// `ord` holds the position `c` somewhere.
pub open spec fn ord_contains(ord: Seq<int>, c: int) -> bool {
    exists|j: int| 0 <= j < ord.len() && #[trigger] ord[j] == c
}

/// `ord` lists each position of `ages` exactly once, arranged by the
/// age order.
pub open spec fn age_order_ok(ord: Seq<int>, ages: Seq<i64>) -> bool {
    &&& ord.len() == ages.len()
    &&& forall|j: int| 0 <= j < ord.len() ==> 0 <= #[trigger] ord[j] < ages.len()
    &&& forall|j: int, k: int|
        0 <= j < k < ord.len() ==> age_before((ages[ord[j]], ord[j]), (ages[ord[k]], ord[k]))
    &&& forall|c: int| 0 <= c < ages.len() ==> #[trigger] ord_contains(ord, c)
}

/// `r` is `repos` re-arranged by `ord`.
pub open spec fn selected_by(r: Seq<String>, repos: Seq<String>, ord: Seq<int>) -> bool {
    &&& r.len() == ord.len()
    &&& forall|j: int| 0 <= j < ord.len() ==> r[j] == repos[#[trigger] ord[j]]
}

/// The pairs of a sorted prefix as mathematical values.
pub open spec fn pair_view(p: (i64, usize)) -> (i64, int) {
    (p.0, p.1 as int)
}

/// The pair list holds original position `c` somewhere.
pub open spec fn pairs_contain(s: Seq<(i64, usize)>, c: int) -> bool {
    exists|j: int| 0 <= j < s.len() && (#[trigger] s[j]).1 == c
}

/// The index of known git repositories: the candidate list the
/// selection engine works over. Walking the filesystem and the on-disk
/// cache file are the caller's business; the index holds the resulting
/// paths in discovery (or cache) order, remembers whether a cache was
/// found, and orders the paths by the age of their last recorded
/// change.
pub struct Index {
    /// The repository paths, in discovery or cache order.
    pub repos: Vec<String>,
    /// Whether the paths were read back from an existing cache.
    pub cached: bool,
}

impl Index {
    /// An index over the given repository paths; `cached` records
    /// whether they came from an existing cache.
    pub fn new(repos: Vec<String>, cached: bool) -> (ix: Index)
        ensures
            ix.repos@ == repos@,
            ix.cached == cached,
    {
        Index { repos, cached }
    }

    /// Whether the stored paths came from an existing cache.
    pub fn has_cache(&self) -> (r: bool)
        ensures
            r == self.cached,
    {
        self.cached
    }

    /// All known git repos, in their stored order.
    pub fn get_repos(&self) -> (repos: Vec<String>)
        ensures
            repos@ == self.repos@,
    {
        let mut repos: Vec<String> = Vec::new();
        let mut i: usize = 0;
        while i < self.repos.len()
            invariant
                0 <= i <= self.repos@.len(),
                repos@.len() == i,
                forall|j: int| 0 <= j < i ==> repos@[j] == self.repos@[j],
            decreases self.repos@.len() - i,
        {
            repos.push(self.repos[i].clone());
            i += 1;
        }
        proof {
            assert(repos@ =~= self.repos@);
        }
        repos
    }

    /// The known repos arranged by the age of their last commit,
    /// youngest first, given each repo's age in hours at the same
    /// position as in the stored list; a repo whose history cannot be
    /// read carries the maximal age and so sorts last. Equally old
    /// repos keep their stored relative order.
    pub fn get_repos_by_last_commit(&self, ages: &Vec<i64>) -> (r: Vec<String>)
        requires
            ages@.len() == self.repos@.len(),
        ensures
            exists|ord: Seq<int>|
                #[trigger] age_order_ok(ord, ages@) && selected_by(r@, self.repos@, ord),
    {
        let n = ages.len();
        let mut pairs: Vec<(i64, usize)> = Vec::new();
        let mut i: usize = 0;
        while i < n
            invariant
                n == ages@.len(),
                0 <= i <= n,
                pairs@.len() == i,
                forall|j: int|
                    0 <= j < i ==> {
                        &&& (#[trigger] pairs@[j]).1 < i
                        &&& pairs@[j].0 == ages@[pairs@[j].1 as int]
                    },
                forall|j: int, k: int|
                    0 <= j < k < i ==> age_before(
                        pair_view(pairs@[j]),
                        pair_view(pairs@[k]),
                    ),
                forall|c: int| 0 <= c < i ==> #[trigger] pairs_contain(pairs@, c),
            decreases n - i,
        {
            let a = ages[i];
            let ghost pairs0 = pairs@;
            let mut p: usize = 0;
            while p < pairs.len() && pairs[p].0 <= a
                invariant
                    pairs@ == pairs0,
                    0 <= p <= pairs@.len(),
                    forall|k: int| 0 <= k < p ==> (#[trigger] pairs@[k]).0 <= a,
                decreases pairs@.len() - p,
            {
                p += 1;
            }
            proof {
                lemma_age_insert(pairs@, (a, i), p as int, ages@, i as int);
            }
            pairs.insert(p, (a, i));
            i += 1;
        }
        let mut r: Vec<String> = Vec::new();
        let mut k: usize = 0;
        while k < n
            invariant
                n == ages@.len() == pairs@.len(),
                ages@.len() == self.repos@.len(),
                0 <= k <= n,
                r@.len() == k,
                forall|j: int|
                    0 <= j < pairs@.len() ==> (#[trigger] pairs@[j]).1 < pairs@.len(),
                forall|j: int| 0 <= j < k ==> r@[j] == self.repos@[pairs@[j].1 as int],
            decreases n - k,
        {
            let idx = pairs[k].1;
            r.push(self.repos[idx].clone());
            k += 1;
        }
        proof {
            let ord = pairs@.map_values(|pr: (i64, usize)| pr.1 as int);
            assert forall|c: int| 0 <= c < ages@.len() implies #[trigger] ord_contains(
                ord,
                c,
            ) by {
                assert(pairs_contain(pairs@, c));
                let j0 = choose|j: int| 0 <= j < pairs@.len() && (#[trigger] pairs@[j]).1 == c;
                assert(ord[j0] == c);
            }
            assert forall|j: int| 0 <= j < ord.len() implies 0 <= #[trigger] ord[j]
                < ages@.len() by {
                assert(ord[j] == pairs@[j].1 as int);
            }
            assert forall|j: int, k: int| 0 <= j < k < ord.len() implies age_before(
                (ages@[ord[j]], ord[j]),
                (ages@[ord[k]], ord[k]),
            ) by {
                assert(ord[j] == pairs@[j].1 as int);
                assert(ord[k] == pairs@[k].1 as int);
                assert(age_before(pair_view(pairs@[j]), pair_view(pairs@[k])));
            }
            assert(age_order_ok(ord, ages@));
            assert(selected_by(r@, self.repos@, ord));
        }
        r
    }
}

/// Inserting the next `(age, position)` pair at the scan's position
/// keeps the pair list sorted by age order, correct about ages, and
/// complete over the positions seen so far.
proof fn lemma_age_insert(s: Seq<(i64, usize)>, np: (i64, usize), p: int, ages: Seq<i64>, i: int)
    requires
        0 <= p <= s.len(),
        0 <= i < ages.len(),
        np.1 == i,
        np.0 == ages[i],
        forall|j: int|
            0 <= j < s.len() ==> {
                &&& (#[trigger] s[j]).1 < i
                &&& s[j].0 == ages[s[j].1 as int]
            },
        forall|j: int, k: int|
            0 <= j < k < s.len() ==> age_before(pair_view(s[j]), pair_view(s[k])),
        forall|c: int| 0 <= c < i ==> #[trigger] pairs_contain(s, c),
        forall|k: int| 0 <= k < p ==> (#[trigger] s[k]).0 <= np.0,
        p < s.len() ==> s[p].0 > np.0,
    ensures
        forall|j: int|
            0 <= j < s.insert(p, np).len() ==> {
                &&& (#[trigger] s.insert(p, np)[j]).1 < i + 1
                &&& s.insert(p, np)[j].0 == ages[s.insert(p, np)[j].1 as int]
            },
        forall|j: int, k: int|
            0 <= j < k < s.insert(p, np).len() ==> age_before(
                pair_view(s.insert(p, np)[j]),
                pair_view(s.insert(p, np)[k]),
            ),
        forall|c: int| 0 <= c < i + 1 ==> #[trigger] pairs_contain(s.insert(p, np), c),
{
    let t = s.insert(p, np);
    s.insert_ensures(p, np);
    assert forall|j: int, k: int| 0 <= j < k < t.len() implies age_before(
        pair_view(t[j]),
        pair_view(t[k]),
    ) by {
        if k < p {
            assert(t[j] == s[j] && t[k] == s[k]);
        } else if k == p {
            assert(t[j] == s[j] && t[k] == np);
        } else {
            assert(t[k] == s[k - 1]);
            if j < p {
                assert(t[j] == s[j]);
            } else if j == p {
                assert(t[j] == np);
                assert(s[p].0 > np.0);
                if k - 1 > p {
                    assert(age_before(pair_view(s[p]), pair_view(s[k - 1])));
                }
            } else {
                assert(t[j] == s[j - 1]);
            }
        }
    }
    assert forall|j: int| 0 <= j < t.len() implies (#[trigger] t[j]).1 < i + 1 && t[j].0
        == ages[t[j].1 as int] by {
        if j < p {
            assert(t[j] == s[j]);
        } else if j == p {
        } else {
            assert(t[j] == s[j - 1]);
        }
    }
    assert forall|c: int| 0 <= c < i + 1 implies #[trigger] pairs_contain(t, c) by {
        if c == i {
            assert(t[p].1 == c);
        } else {
            assert(pairs_contain(s, c));
            let j0 = choose|j: int| 0 <= j < s.len() && (#[trigger] s[j]).1 == c;
            if j0 < p {
                assert(t[j0].1 == c);
            } else {
                assert(t[j0 + 1].1 == c);
            }
        }
    }
}

} // verus!
