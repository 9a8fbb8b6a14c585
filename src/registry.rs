use crate::definition::Migration;
use crate::m20260119_create_transactions_table;
use vstd::prelude::*;

verus! {

/// Two or more definitions share a version. Names the smallest such version and the
/// description of its second definition, in the order in which they were given.
#[derive(Clone, Copy, Debug)]
pub struct DuplicateVersion {
    pub version: i64,
    pub description: &'static str,
}

/// The definitions of `s` whose version is `v`, in their order in `s`.
pub open spec fn with_version(s: Seq<Migration>, v: i64) -> Seq<Migration>
    decreases s.len(),
{
    if s.len() == 0 {
        Seq::empty()
    } else if s[0].version == v {
        seq![s[0]] + with_version(s.drop_first(), v)
    } else {
        with_version(s.drop_first(), v)
    }
}

/// Versions never decrease along `s`.
pub open spec fn sorted_by_version(s: Seq<Migration>) -> bool {
    forall|i: int, j: int| 0 <= i <= j < s.len() ==> s[i].version <= s[j].version
}

/// Versions strictly increase along `s`.
pub open spec fn strictly_ascending(s: Seq<Migration>) -> bool {
    forall|i: int, j: int| 0 <= i < j < s.len() ==> s[i].version < s[j].version
}

/// No two definitions of `s` share a version.
pub open spec fn versions_distinct(s: Seq<Migration>) -> bool {
    forall|i: int, j: int| 0 <= i < j < s.len() ==> s[i].version != s[j].version
}

/// `r` is `s` stably sorted by version: `r` is ordered by version, and holds for each
/// version the definitions of `s` with that version, in their order in `s`.
pub open spec fn is_stable_sort_of(r: Seq<Migration>, s: Seq<Migration>) -> bool {
    &&& sorted_by_version(r)
    &&& forall|v: i64| #[trigger] with_version(r, v) == with_version(s, v)
}

/// Two or more definitions of `s` have version `v`.
pub open spec fn duplicates_version(s: Seq<Migration>, v: i64) -> bool {
    with_version(s, v).len() >= 2
}

/// Selecting a version from one definition.
proof fn lemma_with_version_single(m: Migration, v: i64)
    ensures
        with_version(seq![m], v) == (if m.version == v { seq![m] } else { Seq::empty() }),
{
    assert(seq![m].drop_first() =~= Seq::<Migration>::empty());
    assert(with_version(Seq::<Migration>::empty(), v) == Seq::<Migration>::empty());
    assert(seq![m] + Seq::<Migration>::empty() =~= seq![m]);
}

/// Selecting a version distributes over concatenation.
proof fn lemma_with_version_add(a: Seq<Migration>, b: Seq<Migration>, v: i64)
    ensures
        with_version(a + b, v) == with_version(a, v) + with_version(b, v),
    decreases a.len(),
{
    if a.len() == 0 {
        assert(a + b =~= b);
        assert(with_version(a, v) + with_version(b, v) =~= with_version(b, v));
    } else {
        assert((a + b).drop_first() =~= a.drop_first() + b);
        assert((a + b)[0] == a[0]);
        lemma_with_version_add(a.drop_first(), b, v);
        if a[0].version == v {
            assert(seq![a[0]] + (with_version(a.drop_first(), v) + with_version(b, v)) =~= (seq![
                a[0]
            ] + with_version(a.drop_first(), v)) + with_version(b, v));
        }
    }
}

/// Nothing is selected for `v` exactly when no definition has version `v`.
proof fn lemma_with_version_empty(s: Seq<Migration>, v: i64)
    ensures
        (with_version(s, v).len() == 0) <==> (forall|i: int| 0 <= i < s.len() ==> s[i].version != v),
    decreases s.len(),
{
    if s.len() > 0 {
        let t = s.drop_first();
        lemma_with_version_empty(t, v);
        if s[0].version != v {
            assert forall|i: int| 0 <= i < s.len() && (forall|k: int| 0 <= k < t.len() ==> t[k].version != v)
                implies s[i].version != v by {
                if i > 0 {
                    assert(s[i] == t[i - 1]);
                }
            }
            assert((forall|i: int| 0 <= i < s.len() ==> s[i].version != v) ==> (forall|k: int|
                0 <= k < t.len() ==> t[k].version != v)) by {
                assert forall|k: int| 0 <= k < t.len() && (forall|i: int| 0 <= i < s.len() ==> s[i].version != v)
                    implies t[k].version != v by {
                    assert(t[k] == s[k + 1]);
                }
            }
        }
    }
}

/// Two definitions with version `v` are two entries of what is selected for `v`.
proof fn lemma_indices_duplicate(s: Seq<Migration>, i: int, j: int)
    requires
        0 <= i < j < s.len(),
        s[i].version == s[j].version,
    ensures
        duplicates_version(s, s[i].version),
    decreases s.len(),
{
    let v = s[i].version;
    let t = s.drop_first();
    if i == 0 {
        assert(t[j - 1] == s[j]);
        lemma_with_version_empty(t, v);
    } else {
        assert(t[i - 1] == s[i] && t[j - 1] == s[j]);
        lemma_indices_duplicate(t, i - 1, j - 1);
    }
}

/// A duplicated version stands at two positions.
proof fn lemma_duplicate_indices(s: Seq<Migration>, v: i64)
    requires
        duplicates_version(s, v),
    ensures
        exists|i: int, j: int| 0 <= i < j < s.len() && s[i].version == v && s[j].version == v,
    decreases s.len(),
{
    let t = s.drop_first();
    if s[0].version == v {
        lemma_with_version_empty(t, v);
        let k = choose|k: int| 0 <= k < t.len() && t[k].version == v;
        assert(s[0].version == v && s[k + 1].version == v);
    } else {
        lemma_duplicate_indices(t, v);
        let (i, j) = choose|i: int, j: int| 0 <= i < j < t.len() && t[i].version == v && t[j].version == v;
        assert(s[i + 1].version == v && s[j + 1].version == v);
    }
}

/// Versions are distinct exactly when no version is duplicated.
proof fn lemma_distinct_iff_no_duplicate(s: Seq<Migration>)
    ensures
        versions_distinct(s) <==> (forall|v: i64| !duplicates_version(s, v)),
{
    if versions_distinct(s) {
        assert forall|v: i64| !duplicates_version(s, v) by {
            if duplicates_version(s, v) {
                lemma_duplicate_indices(s, v);
            }
        }
    } else {
        let (i, j) = choose|i: int, j: int| 0 <= i < j < s.len() && s[i].version == s[j].version;
        lemma_indices_duplicate(s, i, j);
    }
}

/// Two sequences ordered by version that hold, for each version, the same definitions in the
/// same order are equal.
proof fn lemma_same_groups_equal(r1: Seq<Migration>, r2: Seq<Migration>)
    requires
        sorted_by_version(r1),
        sorted_by_version(r2),
        forall|v: i64| #[trigger] with_version(r1, v) == with_version(r2, v),
    ensures
        r1 == r2,
    decreases r1.len(),
{
    if r1.len() == 0 || r2.len() == 0 {
        if r1.len() > 0 {
            assert(with_version(r1, r1[0].version).len() >= 1);
            assert(with_version(r2, r1[0].version) == with_version(r1, r1[0].version));
        }
        if r2.len() > 0 {
            assert(with_version(r2, r2[0].version).len() >= 1);
            assert(with_version(r1, r2[0].version) == with_version(r2, r2[0].version));
        }
        assert(r1 =~= r2);
    } else {
        let v1 = r1[0].version;
        let v2 = r2[0].version;
        assert(with_version(r1, v1).len() >= 1);
        assert(with_version(r2, v2).len() >= 1);
        lemma_with_version_empty(r1, v2);
        lemma_with_version_empty(r2, v1);
        assert(v1 == v2);
        assert(with_version(r1, v1)[0] == r1[0]);
        assert(with_version(r2, v1)[0] == r2[0]);
        let t1 = r1.drop_first();
        let t2 = r2.drop_first();
        assert forall|w: i64| #[trigger] with_version(t1, w) == with_version(t2, w) by {
            assert(with_version(r1, w) == with_version(r2, w));
            if w == v1 {
                assert(with_version(t1, w) =~= with_version(r1, w).drop_first());
                assert(with_version(t2, w) =~= with_version(r2, w).drop_first());
            }
        }
        lemma_same_groups_equal(t1, t2);
        assert(r1.len() == r2.len());
        assert(r1 =~= r2) by {
            assert forall|i: int| 0 <= i < r1.len() implies r1[i] == r2[i] by {
                if i > 0 {
                    assert(r1[i] == t1[i - 1] && r2[i] == t2[i - 1]);
                }
            }
        }
    }
}

/// Sorting by version stably has one result: any two sequences that are each `s` stably
/// sorted by version are equal. So every call of `sort_by_version` or `collect` on the same
/// definitions returns the same sequence.
pub proof fn lemma_stable_sort_unique(s: Seq<Migration>, r1: Seq<Migration>, r2: Seq<Migration>)
    requires
        is_stable_sort_of(r1, s),
        is_stable_sort_of(r2, s),
    ensures
        r1 == r2,
{
    assert forall|v: i64| #[trigger] with_version(r1, v) == with_version(r2, v) by {
        assert(with_version(r1, v) == with_version(s, v));
        assert(with_version(r2, v) == with_version(s, v));
    }
    lemma_same_groups_equal(r1, r2);
}

/// A stable sort keeps the definitions of each version: the same versions are duplicated,
/// and versions are distinct in the result exactly when they are in the input.
pub proof fn lemma_stable_sort_keeps_duplicates(r: Seq<Migration>, s: Seq<Migration>)
    requires
        is_stable_sort_of(r, s),
    ensures
        forall|v: i64| duplicates_version(r, v) == duplicates_version(s, v),
        versions_distinct(r) == versions_distinct(s),
{
    assert forall|v: i64| duplicates_version(r, v) == duplicates_version(s, v) by {
        assert(with_version(r, v) == with_version(s, v));
    }
    lemma_distinct_iff_no_duplicate(r);
    lemma_distinct_iff_no_duplicate(s);
}

/// Inserting `m` after the definitions of version at most its own, in a sequence ordered by
/// version, keeps the order and appends `m` to the definitions of its version.
proof fn lemma_insert_sorted(before: Seq<Migration>, taken: Seq<Migration>, m: Migration, k: int)
    requires
        sorted_by_version(before),
        0 <= k <= before.len(),
        forall|j: int| 0 <= j < k ==> before[j].version <= m.version,
        k < before.len() ==> before[k].version > m.version,
        forall|v: i64| #[trigger] with_version(before, v) == with_version(taken, v),
    ensures
        sorted_by_version(before.insert(k, m)),
        forall|v: i64| #[trigger]
            with_version(before.insert(k, m), v) == with_version(taken + seq![m], v),
{
    let after = before.insert(k, m);
    let prefix = before.take(k);
    let suffix = before.skip(k);
    assert(before =~= prefix + suffix);
    assert(after =~= prefix + seq![m] + suffix);
    assert forall|j: int| 0 <= j < suffix.len() implies suffix[j].version > m.version by {
        assert(suffix[j] == before[k + j]);
    }
    assert forall|v: i64| #[trigger] with_version(after, v) == with_version(taken + seq![m], v) by {
        lemma_with_version_add(prefix + seq![m], suffix, v);
        lemma_with_version_add(prefix, seq![m], v);
        lemma_with_version_add(prefix, suffix, v);
        lemma_with_version_add(taken, seq![m], v);
        lemma_with_version_single(m, v);
        assert(with_version(before, v) == with_version(taken, v));
        if m.version == v {
            lemma_with_version_empty(suffix, v);
            assert(with_version(suffix, v) =~= Seq::<Migration>::empty());
        }
        assert(with_version(prefix, v) + with_version(seq![m], v) + with_version(suffix, v)
            =~= with_version(prefix, v) + with_version(suffix, v) + with_version(seq![m], v));
    }
    assert forall|a: int, b: int| 0 <= a <= b < after.len() implies after[a].version
        <= after[b].version by {
        if a < k && b > k {
            assert(after[b] == before[b - 1]);
        } else if a > k {
            assert(after[a] == before[a - 1] && after[b] == before[b - 1]);
        } else if a == k && b > k {
            assert(after[b] == suffix[b - k - 1]);
        }
    }
}

/// Returns `defs` stably sorted by version: ordered by version, with definitions of equal
/// version in their order in `defs`.
pub fn sort_by_version(defs: &Vec<Migration>) -> (r: Vec<Migration>)
    ensures
        is_stable_sort_of(r@, defs@),
{
    let mut r: Vec<Migration> = Vec::new();
    let mut i: usize = 0;
    while i < defs.len()
        invariant
            i <= defs.len(),
            sorted_by_version(r@),
            forall|v: i64| #[trigger] with_version(r@, v) == with_version(defs@.take(i as int), v),
        decreases defs.len() - i,
    {
        let m = defs[i];
        let mut k: usize = 0;
        while k < r.len() && r[k].version <= m.version
            invariant
                k <= r.len(),
                forall|j: int| 0 <= j < k ==> r@[j].version <= m.version,
            decreases r.len() - k,
        {
            k = k + 1;
        }
        proof {
            lemma_insert_sorted(r@, defs@.take(i as int), m, k as int);
            assert(defs@.take(i + 1) =~= defs@.take(i as int) + seq![m]);
        }
        r.insert(k, m);
        i = i + 1;
    }
    proof {
        assert(defs@.take(defs.len() as int) =~= defs@);
    }
    r
}

/// `e` names the smallest duplicated version of `s`, and the description of the second
/// definition of `s` with that version.
pub open spec fn is_first_duplicate(s: Seq<Migration>, e: DuplicateVersion) -> bool {
    &&& duplicates_version(s, e.version)
    &&& forall|w: i64| duplicates_version(s, w) ==> e.version <= w
    &&& e.description == with_version(s, e.version)[1].description
}

/// The definitions that the application registers, in the order of registration.
pub open spec fn registered() -> Seq<Migration> {
    seq![m20260119_create_transactions_table::spec_migration()]
}

/// In a sequence ordered by version, a duplicated version stands at two neighbouring
/// positions.
proof fn lemma_sorted_duplicate_adjacent(s: Seq<Migration>, w: i64)
    requires
        sorted_by_version(s),
        duplicates_version(s, w),
    ensures
        exists|j: int| 0 <= j && j + 1 < s.len() && (#[trigger] s[j]).version == w && s[j + 1].version == w,
{
    lemma_duplicate_indices(s, w);
    let (a, b) = choose|a: int, b: int| 0 <= a < b < s.len() && s[a].version == w && s[b].version == w;
    assert(s[a + 1].version == w);
}

/// In a sequence ordered by version, the first pair of neighbours with equal versions holds
/// the smallest duplicated version, and its second definition is the second of that version.
proof fn lemma_first_adjacent_duplicate(s: Seq<Migration>, i: int)
    requires
        sorted_by_version(s),
        1 <= i < s.len(),
        s[i - 1].version == s[i].version,
        forall|a: int, b: int| 0 <= a < b < i ==> s[a].version < s[b].version,
    ensures
        duplicates_version(s, s[i].version),
        forall|w: i64| duplicates_version(s, w) ==> s[i].version <= w,
        with_version(s, s[i].version)[1] == s[i],
{
    let v = s[i].version;
    assert forall|j: int| 0 <= j < i - 1 implies s[j].version != v by {
        assert(s[j].version < s[i - 1].version);
    }
    let p = s.take(i - 1);
    let q = s.skip(i - 1);
    assert(s =~= p + q);
    lemma_with_version_add(p, q, v);
    lemma_with_version_empty(p, v);
    assert(with_version(p, v) =~= Seq::<Migration>::empty());
    assert(with_version(s, v) =~= with_version(q, v));
    let q1 = q.drop_first();
    assert(q[0] == s[i - 1] && q1[0] == s[i]);
    assert(with_version(q, v) == seq![q[0]] + with_version(q1, v));
    assert(with_version(q1, v) == seq![q1[0]] + with_version(q1.drop_first(), v));
    assert(with_version(s, v)[1] == s[i]);
    assert forall|w: i64| duplicates_version(s, w) implies v <= w by {
        if w < v {
            lemma_sorted_duplicate_adjacent(s, w);
            let j = choose|j: int|
                0 <= j && j + 1 < s.len() && (#[trigger] s[j]).version == w && s[j + 1].version == w;
            assert(s[j + 1].version < v);
            assert(s[j].version < s[j + 1].version);
        }
    }
}

/// Finds the first pair of neighbours with equal versions in `sorted`, if any, and names its
/// version and the description of its second definition.
pub fn first_duplicate(sorted: &Vec<Migration>) -> (r: Option<DuplicateVersion>)
    requires
        sorted_by_version(sorted@),
    ensures
        match r {
            Some(e) => is_first_duplicate(sorted@, e),
            None => versions_distinct(sorted@),
        },
{
    let n = sorted.len();
    let mut i: usize = 1;
    while i < n
        invariant
            n == sorted@.len(),
            1 <= i,
            n >= 1 ==> i <= n,
            sorted_by_version(sorted@),
            forall|a: int, b: int| 0 <= a < b < i && b < n ==> sorted@[a].version < sorted@[b].version,
        decreases n - i,
    {
        if sorted[i - 1].version == sorted[i].version {
            let e = DuplicateVersion { version: sorted[i].version, description: sorted[i].description };
            proof {
                lemma_first_adjacent_duplicate(sorted@, i as int);
            }
            return Some(e);
        }
        i = i + 1;
    }
    None
}

/// Orders `defs` stably by version. With `strict`, also checks that no two definitions
/// share a version, and fails on the smallest shared version otherwise.
pub fn collect(defs: Vec<Migration>, strict: bool) -> (r: Result<Vec<Migration>, DuplicateVersion>)
    ensures
        r is Ok <==> (!strict || versions_distinct(defs@)),
        match r {
            Ok(sorted) => is_stable_sort_of(sorted@, defs@) && (strict ==> strictly_ascending(
                sorted@,
            )),
            Err(e) => is_first_duplicate(defs@, e),
        },
{
    let sorted = sort_by_version(&defs);
    proof {
        lemma_stable_sort_keeps_duplicates(sorted@, defs@);
    }
    if strict {
        match first_duplicate(&sorted) {
            Some(e) => {
                proof {
                    assert(with_version(sorted@, e.version) == with_version(defs@, e.version));
                    lemma_distinct_iff_no_duplicate(defs@);
                }
                return Err(e);
            },
            None => {},
        }
    }
    Ok(sorted)
}

/// Every registered migration, ordered by version. The registered versions are distinct,
/// so the result is strictly ascending.
pub fn all_migrations() -> (r: Vec<Migration>)
    ensures
        is_stable_sort_of(r@, registered()),
        versions_distinct(registered()),
        strictly_ascending(r@),
        r@ == registered(),
{
    let defs = vec![m20260119_create_transactions_table::migration()];
    proof {
        assert(defs@ =~= registered());
    }
    match collect(defs, true) {
        Ok(sorted) => {
            proof {
                assert(is_stable_sort_of(registered(), registered()));
                lemma_stable_sort_unique(registered(), sorted@, registered());
            }
            sorted
        },
        Err(_) => Vec::new(),
    }
}

} // verus!
