use crate::order::{
    compare_keys, key_lt, lemma_key_lt_asymmetric, lemma_key_lt_total, lemma_key_lt_transitive,
};
use itertools::Itertools;
use vstd::prelude::*;

verus! {

broadcast use {vstd::seq_lib::group_to_multiset_ensures, vstd::multiset::group_multiset_axioms};

/// One row of a result table: a domain, the number of matched instances in it,
/// and its skew against the least-loaded domain.
pub struct Topology {
    pub key: String,
    pub count: u32,
    pub skew: u32,
}

impl View for Topology {
    type V = (Seq<char>, u32, u32);

    open spec fn view(&self) -> (Seq<char>, u32, u32) {
        (self.key@, self.count, self.skew)
    }
}

impl Topology {
    pub fn new(key: String, count: u32, skew: u32) -> (r: Topology)
        ensures
            r.key == key,
            r.count == count,
            r.skew == skew,
    {
        Topology { key, count, skew }
    }
}

/// The views of a sequence of strings.
pub open spec fn views(s: Seq<String>) -> Seq<Seq<char>> {
    s.map_values(|x: String| x@)
}

/// How many times `k` occurs among the observed values.
pub open spec fn occurrences(values: Seq<Seq<char>>, k: Seq<char>) -> nat {
    values.to_multiset().count(k)
}

/// The known domains together with every observed value.
pub open spec fn merged_keys(values: Seq<Seq<char>>, domains: Set<Seq<char>>) -> Set<Seq<char>> {
    domains + values.to_set()
}

/// `m` is the smallest count over the merged domains, or 0 when there is none.
pub open spec fn is_least_count(m: nat, values: Seq<Seq<char>>, domains: Set<Seq<char>>) -> bool {
    let keys = merged_keys(values, domains);
    &&& forall|k: Seq<char>| #[trigger] keys.contains(k) ==> m <= occurrences(values, k)
    &&& (exists|k: Seq<char>| #[trigger] keys.contains(k) && occurrences(values, k) == m) || (keys
        =~= Set::<Seq<char>>::empty() && m == 0)
}

/// The global minimum: the least count over the merged domains, 0 when there are none.
pub open spec fn global_minimum(values: Seq<Seq<char>>, domains: Set<Seq<char>>) -> nat {
    choose|m: nat| is_least_count(m, values, domains)
}

/// The keys of a sequence of rows.
pub open spec fn row_keys(rows: Seq<(Seq<char>, u32, u32)>) -> Set<Seq<char>> {
    Set::new(|k: Seq<char>| exists|i: int| 0 <= i < rows.len() && #[trigger] rows[i].0 == k)
}

/// Rows strictly ascending by key.
pub open spec fn ascending(rows: Seq<(Seq<char>, u32, u32)>) -> bool {
    forall|i: int, j: int| 0 <= i < j < rows.len() ==> key_lt(#[trigger] rows[i].0, #[trigger] rows[j].0)
}

/// `rows` is the skew table of the observed values against the known domains:
/// one row per merged domain, ascending by key, with its count and its skew.
pub open spec fn is_skew_table(
    rows: Seq<(Seq<char>, u32, u32)>,
    values: Seq<Seq<char>>,
    domains: Set<Seq<char>>,
) -> bool {
    &&& ascending(rows)
    &&& row_keys(rows) == merged_keys(values, domains)
    &&& forall|i: int|
        0 <= i < rows.len() ==> (#[trigger] rows[i]).1 == occurrences(values, rows[i].0) && rows[i].2
            == rows[i].1 - global_minimum(values, domains)
}

/// Relies on `itertools::Itertools::counts`: each distinct item of the input,
/// once, with the number of times it appears.
#[verifier::external_body]
fn count_values(values: Vec<String>) -> (r: Vec<(String, usize)>)
    ensures
        forall|i: int|
            0 <= i < r@.len() ==> views(values@).contains((#[trigger] r@[i]).0@) && r@[i].1
                == views(values@).to_multiset().count(r@[i].0@),
        forall|i: int, j: int| 0 <= i < j < r@.len() ==> (#[trigger] r@[i]).0@ != (#[trigger] r@[j]).0@,
        forall|v: Seq<char>|
            #[trigger] views(values@).contains(v) ==> exists|i: int|
                0 <= i < r@.len() && (#[trigger] r@[i]).0@ == v,
{
    values.into_iter().counts().into_iter().collect()
}

/// The index of the entry whose key is `key`, if any.
fn position_of(entries: &Vec<(String, usize)>, key: &String) -> (r: Option<usize>)
    ensures
        match r {
            Some(p) => p < entries@.len() && entries@[p as int].0@ == key@,
            None => forall|i: int| 0 <= i < entries@.len() ==> (#[trigger] entries@[i]).0@ != key@,
        },
{
    let mut j: usize = 0;
    while j < entries.len()
        invariant
            j <= entries@.len(),
            forall|i: int| 0 <= i < j ==> (#[trigger] entries@[i]).0@ != key@,
        decreases entries@.len() - j,
    {
        if entries[j].0 == *key {
            return Some(j);
        }
        j = j + 1;
    }
    None
}

/// Inserts a row with a new key at its place in rows ascending by key.
fn insert_sorted(rows: &mut Vec<Topology>, t: Topology)
    requires
        ascending(old(rows)@.map_values(|x: Topology| x@)),
        !row_keys(old(rows)@.map_values(|x: Topology| x@)).contains(t.key@),
    ensures
        ascending(final(rows)@.map_values(|x: Topology| x@)),
        row_keys(final(rows)@.map_values(|x: Topology| x@)) == row_keys(
            old(rows)@.map_values(|x: Topology| x@),
        ).insert(t.key@),
        forall|i: int|
            0 <= i < final(rows)@.len() ==> (#[trigger] final(rows)@[i])@ == t@ || old(
                rows,
            )@.map_values(|x: Topology| x@).contains(final(rows)@[i]@),
{
    let ghost before = rows@.map_values(|x: Topology| x@);
    let mut p: usize = 0;
    while p < rows.len() && compare_keys(rows[p].key.as_str(), t.key.as_str()) < 0
        invariant
            p <= rows@.len(),
            rows@.map_values(|x: Topology| x@) == before,
            forall|i: int| 0 <= i < p ==> key_lt(#[trigger] before[i].0, t.key@),
        decreases rows@.len() - p,
    {
        p = p + 1;
    }
    let ghost tv = t@;
    rows.insert(p, t);
    let ghost after = rows@.map_values(|x: Topology| x@);
    assert(after =~= before.insert(p as int, tv));
    proof {
        if p < before.len() {
            assert(before[p as int].0 != tv.0) by {
                assert(row_keys(before).contains(before[p as int].0));
            }
            lemma_key_lt_total(before[p as int].0, tv.0);
        }
        assert forall|i: int, j: int| 0 <= i < j < after.len() implies key_lt(
            #[trigger] after[i].0,
            #[trigger] after[j].0,
        ) by {
            if j == p {
            } else if i == p {
                if j - 1 > p {
                    lemma_key_lt_transitive(tv.0, before[p as int].0, before[j - 1].0);
                }
            } else if j < p {
            } else if i < p {
                assert(after[j] == before[j - 1]);
            } else {
                assert(after[i] == before[i - 1]);
                assert(after[j] == before[j - 1]);
            }
        }
        assert(row_keys(after) =~= row_keys(before).insert(tv.0)) by {
            assert forall|k: Seq<char>| row_keys(before).insert(tv.0).contains(k) implies row_keys(
                after,
            ).contains(k) by {
                if k == tv.0 {
                    assert(after[p as int].0 == k);
                } else {
                    let i = choose|i: int| 0 <= i < before.len() && before[i].0 == k;
                    if i < p {
                        assert(after[i].0 == k);
                    } else {
                        assert(after[i + 1].0 == k);
                    }
                }
            }
            assert forall|k: Seq<char>| row_keys(after).contains(k) implies row_keys(
                before,
            ).insert(tv.0).contains(k) by {
                let i = choose|i: int| 0 <= i < after.len() && after[i].0 == k;
                if i < p {
                    assert(before[i].0 == k);
                } else if i > p {
                    assert(before[i - 1].0 == k);
                }
            }
        }
        assert forall|i: int| 0 <= i < rows@.len() && rows@[i]@ != tv implies before.contains(
            rows@[i]@,
        ) by {
            assert(after[i] == rows@[i]@);
            if i < p {
                assert(before[i] == after[i]);
            } else {
                assert(before[i - 1] == after[i]);
            }
        }
    }
}

/// The rows of one result table, ascending by key.
pub struct Topologies(pub Vec<Topology>);

impl View for Topologies {
    type V = Seq<(Seq<char>, u32, u32)>;

    open spec fn view(&self) -> Seq<(Seq<char>, u32, u32)> {
        self.0@.map_values(|x: Topology| x@)
    }
}

impl Topologies {
    /// Counts the observed domain values, adds every known domain at count 0,
    /// and gives each domain its skew against the global minimum.
    pub fn create_with_skew_calculation(topology_values: Vec<String>, domains: &Vec<String>) -> (r:
        Topologies)
        requires
            topology_values@.len() <= u32::MAX,
        ensures
            is_skew_table(r@, views(topology_values@), views(domains@).to_set()),
    {
        let ghost vals = views(topology_values@);
        let ghost dset = views(domains@).to_set();
        let ghost keys = merged_keys(vals, dset);
        let ghost n = topology_values@.len();
        assert(vals.len() == n);
        let mut merged = count_values(topology_values);
        let mut i: usize = 0;
        while i < domains.len()
            invariant
                vals.len() == n,
                n <= u32::MAX,
                keys == merged_keys(vals, dset),
                dset == views(domains@).to_set(),
                i <= domains@.len(),
                forall|a: int, b: int|
                    0 <= a < b < merged@.len() ==> (#[trigger] merged@[a]).0@ != (
                    #[trigger] merged@[b]).0@,
                forall|a: int|
                    0 <= a < merged@.len() ==> keys.contains((#[trigger] merged@[a]).0@)
                        && merged@[a].1 == occurrences(vals, merged@[a].0@),
                forall|v: Seq<char>|
                    #[trigger] vals.contains(v) ==> exists|a: int|
                        0 <= a < merged@.len() && (#[trigger] merged@[a]).0@ == v,
                forall|d: int|
                    0 <= d < i ==> exists|a: int|
                        0 <= a < merged@.len() && (#[trigger] merged@[a]).0@ == (
                        #[trigger] domains@[d])@,
            decreases domains@.len() - i,
        {
            let d = &domains[i];
            let ghost prev = merged@;
            proof {
                assert(views(domains@)[i as int] == d@);
                assert(dset.contains(d@));
            }
            match position_of(&merged, d) {
                Some(q) => {
                    assert(merged@[q as int].0@ == d@);
                },
                None => {
                    proof {
                        if vals.contains(d@) {
                            let a = choose|a: int| 0 <= a < merged@.len() && merged@[a].0@ == d@;
                            assert(merged@[a].0@ != d@);
                        }
                        assert(!vals.contains(d@));
                    }
                    merged.push((d.clone(), 0));
                    assert(merged@[merged@.len() - 1].0@ == d@);
                },
            }
            proof {
                assert forall|v: Seq<char>| #[trigger] vals.contains(v) implies exists|a: int|
                    0 <= a < merged@.len() && (#[trigger] merged@[a]).0@ == v by {
                    let a = choose|a: int| 0 <= a < prev.len() && prev[a].0@ == v;
                    assert(merged@[a] == prev[a]);
                }
                assert forall|e: int| 0 <= e <= i implies exists|a: int|
                    0 <= a < merged@.len() && (#[trigger] merged@[a]).0@ == (
                    #[trigger] domains@[e])@ by {
                    if e < i {
                        let a = choose|a: int| 0 <= a < prev.len() && prev[a].0@ == domains@[e]@;
                        assert(merged@[a] == prev[a]);
                    } else {
                        let a = choose|a: int| 0 <= a < merged@.len() && merged@[a].0@ == d@;
                    }
                }
            }
            i = i + 1;
        }
        assert forall|k: Seq<char>| #[trigger] keys.contains(k) implies exists|a: int|
            0 <= a < merged@.len() && (#[trigger] merged@[a]).0@ == k by {
            if dset.contains(k) {
                let d = choose|d: int| 0 <= d < views(domains@).len() && views(domains@)[d] == k;
                assert(domains@[d]@ == k);
            } else {
                assert(vals.to_set().contains(k));
                assert(vals.contains(k));
            }
        }
        // the least count
        let mut least: usize = 0;
        if merged.len() > 0 {
            least = merged[0].1;
            let mut j: usize = 1;
            while j < merged.len()
                invariant
                    1 <= j <= merged@.len(),
                    exists|a: int| 0 <= a < j && (#[trigger] merged@[a]).1 == least,
                    forall|a: int| 0 <= a < j ==> least <= (#[trigger] merged@[a]).1,
                decreases merged@.len() - j,
            {
                if merged[j].1 < least {
                    least = merged[j].1;
                }
                j = j + 1;
            }
        }
        proof {
            assert(is_least_count(least as nat, vals, dset)) by {
                assert forall|k: Seq<char>| #[trigger] keys.contains(k) implies least <= occurrences(
                    vals,
                    k,
                ) by {
                    let a = choose|a: int| 0 <= a < merged@.len() && merged@[a].0@ == k;
                }
                if merged@.len() > 0 {
                    let a = choose|a: int| 0 <= a < merged@.len() && merged@[a].1 == least;
                    assert(keys.contains(merged@[a].0@));
                } else {
                    assert(keys =~= Set::<Seq<char>>::empty());
                }
            }
            let g = global_minimum(vals, dset);
            assert(is_least_count(g, vals, dset));
            if keys =~= Set::<Seq<char>>::empty() {
            } else {
                let k1 = choose|k: Seq<char>| keys.contains(k) && occurrences(vals, k) == g;
                let k2 = choose|k: Seq<char>| keys.contains(k) && occurrences(vals, k) == least;
                assert(least <= occurrences(vals, k1));
                assert(g <= occurrences(vals, k2));
            }
            assert(g == least);
        }
        let mut rows: Vec<Topology> = Vec::new();
        let mut j: usize = 0;
        while j < merged.len()
            invariant
                j <= merged@.len(),
                n <= u32::MAX,
                vals.len() == n,
                least == global_minimum(vals, dset),
                forall|a: int, b: int|
                    0 <= a < b < merged@.len() ==> (#[trigger] merged@[a]).0@ != (
                    #[trigger] merged@[b]).0@,
                forall|a: int|
                    0 <= a < merged@.len() ==> least <= (#[trigger] merged@[a]).1
                        && merged@[a].1 == occurrences(vals, merged@[a].0@),
                ascending(rows@.map_values(|x: Topology| x@)),
                row_keys(rows@.map_values(|x: Topology| x@)) == Set::new(
                    |k: Seq<char>| exists|a: int| 0 <= a < j && (#[trigger] merged@[a]).0@ == k,
                ),
                forall|b: int|
                    0 <= b < rows@.len() ==> (#[trigger] rows@[b]).count == occurrences(
                        vals,
                        rows@[b].key@,
                    ) && rows@[b].skew == rows@[b].count - least,
            decreases merged@.len() - j,
        {
            let key = merged[j].0.clone();
            let count = merged[j].1;
            proof {
                assert(vals.to_multiset().len() == n);
            }
            let t = Topology::new(key, count as u32, (count - least) as u32);
            let ghost old_rows = rows@.map_values(|x: Topology| x@);
            proof {
                if row_keys(old_rows).contains(t.key@) {
                    let a = choose|a: int| 0 <= a < j && merged@[a].0@ == t.key@;
                    assert(merged@[a].0@ != merged@[j as int].0@);
                }
            }
            insert_sorted(&mut rows, t);
            proof {
                let new_rows = rows@.map_values(|x: Topology| x@);
                assert(Set::new(
                    |k: Seq<char>| exists|a: int| 0 <= a < j + 1 && (#[trigger] merged@[a]).0@ == k,
                ) =~= Set::new(
                    |k: Seq<char>| exists|a: int| 0 <= a < j && (#[trigger] merged@[a]).0@ == k,
                ).insert(merged@[j as int].0@));
                assert forall|b: int| 0 <= b < rows@.len() implies (#[trigger] rows@[b]).count
                    == occurrences(vals, rows@[b].key@) && rows@[b].skew == rows@[b].count
                    - least by {
                    assert(new_rows[b] == rows@[b]@);
                    if new_rows[b] != t@ {
                        let c = choose|c: int| 0 <= c < old_rows.len() && old_rows[c] == new_rows[b];
                    }
                }
            }
            j = j + 1;
        }
        let r = Topologies(rows);
        proof {
            assert(row_keys(r@) =~= keys) by {
                assert forall|k: Seq<char>| #[trigger] keys.contains(k) implies row_keys(r@).contains(k) by {
                    let a = choose|a: int| 0 <= a < merged@.len() && merged@[a].0@ == k;
                }
            }
            assert forall|i: int| 0 <= i < r@.len() implies (#[trigger] r@[i]).1 == occurrences(
                vals,
                r@[i].0,
            ) && r@[i].2 == r@[i].1 - global_minimum(vals, dset) by {
                assert(r@[i] == r.0@[i]@);
            }
        }
        r
    }

    /// The rows, ascending by key.
    pub fn into_vec(self) -> (r: Vec<Topology>)
        ensures
            r@ == self.0@,
    {
        self.0
    }
}

/// Order on rows: by key, then count, then skew.
pub open spec fn row_lt(a: (Seq<char>, u32, u32), b: (Seq<char>, u32, u32)) -> bool {
    key_lt(a.0, b.0) || (a.0 == b.0 && (a.1 < b.1 || (a.1 == b.1 && a.2 < b.2)))
}

/// Lexicographic order on row sequences.
pub open spec fn rows_lt(a: Seq<(Seq<char>, u32, u32)>, b: Seq<(Seq<char>, u32, u32)>) -> bool
    decreases a.len(),
{
    if a.len() == 0 {
        b.len() > 0
    } else if b.len() == 0 {
        false
    } else if a[0] != b[0] {
        row_lt(a[0], b[0])
    } else {
        rows_lt(a.drop_first(), b.drop_first())
    }
}

/// Order on headers: an absent header first, then by key.
pub open spec fn header_lt(a: Option<Seq<char>>, b: Option<Seq<char>>) -> bool {
    match (a, b) {
        (None, Some(_)) => true,
        (Some(x), Some(y)) => key_lt(x, y),
        _ => false,
    }
}

/// Order on result tables: by header, then by rows.
pub open spec fn table_lt(
    a: (Option<Seq<char>>, Seq<(Seq<char>, u32, u32)>),
    b: (Option<Seq<char>>, Seq<(Seq<char>, u32, u32)>),
) -> bool {
    header_lt(a.0, b.0) || (a.0 == b.0 && rows_lt(a.1, b.1))
}

proof fn lemma_row_lt_total(a: (Seq<char>, u32, u32), b: (Seq<char>, u32, u32))
    ensures
        row_lt(a, b) || row_lt(b, a) || a == b,
{
    lemma_key_lt_total(a.0, b.0);
}

proof fn lemma_rows_lt_total(a: Seq<(Seq<char>, u32, u32)>, b: Seq<(Seq<char>, u32, u32)>)
    ensures
        rows_lt(a, b) || rows_lt(b, a) || a == b,
    decreases a.len(),
{
    if a.len() > 0 && b.len() > 0 {
        if a[0] == b[0] {
            lemma_rows_lt_total(a.drop_first(), b.drop_first());
            if a.drop_first() == b.drop_first() {
                assert(a =~= seq![a[0]] + a.drop_first());
                assert(b =~= seq![b[0]] + b.drop_first());
            }
        } else {
            lemma_row_lt_total(a[0], b[0]);
        }
    } else if a.len() == 0 && b.len() == 0 {
        assert(a =~= b);
    }
}

proof fn lemma_table_lt_total(
    a: (Option<Seq<char>>, Seq<(Seq<char>, u32, u32)>),
    b: (Option<Seq<char>>, Seq<(Seq<char>, u32, u32)>),
)
    ensures
        table_lt(a, b) || table_lt(b, a) || a == b,
{
    lemma_rows_lt_total(a.1, b.1);
    match (a.0, b.0) {
        (Some(x), Some(y)) => lemma_key_lt_total(x, y),
        _ => {},
    }
}

/// Two row sequences that share their first `i` rows compare as what follows them.
proof fn lemma_rows_lt_suffix(a: Seq<(Seq<char>, u32, u32)>, b: Seq<(Seq<char>, u32, u32)>, i: int)
    requires
        0 <= i <= a.len(),
        i <= b.len(),
        a.subrange(0, i) == b.subrange(0, i),
    ensures
        rows_lt(a, b) == rows_lt(a.subrange(i, a.len() as int), b.subrange(i, b.len() as int)),
    decreases i,
{
    if i > 0 {
        assert(a[0] == a.subrange(0, i)[0]);
        assert(b[0] == b.subrange(0, i)[0]);
        assert(a.drop_first().subrange(0, i - 1) =~= a.subrange(0, i).drop_first());
        assert(b.drop_first().subrange(0, i - 1) =~= b.subrange(0, i).drop_first());
        lemma_rows_lt_suffix(a.drop_first(), b.drop_first(), i - 1);
        assert(a.drop_first().subrange(i - 1, a.len() - 1) =~= a.subrange(i, a.len() as int));
        assert(b.drop_first().subrange(i - 1, b.len() - 1) =~= b.subrange(i, b.len() as int));
    } else {
        assert(a.subrange(0, a.len() as int) =~= a);
        assert(b.subrange(0, b.len() as int) =~= b);
    }
}

/// Compares two rows: negative when `a` sorts first, zero when equal, positive otherwise.
fn compare_rows(a: &Topology, b: &Topology) -> (r: i8)
    ensures
        r < 0 <==> row_lt(a@, b@),
        r == 0 <==> a@ == b@,
{
    let c = compare_keys(a.key.as_str(), b.key.as_str());
    proof {
        lemma_key_lt_asymmetric(a.key@, b.key@);
        crate::order::lemma_key_lt_irreflexive(a.key@);
    }
    if c != 0 {
        c
    } else if a.count < b.count || (a.count == b.count && a.skew < b.skew) {
        -1
    } else if a.count == b.count && a.skew == b.skew {
        0
    } else {
        1
    }
}

/// Compares two row sequences lexicographically.
fn compare_row_seqs(a: &Topologies, b: &Topologies) -> (r: i8)
    ensures
        r < 0 <==> rows_lt(a@, b@),
        r == 0 <==> a@ == b@,
{
    let x = &a.0;
    let y = &b.0;
    let ghost av = a@;
    let ghost bv = b@;
    let mut i: usize = 0;
    let mut c: i8 = 0;
    while i < x.len() && i < y.len()
        invariant
            av == x@.map_values(|t: Topology| t@),
            bv == y@.map_values(|t: Topology| t@),
            av == a@,
            bv == b@,
            i <= x@.len(),
            i <= y@.len(),
            c == 0,
            av.subrange(0, i as int) == bv.subrange(0, i as int),
        decreases x@.len() - i,
    {
        let d = compare_rows(&x[i], &y[i]);
        if d != 0 {
            proof {
                assert(av[i as int] == x@[i as int]@);
                assert(bv[i as int] == y@[i as int]@);
                lemma_rows_lt_suffix(av, bv, i as int);
                let sa = av.subrange(i as int, av.len() as int);
                let sb = bv.subrange(i as int, bv.len() as int);
                assert(sa[0] == av[i as int]);
                assert(sb[0] == bv[i as int]);
                assert(sa[0] != sb[0]);
                assert(rows_lt(sa, sb) == row_lt(sa[0], sb[0]));
                if av == bv {
                    assert(av[i as int] == bv[i as int]);
                }
            }
            return d;
        }
        assert(av.subrange(0, i + 1) =~= av.subrange(0, i as int).push(av[i as int]));
        assert(bv.subrange(0, i + 1) =~= bv.subrange(0, i as int).push(bv[i as int]));
        i = i + 1;
    }
    proof {
        lemma_rows_lt_suffix(av, bv, i as int);
    }
    if i < y.len() {
        proof {
            if av == bv {
                assert(av.len() == bv.len());
            }
        }
        -1
    } else if i < x.len() {
        proof {
            if av == bv {
                assert(av.len() == bv.len());
            }
        }
        1
    } else {
        assert(av =~= av.subrange(0, i as int));
        assert(bv =~= bv.subrange(0, i as int));
        0
    }
}

/// One result table: an optional header and its rows.
pub struct TopologyTable {
    pub topologies: Topologies,
    pub header: Option<String>,
}

/// The view of an optional string.
pub open spec fn header_view(h: Option<String>) -> Option<Seq<char>> {
    match h {
        Some(s) => Some(s@),
        None => None,
    }
}

impl View for TopologyTable {
    type V = (Option<Seq<char>>, Seq<(Seq<char>, u32, u32)>);

    open spec fn view(&self) -> (Option<Seq<char>>, Seq<(Seq<char>, u32, u32)>) {
        (header_view(self.header), self.topologies@)
    }
}

/// Compares two optional headers.
fn compare_headers(a: &Option<String>, b: &Option<String>) -> (r: i8)
    ensures
        r < 0 <==> header_lt(header_view(*a), header_view(*b)),
        r == 0 <==> header_view(*a) == header_view(*b),
{
    match (a, b) {
        (None, None) => 0,
        (None, Some(_)) => -1,
        (Some(_), None) => 1,
        (Some(x), Some(y)) => compare_keys(x.as_str(), y.as_str()),
    }
}

/// Compares two result tables: by header, then by rows.
fn compare_tables(a: &TopologyTable, b: &TopologyTable) -> (r: i8)
    ensures
        r < 0 <==> table_lt(a@, b@),
        r == 0 <==> a@ == b@,
{
    let h = compare_headers(&a.header, &b.header);
    if h != 0 {
        proof {
            match (header_view(a.header), header_view(b.header)) {
                (Some(x), Some(y)) => lemma_key_lt_asymmetric(x, y),
                _ => {},
            }
        }
        h
    } else {
        compare_row_seqs(&a.topologies, &b.topologies)
    }
}

impl TopologyTable {
    pub fn new(topologies: Topologies, header: Option<String>) -> (r: TopologyTable)
        ensures
            r.topologies == topologies,
            r.header == header,
    {
        TopologyTable { topologies, header }
    }

    /// The table of the observed domain values against the known domains, under `header`.
    pub fn create(topology_values: Vec<String>, domains: &Vec<String>, header: Option<String>) -> (r:
        TopologyTable)
        requires
            topology_values@.len() <= u32::MAX,
        ensures
            is_skew_table(r.topologies@, views(topology_values@), views(domains@).to_set()),
            r.header == header,
    {
        let topologies = Topologies::create_with_skew_calculation(topology_values, domains);
        TopologyTable::new(topologies, header)
    }
}

/// Tables strictly ascending, each next to the one that follows it.
pub open spec fn tables_ascending(s: Seq<(Option<Seq<char>>, Seq<(Seq<char>, u32, u32)>)>) -> bool {
    forall|i: int| 0 <= i < s.len() - 1 ==> table_lt(#[trigger] s[i], s[i + 1])
}

/// How `after` comes from `before` when `t` is inserted: unchanged when an equal
/// table is there already, else one more member, in order.
pub open spec fn inserts_table(
    before: Seq<(Option<Seq<char>>, Seq<(Seq<char>, u32, u32)>)>,
    t: (Option<Seq<char>>, Seq<(Seq<char>, u32, u32)>),
    after: Seq<(Option<Seq<char>>, Seq<(Seq<char>, u32, u32)>)>,
) -> bool {
    &&& before.contains(t) ==> after == before
    &&& !before.contains(t) ==> after.len() == before.len() + 1 && after.to_set()
        == before.to_set().insert(t)
    &&& tables_ascending(after)
    &&& after.no_duplicates()
}

/// Inserting a new table after those that sort before it keeps the tables ascending and distinct.
proof fn lemma_insert_in_place(
    before: Seq<(Option<Seq<char>>, Seq<(Seq<char>, u32, u32)>)>,
    tv: (Option<Seq<char>>, Seq<(Seq<char>, u32, u32)>),
    p: int,
)
    requires
        tables_ascending(before),
        before.no_duplicates(),
        !before.contains(tv),
        0 <= p <= before.len(),
        p > 0 ==> table_lt(before[p - 1], tv),
        p < before.len() ==> !table_lt(before[p], tv),
    ensures
        inserts_table(before, tv, before.insert(p, tv)),
{
    let after = before.insert(p, tv);
    if p < before.len() {
        lemma_table_lt_total(before[p], tv);
    }
    assert forall|i: int| 0 <= i < after.len() - 1 implies table_lt(
        #[trigger] after[i],
        after[i + 1],
    ) by {
        if i < p - 1 {
        } else if i == p - 1 {
        } else if i == p {
        } else {
            assert(after[i] == before[i - 1]);
        }
    }
    assert forall|a: int, b: int|
        0 <= a < after.len() && 0 <= b < after.len() && a != b implies after[a]
        != after[b] by {
        if a != p && b != p {
            let a0 = if a < p { a } else { a - 1 };
            let b0 = if b < p { b } else { b - 1 };
            assert(after[a] == before[a0]);
            assert(after[b] == before[b0]);
        } else if a == p {
            let b0 = if b < p { b } else { b - 1 };
            assert(after[b] == before[b0]);
        } else {
            let a0 = if a < p { a } else { a - 1 };
            assert(after[a] == before[a0]);
        }
    }
    assert(after.to_set() =~= before.to_set().insert(tv)) by {
        assert forall|x| after.to_set().contains(x) implies before.to_set().insert(
            tv,
        ).contains(x) by {
            let a = choose|a: int| 0 <= a < after.len() && after[a] == x;
            if a < p {
                assert(before[a] == x);
            } else if a > p {
                assert(before[a - 1] == x);
            }
        }
        assert forall|x| before.to_set().insert(tv).contains(x) implies after.to_set().contains(
            x,
        ) by {
            if x == tv {
                assert(after[p] == x);
            } else {
                let a = choose|a: int| 0 <= a < before.len() && before[a] == x;
                if a < p {
                    assert(after[a] == x);
                } else {
                    assert(after[a + 1] == x);
                }
            }
        }
    }
}

/// An ordered collection of result tables without duplicates.
pub struct TopologyTables(Vec<TopologyTable>);

impl View for TopologyTables {
    type V = Seq<(Option<Seq<char>>, Seq<(Seq<char>, u32, u32)>)>;

    closed spec fn view(&self) -> Seq<(Option<Seq<char>>, Seq<(Seq<char>, u32, u32)>)> {
        self.0@.map_values(|t: TopologyTable| t@)
    }
}

impl TopologyTables {
    /// Well formed: ascending and free of duplicates.
    pub open spec fn wf(&self) -> bool {
        tables_ascending(self@) && self@.no_duplicates()
    }

    pub fn new() -> (r: TopologyTables)
        ensures
            r.wf(),
            r@ == Seq::<(Option<Seq<char>>, Seq<(Seq<char>, u32, u32)>)>::empty(),
    {
        let r = TopologyTables(Vec::new());
        assert(r@ =~= Seq::<(Option<Seq<char>>, Seq<(Seq<char>, u32, u32)>)>::empty());
        r
    }

    pub fn len(&self) -> (r: usize)
        ensures
            r == self@.len(),
    {
        self.0.len()
    }

    /// The tables, in order.
    pub fn into_vec(self) -> (r: Vec<TopologyTable>)
        ensures
            r@.map_values(|t: TopologyTable| t@) == self@,
    {
        self.0
    }

    /// Adds a table unless one equal to it in every field is there already.
    pub fn insert(&mut self, t: TopologyTable)
        requires
            old(self).wf(),
        ensures
            final(self).wf(),
            inserts_table(old(self)@, t@, final(self)@),
    {
        let ghost before = self@;
        let mut i: usize = 0;
        while i < self.0.len()
            invariant
                self@ == before,
                tables_ascending(before),
                before.no_duplicates(),
                i <= before.len(),
                forall|a: int| 0 <= a < i ==> before[a] != t@,
            decreases before.len() - i,
        {
            if compare_tables(&self.0[i], &t) == 0 {
                assert(before[i as int] == t@);
                return;
            }
            i = i + 1;
        }
        assert(!before.contains(t@));
        let mut p: usize = 0;
        while p < self.0.len() && compare_tables(&self.0[p], &t) < 0
            invariant
                self@ == before,
                p <= before.len(),
                p > 0 ==> table_lt(before[p - 1], t@),
            decreases before.len() - p,
        {
            p = p + 1;
        }
        let ghost tv = t@;
        self.0.insert(p, t);
        proof {
            assert(self@ =~= before.insert(p as int, tv));
            lemma_insert_in_place(before, tv, p as int);
        }
    }
}

/// Over a finite set of keys, some key has the least count.
proof fn lemma_least_key_exists(keys: Set<Seq<char>>, values: Seq<Seq<char>>)
    requires
        keys.finite(),
        keys.len() > 0,
    ensures
        exists|k: Seq<char>|
            #[trigger] keys.contains(k) && forall|k2: Seq<char>|
                #[trigger] keys.contains(k2) ==> occurrences(values, k) <= occurrences(values, k2),
    decreases keys.len(),
{
    let x = keys.choose();
    let rest = keys.remove(x);
    if rest.len() == 0 {
        vstd::set_lib::lemma_set_empty_equivalency_len(rest);
        assert forall|k2: Seq<char>| #[trigger] keys.contains(k2) implies occurrences(values, x)
            <= occurrences(values, k2) by {
            if k2 != x {
                assert(rest.contains(k2));
            }
        }
    } else {
        lemma_least_key_exists(rest, values);
        let m = choose|k: Seq<char>|
            #[trigger] rest.contains(k) && forall|k2: Seq<char>|
                #[trigger] rest.contains(k2) ==> occurrences(values, k) <= occurrences(values, k2);
        if occurrences(values, x) <= occurrences(values, m) {
            assert forall|k2: Seq<char>| #[trigger] keys.contains(k2) implies occurrences(values, x)
                <= occurrences(values, k2) by {
                if k2 != x {
                    assert(rest.contains(k2));
                }
            }
        } else {
            assert forall|k2: Seq<char>| #[trigger] keys.contains(k2) implies occurrences(values, m)
                <= occurrences(values, k2) by {
                if k2 != x {
                    assert(rest.contains(k2));
                }
            }
        }
    }
}

/// Over a finite set of known domains, the global minimum is the least count
/// among the merged domains (0 when there are none).
pub proof fn lemma_global_minimum_is_least(values: Seq<Seq<char>>, domains: Set<Seq<char>>)
    requires
        domains.finite(),
    ensures
        is_least_count(global_minimum(values, domains), values, domains),
{
    let keys = merged_keys(values, domains);
    vstd::seq_lib::seq_to_set_is_finite(values);
    vstd::set_lib::lemma_set_empty_equivalency_len(keys);
    if keys.len() == 0 {
        assert(is_least_count(0, values, domains));
    } else {
        lemma_least_key_exists(keys, values);
        let k = choose|k: Seq<char>|
            #[trigger] keys.contains(k) && forall|k2: Seq<char>|
                #[trigger] keys.contains(k2) ==> occurrences(values, k) <= occurrences(values, k2);
        assert(is_least_count(occurrences(values, k), values, domains));
    }
}

/// No row count is below the global minimum, so no skew is negative: for every
/// merged domain, `count - globalMinimum >= 0`.
pub proof fn lemma_skew_is_never_negative(values: Seq<Seq<char>>, domains: Set<Seq<char>>)
    requires
        domains.finite(),
    ensures
        forall|k: Seq<char>|
            #[trigger] merged_keys(values, domains).contains(k) ==> global_minimum(values, domains)
                <= occurrences(values, k) && occurrences(values, k) - global_minimum(values, domains)
                >= 0,
{
    lemma_global_minimum_is_least(values, domains);
}

/// Two least counts of the same values and domains are the same number.
proof fn lemma_least_count_unique(m1: nat, m2: nat, values: Seq<Seq<char>>, domains: Set<Seq<char>>)
    requires
        is_least_count(m1, values, domains),
        is_least_count(m2, values, domains),
    ensures
        m1 == m2,
{
    let keys = merged_keys(values, domains);
    if keys =~= Set::<Seq<char>>::empty() {
    } else {
        let k1 = choose|k: Seq<char>| keys.contains(k) && occurrences(values, k) == m1;
        let k2 = choose|k: Seq<char>| keys.contains(k) && occurrences(values, k) == m2;
        assert(m1 <= occurrences(values, k2));
        assert(m2 <= occurrences(values, k1));
    }
}

/// Two row sequences ascending by key, with the same keys and the same row for
/// each key, are the same sequence.
proof fn lemma_ascending_rows_unique(a: Seq<(Seq<char>, u32, u32)>, b: Seq<(Seq<char>, u32, u32)>)
    requires
        ascending(a),
        ascending(b),
        row_keys(a) == row_keys(b),
        forall|i: int, j: int|
            0 <= i < a.len() && 0 <= j < b.len() && (#[trigger] a[i]).0 == (#[trigger] b[j]).0
                ==> a[i] == b[j],
    ensures
        a == b,
    decreases a.len(),
{
    if a.len() == 0 {
        if b.len() > 0 {
            assert(row_keys(b).contains(b[0].0));
        }
        assert(a =~= b);
    } else {
        assert(row_keys(a).contains(a[0].0));
        let j = choose|j: int| 0 <= j < b.len() && b[j].0 == a[0].0;
        assert(row_keys(b).contains(b[0].0));
        let i = choose|i: int| 0 <= i < a.len() && a[i].0 == b[0].0;
        if i > 0 && j > 0 {
            assert(key_lt(a[0].0, a[i].0));
            assert(key_lt(b[0].0, b[j].0));
            lemma_key_lt_asymmetric(a[0].0, b[0].0);
        }
        assert(a[0].0 == b[0].0);
        assert(a[0] == b[0]);
        let a1 = a.drop_first();
        let b1 = b.drop_first();
        assert forall|k: Seq<char>| row_keys(a1).contains(k) <==> row_keys(a).contains(k) && k
            != a[0].0 by {
            if row_keys(a1).contains(k) {
                let x = choose|x: int| 0 <= x < a1.len() && a1[x].0 == k;
                assert(a[x + 1].0 == k);
                assert(key_lt(a[0].0, a[x + 1].0));
                crate::order::lemma_key_lt_irreflexive(k);
            }
            if row_keys(a).contains(k) && k != a[0].0 {
                let x = choose|x: int| 0 <= x < a.len() && a[x].0 == k;
                assert(a1[x - 1].0 == k);
            }
        }
        assert forall|k: Seq<char>| row_keys(b1).contains(k) <==> row_keys(b).contains(k) && k
            != b[0].0 by {
            if row_keys(b1).contains(k) {
                let x = choose|x: int| 0 <= x < b1.len() && b1[x].0 == k;
                assert(b[x + 1].0 == k);
                assert(key_lt(b[0].0, b[x + 1].0));
                crate::order::lemma_key_lt_irreflexive(k);
            }
            if row_keys(b).contains(k) && k != b[0].0 {
                let x = choose|x: int| 0 <= x < b.len() && b[x].0 == k;
                assert(b1[x - 1].0 == k);
            }
        }
        assert(row_keys(a1) =~= row_keys(b1));
        assert forall|i: int, j: int|
            0 <= i < a1.len() && 0 <= j < b1.len() && (#[trigger] a1[i]).0 == (#[trigger] b1[j]).0
                implies a1[i] == b1[j] by {
            assert(a[i + 1] == a1[i]);
            assert(b[j + 1] == b1[j]);
        }
        lemma_ascending_rows_unique(a1, b1);
        assert(a =~= seq![a[0]] + a1);
        assert(b =~= seq![b[0]] + b1);
    }
}

/// The skew table of given values and domains is unique: computing it twice
/// gives the same rows in the same order.
pub proof fn lemma_skew_table_is_unique(
    first: Seq<(Seq<char>, u32, u32)>,
    second: Seq<(Seq<char>, u32, u32)>,
    values: Seq<Seq<char>>,
    domains: Set<Seq<char>>,
)
    requires
        is_skew_table(first, values, domains),
        is_skew_table(second, values, domains),
    ensures
        first == second,
{
    assert forall|i: int, j: int|
        0 <= i < first.len() && 0 <= j < second.len() && (#[trigger] first[i]).0 == (
        #[trigger] second[j]).0 implies first[i] == second[j] by {
    }
    lemma_ascending_rows_unique(first, second);
}

/// Every known domain has a row, with count 0 when no observed value names it.
pub proof fn lemma_every_domain_has_a_row(
    rows: Seq<(Seq<char>, u32, u32)>,
    values: Seq<Seq<char>>,
    domains: Set<Seq<char>>,
)
    requires
        is_skew_table(rows, values, domains),
    ensures
        forall|d: Seq<char>|
            #[trigger] domains.contains(d) ==> exists|i: int|
                0 <= i < rows.len() && (#[trigger] rows[i]).0 == d && (!values.contains(d)
                    ==> rows[i].1 == 0),
{
    assert forall|d: Seq<char>| #[trigger] domains.contains(d) implies exists|i: int|
        0 <= i < rows.len() && (#[trigger] rows[i]).0 == d && (!values.contains(d) ==> rows[i].1
            == 0) by {
        assert(merged_keys(values, domains).contains(d));
        assert(row_keys(rows).contains(d));
        let i = choose|i: int| 0 <= i < rows.len() && rows[i].0 == d;
        assert(rows[i].1 == occurrences(values, d));
    }
}

/// An observed value outside the known domains gets a row of its own, with its
/// count of at least one.
pub proof fn lemma_unknown_value_adds_a_row(
    rows: Seq<(Seq<char>, u32, u32)>,
    values: Seq<Seq<char>>,
    domains: Set<Seq<char>>,
)
    requires
        is_skew_table(rows, values, domains),
    ensures
        forall|v: Seq<char>|
            #[trigger] values.contains(v) && !domains.contains(v) ==> exists|i: int|
                0 <= i < rows.len() && (#[trigger] rows[i]).0 == v && rows[i].1 >= 1,
{
    assert forall|v: Seq<char>| #[trigger] values.contains(v) && !domains.contains(v) implies exists|
        i: int,
    | 0 <= i < rows.len() && (#[trigger] rows[i]).0 == v && rows[i].1 >= 1 by {
        assert(values.to_set().contains(v));
        assert(row_keys(rows).contains(v));
        let i = choose|i: int| 0 <= i < rows.len() && rows[i].0 == v;
        assert(rows[i].1 == occurrences(values, v));
    }
}

/// The rows do not depend on the order in which the values were observed:
/// two orderings of the same values give the same rows, strictly ascending by key.
pub proof fn lemma_rows_ignore_input_order(
    first: Seq<(Seq<char>, u32, u32)>,
    second: Seq<(Seq<char>, u32, u32)>,
    values: Seq<Seq<char>>,
    reordered: Seq<Seq<char>>,
    domains: Set<Seq<char>>,
)
    requires
        domains.finite(),
        values.to_multiset() == reordered.to_multiset(),
        is_skew_table(first, values, domains),
        is_skew_table(second, reordered, domains),
    ensures
        first == second,
        forall|i: int, j: int| 0 <= i < j < first.len() ==> key_lt(#[trigger] first[i].0, #[trigger] first[j].0),
{
    assert(values.to_set() =~= reordered.to_set()) by {
        assert forall|v| values.contains(v) <==> reordered.contains(v) by {
            assert(values.contains(v) <==> values.to_multiset().count(v) > 0);
            assert(reordered.contains(v) <==> reordered.to_multiset().count(v) > 0);
        }
    }
    lemma_global_minimum_is_least(values, domains);
    lemma_global_minimum_is_least(reordered, domains);
    let g1 = global_minimum(values, domains);
    let g2 = global_minimum(reordered, domains);
    assert(is_least_count(g2, values, domains)) by {
        assert(merged_keys(values, domains) == merged_keys(reordered, domains));
    }
    lemma_least_count_unique(g1, g2, values, domains);
    assert(is_skew_table(second, values, domains));
    lemma_skew_table_is_unique(first, second, values, domains);
}

/// Inserting a table equal in every field to one just inserted leaves the
/// collection as it was: identical tables collapse to one member.
pub proof fn lemma_identical_tables_collapse(
    before: Seq<(Option<Seq<char>>, Seq<(Seq<char>, u32, u32)>)>,
    a: (Option<Seq<char>>, Seq<(Seq<char>, u32, u32)>),
    b: (Option<Seq<char>>, Seq<(Seq<char>, u32, u32)>),
    middle: Seq<(Option<Seq<char>>, Seq<(Seq<char>, u32, u32)>)>,
    after: Seq<(Option<Seq<char>>, Seq<(Seq<char>, u32, u32)>)>,
)
    requires
        a == b,
        inserts_table(before, a, middle),
        inserts_table(middle, b, after),
    ensures
        after == middle,
        after.contains(a),
        forall|i: int, j: int|
            0 <= i < after.len() && 0 <= j < after.len() && after[i] == a && after[j] == b ==> i
                == j,
{
    if !before.contains(a) {
        assert(middle.to_set().contains(a));
    }
    assert(middle.contains(a));
}

} // verus!
