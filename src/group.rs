//! Grouping files by content key, keeping the groups that hold duplicates,
//! and ordering them for the report.
use vstd::prelude::*;
use std::collections::HashMap;
use crate::digest::ContentKey;

verus! {

/// Files that share a content key: the paths, in the order they were seen.
pub struct DuplicateGroup {
    pub key: ContentKey,
    pub paths: Vec<String>,
}

impl View for DuplicateGroup {
    type V = (ContentKey, Seq<String>);

    open spec fn view(&self) -> (ContentKey, Seq<String>) {
        (self.key, self.paths@)
    }
}

/// The view of each group of `groups`.
pub open spec fn views(groups: Seq<DuplicateGroup>) -> Seq<(ContentKey, Seq<String>)> {
    groups.map_values(|g: DuplicateGroup| g@)
}

/// The paths of the entries of `entries` whose key is `k`, in order.
pub open spec fn paths_with_key(entries: Seq<(ContentKey, String)>, k: ContentKey) -> Seq<String>
    decreases entries.len(),
{
    if entries.len() == 0 {
        Seq::empty()
    } else {
        let rest = paths_with_key(entries.drop_last(), k);
        if entries.last().0 == k {
            rest.push(entries.last().1)
        } else {
            rest
        }
    }
}

/// The distinct keys of `entries`, in order of first appearance.
pub open spec fn keys_in_order(entries: Seq<(ContentKey, String)>) -> Seq<ContentKey>
    decreases entries.len(),
{
    if entries.len() == 0 {
        Seq::empty()
    } else {
        let rest = keys_in_order(entries.drop_last());
        if rest.contains(entries.last().0) {
            rest
        } else {
            rest.push(entries.last().0)
        }
    }
}

/// One group per distinct key of `entries`, in order of the key's first
/// appearance, each holding every path of that key in input order.
pub open spec fn group_model(entries: Seq<(ContentKey, String)>) -> Seq<(ContentKey, Seq<String>)> {
    keys_in_order(entries).map_values(|k: ContentKey| (k, paths_with_key(entries, k)))
}

/// A group with at least two members.
pub open spec fn has_duplicates() -> spec_fn((ContentKey, Seq<String>)) -> bool {
    |g: (ContentKey, Seq<String>)| g.1.len() > 1
}

/// The groups of `entries` that hold duplicates, in order of first appearance.
pub open spec fn duplicate_model(entries: Seq<(ContentKey, String)>) -> Seq<(ContentKey, Seq<String>)> {
    group_model(entries).filter(has_duplicates())
}

/// Number of paths over all of `groups`.
pub open spec fn total_paths(groups: Seq<(ContentKey, Seq<String>)>) -> int
    decreases groups.len(),
{
    if groups.len() == 0 {
        0
    } else {
        total_paths(groups.drop_last()) + groups.last().1.len()
    }
}

proof fn lemma_absent_key_has_no_paths(entries: Seq<(ContentKey, String)>, k: ContentKey)
    requires
        !keys_in_order(entries).contains(k),
    ensures
        paths_with_key(entries, k) == Seq::<String>::empty(),
    decreases entries.len(),
{
    if entries.len() > 0 {
        let rest = keys_in_order(entries.drop_last());
        if rest.contains(entries.last().0) {
            assert(entries.last().0 != k);
        } else {
            assert(keys_in_order(entries).last() == entries.last().0);
            assert(forall|i: int| 0 <= i < rest.len() ==> keys_in_order(entries)[i] == rest[i]);
        }
        lemma_absent_key_has_no_paths(entries.drop_last(), k);
    }
}

proof fn lemma_keys_distinct(entries: Seq<(ContentKey, String)>)
    ensures
        keys_in_order(entries).no_duplicates(),
    decreases entries.len(),
{
    if entries.len() > 0 {
        lemma_keys_distinct(entries.drop_last());
    }
}

/// How the grouping of `entries` changes when one more entry arrives: the
/// group of its key grows by its path, or a new group is appended.
proof fn lemma_group_model_push(entries: Seq<(ContentKey, String)>, e: (ContentKey, String))
    ensures
        keys_in_order(entries).contains(e.0) ==> {
            let j = keys_in_order(entries).index_of(e.0);
            let g = group_model(entries);
            group_model(entries.push(e)) == g.update(j, (e.0, g[j].1.push(e.1)))
        },
        !keys_in_order(entries).contains(e.0) ==> group_model(entries.push(e)) == group_model(
            entries,
        ).push((e.0, seq![e.1])),
{
    let next = entries.push(e);
    assert(next.drop_last() =~= entries);
    assert(next.last() == e);
    lemma_keys_distinct(entries);
    if keys_in_order(entries).contains(e.0) {
        let j = keys_in_order(entries).index_of(e.0);
        let g = group_model(entries);
        assert(group_model(next) =~= g.update(j, (e.0, g[j].1.push(e.1))));
    } else {
        lemma_absent_key_has_no_paths(entries, e.0);
        assert(group_model(next) =~= group_model(entries).push((e.0, seq![e.1])));
    }
}

proof fn lemma_total_paths_update(groups: Seq<(ContentKey, Seq<String>)>, j: int, g: (ContentKey, Seq<String>))
    requires
        0 <= j < groups.len(),
    ensures
        total_paths(groups.update(j, g)) == total_paths(groups) - groups[j].1.len() + g.1.len(),
    decreases groups.len(),
{
    if j < groups.len() - 1 {
        assert(groups.update(j, g).drop_last() =~= groups.drop_last().update(j, g));
        lemma_total_paths_update(groups.drop_last(), j, g);
    } else {
        assert(groups.update(j, g).drop_last() =~= groups.drop_last());
    }
}

/// Grouping by key loses no entry and invents none: the groups hold exactly
/// as many paths as there were entries.
pub proof fn lemma_grouping_keeps_every_entry(entries: Seq<(ContentKey, String)>)
    ensures
        total_paths(group_model(entries)) == entries.len(),
    decreases entries.len(),
{
    if entries.len() > 0 {
        let prev = entries.drop_last();
        let e = entries.last();
        assert(prev.push(e) =~= entries);
        lemma_grouping_keeps_every_entry(prev);
        lemma_group_model_push(prev, e);
        if keys_in_order(prev).contains(e.0) {
            let j = keys_in_order(prev).index_of(e.0);
            let g = group_model(prev);
            lemma_total_paths_update(g, j, (e.0, g[j].1.push(e.1)));
        } else {
            assert(group_model(entries).drop_last() =~= group_model(prev));
        }
    }
}

/// `index` lists, for each digest, the positions of the groups of `groups`
/// whose key has that digest.
spec fn digest_index(index: Map<u128, Vec<usize>>, groups: Seq<DuplicateGroup>) -> bool {
    &&& forall|d: u128, t: int|
        #![trigger index[d]@[t]]
        index.contains_key(d) && 0 <= t < index[d]@.len() ==> {
            &&& index[d]@[t] < groups.len()
            &&& groups[index[d]@[t] as int].key.digest == d
        }
    &&& forall|m: int|
        0 <= m < groups.len() ==> {
            &&& #[trigger] index.contains_key(groups[m].key.digest)
            &&& exists|t: int|
                0 <= t < index[groups[m].key.digest]@.len() && index[groups[m].key.digest]@[t] as int
                    == m
        }
}

/// Groups `entries` by key: one group per distinct key, in order of first
/// appearance, with the paths of that key in input order.
pub fn group_by_content(entries: &Vec<(ContentKey, String)>) -> (r: Vec<DuplicateGroup>)
    ensures
        views(r@) == group_model(entries@),
{
    broadcast use vstd::std_specs::hash::group_hash_axioms;

    let mut r: Vec<DuplicateGroup> = Vec::new();
    let mut index: HashMap<u128, Vec<usize>> = HashMap::new();
    let mut i: usize = 0;
    assert(views(r@) =~= group_model(entries@.take(0)));
    while i < entries.len()
        invariant
            i <= entries.len(),
            views(r@) == group_model(entries@.take(i as int)),
            digest_index(index@, r@),
        decreases entries.len() - i,
    {
        let ghost prev = entries@.take(i as int);
        let ghost e = entries@[i as int];
        assert(entries@.take(i + 1) =~= prev.push(e));
        proof {
            lemma_group_model_push(prev, e);
        }
        let key = entries[i].0;
        let path = entries[i].1.clone();
        let digest = key.digest;
        let mut found: Option<usize> = None;
        match index.get(&digest) {
            Some(positions) => {
                let mut t: usize = 0;
                while t < positions.len() && r[positions[t]].key != key
                    invariant
                        t <= positions.len(),
                        index@.contains_key(digest),
                        positions@ == index@[digest]@,
                        digest_index(index@, r@),
                        forall|u: int| 0 <= u < t ==> r@[positions@[u] as int].key != key,
                    decreases positions.len() - t,
                {
                    t = t + 1;
                }
                if t < positions.len() {
                    found = Some(positions[t]);
                } else {
                    assert forall|m: int| 0 <= m < r@.len() implies r@[m].key != key by {
                        if r@[m].key == key {
                            assert(r@[m].key.digest == digest);
                            let u = choose|u: int| 0 <= u < positions@.len() && positions@[u] as int == m;
                            assert(r@[positions@[u] as int].key != key);
                        }
                    }
                }
            },
            None => {
                assert forall|m: int| 0 <= m < r@.len() implies r@[m].key != key by {
                    if r@[m].key == key {
                        assert(index@.contains_key(r@[m].key.digest));
                    }
                }
            },
        }
        let ghost old_r = r@;
        assert(views(old_r).len() == old_r.len());
        assert(group_model(prev).len() == keys_in_order(prev).len());
        match found {
            Some(j) => {
                proof {
                    assert(views(old_r)[j as int].0 == key);
                    assert(group_model(prev)[j as int].0 == keys_in_order(prev)[j as int]);
                    lemma_keys_distinct(prev);
                    assert(keys_in_order(prev).contains(key));
                    let m = keys_in_order(prev).index_of(key);
                    assert(keys_in_order(prev)[m] == key);
                }
                r[j].paths.push(path);
                assert(views(r@) =~= views(old_r).update(
                    j as int,
                    (key, views(old_r)[j as int].1.push(path)),
                ));
                assert forall|m: int| 0 <= m < r@.len() implies r@[m].key == old_r[m].key by {}
            },
            None => {
                assert(!keys_in_order(prev).contains(key)) by {
                    if keys_in_order(prev).contains(key) {
                        let m = keys_in_order(prev).index_of(key);
                        assert(group_model(prev)[m].0 == keys_in_order(prev)[m]);
                        assert(views(old_r)[m].0 == key);
                    }
                }
                let ghost old_index = index@;
                let mut positions = match index.remove(&digest) {
                    Some(positions) => positions,
                    None => Vec::new(),
                };
                assert(old_index.contains_key(digest) ==> positions@ == old_index[digest]@);
                assert(!old_index.contains_key(digest) ==> positions@.len() == 0);
                positions.push(r.len());
                let ghost pushed = positions@;
                index.insert(digest, positions);
                assert(index@[digest]@ == pushed);
                assert(pushed[pushed.len() - 1] == old_r.len());
                let mut paths: Vec<String> = Vec::new();
                paths.push(path);
                r.push(DuplicateGroup { key, paths });
                assert(views(r@) =~= views(old_r).push((key, seq![path])));
                assert(index@.contains_key(digest));
                assert(forall|d: u128|
                    d != digest ==> (#[trigger] index@.contains_key(d) == old_index.contains_key(d)));
                assert(forall|d: u128|
                    d != digest && index@.contains_key(d) ==> #[trigger] index@[d] == old_index[d]);
                assert forall|m: int| 0 <= m < r@.len() implies {
                    &&& #[trigger] index@.contains_key(r@[m].key.digest)
                    &&& exists|t: int|
                        0 <= t < index@[r@[m].key.digest]@.len() && index@[r@[m].key.digest]@[t] as int
                            == m
                } by {
                    if m < old_r.len() {
                        assert(r@[m] == old_r[m]);
                        assert(old_index.contains_key(old_r[m].key.digest));
                        let u = choose|u: int|
                            0 <= u < old_index[old_r[m].key.digest]@.len()
                                && old_index[old_r[m].key.digest]@[u] as int == m;
                        if r@[m].key.digest == digest {
                            assert(pushed[u] as int == m);
                        } else {
                            assert(index@[r@[m].key.digest] == old_index[r@[m].key.digest]);
                            assert(index@[r@[m].key.digest]@[u] as int == m);
                        }
                    } else {
                        assert(index@[digest]@[pushed.len() - 1] as int == m);
                    }
                }
            },
        }
        i = i + 1;
    }
    assert(entries@.take(entries@.len() as int) =~= entries@);
    r
}

/// Keeps the groups with at least two members, in order.
pub fn retain_duplicate_groups(groups: Vec<DuplicateGroup>) -> (r: Vec<DuplicateGroup>)
    ensures
        views(r@) == views(groups@).filter(has_duplicates()),
{
    let ghost all = groups@;
    let mut r: Vec<DuplicateGroup> = Vec::new();
    for g in it: groups
        invariant
            it.seq() == all,
            views(r@) == views(all.take(it.index() as int)).filter(has_duplicates()),
    {
        let ghost i = it.index();
        proof {
            assert(views(all.take(i + 1)) =~= views(all.take(i as int)).push(all[i as int]@));
            views(all.take(i as int)).lemma_filter_push(all[i as int]@, has_duplicates());
        }
        if g.paths.len() > 1 {
            r.push(g);
            assert(views(r@) =~= views(all.take(i as int)).filter(has_duplicates()).push(all[i as int]@));
        }
    }
    assert(all.take(all.len() as int) =~= all);
    r
}

/// Each group is at least as large, in file size, as every group after it.
pub open spec fn sorted_by_size_desc(groups: Seq<(ContentKey, Seq<String>)>) -> bool {
    forall|i: int, j: int| 0 <= i < j < groups.len() ==> groups[i].0.size >= groups[j].0.size
}

/// A group whose files are `n` bytes long.
pub open spec fn of_size(n: u64) -> spec_fn((ContentKey, Seq<String>)) -> bool {
    |g: (ContentKey, Seq<String>)| g.0.size == n
}

/// `out` is `input` sorted by descending file size, groups of equal size
/// keeping their relative order.
pub open spec fn stable_sorted_by_size(
    input: Seq<(ContentKey, Seq<String>)>,
    out: Seq<(ContentKey, Seq<String>)>,
) -> bool {
    &&& sorted_by_size_desc(out)
    &&& forall|n: u64| #[trigger] out.filter(of_size(n)) == input.filter(of_size(n))
}

proof fn lemma_filter_none<A>(s: Seq<A>, pred: spec_fn(A) -> bool)
    requires
        forall|i: int| 0 <= i < s.len() ==> !pred(s[i]),
    ensures
        s.filter(pred) == Seq::<A>::empty(),
    decreases s.len(),
{
    reveal(Seq::filter);
    if s.len() > 0 {
        lemma_filter_none(s.drop_last(), pred);
    }
}

proof fn lemma_insert_keeps_stable_order(
    input: Seq<(ContentKey, Seq<String>)>,
    out: Seq<(ContentKey, Seq<String>)>,
    p: int,
    x: (ContentKey, Seq<String>),
)
    requires
        stable_sorted_by_size(input, out),
        0 <= p <= out.len(),
        forall|m: int| 0 <= m < p ==> out[m].0.size >= x.0.size,
        forall|m: int| p <= m < out.len() ==> out[m].0.size < x.0.size,
    ensures
        stable_sorted_by_size(input.push(x), out.insert(p, x)),
{
    broadcast use Seq::filter_distributes_over_add, Seq::lemma_filter_push;

    let next = out.insert(p, x);
    let head = out.take(p);
    let tail = out.skip(p);
    assert(next =~= head + seq![x] + tail);
    assert(out =~= head + tail);
    assert(seq![x] =~= Seq::<(ContentKey, Seq<String>)>::empty().push(x));
    lemma_filter_none(Seq::<(ContentKey, Seq<String>)>::empty(), of_size(x.0.size));
    assert forall|n: u64| #[trigger] next.filter(of_size(n)) == input.push(x).filter(of_size(n)) by {
        lemma_filter_none(Seq::<(ContentKey, Seq<String>)>::empty(), of_size(n));
        if n == x.0.size {
            lemma_filter_none(tail, of_size(n));
        }
        assert(out.filter(of_size(n)) == input.filter(of_size(n)));
    }
}

/// Orders `groups` by descending file size; groups of equal size keep their
/// relative order.
pub fn sort_by_size_desc(groups: Vec<DuplicateGroup>) -> (r: Vec<DuplicateGroup>)
    ensures
        stable_sorted_by_size(views(groups@), views(r@)),
{
    let ghost all = groups@;
    let mut r: Vec<DuplicateGroup> = Vec::new();
    assert(views(all.take(0)) =~= views(r@));
    for g in it: groups
        invariant
            it.seq() == all,
            stable_sorted_by_size(views(all.take(it.index() as int)), views(r@)),
    {
        let ghost i = it.index();
        let size = g.key.size;
        let mut p: usize = 0;
        while p < r.len() && r[p].key.size >= size
            invariant
                p <= r.len(),
                forall|m: int| 0 <= m < p ==> r@[m].key.size >= size,
            decreases r.len() - p,
        {
            p = p + 1;
        }
        let ghost before = views(r@);
        proof {
            assert(before.len() == r@.len());
            assert forall|m: int| p <= m < before.len() implies before[m].0.size < size by {
                assert(before[p as int].0.size < size);
            }
            lemma_insert_keeps_stable_order(views(all.take(i as int)), before, p as int, g@);
            assert(views(all.take(i + 1)) =~= views(all.take(i as int)).push(all[i as int]@));
        }
        r.insert(p, g);
        assert(views(r@) =~= before.insert(p as int, all[i as int]@));
    }
    assert(all.take(all.len() as int) =~= all);
    r
}

/// The groups of `entries` that hold duplicates, largest files first.
pub fn find_duplicate_groups(entries: &Vec<(ContentKey, String)>) -> (r: Vec<DuplicateGroup>)
    ensures
        stable_sorted_by_size(duplicate_model(entries@), views(r@)),
{
    let all = group_by_content(entries);
    let dups = retain_duplicate_groups(all);
    sort_by_size_desc(dups)
}

/// Bytes taken by the members of `groups`: each group's file size times its
/// number of members.
pub open spec fn wasted_bytes(groups: Seq<(ContentKey, Seq<String>)>) -> int
    decreases groups.len(),
{
    if groups.len() == 0 {
        0
    } else {
        wasted_bytes(groups.drop_last()) + groups.last().0.size * groups.last().1.len()
    }
}

proof fn lemma_wasted_bytes_prefix(groups: Seq<(ContentKey, Seq<String>)>, i: int)
    requires
        0 <= i <= groups.len(),
    ensures
        0 <= wasted_bytes(groups.take(i)) <= wasted_bytes(groups),
    decreases groups.len(),
{
    let last = groups.last();
    if groups.len() > 0 {
        assert(last.0.size * last.1.len() >= 0) by (nonlinear_arith);
        if i == groups.len() {
            assert(groups.take(i) =~= groups);
            lemma_wasted_bytes_prefix(groups.drop_last(), i - 1);
        } else {
            assert(groups.take(i) =~= groups.drop_last().take(i));
            lemma_wasted_bytes_prefix(groups.drop_last(), i);
        }
    }
}

/// Total bytes taken by the members of `groups`, or `None` when the total
/// does not fit in a `u64`.
pub fn total_wasted_bytes(groups: &Vec<DuplicateGroup>) -> (r: Option<u64>)
    ensures
        wasted_bytes(views(groups@)) <= u64::MAX ==> r == Some(
            wasted_bytes(views(groups@)) as u64,
        ),
        wasted_bytes(views(groups@)) > u64::MAX ==> r is None,
{
    let ghost all = views(groups@);
    let mut total: u64 = 0;
    let mut i: usize = 0;
    assert(all.take(0) =~= Seq::<(ContentKey, Seq<String>)>::empty());
    while i < groups.len()
        invariant
            i <= groups.len(),
            all == views(groups@),
            total == wasted_bytes(all.take(i as int)),
        decreases groups.len() - i,
    {
        let ghost next = all.take(i + 1);
        assert(next.drop_last() =~= all.take(i as int));
        assert(next.last() == groups@[i as int]@);
        proof {
            lemma_wasted_bytes_prefix(all, i + 1);
        }
        let count = groups[i].paths.len() as u64;
        match groups[i].key.size.checked_mul(count) {
            Some(bytes) => match total.checked_add(bytes) {
                Some(t) => {
                    total = t;
                },
                None => {
                    return None;
                },
            },
            None => {
                proof {
                    assert(total >= 0);
                }
                return None;
            },
        }
        i = i + 1;
    }
    assert(all.take(all.len() as int) =~= all);
    Some(total)
}

proof fn lemma_total_paths_filter(
    groups: Seq<(ContentKey, Seq<String>)>,
    pred: spec_fn((ContentKey, Seq<String>)) -> bool,
)
    ensures
        total_paths(groups.filter(pred)) <= total_paths(groups),
    decreases groups.len(),
{
    if groups.len() > 0 {
        let rest = groups.drop_last();
        assert(rest.push(groups.last()) =~= groups);
        rest.lemma_filter_push(groups.last(), pred);
        lemma_total_paths_filter(rest, pred);
        if pred(groups.last()) {
            assert(groups.filter(pred).drop_last() =~= rest.filter(pred));
        }
    }
}

/// Keeping only the groups with duplicates never adds files: the duplicate
/// groups of `entries` hold at most as many paths as there are entries.
pub proof fn lemma_duplicate_groups_narrow(entries: Seq<(ContentKey, String)>)
    ensures
        total_paths(duplicate_model(entries)) <= total_paths(group_model(entries)),
        total_paths(group_model(entries)) == entries.len(),
{
    lemma_grouping_keeps_every_entry(entries);
    lemma_total_paths_filter(group_model(entries), has_duplicates());
}

proof fn lemma_paths_come_from_entries(entries: Seq<(ContentKey, String)>, k: ContentKey, p: String)
    requires
        paths_with_key(entries, k).contains(p),
    ensures
        entries.contains((k, p)),
    decreases entries.len(),
{
    let rest = entries.drop_last();
    if entries.last().0 == k && entries.last().1 == p {
        assert(entries[entries.len() - 1] == (k, p));
    } else {
        if entries.last().0 == k {
            let i = choose|i: int| 0 <= i < paths_with_key(entries, k).len() && paths_with_key(entries, k)[i] == p;
            assert(paths_with_key(rest, k)[i] == p);
        }
        lemma_paths_come_from_entries(rest, k, p);
        let j = choose|j: int| 0 <= j < rest.len() && rest[j] == (k, p);
        assert(entries[j] == (k, p));
    }
}

/// No two entries of `entries` have the same path.
pub open spec fn paths_distinct(entries: Seq<(ContentKey, String)>) -> bool {
    forall|i: int, j: int| 0 <= i < j < entries.len() ==> entries[i].1 != entries[j].1
}

proof fn lemma_paths_with_key_distinct(entries: Seq<(ContentKey, String)>, k: ContentKey)
    requires
        paths_distinct(entries),
    ensures
        paths_with_key(entries, k).no_duplicates(),
    decreases entries.len(),
{
    if entries.len() > 0 {
        let rest = entries.drop_last();
        lemma_paths_with_key_distinct(rest, k);
        if entries.last().0 == k {
            let last = entries.last().1;
            if paths_with_key(rest, k).contains(last) {
                lemma_paths_come_from_entries(rest, k, last);
                let j = choose|j: int| 0 <= j < rest.len() && rest[j] == (k, last);
                assert(entries[j].1 == entries[entries.len() - 1].1);
            }
        }
    }
}

/// Every reported group is a real duplicate group: it has at least two
/// members, each member is an entry with the group's key (so all share one
/// size and one sample digest), and when the entries name distinct paths the
/// group's paths are distinct too.
pub proof fn lemma_reported_groups_are_valid(
    entries: Seq<(ContentKey, String)>,
    report: Seq<(ContentKey, Seq<String>)>,
)
    requires
        stable_sorted_by_size(duplicate_model(entries), report),
    ensures
        forall|i: int|
            0 <= i < report.len() ==> {
                &&& #[trigger] report[i].1.len() >= 2
                &&& forall|p: String| report[i].1.contains(p) ==> entries.contains((report[i].0, p))
                &&& paths_distinct(entries) ==> report[i].1.no_duplicates()
            },
{
    let dups = duplicate_model(entries);
    let groups = group_model(entries);
    assert forall|i: int| 0 <= i < report.len() implies {
        &&& #[trigger] report[i].1.len() >= 2
        &&& forall|p: String| report[i].1.contains(p) ==> entries.contains((report[i].0, p))
        &&& paths_distinct(entries) ==> report[i].1.no_duplicates()
    } by {
        let g = report[i];
        let n = g.0.size;
        report.lemma_filter_contains(of_size(n), i);
        assert(report.filter(of_size(n)) == dups.filter(of_size(n)));
        dups.lemma_filter_contains_rev(of_size(n), g);
        groups.lemma_filter_contains_rev(has_duplicates(), g);
        let d = choose|d: int| 0 <= d < dups.len() && dups[d] == g;
        groups.lemma_filter_pred(has_duplicates(), d);
        let m = choose|m: int| 0 <= m < groups.len() && groups[m] == g;
        let k = keys_in_order(entries)[m];
        assert(g == (k, paths_with_key(entries, k)));
        assert forall|p: String| g.1.contains(p) implies entries.contains((g.0, p)) by {
            lemma_paths_come_from_entries(entries, k, p);
        }
        if paths_distinct(entries) {
            lemma_paths_with_key_distinct(entries, k);
        }
    }
}

} // verus!
