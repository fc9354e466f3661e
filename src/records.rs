//! Files found by the traversal, and the size stage: files whose size no
//! other file shares cannot have a duplicate and are dropped.
use vstd::prelude::*;
use std::collections::HashMap;

verus! {

/// A regular file found under the scanned root.
#[derive(Clone, Debug)]
pub struct FileRecord {
    pub size: u64,
    pub path: String,
}

/// The files of one exact size, in the order they were found.
pub struct SizeBucket {
    pub size: u64,
    pub files: Vec<FileRecord>,
}

impl View for SizeBucket {
    type V = (u64, Seq<FileRecord>);

    open spec fn view(&self) -> (u64, Seq<FileRecord>) {
        (self.size, self.files@)
    }
}

/// The view of each bucket of `buckets`.
pub open spec fn bucket_views(buckets: Seq<SizeBucket>) -> Seq<(u64, Seq<FileRecord>)> {
    buckets.map_values(|b: SizeBucket| b@)
}

/// A file of exactly `n` bytes.
pub open spec fn with_size(n: u64) -> spec_fn(FileRecord) -> bool {
    |f: FileRecord| f.size == n
}

/// The distinct sizes of `files`, in order of first appearance.
pub open spec fn sizes_in_order(files: Seq<FileRecord>) -> Seq<u64>
    decreases files.len(),
{
    if files.len() == 0 {
        Seq::empty()
    } else {
        let rest = sizes_in_order(files.drop_last());
        if rest.contains(files.last().size) {
            rest
        } else {
            rest.push(files.last().size)
        }
    }
}

/// One bucket per distinct size of `files`, in order of first appearance,
/// each holding every file of that size in input order.
pub open spec fn size_buckets(files: Seq<FileRecord>) -> Seq<(u64, Seq<FileRecord>)> {
    sizes_in_order(files).map_values(|n: u64| (n, files.filter(with_size(n))))
}

/// A file whose size at least one other file of `files` has too.
pub open spec fn shares_size(files: Seq<FileRecord>) -> spec_fn(FileRecord) -> bool {
    |f: FileRecord| files.filter(with_size(f.size)).len() > 1
}

/// The files of `files` that may have a duplicate, in input order.
pub open spec fn size_candidates_of(files: Seq<FileRecord>) -> Seq<FileRecord> {
    files.filter(shares_size(files))
}

proof fn lemma_sizes_cover(files: Seq<FileRecord>)
    ensures
        forall|i: int| 0 <= i < files.len() ==> sizes_in_order(files).contains(#[trigger] files[i].size),
        sizes_in_order(files).no_duplicates(),
    decreases files.len(),
{
    if files.len() > 0 {
        let rest = files.drop_last();
        lemma_sizes_cover(rest);
        assert forall|i: int| 0 <= i < files.len() implies sizes_in_order(files).contains(#[trigger] files[i].size) by {
            if i < files.len() - 1 {
                assert(rest[i] == files[i]);
                let j = choose|j: int| 0 <= j < sizes_in_order(rest).len() && sizes_in_order(rest)[j] == rest[i].size;
                assert(sizes_in_order(files)[j] == files[i].size);
            } else if !sizes_in_order(rest).contains(files.last().size) {
                assert(sizes_in_order(files).last() == files[i].size);
            }
        }
    }
}

proof fn lemma_filter_none<A>(s: Seq<A>, pred: spec_fn(A) -> bool)
    requires
        forall|i: int| 0 <= i < s.len() ==> !pred(s[i]),
    ensures
        s.filter(pred) == Seq::<A>::empty(),
    decreases s.len(),
{
    reveal(Seq::filter);
    if s.len() > 0 {
        lemma_filter_none(s.drop_last(), pred);
    }
}

/// How the buckets of `files` change when one more file arrives.
proof fn lemma_size_buckets_push(files: Seq<FileRecord>, f: FileRecord)
    ensures
        sizes_in_order(files).contains(f.size) ==> {
            let j = sizes_in_order(files).index_of(f.size);
            let b = size_buckets(files);
            size_buckets(files.push(f)) == b.update(j, (f.size, b[j].1.push(f)))
        },
        !sizes_in_order(files).contains(f.size) ==> size_buckets(files.push(f)) == size_buckets(
            files,
        ).push((f.size, seq![f])),
{
    broadcast use Seq::lemma_filter_push;

    let next = files.push(f);
    assert(next.drop_last() =~= files);
    assert(next.last() == f);
    lemma_sizes_cover(files);
    if sizes_in_order(files).contains(f.size) {
        let j = sizes_in_order(files).index_of(f.size);
        let b = size_buckets(files);
        assert(size_buckets(next) =~= b.update(j, (f.size, b[j].1.push(f))));
    } else {
        assert forall|i: int| 0 <= i < files.len() implies !with_size(f.size)(files[i]) by {
            if files[i].size == f.size {
                assert(sizes_in_order(files).contains(files[i].size));
            }
        }
        lemma_filter_none(files, with_size(f.size));
        assert(Seq::<FileRecord>::empty().push(f) =~= seq![f]);
        assert(size_buckets(next) =~= size_buckets(files).push((f.size, seq![f])));
    }
}

/// `index` maps each size of `buckets` to the position of its bucket.
pub open spec fn indexes(index: Map<u64, usize>, buckets: Seq<SizeBucket>) -> bool {
    &&& forall|n: u64| #[trigger] index.contains_key(n) ==> {
        &&& index[n] < buckets.len()
        &&& buckets[index[n] as int].size == n
    }
    &&& forall|m: int| 0 <= m < buckets.len() ==> #[trigger] index.contains_key(buckets[m].size)
}

/// The buckets of `files`, with the position of each size's bucket.
fn bucket_by_size(files: &Vec<FileRecord>) -> (r: (Vec<SizeBucket>, HashMap<u64, usize>))
    ensures
        bucket_views(r.0@) == size_buckets(files@),
        indexes(r.1@, r.0@),
{
    broadcast use vstd::std_specs::hash::group_hash_axioms;

    let mut r: Vec<SizeBucket> = Vec::new();
    let mut index: HashMap<u64, usize> = HashMap::new();
    let mut i: usize = 0;
    assert(bucket_views(r@) =~= size_buckets(files@.take(0)));
    while i < files.len()
        invariant
            i <= files.len(),
            bucket_views(r@) == size_buckets(files@.take(i as int)),
            indexes(index@, r@),
        decreases files.len() - i,
    {
        let ghost prev = files@.take(i as int);
        let ghost f = files@[i as int];
        assert(files@.take(i + 1) =~= prev.push(f));
        proof {
            lemma_size_buckets_push(prev, f);
            lemma_sizes_cover(prev);
        }
        let size = files[i].size;
        let record = FileRecord { size, path: files[i].path.clone() };
        let ghost old_r = r@;
        assert(bucket_views(old_r).len() == old_r.len());
        assert(size_buckets(prev).len() == sizes_in_order(prev).len());
        assert forall|m: int| 0 <= m < old_r.len() implies old_r[m].size == sizes_in_order(prev)[m] by {
            assert(bucket_views(old_r)[m].0 == size_buckets(prev)[m].0);
        }
        match index.get(&size) {
            Some(found) => {
                let j = *found;
                proof {
                    assert(sizes_in_order(prev)[j as int] == size);
                    let m = sizes_in_order(prev).index_of(size);
                    assert(sizes_in_order(prev)[m] == size);
                }
                r[j].files.push(record);
                assert(bucket_views(r@) =~= bucket_views(old_r).update(
                    j as int,
                    (size, bucket_views(old_r)[j as int].1.push(f)),
                ));
                assert forall|m: int| 0 <= m < r@.len() implies r@[m].size == old_r[m].size by {}
            },
            None => {
                assert(!sizes_in_order(prev).contains(size)) by {
                    if sizes_in_order(prev).contains(size) {
                        let m = sizes_in_order(prev).index_of(size);
                        assert(index@.contains_key(old_r[m].size));
                    }
                }
                let mut bucket: Vec<FileRecord> = Vec::new();
                bucket.push(record);
                index.insert(size, r.len());
                r.push(SizeBucket { size, files: bucket });
                assert(bucket_views(r@) =~= bucket_views(old_r).push((size, seq![f])));
                assert forall|m: int| 0 <= m < r@.len() implies #[trigger] index@.contains_key(r@[m].size) by {
                    if m < old_r.len() {
                        assert(r@[m] == old_r[m]);
                    }
                }
            },
        }
        i = i + 1;
    }
    assert(files@.take(files@.len() as int) =~= files@);
    (r, index)
}

/// Groups `files` by exact size: one bucket per distinct size, in order of
/// first appearance, with the files of that size in input order.
pub fn group_by_size(files: &Vec<FileRecord>) -> (r: Vec<SizeBucket>)
    ensures
        bucket_views(r@) == size_buckets(files@),
{
    bucket_by_size(files).0
}

/// The files that may have a duplicate: those whose size at least one other
/// file has too, in input order.
pub fn size_candidates(files: &Vec<FileRecord>) -> (r: Vec<FileRecord>)
    ensures
        r@ == size_candidates_of(files@),
{
    broadcast use vstd::std_specs::hash::group_hash_axioms;

    let (buckets, index) = bucket_by_size(files);
    let ghost model = size_buckets(files@);
    proof {
        lemma_sizes_cover(files@);
    }
    assert(bucket_views(buckets@).len() == buckets@.len());
    let mut r: Vec<FileRecord> = Vec::new();
    let mut i: usize = 0;
    assert(files@.take(0).filter(shares_size(files@)) =~= r@) by {
        lemma_filter_none(files@.take(0), shares_size(files@));
    }
    while i < files.len()
        invariant
            i <= files.len(),
            bucket_views(buckets@) == model,
            model == size_buckets(files@),
            indexes(index@, buckets@),
            buckets@.len() == sizes_in_order(files@).len(),
            forall|k: int| 0 <= k < files.len() ==> sizes_in_order(files@).contains(#[trigger] files@[k].size),
            r@ == files@.take(i as int).filter(shares_size(files@)),
        decreases files.len() - i,
    {
        let ghost f = files@[i as int];
        proof {
            assert(files@.take(i + 1) =~= files@.take(i as int).push(f));
            files@.take(i as int).lemma_filter_push(f, shares_size(files@));
            let n = sizes_in_order(files@).index_of(f.size);
            assert(model[n].0 == f.size);
            assert(bucket_views(buckets@)[n].0 == buckets@[n].size);
        }
        let size = files[i].size;
        match index.get(&size) {
            Some(found) => {
                let j = *found;
                assert(bucket_views(buckets@)[j as int] == model[j as int]);
                assert(buckets@[j as int].files@ == files@.filter(with_size(size)));
                if buckets[j].files.len() > 1 {
                    r.push(FileRecord { size, path: files[i].path.clone() });
                }
            },
            None => {
                // every size of `files` has a bucket
                assert(false);
            },
        }
        i = i + 1;
    }
    assert(files@.take(files@.len() as int) =~= files@);
    r
}

proof fn lemma_filter_filter<A>(s: Seq<A>, p: spec_fn(A) -> bool, q: spec_fn(A) -> bool)
    ensures
        s.filter(p).filter(q) == s.filter(|x: A| p(x) && q(x)),
    decreases s.len(),
{
    reveal(Seq::filter);
    if s.len() > 0 {
        lemma_filter_filter(s.drop_last(), p, q);
        if p(s.last()) {
            s.drop_last().filter(p).lemma_filter_push(s.last(), q);
        }
    }
}

proof fn lemma_filter_same_on<A>(s: Seq<A>, p: spec_fn(A) -> bool, q: spec_fn(A) -> bool)
    requires
        forall|i: int| 0 <= i < s.len() ==> p(s[i]) == q(s[i]),
    ensures
        s.filter(p) == s.filter(q),
    decreases s.len(),
{
    reveal(Seq::filter);
    if s.len() > 0 {
        lemma_filter_same_on(s.drop_last(), p, q);
    }
}

proof fn lemma_filter_all<A>(s: Seq<A>, p: spec_fn(A) -> bool)
    requires
        forall|i: int| 0 <= i < s.len() ==> p(s[i]),
    ensures
        s.filter(p) == s,
    decreases s.len(),
{
    reveal(Seq::filter);
    if s.len() > 0 {
        lemma_filter_all(s.drop_last(), p);
        assert(s.drop_last().push(s.last()) =~= s);
    }
}

/// Running the size stage again on its own output drops nothing.
pub proof fn lemma_size_stage_idempotent(files: Seq<FileRecord>)
    ensures
        size_candidates_of(size_candidates_of(files)) == size_candidates_of(files),
{
    broadcast use Seq::lemma_filter_pred;

    let c = size_candidates_of(files);
    assert forall|i: int| 0 <= i < c.len() implies #[trigger] shares_size(c)(c[i]) by {
        let n = c[i].size;
        let both = |x: FileRecord| shares_size(files)(x) && with_size(n)(x);
        lemma_filter_filter(files, shares_size(files), with_size(n));
        assert(shares_size(files)(c[i]));
        assert forall|k: int| 0 <= k < files.len() implies both(files[k]) == with_size(n)(files[k]) by {}
        lemma_filter_same_on(files, both, with_size(n));
    }
    lemma_filter_all(c, shares_size(c));
}

/// The size stage never adds files.
pub proof fn lemma_size_stage_narrows(files: Seq<FileRecord>)
    ensures
        size_candidates_of(files).len() <= files.len(),
{
    files.lemma_filter_len(shares_size(files));
}

} // verus!
