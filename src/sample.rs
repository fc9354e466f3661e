//! The bounded byte sample taken from each candidate file.
use vstd::prelude::*;

verus! {

/// Number of bytes read from the start of a file, and at most from its tail.
pub const SAMPLE_WINDOW: usize = 1024;

/// Offset of the tail read for a file of `size` bytes (`size > 1024`).
///
/// Files up to two windows long are read again from offset 0 rather than
/// from `size - 1024`, so for them the tail window repeats the head window.
pub open spec fn tail_start(size: int) -> int {
    if size > 2048 {
        size - 1024
    } else {
        0
    }
}

/// The sample of a file whose bytes are `c`, every read returning in full.
pub open spec fn sample_window(c: Seq<u8>) -> Seq<u8> {
    if c.len() <= 1024 {
        c
    } else {
        c.subrange(0, 1024) + c.subrange(tail_start(c.len() as int), tail_start(c.len() as int)
            + 1024)
    }
}

/// Where to read the tail window of a file of `file_size` bytes, or `None`
/// when the first window already covers the whole file.
pub fn tail_window_start(file_size: u64) -> (r: Option<u64>)
    ensures
        file_size <= 1024 ==> r is None,
        file_size > 1024 ==> r == Some(tail_start(file_size as int) as u64),
{
    if file_size <= 1024 {
        None
    } else if file_size > 2048 {
        Some(file_size - 1024)
    } else {
        Some(0)
    }
}

/// The bytes `v[from..to]` as a new vector.
fn copy_range(v: &Vec<u8>, from: usize, to: usize) -> (r: Vec<u8>)
    requires
        from <= to <= v.len(),
    ensures
        r@ == v@.subrange(from as int, to as int),
{
    let mut r: Vec<u8> = Vec::with_capacity(to - from);
    let mut i: usize = from;
    while i < to
        invariant
            from <= i <= to <= v.len(),
            r@ == v@.subrange(from as int, i as int),
        decreases to - i,
    {
        r.push(v[i]);
        i = i + 1;
    }
    r
}

/// Joins what the two reads of a file returned into its sample.
///
/// `head[..head_read]` are the bytes read from offset 0; `tail[..tail_read]`
/// those read from `tail_window_start(file_size)`. A file of at most one
/// window has no tail read, and `tail` is then ignored.
pub fn assemble_sample(
    file_size: u64,
    head: &Vec<u8>,
    head_read: usize,
    tail: &Vec<u8>,
    tail_read: usize,
) -> (r: Vec<u8>)
    requires
        head_read <= head.len(),
        tail_read <= tail.len(),
    ensures
        file_size <= 1024 ==> r@ == head@.take(head_read as int),
        file_size > 1024 ==> r@ == head@.take(head_read as int) + tail@.take(tail_read as int),
{
    let mut r = copy_range(head, 0, head_read);
    if file_size > 1024 {
        let mut i: usize = 0;
        while i < tail_read
            invariant
                i <= tail_read <= tail.len(),
                r@ == head@.take(head_read as int) + tail@.take(i as int),
            decreases tail_read - i,
        {
            r.push(tail[i]);
            i = i + 1;
            assert(r@ =~= head@.take(head_read as int) + tail@.take(i as int));
        }
    }
    r
}

/// The sample of a file held whole in memory.
pub fn sample_of(contents: &Vec<u8>) -> (r: Vec<u8>)
    requires
        contents.len() <= u64::MAX,
    ensures
        r@ == sample_window(contents@),
{
    let len = contents.len();
    let head_end: usize = if len < SAMPLE_WINDOW { len } else { SAMPLE_WINDOW };
    let head = copy_range(contents, 0, head_end);
    let tail = match tail_window_start(len as u64) {
        Some(start) => copy_range(contents, start as usize, start as usize + SAMPLE_WINDOW),
        None => Vec::new(),
    };
    let r = assemble_sample(len as u64, &head, head.len(), &tail, tail.len());
    assert(head@.take(head.len() as int) =~= head@);
    assert(tail@.take(tail.len() as int) =~= tail@);
    r
}

/// When the head read returns the first window of a file and the tail read
/// returns its tail window, the assembled sample is the file's sample.
pub proof fn lemma_full_reads_give_sample_window(c: Seq<u8>, head: Seq<u8>, tail: Seq<u8>)
    requires
        head == c.take(if c.len() < 1024 { c.len() as int } else { 1024 }),
        c.len() > 1024 ==> tail == c.subrange(tail_start(c.len() as int), tail_start(
            c.len() as int,
        ) + 1024),
    ensures
        c.len() <= 1024 ==> head == sample_window(c),
        c.len() > 1024 ==> head + tail == sample_window(c),
{
    assert(c.len() <= 1024 ==> c.take(c.len() as int) =~= c);
}

} // verus!
