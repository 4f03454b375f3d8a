//! Files of a FAT32 volume: which clusters a read or a write touches, in what
//! order, and how a shrink cuts the chain.
//!
//! A read is planned as steps that the caller performs with the data source:
//! a partial cluster goes through a scratch buffer, whole clusters that lie
//! next to each other on the disk are read in one go.
use vstd::prelude::*;
use crate::fat::FileSystemError;

verus! {

/// One step of a planned read.
#[derive(Clone, Copy, PartialEq, Eq, Structural, Debug)]
pub enum ReadStep {
    /// Read `cluster` into a scratch buffer and copy its `len` bytes from
    /// `from` on to the caller's buffer at `to`.
    Partial { cluster: u32, from: usize, len: usize, to: usize },
    /// Read `count` adjacent clusters from `first` on straight into the
    /// caller's buffer at `to`.
    Clusters { first: u32, count: usize, to: usize },
}

/// A planned read: its steps and whether the cluster chain ended before the
/// read was complete (then the read fails after the steps).
#[derive(Debug)]
pub struct ReadPlan {
    pub steps: Vec<ReadStep>,
    pub out_of_bounds: bool,
}

/// The bytes of one cluster that a read moves: the cluster, the offset in it,
/// the length and the offset in the caller's buffer.
pub type Piece = (u32, int, int, int);

/// The pieces of `count` whole adjacent clusters from `first` on, placed from
/// `to` on.
pub open spec fn run_pieces(first: u32, count: nat, to: int, cs: int) -> Seq<Piece>
    decreases count,
{
    if count == 0 {
        Seq::empty()
    } else {
        let p = run_pieces(first, (count - 1) as nat, to, cs);
        p.push(
            (
                (first + count - 1) as u32,
                0,
                cs,
                if count == 1 {
                    to
                } else {
                    p.last().3 + p.last().2
                },
            ),
        )
    }
}

/// The pieces that a step moves.
pub open spec fn step_pieces(s: ReadStep, cs: int) -> Seq<Piece> {
    match s {
        ReadStep::Partial { cluster, from, len, to } => seq![(cluster, from as int, len as int, to as int)],
        ReadStep::Clusters { first, count, to } => run_pieces(first, count as nat, to as int, cs),
    }
}

/// The pieces that steps move, in order.
pub open spec fn plan_pieces(steps: Seq<ReadStep>, cs: int) -> Seq<Piece>
    decreases steps.len(),
{
    if steps.len() == 0 {
        Seq::empty()
    } else {
        plan_pieces(steps.drop_last(), cs) + step_pieces(steps.last(), cs)
    }
}

/// The pieces read the chain's clusters in order: the first from the read's
/// offset in its cluster, the others from their start, each one right after
/// the one before in the caller's buffer, each up to the end of its cluster
/// or of the read.
pub open spec fn pieces_follow(ps: Seq<Piece>, chain: Seq<u32>, first_from: int, len: int, cs: int) -> bool {
    &&& ps.len() <= chain.len()
    &&& forall|j: int| 0 <= j < ps.len() ==> {
        &&& (#[trigger] ps[j]).0 == chain[j]
        &&& ps[j].1 == (if j == 0 { first_from } else { 0 })
        &&& ps[j].3 == (if j == 0 { 0 } else { ps[j - 1].3 + ps[j - 1].2 })
        &&& ps[j].2 == (if cs - ps[j].1 <= len - ps[j].3 { cs - ps[j].1 } else { len - ps[j].3 })
        &&& ps[j].2 > 0
    }
}

/// Where the pieces end in the caller's buffer.
pub open spec fn pieces_end(ps: Seq<Piece>) -> int {
    if ps.len() == 0 {
        0
    } else {
        ps.last().3 + ps.last().2
    }
}

/// The number of pieces that the first `s` steps move.
pub open spec fn pieces_before(steps: Seq<ReadStep>, s: int, cs: int) -> int {
    plan_pieces(steps.subrange(0, s), cs).len() as int
}

/// Each step is of the kind the file system chooses: a partial step for a
/// piece that does not start its cluster or does not fill it, else whole
/// clusters, as many as lie next to each other and fit in the read.
pub open spec fn steps_chosen(steps: Seq<ReadStep>, chain: Seq<u32>, len: int, cs: int) -> bool {
    let ps = plan_pieces(steps, cs);
    forall|s: int| 0 <= s < steps.len() ==> {
        let m = pieces_before(steps, s, cs);
        match #[trigger] steps[s] {
            ReadStep::Partial { from, to, .. } => from != 0 || len - to < cs,
            ReadStep::Clusters { count, to, .. } => {
                &&& count >= 1
                &&& len - to >= cs
                &&& (m + count == chain.len() || chain[m + count] != chain[m + count - 1] + 1 || ps[m
                    + count - 1].3 + 2 * cs > len)
            },
        }
    }
}

/// The number of clusters to skip to reach the cluster that holds `offset`.
pub fn clusters_to_skip(offset: usize, cluster_size: usize) -> (r: usize)
    requires
        cluster_size > 0,
    ensures
        r == offset / cluster_size,
{
    offset / cluster_size
}

/// Plans a read of `len` bytes at `offset` of a file of `file_size` bytes
/// whose clusters (from the one that holds `offset` on) are `chain`. A read
/// past the end of the file fails; a chain that ends too soon gives the steps
/// it allows and the mark that the read is out of bounds.
pub fn read_plan(offset: usize, len: usize, file_size: u32, cluster_size: usize, chain: &[u32]) -> (r:
    Result<ReadPlan, FileSystemError>)
    requires
        len > 0,
        cluster_size > 0,
        offset + len <= usize::MAX,
        forall|i: int| 0 <= i < chain@.len() ==> #[trigger] chain@[i] < u32::MAX,
    ensures
        offset + len > file_size ==> r == Err::<ReadPlan, FileSystemError>(FileSystemError::ReadOutOfBounds),
        offset + len <= file_size ==> r is Ok,
        r matches Ok(plan) ==> {
            let ps = plan_pieces(plan.steps@, cluster_size as int);
            &&& pieces_follow(ps, chain@, (offset % cluster_size) as int, len as int, cluster_size as int)
            &&& steps_chosen(plan.steps@, chain@, len as int, cluster_size as int)
            &&& !plan.out_of_bounds ==> pieces_end(ps) == len
            &&& plan.out_of_bounds ==> ps.len() == chain@.len() && pieces_end(ps) < len
        },
{
    if offset + len > file_size as usize {
        return Err(FileSystemError::ReadOutOfBounds);
    }
    let cs = cluster_size;
    let first_from = offset % cs;
    let mut ow: usize = first_from;
    let mut to_read: usize = len;
    let mut ro: usize = 0;
    let mut m: usize = 0;
    let mut steps: Vec<ReadStep> = Vec::new();
    let mut out_of_bounds = false;
    while to_read > 0
        invariant_except_break
            !out_of_bounds,
        invariant
            cs == cluster_size,
            cs > 0,
            first_from < cs,
            first_from == offset % cs,
            forall|i: int| 0 <= i < chain@.len() ==> #[trigger] chain@[i] < u32::MAX,
            m == plan_pieces(steps@, cs as int).len(),
            m <= chain@.len(),
            pieces_follow(plan_pieces(steps@, cs as int), chain@, first_from as int, len as int, cs as int),
            steps_chosen(steps@, chain@, len as int, cs as int),
            ro == pieces_end(plan_pieces(steps@, cs as int)),
            ro + to_read == len,
            ow == (if m == 0 { first_from } else { 0 }),
        ensures
            out_of_bounds ==> m == chain@.len() && to_read > 0,
            !out_of_bounds ==> to_read == 0,
        decreases to_read,
    {
        let ghost ps0 = plan_pieces(steps@, cs as int);
        if m >= chain.len() {
            out_of_bounds = true;
            break;
        }
        if ow != 0 || to_read < cs {
            let cluster = chain[m];
            let room = cs - ow;
            let copy = if to_read < room {
                to_read
            } else {
                room
            };
            let step = ReadStep::Partial { cluster, from: ow, len: copy, to: ro };
            let ghost before = steps@;
            steps.push(step);
            proof {
                lemma_push_step(before, step, cs as int);
                let new = seq![(cluster, ow as int, copy as int, ro as int)];
                assert(step_pieces(step, cs as int) == new);
                lemma_extend_follow(ps0, new, chain@, first_from as int, len as int, cs as int);
                lemma_steps_chosen_push(before, step, chain@, len as int, cs as int);
            }
            to_read = to_read - copy;
            ro = ro + copy;
            ow = 0;
            m = m + 1;
        } else {
            let first = chain[m];
            let mut count: usize = 1;
            let mut bytes: usize = cs;
            let ghost mut run = run_pieces(first, 1, ro as int, cs as int);
            proof {
                assert(run_pieces(first, 0, ro as int, cs as int) =~= Seq::<Piece>::empty());
                assert(run =~= seq![(first, 0int, cs as int, ro as int)]);
            }
            while cs <= to_read - bytes && count < chain.len() - m && chain[m + count] == chain[m
                + count - 1] + 1
                invariant
                    1 <= count,
                    m + count <= chain@.len(),
                    cs > 0,
                    bytes <= to_read,
                    ro + to_read == len,
                    run == run_pieces(first, count as nat, ro as int, cs as int),
                    run.len() == count,
                    first == chain@[m as int],
                    forall|i: int| 0 <= i < count ==> (#[trigger] run[i]).0 == chain@[m + i] && run[i].0
                        == first + i,
                    forall|i: int| 0 <= i < count ==> (#[trigger] run[i]).1 == 0 && run[i].2 == cs
                        && run[i].3 + cs <= ro + bytes,
                    run[0].3 == ro,
                    forall|i: int| 0 < i < count ==> (#[trigger] run[i]).3 == run[i - 1].3 + run[i - 1].2,
                    bytes == run[count - 1].3 + cs - ro,
                    forall|i: int| 0 <= i < chain@.len() ==> #[trigger] chain@[i] < u32::MAX,
                decreases chain@.len() - count,
            {
                let ghost prev = run;
                proof {
                    run = run_pieces(first, (count + 1) as nat, ro as int, cs as int);
                    assert(run == prev.push(((first + count) as u32, 0int, cs as int, prev.last().3 + prev.last().2)));
                    assert forall|i: int| 0 <= i < count + 1 implies (#[trigger] run[i]).0 == chain@[m + i]
                        && run[i].0 == first + i by {
                        if i < count {
                            assert(run[i] == prev[i]);
                        } else {
                            assert(chain@[m + i] == chain@[m + i - 1] + 1);
                            assert(prev[i - 1].0 == chain@[m + i - 1]);
                            assert(prev[i - 1].0 == first + (i - 1));
                        }
                    }
                    assert forall|i: int| 0 < i < count + 1 implies (#[trigger] run[i]).3 == run[i - 1].3
                        + run[i - 1].2 by {
                        if i < count {
                            assert(run[i] == prev[i]);
                            assert(run[i - 1] == prev[i - 1]);
                        } else {
                            assert(run[i - 1] == prev[i - 1]);
                        }
                    }
                    assert forall|i: int| 0 <= i < count + 1 implies (#[trigger] run[i]).1 == 0 && run[i].2
                        == cs && run[i].3 + cs <= ro + bytes + cs by {
                        if i < count {
                            assert(run[i] == prev[i]);
                        }
                    }
                    assert(run[0] == prev[0]);
                }
                count = count + 1;
                bytes = bytes + cs;
            }
            let step = ReadStep::Clusters { first, count, to: ro };
            let ghost before = steps@;
            steps.push(step);
            proof {
                lemma_push_step(before, step, cs as int);
                assert(step_pieces(step, cs as int) == run);
                assert forall|i: int| 0 <= i < run.len() implies {
                    &&& (#[trigger] run[i]).0 == chain@[m + i]
                    &&& run[i].1 == (if m + i == 0 { first_from as int } else { 0 })
                    &&& run[i].3 == (if i == 0 { pieces_end(ps0) } else { run[i - 1].3 + run[i - 1].2 })
                    &&& run[i].2 == (if cs - run[i].1 <= len - run[i].3 { cs - run[i].1 } else { len - run[i].3 })
                    &&& run[i].2 > 0
                } by {}
                lemma_extend_follow(ps0, run, chain@, first_from as int, len as int, cs as int);
                let ps = plan_pieces(steps@, cs as int);
                assert(ps == ps0 + run);
                assert(ps[m + count - 1] == run[count - 1]);
                lemma_steps_chosen_push(before, step, chain@, len as int, cs as int);
            }
            to_read = to_read - bytes;
            ro = ro + bytes;
            m = m + count;
        }
    }
    Ok(ReadPlan { steps, out_of_bounds })
}

/// One step of a planned write into a file's existing clusters.
#[derive(Clone, Copy, PartialEq, Eq, Structural, Debug)]
pub enum WriteStep {
    /// Read `cluster`, put the caller's `len` bytes from `from` on into it at
    /// `at`, and write it back.
    Merge { cluster: u32, at: usize, len: usize, from: usize },
    /// Write the caller's bytes from `from` on as the whole of `cluster`.
    Whole { cluster: u32, from: usize },
}

/// The piece of the file that a write step covers.
pub open spec fn write_piece(s: WriteStep, cs: int) -> Piece {
    match s {
        WriteStep::Merge { cluster, at, len, from } => (cluster, at as int, len as int, from as int),
        WriteStep::Whole { cluster, from } => (cluster, 0, cs, from as int),
    }
}

/// A planned write into the file's clusters: the steps, what is left to
/// write past the end of the chain, and the file's new size if it grows.
#[derive(Debug)]
pub struct WritePlan {
    pub steps: Vec<WriteStep>,
    pub remaining: usize,
    pub new_file_size: Option<u32>,
}

/// Plans a write of `len` bytes at `offset` (at most the size) of a file of
/// `file_size` bytes whose clusters, from the one that holds `offset` on, are
/// `chain`. Each cluster takes the bytes that fall into it, a whole cluster
/// is written directly, a partial one is merged; what does not fit into the
/// chain is left for new clusters. A file that grows gets the write's end as
/// its size.
pub fn write_plan(offset: usize, len: usize, file_size: u32, cluster_size: usize, chain: &[u32]) -> (r:
    WritePlan)
    requires
        offset <= file_size,
        cluster_size > 0,
        offset + len <= u32::MAX,
    ensures
        ({
            let ps = Seq::new(r.steps@.len(), |i: int| write_piece(r.steps@[i], cluster_size as int));
            &&& len > 0 ==> pieces_follow(ps, chain@, (offset % cluster_size) as int, len as int, cluster_size as int)
            &&& len == 0 ==> r.steps@.len() == 0
            &&& r.remaining == len - pieces_end(ps)
            &&& r.remaining > 0 ==> ps.len() == chain@.len()
            &&& forall|i: int| 0 <= i < r.steps@.len() ==> ((#[trigger] r.steps@[i]) is Whole <==> ps[i].1 == 0
                && ps[i].2 == cluster_size)
        }),
        r.new_file_size == (if file_size < offset + len {
            Some((offset + len) as u32)
        } else {
            None::<u32>
        }),
{
    let cs = cluster_size;
    let first_from = offset % cs;
    let mut ow: usize = first_from;
    let mut to_write: usize = len;
    let mut wo: usize = 0;
    let mut m: usize = 0;
    let mut steps: Vec<WriteStep> = Vec::new();
    while m < chain.len() && to_write > 0
        invariant
            cs == cluster_size,
            cs > 0,
            first_from < cs,
            m == steps@.len(),
            m <= chain@.len(),
            len > 0 ==> pieces_follow(Seq::new(steps@.len(), |i: int| write_piece(steps@[i], cs as int)), chain@, first_from as int, len as int, cs as int),
            len == 0 ==> m == 0,
            wo == pieces_end(Seq::new(steps@.len(), |i: int| write_piece(steps@[i], cs as int))),
            wo + to_write == len,
            ow == (if m == 0 { first_from } else { 0 }),
            forall|i: int| 0 <= i < steps@.len() ==> ((#[trigger] steps@[i]) is Whole <==> write_piece(steps@[i], cs as int).1 == 0
                && write_piece(steps@[i], cs as int).2 == cs),
        decreases chain@.len() - m,
    {
        let ghost ps0 = Seq::new(steps@.len(), |i: int| write_piece(steps@[i], cs as int));
        let cluster = chain[m];
        let room = cs - ow;
        let copy = if to_write < room {
            to_write
        } else {
            room
        };
        let step = if ow == 0 && copy == cs {
            WriteStep::Whole { cluster, from: wo }
        } else {
            WriteStep::Merge { cluster, at: ow, len: copy, from: wo }
        };
        steps.push(step);
        proof {
            let ps = Seq::new(steps@.len(), |i: int| write_piece(steps@[i], cs as int));
            let new = seq![(cluster, ow as int, copy as int, wo as int)];
            assert(write_piece(step, cs as int) == new[0]);
            lemma_extend_follow(ps0, new, chain@, first_from as int, len as int, cs as int);
            assert(ps =~= ps0 + new);
        }
        to_write = to_write - copy;
        wo = wo + copy;
        ow = 0;
        m = m + 1;
    }
    let new_file_size = if (file_size as usize) < offset + len {
        Some((offset + len) as u32)
    } else {
        None
    };
    WritePlan { steps, remaining: to_write, new_file_size }
}

/// The clusters a write needs beyond the chain for `remaining` bytes, as the
/// file system counts them: whole clusters only (a partial last one is not
/// counted).
pub fn clusters_for_extension(remaining: usize, cluster_size: usize) -> (r: usize)
    requires
        cluster_size > 0,
    ensures
        r == remaining / cluster_size,
{
    remaining / cluster_size
}

/// The bytes that go into each newly allocated cluster of a growing file,
/// with `remaining` bytes left from the caller's offset `from` on: each new
/// cluster takes one byte less than the smaller of what is left and a whole
/// cluster, through a scratch buffer that starts zeroed and keeps the bytes
/// the previous cluster left in it. The result gives, per new cluster, how
/// many bytes and from where.
pub fn extension_plan(remaining: usize, from: usize, cluster_size: usize, new_clusters: usize) -> (r: Vec<
    (usize, usize),
>)
    requires
        remaining > 0,
        cluster_size > 0,
        from + remaining <= usize::MAX,
    ensures
        r@.len() == new_clusters,
        forall|i: int| 0 <= i < r@.len() ==> {
            let left = remaining - extension_written(r@, i);
            &&& (#[trigger] r@[i]).0 == (if left < cluster_size { left } else { cluster_size as int }) - 1
            &&& r@[i].1 == from + extension_written(r@, i)
        },
        extension_written(r@, r@.len() as int) < remaining,
{
    let mut out: Vec<(usize, usize)> = Vec::new();
    let mut to_write = remaining;
    let mut wo = from;
    let mut i: usize = 0;
    while i < new_clusters
        invariant
            i <= new_clusters,
            out@.len() == i,
            to_write > 0,
            cluster_size > 0,
            to_write == remaining - extension_written(out@, i as int),
            wo == from + extension_written(out@, i as int),
            from + remaining <= usize::MAX,
            forall|k: int| 0 <= k < i ==> {
                let left = remaining - extension_written(out@, k);
                &&& (#[trigger] out@[k]).0 == (if left < cluster_size { left } else { cluster_size as int }) - 1
                &&& out@[k].1 == from + extension_written(out@, k)
            },
        decreases new_clusters - i,
    {
        let smaller = if to_write < cluster_size {
            to_write
        } else {
            cluster_size
        };
        let copy = smaller - 1;
        let ghost before = out@;
        out.push((copy, wo));
        proof {
            lemma_written_push(before, (copy, wo));
            assert forall|k: int| 0 <= k < i + 1 implies {
                let left = remaining - extension_written(out@, k);
                &&& (#[trigger] out@[k]).0 == (if left < cluster_size { left } else { cluster_size as int }) - 1
                &&& out@[k].1 == from + extension_written(out@, k)
            } by {
                if k < i {
                    assert(out@[k] == before[k]);
                }
            }
        }
        to_write = to_write - copy;
        wo = wo + copy;
        i = i + 1;
    }
    out
}

/// The bytes that the first `n` new clusters take.
pub open spec fn extension_written(plan: Seq<(usize, usize)>, n: int) -> int
    decreases n,
{
    if n <= 0 {
        0
    } else {
        extension_written(plan, n - 1) + plan[n - 1].0
    }
}

/// Appending to the list keeps the counts of the earlier prefixes.
proof fn lemma_written_push(plan: Seq<(usize, usize)>, x: (usize, usize))
    ensures
        forall|n: int| 0 <= n <= plan.len() ==> #[trigger] extension_written(plan.push(x), n)
            == extension_written(plan, n),
        extension_written(plan.push(x), plan.len() + 1int) == extension_written(plan, plan.len() as int)
            + x.0,
{
    assert forall|n: int| 0 <= n <= plan.len() implies #[trigger] extension_written(plan.push(x), n)
        == extension_written(plan, n) by {
        lemma_written_prefix(plan, x, n);
    }
    lemma_written_prefix(plan, x, plan.len() as int);
    assert(plan.push(x)[plan.len() as int] == x);
}

proof fn lemma_written_prefix(plan: Seq<(usize, usize)>, x: (usize, usize), n: int)
    requires
        0 <= n <= plan.len(),
    ensures
        extension_written(plan.push(x), n) == extension_written(plan, n),
    decreases n,
{
    if n > 0 {
        lemma_written_prefix(plan, x, n - 1);
        assert(plan.push(x)[n - 1] == plan[n - 1]);
    }
}

/// The first cluster of a directory entry from its high and low halves.
pub fn first_cluster(high: u16, low: u16) -> (r: u32)
    ensures
        r == high * 65536 + low,
{
    assert(((high as u32) << 16u32) | (low as u32) == high * 65536 + low) by (bit_vector);
    ((high as u32) << 16u32) | (low as u32)
}

/// Whether an entry can be opened as a file: directories cannot.
pub fn check_open_file(is_directory: bool) -> (r: Result<(), FileSystemError>)
    ensures
        r == (if is_directory {
            Err::<(), FileSystemError>(FileSystemError::NotAFile)
        } else {
            Ok::<(), FileSystemError>(())
        }),
{
    if is_directory {
        Err(FileSystemError::NotAFile)
    } else {
        Ok(())
    }
}

/// Whether an entry can be opened as a directory: only directories can.
pub fn check_open_directory(is_directory: bool) -> (r: Result<(), FileSystemError>)
    ensures
        r == (if is_directory {
            Ok::<(), FileSystemError>(())
        } else {
            Err::<(), FileSystemError>(FileSystemError::NotADirectory)
        }),
{
    if !is_directory {
        Err(FileSystemError::NotADirectory)
    } else {
        Ok(())
    }
}

/// How a shrink to `new_size` bytes changes the FAT of a file of `file_size`
/// bytes whose whole chain is `chain`: nothing when the last cluster stays
/// the same; else the clusters after the new last one are freed and the new
/// last one ends the chain. A new size that is not smaller fails, and so does
/// a chain too short to hold the new last cluster.
pub fn shrink_plan(file_size: u32, new_size: usize, cluster_size: u16, chain: &[u32]) -> (r: Result<
    Vec<(u32, u32)>,
    FileSystemError,
>)
    requires
        cluster_size > 0,
    ensures
        ({
            let cs = cluster_size as int;
            let old_last = file_size as int / cs;
            let keep = new_size as int / cs;
            &&& file_size <= new_size ==> r == Err::<Vec<(u32, u32)>, FileSystemError>(
                FileSystemError::InvalidArgument,
            )
            &&& new_size < file_size && old_last == keep ==> (r matches Ok(w) && w@.len() == 0)
            &&& new_size < file_size && old_last != keep && chain@.len() <= keep ==> r == Err::<
                Vec<(u32, u32)>,
                FileSystemError,
            >(FileSystemError::InvalidArgument)
            &&& new_size < file_size && old_last != keep && keep < chain@.len() ==> (r matches Ok(w) && {
                &&& w@.len() == chain@.len() - keep
                &&& forall|i: int| 0 <= i < w@.len() - 1 ==> #[trigger] w@[i] == (chain@[keep + 1 + i], 0u32)
                &&& w@.last() == (chain@[keep], 0xFFFF_FFFFu32)
            })
        }),
{
    if file_size as usize <= new_size {
        return Err(FileSystemError::InvalidArgument);
    }
    let current_last_cluster = file_size / cluster_size as u32;
    let new_last_cluster = new_size / cluster_size as usize;
    if current_last_cluster as usize == new_last_cluster {
        return Ok(Vec::new());
    }
    if new_last_cluster >= chain.len() {
        return Err(FileSystemError::InvalidArgument);
    }
    let last_kept = chain[new_last_cluster];
    let mut writes: Vec<(u32, u32)> = Vec::new();
    let mut i: usize = new_last_cluster + 1;
    while i < chain.len()
        invariant
            new_last_cluster < i <= chain@.len(),
            writes@.len() == i - new_last_cluster - 1,
            forall|k: int| 0 <= k < writes@.len() ==> #[trigger] writes@[k] == (chain@[new_last_cluster
                + 1 + k], 0u32),
        decreases chain@.len() - i,
    {
        writes.push((chain[i], 0));
        i = i + 1;
    }
    writes.push((last_kept, 0xFFFF_FFFF));
    Ok(writes)
}

/// Pieces that follow on from pieces that follow the chain follow it too.
proof fn lemma_extend_follow(
    ps0: Seq<Piece>,
    new: Seq<Piece>,
    chain: Seq<u32>,
    first_from: int,
    len: int,
    cs: int,
)
    requires
        pieces_follow(ps0, chain, first_from, len, cs),
        ps0.len() + new.len() <= chain.len(),
        forall|i: int| 0 <= i < new.len() ==> {
            &&& (#[trigger] new[i]).0 == chain[ps0.len() + i]
            &&& new[i].1 == (if ps0.len() + i == 0 { first_from } else { 0 })
            &&& new[i].3 == (if i == 0 { pieces_end(ps0) } else { new[i - 1].3 + new[i - 1].2 })
            &&& new[i].2 == (if cs - new[i].1 <= len - new[i].3 { cs - new[i].1 } else { len - new[i].3 })
            &&& new[i].2 > 0
        },
    ensures
        pieces_follow(ps0 + new, chain, first_from, len, cs),
        new.len() > 0 ==> pieces_end(ps0 + new) == new.last().3 + new.last().2,
{
    let ps = ps0 + new;
    let m = ps0.len() as int;
    assert forall|j: int| 0 <= j < ps.len() implies {
        &&& (#[trigger] ps[j]).0 == chain[j]
        &&& ps[j].1 == (if j == 0 { first_from } else { 0 })
        &&& ps[j].3 == (if j == 0 { 0 } else { ps[j - 1].3 + ps[j - 1].2 })
        &&& ps[j].2 == (if cs - ps[j].1 <= len - ps[j].3 { cs - ps[j].1 } else { len - ps[j].3 })
        &&& ps[j].2 > 0
    } by {
        if j < m {
            assert(ps[j] == ps0[j]);
            if j > 0 {
                assert(ps[j - 1] == ps0[j - 1]);
            }
        } else {
            let i = j - m;
            assert(ps[j] == new[i]);
            if i > 0 {
                assert(ps[j - 1] == new[i - 1]);
            } else if j > 0 {
                assert(ps[j - 1] == ps0[m - 1]);
            }
        }
    }
    if new.len() > 0 {
        assert(ps.last() == new.last());
    }
}

/// The pieces of steps with one more step are those of the steps before, then
/// those of the new step.
proof fn lemma_push_step(steps: Seq<ReadStep>, s: ReadStep, cs: int)
    ensures
        plan_pieces(steps.push(s), cs) == plan_pieces(steps, cs) + step_pieces(s, cs),
{
    assert(steps.push(s).drop_last() =~= steps);
}

/// The pieces of a run of `count` clusters are `count` pieces.
proof fn lemma_run_pieces_len(first: u32, count: nat, to: int, cs: int)
    ensures
        run_pieces(first, count, to, cs).len() == count,
    decreases count,
{
    if count > 0 {
        lemma_run_pieces_len(first, (count - 1) as nat, to, cs);
    }
}

/// The number of pieces a step moves.
pub open spec fn step_len(s: ReadStep) -> int {
    match s {
        ReadStep::Partial { .. } => 1,
        ReadStep::Clusters { count, .. } => count as int,
    }
}

/// The pieces of a prefix of the steps are a prefix of the pieces of all of
/// them.
proof fn lemma_plan_prefix(steps: Seq<ReadStep>, a: int, cs: int)
    requires
        0 <= a <= steps.len(),
    ensures
        plan_pieces(steps.subrange(0, a), cs).len() <= plan_pieces(steps, cs).len(),
        plan_pieces(steps, cs).subrange(0, plan_pieces(steps.subrange(0, a), cs).len() as int)
            == plan_pieces(steps.subrange(0, a), cs),
    decreases steps.len() - a,
{
    if a == steps.len() {
        assert(steps.subrange(0, a) =~= steps);
        assert(plan_pieces(steps, cs).subrange(0, plan_pieces(steps, cs).len() as int) =~= plan_pieces(
            steps,
            cs,
        ));
    } else {
        let d = steps.drop_last();
        lemma_plan_prefix(d, a, cs);
        assert(d.subrange(0, a) =~= steps.subrange(0, a));
        let pa = plan_pieces(steps.subrange(0, a), cs);
        let pd = plan_pieces(d, cs);
        assert(plan_pieces(steps, cs) == pd + step_pieces(steps.last(), cs));
        assert((pd + step_pieces(steps.last(), cs)).subrange(0, pa.len() as int) =~= pd.subrange(
            0,
            pa.len() as int,
        ));
    }
}

/// The pieces of the first `t + 1` steps are those of the first `t`, then the
/// pieces of step `t`.
proof fn lemma_plan_step(steps: Seq<ReadStep>, t: int, cs: int)
    requires
        0 <= t < steps.len(),
    ensures
        plan_pieces(steps.subrange(0, t + 1), cs) == plan_pieces(steps.subrange(0, t), cs)
            + step_pieces(steps[t], cs),
        step_pieces(steps[t], cs).len() == step_len(steps[t]),
{
    assert(steps.subrange(0, t + 1).drop_last() =~= steps.subrange(0, t));
    match steps[t] {
        ReadStep::Partial { .. } => {},
        ReadStep::Clusters { first, count, to } => {
            lemma_run_pieces_len(first, count as nat, to as int, cs);
        },
    }
}

/// Appending a step keeps the choices of the earlier steps; with the new
/// step chosen as the file system chooses, all steps are.
proof fn lemma_steps_chosen_push(
    steps: Seq<ReadStep>,
    s: ReadStep,
    chain: Seq<u32>,
    len: int,
    cs: int,
)
    requires
        steps_chosen(steps, chain, len, cs),
        ({
            let m = plan_pieces(steps, cs).len() as int;
            let ps = plan_pieces(steps.push(s), cs);
            match s {
                ReadStep::Partial { from, to, .. } => from != 0 || len - to < cs,
                ReadStep::Clusters { count, to, .. } => {
                    &&& count >= 1
                    &&& len - to >= cs
                    &&& (m + count == chain.len() || chain[m + count] != chain[m + count - 1] + 1 || ps[m
                        + count - 1].3 + 2 * cs > len)
                },
            }
        }),
    ensures
        steps_chosen(steps.push(s), chain, len, cs),
{
    let steps2 = steps.push(s);
    let ps = plan_pieces(steps, cs);
    let ps2 = plan_pieces(steps2, cs);
    lemma_push_step(steps, s, cs);
    assert forall|t: int| 0 <= t < steps2.len() implies {
        let m = pieces_before(steps2, t, cs);
        match #[trigger] steps2[t] {
            ReadStep::Partial { from, to, .. } => from != 0 || len - to < cs,
            ReadStep::Clusters { count, to, .. } => {
                &&& count >= 1
                &&& len - to >= cs
                &&& (m + count == chain.len() || chain[m + count] != chain[m + count - 1] + 1 || ps2[m
                    + count - 1].3 + 2 * cs > len)
            },
        }
    } by {
        if t < steps.len() {
            assert(steps2.subrange(0, t) =~= steps.subrange(0, t));
            assert(steps2[t] == steps[t]);
            lemma_plan_step(steps, t, cs);
            lemma_plan_prefix(steps, t + 1, cs);
            let m = pieces_before(steps, t, cs);
            match steps[t] {
                ReadStep::Partial { .. } => {},
                ReadStep::Clusters { count, .. } => {
                    let idx = m + count - 1;
                    assert(plan_pieces(steps.subrange(0, t + 1), cs).len() == m + count);
                    assert(idx < ps.len());
                    assert(ps2[idx] == ps[idx]);
                },
            }
        } else {
            assert(steps2.subrange(0, t) =~= steps);
        }
    }
}

} // verus!
