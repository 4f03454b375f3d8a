//! FAT32 volumes: the layout that the BIOS parameter block describes, the
//! file allocation table's entries and cluster chains, and the searches for
//! free clusters and free directory entries.
//!
//! Sectors reach these functions as bytes; reading and writing them is the
//! data source's part.
use vstd::prelude::*;

verus! {

/// A FAT entry that marks a free cluster.
pub const FAT_FREE_SECTOR: u32 = 0x00;
/// The FAT entry that ends a cluster chain.
pub const FAT_END_OF_FILE_MARK: u32 = 0xFFFFFFFF;
/// First byte of a directory entry that is free.
pub const FAT_FREE_ENTRY: u8 = 0xE5;
/// Size of a sector.
pub const FAT_SECTOR_SIZE: usize = 512;
/// FAT32 entries in one sector.
pub const FAT32_ENTRIES_PER_SECTOR: u32 = 128;
/// Links from this value on end a chain.
pub const FAT_END_OF_CHAIN_MIN: u32 = 0x0FFFFFF8;
/// Size of a directory entry.
pub const DIRECTORY_ENTRY_SIZE: usize = 32;

/// Errors of the file system.
#[derive(Clone, Copy, PartialEq, Eq, Structural, Debug)]
pub enum FileSystemError {
    ReadOutOfBounds,
    BadData,
    NotEnoughSpace,
    InvalidArgument,
    NotFound,
    NotAFile,
    NotADirectory,
}

/// The fields of the BIOS parameter block that the volume layout uses.
#[derive(Clone, Copy, PartialEq, Eq, Structural, Debug)]
pub struct BiosParameterBlock {
    pub bytes_per_sector: u16,
    pub sectors_per_cluster: u8,
    pub reserved_sector_count: u16,
    pub number_of_fats: u8,
    pub root_entries_count: u16,
    pub sectors_per_fat_32: u32,
    pub root_directory_first_cluster: u32,
}

/// The sectors of the root directory region.
pub open spec fn spec_root_dir_sectors(bpb: BiosParameterBlock) -> int {
    (bpb.root_entries_count * 32 + bpb.bytes_per_sector - 1) / (bpb.bytes_per_sector as int)
}

/// The first sector of the data region, relative to the partition.
pub open spec fn spec_first_data_sector(bpb: BiosParameterBlock) -> int {
    bpb.reserved_sector_count + bpb.number_of_fats * bpb.sectors_per_fat_32 + spec_root_dir_sectors(
        bpb,
    )
}

/// The BIOS parameter block describes a layout whose sizes fit the types
/// that hold them.
pub open spec fn layout_fits(bpb: BiosParameterBlock) -> bool {
    &&& bpb.bytes_per_sector > 0
    &&& bpb.root_entries_count * 32 + bpb.bytes_per_sector - 1 <= u16::MAX
    &&& spec_first_data_sector(bpb) <= u32::MAX
    &&& bpb.bytes_per_sector * bpb.sectors_per_cluster <= u16::MAX
}

/// A FAT32 volume inside a partition.
#[derive(Clone, Copy, Debug)]
pub struct Fat {
    /// First sector of the partition on the disk.
    pub partition_first_sector_lba: u32,
    pub bpb: BiosParameterBlock,
}

impl Fat {
    /// The volume that starts at `partition_first_sector_lba` with the
    /// parameter block `bpb`.
    pub fn new(partition_first_sector_lba: u32, bpb: BiosParameterBlock) -> (r: Self)
        ensures
            r.partition_first_sector_lba == partition_first_sector_lba,
            r.bpb == bpb,
    {
        Fat { partition_first_sector_lba, bpb }
    }

    /// The first sector of the FAT, right after the reserved region
    /// (relative to the partition).
    pub fn fat_start_sector(&self) -> (r: u32)
        ensures
            r == self.bpb.reserved_sector_count,
    {
        self.bpb.reserved_sector_count as u32
    }

    /// The length of the root directory in sectors (rounded up).
    pub fn root_dir_sectors(&self) -> (r: u32)
        requires
            layout_fits(self.bpb),
        ensures
            r == spec_root_dir_sectors(self.bpb),
    {
        ((self.bpb.root_entries_count * 32 + (self.bpb.bytes_per_sector - 1))
            / self.bpb.bytes_per_sector) as u32
    }

    /// The first sector of the data region (relative to the partition).
    pub fn first_data_sector(&self) -> (r: u32)
        requires
            layout_fits(self.bpb),
        ensures
            r == spec_first_data_sector(self.bpb),
    {
        let root = self.root_dir_sectors();
        proof {
            assert(self.bpb.number_of_fats * self.bpb.sectors_per_fat_32 >= 0) by (nonlinear_arith);
        }
        self.bpb.reserved_sector_count as u32 + (self.bpb.number_of_fats as u32
            * self.bpb.sectors_per_fat_32) + root
    }

    /// The bytes of a cluster.
    pub fn cluster_size(&self) -> (r: usize)
        requires
            layout_fits(self.bpb),
        ensures
            r == self.bpb.bytes_per_sector * self.bpb.sectors_per_cluster,
    {
        let spc = self.bpb.sectors_per_cluster;
        let bps = self.bpb.bytes_per_sector;
        assert(spc * bps == bps * spc) by (nonlinear_arith);
        (spc as u16 * bps) as usize
    }

    /// The first sector of a data cluster (relative to the partition); the
    /// data region starts with cluster 2.
    pub fn convert_cluster_number_to_sector_number(&self, cluster_number: u32) -> (r: u32)
        requires
            layout_fits(self.bpb),
            cluster_number >= 2,
            (cluster_number - 2) * self.bpb.sectors_per_cluster + spec_first_data_sector(self.bpb)
                <= u32::MAX,
        ensures
            r == (cluster_number - 2) * self.bpb.sectors_per_cluster + spec_first_data_sector(
                self.bpb,
            ),
    {
        let first = self.first_data_sector();
        (cluster_number - 2) * self.bpb.sectors_per_cluster as u32 + first
    }

    /// The sector of the FAT (relative to the partition) that holds the entry
    /// of `index`.
    pub fn fat_entry_sector(&self, index: u32) -> (r: u32)
        ensures
            r == self.bpb.reserved_sector_count + index / 128,
    {
        self.fat_start_sector() + index / FAT32_ENTRIES_PER_SECTOR
    }

    /// The sector of the disk that holds the entry of `index`, as writes
    /// address it.
    pub fn fat_entry_disk_sector(&self, index: u32) -> (r: u32)
        requires
            self.partition_first_sector_lba + self.bpb.reserved_sector_count + index / 128
                <= u32::MAX,
        ensures
            r == self.partition_first_sector_lba + self.bpb.reserved_sector_count + index / 128,
    {
        self.partition_first_sector_lba + self.fat_entry_sector(index)
    }
}

/// The byte offset of the entry of `index` in its FAT sector.
pub fn fat_entry_offset(index: u32) -> (r: usize)
    ensures
        r == (index % 128) * 4,
        r + 4 <= FAT_SECTOR_SIZE,
{
    (index % FAT32_ENTRIES_PER_SECTOR) as usize * 4
}

/// The little-endian 32-bit value at `i` of `s`.
pub open spec fn le32_at(s: Seq<u8>, i: int) -> int {
    s[i] + s[i + 1] * 256 + s[i + 2] * 65536 + s[i + 3] * 16777216
}

/// The FAT entry of `index` in its sector's bytes.
pub fn read_entry(sector: &[u8], index: u32) -> (r: u32)
    requires
        sector@.len() == FAT_SECTOR_SIZE,
    ensures
        r == le32_at(sector@, (index % 128) * 4),
{
    let o = fat_entry_offset(index);
    sector[o] as u32 + sector[o + 1] as u32 * 256 + sector[o + 2] as u32 * 65536 + sector[o + 3] as u32
        * 16777216
}

/// Stores `value` as the FAT entry of `index` in its sector's bytes, little
/// endian, and leaves the other bytes.
pub fn write_entry(sector: &mut Vec<u8>, index: u32, value: u32)
    requires
        old(sector)@.len() == FAT_SECTOR_SIZE,
    ensures
        final(sector)@.len() == FAT_SECTOR_SIZE,
        le32_at(final(sector)@, (index % 128) * 4) == value,
        forall|i: int| 0 <= i < FAT_SECTOR_SIZE && !((index % 128) * 4 <= i < (index % 128) * 4 + 4)
            ==> #[trigger] final(sector)@[i] == old(sector)@[i],
        forall|j: u32| j % 128 != index % 128 ==> #[trigger] le32_at(final(sector)@, (j % 128) * 4)
            == le32_at(old(sector)@, (j % 128) * 4),
{
    let o = fat_entry_offset(index);
    let v0 = value & 0xFF;
    let v1 = (value >> 8u32) & 0xFF;
    let v2 = (value >> 16u32) & 0xFF;
    let v3 = value >> 24u32;
    assert(value == v0 + v1 * 256 + v2 * 65536 + v3 * 16777216 && v0 < 256 && v1 < 256 && v2 < 256
        && v3 < 256) by (bit_vector)
        requires
            v0 == value & 0xFFu32,
            v1 == (value >> 8u32) & 0xFFu32,
            v2 == (value >> 16u32) & 0xFFu32,
            v3 == value >> 24u32,
    ;
    let b0 = v0 as u8;
    let b1 = v1 as u8;
    let b2 = v2 as u8;
    let b3 = v3 as u8;
    sector.set(o, b0);
    sector.set(o + 1, b1);
    sector.set(o + 2, b2);
    sector.set(o + 3, b3);
    proof {
        assert(sector@[o as int] == b0 && sector@[o + 1] == b1 && sector@[o + 2] == b2 && sector@[o
            + 3] == b3);
        assert forall|j: u32| j % 128 != index % 128 implies #[trigger] le32_at(sector@, (j % 128) * 4)
            == le32_at(old(sector)@, (j % 128) * 4) by {
            let p = (j % 128) * 4;
            assert(p + 4 <= o || o + 4 <= p);
            assert(sector@[p as int] == old(sector)@[p as int]);
            assert(sector@[p + 1] == old(sector)@[p + 1]);
            assert(sector@[p + 2] == old(sector)@[p + 2]);
            assert(sector@[p + 3] == old(sector)@[p + 3]);
        }
    }
}

/// The cluster that a FAT entry links to, or `None` when the entry ends the
/// chain.
pub fn next_in_chain(link: u32) -> (r: Option<u32>)
    ensures
        r == (if link >= FAT_END_OF_CHAIN_MIN {
            None::<u32>
        } else {
            Some(link)
        }),
{
    if link >= FAT_END_OF_CHAIN_MIN {
        None
    } else {
        Some(link)
    }
}

/// The last FAT sector read, kept so that walking a chain reads each FAT
/// sector once.
pub struct FatSectorCache {
    /// The FAT sector held, or `None` while empty.
    pub sector_lba: Option<u32>,
    /// The sector's bytes.
    pub data: Vec<u8>,
}

impl FatSectorCache {
    /// An empty cache.
    pub fn empty() -> (r: Self)
        ensures
            r.sector_lba is None,
            r.data@.len() == FAT_SECTOR_SIZE,
    {
        let mut data: Vec<u8> = Vec::new();
        let mut i: usize = 0;
        while i < FAT_SECTOR_SIZE
            invariant
                i <= FAT_SECTOR_SIZE,
                data@.len() == i,
            decreases FAT_SECTOR_SIZE - i,
        {
            data.push(0);
            i = i + 1;
        }
        FatSectorCache { sector_lba: None, data }
    }

    /// Whether the sector `lba` has to be read: the cache holds another one.
    pub fn needs_load(&self, lba: u32) -> (r: bool)
        ensures
            r == (self.sector_lba != Some(lba)),
    {
        match self.sector_lba {
            Some(l) => l != lba,
            None => true,
        }
    }

    /// Keeps `data` as the contents of the sector `lba`.
    pub fn store(&mut self, lba: u32, data: Vec<u8>)
        ensures
            final(self).sector_lba == Some(lba),
            final(self).data@ == data@,
    {
        self.sector_lba = Some(lba);
        self.data = data;
    }
}

/// A run of physically adjacent clusters: the first and how many.
pub type ClusterRun = (u32, u32);

/// The clusters of a run, in order.
pub open spec fn run_clusters(run: ClusterRun) -> Seq<u32> {
    Seq::new(run.1 as nat, |i: int| (run.0 + i) as u32)
}

/// The clusters of runs, one run after the other.
pub open spec fn flatten_runs(runs: Seq<ClusterRun>) -> Seq<u32>
    decreases runs.len(),
{
    if runs.len() == 0 {
        Seq::empty()
    } else {
        flatten_runs(runs.drop_last()) + run_clusters(runs.last())
    }
}

/// Groups a cluster chain into runs of adjacent cluster numbers: `5, 6, 7, 20`
/// gives `(5, 3)` and `(20, 1)`.
pub fn contiguous_runs(chain: &[u32]) -> (r: Vec<ClusterRun>)
    requires
        forall|i: int| 0 <= i < chain@.len() ==> #[trigger] chain@[i] < u32::MAX,
    ensures
        flatten_runs(r@) == chain@,
        forall|k: int| 0 <= k < r@.len() ==> (#[trigger] r@[k]).1 >= 1,
        forall|k: int| 0 < k < r@.len() ==> (#[trigger] r@[k]).0 != r@[k - 1].0 + r@[k - 1].1,
{
    let mut runs: Vec<ClusterRun> = Vec::new();
    let mut i: usize = 0;
    while i < chain.len()
        invariant
            i <= chain@.len(),
            forall|j: int| 0 <= j < chain@.len() ==> #[trigger] chain@[j] < u32::MAX,
            flatten_runs(runs@) == chain@.subrange(0, i as int),
            forall|k: int| 0 <= k < runs@.len() ==> (#[trigger] runs@[k]).1 >= 1,
            forall|k: int| 0 < k < runs@.len() ==> (#[trigger] runs@[k]).0 != runs@[k - 1].0 + runs@[k
                - 1].1,
            i > 0 ==> runs@.len() > 0 && chain@[i - 1] == runs@.last().0 + runs@.last().1 - 1,
            i == 0 ==> runs@.len() == 0,
            0 < i < chain@.len() ==> chain@[i as int] != chain@[i - 1] + 1,
        decreases chain@.len() - i,
    {
        let first = chain[i];
        let mut count: u32 = 1;
        let mut last = first;
        let mut j: usize = i + 1;
        while j < chain.len() && chain[j] == last + 1
            invariant
                i < j <= chain@.len(),
                forall|t: int| 0 <= t < chain@.len() ==> #[trigger] chain@[t] < u32::MAX,
                count == j - i,
                last == chain@[j - 1],
                last == first + count - 1,
                forall|t: int| i <= t < j ==> #[trigger] chain@[t] == first + (t - i),
            decreases chain@.len() - j,
        {
            last = chain[j];
            count = count + 1;
            j = j + 1;
        }
        let ghost before = runs@;
        proof {
            if i > 0 {
                assert(first != before.last().0 + before.last().1) by {
                    // the previous run stopped before `first`
                    assert(chain@[i - 1] == before.last().0 + before.last().1 - 1);
                }
            }
        }
        runs.push((first, count));
        proof {
            assert(runs@.drop_last() =~= before);
            assert(run_clusters((first, count)) =~= chain@.subrange(i as int, j as int));
            assert(chain@.subrange(0, j as int) =~= chain@.subrange(0, i as int) + chain@.subrange(
                i as int,
                j as int,
            ));
        }
        i = j;
    }
    proof {
        assert(chain@.subrange(0, chain@.len() as int) =~= chain@);
    }
    runs
}

/// Takes the next cluster of a walk over runs: from the current run, or from
/// the next run of `runs` (at `*next_run`) when there is no current run.
pub fn take_next_cluster(current_run: &mut Option<ClusterRun>, runs: &Vec<ClusterRun>, next_run: &mut usize) -> (r: Option<u32>)
    requires
        *old(next_run) <= runs@.len(),
        forall|k: int| 0 <= k < runs@.len() ==> (#[trigger] runs@[k]).1 >= 1,
        *old(current_run) matches Some(run) ==> run.1 >= 1 && run.0 + run.1 - 1 <= u32::MAX,
        forall|k: int| 0 <= k < runs@.len() ==> (#[trigger] runs@[k]).0 + runs@[k].1 - 1 <= u32::MAX,
    ensures
        *final(next_run) <= runs@.len(),
        *final(current_run) matches Some(run) ==> run.1 >= 1 && run.0 + run.1 - 1 <= u32::MAX,
        ({
            let pending = match *old(current_run) {
                Some(run) => run_clusters(run),
                None => Seq::empty(),
            } + flatten_runs(runs@.subrange(*old(next_run) as int, runs@.len() as int));
            let left = match *final(current_run) {
                Some(run) => run_clusters(run),
                None => Seq::empty(),
            } + flatten_runs(runs@.subrange(*final(next_run) as int, runs@.len() as int));
            match r {
                None => pending.len() == 0,
                Some(c) => pending.len() > 0 && c == pending[0] && left == pending.drop_first(),
            }
        }),
{
    if current_run.is_none() {
        if *next_run < runs.len() {
            let run = runs[*next_run];
            *current_run = Some(run);
            *next_run = *next_run + 1;
            proof {
                lemma_flatten_front(runs@.subrange(*old(next_run) as int, runs@.len() as int));
                assert(runs@.subrange(*old(next_run) as int, runs@.len() as int).drop_first()
                    =~= runs@.subrange(*next_run as int, runs@.len() as int));
            }
        } else {
            proof {
                assert(runs@.subrange(*old(next_run) as int, runs@.len() as int) =~= Seq::<ClusterRun>::empty());
                assert(flatten_runs(Seq::<ClusterRun>::empty()) =~= Seq::<u32>::empty());
            }
            return None;
        }
    }
    let (first, count) = current_run.unwrap();
    let ghost mid = run_clusters((first, count));
    if count == 1 {
        *current_run = None;
        proof {
            assert(mid.drop_first() =~= Seq::<u32>::empty());
        }
    } else {
        *current_run = Some((first + 1, count - 1));
        proof {
            assert(run_clusters(((first + 1) as u32, (count - 1) as u32)) =~= mid.drop_first());
        }
    }
    proof {
        let rest = flatten_runs(runs@.subrange(*next_run as int, runs@.len() as int));
        assert((mid + rest).drop_first() =~= mid.drop_first() + rest);
    }
    Some(first)
}

/// The clusters of runs, starting with the first run's.
pub proof fn lemma_flatten_front(runs: Seq<ClusterRun>)
    requires
        runs.len() > 0,
    ensures
        flatten_runs(runs) == run_clusters(runs[0]) + flatten_runs(runs.drop_first()),
    decreases runs.len(),
{
    if runs.len() == 1 {
        assert(runs.drop_last() =~= Seq::<ClusterRun>::empty());
        assert(runs.drop_first() =~= Seq::<ClusterRun>::empty());
        assert(flatten_runs(runs.drop_last()) =~= Seq::<u32>::empty());
        assert(flatten_runs(runs.drop_first()) =~= Seq::<u32>::empty());
        assert(runs.last() == runs[0]);
        assert(flatten_runs(runs) =~= run_clusters(runs[0]));
    } else {
        lemma_flatten_front(runs.drop_last());
        assert(runs.drop_last().drop_first() =~= runs.drop_first().drop_last());
        assert(runs.drop_first().last() == runs.last());
        assert(flatten_runs(runs) =~= run_clusters(runs[0]) + flatten_runs(runs.drop_first()));
    }
}

/// The FAT entry number `e` of a sector's bytes.
pub open spec fn entry_value(sector: Seq<u8>, e: int) -> int {
    le32_at(sector, e * 4)
}

/// How many free clusters a search for `count` collects: a search for none
/// stops at the first one it finds.
pub open spec fn free_target(count: usize) -> int {
    if count == 0 {
        1
    } else {
        count as int
    }
}

/// Scans one FAT sector (number `sector_idx` of the FAT) for free entries,
/// appending `(cluster, 0)` for each until `free` holds `count` (at least
/// one: a search for none stops at the first free entry); clusters 0 and 1
/// are reserved and skipped. Returns whether enough were found.
pub fn scan_free_clusters(sector_idx: u32, sector: &[u8], count: usize, free: &mut Vec<(usize, u32)>) -> (r: bool)
    requires
        sector@.len() == FAT_SECTOR_SIZE,
        sector_idx * 128 + 128 <= usize::MAX,
        old(free)@.len() < free_target(count),
    ensures
        final(free)@.len() <= free_target(count),
        r == (final(free)@.len() == free_target(count)),
        old(free)@ == final(free)@.subrange(0, old(free)@.len() as int),
        forall|k: int| old(free)@.len() <= k < final(free)@.len() ==> {
            let e = (#[trigger] final(free)@[k]).0 - sector_idx * 128;
            &&& 0 <= e < 128
            &&& final(free)@[k].0 >= 2
            &&& final(free)@[k].1 == 0
            &&& entry_value(sector@, e) == 0
        },
        forall|k: int, l: int| old(free)@.len() <= k < l < final(free)@.len() ==> (#[trigger] final(free)@[k]).0 < (#[trigger] final(free)@[l]).0,
        // every free entry of the sector before the last one taken (all of
        // them when not enough were found) was taken
        forall|e: int| 0 <= e < 128 && sector_idx * 128 + e >= 2 && #[trigger] entry_value(sector@, e) == 0 && (!r || sector_idx * 128 + e <= final(free)@.last().0) ==>
            exists|k: int| old(free)@.len() <= k < final(free)@.len() && #[trigger] final(free)@[k].0 == sector_idx * 128 + e,
{
    let ghost start = free@.len();
    let want: usize = if count == 0 {
        1
    } else {
        count
    };
    let mut e: usize = 0;
    while e < 128
        invariant_except_break
            free@.len() < want,
        invariant
            e <= 128,
            sector@.len() == FAT_SECTOR_SIZE,
            sector_idx * 128 + 128 <= usize::MAX,
            free@.len() <= want,
            start <= free@.len(),
            old(free)@ == free@.subrange(0, start as int),
            start == old(free)@.len(),
            want == free_target(count),
            start < want,
            forall|k: int| start <= k < free@.len() ==> {
                let x = (#[trigger] free@[k]).0 - sector_idx * 128;
                &&& 0 <= x < e
                &&& free@[k].0 >= 2
                &&& free@[k].1 == 0
                &&& entry_value(sector@, x) == 0
            },
            forall|k: int, l: int| start <= k < l < free@.len() ==> (#[trigger] free@[k]).0 < (#[trigger] free@[l]).0,
            forall|x: int| 0 <= x < e && sector_idx * 128 + x >= 2 && #[trigger] entry_value(sector@, x) == 0 ==>
                exists|k: int| start <= k < free@.len() && #[trigger] free@[k].0 == sector_idx * 128 + x,
        ensures
            free@.len() <= want,
            start <= free@.len(),
            old(free)@ == free@.subrange(0, start as int),
            forall|k: int| start <= k < free@.len() ==> {
                let x = (#[trigger] free@[k]).0 - sector_idx * 128;
                &&& 0 <= x < 128
                &&& free@[k].0 >= 2
                &&& free@[k].1 == 0
                &&& entry_value(sector@, x) == 0
            },
            forall|k: int, l: int| start <= k < l < free@.len() ==> (#[trigger] free@[k]).0 < (#[trigger] free@[l]).0,
            forall|x: int| 0 <= x < 128 && sector_idx * 128 + x >= 2 && #[trigger] entry_value(sector@, x) == 0 && (free@.len() < want || sector_idx * 128 + x <= free@.last().0) ==>
                exists|k: int| start <= k < free@.len() && #[trigger] free@[k].0 == sector_idx * 128 + x,
        decreases 128 - e,
    {
        let index = sector_idx as usize * FAT32_ENTRIES_PER_SECTOR as usize + e;
        if index >= 2 {
            let o = e * 4;
            let value = sector[o] as u32 + sector[o + 1] as u32 * 256 + sector[o + 2] as u32 * 65536
                + sector[o + 3] as u32 * 16777216;
            if value == FAT_FREE_SECTOR {
                let ghost before = free@;
                free.push((index, value));
                proof {
                    assert(free@.subrange(0, start as int) =~= before.subrange(0, start as int));
                    assert forall|x: int| 0 <= x < e + 1 && sector_idx * 128 + x >= 2 && #[trigger] entry_value(sector@, x) == 0 implies
                        exists|k: int| start <= k < free@.len() && #[trigger] free@[k].0 == sector_idx * 128 + x by {
                        if x < e {
                            let k = choose|k: int| start <= k < before.len() && #[trigger] before[k].0 == sector_idx * 128 + x;
                            assert(free@[k] == before[k]);
                        } else {
                            assert(free@[before.len() as int].0 == sector_idx * 128 + x);
                        }
                    }
                }
            }
        }
        e = e + 1;
        if free.len() >= want {
            break;
        }
    }
    free.len() >= want
}

/// Links clusters into a chain in the order given: each entry points to the
/// next cluster, the last one ends the chain. The result is the list of FAT
/// writes (cluster, value) in order.
pub fn link_clusters(clusters: &[(usize, u32)]) -> (r: Vec<(u32, u32)>)
    requires
        forall|i: int| 0 <= i < clusters@.len() ==> #[trigger] clusters@[i].0 <= u32::MAX,
    ensures
        r@.len() == clusters@.len(),
        forall|i: int| 0 <= i < r@.len() ==> (#[trigger] r@[i]).0 == clusters@[i].0 && r@[i].1 == (if i
            + 1 < clusters@.len() {
            clusters@[i + 1].0 as u32
        } else {
            FAT_END_OF_FILE_MARK
        }),
{
    let mut out: Vec<(u32, u32)> = Vec::new();
    let mut i: usize = 0;
    while i < clusters.len()
        invariant
            i <= clusters@.len(),
            forall|k: int| 0 <= k < clusters@.len() ==> #[trigger] clusters@[k].0 <= u32::MAX,
            out@.len() == i,
            forall|k: int| 0 <= k < i ==> (#[trigger] out@[k]).0 == clusters@[k].0 && out@[k].1 == (if k
                + 1 < clusters@.len() {
                clusters@[k + 1].0 as u32
            } else {
                FAT_END_OF_FILE_MARK
            }),
        decreases clusters@.len() - i,
    {
        let value = if i + 1 < clusters.len() {
            clusters[i + 1].0 as u32
        } else {
            FAT_END_OF_FILE_MARK
        };
        out.push((clusters[i].0 as u32, value));
        i = i + 1;
    }
    out
}

/// What one directory entry tells a search for free entries.
#[derive(Clone, Copy, PartialEq, Eq, Structural, Debug)]
pub enum EntryScanStep {
    /// Go on with the next entry.
    Continue,
    /// Enough free entries were found, starting at this index.
    Found(usize),
    /// The end of the directory was reached.
    EndOfDirectory,
}

/// The search for `n` adjacent free entries among the existing ones of a
/// directory: entries whose name starts with the free mark count, any other
/// entry resets the count, and the end-of-directory mark ends the search.
#[derive(Clone, Copy, PartialEq, Eq, Structural, Debug)]
pub struct FreeEntrySearch {
    /// Adjacent free entries seen so far.
    pub count: usize,
    /// Index (in its cluster) of the first of them.
    pub start: Option<usize>,
}

impl FreeEntrySearch {
    /// A search that has seen nothing yet.
    pub fn new() -> (r: Self)
        ensures
            r.count == 0,
            r.start is None,
    {
        FreeEntrySearch { count: 0, start: None }
    }

    /// Takes the entry at `idx` of its cluster, whose name starts with
    /// `first_byte`, in a search for `n` entries.
    pub fn step(&mut self, idx: usize, first_byte: u8, n: usize) -> (r: EntryScanStep)
        requires
            old(self).count < n,
            old(self).count > 0 <==> old(self).start is Some,
        ensures
            first_byte == 0 ==> r == EntryScanStep::EndOfDirectory && *final(self) == *old(self),
            first_byte == FAT_FREE_ENTRY ==> {
                let start = if old(self).start is None { idx } else { old(self).start->0 };
                &&& final(self).start == Some(start)
                &&& final(self).count == old(self).count + 1
                &&& r == (if old(self).count + 1 == n {
                    EntryScanStep::Found(start)
                } else {
                    EntryScanStep::Continue
                })
            },
            first_byte != 0 && first_byte != FAT_FREE_ENTRY ==> r == EntryScanStep::Continue
                && final(self).count == 0 && final(self).start is None,
            r == EntryScanStep::Continue ==> final(self).count < n && (final(self).count > 0
                <==> final(self).start is Some),
    {
        if first_byte == 0 {
            return EntryScanStep::EndOfDirectory;
        }
        if first_byte == FAT_FREE_ENTRY {
            if self.start.is_none() {
                self.start = Some(idx);
            }
            self.count = self.count + 1;
            if self.count == n {
                return EntryScanStep::Found(self.start.unwrap());
            }
            EntryScanStep::Continue
        } else {
            self.count = 0;
            self.start = None;
            EntryScanStep::Continue
        }
    }
}

/// The search for `n` adjacent entries that are free or never used, to place
/// a new directory entry: it remembers the cluster and the index where the
/// current chain of such entries started.
#[derive(Clone, Copy, PartialEq, Eq, Structural, Debug)]
pub struct EntryAllocation {
    pub chain_found: bool,
    pub chain_size: usize,
    pub starting_cluster: u32,
    pub starting_index: usize,
}

impl EntryAllocation {
    /// An allocation that has seen nothing yet.
    pub fn new() -> (r: Self)
        ensures
            r == (EntryAllocation {
                chain_found: false,
                chain_size: 0,
                starting_cluster: 0,
                starting_index: 0,
            }),
    {
        EntryAllocation { chain_found: false, chain_size: 0, starting_cluster: 0, starting_index: 0 }
    }

    /// Takes the entry at `index` of `cluster`, whose name starts with
    /// `first_byte`; returns where the `n` entries start once enough were
    /// seen.
    pub fn step(&mut self, cluster: u32, index: usize, first_byte: u8, n: usize) -> (r: Option<
        (u32, usize),
    >)
        requires
            old(self).chain_size < n,
        ensures
            (first_byte == 0 || first_byte == FAT_FREE_ENTRY) ==> {
                let started = if old(self).chain_found {
                    *old(self)
                } else {
                    EntryAllocation {
                        chain_found: true,
                        chain_size: old(self).chain_size,
                        starting_cluster: cluster,
                        starting_index: index,
                    }
                };
                &&& *final(self) == (EntryAllocation { chain_size: (old(self).chain_size + 1) as usize, ..started })
                &&& r == (if old(self).chain_size + 1 == n {
                    Some((started.starting_cluster, started.starting_index))
                } else {
                    None::<(u32, usize)>
                })
            },
            !(first_byte == 0 || first_byte == FAT_FREE_ENTRY) ==> r is None && *final(self) == (
            if old(self).chain_found {
                EntryAllocation {
                    chain_found: false,
                    chain_size: 0,
                    starting_cluster: 0,
                    starting_index: 0,
                }
            } else {
                *old(self)
            }),
            r is None ==> final(self).chain_size < n,
    {
        if first_byte == FAT_FREE_SECTOR as u8 || first_byte == FAT_FREE_ENTRY {
            if !self.chain_found {
                self.chain_found = true;
                self.starting_cluster = cluster;
                self.starting_index = index;
            }
            self.chain_size = self.chain_size + 1;
            if self.chain_size == n {
                return Some((self.starting_cluster, self.starting_index));
            }
            None
        } else {
            if self.chain_found {
                self.chain_found = false;
                self.chain_size = 0;
                self.starting_cluster = 0;
                self.starting_index = 0;
            }
            None
        }
    }
}

} // verus!
