use crate::archive::Archive;
use crate::difi_partition::DifiPartition;
use crate::fs_info::{FsInfo, OffsetOrFatFile};
use crate::random_access_file::Content;
use crate::volume::Volume;
use crate::volume_format::{Blank, Plan};
use crate::volume_store::{Source, Store, TablePlace};
use vstd::prelude::*;

verus! {

use crate::misc::lemma_counted;
use crate::slots::ranges_apart;
use crate::volume_format::{blank_volume, in_place};
use crate::volume_store::{covered, table_len, table_told, told};
use vstd::arithmetic::mul::*;

/// Where the parts of a new volume go. The offset of the data counts where the tables are in
/// blocks, those of the tables where they are not.
#[derive(Clone, Copy, PartialEq, Eq, Structural, Debug)]
pub struct Spots {
    pub dir_hash: usize,
    pub file_hash: usize,
    pub fat: usize,
    pub data: usize,
    pub dir_table: usize,
    pub file_table: usize,
}

/// The parts follow each other behind the header, within the partitions.
pub open spec fn spots_ok(plan: Plan, at: Spots, head: int, parts: Seq<DifiPartition>) -> bool {
    let n = parts[0].bytes().len();
    &&& head <= at.dir_hash
    &&& at.dir_hash + plan.dir_buckets * 4 <= at.file_hash
    &&& at.file_hash + plan.file_buckets * 4 <= at.fat
    &&& if plan.in_blocks {
        &&& parts.len() == 1
        &&& at.fat + (plan.block_count + 1) * 8 <= at.data
        &&& at.data + plan.block_count * plan.block_len <= n
    } else {
        &&& parts.len() == 2
        &&& at.data == 0
        &&& at.fat + (plan.block_count + 1) * 8 <= at.dir_table
        &&& at.dir_table + plan.dir_len() <= at.file_table
        &&& at.file_table + plan.file_len() <= n
        &&& parts[1].bytes().len() == plan.block_count * plan.block_len
    }
}

/// The numbers of the plan can be noted.
pub open spec fn plan_noted(plan: Plan) -> bool {
    &&& plan.ok()
    &&& plan.block_len <= u32::MAX
    &&& plan.dir_buckets <= u32::MAX
    &&& plan.file_buckets <= u32::MAX
}

/// What is noted of a new volume.
pub open spec fn source_as(plan: Plan, at: Spots, s: Source, v: Volume) -> bool {
    let i = s.info;
    &&& s.layout == plan.layout
    &&& s.base == 0
    &&& !s.cut_off
    &&& i.block_len == plan.block_len
    &&& i.dir_hash_offset == at.dir_hash
    &&& i.dir_buckets == plan.dir_buckets
    &&& i.file_hash_offset == at.file_hash
    &&& i.file_buckets == plan.file_buckets
    &&& i.fat_offset == at.fat
    &&& i.fat_size == plan.block_count
    &&& i.data_offset == at.data
    &&& i.data_block_count == plan.block_count
    &&& i.max_dir == plan.max_dir
    &&& i.max_file == plan.max_file
    &&& if plan.in_blocks {
        &&& i.dir_table.block_index == v.chains@[-1][0].start
        &&& i.dir_table.block_count == plan.dir_blocks()
        &&& i.file_table.block_index == v.chains@[-2][0].start
        &&& i.file_table.block_count == plan.file_blocks()
    } else {
        &&& i.dir_table.offset() == at.dir_table
        &&& i.file_table.offset() == at.file_table
    }
}

/// Where a new volume is stored.
pub open spec fn store_as(plan: Plan, at: Spots, s: Store, v: Volume) -> bool {
    &&& s.dir_hash == at.dir_hash
    &&& s.file_hash == at.file_hash
    &&& s.fat == at.fat
    &&& s.data == at.data
    &&& s.data_len == plan.block_count * plan.block_len
    &&& if plan.in_blocks {
        &&& s.data_part == 0
        &&& s.dir_table matches TablePlace::Blocks(f) && in_place(v, f, -1, plan.dir_blocks())
        &&& s.file_table matches TablePlace::Blocks(f) && in_place(v, f, -2, plan.file_blocks())
    } else {
        &&& s.data_part == 1
        &&& s.dir_table == TablePlace::At(at.dir_table as u64)
        &&& s.file_table == TablePlace::At(at.file_table as u64)
    }
}

/// Notes where the parts of a new volume go.
pub fn place(blank: Blank, plan: &Plan, at: &Spots) -> (a: Archive)
    requires
        plan_noted(*plan),
        blank_volume(*plan, blank),
        !plan.in_blocks ==> at.data == 0,
    ensures
        a.volume == blank.volume,
        source_as(*plan, *at, a.source, a.volume),
        store_as(*plan, *at, a.store, a.volume),
{
    let Blank { volume, tables } = blank;
    let data_len: usize = plan.block_count * plan.block_len;
    let (dir_table, file_table, dir_place, file_place) = match tables {
        Some((f, g)) => {
            proof {
                lemma_counted(plan.dir_len(), plan.block_len as int);
                lemma_counted(plan.file_len(), plan.block_len as int);
                lemma_first_fits(volume, -1);
                lemma_first_fits(volume, -2);
            }
            (
                OffsetOrFatFile {
                    block_index: f.block_list[0].block_index as u32,
                    block_count: f.block_list.len() as u32,
                },
                OffsetOrFatFile {
                    block_index: g.block_list[0].block_index as u32,
                    block_count: g.block_list.len() as u32,
                },
                TablePlace::Blocks(f),
                TablePlace::Blocks(g),
            )
        },
        None => (
            OffsetOrFatFile::from_offset(at.dir_table as u64),
            OffsetOrFatFile::from_offset(at.file_table as u64),
            TablePlace::At(at.dir_table as u64),
            TablePlace::At(at.file_table as u64),
        ),
    };
    let info = FsInfo {
        block_len: plan.block_len as u32,
        dir_hash_offset: at.dir_hash as u64,
        dir_buckets: plan.dir_buckets as u32,
        file_hash_offset: at.file_hash as u64,
        file_buckets: plan.file_buckets as u32,
        fat_offset: at.fat as u64,
        fat_size: plan.block_count as u32,
        data_offset: at.data as u64,
        data_block_count: plan.block_count as u32,
        dir_table,
        max_dir: plan.max_dir as u32,
        file_table,
        max_file: plan.max_file as u32,
    };
    let store = Store {
        dir_hash: at.dir_hash as u64,
        file_hash: at.file_hash as u64,
        fat: at.fat as u64,
        dir_table: dir_place,
        file_table: file_place,
        data_part: if plan.in_blocks {
            0
        } else {
            1
        },
        data: at.data as u64,
        data_len: data_len as u64,
    };
    let source = Source { info, layout: plan.layout, base: 0, cut_off: false };
    Archive { volume, store, source }
}

proof fn lemma_first_fits(v: Volume, key: int)
    requires
        v.framed(),
        v.chains@.contains_key(key),
        v.chains@[key].len() > 0,
    ensures
        v.chains@[key][0].start < 0x8000_0000,
{
    reveal(crate::volume::fat_sound);
    assert(v.chain_ok(key));
    let c = v.chains@[key];
    assert(c[0].size >= 1 && c[0].start + c[0].size <= crate::fat_list::block_count(v.fat.table));
}

/// The ranges of a new volume.
proof fn lemma_spots_ranges(
    plan: Plan,
    at: Spots,
    a: Archive,
    head: int,
    parts: Seq<DifiPartition>,
)
    requires
        plan_noted(plan),
        spots_ok(plan, at, head, parts),
        store_as(plan, at, a.store, a.volume),
        a.volume.fs.dirs.hash.data@.len() == plan.dir_buckets * 4,
        a.volume.fs.files.hash.data@.len() == plan.file_buckets * 4,
        a.volume.fat.table.data@.len() == (plan.block_count + 1) * 8,
        !plan.in_blocks ==> a.volume.fs.dirs.table.data@.len() == plan.dir_len(),
        !plan.in_blocks ==> a.volume.fs.files.table.data@.len() == plan.file_len(),
        0 <= head,
    ensures
        a.store.apart(a.volume),
        forall|i: int| #[trigger] covered(a.store.ranges(a.volume), i) ==> !(0 <= i < head),
{
    let r = a.store.ranges(a.volume);
    let fat_len = (plan.block_count + 1) * 8;
    let data_len = plan.block_count * plan.block_len;
    lemma_mul_nonnegative(plan.block_count as int, plan.block_len as int);
    lemma_mul_nonnegative(
        plan.max_dir + 2,
        plan.layout.dir_key_len + plan.layout.dir_info_len + 4,
    );
    lemma_mul_nonnegative(
        plan.max_file + 1,
        plan.layout.file_key_len + plan.layout.file_info_len + 4,
    );
    let dl = plan.dir_len();
    let fl = plan.file_len();
    assert(r[0] == (at.dir_hash as int, plan.dir_buckets * 4));
    assert(r[1] == (at.file_hash as int, plan.file_buckets * 4));
    assert(r[2] == (at.fat as int, fat_len));
    assert(r[3] == if plan.in_blocks {
        (0int, 0int)
    } else {
        (at.dir_table as int, dl)
    });
    assert(r[4] == if plan.in_blocks {
        (0int, 0int)
    } else {
        (at.file_table as int, fl)
    });
    assert(r[5] == if plan.in_blocks {
        (at.data as int, data_len)
    } else {
        (0int, 0int)
    });
    assert forall|j: int, k: int| 0 <= j < k < 6 implies ranges_apart(
        (#[trigger] r[j]).0,
        r[j].1,
        (#[trigger] r[k]).0,
        r[k].1,
    ) by {
        if j == 0 || j == 1 || j == 2 || j == 3 || j == 4 {
            if k == 1 || k == 2 || k == 3 || k == 4 || k == 5 {
            }
        }
    }
    assert forall|i: int| #[trigger] covered(r, i) implies !(0 <= i < head) by {
        let k = choose|k: int| 0 <= k < r.len() && (#[trigger] r[k]).0 <= i < r[k].0 + r[k].1;
        if k == 0 || k == 1 || k == 2 || k == 3 || k == 4 || k == 5 {
        }
    }
}

/// The parts of a new volume have their places.
pub proof fn lemma_placed(
    plan: Plan,
    at: Spots,
    a: Archive,
    blank: Blank,
    head: int,
    parts: Seq<DifiPartition>,
)
    requires
        plan_noted(plan),
        blank_volume(plan, blank),
        a.volume == blank.volume,
        spots_ok(plan, at, head, parts),
        source_as(plan, at, a.source, a.volume),
        store_as(plan, at, a.store, a.volume),
        0 <= head,
        forall|k: int| 0 <= k < parts.len() ==> (#[trigger] parts[k]).bytes().len() <= usize::MAX,
    ensures
        a.store.ready(a.volume),
        told(a.source, a.volume, a.store, parts),
        a.store.apart(a.volume),
        a.volume.data.data@.len() <= a.store.data_len,
        forall|i: int| #[trigger] covered(a.store.ranges(a.volume), i) ==> !(0 <= i < head),
{
    let v = a.volume;
    lemma_spots_ranges(plan, at, a, head, parts);
    lemma_mul_nonnegative(plan.block_count as int, plan.block_len as int);
    lemma_counted(plan.dir_len(), plan.block_len as int);
    lemma_counted(plan.file_len(), plan.block_len as int);
    assert(parts[0].bytes().len() <= usize::MAX);
    let i = a.source.info;
    let l = plan.layout;
    assert(table_told(
        parts,
        a.source,
        v,
        v.fs.dirs.table,
        a.store.dir_table,
        i.dir_table,
        table_len(i.max_dir + 2, l.dir_key_len, l.dir_info_len),
        -1,
    ));
    assert(table_told(
        parts,
        a.source,
        v,
        v.fs.files.table,
        a.store.file_table,
        i.file_table,
        table_len(i.max_file + 1, l.file_key_len, l.file_info_len),
        -2,
    ));
    assert(a.source.fits(parts));
}

} // verus!
