use crate::error::{make_error, Error};
use crate::fat::{Fat, FatFile};
use crate::fs_meta::{FsMeta, MetaLayout};
use crate::misc::divide_up;
use crate::random_access_file::{Content, RandomAccessFile};
use crate::shadow::Shadow;
use crate::volume::Volume;
use vstd::prelude::*;

verus! {

use crate::fat::{others_kept, sound};
use crate::fat_list::{
    block_count, blocks, chain, inside, lemma_apart_symmetric, lemma_inside_apart, lists_apart,
    maps, Span,
};
use crate::fat_table::INDEX_END;
use crate::fs_meta::root_tree;
use crate::misc::{counted, lemma_counted};
use crate::volume::{fat_sound, fs_sound, lemma_chain_survives};
use crate::volume_store::table_len;
use vstd::arithmetic::mul::*;

/// What a new volume is to be like.
#[derive(Clone, Copy, PartialEq, Eq, Structural, Debug)]
pub struct Plan {
    pub block_len: usize,
    pub block_count: usize,
    pub max_dir: usize,
    pub dir_buckets: usize,
    pub max_file: usize,
    pub file_buckets: usize,
    pub layout: MetaLayout,
    /// Whether the tables of directories and files are in blocks.
    pub in_blocks: bool,
}

impl Plan {
    pub open spec fn dir_len(self) -> int {
        table_len(self.max_dir + 2, self.layout.dir_key_len, self.layout.dir_info_len)
    }

    pub open spec fn file_len(self) -> int {
        table_len(self.max_file + 1, self.layout.file_key_len, self.layout.file_info_len)
    }

    pub open spec fn dir_blocks(self) -> int {
        counted(self.dir_len(), self.block_len as int)
    }

    pub open spec fn file_blocks(self) -> int {
        counted(self.file_len(), self.block_len as int)
    }

    /// A volume like this can be made.
    pub open spec fn ok(self) -> bool {
        &&& self.layout.short()
        &&& self.layout.file_info_len >= 20
        &&& self.block_len > 0
        &&& 1 <= self.block_count
        &&& self.block_count + 1 < INDEX_END
        &&& self.dir_buckets > 0
        &&& self.file_buckets > 0
        &&& self.max_dir + 2 <= u32::MAX
        &&& self.max_file + 1 <= u32::MAX
        &&& self.dir_buckets * 4 <= usize::MAX
        &&& self.file_buckets * 4 <= usize::MAX
        &&& (self.block_count + 1) * 8 <= usize::MAX
        &&& self.block_count * self.block_len <= usize::MAX
        &&& self.dir_len() <= usize::MAX
        &&& self.file_len() <= usize::MAX
        &&& self.in_blocks ==> self.dir_blocks() + self.file_blocks() <= self.block_count
    }

    /// How long the table of directories is.
    pub open spec fn dir_room(self) -> int {
        if self.in_blocks {
            self.dir_blocks() * self.block_len
        } else {
            self.dir_len()
        }
    }

    /// How long the table of files is.
    pub open spec fn file_room(self) -> int {
        if self.in_blocks {
            self.file_blocks() * self.block_len
        } else {
            self.file_len()
        }
    }
}

/// A new volume, and where its tables are if they are in blocks.
pub struct Blank {
    pub volume: Volume,
    pub tables: Option<(FatFile, FatFile)>,
}

/// Where a table is that is in blocks.
pub open spec fn in_place(v: Volume, f: FatFile, key: int, count: int) -> bool {
    &&& f.inv()
    &&& v.chains@.contains_key(key)
    &&& v.chains@[key].len() > 0
    &&& f.runs@ == v.chains@[key]
    &&& f.block_list@ == v.list(key)
    &&& v.list(key).len() == count
    &&& v.chains@[key][0].start == f.block_list@[0].block_index
}

/// The volume is as planned, and empty but for the root.
pub open spec fn blank_volume(plan: Plan, b: Blank) -> bool {
    let v = b.volume;
    let l = plan.layout;
    &&& v.sound()
    &&& v.tree() == root_tree((l.dir_key_len - 4) as nat, (l.dir_info_len - 12) as nat)
    &&& v.fs.dirs.room() == plan.max_dir
    &&& v.fs.files.room() == plan.max_file
    &&& v.fs.dirs.model().max() == plan.max_dir + 2
    &&& v.fs.files.model().max() == plan.max_file + 1
    &&& v.fs.shape() == (
        (l.dir_key_len, l.dir_info_len, plan.dir_buckets * 4, plan.dir_room()),
        (l.file_key_len, l.file_info_len, plan.file_buckets * 4, plan.file_room()),
    )
    &&& v.fat.block_len == plan.block_len
    &&& v.fat.table.bytes().len() == (plan.block_count + 1) * 8
    &&& v.data.bytes().len() == plan.block_count * plan.block_len
    &&& forall|i: int| !#[trigger] v.data.readable(i)
    &&& v.fat.free_count() == plan.block_count - if plan.in_blocks {
        plan.dir_blocks() + plan.file_blocks()
    } else {
        0
    }
    &&& match b.tables {
        None => !plan.in_blocks,
        Some((f, g)) => {
            &&& plan.in_blocks
            &&& in_place(v, f, -1, plan.dir_blocks())
            &&& in_place(v, g, -2, plan.file_blocks())
        },
    }
}

proof fn lemma_one_run(n: usize)
    ensures
        maps(seq![Span { start: 0, size: n }]).len() == n,
{
    let c = seq![Span { start: 0, size: n }];
    assert(c.drop_last() =~= Seq::<Span>::empty());
    assert(maps(c.drop_last()) =~= Seq::empty());
    assert(maps(c).len() == 0 + c.last().maps().len());
}

/// The two tables have blocks of their own.
proof fn lemma_two_tables(a: Fat<Shadow>, b: Fat<Shadow>, c: Fat<Shadow>, f: FatFile, g: FatFile)
    requires
        f.wf(b),
        inside(b.free_list(), a.free_list()),
        inside(g.runs@, b.free_list()),
        inside(c.free_list(), b.free_list()),
        others_kept(b, c, b.free_list()),
    ensures
        chain(c.table, f.runs@),
        lists_apart(f.runs@, c.free_list()),
        lists_apart(f.runs@, g.runs@),
        lists_apart(g.runs@, f.runs@),
{
    lemma_apart_symmetric(f.runs@, b.free_list());
    lemma_chain_survives(b, c, b.free_list(), f.runs@);
    lemma_inside_apart(g.runs@, b.free_list(), f.runs@);
    lemma_apart_symmetric(g.runs@, f.runs@);
}

impl Blank {
    /// Makes an empty volume.
    #[verifier::rlimit(60)]
    pub fn new(plan: &Plan) -> (r: Result<Blank, Error>)
        requires
            plan.ok(),
        ensures
            r matches Ok(b) && blank_volume(*plan, b),
    {
        let ghost p = *plan;
        let l = plan.layout;
        let mut table = Shadow::blank((plan.block_count + 1) * 8);
        if let Err(e) = Fat::format(&mut table) {
            return make_error(e);
        }
        let ghost all = seq![Span { start: 0, size: block_count(table) as usize }];
        let data_len: usize = plan.block_count * plan.block_len;
        let data = Shadow::blank(data_len);
        proof {
            assert(block_count(table) == plan.block_count);
            assert(sound(table, all));
            lemma_one_run(plan.block_count);
        }
        let mut fat = match Fat::new(table, data_len, plan.block_len) {
            Ok(f) => f,
            Err(e) => {
                return make_error(e);
            },
        };
        let ghost f0 = fat;
        let dir_row: usize = l.dir_key_len + l.dir_info_len + 4;
        let file_row: usize = l.file_key_len + l.file_info_len + 4;
        let dir_len: usize = (plan.max_dir + 2) * dir_row;
        let file_len: usize = (plan.max_file + 1) * file_row;
        proof {
            lemma_counted(p.dir_len(), p.block_len as int);
            lemma_counted(p.file_len(), p.block_len as int);
            lemma_mul_strictly_positive(p.max_dir + 2, dir_row as int);
            lemma_mul_strictly_positive(p.max_file + 1, file_row as int);
        }
        let mut chains: Ghost<Map<int, Seq<Span>>> = Ghost(Map::empty());
        let mut tables: Option<(FatFile, FatFile)> = None;
        let mut dir_room: usize = dir_len;
        let mut file_room: usize = file_len;
        if plan.in_blocks {
            let dir_blocks: usize = divide_up(dir_len, plan.block_len);
            let file_blocks: usize = divide_up(file_len, plan.block_len);
            proof {
                lemma_mul_inequality(p.dir_blocks(), p.block_count as int, p.block_len as int);
                lemma_mul_inequality(p.file_blocks(), p.block_count as int, p.block_len as int);
            }
            let (f, _) = match FatFile::create(&mut fat, dir_blocks) {
                Ok(f) => f,
                Err(e) => {
                    return make_error(e);
                },
            };
            let ghost f1 = fat;
            proof {
                lemma_freed(f0, f1, f);
            }
            let (g, _) = match FatFile::create(&mut fat, file_blocks) {
                Ok(f) => f,
                Err(e) => {
                    return make_error(e);
                },
            };
            proof {
                lemma_freed(f1, fat, g);
                lemma_two_tables(f0, f1, fat, f, g);
                chains@ = map![-1int => f.runs@, -2int => g.runs@];
            }
            tables = Some((f, g));
            dir_room = dir_blocks * plan.block_len;
            file_room = file_blocks * plan.block_len;
        }
        let fs = match FsMeta::format(
            Shadow::blank(plan.dir_buckets * 4),
            Shadow::blank(dir_room),
            plan.max_dir + 2,
            Shadow::blank(plan.file_buckets * 4),
            Shadow::blank(file_room),
            plan.max_file + 1,
            l,
        ) {
            Ok(fs) => fs,
            Err(e) => {
                return make_error(e);
            },
        };
        let volume = Volume { fs, fat, data, chains };
        proof {
            reveal(fs_sound);
            reveal(fat_sound);
            assert forall|f: int| #[trigger] volume.chains@.contains_key(f) implies volume.chain_ok(
                f,
            ) by {}
        }
        Ok(Blank { volume, tables })
    }
}

/// As many blocks are free as have not been taken.
proof fn lemma_freed(a: Fat<Shadow>, b: Fat<Shadow>, f: FatFile)
    requires
        a.wf(),
        b.wf(),
        f.wf(b),
        f.inv(),
        f.blocks() + blocks(b.free_list()) == blocks(a.free_list()),
    ensures
        b.free_count() == a.free_count() - f.block_list@.len(),
        f.runs@.len() > 0,
{
    assert(blocks(a.free_list()).len() == maps(a.free_list()).len());
    assert(blocks(b.free_list()).len() == maps(b.free_list()).len());
    assert(f.blocks().len() == f.block_list@.len());
    if f.runs@.len() == 0 {
        assert(maps(f.runs@) =~= Seq::empty());
    }
}

} // verus!
