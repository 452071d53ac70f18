use crate::error::{make_error, Error};
use crate::frontend::{read, Errno};
use crate::random_access_file::Content;
use crate::volume::Volume;
use vstd::prelude::*;

verus! {

use crate::fat::lemma_read_stop_same;
use crate::fs_tree::with_file;
use crate::misc::counted;
use crate::random_access_file::spliced;
use crate::volume::{fixed, lemma_read_bounds, same_volume};
use crate::volume_dir::{as_before, file_made, taken};

/// A file has been made with a content, and no other file has changed.
pub open spec fn file_brought(
    a: Volume,
    b: Volume,
    f: int,
    p: int,
    name: Seq<u8>,
    data: Seq<u8>,
) -> bool {
    &&& !a.tree().files.contains_key(f)
    &&& b.tree() == with_file(a.tree(), f, p, name, b.tree().files[f].data)
    &&& b.size(f) == data.len()
    &&& b.content(f) == data
    &&& b.content_readable(f, 0, data.len() as int)
    &&& b.fat.free_count() == a.fat.free_count() - counted(data.len() as int, a.block_len())
    &&& b.fs.files.room() == a.fs.files.room() - 1
    &&& forall|g: int| g != f && a.chains@.contains_key(g) ==> #[trigger] b.content(g) == a.content(
        g,
    )
    &&& forall|g: int, x: int, y: int|
        g != f && a.chains@.contains_key(g) && a.content_readable(g, x, y)
            ==> #[trigger] b.content_readable(g, x, y)
}

/// What bringing a file into a directory gives.
pub open spec fn import_gives(
    a: Volume,
    b: Volume,
    p: int,
    name: Seq<u8>,
    data: Seq<u8>,
    r: Result<u32, Error>,
) -> bool {
    &&& b.sound()
    &&& if taken(a, p, name) {
        r == Err::<u32, Error>(Error::AlreadyExist) && as_before(a, b)
    } else if a.fat.free_count() < counted(data.len() as int, a.block_len())
        || a.fs.files.room() == 0 {
        r == Err::<u32, Error>(Error::NoSpace) && as_before(a, b)
    } else {
        r matches Ok(f) && file_brought(a, b, f as int, p, name, data)
    }
}

/// What taking a file out gives. From the first block on that is not intact, it is zeros.
pub open spec fn extract_gives(v: Volume, f: int, r: Result<Vec<u8>, Errno>) -> bool {
    r matches Ok(d) && d@ == v.shown_range(f, 0, v.size(f))
}

/// Makes a file with a content.
pub fn import_file(vol: &mut Volume, parent: u32, name: &[u8], data: &[u8]) -> (r: Result<
    u32,
    Error,
>)
    requires
        old(vol).inv(),
        4 + name@.len() == old(vol).fs.files.key_len,
    ensures
        final(vol).inv(),
        fixed(*old(vol), *final(vol)),
        old(vol).sound() && old(vol).tree().dirs.contains_key(parent as int) ==> import_gives(
            *old(vol),
            *final(vol),
            parent as int,
            name@,
            data@,
            r,
        ),
{
    let ghost a = *vol;
    let len: usize = data.len();
    let dir = match vol.open_dir(parent) {
        Ok(d) => d,
        Err(e) => {
            return make_error(e);
        },
    };
    let ghost b = *vol;
    let made = dir.new_sub_file(vol, name, len);
    let ghost c = *vol;
    dir.close(vol);
    let ghost m = *vol;
    let file = match made {
        Ok(f) => f,
        Err(e) => {
            proof {
                if a.sound() && a.tree().dirs.contains_key(parent as int) {
                    assert forall|g: int| #[trigger] m.content(g) == a.content(g) by {
                        assert(c.content(g) == b.content(g));
                    }
                    assert forall|g: int, x: int, y: int| #[trigger]
                        m.content_readable(g, x, y) == a.content_readable(g, x, y) by {
                        assert(c.content_readable(g, x, y) == b.content_readable(g, x, y));
                    }
                    assert(as_before(a, m));
                }
            }
            return make_error(e);
        },
    };
    let ghost good = a.sound() && a.tree().dirs.contains_key(parent as int);
    let written = file.write(vol, 0, data);
    let ghost w = *vol;
    let ino: u32 = file.get_ino();
    file.close(vol);
    proof {
        if good {
            let f = file.ino();
            assert(file_made(b, c, f, parent as int, name@, len as int));
            assert(m.sound() && file.wf(m));
            assert(m.file_ok(f));
            assert(m.content(f).len() == len);
            if len > 0 {
                assert(w.content(f) == spliced(m.content(f), 0, data@));
                assert(spliced(m.content(f), 0, data@) =~= data@);
            } else {
                assert(m.content(f) =~= data@);
            }
            assert(vol.content(f) == w.content(f));
            assert forall|g: int| g != f && a.chains@.contains_key(g) implies #[trigger] vol.content(
                g,
            ) == a.content(g) by {
                assert(b.content(g) == a.content(g));
                assert(c.content(g) == b.content(g));
                assert(m.content(g) == c.content(g));
                assert(w.content(g) == m.content(g));
            }
            assert(vol.content_readable(f, 0, len as int));
            assert forall|g: int, x: int, y: int|
                g != f && a.chains@.contains_key(g) && a.content_readable(
                    g,
                    x,
                    y,
                ) implies #[trigger] vol.content_readable(g, x, y) by {
                assert(b.content_readable(g, x, y));
                assert(c.content_readable(g, x, y));
                assert(m.content_readable(g, x, y));
                assert(c.chains@.contains_key(g));
                assert(w.content_readable(g, x, y));
            }
            assert(file_brought(a, *vol, f, parent as int, name@, data@));
        }
    }
    match written {
        Ok(()) => Ok(ino),
        Err(e) => Err(e),
    }
}

/// Takes the content of a file out.
pub fn extract_file(vol: &mut Volume, ino: u32) -> (r: Result<Vec<u8>, Errno>)
    requires
        old(vol).inv(),
    ensures
        final(vol).inv(),
        same_volume(*old(vol), *final(vol)),
        old(vol).sound() ==> final(vol).sound(),
        old(vol).sound() && old(vol).tree().files.contains_key(ino as int) ==> extract_gives(
            *old(vol),
            ino as int,
            r,
        ),
{
    let ghost a = *vol;
    let file = match vol.open_file(ino) {
        Ok(f) => f,
        Err(_) => {
            return Err(Errno::NotFound);
        },
    };
    let ghost b = *vol;
    let len: usize = file.len();
    let r = read(vol, &file, 0, len);
    file.close(vol);
    proof {
        let f = ino as int;
        if a.sound() && a.tree().files.contains_key(f) {
            assert(b.file_ok(f));
            assert(b.content(f) == a.content(f));
            lemma_read_stop_same(a.data, b.data, 0, a.block_len(), a.list(f), 0, len as int);
            lemma_read_bounds(a, f, 0, len as int);
            if len == 0 {
                assert(a.shown_range(f, 0, 0) =~= Seq::<u8>::empty());
                assert(r->Ok_0@ =~= Seq::<u8>::empty());
            }
        }
    }
    r
}

/// What has been brought in is what is taken out again.
pub proof fn law_import_then_extract(
    a: Volume,
    b: Volume,
    p: int,
    name: Seq<u8>,
    data: Seq<u8>,
    f: u32,
    r: Result<Vec<u8>, Errno>,
)
    requires
        import_gives(a, b, p, name, data, Ok(f)),
        extract_gives(b, f as int, r),
    ensures
        r matches Ok(d) && d@ == data,
{
    lemma_read_bounds(b, f as int, 0, data.len() as int);
    assert(data.subrange(0, data.len() as int) =~= data);
}

} // verus!
