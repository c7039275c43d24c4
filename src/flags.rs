use vstd::prelude::*;

use crate::fields::{pieces, ranges_within, split_on, split_ranges};

verus! {

/// Linux's `MS_RDONLY`: mounted read-only.
pub const MS_RDONLY: u64 = 0x01;
/// Linux's `MS_NOSUID`: set-user-id bits are ignored.
pub const MS_NOSUID: u64 = 0x02;
/// Linux's `MS_NODEV`: device files are not usable.
pub const MS_NODEV: u64 = 0x04;
/// Linux's `MS_NOEXEC`: programs cannot be executed.
pub const MS_NOEXEC: u64 = 0x08;
/// Linux's `MS_SYNCHRONOUS`: writes are synchronous.
pub const MS_SYNCHRONOUS: u64 = 0x10;
/// Linux's `MS_MANDLOCK`: mandatory locking is allowed.
pub const MS_MANDLOCK: u64 = 0x40;
/// Linux's `MS_DIRSYNC`: directory updates are synchronous.
pub const MS_DIRSYNC: u64 = 0x80;
/// Linux's `MS_NOATIME`: access times are not updated.
pub const MS_NOATIME: u64 = 0x0400;
/// Linux's `MS_NODIRATIME`: directory access times are not updated.
pub const MS_NODIRATIME: u64 = 0x0800;
/// Linux's `MS_RELATIME`: access times are updated relative to modification.
pub const MS_RELATIME: u64 = 0x200000;
/// Linux's `MS_STRICTATIME`: access times are always updated.
pub const MS_STRICTATIME: u64 = 0x1000000;

/// The byte `,` between mount options.
pub const COMMA: u8 = 44;

/// The flag that one mount option stands for, or 0 for an option that is
/// not one of the flags (`rw` among them).
pub open spec fn option_flag(t: Seq<u8>) -> u64 {
    if t == seq![114u8, 111u8] {
        MS_RDONLY
    } else if t == seq![110u8, 111u8, 115u8, 117u8, 105u8, 100u8] {
        MS_NOSUID
    } else if t == seq![110u8, 111u8, 100u8, 101u8, 118u8] {
        MS_NODEV
    } else if t == seq![110u8, 111u8, 101u8, 120u8, 101u8, 99u8] {
        MS_NOEXEC
    } else if t == seq![109u8, 97u8, 110u8, 100u8] {
        MS_MANDLOCK
    } else if t == seq![115u8, 121u8, 110u8, 99u8] {
        MS_SYNCHRONOUS
    } else if t == seq![100u8, 105u8, 114u8, 115u8, 121u8, 110u8, 99u8] {
        MS_DIRSYNC
    } else if t == seq![110u8, 111u8, 97u8, 116u8, 105u8, 109u8, 101u8] {
        MS_NOATIME
    } else if t == seq![110u8, 111u8, 100u8, 105u8, 114u8, 97u8, 116u8, 105u8, 109u8, 101u8] {
        MS_NODIRATIME
    } else if t == seq![114u8, 101u8, 108u8, 97u8, 116u8, 105u8, 109u8, 101u8] {
        MS_RELATIME
    } else if t == seq![115u8, 116u8, 114u8, 105u8, 99u8, 116u8, 97u8, 116u8, 105u8, 109u8, 101u8] {
        MS_STRICTATIME
    } else {
        0
    }
}

/// The union of the flags of a list of options.
pub open spec fn flags_of_options(toks: Seq<Seq<u8>>) -> u64
    decreases toks.len(),
{
    if toks.len() == 0 {
        0
    } else {
        flags_of_options(toks.drop_last()) | option_flag(toks.last())
    }
}

/// The flag mask of a comma-separated option string.
pub open spec fn options_flags(opts: Seq<u8>) -> u64 {
    flags_of_options(split_on(opts, COMMA))
}

/// One of the flags that an option can stand for.
pub open spec fn is_option_flag(f: u64) -> bool {
    f == MS_RDONLY || f == MS_NOSUID || f == MS_NODEV || f == MS_NOEXEC || f == MS_MANDLOCK
        || f == MS_SYNCHRONOUS || f == MS_DIRSYNC || f == MS_NOATIME || f == MS_NODIRATIME
        || f == MS_RELATIME || f == MS_STRICTATIME
}

proof fn lemma_flags_of_options_bit(toks: Seq<Seq<u8>>, f: u64)
    requires
        is_option_flag(f),
    ensures
        (flags_of_options(toks) & f != 0) <==> exists|k: int|
            0 <= k < toks.len() && option_flag(#[trigger] toks[k]) == f,
    decreases toks.len(),
{
    if toks.len() > 0 {
        let init = toks.drop_last();
        lemma_flags_of_options_bit(init, f);
        let x = flags_of_options(init);
        let y = option_flag(toks.last());
        assert(((x | y) & f != 0) <==> (x & f != 0 || y & f != 0)) by (bit_vector);
        assert((y & f != 0) <==> y == f) by (bit_vector)
            requires
                y == 0 || y == 0x01 || y == 0x02 || y == 0x04 || y == 0x08 || y == 0x10 || y
                    == 0x40 || y == 0x80 || y == 0x0400 || y == 0x0800 || y == 0x200000 || y
                    == 0x1000000,
                f == 0x01 || f == 0x02 || f == 0x04 || f == 0x08 || f == 0x10 || f == 0x40 || f
                    == 0x80 || f == 0x0400 || f == 0x0800 || f == 0x200000 || f == 0x1000000,
        ;
        if x & f != 0 {
            let k = choose|k: int| 0 <= k < init.len() && option_flag(#[trigger] init[k]) == f;
            assert(toks[k] == init[k]);
        }
        if exists|k: int| 0 <= k < toks.len() && option_flag(#[trigger] toks[k]) == f {
            let k = choose|k: int| 0 <= k < toks.len() && option_flag(#[trigger] toks[k]) == f;
            if k < init.len() {
                assert(init[k] == toks[k]);
            }
        }
    } else {
        assert(0u64 & f == 0) by (bit_vector);
    }
}

/// The flag of a recognised option is set in the mask of an option string
/// exactly when that option is one of the string's comma-separated options;
/// so `ro` is absent from the mask of `rw`.
pub proof fn lemma_flag_set_iff_option_listed(opts: Seq<u8>, t: Seq<u8>)
    requires
        option_flag(t) != 0,
    ensures
        (options_flags(opts) & option_flag(t) != 0) <==> split_on(opts, COMMA).contains(t),
{
    let toks = split_on(opts, COMMA);
    lemma_flags_of_options_bit(toks, option_flag(t));
    if exists|k: int| 0 <= k < toks.len() && option_flag(#[trigger] toks[k]) == option_flag(t) {
        let k = choose|k: int| 0 <= k < toks.len() && option_flag(#[trigger] toks[k]) == option_flag(t);
        assert(toks[k] == t);
    }
    if toks.contains(t) {
        let k = choose|k: int| 0 <= k < toks.len() && toks[k] == t;
        assert(option_flag(toks[k]) == option_flag(t));
    }
}

fn bytes_equal(a: &[u8], b: &[u8]) -> (r: bool)
    ensures
        r == (a@ == b@),
{
    if a.len() != b.len() {
        return false;
    }
    let mut i: usize = 0;
    while i < a.len()
        invariant
            i <= a@.len(),
            a@.len() == b@.len(),
            forall|j: int| 0 <= j < i ==> a@[j] == b@[j],
        decreases a@.len() - i,
    {
        if a[i] != b[i] {
            return false;
        }
        i += 1;
    }
    assert(a@ =~= b@);
    true
}

/// The flag that one mount option stands for.
pub fn flag_of_option(t: &[u8]) -> (r: u64)
    ensures
        r == option_flag(t@),
{
    let ro: [u8; 2] = [114u8, 111u8];
    let nosuid: [u8; 6] = [110u8, 111u8, 115u8, 117u8, 105u8, 100u8];
    let nodev: [u8; 5] = [110u8, 111u8, 100u8, 101u8, 118u8];
    let noexec: [u8; 6] = [110u8, 111u8, 101u8, 120u8, 101u8, 99u8];
    let mand: [u8; 4] = [109u8, 97u8, 110u8, 100u8];
    let sync: [u8; 4] = [115u8, 121u8, 110u8, 99u8];
    let dirsync: [u8; 7] = [100u8, 105u8, 114u8, 115u8, 121u8, 110u8, 99u8];
    let noatime: [u8; 7] = [110u8, 111u8, 97u8, 116u8, 105u8, 109u8, 101u8];
    let nodiratime: [u8; 10] = [110u8, 111u8, 100u8, 105u8, 114u8, 97u8, 116u8, 105u8, 109u8, 101u8];
    let relatime: [u8; 8] = [114u8, 101u8, 108u8, 97u8, 116u8, 105u8, 109u8, 101u8];
    let strictatime: [u8; 11] = [115u8, 116u8, 114u8, 105u8, 99u8, 116u8, 97u8, 116u8, 105u8, 109u8, 101u8];
    if bytes_equal(t, ro.as_slice()) {
        MS_RDONLY
    } else if bytes_equal(t, nosuid.as_slice()) {
        MS_NOSUID
    } else if bytes_equal(t, nodev.as_slice()) {
        MS_NODEV
    } else if bytes_equal(t, noexec.as_slice()) {
        MS_NOEXEC
    } else if bytes_equal(t, mand.as_slice()) {
        MS_MANDLOCK
    } else if bytes_equal(t, sync.as_slice()) {
        MS_SYNCHRONOUS
    } else if bytes_equal(t, dirsync.as_slice()) {
        MS_DIRSYNC
    } else if bytes_equal(t, noatime.as_slice()) {
        MS_NOATIME
    } else if bytes_equal(t, nodiratime.as_slice()) {
        MS_NODIRATIME
    } else if bytes_equal(t, relatime.as_slice()) {
        MS_RELATIME
    } else if bytes_equal(t, strictatime.as_slice()) {
        MS_STRICTATIME
    } else {
        0
    }
}

/// Maps a comma-separated option string to the union of the flags of its
/// options; options that stand for no flag are ignored.
pub fn flags_from_options(opts: &[u8]) -> (r: u64)
    ensures
        r == options_flags(opts@),
{
    let ranges = split_ranges(opts, COMMA);
    let ghost toks = split_on(opts@, COMMA);
    let mut flags: u64 = 0;
    let mut k: usize = 0;
    proof {
        assert(toks.take(0) =~= Seq::<Seq<u8>>::empty());
    }
    while k < ranges.len()
        invariant
            k <= ranges@.len(),
            ranges_within(ranges@, opts@.len() as int),
            pieces(opts@, ranges@) == toks,
            flags == flags_of_options(toks.take(k as int)),
        decreases ranges@.len() - k,
    {
        let (a, b) = ranges[k];
        let t = vstd::slice::slice_subrange(opts, a, b);
        let f = flag_of_option(t);
        proof {
            assert(toks[k as int] == opts@.subrange(a as int, b as int));
            assert(toks.take(k + 1).drop_last() =~= toks.take(k as int));
            assert(toks.take(k + 1).last() == toks[k as int]);
        }
        flags = flags | f;
        k += 1;
    }
    proof {
        assert(toks.take(k as int) =~= toks);
    }
    flags
}

} // verus!
