//! The path mapper: derives a local file path from a remote object name.
//!
//! The object name is a `/`-separated path. Its final segment, trimmed of
//! surrounding whitespace, becomes the local base name (a fixed fallback
//! stands in when nothing is left); the leading segments are kept as a
//! sub-directory path under the local root, so `2024/01/report.csv` under
//! root `R` maps to `R/2024/01/report.csv`.

use vstd::prelude::*;

verus! {

/// The path delimiter `/`.
pub open spec fn slash() -> u8 {
    47
}

/// ASCII whitespace: tab through carriage return, and space.
pub open spec fn is_space(b: u8) -> bool {
    b == 32 || (9 <= b && b <= 13)
}

/// The sequence with its leading whitespace removed.
pub open spec fn trim_front(s: Seq<u8>) -> Seq<u8>
    decreases s.len(),
{
    if s.len() > 0 && is_space(s[0]) {
        trim_front(s.drop_first())
    } else {
        s
    }
}

/// The sequence with its trailing whitespace removed.
pub open spec fn trim_back(s: Seq<u8>) -> Seq<u8>
    decreases s.len(),
{
    if s.len() > 0 && is_space(s.last()) {
        trim_back(s.drop_last())
    } else {
        s
    }
}

/// The sequence with surrounding whitespace removed.
pub open spec fn trim(s: Seq<u8>) -> Seq<u8> {
    trim_back(trim_front(s))
}

/// Splits a name at its last slash: the first part holds everything up to
/// and including that slash (empty when there is none), the second what
/// follows it.
pub open spec fn split_at_last_slash(s: Seq<u8>) -> (Seq<u8>, Seq<u8>)
    decreases s.len(),
{
    if s.len() == 0 {
        (Seq::empty(), Seq::empty())
    } else if s.last() == slash() {
        (s, Seq::empty())
    } else {
        let r = split_at_last_slash(s.drop_last());
        (r.0, r.1.push(s.last()))
    }
}

/// The leading segments of a name, slash-terminated; empty when the name has
/// no slash.
pub open spec fn dirs_of(name: Seq<u8>) -> Seq<u8> {
    split_at_last_slash(name).0
}

/// The final segment of a name, before trimming.
pub open spec fn raw_base_of(name: Seq<u8>) -> Seq<u8> {
    split_at_last_slash(name).1
}

/// The base name used when a name's final segment trims away to nothing:
/// the bytes of `unknown`.
pub open spec fn fallback_base() -> Seq<u8> {
    seq![117u8, 110u8, 107u8, 110u8, 111u8, 119u8, 110u8]
}

/// The local base name: the trimmed final segment, or the fallback when
/// nothing is left of it.
pub open spec fn base_of(name: Seq<u8>) -> Seq<u8> {
    if trim(raw_base_of(name)).len() == 0 {
        fallback_base()
    } else {
        trim(raw_base_of(name))
    }
}

/// A name placed under a prefix, separated by a slash.
pub open spec fn joined(prefix: Seq<u8>, name: Seq<u8>) -> Seq<u8> {
    prefix + seq![slash()] + name
}

/// The directory that must exist before the mapped file can be written: the
/// root, a slash, and the name's leading segments.
pub open spec fn parent_dir_spec(name: Seq<u8>, root: Seq<u8>) -> Seq<u8> {
    root + seq![slash()] + dirs_of(name)
}

/// Where an object of the given name is materialized under the given local
/// root: the root, a slash, the name's leading segments, and its base name.
pub open spec fn map_path_spec(name: Seq<u8>, root: Seq<u8>) -> Seq<u8> {
    root + seq![slash()] + dirs_of(name) + base_of(name)
}

/// The two halves of the split joined back together give the name.
pub proof fn lemma_split_concat(s: Seq<u8>)
    ensures
        dirs_of(s) + raw_base_of(s) == s,
    decreases s.len(),
{
    if s.len() == 0 {
        assert(dirs_of(s) + raw_base_of(s) =~= s);
    } else if s.last() == slash() {
        assert(dirs_of(s) + raw_base_of(s) =~= s);
    } else {
        let t = s.drop_last();
        lemma_split_concat(t);
        assert(dirs_of(s) == dirs_of(t));
        assert(raw_base_of(s) == raw_base_of(t).push(s.last()));
        assert(dirs_of(t) + raw_base_of(t).push(s.last())
            =~= (dirs_of(t) + raw_base_of(t)).push(s.last()));
        assert(t.push(s.last()) =~= s);
    }
}

/// A cut position after the last slash (or zero when there is none)
/// determines the split: the part before it is the dirs, the part after the
/// raw base.
proof fn lemma_split_at_cut(s: Seq<u8>, cut: int)
    requires
        0 <= cut <= s.len(),
        forall|k: int| cut <= k < s.len() ==> s[k] != slash(),
        cut > 0 ==> s[cut - 1] == slash(),
    ensures
        dirs_of(s) == s.take(cut),
        raw_base_of(s) == s.skip(cut),
    decreases s.len(),
{
    if cut == s.len() {
        if s.len() == 0 {
            assert(dirs_of(s) =~= s.take(cut));
            assert(raw_base_of(s) =~= s.skip(cut));
        } else {
            assert(s.last() == slash());
            assert(dirs_of(s) =~= s.take(cut));
            assert(raw_base_of(s) =~= s.skip(cut));
        }
    } else {
        let t = s.drop_last();
        assert(s.last() != slash());
        lemma_split_at_cut(t, cut);
        assert(dirs_of(s) == dirs_of(t));
        assert(t.take(cut) =~= s.take(cut));
        assert(raw_base_of(s) == raw_base_of(t).push(s.last()));
        assert(t.skip(cut).push(s.last()) =~= s.skip(cut));
    }
}

/// Dropping a fully-whitespace front leaves the trimmed-front sequence.
proof fn lemma_trim_front_skip(s: Seq<u8>, a: int)
    requires
        0 <= a <= s.len(),
        forall|k: int| 0 <= k < a ==> is_space(s[k]),
        a < s.len() ==> !is_space(s[a]),
    ensures
        trim_front(s) == s.skip(a),
    decreases a,
{
    if a == 0 {
        assert(trim_front(s) =~= s.skip(0));
    } else {
        let t = s.drop_first();
        assert(is_space(s[0]));
        assert(forall|k: int| 0 <= k < a - 1 ==> t[k] == s[k + 1] && is_space(t[k]));
        lemma_trim_front_skip(t, a - 1);
        assert(t.skip(a - 1) =~= s.skip(a));
    }
}

/// Dropping a fully-whitespace back leaves the trimmed-back sequence.
proof fn lemma_trim_back_take(s: Seq<u8>, b: int)
    requires
        0 <= b <= s.len(),
        forall|k: int| b <= k < s.len() ==> is_space(s[k]),
        b > 0 ==> !is_space(s[b - 1]),
    ensures
        trim_back(s) == s.take(b),
    decreases s.len(),
{
    if b == s.len() {
        assert(trim_back(s) =~= s.take(b));
    } else {
        let t = s.drop_last();
        assert(is_space(s.last()));
        lemma_trim_back_take(t, b);
        assert(t.take(b) =~= s.take(b));
    }
}

/// Tests one byte for ASCII whitespace.
fn is_space_byte(b: u8) -> (r: bool)
    ensures
        r == is_space(b),
{
    b == 32 || (9 <= b && b <= 13)
}

/// Locates the base segment of a name: returns `(cut, lo, hi)` where `cut`
/// splits the dirs from the raw base and `name[lo..hi]` is the trimmed base.
fn locate_base(name: &Vec<u8>) -> (r: (usize, usize, usize))
    ensures
        ({
            let (cut, lo, hi) = r;
            &&& 0 <= cut <= lo <= hi <= name@.len()
            &&& dirs_of(name@) == name@.take(cut as int)
            &&& raw_base_of(name@) == name@.skip(cut as int)
            &&& trim(raw_base_of(name@)) == name@.subrange(lo as int, hi as int)
        }),
{
    let n = name.len();
    let mut cut: usize = n;
    while cut > 0 && name[cut - 1] != 47
        invariant
            0 <= cut <= n,
            n == name@.len(),
            forall|k: int| cut <= k < n ==> name@[k] != slash(),
        decreases cut,
    {
        cut = cut - 1;
    }
    proof {
        lemma_split_at_cut(name@, cut as int);
    }
    let ghost raw = raw_base_of(name@);

    let mut lo: usize = cut;
    while lo < n && is_space_byte(name[lo])
        invariant
            cut <= lo <= n,
            n == name@.len(),
            forall|k: int| cut <= k < lo ==> is_space(name@[k]),
        decreases n - lo,
    {
        lo = lo + 1;
    }
    proof {
        assert(raw == name@.skip(cut as int));
        assert(forall|k: int| 0 <= k < lo - cut ==> raw[k] == name@[k + cut] && is_space(raw[k]));
        assert(lo - cut < raw.len() ==> raw[lo - cut] == name@[lo as int]);
        lemma_trim_front_skip(raw, lo - cut);
        assert(trim_front(raw) == raw.skip(lo - cut));
        assert(raw.skip(lo - cut) =~= name@.skip(lo as int));
    }
    let ghost fronted = name@.skip(lo as int);

    let mut hi: usize = n;
    while hi > lo && is_space_byte(name[hi - 1])
        invariant
            lo <= hi <= n,
            n == name@.len(),
            forall|k: int| hi <= k < n ==> is_space(name@[k]),
        decreases hi,
    {
        hi = hi - 1;
    }
    proof {
        assert(forall|k: int|
            hi - lo <= k < fronted.len() ==> fronted[k] == name@[k + lo] && is_space(fronted[k]));
        assert(hi - lo > 0 ==> fronted[hi - lo - 1] == name@[hi - 1]);
        lemma_trim_back_take(fronted, hi - lo);
        assert(trim_back(fronted) == fronted.take(hi - lo));
        assert(fronted.take(hi - lo) =~= name@.subrange(lo as int, hi as int));
    }
    (cut, lo, hi)
}

/// Appends `src[from..to]` to `dst`.
fn push_range(dst: &mut Vec<u8>, src: &Vec<u8>, from: usize, to: usize)
    requires
        from <= to <= src@.len(),
    ensures
        final(dst)@ == old(dst)@ + src@.subrange(from as int, to as int),
{
    let mut k = from;
    while k < to
        invariant
            from <= k <= to <= src@.len(),
            dst@ == old(dst)@ + src@.subrange(from as int, k as int),
        decreases to - k,
    {
        dst.push(src[k]);
        proof {
            assert(old(dst)@ + src@.subrange(from as int, k + 1 as int)
                =~= (old(dst)@ + src@.subrange(from as int, k as int)).push(src@[k as int]));
        }
        k = k + 1;
    }
}

/// Appends the fallback base name (`unknown`) to `dst`.
fn push_fallback(dst: &mut Vec<u8>)
    ensures
        final(dst)@ == old(dst)@ + fallback_base(),
{
    dst.push(117);
    dst.push(110);
    dst.push(107);
    dst.push(110);
    dst.push(111);
    dst.push(119);
    dst.push(110);
    proof {
        assert(dst@ =~= old(dst)@ + fallback_base());
    }
}

/// Places a name under a prefix, separated by a slash: how an explicitly
/// named object is qualified by the query prefix, and how the cleaner forms
/// the path of a directory entry.
pub fn join_path(prefix: &Vec<u8>, name: &Vec<u8>) -> (r: Vec<u8>)
    ensures
        r@ == joined(prefix@, name@),
{
    let mut r: Vec<u8> = Vec::new();
    push_range(&mut r, prefix, 0, prefix.len());
    r.push(47);
    push_range(&mut r, name, 0, name.len());
    proof {
        assert(prefix@.subrange(0, prefix@.len() as int) =~= prefix@);
        assert(name@.subrange(0, name@.len() as int) =~= name@);
        assert(r@ =~= joined(prefix@, name@));
    }
    r
}

/// Maps a remote object name to the directory its local file goes into: the
/// root, a slash, and the name's leading segments.
pub fn map_parent_dir(name: &Vec<u8>, root: &Vec<u8>) -> (r: Vec<u8>)
    ensures
        r@ == parent_dir_spec(name@, root@),
{
    let (cut, _, _) = locate_base(name);
    let mut r: Vec<u8> = Vec::new();
    push_range(&mut r, root, 0, root.len());
    r.push(47);
    push_range(&mut r, name, 0, cut);
    proof {
        assert(root@.subrange(0, root@.len() as int) =~= root@);
        assert(name@.subrange(0, cut as int) =~= name@.take(cut as int));
        assert(r@ =~= parent_dir_spec(name@, root@));
    }
    r
}

/// Maps a remote object name to its local path under the given root: the
/// root, a slash, the name's leading segments, and the trimmed base name
/// (or the fallback when the base trims away to nothing).
pub fn map_path(name: &Vec<u8>, root: &Vec<u8>) -> (r: Vec<u8>)
    ensures
        r@ == map_path_spec(name@, root@),
{
    let (cut, lo, hi) = locate_base(name);
    let mut r: Vec<u8> = Vec::new();
    push_range(&mut r, root, 0, root.len());
    r.push(47);
    push_range(&mut r, name, 0, cut);
    if lo == hi {
        push_fallback(&mut r);
    } else {
        push_range(&mut r, name, lo, hi);
    }
    proof {
        assert(root@.subrange(0, root@.len() as int) =~= root@);
        assert(name@.subrange(0, cut as int) =~= name@.take(cut as int));
        if lo == hi {
            assert(trim(raw_base_of(name@)).len() == 0);
            assert(r@ =~= map_path_spec(name@, root@));
        } else {
            assert(base_of(name@) == name@.subrange(lo as int, hi as int));
            assert(r@ =~= map_path_spec(name@, root@));
        }
    }
    r
}

/// The degenerate mapping used when no caching root is configured: the base
/// name alone, materialized in the working directory.
pub fn base_name(name: &Vec<u8>) -> (r: Vec<u8>)
    ensures
        r@ == base_of(name@),
{
    let (_, lo, hi) = locate_base(name);
    let mut r: Vec<u8> = Vec::new();
    if lo == hi {
        push_fallback(&mut r);
    } else {
        push_range(&mut r, name, lo, hi);
    }
    proof {
        assert(Seq::<u8>::empty() + base_of(name@) =~= base_of(name@));
    }
    r
}

/// A name whose mapping keeps every byte: non-empty, not slash-terminated,
/// and free of whitespace.
pub open spec fn clean_name(name: Seq<u8>) -> bool {
    &&& name.len() > 0
    &&& name.last() != slash()
    &&& forall|i: int| 0 <= i < name.len() ==> !is_space(name[i])
}

/// Law: mapping a clean name is just prefixing it with the root and a slash
/// — the sub-path structure of the remote name is preserved in full.
pub proof fn lemma_map_path_clean(name: Seq<u8>, root: Seq<u8>)
    requires
        clean_name(name),
    ensures
        map_path_spec(name, root) == root + seq![slash()] + name,
{
    lemma_split_concat(name);
    let dirs = dirs_of(name);
    let raw = raw_base_of(name);
    assert(raw.len() > 0);
    assert(forall|k: int| 0 <= k < raw.len() ==> raw[k] == name[k + dirs.len()]);
    assert(forall|k: int| 0 <= k < raw.len() ==> !is_space(raw[k]));
    lemma_trim_front_skip(raw, 0);
    assert(trim_front(raw) =~= raw);
    lemma_trim_back_take(raw, raw.len() as int);
    assert(trim_back(raw) =~= raw);
    assert(base_of(name) == raw);
    assert(root + seq![slash()] + dirs + raw =~= root + seq![slash()] + name);
}

/// Law: path mapping is injective over distinct clean names sharing a root —
/// two different objects never collide on one local path.
pub proof fn lemma_map_path_injective(n1: Seq<u8>, n2: Seq<u8>, root: Seq<u8>)
    requires
        clean_name(n1),
        clean_name(n2),
        n1 != n2,
    ensures
        map_path_spec(n1, root) != map_path_spec(n2, root),
{
    lemma_map_path_clean(n1, root);
    lemma_map_path_clean(n2, root);
    if map_path_spec(n1, root) == map_path_spec(n2, root) {
        let p = root + seq![slash()];
        assert((p + n1).len() == (p + n2).len());
        assert(n1.len() == n2.len());
        assert forall|i: int| 0 <= i < n1.len() implies n1[i] == n2[i] by {
            assert((p + n1)[p.len() + i] == n1[i]);
            assert((p + n2)[p.len() + i] == n2[i]);
        }
        assert(n1 =~= n2);
    }
}

} // verus!
