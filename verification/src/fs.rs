//! Model of the remote filesystem that the engine mutates.
//!
//! The remote host is reachable only through a file-transfer handle, so the
//! engine's operations are specified and verified against this explicit
//! model: a flat association from absolute paths to entries (file bytes or a
//! directory marker).  The transport shell replays each verified operation
//! as the corresponding remote call.
//!
//! Directory structure is encoded in the paths themselves: the entry
//! `"/a/b"` lies in the subtree of `"/a"`.  A rename moves an entry together
//! with its whole subtree, as the remote rename does.

use vstd::prelude::*;
use crate::CmsError;
use crate::strutil::str_eq;

verus! {

/// One remote entry: a regular file with its bytes, or a directory.
pub enum FsEntry {
    File(Vec<u8>),
    Dir,
}

/// The mathematical value of an entry.
pub enum FsEntryV {
    File(Seq<u8>),
    Dir,
}

impl View for FsEntry {
    type V = FsEntryV;

    open spec fn view(&self) -> FsEntryV {
        match self {
            FsEntry::File(data) => FsEntryV::File(data@),
            FsEntry::Dir => FsEntryV::Dir,
        }
    }
}

/// True when `k` equals `root` or lies strictly below it, with `'/'` as the
/// component separator.
pub open spec fn in_subtree(k: Seq<char>, root: Seq<char>) -> bool {
    ||| k == root
    ||| (k.len() > root.len() && k.take(root.len() as int) == root && k[root.len() as int] == '/')
}

/// `k`, relocated from the subtree of `src` to the subtree of `dst`;
/// unchanged when it lies outside the subtree of `src`.
pub open spec fn rekey(k: Seq<char>, src: Seq<char>, dst: Seq<char>) -> Seq<char> {
    if in_subtree(k, src) {
        dst + k.skip(src.len() as int)
    } else {
        k
    }
}

/// The filesystem after renaming `src` (and its subtree) to `dst`.
pub open spec fn rename_map(
    m: Map<Seq<char>, FsEntryV>,
    src: Seq<char>,
    dst: Seq<char>,
) -> Map<Seq<char>, FsEntryV> {
    Map::new(
        |k: Seq<char>|
            if in_subtree(k, dst) {
                m.dom().contains(src + k.skip(dst.len() as int))
            } else {
                !in_subtree(k, src) && m.dom().contains(k)
            },
        |k: Seq<char>|
            if in_subtree(k, dst) {
                m[src + k.skip(dst.len() as int)]
            } else {
                m[k]
            },
    )
}

/// The filesystem after removing `p` and its whole subtree.
pub open spec fn remove_subtree_map(
    m: Map<Seq<char>, FsEntryV>,
    p: Seq<char>,
) -> Map<Seq<char>, FsEntryV> {
    Map::new(|k: Seq<char>| m.dom().contains(k) && !in_subtree(k, p), |k: Seq<char>| m[k])
}

/// True when `k` is an ancestor of `p` or `p` itself: exactly the entries a
/// recursive directory creation for `p` establishes.
pub open spec fn is_ancestor_or_self(p: Seq<char>, k: Seq<char>) -> bool {
    k.len() > 0 && in_subtree(p, k)
}

/// The filesystem after a recursive directory creation for `p`: every
/// missing ancestor (and `p` itself) appears as a directory, everything
/// else is untouched.
pub open spec fn add_dirs_map(m: Map<Seq<char>, FsEntryV>, p: Seq<char>) -> Map<
    Seq<char>,
    FsEntryV,
> {
    Map::new(
        |k: Seq<char>| m.dom().contains(k) || is_ancestor_or_self(p, k),
        |k: Seq<char>| if m.dom().contains(k) { m[k] } else { FsEntryV::Dir },
    )
}

/// True when some existing entry in the ancestor chain of `p` is a regular
/// file, which makes a recursive directory creation for `p` fail.
pub open spec fn blocked_by_file(m: Map<Seq<char>, FsEntryV>, p: Seq<char>) -> bool {
    exists|k: Seq<char>| is_ancestor_or_self(p, k) && m.dom().contains(k) && m[k] is File
}

/// The association list view of the model.
pub open spec fn map_of(es: Seq<(String, FsEntry)>) -> Map<Seq<char>, FsEntryV>
    decreases es.len(),
{
    if es.len() == 0 {
        Map::empty()
    } else {
        map_of(es.drop_last()).insert(es.last().0@, es.last().1@)
    }
}

/// Pairwise distinct keys.
pub open spec fn unique_keys(es: Seq<(String, FsEntry)>) -> bool {
    forall|i: int, j: int| 0 <= i < j < es.len() ==> es[i].0@ != es[j].0@
}

proof fn lemma_map_of_contains(es: Seq<(String, FsEntry)>, k: Seq<char>)
    ensures
        map_of(es).dom().contains(k) <==> exists|i: int| 0 <= i < es.len() && es[i].0@ == k,
    decreases es.len(),
{
    if es.len() > 0 {
        lemma_map_of_contains(es.drop_last(), k);
        if es.last().0@ == k {
            assert(es[es.len() - 1].0@ == k);
        } else if map_of(es).dom().contains(k) {
            let i = choose|i: int| 0 <= i < es.drop_last().len() && es.drop_last()[i].0@ == k;
            assert(es[i].0@ == k);
        } else {
            assert(forall|i: int|
                0 <= i < es.drop_last().len() ==> es.drop_last()[i].0@ == es[i].0@);
        }
    }
}

proof fn lemma_map_of_index(es: Seq<(String, FsEntry)>, i: int)
    requires
        unique_keys(es),
        0 <= i < es.len(),
    ensures
        map_of(es).dom().contains(es[i].0@),
        map_of(es)[es[i].0@] == es[i].1@,
    decreases es.len(),
{
    if i == es.len() - 1 {
        lemma_map_of_contains(es, es[i].0@);
    } else {
        lemma_map_of_index(es.drop_last(), i);
        assert(es.drop_last()[i] == es[i]);
        assert(es.last().0@ != es[i].0@);
    }
}

/// The engine's model of the remote filesystem.
pub struct MemFs {
    entries: Vec<(String, FsEntry)>,
}

impl View for MemFs {
    type V = Map<Seq<char>, FsEntryV>;

    closed spec fn view(&self) -> Map<Seq<char>, FsEntryV> {
        map_of(self.entries@)
    }
}

impl MemFs {
    /// The keys of the model are pairwise distinct.
    pub closed spec fn wf(&self) -> bool {
        unique_keys(self.entries@)
    }

    /// An empty remote filesystem.
    pub fn new() -> (r: MemFs)
        ensures
            r.wf(),
            r@ == Map::<Seq<char>, FsEntryV>::empty(),
    {
        MemFs { entries: Vec::new() }
    }

    /// The position of the entry for `p`, if present.
    fn find_idx(&self, p: &str) -> (r: Option<usize>)
        requires
            self.wf(),
        ensures
            match r {
                Some(i) => i < self.entries@.len() && self.entries@[i as int].0@ == p@,
                None => !self@.dom().contains(p@),
            },
    {
        let n = self.entries.len();
        let mut i: usize = 0;
        while i < n
            invariant
                0 <= i <= n,
                n == self.entries@.len(),
                forall|j: int| 0 <= j < i ==> self.entries@[j].0@ != p@,
            decreases n - i,
        {
            if str_eq(self.entries[i].0.as_str(), p) {
                return Some(i);
            }
            i += 1;
        }
        proof {
            lemma_map_of_contains(self.entries@, p@);
        }
        None
    }

    /// Whether any entry (file or directory) exists at `p`.
    pub fn exists_path(&self, p: &str) -> (r: bool)
        requires
            self.wf(),
        ensures
            r == self@.dom().contains(p@),
    {
        match self.find_idx(p) {
            Some(i) => {
                proof {
                    lemma_map_of_index(self.entries@, i as int);
                }
                true
            },
            None => false,
        }
    }

    /// Whether a directory entry exists at `p`.
    pub fn is_dir(&self, p: &str) -> (r: bool)
        requires
            self.wf(),
        ensures
            r == (self@.dom().contains(p@) && self@[p@] is Dir),
    {
        match self.find_idx(p) {
            Some(i) => {
                proof {
                    lemma_map_of_index(self.entries@, i as int);
                }
                match &self.entries[i].1 {
                    FsEntry::Dir => true,
                    FsEntry::File(_) => false,
                }
            },
            None => false,
        }
    }

    /// Read the bytes of the file at `p`.  Fails with `NotFound` when no
    /// entry exists there and with `RemoteIo` when the entry is a
    /// directory.
    pub fn get_file(&self, p: &str) -> (r: Result<Vec<u8>, CmsError>)
        requires
            self.wf(),
        ensures
            match r {
                Ok(v) => self@.dom().contains(p@) && self@[p@] == FsEntryV::File(v@),
                Err(e) => {
                    &&& !self@.dom().contains(p@) ==> e == CmsError::NotFound
                    &&& self@.dom().contains(p@) ==> self@[p@] is Dir && e == CmsError::RemoteIo
                },
            },
            r is Ok <==> self@.dom().contains(p@) && self@[p@] is File,
    {
        match self.find_idx(p) {
            Some(i) => {
                proof {
                    lemma_map_of_index(self.entries@, i as int);
                }
                match &self.entries[i].1 {
                    FsEntry::File(data) => Ok(data.clone()),
                    FsEntry::Dir => Err(CmsError::RemoteIo),
                }
            },
            None => Err(CmsError::NotFound),
        }
    }

    /// Create-or-truncate write of `data` at `p`.  Fails with `RemoteIo`
    /// when a directory entry occupies `p`.
    pub fn save_file(&mut self, p: &str, data: Vec<u8>) -> (r: Result<(), CmsError>)
        requires
            old(self).wf(),
        ensures
            final(self).wf(),
            match r {
                Ok(()) => final(self)@ == old(self)@.insert(p@, FsEntryV::File(data@)),
                Err(e) => {
                    &&& final(self)@ == old(self)@
                    &&& e == CmsError::RemoteIo
                    &&& old(self)@.dom().contains(p@) && old(self)@[p@] is Dir
                },
            },
            r is Ok <==> !(old(self)@.dom().contains(p@) && old(self)@[p@] is Dir),
    {
        match self.find_idx(p) {
            Some(i) => {
                proof {
                    lemma_map_of_index(self.entries@, i as int);
                }
                match &self.entries[i].1 {
                    FsEntry::Dir => Err(CmsError::RemoteIo),
                    FsEntry::File(_) => {
                        let key = String::from_str(p);
                        self.entries.set(i, (key, FsEntry::File(data)));
                        proof {
                            lemma_map_of_update(old(self).entries@, i as int, self.entries@[i as int]);
                        }
                        Ok(())
                    },
                }
            },
            None => {
                let key = String::from_str(p);
                self.entries.push((key, FsEntry::File(data)));
                proof {
                    assert(self.entries@.drop_last() =~= old(self).entries@);
                    lemma_map_of_contains(old(self).entries@, p@);
                }
                Ok(())
            },
        }
    }
}

/// Executable test for [`in_subtree`].
pub fn path_in_subtree(k: &str, root: &str) -> (r: bool)
    ensures
        r == in_subtree(k@, root@),
{
    let kn = k.unicode_len();
    let rn = root.unicode_len();
    if str_eq(k, root) {
        return true;
    }
    if kn > rn && k.get_char(rn) == '/' {
        let pre = k.substring_char(0, rn);
        if str_eq(pre, root) {
            assert(k@.take(rn as int) == root@);
            return true;
        }
        assert(k@.take(rn as int) != root@);
        false
    } else {
        false
    }
}

impl MemFs {
    /// Whether any entry lies at `p` or below it.
    pub fn subtree_occupied(&self, p: &str) -> (r: bool)
        requires
            self.wf(),
        ensures
            r == exists|k: Seq<char>| #[trigger] self@.dom().contains(k) && in_subtree(k, p@),
    {
        let n = self.entries.len();
        let mut i: usize = 0;
        while i < n
            invariant
                0 <= i <= n,
                self.wf(),
                n == self.entries@.len(),
                forall|j: int| 0 <= j < i ==> !in_subtree((#[trigger] self.entries@[j]).0@, p@),
            decreases n - i,
        {
            if path_in_subtree(self.entries[i].0.as_str(), p) {
                proof {
                    lemma_map_of_index(self.entries@, i as int);
                    assert(self@.dom().contains(self.entries@[i as int].0@) && in_subtree(
                        self.entries@[i as int].0@,
                        p@,
                    ));
                }
                return true;
            }
            i += 1;
        }
        proof {
            if exists|k: Seq<char>| #[trigger] self@.dom().contains(k) && in_subtree(k, p@) {
                let k = choose|k: Seq<char>| #[trigger] self@.dom().contains(k) && in_subtree(
                    k,
                    p@,
                );
                lemma_map_of_contains(self.entries@, k);
            }
        }
        false
    }

    /// Atomic remote rename: relocate the entry at `src` together with its
    /// whole subtree to `dst`.  Fails with `NotFound` when `src` has no
    /// entry, with `AlreadyExists` when anything occupies `dst` or its
    /// subtree, and with `RemoteIo` when `dst` lies inside the subtree of
    /// `src`.
    pub fn rename(&mut self, src: &str, dst: &str) -> (r: Result<(), CmsError>)
        requires
            old(self).wf(),
        ensures
            final(self).wf(),
            match r {
                Ok(()) => final(self)@ == rename_map(old(self)@, src@, dst@),
                Err(e) => final(self)@ == old(self)@ && e != CmsError::RollbackFailure,
            },
            r == rename_result(old(self)@, src@, dst@),
    {
        if !self.exists_path(src) {
            return Err(CmsError::NotFound);
        }
        if self.subtree_occupied(dst) {
            return Err(CmsError::AlreadyExists);
        }
        if path_in_subtree(dst, src) {
            return Err(CmsError::RemoteIo);
        }
        let ghost orig = self.entries@;
        proof {
            assert forall|j: int| 0 <= j < orig.len() implies !in_subtree(
                (#[trigger] orig[j]).0@,
                dst@,
            ) by {
                lemma_map_of_index(orig, j);
            }
        }
        let mut rest = self.entries.split_off(0);
        let src_len = src.unicode_len();
        while rest.len() > 0
            invariant
                self.wf(),
                src_len == src@.len(),
                unique_keys(orig),
                self.entries@.len() + rest@.len() == orig.len(),
                forall|j: int|
                    0 <= j < rest@.len() ==> rest@[j]
                        == orig[self.entries@.len() + j],
                forall|j: int|
                    0 <= j < self.entries@.len() ==> (#[trigger] self.entries@[j]).0@ == rekey(
                        orig[j].0@,
                        src@,
                        dst@,
                    ) && self.entries@[j].1@ == orig[j].1@,
                forall|j: int| 0 <= j < orig.len() ==> !in_subtree((#[trigger] orig[j]).0@, dst@),
                !in_subtree(dst@, src@),
            decreases rest@.len(),
        {
            let (key, val) = rest.remove(0);
            let ghost gi: int = self.entries@.len() as int;
            let new_key = if path_in_subtree(key.as_str(), src) {
                proof {
                    lemma_rekey_forward(key@, src@, dst@);
                }
                let tail = key.as_str().substring_char(src_len, key.as_str().unicode_len());
                crate::strutil::concat2(dst, tail)
            } else {
                key
            };
            self.entries.push((new_key, val));
            proof {
                assert forall|j: int| 0 <= j < self.entries@.len() implies (
                    #[trigger] self.entries@[j]).0@ == rekey(orig[j].0@, src@, dst@)
                    && self.entries@[j].1@ == orig[j].1@ by {
                    if j < gi {
                        assert(self.entries@[j] == old_entries_frame(self.entries@, j));
                    }
                }
                assert forall|i: int, j: int|
                    0 <= i < j < self.entries@.len() implies (#[trigger] self.entries@[i]).0@ != (
                #[trigger] self.entries@[j]).0@ by {
                    lemma_rekey_injective(orig[i].0@, orig[j].0@, src@, dst@);
                }
            }
        }
        proof {
            lemma_rename_entries(orig, self.entries@, src@, dst@);
        }
        Ok(())
    }

    /// Recursive remove: delete the entry at `p` together with its whole
    /// subtree.  Fails with `NotFound` when no entry ever existed at `p`.
    pub fn rmrf_file(&mut self, p: &str) -> (r: Result<(), CmsError>)
        requires
            old(self).wf(),
        ensures
            final(self).wf(),
            match r {
                Ok(()) => final(self)@ == remove_subtree_map(old(self)@, p@),
                Err(e) => final(self)@ == old(self)@ && e == CmsError::NotFound,
            },
            r is Ok <==> old(self)@.dom().contains(p@),
    {
        if !self.exists_path(p) {
            return Err(CmsError::NotFound);
        }
        let ghost orig = self.entries@;
        let mut rest = self.entries.split_off(0);
        while rest.len() > 0
            invariant
                self.wf(),
                unique_keys(orig),
                self.entries@.len() <= orig.len() - rest@.len(),
                forall|j: int|
                    0 <= j < rest@.len() ==> rest@[j]
                        == orig[orig.len() - rest@.len() + j],
                forall|l: int|
                    0 <= l < self.entries@.len() ==> exists|j: int|
                        0 <= j < orig.len() - rest@.len() && (#[trigger] self.entries@[l]).0@
                            == orig[j].0@ && self.entries@[l].1@ == orig[j].1@,
                forall|j: int|
                    0 <= j < self.entries@.len() ==> !in_subtree(
                        (#[trigger] self.entries@[j]).0@,
                        p@,
                    ),
                forall|j: int|
                    0 <= j < orig.len() - rest@.len() && !in_subtree((#[trigger] orig[j]).0@, p@)
                        ==> exists|l: int|
                        0 <= l < self.entries@.len() && (#[trigger] self.entries@[l]).0@
                            == orig[j].0@,
            decreases rest@.len(),
        {
            let ghost gi: int = orig.len() - rest@.len();
            let (key, val) = rest.remove(0);
            assert((key, val) == orig[gi]);
            if !path_in_subtree(key.as_str(), p) {
                let ghost pre = self.entries@;
                self.entries.push((key, val));
                proof {
                    assert forall|l: int| 0 <= l < pre.len() implies self.entries@[l] == pre[l]
                        by {}
                    assert(self.entries@[pre.len() as int] == orig[gi]);
                    assert forall|i1: int, i2: int|
                        0 <= i1 < i2 < self.entries@.len() implies (
                    #[trigger] self.entries@[i1]).0@ != (#[trigger] self.entries@[i2]).0@ by {
                        if i2 == pre.len() {
                            let j = choose|j: int|
                                0 <= j < gi && (#[trigger] pre[i1]).0@ == orig[j].0@
                                    && pre[i1].1@ == orig[j].1@;
                            assert(orig[j].0@ != orig[gi].0@);
                        }
                    }
                    assert forall|j: int|
                        0 <= j <= gi && !in_subtree((#[trigger] orig[j]).0@, p@) implies exists|
                        l: int,
                    |
                        0 <= l < self.entries@.len() && (#[trigger] self.entries@[l]).0@
                            == orig[j].0@ by {
                        if j == gi {
                            assert(self.entries@[pre.len() as int].0@ == orig[gi].0@);
                        } else {
                            let l = choose|l: int|
                                0 <= l < pre.len() && (#[trigger] pre[l]).0@ == orig[j].0@;
                            assert(self.entries@[l].0@ == orig[j].0@);
                        }
                    }
                }
            }
        }
        proof {
            assert forall|l: int|
                0 <= l < self.entries@.len() implies map_of(orig).dom().contains(
                (#[trigger] self.entries@[l]).0@,
            ) && map_of(orig)[self.entries@[l].0@] == self.entries@[l].1@ by {
                let j = choose|j: int|
                    0 <= j < orig.len() && (#[trigger] self.entries@[l]).0@ == orig[j].0@
                        && self.entries@[l].1@ == orig[j].1@;
                lemma_map_of_index(orig, j);
            }
            lemma_filter_entries(orig, self.entries@, p@);
        }
        Ok(())
    }
}

/// The component boundaries of `p`: every position cutting `p` just before
/// a `'/'`, and the full length.
pub open spec fn is_boundary(p: Seq<char>, c: int) -> bool {
    0 < c <= p.len() && (c == p.len() || p[c] == '/')
}

/// An ancestor-or-self of `p` is exactly a prefix of `p` cut at a component
/// boundary.
proof fn lemma_ancestor_iff_cut(p: Seq<char>, k: Seq<char>)
    ensures
        is_ancestor_or_self(p, k) <==> exists|c: int| is_boundary(p, c) && k == p.take(c),
{
    if is_ancestor_or_self(p, k) {
        if k == p {
            assert(p.take(p.len() as int) =~= p);
            assert(is_boundary(p, p.len() as int) && k == p.take(p.len() as int));
        } else {
            assert(is_boundary(p, k.len() as int) && k == p.take(k.len() as int));
        }
    }
    if exists|c: int| is_boundary(p, c) && k == p.take(c) {
        let c = choose|c: int| is_boundary(p, c) && k == p.take(c);
        if c == p.len() {
            assert(p.take(c) =~= p);
        } else {
            assert(k.len() == c);
            assert(p.take(k.len() as int) == k);
            assert(p[k.len() as int] == '/');
        }
    }
}

/// Collect the component boundaries of `p`, in increasing order.
fn boundaries(p: &str) -> (r: Vec<usize>)
    ensures
        forall|i: int| 0 <= i < r@.len() ==> is_boundary(p@, (#[trigger] r@[i]) as int),
        forall|c: int| is_boundary(p@, c) ==> exists|i: int|
            0 <= i < r@.len() && (#[trigger] r@[i]) as int == c,
{
    let n = p.unicode_len();
    let mut r: Vec<usize> = Vec::new();
    let mut j: usize = 1;
    while j < n
        invariant
            1 <= j,
            n == p@.len(),
            forall|i: int| 0 <= i < r@.len() ==> is_boundary(p@, (#[trigger] r@[i]) as int),
            forall|c: int|
                0 < c < j && c < n && p@[c] == '/' ==> exists|i: int|
                    0 <= i < r@.len() && (#[trigger] r@[i]) as int == c,
        decreases n - j,
    {
        if p.get_char(j) == '/' {
            let ghost pre = r@;
            r.push(j);
            proof {
                assert(r@[pre.len() as int] as int == j as int);
                assert forall|c: int|
                    0 < c < j + 1 && c < n && p@[c] == '/' implies exists|i: int|
                    0 <= i < r@.len() && (#[trigger] r@[i]) as int == c by {
                    if c < j {
                        let i = choose|i: int| 0 <= i < pre.len() && (#[trigger] pre[i]) as int == c;
                        assert(r@[i] as int == c);
                    } else {
                        assert(r@[pre.len() as int] as int == c);
                    }
                }
            }
        }
        j += 1;
    }
    if n > 0 {
        let ghost pre = r@;
        r.push(n);
        proof {
            assert(r@[pre.len() as int] as int == n as int);
            assert forall|c: int| is_boundary(p@, c) implies exists|i: int|
                0 <= i < r@.len() && (#[trigger] r@[i]) as int == c by {
                if c == n {
                    assert(r@[pre.len() as int] as int == c);
                } else {
                    let i = choose|i: int| 0 <= i < pre.len() && (#[trigger] pre[i]) as int == c;
                    assert(r@[i] as int == c);
                }
            }
        }
    }
    r
}

impl MemFs {
    /// Recursive directory creation: establish a directory at every missing
    /// ancestor of `p` and at `p` itself.  Existing directories are left
    /// alone; an existing regular file anywhere on the chain fails the
    /// whole operation with `RemoteIo`, changing nothing.
    pub fn mkdir_recursive(&mut self, p: &str) -> (r: Result<(), CmsError>)
        requires
            old(self).wf(),
        ensures
            final(self).wf(),
            match r {
                Ok(()) => final(self)@ == add_dirs_map(old(self)@, p@),
                Err(e) => final(self)@ == old(self)@ && e == CmsError::RemoteIo,
            },
            r is Ok <==> !blocked_by_file(old(self)@, p@),
    {
        let cuts = boundaries(p);
        let m = cuts.len();
        let mut idx: usize = 0;
        while idx < m
            invariant
                self.wf(),
                self == old(self),
                m == cuts@.len(),
                forall|i: int| 0 <= i < m ==> is_boundary(p@, (#[trigger] cuts@[i]) as int),
                forall|i: int|
                    0 <= i < idx ==> !(self@.dom().contains(
                        p@.take((#[trigger] cuts@[i]) as int),
                    ) && self@[p@.take(cuts@[i] as int)] is File),
            decreases m - idx,
        {
            let c = cuts[idx];
            let prefix = crate::strutil::substring(p, 0, c);
            match self.find_idx(prefix.as_str()) {
                Some(i) => {
                    proof {
                        lemma_map_of_index(self.entries@, i as int);
                    }
                    match &self.entries[i].1 {
                        FsEntry::File(_) => {
                            proof {
                                assert(is_ancestor_or_self(p@, p@.take(c as int))) by {
                                    lemma_ancestor_iff_cut(p@, p@.take(c as int));
                                }
                            }
                            return Err(CmsError::RemoteIo);
                        },
                        FsEntry::Dir => {},
                    }
                },
                None => {},
            }
            idx += 1;
        }
        proof {
            assert(!blocked_by_file(self@, p@)) by {
                if blocked_by_file(self@, p@) {
                    let k = choose|k: Seq<char>|
                        is_ancestor_or_self(p@, k) && self@.dom().contains(k) && self@[k] is File;
                    lemma_ancestor_iff_cut(p@, k);
                    let c = choose|c: int| is_boundary(p@, c) && k == p@.take(c);
                    let i = choose|i: int|
                        0 <= i < cuts@.len() && (#[trigger] cuts@[i]) as int == c;
                }
            }
        }
        let ghost m0 = self@;
        let mut idx2: usize = 0;
        while idx2 < m
            invariant
                0 <= idx2 <= m,
                self.wf(),
                m == cuts@.len(),
                forall|i: int| 0 <= i < m ==> is_boundary(p@, (#[trigger] cuts@[i]) as int),
                forall|k: Seq<char>|
                    #[trigger] self@.dom().contains(k) <==> m0.dom().contains(k) || exists|i: int|
                        0 <= i < idx2 && k == p@.take((#[trigger] cuts@[i]) as int),
                forall|k: Seq<char>|
                    m0.dom().contains(k) ==> self@.dom().contains(k) && #[trigger] self@[k]
                        == m0[k],
                forall|k: Seq<char>|
                    #[trigger] self@.dom().contains(k) && !m0.dom().contains(k) ==> self@[k]
                        is Dir,
            decreases m - idx2,
        {
            let c = cuts[idx2];
            let prefix = crate::strutil::substring(p, 0, c);
            match self.find_idx(prefix.as_str()) {
                Some(i) => {
                    proof {
                        lemma_map_of_index(self.entries@, i as int);
                    }
                },
                None => {
                    let ghost pre = self.entries@;
                    self.entries.push((prefix, FsEntry::Dir));
                    proof {
                        assert(self.entries@.drop_last() =~= pre);
                        lemma_map_of_contains(pre, p@.take(c as int));
                        assert(self@ == map_of(pre).insert(p@.take(c as int), FsEntryV::Dir));
                    }
                },
            }
            proof {
                assert forall|k: Seq<char>| #[trigger] self@.dom().contains(k) <==> m0.dom()
                    .contains(k) || exists|i: int|
                    0 <= i <= idx2 && k == p@.take((#[trigger] cuts@[i]) as int) by {
                    if self@.dom().contains(k) {
                        if !m0.dom().contains(k) && k != p@.take(cuts@[idx2 as int] as int) {
                            let i = choose|i: int|
                                0 <= i < idx2 && k == p@.take((#[trigger] cuts@[i]) as int);
                            assert(0 <= i <= idx2 && k == p@.take(cuts@[i] as int));
                        }
                    } else {
                        assert(!(m0.dom().contains(k)));
                        if exists|i: int| 0 <= i <= idx2 && k == p@.take((#[trigger] cuts@[i]) as int) {
                            let i = choose|i: int|
                                0 <= i <= idx2 && k == p@.take((#[trigger] cuts@[i]) as int);
                            assert(self@.dom().contains(p@.take(cuts@[idx2 as int] as int)));
                            assert(i < idx2 ==> self@.dom().contains(k));
                            assert(false);
                        }
                    }
                }
            }
            idx2 += 1;
        }
        proof {
            assert forall|k: Seq<char>| #[trigger] add_dirs_map(m0, p@).dom().contains(k) implies
                self@.dom().contains(k) && self@[k] == add_dirs_map(m0, p@)[k] by {
                if !m0.dom().contains(k) {
                    lemma_ancestor_iff_cut(p@, k);
                    let c = choose|c: int| is_boundary(p@, c) && k == p@.take(c);
                    let i = choose|i: int|
                        0 <= i < cuts@.len() && (#[trigger] cuts@[i]) as int == c;
                }
            }
            assert forall|k: Seq<char>| #[trigger] self@.dom().contains(k) implies add_dirs_map(
                m0,
                p@,
            ).dom().contains(k) by {
                if !m0.dom().contains(k) {
                    let i = choose|i: int|
                        0 <= i < m && k == p@.take((#[trigger] cuts@[i]) as int);
                    lemma_ancestor_iff_cut(p@, k);
                    assert(is_boundary(p@, cuts@[i] as int) && k == p@.take(cuts@[i] as int));
                }
            }
            assert(self@ =~= add_dirs_map(m0, p@));
        }
        Ok(())
    }
}

/// The position just after the last `'/'` would cut the parent; with no
/// `'/'` at all the parent is the empty root.
pub open spec fn last_slash_idx(p: Seq<char>) -> int
    decreases p.len(),
{
    if p.len() == 0 {
        0
    } else if p.last() == '/' {
        p.len() - 1
    } else {
        last_slash_idx(p.drop_last())
    }
}

/// The parent path of `p`: everything before the last `'/'`; the empty
/// root when `p` has no separator.
pub open spec fn parent_of(p: Seq<char>) -> Seq<char> {
    p.take(last_slash_idx(p))
}

/// The last separator determines [`last_slash_idx`].
pub proof fn lemma_last_slash_pub(p: Seq<char>, j: int)
    requires
        0 <= j < p.len(),
        p[j] == '/',
        forall|l: int| j < l < p.len() ==> p[l] != '/',
    ensures
        last_slash_idx(p) == j,
{
    lemma_last_slash(p, j);
}

proof fn lemma_last_slash(p: Seq<char>, j: int)
    requires
        0 <= j < p.len(),
        p[j] == '/',
        forall|l: int| j < l < p.len() ==> p[l] != '/',
    ensures
        last_slash_idx(p) == j,
    decreases p.len(),
{
    if j == p.len() - 1 {
    } else {
        assert(p.last() != '/');
        lemma_last_slash(p.drop_last(), j);
    }
}

proof fn lemma_no_slash(p: Seq<char>)
    requires
        forall|l: int| 0 <= l < p.len() ==> p[l] != '/',
    ensures
        last_slash_idx(p) == 0,
    decreases p.len(),
{
    if p.len() > 0 {
        lemma_no_slash(p.drop_last());
    }
}

/// Creating directories for the empty root changes nothing.
proof fn lemma_add_dirs_empty(m: Map<Seq<char>, FsEntryV>)
    ensures
        add_dirs_map(m, Seq::<char>::empty()) == m,
        !blocked_by_file(m, Seq::<char>::empty()),
{
    assert(add_dirs_map(m, Seq::<char>::empty()) =~= m);
}

/// The position just after the last `'/'` of `p`, executable form.
pub fn find_last_slash(p: &str) -> (r: usize)
    ensures
        r == last_slash_idx(p@),
        r <= p@.len(),
        p@.len() > 0 ==> r < p@.len(),
{
    let n = p.unicode_len();
    let mut j: usize = n;
    while j > 0
        invariant
            0 <= j <= n,
            n == p@.len(),
            forall|l: int| j <= l < n ==> p@[l] != '/',
        decreases j,
    {
        if p.get_char(j - 1) == '/' {
            proof {
                lemma_last_slash(p@, j - 1);
            }
            return j - 1;
        }
        j -= 1;
    }
    proof {
        lemma_no_slash(p@);
    }
    0
}

impl MemFs {
    /// Move: ensure the destination's parent directory chain exists, then
    /// perform the one atomic remote rename.  On an error from the rename
    /// itself the parent directories created beforehand remain, exactly as
    /// on the remote host.
    pub fn move_file(&mut self, src: &str, dst: &str) -> (r: Result<(), CmsError>)
        requires
            old(self).wf(),
        ensures
            final(self).wf(),
            match r {
                Ok(()) => {
                    &&& !blocked_by_file(old(self)@, parent_of(dst@))
                    &&& rename_result(
                        add_dirs_map(old(self)@, parent_of(dst@)),
                        src@,
                        dst@,
                    ) is Ok
                    &&& final(self)@ == rename_map(
                        add_dirs_map(old(self)@, parent_of(dst@)),
                        src@,
                        dst@,
                    )
                },
                Err(e) => {
                    if blocked_by_file(old(self)@, parent_of(dst@)) {
                        e == CmsError::RemoteIo && final(self)@ == old(self)@
                    } else {
                        &&& final(self)@ == add_dirs_map(old(self)@, parent_of(dst@))
                        &&& Err::<(), CmsError>(e) == rename_result(
                            add_dirs_map(old(self)@, parent_of(dst@)),
                            src@,
                            dst@,
                        )
                    }
                },
            },
    {
        let j = find_last_slash(dst);
        if j > 0 {
            let parent = crate::strutil::substring(dst, 0, j);
            match self.mkdir_recursive(parent.as_str()) {
                Ok(()) => {},
                Err(e) => {
                    return Err(e);
                },
            }
        } else {
            proof {
                assert(parent_of(dst@) =~= Seq::<char>::empty());
                lemma_add_dirs_empty(old(self)@);
            }
        }
        self.rename(src, dst)
    }

    /// Write image bytes: ensure the parent directory chain exists, then
    /// create-or-truncate the file.
    pub fn save_image(&mut self, p: &str, image: Vec<u8>) -> (r: Result<(), CmsError>)
        requires
            old(self).wf(),
        ensures
            final(self).wf(),
            r is Ok <==> !blocked_by_file(old(self)@, parent_of(p@)) && !(add_dirs_map(
                old(self)@,
                parent_of(p@),
            ).dom().contains(p@) && add_dirs_map(old(self)@, parent_of(p@))[p@] is Dir),
            match r {
                Ok(()) => {
                    &&& !blocked_by_file(old(self)@, parent_of(p@))
                    &&& final(self)@ == add_dirs_map(old(self)@, parent_of(p@)).insert(
                        p@,
                        FsEntryV::File(image@),
                    )
                },
                Err(e) => {
                    &&& e == CmsError::RemoteIo
                    &&& if blocked_by_file(old(self)@, parent_of(p@)) {
                        final(self)@ == old(self)@
                    } else {
                        final(self)@ == add_dirs_map(old(self)@, parent_of(p@))
                            && add_dirs_map(old(self)@, parent_of(p@)).dom().contains(p@)
                            && add_dirs_map(old(self)@, parent_of(p@))[p@] is Dir
                    }
                },
            },
    {
        let j = find_last_slash(p);
        if j > 0 {
            let parent = crate::strutil::substring(p, 0, j);
            match self.mkdir_recursive(parent.as_str()) {
                Ok(()) => {},
                Err(e) => {
                    return Err(e);
                },
            }
        } else {
            proof {
                assert(parent_of(p@) =~= Seq::<char>::empty());
                lemma_add_dirs_empty(old(self)@);
            }
        }
        self.save_file(p, image)
    }
}

/// The physical path of the entry called `name` inside directory `dir`.
pub open spec fn child_path(dir: Seq<char>, name: Seq<char>) -> Seq<char> {
    dir.push('/') + name
}

/// True when `name` names an immediate child of `dir` in `m`.
pub open spec fn is_child_name(
    m: Map<Seq<char>, FsEntryV>,
    dir: Seq<char>,
    name: Seq<char>,
) -> bool {
    &&& name.len() > 0
    &&& forall|l: int| 0 <= l < name.len() ==> name[l] != '/'
    &&& m.dom().contains(child_path(dir, name))
}

impl MemFs {
    /// List the immediate children of `dir`: each child's name together
    /// with whether it is a directory.  The listing is sound and complete;
    /// its order is the remote host's and is not specified.
    pub fn list_children(&self, dir: &str) -> (r: Vec<(String, bool)>)
        requires
            self.wf(),
        ensures
            forall|i: int|
                0 <= i < r@.len() ==> is_child_name(self@, dir@, (#[trigger] r@[i]).0@)
                    && r@[i].1 == (self@[child_path(dir@, r@[i].0@)] is Dir),
            forall|name: Seq<char>|
                is_child_name(self@, dir@, name) ==> exists|i: int|
                    0 <= i < r@.len() && (#[trigger] r@[i]).0@ == name,
            forall|i: int, j: int| 0 <= i < j < r@.len() ==> r@[i].0@ != r@[j].0@,
    {
        let dn = dir.unicode_len();
        let n = self.entries.len();
        let mut r: Vec<(String, bool)> = Vec::new();
        let mut i: usize = 0;
        while i < n
            invariant
                0 <= i <= n,
                self.wf(),
                dn == dir@.len(),
                n == self.entries@.len(),
                forall|x: int|
                    0 <= x < r@.len() ==> is_child_name(self@, dir@, (#[trigger] r@[x]).0@)
                        && r@[x].1 == (self@[child_path(dir@, r@[x].0@)] is Dir),
                forall|j: int|
                    0 <= j < i ==> (exists|x: int|
                        0 <= x < r@.len() && (#[trigger] r@[x]).0@ == self.entries@[j].0@.skip(
                            dn + 1,
                        )) || !(self.entries@[j].0@.len() > dn + 1 && self.entries@[j].0@.take(
                        dn + 1,
                    ) == dir@.push('/') && forall|l: int|
                        dn + 1 <= l < self.entries@[j].0@.len()
                            ==> (#[trigger] self.entries@[j].0@[l]) != '/'),
                forall|x: int, y: int| 0 <= x < y < r@.len() ==> r@[x].0@ != r@[y].0@,
                forall|x: int|
                    0 <= x < r@.len() ==> exists|j: int|
                        0 <= j < i && child_path(dir@, (#[trigger] r@[x]).0@)
                            == self.entries@[j].0@,
            decreases n - i,
        {
            let key = self.entries[i].0.as_str();
            let kn = key.unicode_len();
            let mut take = false;
            if kn > dn && kn - dn > 1 {
                let pre = key.substring_char(0, dn);
                if crate::strutil::str_eq(pre, dir) && key.get_char(dn) == '/' {
                    // no further separator may follow
                    let mut l = dn + 1;
                    while l < kn && key.get_char(l) != '/'
                        invariant
                            dn + 1 <= l <= kn,
                            kn == key@.len(),
                            forall|x: int| dn + 1 <= x < l ==> key@[x] != '/',
                        decreases kn - l,
                    {
                        l += 1;
                    }
                    if l == kn {
                        take = true;
                        proof {
                            assert(key@.take(dn + 1) =~= dir@.push('/'));
                        }
                    }
                }
            }
            if take {
                let name = crate::strutil::substring(key, dn + 1, kn);
                let isd = match &self.entries[i].1 {
                    FsEntry::Dir => true,
                    FsEntry::File(_) => false,
                };
                proof {
                    lemma_map_of_index(self.entries@, i as int);
                    assert(child_path(dir@, name@) =~= key@);
                    assert forall|x: int| 0 <= x < r@.len() implies (#[trigger] r@[x]).0@
                        != name@ by {
                        if r@[x].0@ == name@ {
                            let j = choose|j: int|
                                0 <= j < i && child_path(dir@, r@[x].0@) == self.entries@[j].0@;
                            assert(self.entries@[j].0@ == self.entries@[i as int].0@);
                        }
                    }
                }
                let ghost pre_r = r@;
                r.push((name, isd));
                proof {
                    assert(r@[pre_r.len() as int].0@ == self.entries@[i as int].0@.skip(dn + 1));
                    assert forall|x: int| 0 <= x < r@.len() implies exists|j: int|
                        0 <= j < i + 1 && child_path(dir@, (#[trigger] r@[x]).0@)
                            == self.entries@[j].0@ by {
                        if x < pre_r.len() {
                            let j = choose|j: int|
                                0 <= j < i && child_path(dir@, pre_r[x].0@) == self.entries@[j].0@;
                            assert(child_path(dir@, r@[x].0@) == self.entries@[j].0@);
                        } else {
                            assert(child_path(dir@, r@[x].0@) == self.entries@[i as int].0@);
                        }
                    }
                    assert forall|j: int|
                        0 <= j < i + 1 implies (exists|x: int|
                        0 <= x < r@.len() && (#[trigger] r@[x]).0@ == self.entries@[j].0@.skip(
                            dn + 1,
                        )) || !(self.entries@[j].0@.len() > dn + 1 && self.entries@[j].0@.take(
                        dn + 1,
                    ) == dir@.push('/') && forall|l: int|
                        dn + 1 <= l < self.entries@[j].0@.len()
                            ==> (#[trigger] self.entries@[j].0@[l]) != '/') by {
                        if j < i {
                            if exists|x: int|
                                0 <= x < pre_r.len() && (#[trigger] pre_r[x]).0@
                                    == self.entries@[j].0@.skip(dn + 1) {
                                let x = choose|x: int|
                                    0 <= x < pre_r.len() && (#[trigger] pre_r[x]).0@
                                        == self.entries@[j].0@.skip(dn + 1);
                                assert(r@[x].0@ == self.entries@[j].0@.skip(dn + 1));
                            }
                        } else {
                            assert(r@[pre_r.len() as int].0@ == self.entries@[j].0@.skip(dn + 1));
                        }
                    }
                }
            } else {
                proof {
                    assert(!(self.entries@[i as int].0@.len() > dn + 1 && self.entries@[
                        i as int].0@.take(dn + 1) == dir@.push('/') && forall|l: int|
                        dn + 1 <= l < self.entries@[i as int].0@.len()
                            ==> (#[trigger] self.entries@[i as int].0@[l]) != '/')) by {
                        let k = self.entries@[i as int].0@;
                        if k.len() > dn + 1 && k.take(dn + 1) == dir@.push('/') {
                            assert(k.take(dn as int).len() == dn as int);
                            assert forall|l: int| 0 <= l < dn implies k.take(dn as int)[l]
                                == dir@[l] by {
                                assert(k.take(dn + 1)[l] == dir@.push('/')[l]);
                            }
                            assert(k.take(dn as int) =~= dir@);
                            assert(k[dn as int] == dir@.push('/')[dn as int]);
                            assert(k.take(dn as int) == key@.subrange(0, dn as int));
                        }
                    }
                }
            }
            i += 1;
        }
        proof {
            assert forall|name: Seq<char>| is_child_name(self@, dir@, name) implies exists|x: int|
                0 <= x < r@.len() && (#[trigger] r@[x]).0@ == name by {
                lemma_map_of_contains(self.entries@, child_path(dir@, name));
                let j = choose|j: int|
                    0 <= j < self.entries@.len() && self.entries@[j].0@ == child_path(dir@, name);
                let k = self.entries@[j].0@;
                assert(k.len() == dir@.len() + 1 + name.len());
                assert(k.take(dn + 1) =~= dir@.push('/'));
                assert(k.skip(dn + 1) =~= name);
                assert forall|l: int| dn + 1 <= l < k.len() implies (#[trigger] k[l]) != '/' by {
                    assert(k[l] == name[l - dn - 1]);
                }
            }
        }
        r
    }
}

/// Frame helper naming an unchanged entry, to steer the prover.
pub open spec fn old_entries_frame(es: Seq<(String, FsEntry)>, j: int) -> (String, FsEntry) {
    es[j]
}

/// The exact result of [`MemFs::rename`], determined by the state of the
/// filesystem alone.
pub open spec fn rename_result(
    m: Map<Seq<char>, FsEntryV>,
    src: Seq<char>,
    dst: Seq<char>,
) -> Result<(), CmsError> {
    if !m.dom().contains(src) {
        Err(CmsError::NotFound)
    } else if exists|k: Seq<char>| #[trigger] m.dom().contains(k) && in_subtree(k, dst) {
        Err(CmsError::AlreadyExists)
    } else if in_subtree(dst, src) {
        Err(CmsError::RemoteIo)
    } else {
        Ok(())
    }
}

/// Two subtrees can both contain a key only when one root lies inside the
/// other's subtree.
proof fn lemma_subtrees_disjoint(k: Seq<char>, a: Seq<char>, b: Seq<char>)
    requires
        in_subtree(k, a),
        in_subtree(k, b),
    ensures
        in_subtree(a, b) || in_subtree(b, a),
{
    if a.len() < b.len() {
        assert(b.take(a.len() as int) =~= k.take(b.len() as int).take(a.len() as int));
        assert(k.take(b.len() as int).take(a.len() as int) =~= k.take(a.len() as int));
        assert(in_subtree(b, a));
    } else if b.len() < a.len() {
        assert(a.take(b.len() as int) =~= k.take(a.len() as int).take(b.len() as int));
        assert(k.take(a.len() as int).take(b.len() as int) =~= k.take(b.len() as int));
        assert(in_subtree(a, b));
    } else {
        assert(a =~= b);
    }
}

/// After a successful rename of `src` to `dst`, renaming `dst` back to
/// `src` is again possible and restores the filesystem exactly.
pub proof fn lemma_rename_involution(m: Map<Seq<char>, FsEntryV>, src: Seq<char>, dst: Seq<char>)
    requires
        rename_result(m, src, dst) is Ok,
    ensures
        rename_result(rename_map(m, src, dst), dst, src) is Ok,
        rename_map(rename_map(m, src, dst), dst, src) == m,
{
    let m2 = rename_map(m, src, dst);
    let m3 = rename_map(m2, dst, src);
    assert(!in_subtree(src, dst));
    // dst itself is now occupied by the moved entry
    assert(in_subtree(dst, dst));
    assert(dst.skip(dst.len() as int) =~= Seq::<char>::empty());
    assert(src + dst.skip(dst.len() as int) =~= src);
    assert(m2.dom().contains(dst));
    // nothing in m2 lies inside the subtree of src
    assert forall|k: Seq<char>| #[trigger] m2.dom().contains(k) implies !in_subtree(k, src) by {
        if in_subtree(k, src) {
            if in_subtree(k, dst) {
                lemma_subtrees_disjoint(k, src, dst);
            }
        }
    }
    assert(rename_result(m2, dst, src) is Ok);
    assert forall|k: Seq<char>| #[trigger] m3.dom().contains(k) == m.dom().contains(k) && (
    m.dom().contains(k) ==> m3[k] == m[k]) by {
        lemma_rename_undo_at(m, src, dst, k);
    }
    assert(m3 =~= m);
}

/// Pointwise form of the involution argument.
proof fn lemma_rename_undo_at(
    m: Map<Seq<char>, FsEntryV>,
    src: Seq<char>,
    dst: Seq<char>,
    k: Seq<char>,
)
    requires
        rename_result(m, src, dst) is Ok,
    ensures
        rename_map(rename_map(m, src, dst), dst, src).dom().contains(k) == m.dom().contains(k),
        m.dom().contains(k) ==> rename_map(rename_map(m, src, dst), dst, src)[k] == m[k],
{
    let m2 = rename_map(m, src, dst);
    let m3 = rename_map(m2, dst, src);
    assert(!in_subtree(src, dst));
    if in_subtree(k, src) {
        // m3 looks k up at its relocated position under dst
        let k2 = dst + k.skip(src.len() as int);
        lemma_rekey_forward(k, src, dst);
        assert(in_subtree(k2, dst));
        assert(k2.skip(dst.len() as int) == k.skip(src.len() as int));
        assert(m3.dom().contains(k) == m2.dom().contains(k2));
        assert(src + k2.skip(dst.len() as int) =~= src + k.skip(src.len() as int));
        lemma_subtree_decompose(k, src);
        assert(src + k.skip(src.len() as int) == k);
        assert(m2.dom().contains(k2) == m.dom().contains(k));
        if m.dom().contains(k) {
            assert(m2[k2] == m[k]);
            assert(m3[k] == m2[k2]);
        }
    } else if in_subtree(k, dst) {
        // such keys never existed in m, and m3 cannot hold them either
        assert(!m.dom().contains(k));
        if m3.dom().contains(k) {
            assert(!in_subtree(k, dst) && m2.dom().contains(k));
        }
    } else {
        assert(m3.dom().contains(k) == m2.dom().contains(k));
        assert(m2.dom().contains(k) == m.dom().contains(k));
        if m.dom().contains(k) {
            assert(m3[k] == m2[k]);
            assert(m2[k] == m[k]);
        }
    }
}

/// Helper facts about subtree membership and relocation.
proof fn lemma_subtree_decompose(k: Seq<char>, root: Seq<char>)
    requires
        in_subtree(k, root),
    ensures
        k == root + k.skip(root.len() as int),
{
    assert(k =~= root + k.skip(root.len() as int));
}

proof fn lemma_concat_skip(a: Seq<char>, b: Seq<char>)
    ensures
        (a + b).skip(a.len() as int) == b,
        (a + b).take(a.len() as int) == a,
{
    assert((a + b).skip(a.len() as int) =~= b);
    assert((a + b).take(a.len() as int) =~= a);
}

/// A key inside the subtree of `src` relocates to the subtree of `dst`, and
/// the relocation is undone by relocating back.
proof fn lemma_rekey_forward(k: Seq<char>, src: Seq<char>, dst: Seq<char>)
    requires
        in_subtree(k, src),
    ensures
        rekey(k, src, dst) == dst + k.skip(src.len() as int),
        in_subtree(rekey(k, src, dst), dst),
        rekey(k, src, dst).skip(dst.len() as int) == k.skip(src.len() as int),
        src + rekey(k, src, dst).skip(dst.len() as int) == k,
{
    let rest = k.skip(src.len() as int);
    lemma_concat_skip(dst, rest);
    lemma_subtree_decompose(k, src);
    if k == src {
        assert(rest =~= Seq::<char>::empty());
        assert(dst + rest =~= dst);
    } else {
        assert(k[src.len() as int] == '/');
        assert(rest[0] == '/');
        assert((dst + rest).len() > dst.len());
        assert((dst + rest)[dst.len() as int] == '/');
    }
}

/// Relocation from `src` to `dst` is injective over keys that lie outside
/// the subtree of `dst`.
proof fn lemma_rekey_injective(k1: Seq<char>, k2: Seq<char>, src: Seq<char>, dst: Seq<char>)
    requires
        !in_subtree(k1, dst),
        !in_subtree(k2, dst),
        k1 != k2,
    ensures
        rekey(k1, src, dst) != rekey(k2, src, dst),
{
    if in_subtree(k1, src) && in_subtree(k2, src) {
        lemma_rekey_forward(k1, src, dst);
        lemma_rekey_forward(k2, src, dst);
        if rekey(k1, src, dst) == rekey(k2, src, dst) {
            assert(src + rekey(k1, src, dst).skip(dst.len() as int) == k1);
            assert(src + rekey(k2, src, dst).skip(dst.len() as int) == k2);
        }
    } else if in_subtree(k1, src) {
        lemma_rekey_forward(k1, src, dst);
    } else if in_subtree(k2, src) {
        lemma_rekey_forward(k2, src, dst);
    }
}

/// The heart of the rename proof: relocating every key of an association
/// list yields exactly the relocated association map.
proof fn lemma_rename_entries(
    orig: Seq<(String, FsEntry)>,
    new: Seq<(String, FsEntry)>,
    src: Seq<char>,
    dst: Seq<char>,
)
    requires
        unique_keys(orig),
        new.len() == orig.len(),
        forall|j: int|
            0 <= j < orig.len() ==> (#[trigger] new[j]).0@ == rekey(orig[j].0@, src, dst)
                && new[j].1@ == orig[j].1@,
        forall|j: int| 0 <= j < orig.len() ==> !in_subtree((#[trigger] orig[j]).0@, dst),
        !in_subtree(dst, src),
    ensures
        unique_keys(new),
        map_of(new) == rename_map(map_of(orig), src, dst),
    decreases orig.len(),
{
    assert forall|i: int, j: int| 0 <= i < j < new.len() implies new[i].0@ != new[j].0@ by {
        lemma_rekey_injective(orig[i].0@, orig[j].0@, src, dst);
    }
    if orig.len() == 0 {
        assert(map_of(new) =~= rename_map(map_of(orig), src, dst));
    } else {
        let o1 = orig.drop_last();
        let n1 = new.drop_last();
        lemma_rename_entries(o1, n1, src, dst);
        let a = orig.last().0@;
        let v = orig.last().1@;
        let m1 = map_of(o1);
        let lhs = map_of(new);
        let rhs = rename_map(map_of(orig), src, dst);
        assert(map_of(orig) == m1.insert(a, v));
        assert(lhs == rename_map(m1, src, dst).insert(rekey(a, src, dst), v));
        if in_subtree(a, src) {
            lemma_rekey_forward(a, src, dst);
        }
        assert forall|k: Seq<char>| #[trigger] lhs.dom().contains(k) <==> rhs.dom().contains(k) by {
            lemma_rekey_cases(m1, k, a, src, dst);
        }
        assert forall|k: Seq<char>| rhs.dom().contains(k) implies lhs[k] == rhs[k] by {
            lemma_rekey_cases(m1, k, a, src, dst);
        }
        assert(lhs =~= rhs);
    }
}

/// Case analysis used at each step of the rename induction: inserting a key
/// `a` before relocating is the same as relocating and then inserting the
/// relocated key.
proof fn lemma_rekey_cases(
    m1: Map<Seq<char>, FsEntryV>,
    k: Seq<char>,
    a: Seq<char>,
    src: Seq<char>,
    dst: Seq<char>,
)
    requires
        !in_subtree(a, dst),
        !in_subtree(dst, src),
    ensures
        in_subtree(k, dst) ==> ((src + k.skip(dst.len() as int) == a) <==> k == rekey(
            a,
            src,
            dst,
        )),
        !in_subtree(k, dst) ==> k != rekey(a, src, dst) || (k == a && !in_subtree(a, src)),
{
    if in_subtree(a, src) {
        lemma_rekey_forward(a, src, dst);
    }
    if in_subtree(k, dst) {
        let u = src + k.skip(dst.len() as int);
        lemma_concat_skip(src, k.skip(dst.len() as int));
        if u == a {
            // a lies in the subtree of src, and relocating it gives back k.
            lemma_subtree_decompose(k, dst);
            if k == dst {
                assert(k.skip(dst.len() as int) =~= Seq::<char>::empty());
                assert(u =~= src);
                assert(in_subtree(a, src));
                assert(rekey(a, src, dst) =~= dst + Seq::<char>::empty());
                assert(rekey(a, src, dst) =~= k);
            } else {
                assert(k[dst.len() as int] == '/');
                assert(k.skip(dst.len() as int)[0] == '/');
                assert(u.len() > src.len());
                assert(u[src.len() as int] == '/');
                assert(u.take(src.len() as int) =~= src);
                assert(in_subtree(a, src));
                assert(rekey(a, src, dst) == dst + u.skip(src.len() as int));
                assert(u.skip(src.len() as int) =~= k.skip(dst.len() as int));
                assert(dst + k.skip(dst.len() as int) =~= k);
            }
        } else {
            if k == rekey(a, src, dst) {
                if in_subtree(a, src) {
                    assert(src + rekey(a, src, dst).skip(dst.len() as int) == a);
                } else {
                    // then k == a, contradicting membership in dst's subtree
                    assert(in_subtree(a, dst));
                }
            }
        }
    } else {
        if k == rekey(a, src, dst) {
            if in_subtree(a, src) {
                assert(in_subtree(rekey(a, src, dst), dst));
            }
        }
    }
}

/// Dropping every entry inside the subtree of `p` yields exactly the
/// restricted association map.
proof fn lemma_filter_entries(
    orig: Seq<(String, FsEntry)>,
    new: Seq<(String, FsEntry)>,
    p: Seq<char>,
)
    requires
        unique_keys(orig),
        unique_keys(new),
        forall|j: int|
            0 <= j < new.len() ==> !in_subtree((#[trigger] new[j]).0@, p),
        forall|j: int|
            0 <= j < new.len() ==> map_of(orig).dom().contains((#[trigger] new[j]).0@)
                && map_of(orig)[new[j].0@] == new[j].1@,
        forall|j: int|
            0 <= j < orig.len() && !in_subtree((#[trigger] orig[j]).0@, p) ==> exists|l: int|
                0 <= l < new.len() && (#[trigger] new[l]).0@ == orig[j].0@,
    ensures
        map_of(new) == remove_subtree_map(map_of(orig), p),
{
    let lhs = map_of(new);
    let rhs = remove_subtree_map(map_of(orig), p);
    assert forall|k: Seq<char>| #[trigger] lhs.dom().contains(k) implies rhs.dom().contains(k)
        && lhs[k] == rhs[k] by {
        lemma_map_of_contains(new, k);
        let l = choose|l: int| 0 <= l < new.len() && new[l].0@ == k;
        lemma_map_of_index(new, l);
    }
    assert forall|k: Seq<char>| #[trigger] rhs.dom().contains(k) implies lhs.dom().contains(k) by {
        lemma_map_of_contains(orig, k);
        let j = choose|j: int| 0 <= j < orig.len() && orig[j].0@ == k;
        lemma_map_of_index(orig, j);
        let l = choose|l: int| 0 <= l < new.len() && new[l].0@ == orig[j].0@;
        lemma_map_of_index(new, l);
    }
    assert(lhs =~= rhs);
}

/// Replacing the entry at `i` with one carrying the same key updates the
/// association map at that key alone.
proof fn lemma_map_of_update(es: Seq<(String, FsEntry)>, i: int, nv: (String, FsEntry))
    requires
        unique_keys(es),
        0 <= i < es.len(),
        nv.0@ == es[i].0@,
    ensures
        unique_keys(es.update(i, nv)),
        map_of(es.update(i, nv)) == map_of(es).insert(nv.0@, nv.1@),
    decreases es.len(),
{
    let es2 = es.update(i, nv);
    if i == es.len() - 1 {
        assert(es2.drop_last() =~= es.drop_last());
        assert(es2.last() == nv);
        assert(map_of(es2) =~= map_of(es).insert(nv.0@, nv.1@));
    } else {
        lemma_map_of_update(es.drop_last(), i, nv);
        assert(es2.drop_last() =~= es.drop_last().update(i, nv));
        assert(es2.last() == es.last());
        assert(es.last().0@ != nv.0@);
        assert(map_of(es2) =~= map_of(es).insert(nv.0@, nv.1@));
    }
}

} // verus!
