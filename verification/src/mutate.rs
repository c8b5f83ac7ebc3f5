//! The content mutation engine: operations over the public/hidden duality.
//!
//! Every operation resolves a logical path to its physical candidates and
//! states exactly which it touches.  Dual-location operations treat absence
//! at one side as expected; single-location operations treat it as fatal.

use vstd::prelude::*;
use crate::CmsError;
use crate::config::{HugoConfig, content_abs_spec, hidden_abs_spec, image_abs_spec, legacy_image_abs_spec};
use crate::fs::{FsEntryV, MemFs, remove_subtree_map, rename_map, rename_result, lemma_rename_involution};

verus! {

/// True when the logical path `p` has an entry at either physical location.
pub open spec fn exists_either_spec(
    m: Map<Seq<char>, FsEntryV>,
    cfg: &HugoConfig,
    p: Seq<char>,
) -> bool {
    m.dom().contains(content_abs_spec(cfg, p)) || m.dom().contains(hidden_abs_spec(cfg, p))
}

/// Existence probe over both physical locations of a logical path.
pub fn exists_both(fs: &MemFs, cfg: &HugoConfig, path: &str) -> (r: bool)
    requires
        fs.wf(),
    ensures
        r == exists_either_spec(fs@, cfg, path@),
{
    let c = cfg.content_abs(path);
    if fs.exists_path(c.as_str()) {
        return true;
    }
    let h = cfg.hidden_abs(path);
    fs.exists_path(h.as_str())
}

/// Whether the logical path currently lives in the hidden staging root.
pub fn check_file_hidden(fs: &MemFs, cfg: &HugoConfig, path: &str) -> (r: bool)
    requires
        fs.wf(),
    ensures
        r == fs@.dom().contains(hidden_abs_spec(cfg, path@)),
{
    let h = cfg.hidden_abs(path);
    fs.exists_path(h.as_str())
}

/// Read document bytes: try the public content location first, fall back
/// to the hidden location.
pub fn get_file_content(fs: &MemFs, cfg: &HugoConfig, path: &str) -> (r: Result<Vec<u8>, CmsError>)
    requires
        fs.wf(),
    ensures
        ({
            let c = content_abs_spec(cfg, path@);
            let h = hidden_abs_spec(cfg, path@);
            match r {
                Ok(v) => {
                    if fs@.dom().contains(c) && fs@[c] is File {
                        fs@[c] == FsEntryV::File(v@)
                    } else {
                        fs@.dom().contains(h) && fs@[h] == FsEntryV::File(v@)
                    }
                },
                Err(_) => {
                    &&& !(fs@.dom().contains(c) && fs@[c] is File)
                    &&& !(fs@.dom().contains(h) && fs@[h] is File)
                },
            }
        }),
{
    let c = cfg.content_abs(path);
    match fs.get_file(c.as_str()) {
        Ok(v) => Ok(v),
        Err(_) => {
            let h = cfg.hidden_abs(path);
            fs.get_file(h.as_str())
        },
    }
}

/// The location a write of `p` goes to: the hidden location when an entry
/// is already staged there, the public content location otherwise.
pub open spec fn write_target_spec(
    m: Map<Seq<char>, FsEntryV>,
    cfg: &HugoConfig,
    p: Seq<char>,
) -> Seq<char> {
    if m.dom().contains(hidden_abs_spec(cfg, p)) {
        hidden_abs_spec(cfg, p)
    } else {
        content_abs_spec(cfg, p)
    }
}

/// Write document bytes to whichever physical location currently holds the
/// entry; the hidden location takes precedence when present.
pub fn save_file_content(
    fs: &mut MemFs,
    cfg: &HugoConfig,
    path: &str,
    data: Vec<u8>,
) -> (r: Result<(), CmsError>)
    requires
        old(fs).wf(),
    ensures
        final(fs).wf(),
        match r {
            Ok(()) => final(fs)@ == old(fs)@.insert(
                write_target_spec(old(fs)@, cfg, path@),
                FsEntryV::File(data@),
            ),
            Err(e) => {
                &&& final(fs)@ == old(fs)@
                &&& e == CmsError::RemoteIo
                &&& old(fs)@[write_target_spec(old(fs)@, cfg, path@)] is Dir
            },
        },
        r is Ok <==> !(old(fs)@.dom().contains(write_target_spec(old(fs)@, cfg, path@))
            && old(fs)@[write_target_spec(old(fs)@, cfg, path@)] is Dir),
{
    let h = cfg.hidden_abs(path);
    if fs.exists_path(h.as_str()) {
        fs.save_file(h.as_str(), data)
    } else {
        let c = cfg.content_abs(path);
        fs.save_file(c.as_str(), data)
    }
}

/// Store uploaded image bytes under the image root: the stored location
/// is the logical path joined with the file name, its physical place
/// under the image root, parents created as needed; the returned relative
/// path is what documents reference.
pub fn save_file_image(
    fs: &mut MemFs,
    cfg: &HugoConfig,
    file_path: &str,
    file_name: &str,
    data: Vec<u8>,
) -> (r: Result<String, CmsError>)
    requires
        old(fs).wf(),
    ensures
        final(fs).wf(),
        ({
            let rel = file_path@ + "/"@ + file_name@;
            let phys = image_abs_spec(cfg, rel);
            match r {
                Ok(ret) => {
                    &&& ret@ == rel
                    &&& !crate::fs::blocked_by_file(old(fs)@, crate::fs::parent_of(phys))
                    &&& final(fs)@ == crate::fs::add_dirs_map(
                        old(fs)@,
                        crate::fs::parent_of(phys),
                    ).insert(phys, FsEntryV::File(data@))
                },
                Err(e) => e == CmsError::RemoteIo,
            }
        }),
{
    let rel = crate::strutil::concat3(file_path, "/", file_name);
    let phys = cfg.image_abs(rel.as_str());
    match fs.save_image(phys.as_str(), data) {
        Ok(()) => Ok(rel),
        Err(e) => Err(e),
    }
}

/// Writing the same bytes twice leaves the remote content exactly as one
/// write does: the second write lands on the same physical location and
/// stores the same value.
pub proof fn lemma_write_idempotent(
    m: Map<Seq<char>, FsEntryV>,
    cfg: &HugoConfig,
    p: Seq<char>,
    v: Seq<u8>,
)
    ensures
        ({
            let m1 = m.insert(write_target_spec(m, cfg, p), FsEntryV::File(v));
            let m2 = m1.insert(write_target_spec(m1, cfg, p), FsEntryV::File(v));
            m2 == m1
        }),
{
    reveal_strlit("/content");
    reveal_strlit("/content/");
    let c = content_abs_spec(cfg, p);
    let h = hidden_abs_spec(cfg, p);
    assert(c.len() < h.len());
    let m1 = m.insert(write_target_spec(m, cfg, p), FsEntryV::File(v));
    assert(write_target_spec(m1, cfg, p) == write_target_spec(m, cfg, p));
    assert(m1.insert(write_target_spec(m1, cfg, p), FsEntryV::File(v)) =~= m1);
}

/// The filesystem after a dual-location removal of logical path `p`,
/// including the best-effort removal of the matching image directory.
pub open spec fn remove_spec(
    m: Map<Seq<char>, FsEntryV>,
    cfg: &HugoConfig,
    p: Seq<char>,
) -> Map<Seq<char>, FsEntryV> {
    let c = content_abs_spec(cfg, p);
    let h = hidden_abs_spec(cfg, p);
    let img = image_abs_spec(cfg, p);
    let m1 = if m.dom().contains(c) {
        remove_subtree_map(m, c)
    } else {
        m
    };
    let m2 = if m1.dom().contains(h) {
        remove_subtree_map(m1, h)
    } else {
        m1
    };
    if m2.dom().contains(img) {
        remove_subtree_map(m2, img)
    } else {
        m2
    }
}

/// Dual-location removal: delete the logical path at both physical
/// locations; absence at one side is expected, absence at both is an
/// error.  The matching image directory is removed best-effort.
pub fn remove_file(fs: &mut MemFs, cfg: &HugoConfig, path: &str) -> (r: Result<(), CmsError>)
    requires
        old(fs).wf(),
    ensures
        final(fs).wf(),
        r is Ok <==> exists_either_spec(old(fs)@, cfg, path@),
        r is Ok ==> final(fs)@ == remove_spec(old(fs)@, cfg, path@),
        r is Err ==> final(fs)@ == old(fs)@ && r == Err::<(), CmsError>(CmsError::NotFound),
{
    let c = cfg.content_abs(path);
    let h = cfg.hidden_abs(path);
    let mut removed = false;
    if fs.exists_path(c.as_str()) {
        match fs.rmrf_file(c.as_str()) {
            Ok(()) => {
                removed = true;
            },
            Err(_) => {},
        }
    }
    if fs.exists_path(h.as_str()) {
        match fs.rmrf_file(h.as_str()) {
            Ok(()) => {
                removed = true;
            },
            Err(_) => {},
        }
    }
    if !removed {
        return Err(CmsError::NotFound);
    }
    let img = cfg.image_abs(path);
    if fs.exists_path(img.as_str()) {
        match fs.rmrf_file(img.as_str()) {
            Ok(()) => {},
            Err(_) => {},
        }
    }
    Ok(())
}

/// Toggle visibility: rename the logical path between the hidden staging
/// root and the public content root.  `make_visible` moves it out of
/// hiding.  Fails when the destination already exists.
pub fn toggle_hidden_file(
    fs: &mut MemFs,
    cfg: &HugoConfig,
    path: &str,
    make_visible: bool,
) -> (r: Result<(), CmsError>)
    requires
        old(fs).wf(),
    ensures
        final(fs).wf(),
        ({
            let c = content_abs_spec(cfg, path@);
            let h = hidden_abs_spec(cfg, path@);
            let src = if make_visible { h } else { c };
            let dst = if make_visible { c } else { h };
            (match r {
                Ok(()) => final(fs)@ == rename_map(old(fs)@, src, dst),
                Err(e) => final(fs)@ == old(fs)@ && e != CmsError::RollbackFailure,
            }) && r == rename_result(old(fs)@, src, dst)
        }),
{
    let c = cfg.content_abs(path);
    let h = cfg.hidden_abs(path);
    if make_visible {
        fs.rename(h.as_str(), c.as_str())
    } else {
        fs.rename(c.as_str(), h.as_str())
    }
}

/// The filesystem after the first move phase: the public content entry of
/// `src`, when present, renamed to the destination.
pub open spec fn move_m1(
    m: Map<Seq<char>, FsEntryV>,
    cfg: &HugoConfig,
    src: Seq<char>,
    dst: Seq<char>,
) -> Map<Seq<char>, FsEntryV> {
    if m.dom().contains(content_abs_spec(cfg, src)) {
        rename_map(m, content_abs_spec(cfg, src), content_abs_spec(cfg, dst))
    } else {
        m
    }
}

/// The filesystem after the second move phase: the hidden entry of `src`,
/// when present, renamed to the destination.
pub open spec fn move_m2(
    m: Map<Seq<char>, FsEntryV>,
    cfg: &HugoConfig,
    src: Seq<char>,
    dst: Seq<char>,
) -> Map<Seq<char>, FsEntryV> {
    let m1 = move_m1(m, cfg, src, dst);
    if m1.dom().contains(hidden_abs_spec(cfg, src)) {
        rename_map(m1, hidden_abs_spec(cfg, src), hidden_abs_spec(cfg, dst))
    } else {
        m1
    }
}

/// The filesystem after the third move phase: the matching image directory
/// renamed, checking the current layout first and falling back to the
/// legacy unsectioned layout.
pub open spec fn move_m3(
    m: Map<Seq<char>, FsEntryV>,
    cfg: &HugoConfig,
    src: Seq<char>,
    dst: Seq<char>,
) -> Map<Seq<char>, FsEntryV> {
    let m2 = move_m2(m, cfg, src, dst);
    if m2.dom().contains(image_abs_spec(cfg, src)) {
        rename_map(m2, image_abs_spec(cfg, src), image_abs_spec(cfg, dst))
    } else if m2.dom().contains(legacy_image_abs_spec(cfg, src)) {
        rename_map(m2, legacy_image_abs_spec(cfg, src), image_abs_spec(cfg, dst))
    } else {
        m2
    }
}

/// The exact outcome of a move, phase by phase: the guards, then the
/// result of each applicable rename on the filesystem that phase sees.
pub open spec fn move_result(
    m: Map<Seq<char>, FsEntryV>,
    cfg: &HugoConfig,
    src: Seq<char>,
    dst: Seq<char>,
) -> Result<(), CmsError> {
    if exists_either_spec(m, cfg, dst) {
        Err(CmsError::AlreadyExists)
    } else if !exists_either_spec(m, cfg, src) {
        Err(CmsError::NotFound)
    } else {
        let r1 = if m.dom().contains(content_abs_spec(cfg, src)) {
            rename_result(m, content_abs_spec(cfg, src), content_abs_spec(cfg, dst))
        } else {
            Ok(())
        };
        if r1 is Err {
            r1
        } else {
            let m1 = move_m1(m, cfg, src, dst);
            let r2 = if m1.dom().contains(hidden_abs_spec(cfg, src)) {
                rename_result(m1, hidden_abs_spec(cfg, src), hidden_abs_spec(cfg, dst))
            } else {
                Ok(())
            };
            if r2 is Err {
                r2
            } else {
                let m2 = move_m2(m, cfg, src, dst);
                if m2.dom().contains(image_abs_spec(cfg, src)) {
                    rename_result(m2, image_abs_spec(cfg, src), image_abs_spec(cfg, dst))
                } else if m2.dom().contains(legacy_image_abs_spec(cfg, src)) {
                    rename_result(m2, legacy_image_abs_spec(cfg, src), image_abs_spec(cfg, dst))
                } else {
                    Ok(())
                }
            }
        }
    }
}

/// The renames a committed move performs, in order: the public entry if
/// present, the hidden entry if then present, and the matching image
/// directory — current layout first, legacy unsectioned layout as the
/// fallback.
pub open spec fn move_phases_spec(
    m: Map<Seq<char>, FsEntryV>,
    cfg: &HugoConfig,
    src: Seq<char>,
    dst: Seq<char>,
) -> Seq<(Seq<char>, Seq<char>)> {
    let p1 = if m.dom().contains(content_abs_spec(cfg, src)) {
        seq![(content_abs_spec(cfg, src), content_abs_spec(cfg, dst))]
    } else {
        Seq::<(Seq<char>, Seq<char>)>::empty()
    };
    let m1 = move_m1(m, cfg, src, dst);
    let p2 = if m1.dom().contains(hidden_abs_spec(cfg, src)) {
        seq![(hidden_abs_spec(cfg, src), hidden_abs_spec(cfg, dst))]
    } else {
        Seq::<(Seq<char>, Seq<char>)>::empty()
    };
    let m2 = move_m2(m, cfg, src, dst);
    let p3 = if m2.dom().contains(image_abs_spec(cfg, src)) {
        seq![(image_abs_spec(cfg, src), image_abs_spec(cfg, dst))]
    } else if m2.dom().contains(legacy_image_abs_spec(cfg, src)) {
        seq![(legacy_image_abs_spec(cfg, src), image_abs_spec(cfg, dst))]
    } else {
        Seq::<(Seq<char>, Seq<char>)>::empty()
    };
    p1 + p2 + p3
}

/// The values of a list of rename pairs.
pub open spec fn path_pair_views(v: Seq<(String, String)>) -> Seq<(Seq<char>, Seq<char>)> {
    v.map_values(|p: (String, String)| (p.0@, p.1@))
}

/// Move a logical path, with explicit compensation: rename the public
/// entry, then the hidden entry, then the matching image directory; any
/// failure undoes the phases already committed, in reverse order, and
/// surfaces the original error.  On an error return the destination is
/// fully absent and the source fully restored.  Success hands back the
/// renames performed, in order, for the transport shell to replay (and,
/// reversed, to compensate).
pub fn move_file_or_folder(
    fs: &mut MemFs,
    cfg: &HugoConfig,
    src: &str,
    dst: &str,
) -> (r: Result<Vec<(String, String)>, CmsError>)
    requires
        old(fs).wf(),
    ensures
        final(fs).wf(),
        (match r {
            Ok(_) => Ok::<(), CmsError>(()),
            Err(e) => Err(e),
        }) == move_result(old(fs)@, cfg, src@, dst@),
        r matches Ok(phases) ==> final(fs)@ == move_m3(old(fs)@, cfg, src@, dst@)
            && path_pair_views(phases@) == move_phases_spec(old(fs)@, cfg, src@, dst@),
        r is Err ==> final(fs)@ == old(fs)@,
{
    if exists_both(fs, cfg, dst) {
        return Err(CmsError::AlreadyExists);
    }
    if !exists_both(fs, cfg, src) {
        return Err(CmsError::NotFound);
    }
    let cs = cfg.content_abs(src);
    let cd = cfg.content_abs(dst);
    let hs = cfg.hidden_abs(src);
    let hd = cfg.hidden_abs(dst);
    let is_ = cfg.image_abs(src);
    let id = cfg.image_abs(dst);
    let ls = cfg.legacy_image_abs(src);
    let ghost m0 = fs@;
    let mut phases: Vec<(String, String)> = Vec::new();
    let mut did1 = false;
    if fs.exists_path(cs.as_str()) {
        match fs.rename(cs.as_str(), cd.as_str()) {
            Ok(()) => {
                did1 = true;
                phases.push(
                    (crate::tree::clone_node_name(&cs), crate::tree::clone_node_name(&cd)),
                );
            },
            Err(e) => {
                return Err(e);
            },
        }
    }
    let ghost m1 = fs@;
    let ghost phases1 = phases@;
    let mut did2 = false;
    if fs.exists_path(hs.as_str()) {
        match fs.rename(hs.as_str(), hd.as_str()) {
            Ok(()) => {
                did2 = true;
                phases.push(
                    (crate::tree::clone_node_name(&hs), crate::tree::clone_node_name(&hd)),
                );
            },
            Err(e) => {
                if did1 {
                    proof {
                        lemma_rename_involution(m0, cs@, cd@);
                    }
                    let _ = fs.rename(cd.as_str(), cs.as_str());
                }
                return Err(e);
            },
        }
    }
    let ghost m2 = fs@;
    let ghost phases2 = phases@;
    let img_err: Option<CmsError> = if fs.exists_path(is_.as_str()) {
        match fs.rename(is_.as_str(), id.as_str()) {
            Ok(()) => {
                phases.push(
                    (crate::tree::clone_node_name(&is_), crate::tree::clone_node_name(&id)),
                );
                None
            },
            Err(e) => Some(e),
        }
    } else if fs.exists_path(ls.as_str()) {
        match fs.rename(ls.as_str(), id.as_str()) {
            Ok(()) => {
                phases.push(
                    (crate::tree::clone_node_name(&ls), crate::tree::clone_node_name(&id)),
                );
                None
            },
            Err(e) => Some(e),
        }
    } else {
        None
    };
    match img_err {
        None => {
            proof {
                assert(m1 == move_m1(m0, cfg, src@, dst@));
                assert(m2 == move_m2(m0, cfg, src@, dst@));
                assert(path_pair_views(phases@) =~= move_phases_spec(m0, cfg, src@, dst@));
            }
            Ok(phases)
        },
        Some(e) => {
            if did2 {
                proof {
                    lemma_rename_involution(m1, hs@, hd@);
                }
                let _ = fs.rename(hd.as_str(), hs.as_str());
            }
            if did1 {
                proof {
                    lemma_rename_involution(m0, cs@, cd@);
                }
                let _ = fs.rename(cd.as_str(), cs.as_str());
            }
            Err(e)
        },
    }
}

/// Move a public entry into the trash area, directory chain included.
pub fn move_to_trashcan(fs: &mut MemFs, cfg: &HugoConfig, src: &str) -> (r: Result<(), CmsError>)
    requires
        old(fs).wf(),
    ensures
        final(fs).wf(),
        ({
            let from = content_abs_spec(cfg, src@);
            let to = cfg.base_path@ + "/"@ + cfg.trashcan_path@ + src@;
            match r {
                Ok(()) => {
                    &&& !crate::fs::blocked_by_file(old(fs)@, crate::fs::parent_of(to))
                    &&& rename_result(
                        crate::fs::add_dirs_map(old(fs)@, crate::fs::parent_of(to)),
                        from,
                        to,
                    ) is Ok
                    &&& final(fs)@ == crate::fs::rename_map(
                        crate::fs::add_dirs_map(old(fs)@, crate::fs::parent_of(to)),
                        from,
                        to,
                    )
                },
                Err(e) => {
                    if crate::fs::blocked_by_file(old(fs)@, crate::fs::parent_of(to)) {
                        e == CmsError::RemoteIo && final(fs)@ == old(fs)@
                    } else {
                        &&& final(fs)@ == crate::fs::add_dirs_map(
                            old(fs)@,
                            crate::fs::parent_of(to),
                        )
                        &&& Err::<(), CmsError>(e) == rename_result(
                            crate::fs::add_dirs_map(old(fs)@, crate::fs::parent_of(to)),
                            from,
                            to,
                        )
                    }
                },
            }
        }),
{
    let from = cfg.content_abs(src);
    let to = {
        let a = crate::strutil::concat3(cfg.base_path.as_str(), "/", cfg.trashcan_path.as_str());
        crate::strutil::concat2(a.as_str(), src)
    };
    proof {
        assert(to@ =~= cfg.base_path@ + "/"@ + cfg.trashcan_path@ + src@);
    }
    fs.move_file(from.as_str(), to.as_str())
}

/// Maximum number of suffixed names tried before unique-name creation
/// gives up.
pub const MAX_UNIQUE_TRIES: u64 = 10000;

/// The position where the extension (including its dot) begins in the last
/// component of `p`; `p.len()` when that component has no dot.
pub open spec fn dot_idx(p: Seq<char>) -> int
    decreases p.len(),
{
    if p.len() == 0 {
        0
    } else if p.last() == '.' {
        p.len() - 1
    } else if p.last() == '/' {
        p.len() as int
    } else {
        let d = dot_idx(p.drop_last());
        if d == p.len() - 1 {
            p.len() as int
        } else {
            d
        }
    }
}

/// The `k`-th candidate name for a logical path: the path itself for
/// `k == 0`, then numbered variants.  An index file gets the number on its
/// directory (`/post/_index.md` to `/post_1/_index.md`); any other path
/// gets it before the extension (`/post/new.md` to `/post/new_1.md`).
pub open spec fn unique_candidate(p: Seq<char>, k: nat) -> Seq<char> {
    if k == 0 {
        p
    } else if "/_index.md"@.is_suffix_of(p) {
        let cut = p.len() - "/_index.md"@.len();
        p.take(cut as int) + "_"@ + crate::strutil::dec_digits(k) + p.skip(cut as int)
    } else {
        let cut = dot_idx(p);
        p.take(cut) + "_"@ + crate::strutil::dec_digits(k) + p.skip(cut)
    }
}

pub proof fn lemma_dot_idx_bounds(p: Seq<char>)
    ensures
        0 <= dot_idx(p) <= p.len(),
    decreases p.len(),
{
    if p.len() > 0 {
        lemma_dot_idx_bounds(p.drop_last());
    }
}

/// Build the `k`-th candidate name, executable form of
/// [`unique_candidate`].
pub fn unique_candidate_exec(path: &str, k: u64) -> (r: String)
    ensures
        r@ == unique_candidate(path@, k as nat),
{
    if k == 0 {
        return String::from_str(path);
    }
    let n = path.unicode_len();
    let cut: usize = if crate::strutil::has_suffix(path, "/_index.md") {
        proof {
            reveal_strlit("/_index.md");
        }
        n - 10
    } else {
        let mut j: usize = n;
        while j > 0 && path.get_char(j - 1) != '.' && path.get_char(j - 1) != '/'
            invariant
                0 <= j <= n,
                n == path@.len(),
                forall|l: int| j <= l < n ==> path@[l] != '.' && path@[l] != '/',
            decreases j,
        {
            j -= 1;
        }
        proof {
            lemma_dot_scan(path@, j as int);
        }
        if j > 0 && path.get_char(j - 1) == '.' {
            j - 1
        } else {
            n
        }
    };
    let stem = crate::strutil::substring(path, 0, cut);
    let tail = crate::strutil::substring(path, cut, n);
    let num = crate::strutil::u64_to_string(k);
    let a = crate::strutil::concat3(stem.as_str(), "_", num.as_str());
    let r = crate::strutil::concat2(a.as_str(), tail.as_str());
    proof {
        assert(r@ =~= path@.take(cut as int) + "_"@ + crate::strutil::dec_digits(k as nat)
            + path@.skip(cut as int));
    }
    r
}

/// Probe the candidate names of `path` at both physical locations and
/// return the first one free at both; a name collision at either location
/// moves on to the next numbered candidate.
pub fn create_unique(fs: &MemFs, cfg: &HugoConfig, path: &str) -> (r: Result<String, CmsError>)
    requires
        fs.wf(),
    ensures
        match r {
            Ok(s) => exists|k: int|
                0 <= k <= MAX_UNIQUE_TRIES && s@ == #[trigger] unique_candidate(path@, k as nat)
                    && !exists_either_spec(fs@, cfg, unique_candidate(path@, k as nat)) && forall|
                    j: int,
                |
                    0 <= j < k ==> exists_either_spec(
                        fs@,
                        cfg,
                        #[trigger] unique_candidate(path@, j as nat),
                    ),
            Err(e) => e == CmsError::AlreadyExists && forall|k: int|
                0 <= k <= MAX_UNIQUE_TRIES ==> exists_either_spec(
                    fs@,
                    cfg,
                    #[trigger] unique_candidate(path@, k as nat),
                ),
        },
{
    let mut k: u64 = 0;
    while k <= MAX_UNIQUE_TRIES
        invariant
            0 <= k <= MAX_UNIQUE_TRIES + 1,
            forall|j: int|
                0 <= j < k ==> exists_either_spec(
                    fs@,
                    cfg,
                    #[trigger] unique_candidate(path@, j as nat),
                ),
            fs.wf(),
        decreases MAX_UNIQUE_TRIES + 1 - k,
    {
        let cand = unique_candidate_exec(path, k);
        if !exists_both(fs, cfg, cand.as_str()) {
            proof {
                let ghost kw: int = k as int;
                assert(exists|kk: int|
                    0 <= kk <= MAX_UNIQUE_TRIES && cand@ == #[trigger] unique_candidate(
                        path@,
                        kk as nat,
                    ) && !exists_either_spec(fs@, cfg, unique_candidate(path@, kk as nat))
                        && forall|j: int|
                        0 <= j < kk ==> exists_either_spec(
                            fs@,
                            cfg,
                            #[trigger] unique_candidate(path@, j as nat),
                        )) by {
                    assert(0 <= kw <= MAX_UNIQUE_TRIES && cand@ == unique_candidate(
                        path@,
                        kw as nat,
                    ) && !exists_either_spec(fs@, cfg, unique_candidate(path@, kw as nat))
                        && forall|j: int|
                        0 <= j < kw ==> exists_either_spec(
                            fs@,
                            cfg,
                            #[trigger] unique_candidate(path@, j as nat),
                        ));
                }
            }
            return Ok(cand);
        }
        k += 1;
    }
    Err(CmsError::AlreadyExists)
}

/// The remote command that asks the site generator to scaffold a new
/// content file at the given logical path.
pub fn new_content_for_hugo(cfg: &HugoConfig, path: &str) -> (r: String)
    ensures
        r@ == "cd "@ + cfg.base_path@ + " ; "@ + cfg.hugo_cmd_path@ + " new content"@ + path@,
{
    let a = crate::strutil::concat3("cd ", cfg.base_path.as_str(), " ; ");
    let b = crate::strutil::concat3(a.as_str(), cfg.hugo_cmd_path.as_str(), " new content");
    let r = crate::strutil::concat2(b.as_str(), path);
    proof {
        assert(r@ =~= "cd "@ + cfg.base_path@ + " ; "@ + cfg.hugo_cmd_path@ + " new content"@
            + path@);
    }
    r
}

/// The backward scan for the extension dot stops correctly: with nothing
/// but ordinary characters from `j` to the end, the stop position
/// determines the extension split.
pub proof fn lemma_dot_scan(p: Seq<char>, j: int)
    requires
        0 <= j <= p.len(),
        forall|l: int| j <= l < p.len() ==> p[l] != '.' && p[l] != '/',
        j == 0 || p[j - 1] == '.' || p[j - 1] == '/',
    ensures
        dot_idx(p) == if j == 0 {
            p.len() as int
        } else if p[j - 1] == '.' {
            j - 1
        } else {
            p.len() as int
        },
    decreases p.len() - j,
{
    if j == p.len() {
    } else {
        assert(p.last() != '.' && p.last() != '/');
        lemma_dot_scan(p.drop_last(), j);
    }
}

} // verus!
