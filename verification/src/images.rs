//! The image-reference integrity subsystem: extract embedded media
//! references from document text, decide for each one where its bytes
//! belong, materialize externally hosted images under a deterministic
//! name, and rewrite the text — without touching any unrelated byte.

use vstd::prelude::*;
use crate::CmsError;
use crate::config::HugoConfig;
use crate::fs::{FsEntryV, MemFs, add_dirs_map, blocked_by_file, child_path, parent_of};
use crate::strutil::{
    concat2, concat3, first_char_from, first_match_from, has_prefix, hex_of, matches_at, substring,
    to_hex,
};
use crate::trust::{sha256, sha256_of};

verus! {

/// One extracted reference: the target's position in the text, and the
/// target itself.
pub struct ImageRef {
    pub start: usize,
    pub end: usize,
    pub target: String,
}

/// The target positions of every reference in `s` from position `i` on:
/// the inline image markup `![alt](target)` and the embedded image tag
/// `<img src="target">`, scanned left to right; a reference opened but
/// never closed ends the scan.
pub open spec fn refs_from(s: Seq<char>, i: int) -> Seq<(int, int)>
    decreases s.len() - i,
{
    if i < 0 || i >= s.len() {
        Seq::empty()
    } else if matches_at(s, "!["@, i) {
        let m = first_match_from(s, "]("@, i + 2);
        if m >= s.len() {
            Seq::empty()
        } else {
            let e = first_char_from(s, ')', m + 2);
            if e >= s.len() {
                Seq::empty()
            } else {
                proof {
                    crate::strutil::lemma_first_match_props(s, "]("@, i + 2);
                    crate::strutil::lemma_first_char_bounds(s, ')', m + 2);
                }
                seq![(m + 2, e)] + if e + 1 < s.len() {
                    refs_from(s, e + 1)
                } else {
                    Seq::empty()
                }
            }
        }
    } else if matches_at(s, "<img src=\""@, i) {
        let e = first_char_from(s, '"', i + 10);
        if e >= s.len() {
            Seq::empty()
        } else {
            proof {
                crate::strutil::lemma_first_char_bounds(s, '"', i + 10);
            }
            seq![(i + 10, e)] + if e + 1 < s.len() {
                refs_from(s, e + 1)
            } else {
                Seq::empty()
            }
        }
    } else {
        refs_from(s, i + 1)
    }
}

/// The references of a whole document.
pub open spec fn refs_of(s: Seq<char>) -> Seq<(int, int)> {
    refs_from(s, 0)
}

/// The positions of a vector of extracted references.
pub open spec fn ref_positions(v: Seq<ImageRef>) -> Seq<(int, int)> {
    v.map_values(|r: ImageRef| (r.start as int, r.end as int))
}

/// Extract every image reference of the document, in text order, with the
/// exact target text of each.
pub fn parse_references(text: &str) -> (r: Vec<ImageRef>)
    ensures
        ref_positions(r@) == refs_of(text@),
        forall|j: int|
            0 <= j < r@.len() ==> {
                let rr = #[trigger] r@[j];
                &&& rr.start <= rr.end <= text@.len()
                &&& rr.target@ == text@.subrange(rr.start as int, rr.end as int)
            },
{
    let n = text.unicode_len();
    let mut acc: Vec<ImageRef> = Vec::new();
    let mut i: usize = 0;
    while i < n
        invariant
            0 <= i <= n,
            n == text@.len(),
            ref_positions(acc@) + refs_from(text@, i as int) == refs_of(text@),
            forall|j: int|
                0 <= j < acc@.len() ==> {
                    let rr = #[trigger] acc@[j];
                    &&& rr.start <= rr.end <= text@.len()
                    &&& rr.target@ == text@.subrange(rr.start as int, rr.end as int)
                },
        decreases n - i,
    {
        proof {
            reveal_strlit("![");
            reveal_strlit("](");
            reveal_strlit("<img src=\"");
        }
        let ghost pre = acc@;
        if n - i >= 2 && text.get_char(i) == '!' && text.get_char(i + 1) == '[' {
            proof {
                assert(text@.subrange(i as int, i + 2) =~= "!["@);
                assert(matches_at(text@, "!["@, i as int));
            }
            let m = crate::strutil::find_at(text, "](", i + 2);
            if m >= n {
                proof {
                    assert(refs_from(text@, i as int) =~= Seq::<(int, int)>::empty());
                    assert(ref_positions(acc@) =~= ref_positions(acc@) + Seq::<(
                        int,
                        int,
                    )>::empty());
                }
                return acc;
            }
            proof {
                crate::strutil::lemma_first_match_props(text@, "]("@, i + 2);
            }
            let e = crate::strutil::find_char(text, ')', m + 2);
            if e >= n {
                proof {
                    assert(refs_from(text@, i as int) =~= Seq::<(int, int)>::empty());
                    assert(ref_positions(acc@) =~= ref_positions(acc@) + Seq::<(
                        int,
                        int,
                    )>::empty());
                }
                return acc;
            }
            let target = substring(text, m + 2, e);
            acc.push(ImageRef { start: m + 2, end: e, target });
            proof {
                assert(ref_positions(acc@) =~= ref_positions(pre).push((m + 2 as int, e as int)));
                assert(ref_positions(pre).push((m + 2 as int, e as int)) + (if e + 1
                    < text@.len() {
                    refs_from(text@, e + 1)
                } else {
                    Seq::<(int, int)>::empty()
                }) =~= ref_positions(pre) + refs_from(text@, i as int));
            }
            if e + 1 < n {
                i = e + 1;
            } else {
                proof {
                    assert(refs_from(text@, n as int) =~= Seq::<(int, int)>::empty());
                }
                i = n;
            }
        } else if n - i >= 10 && {
            let probe = text.substring_char(i, i + 10);
            crate::strutil::str_eq(probe, "<img src=\"")
        } {
            proof {
                assert(text@.subrange(i as int, i + 10) == "<img src=\""@);
                assert(matches_at(text@, "<img src=\""@, i as int));
                assert(text@.subrange(i as int, i + 10)[0] == text@[i as int]);
                assert(!matches_at(text@, "!["@, i as int)) by {
                    if matches_at(text@, "!["@, i as int) {
                        assert(text@.subrange(i as int, i + 2)[0] == text@[i as int]);
                    }
                }
            }
            let e = crate::strutil::find_char(text, '"', i + 10);
            if e >= n {
                proof {
                    assert(refs_from(text@, i as int) =~= Seq::<(int, int)>::empty());
                    assert(ref_positions(acc@) =~= ref_positions(acc@) + Seq::<(
                        int,
                        int,
                    )>::empty());
                }
                return acc;
            }
            let target = substring(text, i + 10, e);
            acc.push(ImageRef { start: i + 10, end: e, target });
            proof {
                assert(ref_positions(acc@) =~= ref_positions(pre).push((i + 10 as int, e as int)));
                assert(ref_positions(pre).push((i + 10 as int, e as int)) + (if e + 1
                    < text@.len() {
                    refs_from(text@, e + 1)
                } else {
                    Seq::<(int, int)>::empty()
                }) =~= ref_positions(pre) + refs_from(text@, i as int));
            }
            if e + 1 < n {
                i = e + 1;
            } else {
                proof {
                    assert(refs_from(text@, n as int) =~= Seq::<(int, int)>::empty());
                }
                i = n;
            }
        } else {
            proof {
                if n - i >= 2 {
                    if matches_at(text@, "!["@, i as int) {
                        assert(text@.subrange(i as int, i + 2)[0] == text@[i as int]);
                        assert(text@.subrange(i as int, i + 2)[1] == text@[i + 1]);
                        assert(false);
                    }
                } else {
                    if matches_at(text@, "!["@, i as int) {
                        assert(false);
                    }
                }
                if n - i >= 10 {
                    assert(!matches_at(text@, "<img src=\""@, i as int));
                } else {
                    if matches_at(text@, "<img src=\""@, i as int) {
                        assert(false);
                    }
                }
            }
            i += 1;
        }
    }
    proof {
        assert(refs_from(text@, i as int) =~= Seq::<(int, int)>::empty());
        assert(ref_positions(acc@) =~= ref_positions(acc@) + Seq::<(int, int)>::empty());
    }
    acc
}

/// References are returned in text order: each target range is within the
/// text, and ranges of successive references do not overlap.
pub proof fn lemma_refs_ordered(s: Seq<char>, i: int)
    ensures
        forall|j: int|
            0 <= j < refs_from(s, i).len() ==> i <= (#[trigger] refs_from(s, i)[j]).0
                && refs_from(s, i)[j].0 <= refs_from(s, i)[j].1 < s.len(),
        forall|j: int|
            0 <= j && j + 1 < refs_from(s, i).len() ==> (#[trigger] refs_from(s, i)[j]).1
                < refs_from(s, i)[j + 1].0,
    decreases s.len() - i,
{
    reveal_strlit("![");
    reveal_strlit("](");
    reveal_strlit("<img src=\"");
    let rs = refs_from(s, i);
    if i < 0 || i >= s.len() {
    } else if matches_at(s, "!["@, i) {
        let m = first_match_from(s, "]("@, i + 2);
        crate::strutil::lemma_first_match_props(s, "]("@, i + 2);
        if m < s.len() {
            let e = first_char_from(s, ')', m + 2);
            crate::strutil::lemma_first_char_bounds(s, ')', m + 2);
            if e < s.len() {
                let rest = if e + 1 < s.len() {
                    refs_from(s, e + 1)
                } else {
                    Seq::<(int, int)>::empty()
                };
                if e + 1 < s.len() {
                    lemma_refs_ordered(s, e + 1);
                }
                assert(rs =~= seq![(m + 2, e)] + rest);
                assert(rs.len() == 1 + rest.len());
                assert forall|j: int| 0 <= j < rs.len() implies i <= (#[trigger] rs[j]).0
                    && rs[j].0 <= rs[j].1 < s.len() by {
                    if j > 0 {
                        assert(rs[j] == rest[j - 1]);
                    }
                }
                assert forall|j: int| 0 <= j && j + 1 < rs.len() implies (#[trigger] rs[j]).1 < rs[j
                    + 1].0 by {
                    assert(rest.len() > 0);
                    assert(e + 1 < s.len());
                    if j == 0 {
                        assert(rs[0] == (m + 2, e));
                        assert(rs[1] == rest[0]);
                        assert(e + 1 <= (#[trigger] refs_from(s, e + 1)[0]).0);
                    } else {
                        assert(rs[j] == rest[j - 1] && rs[j + 1] == rest[j]);
                        assert((#[trigger] refs_from(s, e + 1)[j - 1]).1 < refs_from(s, e + 1)[j].0);
                    }
                }
            }
        }
    } else if matches_at(s, "<img src=\""@, i) {
        let e = first_char_from(s, '"', i + 10);
        crate::strutil::lemma_first_char_bounds(s, '"', i + 10);
        if e < s.len() {
            let rest = if e + 1 < s.len() {
                refs_from(s, e + 1)
            } else {
                Seq::<(int, int)>::empty()
            };
            if e + 1 < s.len() {
                lemma_refs_ordered(s, e + 1);
            }
            assert(rs =~= seq![(i + 10, e)] + rest);
            assert forall|j: int| 0 <= j < rs.len() implies i <= (#[trigger] rs[j]).0 && rs[j].0
                <= rs[j].1 < s.len() by {
                if j > 0 {
                    assert(rs[j] == rest[j - 1]);
                }
            }
            assert forall|j: int| 0 <= j && j + 1 < rs.len() implies (#[trigger] rs[j]).1 < rs[j
                + 1].0 by {
                assert(rest.len() > 0);
                assert(e + 1 < s.len());
                if j == 0 {
                    assert(rs[0] == (i + 10, e));
                    assert(rs[1] == rest[0]);
                    assert(e + 1 <= (#[trigger] refs_from(s, e + 1)[0]).0);
                } else {
                    assert(rs[j] == rest[j - 1] && rs[j + 1] == rest[j]);
                    assert((#[trigger] refs_from(s, e + 1)[j - 1]).1 < refs_from(s, e + 1)[j].0);
                }
            }
        }
    } else {
        lemma_refs_ordered(s, i + 1);
        assert forall|j: int| 0 <= j < refs_from(s, i).len() implies i <= (
        #[trigger] refs_from(s, i)[j]).0 && refs_from(s, i)[j].0 <= refs_from(s, i)[j].1
            < s.len() by {
            assert(refs_from(s, i)[j] == refs_from(s, i + 1)[j]);
        }
        assert forall|j: int| 0 <= j && j + 1 < refs_from(s, i).len() implies (
        #[trigger] refs_from(s, i)[j]).1 < refs_from(s, i)[j + 1].0 by {
            assert(refs_from(s, i)[j] == refs_from(s, i + 1)[j]);
            assert(refs_from(s, i)[j + 1] == refs_from(s, i + 1)[j + 1]);
        }
    }
}

/// A reference is external when it carries a web scheme.
pub open spec fn is_external_spec(t: Seq<char>) -> bool {
    "http://"@.is_prefix_of(t) || "https://"@.is_prefix_of(t)
}

/// Whether a reference target is externally hosted.
pub fn is_external(target: &str) -> (r: bool)
    ensures
        r == is_external_spec(target@),
{
    has_prefix(target, "http://") || has_prefix(target, "https://")
}

/// The logical prefix of the document's own image directory: a reference
/// starting with it already lives where it belongs.
pub open spec fn own_prefix_spec(cfg: &HugoConfig, doc: Seq<char>) -> Seq<char> {
    "/"@ + cfg.image_path@ + doc
}

/// The physical path behind a site-relative reference.
pub open spec fn phys_of(cfg: &HugoConfig, rel: Seq<char>) -> Seq<char> {
    cfg.base_path@ + rel
}

/// The stored filename of an externally hosted image: the digest of its
/// URL, with the URL's extension kept.
pub open spec fn external_fname(url: Seq<char>) -> Seq<char> {
    hex_of(sha256_of(vstd::utf8::encode_utf8(url))) + url.skip(crate::mutate::dot_idx(url))
}

/// The `k`-th collision name of a stored file, numbering before its
/// extension.
pub open spec fn numbered_fname(fname: Seq<char>, k: nat) -> Seq<char> {
    if k == 0 {
        fname
    } else {
        fname.take(crate::mutate::dot_idx(fname)) + "_"@ + crate::strutil::dec_digits(k)
            + fname.skip(crate::mutate::dot_idx(fname))
    }
}

/// Resolve the document's own image directory prefix.
pub fn own_prefix(cfg: &HugoConfig, doc_path: &str) -> (r: String)
    ensures
        r@ == own_prefix_spec(cfg, doc_path@),
{
    concat3("/", cfg.image_path.as_str(), doc_path)
}

/// The extension of a reference, dot included; empty when its last
/// component carries none.
fn ext_of(target: &str) -> (r: String)
    ensures
        r@ == target@.skip(crate::mutate::dot_idx(target@)),
{
    let n = target.unicode_len();
    let mut j: usize = n;
    while j > 0 && target.get_char(j - 1) != '.' && target.get_char(j - 1) != '/'
        invariant
            0 <= j <= n,
            n == target@.len(),
            forall|l: int| j <= l < n ==> target@[l] != '.' && target@[l] != '/',
        decreases j,
    {
        j -= 1;
    }
    proof {
        crate::mutate::lemma_dot_scan(target@, j as int);
        crate::mutate::lemma_dot_idx_bounds(target@);
    }
    let cut: usize = if j > 0 && target.get_char(j - 1) == '.' {
        j - 1
    } else {
        n
    };
    let r = substring(target, cut, n);
    proof {
        assert(target@.subrange(cut as int, n as int) =~= target@.skip(cut as int));
    }
    r
}

/// Build the `k`-th collision name of a stored file.
pub fn numbered_fname_exec(fname: &str, k: u64) -> (r: String)
    ensures
        r@ == numbered_fname(fname@, k as nat),
{
    if k == 0 {
        return String::from_str(fname);
    }
    let n = fname.unicode_len();
    let mut j: usize = n;
    while j > 0 && fname.get_char(j - 1) != '.' && fname.get_char(j - 1) != '/'
        invariant
            0 <= j <= n,
            n == fname@.len(),
            forall|l: int| j <= l < n ==> fname@[l] != '.' && fname@[l] != '/',
        decreases j,
    {
        j -= 1;
    }
    proof {
        crate::mutate::lemma_dot_scan(fname@, j as int);
        crate::mutate::lemma_dot_idx_bounds(fname@);
    }
    let cut: usize = if j > 0 && fname.get_char(j - 1) == '.' {
        j - 1
    } else {
        n
    };
    let stem = substring(fname, 0, cut);
    let tail = substring(fname, cut, n);
    let num = crate::strutil::u64_to_string(k);
    let a = concat3(stem.as_str(), "_", num.as_str());
    let r = concat2(a.as_str(), tail.as_str());
    proof {
        assert(r@ =~= fname@.take(cut as int) + "_"@ + crate::strutil::dec_digits(k as nat)
            + fname@.skip(cut as int));
    }
    r
}

/// What one reference needs at save time.
pub enum RefAction {
    /// Leave the reference text alone and store nothing.
    Keep,
    /// Rewrite the reference to `new_target`; when `store` is set, first
    /// write those bytes at that physical path.
    Rewrite { new_target: String, store: Option<(String, Vec<u8>)> },
}

/// The values of a list of byte records — fetched external images, or
/// stores to perform — each name with its bytes.
pub open spec fn fetched_views(fetched: Seq<(String, Vec<u8>)>) -> Seq<(Seq<char>, Seq<u8>)> {
    fetched.map_values(|e: (String, Vec<u8>)| (e.0@, e.1@))
}

/// The position of the first fetched entry for `url`, or a negative
/// number.
pub open spec fn find_fetched(fv: Seq<(Seq<char>, Seq<u8>)>, url: Seq<char>) -> int
    decreases fv.len(),
{
    if fv.len() == 0 {
        -1
    } else if fv[0].0 == url {
        0
    } else {
        let r = find_fetched(fv.drop_first(), url);
        if r < 0 {
            -1
        } else {
            r + 1
        }
    }
}

proof fn lemma_find_fetched_first(fv: Seq<(Seq<char>, Seq<u8>)>, url: Seq<char>, i: int)
    requires
        0 <= i <= fv.len(),
        forall|j: int| 0 <= j < i ==> (#[trigger] fv[j]).0 != url,
        i < fv.len() ==> fv[i].0 == url,
    ensures
        find_fetched(fv, url) == if i < fv.len() {
            i
        } else {
            -1int
        },
    decreases i,
{
    if fv.len() > 0 {
        if i == 0 {
        } else {
            assert(fv[0].0 != url);
            lemma_find_fetched_first(fv.drop_first(), url, i - 1);
            assert(forall|j: int| 0 <= j < fv.drop_first().len() ==> fv.drop_first()[j] == fv[j + 1]);
        }
    }
}

/// The least free collision counter for a stored filename, probing each
/// numbered name in turn; zero when every probe up to the bound is taken.
pub open spec fn first_free_idx(
    m: Map<Seq<char>, FsEntryV>,
    cfg: &HugoConfig,
    own: Seq<char>,
    fname: Seq<char>,
    k: int,
) -> int
    decreases crate::mutate::MAX_UNIQUE_TRIES + 1 - k,
{
    if k < 1 || k > crate::mutate::MAX_UNIQUE_TRIES {
        0
    } else if !m.dom().contains(phys_of(cfg, child_path(own, numbered_fname(fname, k as nat)))) {
        k
    } else {
        first_free_idx(m, cfg, own, fname, k + 1)
    }
}

/// What one reference needs at save time, decided by the state alone:
/// nothing (the reference stays), or a rewritten target together with the
/// bytes to store first, when any.
pub open spec fn ref_plan_spec(
    m: Map<Seq<char>, FsEntryV>,
    cfg: &HugoConfig,
    doc: Seq<char>,
    t: Seq<char>,
    fv: Seq<(Seq<char>, Seq<u8>)>,
) -> Option<(Seq<char>, Option<(Seq<char>, Seq<u8>)>)> {
    let own = own_prefix_spec(cfg, doc);
    if own.is_prefix_of(t) && !is_external_spec(t) {
        None
    } else if is_external_spec(t) {
        let fname = external_fname(t);
        let dest_rel = child_path(own, fname);
        let dest_phys = phys_of(cfg, dest_rel);
        if m.dom().contains(dest_phys) {
            Some((dest_rel, None))
        } else if find_fetched(fv, t) >= 0 {
            Some((dest_rel, Some((dest_phys, fv[find_fetched(fv, t)].1))))
        } else {
            None
        }
    } else {
        let src_phys = phys_of(cfg, t);
        if !(m.dom().contains(src_phys) && m[src_phys] is File) {
            None
        } else {
            let bytes = m[src_phys]->File_0;
            let fname = crate::tree::base_name(t);
            let dest_rel = child_path(own, fname);
            let dest_phys = phys_of(cfg, dest_rel);
            if m.dom().contains(dest_phys) && m[dest_phys] == FsEntryV::File(bytes) {
                Some((dest_rel, None))
            } else if !m.dom().contains(dest_phys) {
                Some((dest_rel, Some((dest_phys, bytes))))
            } else {
                let k = first_free_idx(m, cfg, own, fname, 1);
                if k == 0 {
                    None
                } else {
                    Some(
                        (
                            child_path(own, numbered_fname(fname, k as nat)),
                            Some(
                                (
                                    phys_of(cfg, child_path(own, numbered_fname(fname, k as nat))),
                                    bytes,
                                ),
                            ),
                        ),
                    )
                }
            }
        }
    }
}

/// The value of a decided action.
pub open spec fn action_view(r: RefAction) -> Option<(Seq<char>, Option<(Seq<char>, Seq<u8>)>)> {
    match r {
        RefAction::Keep => None,
        RefAction::Rewrite { new_target, store } => Some(
            (
                new_target@,
                match store {
                    Option::Some(sv) => Some((sv.0@, sv.1@)),
                    Option::None => None,
                },
            ),
        ),
    }
}

/// Decide what one reference needs, without touching anything:
/// a reference already under the document's own image directory is left
/// alone; an external reference materializes under its digest name once
/// and is rewritten to it; any other local reference is copied into the
/// document's own image directory — under a freshly numbered name when a
/// different file already owns its name — and rewritten; a source that
/// cannot be read, an external image that was not fetched, or an
/// exhausted collision counter leaves the reference untouched.
#[verifier::loop_isolation(false)]
pub fn plan_ref(
    fs: &MemFs,
    cfg: &HugoConfig,
    doc_path: &str,
    target: &str,
    fetched: &Vec<(String, Vec<u8>)>,
) -> (r: RefAction)
    requires
        fs.wf(),
    ensures
        action_view(r) == ref_plan_spec(
            fs@,
            cfg,
            doc_path@,
            target@,
            fetched_views(fetched@),
        ),
{
    let own = own_prefix(cfg, doc_path);
    let external = is_external(target);
    if has_prefix(target, own.as_str()) && !external {
        return RefAction::Keep;
    }
    if external {
        let url_bytes = target.as_bytes_vec();
        let digest = sha256(&url_bytes);
        let hx = to_hex(&digest);
        let ext = ext_of(target);
        let fname = concat2(hx.as_str(), ext.as_str());
        let dest_rel = {
            let a = concat2(own.as_str(), "/");
            proof {
                reveal_strlit("/");
                assert(a@ =~= own@.push('/'));
            }
            concat2(a.as_str(), fname.as_str())
        };
        let dest_phys = concat2(cfg.base_path.as_str(), dest_rel.as_str());
        proof {
            assert(fname@ =~= external_fname(target@));
            assert(dest_rel@ == child_path(own@, fname@));
        }
        if fs.exists_path(dest_phys.as_str()) {
            return RefAction::Rewrite { new_target: dest_rel, store: None };
        }
        let n = fetched.len();
        let mut i: usize = 0;
        while i < n
            invariant
                0 <= i <= n,
                n == fetched@.len(),
                forall|j: int| 0 <= j < i ==> (#[trigger] fetched@[j]).0@ != target@,
            decreases n - i,
        {
            if crate::strutil::str_eq(fetched[i].0.as_str(), target) {
                proof {
                    assert forall|j: int| 0 <= j < i implies (#[trigger] fetched_views(
                        fetched@,
                    )[j]).0 != target@ by {
                        assert(fetched_views(fetched@)[j].0 == fetched@[j].0@);
                    }
                    assert(fetched_views(fetched@)[i as int].0 == target@);
                    lemma_find_fetched_first(fetched_views(fetched@), target@, i as int);
                }
                let bytes = clone_bytes(&fetched[i].1);
                proof {
                    assert(bytes@ == fetched_views(fetched@)[i as int].1);
                }
                return RefAction::Rewrite { new_target: dest_rel, store: Some((dest_phys, bytes)) };
            }
            i += 1;
        }
        proof {
            assert forall|j: int| 0 <= j < n implies (#[trigger] fetched_views(fetched@)[j]).0
                != target@ by {
                assert(fetched_views(fetched@)[j].0 == fetched@[j].0@);
            }
            lemma_find_fetched_first(fetched_views(fetched@), target@, n as int);
        }
        return RefAction::Keep;
    }
    // a local reference outside the document's own image directory
    let src_phys = concat2(cfg.base_path.as_str(), target);
    let bytes = match fs.get_file(src_phys.as_str()) {
        Ok(v) => v,
        Err(_) => {
            return RefAction::Keep;
        },
    };
    let n = target.unicode_len();
    let j = crate::fs::find_last_slash(target);
    let fname = if n > 0 && target.get_char(j) == '/' {
        substring(target, j + 1, n)
    } else {
        proof {
            assert(target@.subrange(0, n as int) =~= target@);
        }
        substring(target, 0, n)
    };
    proof {
        assert(fname@ == crate::tree::base_name(target@));
    }
    let dest_rel0 = {
        let a = concat2(own.as_str(), "/");
        proof {
            reveal_strlit("/");
            assert(a@ =~= own@.push('/'));
        }
        concat2(a.as_str(), fname.as_str())
    };
    let dest_phys0 = concat2(cfg.base_path.as_str(), dest_rel0.as_str());
    proof {
        assert(dest_rel0@ == child_path(own@, fname@));
    }
    if fs.exists_path(dest_phys0.as_str()) {
        match fs.get_file(dest_phys0.as_str()) {
            Ok(existing) => {
                if bytes_eq(&existing, &bytes) {
                    return RefAction::Rewrite { new_target: dest_rel0, store: None };
                }
            },
            Err(_) => {},
        }
        // collision: probe numbered names, least counter first
        let mut k: u64 = 1;
        while k <= crate::mutate::MAX_UNIQUE_TRIES
            invariant
                1 <= k <= crate::mutate::MAX_UNIQUE_TRIES + 1,
                fs.wf(),
                first_free_idx(fs@, cfg, own@, fname@, 1) == first_free_idx(
                    fs@,
                    cfg,
                    own@,
                    fname@,
                    k as int,
                ),
            decreases crate::mutate::MAX_UNIQUE_TRIES + 1 - k,
        {
            let cand_fname = numbered_fname_exec(fname.as_str(), k);
            let cand_rel = {
                let a = concat2(own.as_str(), "/");
                proof {
                    reveal_strlit("/");
                    assert(a@ =~= own@.push('/'));
                }
                concat2(a.as_str(), cand_fname.as_str())
            };
            let cand_phys = concat2(cfg.base_path.as_str(), cand_rel.as_str());
            proof {
                assert(cand_rel@ == child_path(own@, numbered_fname(fname@, k as nat)));
            }
            if !fs.exists_path(cand_phys.as_str()) {
                proof {
                    assert(first_free_idx(fs@, cfg, own@, fname@, k as int) == k as int);
                }
                return RefAction::Rewrite {
                    new_target: cand_rel,
                    store: Some((cand_phys, bytes)),
                };
            }
            k += 1;
        }
        proof {
            assert(first_free_idx(fs@, cfg, own@, fname@, k as int) == 0);
        }
        return RefAction::Keep;
    }
    RefAction::Rewrite { new_target: dest_rel0, store: Some((dest_phys0, bytes)) }
}

/// True when `u` is the target of some reference of the document, is
/// externally hosted, and its materialized file does not exist yet.
pub open spec fn needs_fetch(
    m: Map<Seq<char>, FsEntryV>,
    cfg: &HugoConfig,
    doc: Seq<char>,
    s: Seq<char>,
    u: Seq<char>,
) -> bool {
    exists|j: int|
        0 <= j < refs_of(s).len() && u == s.subrange(
            (#[trigger] refs_of(s)[j]).0,
            refs_of(s)[j].1,
        ) && is_external_spec(u) && !m.dom().contains(
            phys_of(cfg, child_path(own_prefix_spec(cfg, doc), external_fname(u))),
        )
}

/// The external references of the document whose bytes are not yet
/// materialized: each URL once, for the transport shell to fetch.
#[verifier::loop_isolation(false)]
pub fn plan_external_fetches(
    fs: &MemFs,
    cfg: &HugoConfig,
    doc_path: &str,
    text: &str,
) -> (r: Vec<String>)
    requires
        fs.wf(),
    ensures
        forall|i: int|
            0 <= i < r@.len() ==> needs_fetch(fs@, cfg, doc_path@, text@, (#[trigger] r@[i])@),
        forall|u: Seq<char>|
            needs_fetch(fs@, cfg, doc_path@, text@, u) ==> exists|i: int|
                0 <= i < r@.len() && (#[trigger] r@[i])@ == u,
        forall|i: int, j: int| 0 <= i < j < r@.len() ==> r@[i]@ != r@[j]@,
{
    let own = own_prefix(cfg, doc_path);
    let refs = parse_references(text);
    let m = refs.len();
    let mut r: Vec<String> = Vec::new();
    let mut idx: usize = 0;
    while idx < m
        invariant
            0 <= idx <= m,
            forall|i: int|
                0 <= i < r@.len() ==> needs_fetch(fs@, cfg, doc_path@, text@, (#[trigger] r@[i])@),
            forall|j: int|
                0 <= j < idx && is_external_spec(text@.subrange(
                    (#[trigger] refs_of(text@)[j]).0,
                    refs_of(text@)[j].1,
                )) && !fs@.dom().contains(
                    phys_of(
                        cfg,
                        child_path(
                            own_prefix_spec(cfg, doc_path@),
                            external_fname(
                                text@.subrange(refs_of(text@)[j].0, refs_of(text@)[j].1),
                            ),
                        ),
                    ),
                ) ==> exists|i: int|
                    0 <= i < r@.len() && (#[trigger] r@[i])@ == text@.subrange(
                        refs_of(text@)[j].0,
                        refs_of(text@)[j].1,
                    ),
            forall|i: int, j: int| 0 <= i < j < r@.len() ==> r@[i]@ != r@[j]@,
        decreases m - idx,
    {
        let target = &refs[idx].target;
        let ghost r_top = r@;
        proof {
            assert(ref_positions(refs@)[idx as int] == refs_of(text@)[idx as int]);
        }
        if is_external(target.as_str()) {
            let fname = {
                let url_bytes = target.as_str().as_bytes_vec();
                let digest = sha256(&url_bytes);
                let hx = to_hex(&digest);
                let ext = ext_of(target.as_str());
                concat2(hx.as_str(), ext.as_str())
            };
            let dest_rel = {
                let a = concat2(own.as_str(), "/");
                proof {
                    reveal_strlit("/");
                    assert(a@ =~= own@.push('/'));
                }
                concat2(a.as_str(), fname.as_str())
            };
            let dest_phys = concat2(cfg.base_path.as_str(), dest_rel.as_str());
            proof {
                assert(fname@ =~= external_fname(target@));
                assert(dest_phys@ == phys_of(
                    cfg,
                    child_path(own_prefix_spec(cfg, doc_path@), external_fname(target@)),
                ));
            }
            if !fs.exists_path(dest_phys.as_str()) {
                // keep each URL once
                let mut seen = false;
                let rl = r.len();
                let mut x: usize = 0;
                while x < rl
                    invariant
                        0 <= x <= rl,
                        rl == r@.len(),
                        seen ==> exists|i: int| 0 <= i < r@.len() && (#[trigger] r@[i])@ == target@,
                        !seen ==> forall|i: int| 0 <= i < x ==> (#[trigger] r@[i])@ != target@,
                    decreases rl - x,
                {
                    if crate::strutil::str_eq(r[x].as_str(), target.as_str()) {
                        seen = true;
                    }
                    x += 1;
                }
                if !seen {
                    r.push(crate::tree::clone_node_name(target));
                    proof {
                        assert(r@[r@.len() - 1]@ == target@);
                        assert(needs_fetch(fs@, cfg, doc_path@, text@, target@)) by {
                            assert(target@ == text@.subrange(
                                (refs_of(text@)[idx as int]).0,
                                refs_of(text@)[idx as int].1,
                            ));
                        }
                    }
                }
            }
        }
        proof {
            let tv = text@;
            assert forall|j: int|
                0 <= j < idx + 1 && is_external_spec(tv.subrange(
                    (#[trigger] refs_of(tv)[j]).0,
                    refs_of(tv)[j].1,
                )) && !fs@.dom().contains(
                    phys_of(
                        cfg,
                        child_path(
                            own_prefix_spec(cfg, doc_path@),
                            external_fname(tv.subrange(refs_of(tv)[j].0, refs_of(tv)[j].1)),
                        ),
                    ),
                ) implies exists|i: int|
                0 <= i < r@.len() && (#[trigger] r@[i])@ == tv.subrange(
                    refs_of(tv)[j].0,
                    refs_of(tv)[j].1,
                ) by {
                if j == idx {
                    assert(refs@[idx as int].target@ == tv.subrange(
                        refs_of(tv)[j].0,
                        refs_of(tv)[j].1,
                    ));
                } else {
                    let i = choose|i: int|
                        0 <= i < r_top.len() && (#[trigger] r_top[i])@ == tv.subrange(
                            refs_of(tv)[j].0,
                            refs_of(tv)[j].1,
                        );
                    assert(r@[i] == r_top[i]);
                }
            }
        }
        idx += 1;
    }
    proof {
        assert forall|u: Seq<char>| needs_fetch(fs@, cfg, doc_path@, text@, u) implies exists|
            i: int,
        | 0 <= i < r@.len() && (#[trigger] r@[i])@ == u by {
            let j = choose|j: int|
                0 <= j < refs_of(text@).len() && u == text@.subrange(
                    (#[trigger] refs_of(text@)[j]).0,
                    refs_of(text@)[j].1,
                ) && is_external_spec(u) && !fs@.dom().contains(
                    phys_of(cfg, child_path(own_prefix_spec(cfg, doc_path@), external_fname(u))),
                );
        }
    }
    r
}

/// An externally hosted image already materialized under its digest name
/// is never fetched again: once its file exists, no document text makes
/// the fetch planner name its URL.
pub proof fn lemma_fetch_once(
    m: Map<Seq<char>, FsEntryV>,
    cfg: &HugoConfig,
    doc: Seq<char>,
    text: Seq<char>,
    u: Seq<char>,
)
    requires
        m.dom().contains(phys_of(cfg, child_path(own_prefix_spec(cfg, doc), external_fname(u)))),
    ensures
        !needs_fetch(m, cfg, doc, text, u),
{
}

/// Every reference of the document already lives under its own image
/// directory: a second save of the same text has nothing left to do.
pub open spec fn all_refs_own(cfg: &HugoConfig, doc: Seq<char>, s: Seq<char>) -> bool {
    forall|j: int|
        0 <= j < refs_of(s).len() ==> own_prefix_spec(cfg, doc).is_prefix_of(
            s.subrange((#[trigger] refs_of(s)[j]).0, refs_of(s)[j].1),
        )
}

/// The filesystem after storing `b` at `p` with the parent chain created,
/// and whether the store went through: a file in the parent chain, or a
/// directory already sitting at `p`, stops it.
pub open spec fn store_effect(m: Map<Seq<char>, FsEntryV>, p: Seq<char>, b: Seq<u8>) -> (
    Map<Seq<char>, FsEntryV>,
    bool,
) {
    if blocked_by_file(m, parent_of(p)) {
        (m, false)
    } else {
        let m2 = add_dirs_map(m, parent_of(p));
        if m2.dom().contains(p) && m2[p] is Dir {
            (m2, false)
        } else {
            (m2.insert(p, FsEntryV::File(b)), true)
        }
    }
}

/// The integrity pass of a manual save, folded over the references from
/// `j` on: each reference is decided by [`ref_plan_spec`] on the
/// filesystem as it then stands, its bytes stored by [`store_effect`],
/// and the text rebuilt piece by piece — the rewritten target where the
/// store went through, the untouched original otherwise.  Yields the
/// filesystem before the final document write, the rewritten text, and
/// the stores that went through, in order.
pub open spec fn save_steps(
    m: Map<Seq<char>, FsEntryV>,
    cfg: &HugoConfig,
    doc: Seq<char>,
    s: Seq<char>,
    rs: Seq<(int, int)>,
    j: int,
    prev: int,
    fv: Seq<(Seq<char>, Seq<u8>)>,
) -> (Map<Seq<char>, FsEntryV>, Seq<char>, Seq<(Seq<char>, Seq<u8>)>)
    decreases rs.len() - j,
{
    if j < 0 || j >= rs.len() || !(0 <= prev <= rs[j].0 <= rs[j].1 <= s.len()) {
        (m, s.skip(prev), Seq::empty())
    } else {
        let t = s.subrange(rs[j].0, rs[j].1);
        let step = match ref_plan_spec(m, cfg, doc, t, fv) {
            Option::None => (m, t, Seq::<(Seq<char>, Seq<u8>)>::empty()),
            Option::Some(pl) => match pl.1 {
                Option::None => (m, pl.0, Seq::<(Seq<char>, Seq<u8>)>::empty()),
                Option::Some(st) => {
                    let se = store_effect(m, st.0, st.1);
                    if se.1 {
                        (se.0, pl.0, seq![(st.0, st.1)])
                    } else {
                        (se.0, t, Seq::<(Seq<char>, Seq<u8>)>::empty())
                    }
                },
            },
        };
        let rest = save_steps(step.0, cfg, doc, s, rs, j + 1, rs[j].1, fv);
        (rest.0, s.subrange(prev, rs[j].0) + step.1 + rest.1, step.2 + rest.2)
    }
}

/// Save a document: a background save only writes the bytes; a manual
/// save first runs the image-reference integrity pass — every reference
/// is planned with [`plan_ref`], needed bytes are stored, the text is
/// rewritten — and then writes the result to whichever physical location
/// holds the document.  Media failures are skipped, never fatal: only a
/// failure of the final document write is an error.  A settled document
/// (every reference already under its own image directory) writes its
/// bytes and changes nothing else.  Success returns the saved text
/// together with the stores the pass performed, in order, for the
/// transport shell to replay.
#[verifier::rlimit(100)]
#[verifier::spinoff_prover]
#[verifier::loop_isolation(false)]
pub fn save_document(
    fs: &mut MemFs,
    cfg: &HugoConfig,
    doc_path: &str,
    text: &str,
    manual: bool,
    fetched: &Vec<(String, Vec<u8>)>,
) -> (r: Result<(String, Vec<(String, Vec<u8>)>), CmsError>)
    requires
        old(fs).wf(),
    ensures
        final(fs).wf(),
        !manual ==> (match r {
            Ok(p) => p.0@ == text@ && p.1@.len() == 0 && final(fs)@ == old(fs)@.insert(
                crate::mutate::write_target_spec(old(fs)@, cfg, doc_path@),
                FsEntryV::File(vstd::utf8::encode_utf8(text@)),
            ),
            Err(e) => final(fs)@ == old(fs)@ && e == CmsError::RemoteIo,
        }),
        manual ==> ({
            let sp = save_steps(
                old(fs)@,
                cfg,
                doc_path@,
                text@,
                refs_of(text@),
                0,
                0,
                fetched_views(fetched@),
            );
            let wt = crate::mutate::write_target_spec(sp.0, cfg, doc_path@);
            (match r {
                Ok(p) => p.0@ == sp.1 && fetched_views(p.1@) == sp.2 && final(fs)@ == sp.0.insert(
                    wt,
                    FsEntryV::File(vstd::utf8::encode_utf8(sp.1)),
                ),
                Err(e) => e == CmsError::RemoteIo && final(fs)@ == sp.0 && sp.0.dom().contains(wt)
                    && sp.0[wt] is Dir,
            }) && (r is Ok <==> !(sp.0.dom().contains(wt) && sp.0[wt] is Dir))
        }),
        (manual && all_refs_own(cfg, doc_path@, text@)) ==> (match r {
            Ok(p) => p.0@ == text@ && final(fs)@ == old(fs)@.insert(
                crate::mutate::write_target_spec(old(fs)@, cfg, doc_path@),
                FsEntryV::File(vstd::utf8::encode_utf8(text@)),
            ),
            Err(e) => final(fs)@ == old(fs)@ && e == CmsError::RemoteIo,
        }),
        r matches Ok(p) ==> {
            ||| (final(fs)@.dom().contains(crate::config::content_abs_spec(cfg, doc_path@))
                && final(fs)@[crate::config::content_abs_spec(cfg, doc_path@)] == FsEntryV::File(
                vstd::utf8::encode_utf8(p.0@),
            ))
            ||| (final(fs)@.dom().contains(crate::config::hidden_abs_spec(cfg, doc_path@))
                && final(fs)@[crate::config::hidden_abs_spec(cfg, doc_path@)] == FsEntryV::File(
                vstd::utf8::encode_utf8(p.0@),
            ))
        },
        r matches Err(e) ==> e == CmsError::RemoteIo,
{
    if !manual {
        let data = text.as_bytes_vec();
        return match crate::mutate::save_file_content(fs, cfg, doc_path, data) {
            Ok(()) => Ok((String::from_str(text), Vec::new())),
            Err(e) => Err(e),
        };
    }
    let refs = parse_references(text);
    proof {
        lemma_refs_ordered(text@, 0);
    }
    let n = text.unicode_len();
    let mut out = String::new();
    let mut prev: usize = 0;
    let mut idx: usize = 0;
    let ghost m0 = fs@;
    let ghost fvg = fetched_views(fetched@);
    let ghost rsg = refs_of(text@);
    let mut stores: Vec<(String, Vec<u8>)> = Vec::new();
    proof {
        assert(out@ + save_steps(fs@, cfg, doc_path@, text@, rsg, 0, 0, fvg).1 =~= save_steps(
            m0,
            cfg,
            doc_path@,
            text@,
            rsg,
            0,
            0,
            fvg,
        ).1);
        assert(fetched_views(stores@) + save_steps(fs@, cfg, doc_path@, text@, rsg, 0, 0, fvg).2
            =~= save_steps(m0, cfg, doc_path@, text@, rsg, 0, 0, fvg).2);
    }
    let rm = refs.len();
    while idx < rm
        invariant
            fs.wf(),
            0 <= idx <= rm,
            prev <= n,
            idx < rm ==> prev <= refs@[idx as int].start,
            all_refs_own(cfg, doc_path@, text@) ==> fs@ == m0 && out@ == text@.take(prev as int),
            save_steps(m0, cfg, doc_path@, text@, rsg, 0, 0, fvg).0 == save_steps(
                fs@,
                cfg,
                doc_path@,
                text@,
                rsg,
                idx as int,
                prev as int,
                fvg,
            ).0,
            save_steps(m0, cfg, doc_path@, text@, rsg, 0, 0, fvg).1 == out@ + save_steps(
                fs@,
                cfg,
                doc_path@,
                text@,
                rsg,
                idx as int,
                prev as int,
                fvg,
            ).1,
            save_steps(m0, cfg, doc_path@, text@, rsg, 0, 0, fvg).2 == fetched_views(stores@)
                + save_steps(fs@, cfg, doc_path@, text@, rsg, idx as int, prev as int, fvg).2,
        decreases rm - idx,
    {
        let start = refs[idx].start;
        let end = refs[idx].end;
        let ghost pre_fs = fs@;
        let ghost out0 = out@;
        proof {
            assert(ref_positions(refs@)[idx as int] == rsg[idx as int]);
            assert(refs@[idx as int].target@ == text@.subrange(start as int, end as int));
        }
        out.append(text.substring_char(prev, start));
        let action = plan_ref(fs, cfg, doc_path, refs[idx].target.as_str(), fetched);
        let ghost keep_case = action is Keep;
        let ghost pre_stores = stores@;
        let ghost stepg = ({
            let t = text@.subrange(start as int, end as int);
            match ref_plan_spec(pre_fs, cfg, doc_path@, t, fvg) {
                Option::None => (pre_fs, t, Seq::<(Seq<char>, Seq<u8>)>::empty()),
                Option::Some(pl) => match pl.1 {
                    Option::None => (pre_fs, pl.0, Seq::<(Seq<char>, Seq<u8>)>::empty()),
                    Option::Some(st) => {
                        let se = store_effect(pre_fs, st.0, st.1);
                        if se.1 {
                            (se.0, pl.0, seq![(st.0, st.1)])
                        } else {
                            (se.0, t, Seq::<(Seq<char>, Seq<u8>)>::empty())
                        }
                    },
                },
            }
        });
        match action {
            RefAction::Keep => {
                out.append(text.substring_char(start, end));
            },
            RefAction::Rewrite { new_target, store } => {
                let mut stored = true;
                match store {
                    Some((phys, bytes)) => {
                        let ghost physv = phys@;
                        let ghost bytesv = bytes@;
                        let kept = clone_bytes(&bytes);
                        match fs.save_image(phys.as_str(), bytes) {
                            Ok(()) => {
                                stores.push((phys, kept));
                                proof {
                                    assert(fs@ == store_effect(pre_fs, physv, bytesv).0);
                                    assert(store_effect(pre_fs, physv, bytesv).1);
                                    assert(fetched_views(stores@) =~= fetched_views(
                                        pre_stores,
                                    ).push((physv, bytesv)));
                                }
                            },
                            Err(_) => {
                                stored = false;
                                proof {
                                    assert(fs@ == store_effect(pre_fs, physv, bytesv).0);
                                    assert(!store_effect(pre_fs, physv, bytesv).1);
                                }
                            },
                        }
                    },
                    None => {},
                }
                if stored {
                    out.append(new_target.as_str());
                } else {
                    out.append(text.substring_char(start, end));
                }
            },
        }
        proof {
            // the executed step is exactly the step of the fold
            assert(fs@ == stepg.0);
            assert(out@ =~= out0 + text@.subrange(prev as int, start as int) + stepg.1);
            assert(fetched_views(stores@) =~= fetched_views(pre_stores) + stepg.2);
            assert(save_steps(pre_fs, cfg, doc_path@, text@, rsg, idx as int, prev as int, fvg).0
                == save_steps(fs@, cfg, doc_path@, text@, rsg, idx + 1, end as int, fvg).0);
            assert(save_steps(pre_fs, cfg, doc_path@, text@, rsg, idx as int, prev as int, fvg).1
                =~= text@.subrange(prev as int, start as int) + stepg.1 + save_steps(
                fs@,
                cfg,
                doc_path@,
                text@,
                rsg,
                idx + 1,
                end as int,
                fvg,
            ).1);
            assert(save_steps(pre_fs, cfg, doc_path@, text@, rsg, idx as int, prev as int, fvg).2
                =~= stepg.2 + save_steps(fs@, cfg, doc_path@, text@, rsg, idx + 1, end as int, fvg).2);
            assert(save_steps(m0, cfg, doc_path@, text@, rsg, 0, 0, fvg).1 =~= out@ + save_steps(
                fs@,
                cfg,
                doc_path@,
                text@,
                rsg,
                idx + 1,
                end as int,
                fvg,
            ).1);
            assert(save_steps(m0, cfg, doc_path@, text@, rsg, 0, 0, fvg).2 =~= fetched_views(
                stores@,
            ) + save_steps(fs@, cfg, doc_path@, text@, rsg, idx + 1, end as int, fvg).2);
        }
        proof {
            if all_refs_own(cfg, doc_path@, text@) {
                assert(ref_positions(refs@)[idx as int] == refs_of(text@)[idx as int]);
                let tgt = text@.subrange(start as int, end as int);
                assert(own_prefix_spec(cfg, doc_path@).is_prefix_of(tgt));
                assert(refs@[idx as int].target@ == tgt);
                reveal_strlit("/");
                reveal_strlit("http://");
                reveal_strlit("https://");
                assert(!is_external_spec(tgt)) by {
                    assert(own_prefix_spec(cfg, doc_path@)[0] == '/');
                    assert(tgt[0] == '/');
                    if "http://"@.is_prefix_of(tgt) {
                        assert(tgt[0] == 'h');
                    }
                    if "https://"@.is_prefix_of(tgt) {
                        assert(tgt[0] == 'h');
                    }
                }
                assert(keep_case);
                assert(out@ =~= text@.take(end as int)) by {
                    assert(out@ == out0 + text@.subrange(prev as int, start as int)
                        + text@.subrange(start as int, end as int));
                }
            }
        }
        prev = end;
        idx += 1;
        proof {
            if idx < rm {
                assert(ref_positions(refs@)[idx - 1] == refs_of(text@)[idx - 1]);
                assert(ref_positions(refs@)[idx as int] == refs_of(text@)[idx as int]);
            }
        }
    }
    out.append(text.substring_char(prev, n));
    proof {
        if all_refs_own(cfg, doc_path@, text@) {
            assert(out@ =~= text@);
        }
        // the fold ran out of references: its text is the built text, its
        // filesystem the current one, its stores the kept ones
        assert(save_steps(fs@, cfg, doc_path@, text@, rsg, idx as int, prev as int, fvg).1
            =~= text@.skip(prev as int));
        assert(save_steps(m0, cfg, doc_path@, text@, rsg, 0, 0, fvg).0 == fs@);
        assert(save_steps(m0, cfg, doc_path@, text@, rsg, 0, 0, fvg).1 =~= out@);
        assert(save_steps(m0, cfg, doc_path@, text@, rsg, 0, 0, fvg).2 =~= fetched_views(
            stores@,
        ));
    }
    let data = out.as_str().as_bytes_vec();
    let ghost pre_write = fs@;
    match crate::mutate::save_file_content(fs, cfg, doc_path, data) {
        Ok(()) => {
            proof {
                let wt = crate::mutate::write_target_spec(pre_write, cfg, doc_path@);
                assert(fs@[wt] == FsEntryV::File(vstd::utf8::encode_utf8(out@)));
            }
            Ok((out, stores))
        },
        Err(e) => Err(e),
    }
}

/// One reference target, relocated across a move: a target carrying the
/// moved path's current-layout image prefix, or its legacy unsectioned
/// prefix, follows the move; any other target stays.
pub open spec fn moved_target(
    t: Seq<char>,
    old_sectioned: Seq<char>,
    old_legacy: Seq<char>,
    newp: Seq<char>,
) -> Seq<char> {
    if old_sectioned.is_prefix_of(t) {
        newp + t.skip(old_sectioned.len() as int)
    } else if old_legacy.is_prefix_of(t) {
        newp + t.skip(old_legacy.len() as int)
    } else {
        t
    }
}

/// The document text after the move rewrite: every reference target mapped
/// through [`moved_target`], every other byte untouched.
pub open spec fn rewrite_spec(
    s: Seq<char>,
    rs: Seq<(int, int)>,
    j: int,
    prev: int,
    old_sectioned: Seq<char>,
    old_legacy: Seq<char>,
    newp: Seq<char>,
) -> Seq<char>
    decreases rs.len() - j,
{
    if j < 0 || j >= rs.len() || !(0 <= prev <= rs[j].0 <= rs[j].1 <= s.len()) {
        s.skip(prev)
    } else {
        s.subrange(prev, rs[j].0) + moved_target(
            s.subrange(rs[j].0, rs[j].1),
            old_sectioned,
            old_legacy,
            newp,
        ) + rewrite_spec(s, rs, j + 1, rs[j].1, old_sectioned, old_legacy, newp)
    }
}

/// Rewrite every image reference to the moved logical path, in both its
/// current sectioned form and its legacy unsectioned form, to the new
/// logical path; no unrelated byte changes.
#[verifier::rlimit(60)]
#[verifier::loop_isolation(false)]
pub fn rewrite_refs(
    text: &str,
    old_sectioned: &str,
    old_legacy: &str,
    new_prefix: &str,
) -> (r: String)
    ensures
        r@ == rewrite_spec(
            text@,
            refs_of(text@),
            0,
            0,
            old_sectioned@,
            old_legacy@,
            new_prefix@,
        ),
{
    let refs = parse_references(text);
    proof {
        lemma_refs_ordered(text@, 0);
    }
    let n = text.unicode_len();
    let rm = refs.len();
    let mut out = String::new();
    let mut prev: usize = 0;
    let mut idx: usize = 0;
    while idx < rm
        invariant
            0 <= idx <= rm,
            prev <= n,
            idx < rm ==> prev <= refs@[idx as int].start,
            rewrite_spec(text@, refs_of(text@), 0, 0, old_sectioned@, old_legacy@, new_prefix@)
                == out@ + rewrite_spec(
                text@,
                refs_of(text@),
                idx as int,
                prev as int,
                old_sectioned@,
                old_legacy@,
                new_prefix@,
            ),
        decreases rm - idx,
    {
        let start = refs[idx].start;
        let end = refs[idx].end;
        let target = &refs[idx].target;
        proof {
            assert(ref_positions(refs@)[idx as int] == refs_of(text@)[idx as int]);
        }
        let ghost out0 = out@;
        out.append(text.substring_char(prev, start));
        let tn = target.as_str().unicode_len();
        if has_prefix(target.as_str(), old_sectioned) {
            let tail = substring(target.as_str(), old_sectioned.unicode_len(), tn);
            out.append(new_prefix);
            out.append(tail.as_str());
            proof {
                assert(target@.subrange(old_sectioned@.len() as int, tn as int) =~= target@.skip(
                    old_sectioned@.len() as int,
                ));
            }
        } else if has_prefix(target.as_str(), old_legacy) {
            let tail = substring(target.as_str(), old_legacy.unicode_len(), tn);
            out.append(new_prefix);
            out.append(tail.as_str());
            proof {
                assert(target@.subrange(old_legacy@.len() as int, tn as int) =~= target@.skip(
                    old_legacy@.len() as int,
                ));
            }
        } else {
            out.append(target.as_str());
        }
        proof {
            assert(target@ == text@.subrange(start as int, end as int));
            assert(out@ =~= out0 + text@.subrange(prev as int, start as int) + moved_target(
                text@.subrange(start as int, end as int),
                old_sectioned@,
                old_legacy@,
                new_prefix@,
            ));
        }
        prev = end;
        idx += 1;
        proof {
            if idx < rm {
                assert(ref_positions(refs@)[idx - 1] == refs_of(text@)[idx - 1]);
                assert(ref_positions(refs@)[idx as int] == refs_of(text@)[idx as int]);
            }
        }
    }
    out.append(text.substring_char(prev, n));
    proof {
        assert(rewrite_spec(
            text@,
            refs_of(text@),
            idx as int,
            prev as int,
            old_sectioned@,
            old_legacy@,
            new_prefix@,
        ) =~= text@.skip(prev as int));
        assert(out@ =~= rewrite_spec(
            text@,
            refs_of(text@),
            0,
            0,
            old_sectioned@,
            old_legacy@,
            new_prefix@,
        ));
    }
    out
}

/// The three logical prefixes a move rewrite works with: the moved path's
/// current sectioned image prefix, its legacy unsectioned image prefix,
/// and the destination's image prefix.
pub fn move_ref_prefixes(cfg: &HugoConfig, src: &str, dst: &str) -> (r: (String, String, String))
    ensures
        r.0@ == own_prefix_spec(cfg, src@),
        r.1@ == "/"@ + cfg.image_path@ + crate::config::strip_section(src@),
        r.2@ == own_prefix_spec(cfg, dst@),
{
    let sectioned = own_prefix(cfg, src);
    let newp = own_prefix(cfg, dst);
    let n = src.unicode_len();
    let mut j: usize = if n > 0 {
        1
    } else {
        0
    };
    while j < n && src.get_char(j) != '/'
        invariant
            0 <= j <= n,
            n == src@.len(),
            n > 0 ==> 1 <= j,
            crate::config::first_slash_from(src@, 1) == crate::config::first_slash_from(
                src@,
                j as int,
            ),
        decreases n - j,
    {
        j += 1;
    }
    let stripped = if j < n {
        substring(src, j, n)
    } else {
        proof {
            assert(src@.skip(n as int) =~= Seq::<char>::empty());
        }
        substring(src, 0, n)
    };
    proof {
        if n == 0 {
            assert(crate::config::first_slash_from(src@, 1) == n as int);
        }
        assert(src@.subrange(0, n as int) =~= src@);
    }
    let legacy = concat3("/", cfg.image_path.as_str(), stripped.as_str());
    (sectioned, legacy, newp)
}

/// A document carrying no reference to the moved path is returned
/// letter-for-letter unchanged by the move rewrite.
pub proof fn lemma_rewrite_untouched(
    s: Seq<char>,
    rs: Seq<(int, int)>,
    j: int,
    prev: int,
    old_sectioned: Seq<char>,
    old_legacy: Seq<char>,
    newp: Seq<char>,
)
    requires
        0 <= prev <= s.len(),
        forall|x: int|
            0 <= x < rs.len() ==> !old_sectioned.is_prefix_of(
                s.subrange((#[trigger] rs[x]).0, rs[x].1),
            ) && !old_legacy.is_prefix_of(s.subrange(rs[x].0, rs[x].1)),
    ensures
        rewrite_spec(s, rs, j, prev, old_sectioned, old_legacy, newp) == s.skip(prev),
    decreases rs.len() - j,
{
    if !(j < 0 || j >= rs.len() || !(0 <= prev <= rs[j].0 <= rs[j].1 <= s.len())) {
        lemma_rewrite_untouched(s, rs, j + 1, rs[j].1, old_sectioned, old_legacy, newp);
        assert(rewrite_spec(s, rs, j, prev, old_sectioned, old_legacy, newp) =~= s.skip(prev));
    }
}

/// Byte-for-byte equality.
pub fn bytes_eq(a: &Vec<u8>, b: &Vec<u8>) -> (r: bool)
    ensures
        r == (a@ == b@),
{
    let n = a.len();
    if n != b.len() {
        return false;
    }
    let mut i: usize = 0;
    while i < n
        invariant
            0 <= i <= n,
            n == a@.len(),
            n == b@.len(),
            forall|j: int| 0 <= j < i ==> a@[j] == b@[j],
        decreases n - i,
    {
        if a[i] != b[i] {
            return false;
        }
        i += 1;
    }
    proof {
        assert(a@ =~= b@);
    }
    true
}

/// Owned copy of a byte vector.
fn clone_bytes(v: &Vec<u8>) -> (r: Vec<u8>)
    ensures
        r@ == v@,
{
    let n = v.len();
    let mut out: Vec<u8> = Vec::new();
    let mut i: usize = 0;
    while i < n
        invariant
            0 <= i <= n,
            n == v@.len(),
            out@ == v@.take(i as int),
        decreases n - i,
    {
        out.push(v[i]);
        proof {
            assert(out@ =~= v@.take(i + 1));
        }
        i += 1;
    }
    proof {
        assert(v@.take(n as int) =~= v@);
    }
    out
}

} // verus!
