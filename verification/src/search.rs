//! Content search: the remote recursive text search over the document
//! extension, and the exact parse of its `path:line:text` output into
//! matches tagged hidden by their physical location.

use vstd::prelude::*;
use crate::config::{hidden_abs_spec, HugoConfig};
use crate::strutil::{concat2, concat3, find_char, first_char_from, substring};

verus! {

/// One search hit: the physical path, the line number, the matching text,
/// and whether the hit lies in the hidden staging root.
pub struct SearchMatch {
    pub path: String,
    pub line: u64,
    pub text: String,
    pub hidden: bool,
}

/// The remote command that searches every document under the content root
/// (the hidden staging root lives inside it) for the query.
pub fn search_command(cfg: &HugoConfig, query: &str) -> (r: String)
    ensures
        r@ == "grep -rn --include='*.md' -e '"@ + crate::plugins::shell_escaped(query@) + "' '"@
            + cfg.base_path@ + "/content'"@,
{
    let esc = crate::plugins::escape_single_quotes(query);
    let a = concat3("grep -rn --include='*.md' -e '", esc.as_str(), "' '");
    let b = concat3(a.as_str(), cfg.base_path.as_str(), "/content'");
    proof {
        assert(b@ =~= "grep -rn --include='*.md' -e '"@ + crate::plugins::shell_escaped(query@)
            + "' '"@ + cfg.base_path@ + "/content'"@);
    }
    b
}

/// A decimal digit.
pub open spec fn is_digit(c: char) -> bool {
    '0' <= c && c <= '9'
}

/// The value of a digit string, most significant first.
pub open spec fn digits_val(s: Seq<char>) -> nat
    decreases s.len(),
{
    if s.len() == 0 {
        0
    } else {
        digits_val(s.drop_last()) * 10 + (s.last() as u32 - '0' as u32) as nat
    }
}

/// A line-number field: nonempty, all digits, short enough to be a number.
pub open spec fn is_line_number(s: Seq<char>) -> bool {
    s.len() > 0 && s.len() <= 18 && forall|l: int| 0 <= l < s.len() ==> is_digit(#[trigger] s[l])
}

/// The matches in the search output from position `i` on: each line of the
/// shape `path:number:text` becomes one hit, tagged hidden when its path
/// lies under the hidden root; any other line is passed over.
pub open spec fn search_from(
    s: Seq<char>,
    hidden_root: Seq<char>,
    i: int,
) -> Seq<(Seq<char>, u64, Seq<char>, bool)>
    decreases s.len() - i,
{
    if i < 0 || i >= s.len() {
        Seq::empty()
    } else {
        let e = first_char_from(s, '\n', i);
        proof {
            crate::strutil::lemma_first_char_bounds(s, '\n', i);
        }
        let line = s.subrange(i, e);
        let rest = if e + 1 < s.len() {
            search_from(s, hidden_root, e + 1)
        } else {
            Seq::empty()
        };
        let c1 = first_char_from(line, ':', 0);
        let c2 = first_char_from(line, ':', c1 + 1);
        if c1 < line.len() && c2 < line.len() && is_line_number(line.subrange(c1 + 1, c2)) {
            seq![
                (
                    line.take(c1),
                    digits_val(line.subrange(c1 + 1, c2)) as u64,
                    line.skip(c2 + 1),
                    crate::fs::in_subtree(line.take(c1), hidden_root),
                ),
            ] + rest
        } else {
            rest
        }
    }
}

/// The views of parsed search matches.
pub open spec fn match_views(v: Seq<SearchMatch>) -> Seq<(Seq<char>, u64, Seq<char>, bool)> {
    v.map_values(|m: SearchMatch| (m.path@, m.line, m.text@, m.hidden))
}

/// Ten to the eighteenth fits a 64-bit number, so an 18-digit field does.
proof fn lemma_digits_bound(s: Seq<char>)
    requires
        forall|l: int| 0 <= l < s.len() ==> is_digit(#[trigger] s[l]),
        s.len() <= 18,
    ensures
        digits_val(s) < 0x10000000000000000,
{
    lemma_digits_val_pow(s);
    lemma_pow10_mono(s.len() as int, 18);
    lemma_pow10_18();
}

/// The eighteenth power of ten, written out.
proof fn lemma_pow10_18()
    ensures
        pow10(18) == 1000000000000000000,
{
    assert(pow10(0) == 1);
    assert(pow10(1) == 10);
    assert(pow10(2) == 100);
    assert(pow10(3) == 1000);
    assert(pow10(4) == 10000);
    assert(pow10(5) == 100000);
    assert(pow10(6) == 1000000);
    assert(pow10(7) == 10000000);
    assert(pow10(8) == 100000000);
    assert(pow10(9) == 1000000000);
    assert(pow10(10) == 10000000000);
    assert(pow10(11) == 100000000000);
    assert(pow10(12) == 1000000000000);
    assert(pow10(13) == 10000000000000);
    assert(pow10(14) == 100000000000000);
    assert(pow10(15) == 1000000000000000);
    assert(pow10(16) == 10000000000000000);
    assert(pow10(17) == 100000000000000000);
    assert(pow10(18) == 1000000000000000000);
}

/// Powers of ten.
pub open spec fn pow10(n: int) -> nat
    decreases n,
{
    if n <= 0 {
        1
    } else {
        10 * pow10(n - 1)
    }
}

proof fn lemma_digits_val_pow(s: Seq<char>)
    requires
        forall|l: int| 0 <= l < s.len() ==> is_digit(#[trigger] s[l]),
    ensures
        digits_val(s) < pow10(s.len() as int),
    decreases s.len(),
{
    if s.len() > 0 {
        lemma_digits_val_pow(s.drop_last());
    }
}

proof fn lemma_pow10_mono(a: int, b: int)
    requires
        a <= b,
    ensures
        pow10(a) <= pow10(b),
    decreases b - a,
{
    if a < b {
        lemma_pow10_mono(a, b - 1);
    }
}

/// Parse a digit field into its value.
fn parse_line_number(s: &str) -> (r: Option<u64>)
    ensures
        match r {
            Some(v) => is_line_number(s@) && v == digits_val(s@),
            None => !is_line_number(s@),
        },
{
    let n = s.unicode_len();
    if n == 0 || n > 18 {
        return None;
    }
    let mut v: u64 = 0;
    let mut i: usize = 0;
    while i < n
        invariant
            0 <= i <= n,
            n == s@.len(),
            n <= 18,
            forall|l: int| 0 <= l < i ==> is_digit(#[trigger] s@[l]),
            v == digits_val(s@.take(i as int)),
            v < 0x10000000000000000,
        decreases n - i,
    {
        let c = s.get_char(i);
        if !('0' <= c && c <= '9') {
            return None;
        }
        proof {
            assert(s@.take(i + 1).drop_last() =~= s@.take(i as int));
            assert(s@.take(i + 1).last() == s@[i as int]);
            assert forall|l: int| 0 <= l < i + 1 implies is_digit(#[trigger] s@[l]) by {}
            lemma_digits_bound(s@.take(i + 1));
        }
        let d = (c as u32 - '0' as u32) as u64;
        v = v * 10 + d;
        i += 1;
    }
    proof {
        assert(s@.take(n as int) =~= s@);
    }
    Some(v)
}

/// Parse the search output: one match per `path:line:text` line, in output
/// order, each tagged hidden when its path lies under the hidden root.
#[verifier::loop_isolation(false)]
pub fn search_content(output: &str, cfg: &HugoConfig) -> (r: Vec<SearchMatch>)
    ensures
        match_views(r@) == search_from(output@, hidden_abs_spec(cfg, Seq::empty()), 0),
{
    let hidden_root = {
        let a = concat3(cfg.base_path.as_str(), "/content/", cfg.hidden_path.as_str());
        proof {
            assert(a@ =~= hidden_abs_spec(cfg, Seq::empty()));
        }
        a
    };
    let n = output.unicode_len();
    let mut acc: Vec<SearchMatch> = Vec::new();
    let mut i: usize = 0;
    while i < n
        invariant
            0 <= i <= n,
            match_views(acc@) + search_from(output@, hidden_root@, i as int) == search_from(
                output@,
                hidden_root@,
                0,
            ),
        decreases n - i,
    {
        let e = find_char(output, '\n', i);
        let line = substring(output, i, e);
        let ghost pre = acc@;
        let ln = line.as_str().unicode_len();
        let c1 = find_char(line.as_str(), ':', 0);
        if c1 < ln {
            let c2 = find_char(line.as_str(), ':', c1 + 1);
            if c2 < ln {
                let numpart = substring(line.as_str(), c1 + 1, c2);
                match parse_line_number(numpart.as_str()) {
                    Some(v) => {
                        let path = substring(line.as_str(), 0, c1);
                        let text = substring(line.as_str(), c2 + 1, ln);
                        let hidden = crate::fs::path_in_subtree(
                            path.as_str(),
                            hidden_root.as_str(),
                        );
                        proof {
                            assert(line@.subrange(0, c1 as int) =~= line@.take(c1 as int));
                            assert(line@.subrange(c2 + 1, ln as int) =~= line@.skip(c2 + 1));
                        }
                        acc.push(SearchMatch { path, line: v, text, hidden });
                        proof {
                            assert(match_views(acc@) =~= match_views(pre).push(
                                (
                                    line@.take(c1 as int),
                                    digits_val(line@.subrange(c1 + 1, c2 as int)) as u64,
                                    line@.skip(c2 + 1),
                                    crate::fs::in_subtree(line@.take(c1 as int), hidden_root@),
                                ),
                            ));
                            assert(match_views(pre).push(
                                (
                                    line@.take(c1 as int),
                                    digits_val(line@.subrange(c1 + 1, c2 as int)) as u64,
                                    line@.skip(c2 + 1),
                                    crate::fs::in_subtree(line@.take(c1 as int), hidden_root@),
                                ),
                            ) + (if e + 1 < output@.len() {
                                search_from(output@, hidden_root@, e + 1)
                            } else {
                                Seq::<(Seq<char>, u64, Seq<char>, bool)>::empty()
                            }) =~= match_views(pre) + search_from(output@, hidden_root@, i as int));
                        }
                    },
                    None => {},
                }
            }
        }
        if e < n {
            i = e + 1;
        } else {
            i = n;
        }
    }
    proof {
        assert(search_from(output@, hidden_root@, i as int) =~= Seq::<(
            Seq<char>,
            u64,
            Seq<char>,
            bool,
        )>::empty());
        assert(match_views(acc@) =~= match_views(acc@) + Seq::<(
            Seq<char>,
            u64,
            Seq<char>,
            bool,
        )>::empty());
    }
    acc
}

} // verus!
