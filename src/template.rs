//! Query templates: base-location completion and placeholder substitution.
use vstd::prelude::*;
use vstd::string::StrSliceExecFns;
use vstd::string::StringExecFns;
use crate::adtime::{TimeReference, decimal_text, to_decimal};

verus! {

/// `p` occurs in `s` at position `i`.
pub open spec fn occurs_at(s: Seq<char>, p: Seq<char>, i: int) -> bool {
    0 <= i && i + p.len() <= s.len() && s.subrange(i, i + p.len()) == p
}

/// `p` occurs somewhere in `s`.
pub open spec fn contains_text(s: Seq<char>, p: Seq<char>) -> bool {
    exists|i: int| occurs_at(s, p, i)
}

/// Left-to-right replacement of every non-overlapping occurrence of a
/// non-empty `p` in `s` by `r`.
pub open spec fn replace_all(s: Seq<char>, p: Seq<char>, r: Seq<char>) -> Seq<char>
    decreases s.len(),
{
    if p.len() == 0 || s.len() == 0 {
        s
    } else if occurs_at(s, p, 0) {
        r + replace_all(s.subrange(p.len() as int, s.len() as int), p, r)
    } else {
        seq![s[0]] + replace_all(s.drop_first(), p, r)
    }
}

/// A text in which `p` does not occur is left as it is.
pub proof fn lemma_replace_absent(s: Seq<char>, p: Seq<char>, r: Seq<char>)
    requires
        !contains_text(s, p),
    ensures
        replace_all(s, p, r) == s,
    decreases s.len(),
{
    if p.len() == 0 || s.len() == 0 {
    } else {
        assert(!occurs_at(s, p, 0));
        let t = s.drop_first();
        assert forall|i: int| !occurs_at(t, p, i) by {
            if occurs_at(t, p, i) {
                assert(t.subrange(i, i + p.len()) =~= s.subrange(i + 1, i + 1 + p.len()));
                assert(occurs_at(s, p, i + 1));
            }
        }
        lemma_replace_absent(t, p, r);
        assert(seq![s[0]] + t =~= s);
    }
}

fn occurs_at_exec(s: &str, n: usize, p: &str, m: usize, i: usize) -> (b: bool)
    requires
        n == s@.len(),
        m == p@.len(),
        i <= n,
    ensures
        b == occurs_at(s@, p@, i as int),
{
    if m > n - i {
        return false;
    }
    let mut j: usize = 0;
    while j < m
        invariant
            n == s@.len(),
            m == p@.len(),
            i + m <= n,
            j <= m,
            forall|k: int| 0 <= k < j ==> s@[i + k] == p@[k],
        decreases m - j,
    {
        if s.get_char(i + j) != p.get_char(j) {
            assert(s@.subrange(i as int, i + m)[j as int] != p@[j as int]);
            return false;
        }
        j = j + 1;
    }
    assert(s@.subrange(i as int, i + m) =~= p@);
    true
}

/// Compares two texts character by character.
pub fn same_text(a: &str, b: &str) -> (r: bool)
    ensures
        r == (a@ == b@),
{
    let n = a.unicode_len();
    let m = b.unicode_len();
    if n != m {
        return false;
    }
    let r = occurs_at_exec(a, n, b, m, 0);
    assert(a@.subrange(0, m as int) =~= a@);
    r
}

/// Replaces every non-overlapping occurrence of `p` in `s`, left to right.
pub fn replace_text(s: &str, p: &str, r: &str) -> (out: String)
    requires
        p@.len() > 0,
    ensures
        out@ == replace_all(s@, p@, r@),
{
    let n = s.unicode_len();
    let m = p.unicode_len();
    let mut out = String::new();
    let mut i: usize = 0;
    assert(s@.subrange(0, n as int) =~= s@);
    assert(out@ + replace_all(s@, p@, r@) =~= replace_all(s@, p@, r@));
    while i < n
        invariant
            n == s@.len(),
            m == p@.len(),
            m > 0,
            i <= n,
            out@ + replace_all(s@.subrange(i as int, n as int), p@, r@) == replace_all(
                s@,
                p@,
                r@,
            ),
        decreases n - i,
    {
        let ghost rest = s@.subrange(i as int, n as int);
        let ghost before = out@;
        if occurs_at_exec(s, n, p, m, i) {
            assert(rest.subrange(0, m as int) =~= s@.subrange(i as int, i + m));
            assert(rest.subrange(m as int, rest.len() as int) =~= s@.subrange(i + m, n as int));
            out.append(r);
            i = i + m;
            assert(before + replace_all(rest, p@, r@) =~= out@ + replace_all(
                s@.subrange(i as int, n as int),
                p@,
                r@,
            ));
        } else {
            proof {
                if m <= rest.len() {
                    assert(rest.subrange(0, m as int) =~= s@.subrange(i as int, i + m));
                }
            }
            assert(rest.drop_first() =~= s@.subrange(i + 1, n as int));
            let piece = s.substring_char(i, i + 1);
            out.append(piece);
            assert(piece@ =~= seq![rest[0]]);
            i = i + 1;
            assert(before + replace_all(rest, p@, r@) =~= out@ + replace_all(
                s@.subrange(i as int, n as int),
                p@,
                r@,
            ));
        }
    }
    assert(replace_all(s@.subrange(n as int, n as int), p@, r@) =~= Seq::<char>::empty());
    assert(out@ + Seq::<char>::empty() =~= out@);
    out
}

/// A search template read from the configuration.
#[derive(Debug)]
pub struct Query {
    /// Display label.
    pub name: String,
    /// Location to search under, relative to the root context or empty.
    pub base_dn: String,
    /// Search filter, possibly holding placeholder tokens.
    pub query: String,
    /// Attribute names to request; `*` requests all.
    pub attr: Vec<String>,
}

/// The separator between the parts of a location.
pub open spec fn separator() -> char {
    ','
}

/// A base location completed with the root context.
pub open spec fn expanded_base(base: Seq<char>, root: Seq<char>) -> Seq<char> {
    if base.len() == 0 {
        root
    } else if base.last() == separator() {
        base + root
    } else {
        base.push(separator()) + root
    }
}

pub open spec fn target_token() -> Seq<char> {
    "[TARGETDN]"@
}

pub open spec fn year_token() -> Seq<char> {
    "[-1YEAR]"@
}

pub open spec fn month_token() -> Seq<char> {
    "[-30DAYS]"@
}

pub open spec fn week_token() -> Seq<char> {
    "[-7DAYS]"@
}

/// A filter with its placeholders replaced, in the order target, year,
/// thirty days, seven days.
pub open spec fn expanded_filter(f: Seq<char>, root: Seq<char>, t: TimeReference) -> Seq<char> {
    let a = replace_all(f, target_token(), root);
    let b = replace_all(a, year_token(), decimal_text(t.one_year_ago as nat));
    let c = replace_all(b, month_token(), decimal_text(t.thirty_days_ago as nat));
    replace_all(c, week_token(), decimal_text(t.seven_days_ago as nat))
}

/// A filter without placeholder tokens comes out of expansion unchanged.
pub proof fn lemma_expand_plain_filter(f: Seq<char>, root: Seq<char>, t: TimeReference)
    requires
        !contains_text(f, target_token()),
        !contains_text(f, year_token()),
        !contains_text(f, month_token()),
        !contains_text(f, week_token()),
    ensures
        expanded_filter(f, root, t) == f,
{
    lemma_replace_absent(f, target_token(), root);
    lemma_replace_absent(f, year_token(), decimal_text(t.one_year_ago as nat));
    lemma_replace_absent(f, month_token(), decimal_text(t.thirty_days_ago as nat));
    lemma_replace_absent(f, week_token(), decimal_text(t.seven_days_ago as nat));
}

/// Completes the base location with the root context and substitutes the
/// placeholder tokens of the filter.
pub fn expand(q: &mut Query, root: &str, times: &TimeReference)
    ensures
        final(q).name == old(q).name,
        final(q).attr == old(q).attr,
        final(q).base_dn@ == expanded_base(old(q).base_dn@, root@),
        final(q).query@ == expanded_filter(old(q).query@, root@, *times),
{
    let len = q.base_dn.as_str().unicode_len();
    if len > 0 && q.base_dn.as_str().get_char(len - 1) != ',' {
        q.base_dn.append(",");
    }
    q.base_dn.append(root);
    proof {
        reveal_strlit("[TARGETDN]");
        reveal_strlit("[-1YEAR]");
        reveal_strlit("[-30DAYS]");
        reveal_strlit("[-7DAYS]");
        reveal_strlit(",");
        assert(expanded_base(old(q).base_dn@, root@) =~= q.base_dn@);
    }
    let year = to_decimal(times.one_year_ago);
    let month = to_decimal(times.thirty_days_ago);
    let week = to_decimal(times.seven_days_ago);
    let a = replace_text(q.query.as_str(), "[TARGETDN]", root);
    let b = replace_text(a.as_str(), "[-1YEAR]", year.as_str());
    let c = replace_text(b.as_str(), "[-30DAYS]", month.as_str());
    let d = replace_text(c.as_str(), "[-7DAYS]", week.as_str());
    q.query = d;
}

} // verus!
