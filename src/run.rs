//! A run over configured queries: expansion of the whole list, the text
//! block of each query, the root context from the bootstrap search, and the
//! gathering of per-query outcomes in configuration order.
use vstd::prelude::*;
use vstd::string::StringExecFns;
use crate::adtime::{TimeError, TimeReference, ok_text};
use crate::render::{
    Attribute, Highlight, ResultEntry, entries_text, entry_wf, paint, painted, render, texts,
    values_in,
};
use crate::template::{Query, expand, expanded_base, expanded_filter, same_text};

verus! {

/// Why a run stopped.
#[derive(Debug, PartialEq, Eq)]
pub enum RunError {
    /// The directory reported a failure for a search.
    Search(String),
    /// A result could not be rendered.
    Time(TimeError),
}

/// Expands every query of a configuration with the same root context and
/// instants, keeping their order.
pub fn expand_all(queries: Vec<Query>, root: &str, times: &TimeReference) -> (r: Vec<Query>)
    ensures
        r@.len() == queries@.len(),
        forall|i: int|
            0 <= i < r@.len() ==> {
                &&& (#[trigger] r@[i]).name == queries@[i].name
                &&& r@[i].attr == queries@[i].attr
                &&& r@[i].base_dn@ == expanded_base(queries@[i].base_dn@, root@)
                &&& r@[i].query@ == expanded_filter(queries@[i].query@, root@, *times)
            },
{
    let ghost orig = queries@;
    let mut rest = queries;
    let mut out: Vec<Query> = Vec::new();
    while rest.len() > 0
        invariant
            out@.len() + rest@.len() == orig.len(),
            rest@ == orig.subrange(out@.len() as int, orig.len() as int),
            forall|i: int|
                0 <= i < out@.len() ==> {
                    &&& (#[trigger] out@[i]).name == orig[i].name
                    &&& out@[i].attr == orig[i].attr
                    &&& out@[i].base_dn@ == expanded_base(orig[i].base_dn@, root@)
                    &&& out@[i].query@ == expanded_filter(orig[i].query@, root@, *times)
                },
        decreases rest@.len(),
    {
        let mut q = rest.remove(0);
        expand(&mut q, root, times);
        out.push(q);
        assert(rest@ =~= orig.subrange(out@.len() as int, orig.len() as int));
    }
    out
}

/// The lines that introduce a query's results: its name, base and filter.
pub open spec fn header_text(name: Seq<char>, base: Seq<char>, filter: Seq<char>) -> Seq<char> {
    painted(Highlight::Title, name) + ":\n"@ + painted(Highlight::Detail, "Base: "@ + base)
        + "\n"@ + painted(Highlight::Detail, "Query: "@ + filter) + "\n"@
}

/// The output block of one query: its header, then its rendered results.
pub fn query_block(q: &Query, entries: &Vec<ResultEntry>) -> (r: Result<String, RunError>)
    requires
        forall|i: int| 0 <= i < entries@.len() ==> entry_wf(#[trigger] entries@[i]),
    ensures
        ok_text(r) == (match entries_text(entries@) {
            Some(t) => Some(header_text(q.name@, q.base_dn@, q.query@) + t),
            None => None,
        }),
        r is Err ==> r == Err::<String, RunError>(RunError::Time(TimeError::Parse)),
{
    let mut out = paint(Highlight::Title, q.name.as_str());
    out.append(":\n");
    let mut base = String::from_str("Base: ");
    base.append(q.base_dn.as_str());
    let base_line = paint(Highlight::Detail, base.as_str());
    out.append(base_line.as_str());
    out.append("\n");
    let mut filter = String::from_str("Query: ");
    filter.append(q.query.as_str());
    let filter_line = paint(Highlight::Detail, filter.as_str());
    out.append(filter_line.as_str());
    out.append("\n");
    assert(out@ =~= header_text(q.name@, q.base_dn@, q.query@));
    match render(entries) {
        Ok(t) => {
            out.append(t.as_str());
            Ok(out)
        },
        Err(e) => Err(RunError::Time(e)),
    }
}

/// The attribute that names the root context in the bootstrap search.
pub open spec fn root_attribute() -> Seq<char> {
    "rootDomainNamingContext"@
}

/// The root context: the first value of the root attribute of the last
/// entry that the bootstrap search returned.
pub open spec fn root_context_spec(es: Seq<ResultEntry>) -> Option<Seq<char>> {
    if es.len() == 0 {
        None
    } else {
        let v = values_in(es.last().attrs@, root_attribute());
        if v.len() == 0 {
            None
        } else {
            Some(v[0])
        }
    }
}

fn find_values(attrs: &Vec<Attribute>, name: &str) -> (r: Option<usize>)
    ensures
        r matches Some(i) ==> i < attrs@.len() && values_in(attrs@, name@) == texts(
            attrs@[i as int].values@,
        ),
        r is None ==> values_in(attrs@, name@) == Seq::<Seq<char>>::empty(),
{
    let mut k = attrs.len();
    assert(attrs@.subrange(0, k as int) =~= attrs@);
    while k > 0
        invariant
            k <= attrs@.len(),
            values_in(attrs@.subrange(0, k as int), name@) == values_in(attrs@, name@),
        decreases k,
    {
        let ghost sub = attrs@.subrange(0, k as int);
        assert(sub.last() == attrs@[k - 1]);
        if same_text(attrs[k - 1].name.as_str(), name) {
            return Some(k - 1);
        }
        assert(sub.drop_last() =~= attrs@.subrange(0, k - 1));
        k = k - 1;
    }
    None
}

/// Reads the root context out of the bootstrap search's entries; `None`
/// where there is no entry, or the last one has no value for the root
/// attribute.
pub fn root_context(entries: &Vec<ResultEntry>) -> (r: Option<String>)
    ensures
        match r {
            Some(s) => root_context_spec(entries@) == Some(s@),
            None => root_context_spec(entries@) is None,
        },
{
    let n = entries.len();
    if n == 0 {
        return None;
    }
    let last = &entries[n - 1];
    assert(entries@.last() == entries@[n - 1]);
    match find_values(&last.attrs, "rootDomainNamingContext") {
        Some(i) => {
            if last.attrs[i].values.len() == 0 {
                None
            } else {
                Some(last.attrs[i].values[0].clone())
            }
        },
        None => None,
    }
}

/// Every outcome succeeded.
pub open spec fn all_ok(rs: Seq<Result<String, RunError>>) -> bool {
    forall|i: int| 0 <= i < rs.len() ==> (#[trigger] rs[i]) is Ok
}

/// `k` is the first failed outcome.
pub open spec fn first_failure(rs: Seq<Result<String, RunError>>, k: int) -> bool {
    &&& 0 <= k < rs.len()
    &&& rs[k] is Err
    &&& forall|i: int| 0 <= i < k ==> (#[trigger] rs[i]) is Ok
}

/// Gathers the outcomes of a batch, given in configuration order: all the
/// outputs in that order, or the first failure and no output.
pub fn collect_outputs(results: Vec<Result<String, RunError>>) -> (r: Result<Vec<String>, RunError>)
    ensures
        all_ok(results@) ==> (r matches Ok(v) && v@.len() == results@.len() && forall|i: int|
            0 <= i < v@.len() ==> Ok::<String, RunError>(#[trigger] v@[i]) == results@[i]),
        !all_ok(results@) ==> exists|k: int|
            first_failure(results@, k) && r == Err::<Vec<String>, RunError>(results@[k]->Err_0),
{
    let ghost orig = results@;
    let mut rest = results;
    let mut out: Vec<String> = Vec::new();
    while rest.len() > 0
        invariant
            orig == results@,
            out@.len() + rest@.len() == orig.len(),
            rest@ == orig.subrange(out@.len() as int, orig.len() as int),
            forall|i: int|
                0 <= i < out@.len() ==> Ok::<String, RunError>(#[trigger] out@[i]) == orig[i],
        decreases rest@.len(),
    {
        let ghost k = out@.len() as int;
        assert(rest@[0] == orig[k]);
        match rest.remove(0) {
            Ok(s) => {
                out.push(s);
            },
            Err(e) => {
                assert forall|i: int| 0 <= i < k implies (#[trigger] orig[i]) is Ok by {
                    assert(Ok::<String, RunError>(out@[i]) == orig[i]);
                }
                assert(first_failure(orig, k));
                assert(orig[k]->Err_0 == e);
                assert(!all_ok(orig));
                return Err(e);
            },
        }
        assert(rest@ =~= orig.subrange(out@.len() as int, orig.len() as int));
    }
    assert forall|i: int| 0 <= i < orig.len() implies (#[trigger] orig[i]) is Ok by {
        assert(Ok::<String, RunError>(out@[i]) == orig[i]);
    }
    Ok(out)
}

} // verus!
