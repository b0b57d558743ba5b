//! Rendering of search results as text, with time-valued attributes decoded.
use vstd::prelude::*;
use vstd::string::StringExecFns;
use itertools::Itertools;
use crate::adtime::{TimeError, decode_text, decode_value_spec, ok_text};
use crate::template::same_text;

verus! {

/// One attribute of a directory object, with its values in the order received.
#[derive(Debug)]
pub struct Attribute {
    pub name: String,
    pub values: Vec<String>,
}

/// One directory object returned by a search.
#[derive(Debug)]
pub struct ResultEntry {
    /// The object's location.
    pub dn: String,
    /// Its attributes, each name at most once, in no particular order.
    pub attrs: Vec<Attribute>,
}

/// The texts of a sequence of strings.
pub open spec fn texts(v: Seq<String>) -> Seq<Seq<char>> {
    v.map_values(|s: String| s@)
}

/// The attribute names of an entry, in stored order.
pub open spec fn names_of(attrs: Seq<Attribute>) -> Seq<Seq<char>> {
    attrs.map_values(|a: Attribute| a.name@)
}

/// Each attribute name occurs once.
pub open spec fn entry_wf(e: ResultEntry) -> bool {
    names_of(e.attrs@).no_duplicates()
}

/// Strict lexicographic order on texts, by code point.
pub open spec fn text_lt(a: Seq<char>, b: Seq<char>) -> bool
    decreases a.len(),
{
    if a.len() == 0 {
        b.len() > 0
    } else if b.len() == 0 {
        false
    } else if a[0] < b[0] {
        true
    } else if a[0] == b[0] {
        text_lt(a.drop_first(), b.drop_first())
    } else {
        false
    }
}

pub open spec fn text_le(a: Seq<char>, b: Seq<char>) -> bool {
    a == b || text_lt(a, b)
}

proof fn lemma_lt_irreflexive(a: Seq<char>)
    ensures
        !text_lt(a, a),
    decreases a.len(),
{
    if a.len() > 0 {
        lemma_lt_irreflexive(a.drop_first());
    }
}

proof fn lemma_lt_asymmetric(a: Seq<char>, b: Seq<char>)
    ensures
        !(text_lt(a, b) && text_lt(b, a)),
    decreases a.len(),
{
    if a.len() > 0 && b.len() > 0 {
        lemma_lt_asymmetric(a.drop_first(), b.drop_first());
    }
}

/// `ns` lists the texts of `s` in strictly increasing order.
pub open spec fn sorted_listing(s: Set<Seq<char>>, ns: Seq<Seq<char>>) -> bool {
    &&& ns.to_set() == s
    &&& forall|i: int, j: int| 0 <= i < j < ns.len() ==> text_lt(#[trigger] ns[i], #[trigger] ns[j])
}

proof fn lemma_sorted_listing_unique(s: Set<Seq<char>>, a: Seq<Seq<char>>, b: Seq<Seq<char>>)
    requires
        sorted_listing(s, a),
        sorted_listing(s, b),
    ensures
        a == b,
    decreases a.len(),
{
    if a.len() == 0 {
        if b.len() > 0 {
            assert(b.to_set().contains(b[0]));
        }
        assert(a =~= b);
    } else {
        assert(a.to_set().contains(a[0]));
        if b.len() == 0 {
            assert(false);
        }
        assert(b.to_set().contains(b[0]));
        let i = choose|i: int| 0 <= i < a.len() && a[i] == b[0];
        let j = choose|j: int| 0 <= j < b.len() && b[j] == a[0];
        if j > 0 {
            assert(text_lt(b[0], b[j]));
            if i > 0 {
                assert(text_lt(a[0], a[i]));
                lemma_lt_asymmetric(a[0], b[0]);
            } else {
                lemma_lt_irreflexive(a[0]);
            }
        }
        assert(a[0] == b[0]);
        let a1 = a.drop_first();
        let b1 = b.drop_first();
        assert forall|x: Seq<char>| a1.to_set().contains(x) implies b1.to_set().contains(x) by {
            let k = choose|k: int| 0 <= k < a1.len() && a1[k] == x;
            assert(a.to_set().contains(a[k + 1]));
            let m = choose|m: int| 0 <= m < b.len() && b[m] == x;
            if m == 0 {
                assert(text_lt(a[0], a[k + 1]));
                lemma_lt_irreflexive(x);
            }
            assert(b1[m - 1] == x);
        }
        assert forall|x: Seq<char>| b1.to_set().contains(x) implies a1.to_set().contains(x) by {
            let k = choose|k: int| 0 <= k < b1.len() && b1[k] == x;
            assert(b.to_set().contains(b[k + 1]));
            let m = choose|m: int| 0 <= m < a.len() && a[m] == x;
            if m == 0 {
                assert(text_lt(b[0], b[k + 1]));
                lemma_lt_irreflexive(x);
            }
            assert(a1[m - 1] == x);
        }
        assert(a1.to_set() =~= b1.to_set());
        assert forall|i: int, j: int| 0 <= i < j < a1.len() implies text_lt(
            #[trigger] a1[i],
            #[trigger] a1[j],
        ) by {
            assert(text_lt(a[i + 1], a[j + 1]));
        }
        assert forall|i: int, j: int| 0 <= i < j < b1.len() implies text_lt(
            #[trigger] b1[i],
            #[trigger] b1[j],
        ) by {
            assert(text_lt(b[i + 1], b[j + 1]));
        }
        lemma_sorted_listing_unique(a1.to_set(), a1, b1);
        assert(a =~= seq![a[0]] + a1);
        assert(b =~= seq![b[0]] + b1);
    }
}

/// Relies on itertools' `Itertools::sorted`, which collects the items and
/// sorts them with `Vec::sort`: the same strings, in ascending order. `String`
/// compares by UTF-8 bytes, which orders as code points do.
#[verifier::external_body]
fn sorted_strings(v: Vec<String>) -> (r: Vec<String>)
    ensures
        texts(r@).to_multiset() == texts(v@).to_multiset(),
        forall|i: int, j: int|
            0 <= i < j < r@.len() ==> text_le(#[trigger] r@[i]@, #[trigger] r@[j]@),
{
    v.into_iter().sorted().collect()
}

/// The highlighting of a line of output.
#[derive(Debug, Clone, Copy, PartialEq, Eq, Structural)]
pub enum Highlight {
    /// Bold cyan: an object's location.
    Location,
    /// Bold underlined purple: a query's name.
    Title,
    /// Purple: a query's base and filter.
    Detail,
}

/// The escape sequence that opens a highlight.
pub open spec fn style_open(h: Highlight) -> Seq<char> {
    match h {
        Highlight::Location => "\x1b[1;36m"@,
        Highlight::Title => "\x1b[1;4;35m"@,
        Highlight::Detail => "\x1b[35m"@,
    }
}

/// A text wrapped in its highlight and the reset sequence.
pub open spec fn painted(h: Highlight, s: Seq<char>) -> Seq<char> {
    style_open(h) + s + "\x1b[0m"@
}

/// Relies on ansi_term's `Style::paint` and the `Display` of the painted
/// string: the style's prefix (`ESC [`, the codes for bold, then underline,
/// then the foreground colour, joined by `;`, then `m`), the text, and `ESC [0m`.
#[verifier::external_body]
pub(crate) fn paint(h: Highlight, s: &str) -> (r: String)
    ensures
        r@ == painted(h, s@),
{
    let style = match h {
        Highlight::Location => ansi_term::Colour::Cyan.bold(),
        Highlight::Title => ansi_term::Colour::Purple.underline().bold(),
        Highlight::Detail => ansi_term::Colour::Purple.normal(),
    };
    style.paint(s).to_string()
}

/// The attributes whose values are tick counts.
pub open spec fn is_time_attribute(n: Seq<char>) -> bool {
    ||| n == "pwdLastSet"@
    ||| n == "LastPwdSet"@
    ||| n == "accountExpires"@
    ||| n == "LastLogon"@
    ||| n == "LastLogonTimestamp"@
}

/// Tells whether an attribute's values are tick counts.
pub fn is_time_name(n: &str) -> (r: bool)
    ensures
        r == is_time_attribute(n@),
{
    same_text(n, "pwdLastSet") || same_text(n, "LastPwdSet") || same_text(n, "accountExpires")
        || same_text(n, "LastLogon") || same_text(n, "LastLogonTimestamp")
}

/// How one value of an attribute is shown.
pub open spec fn value_text(name: Seq<char>, v: Seq<char>) -> Option<Seq<char>> {
    if is_time_attribute(name) {
        decode_value_spec(v)
    } else {
        Some(v)
    }
}

/// One line `name: value` per value.
pub open spec fn value_lines(name: Seq<char>, vs: Seq<Seq<char>>) -> Option<Seq<char>>
    decreases vs.len(),
{
    if vs.len() == 0 {
        Some(Seq::empty())
    } else {
        match (value_lines(name, vs.drop_last()), value_text(name, vs.last())) {
            (Some(a), Some(t)) => Some(a + name + ": "@ + t + "\n"@),
            _ => None,
        }
    }
}

proof fn lemma_value_lines_prefix(name: Seq<char>, vs: Seq<Seq<char>>, k: int)
    requires
        0 <= k <= vs.len(),
        value_lines(name, vs.subrange(0, k)) is None,
    ensures
        value_lines(name, vs) is None,
    decreases vs.len() - k,
{
    if k < vs.len() {
        assert(vs.subrange(0, k + 1).drop_last() =~= vs.subrange(0, k));
        lemma_value_lines_prefix(name, vs, k + 1);
    } else {
        assert(vs.subrange(0, k) =~= vs);
    }
}

/// The values of the attribute named `name`: those of the last attribute
/// so named, the names being unique in a well-formed entry.
pub open spec fn values_in(attrs: Seq<Attribute>, name: Seq<char>) -> Seq<Seq<char>>
    decreases attrs.len(),
{
    if attrs.len() == 0 {
        Seq::empty()
    } else if attrs.last().name@ == name {
        texts(attrs.last().values@)
    } else {
        values_in(attrs.drop_last(), name)
    }
}

pub open spec fn values_of(e: ResultEntry, name: Seq<char>) -> Seq<Seq<char>> {
    values_in(e.attrs@, name)
}

proof fn lemma_values_at(attrs: Seq<Attribute>, i: int)
    requires
        names_of(attrs).no_duplicates(),
        0 <= i < attrs.len(),
    ensures
        values_in(attrs, attrs[i].name@) == texts(attrs[i].values@),
    decreases attrs.len(),
{
    let last = attrs.len() - 1;
    if i != last {
        assert(names_of(attrs)[i] == attrs[i].name@);
        assert(names_of(attrs)[last] == attrs[last].name@);
        let rest = attrs.drop_last();
        assert(names_of(rest) =~= names_of(attrs).drop_last());
        assert(rest[i] == attrs[i]);
        lemma_values_at(rest, i);
    }
}

/// The attribute names of an entry in increasing order.
pub open spec fn attr_order(e: ResultEntry) -> Seq<Seq<char>> {
    choose|ns: Seq<Seq<char>>| sorted_listing(names_of(e.attrs@).to_set(), ns)
}

/// The lines of the attributes named in `ns`, in that order.
pub open spec fn attrs_text(e: ResultEntry, ns: Seq<Seq<char>>) -> Option<Seq<char>>
    decreases ns.len(),
{
    if ns.len() == 0 {
        Some(Seq::empty())
    } else {
        match (attrs_text(e, ns.drop_last()), value_lines(ns.last(), values_of(e, ns.last()))) {
            (Some(a), Some(b)) => Some(a + b),
            _ => None,
        }
    }
}

proof fn lemma_attrs_text_prefix(e: ResultEntry, ns: Seq<Seq<char>>, k: int)
    requires
        0 <= k <= ns.len(),
        attrs_text(e, ns.subrange(0, k)) is None,
    ensures
        attrs_text(e, ns) is None,
    decreases ns.len() - k,
{
    if k < ns.len() {
        assert(ns.subrange(0, k + 1).drop_last() =~= ns.subrange(0, k));
        lemma_attrs_text_prefix(e, ns, k + 1);
    } else {
        assert(ns.subrange(0, k) =~= ns);
    }
}

/// The text of an entry: its location, its attributes by increasing name,
/// and a blank line.
pub open spec fn entry_text(e: ResultEntry) -> Option<Seq<char>> {
    match attrs_text(e, attr_order(e)) {
        Some(a) => Some(painted(Highlight::Location, e.dn@) + "\n"@ + a + "\n"@),
        None => None,
    }
}

/// The texts of entries, one after the other.
pub open spec fn entries_text(es: Seq<ResultEntry>) -> Option<Seq<char>>
    decreases es.len(),
{
    if es.len() == 0 {
        Some(Seq::empty())
    } else {
        match (entries_text(es.drop_last()), entry_text(es.last())) {
            (Some(a), Some(b)) => Some(a + b),
            _ => None,
        }
    }
}

proof fn lemma_entries_text_prefix(es: Seq<ResultEntry>, k: int)
    requires
        0 <= k <= es.len(),
        entries_text(es.subrange(0, k)) is None,
    ensures
        entries_text(es) is None,
    decreases es.len() - k,
{
    if k < es.len() {
        assert(es.subrange(0, k + 1).drop_last() =~= es.subrange(0, k));
        lemma_entries_text_prefix(es, k + 1);
    } else {
        assert(es.subrange(0, k) =~= es);
    }
}

/// Appends one line per value of an attribute, decoding tick counts.
fn render_values(out: &mut String, name: &str, values: &Vec<String>) -> (r: Result<(), TimeError>)
    ensures
        value_lines(name@, texts(values@)) is Some ==> r is Ok && final(out)@ == old(out)@
            + value_lines(name@, texts(values@))->0,
        value_lines(name@, texts(values@)) is None ==> r == Err::<(), TimeError>(TimeError::Parse),
{
    let time = is_time_name(name);
    let ghost start = out@;
    let ghost vs = texts(values@);
    let ghost mut acc: Seq<char> = Seq::empty();
    let mut j: usize = 0;
    assert(vs.subrange(0, 0) =~= Seq::<Seq<char>>::empty());
    while j < values.len()
        invariant
            vs == texts(values@),
            time == is_time_attribute(name@),
            j <= values@.len(),
            value_lines(name@, vs.subrange(0, j as int)) == Some(acc),
            out@ == start + acc,
        decreases values@.len() - j,
    {
        assert(vs.subrange(0, j + 1).drop_last() =~= vs.subrange(0, j as int));
        assert(vs.subrange(0, j + 1).last() == values@[j as int]@);
        let text = if time {
            match decode_text(values[j].as_str()) {
                Ok(t) => t,
                Err(_) => {
                    proof {
                        lemma_value_lines_prefix(name@, vs, j + 1);
                    }
                    return Err(TimeError::Parse);
                },
            }
        } else {
            values[j].clone()
        };
        out.append(name);
        out.append(": ");
        out.append(text.as_str());
        out.append("\n");
        proof {
            acc = acc + name@ + ": "@ + text@ + "\n"@;
            assert(out@ =~= start + acc);
        }
        j = j + 1;
    }
    assert(vs.subrange(0, j as int) =~= vs);
    Ok(())
}

/// The position of the attribute named `name`.
fn find_attr(e: &ResultEntry, name: &str) -> (i: usize)
    requires
        names_of(e.attrs@).contains(name@),
    ensures
        i < e.attrs@.len(),
        e.attrs@[i as int].name@ == name@,
{
    let mut i: usize = 0;
    while i < e.attrs.len()
        invariant
            i <= e.attrs@.len(),
            forall|k: int| 0 <= k < i ==> e.attrs@[k].name@ != name@,
        decreases e.attrs@.len() - i,
    {
        if same_text(e.attrs[i].name.as_str(), name) {
            return i;
        }
        i = i + 1;
    }
    proof {
        let k = choose|k: int| 0 <= k < names_of(e.attrs@).len() && names_of(e.attrs@)[k] == name@;
        assert(e.attrs@[k].name@ == name@);
    }
    0
}

/// The attribute names of an entry, sorted, are its one increasing listing.
fn sorted_names(e: &ResultEntry) -> (r: Vec<String>)
    requires
        entry_wf(*e),
    ensures
        texts(r@) == attr_order(*e),
        sorted_listing(names_of(e.attrs@).to_set(), attr_order(*e)),
{
    let mut names: Vec<String> = Vec::new();
    let mut i: usize = 0;
    while i < e.attrs.len()
        invariant
            i <= e.attrs@.len(),
            names@.len() == i,
            forall|k: int| 0 <= k < i ==> (#[trigger] names@[k])@ == e.attrs@[k].name@,
        decreases e.attrs@.len() - i,
    {
        names.push(e.attrs[i].name.clone());
        i = i + 1;
    }
    assert(texts(names@) =~= names_of(e.attrs@));
    let sorted = sorted_strings(names);
    proof {
        broadcast use vstd::seq_lib::group_to_multiset_ensures;

        let orig = names_of(e.attrs@);
        let ns = texts(sorted@);
        orig.lemma_multiset_has_no_duplicates();
        ns.lemma_multiset_has_no_duplicates_conv();
        assert forall|x: Seq<char>| ns.to_set().contains(x) == orig.to_set().contains(x) by {
            assert(ns.contains(x) == (ns.to_multiset().count(x) > 0));
            assert(orig.contains(x) == (orig.to_multiset().count(x) > 0));
        }
        assert(ns.to_set() =~= orig.to_set());
        assert forall|i: int, j: int| 0 <= i < j < ns.len() implies text_lt(
            #[trigger] ns[i],
            #[trigger] ns[j],
        ) by {
            assert(text_le(sorted@[i]@, sorted@[j]@));
        }
        assert(sorted_listing(orig.to_set(), ns));
        lemma_sorted_listing_unique(orig.to_set(), ns, attr_order(*e));
    }
    sorted
}

/// Renders one entry: its highlighted location, then `name: value` lines by
/// increasing attribute name, tick counts decoded, then a blank line. Fails
/// where a time-valued attribute holds a value that does not decode.
pub fn render_entry(e: &ResultEntry) -> (r: Result<String, TimeError>)
    requires
        entry_wf(*e),
    ensures
        ok_text(r) == entry_text(*e),
        r is Err ==> r == Err::<String, TimeError>(TimeError::Parse),
        sorted_listing(names_of(e.attrs@).to_set(), attr_order(*e)),
{
    let sorted = sorted_names(e);
    let ghost ns = texts(sorted@);
    let mut out = paint(Highlight::Location, e.dn.as_str());
    out.append("\n");
    let ghost head = out@;
    let ghost mut acc: Seq<char> = Seq::empty();
    let mut k: usize = 0;
    assert(ns.subrange(0, 0) =~= Seq::<Seq<char>>::empty());
    while k < sorted.len()
        invariant
            entry_wf(*e),
            ns == texts(sorted@),
            ns == attr_order(*e),
            sorted_listing(names_of(e.attrs@).to_set(), ns),
            k <= sorted@.len(),
            attrs_text(*e, ns.subrange(0, k as int)) == Some(acc),
            out@ == head + acc,
        decreases sorted@.len() - k,
    {
        let ghost name = ns[k as int];
        assert(ns.to_set().contains(name));
        assert(names_of(e.attrs@).to_set().contains(name));
        let idx = find_attr(e, sorted[k].as_str());
        proof {
            lemma_values_at(e.attrs@, idx as int);
            assert(ns.subrange(0, k + 1).drop_last() =~= ns.subrange(0, k as int));
            assert(ns.subrange(0, k + 1).last() == name);
        }
        let ghost before = out@;
        match render_values(&mut out, sorted[k].as_str(), &e.attrs[idx].values) {
            Ok(()) => {},
            Err(_) => {
                proof {
                    lemma_attrs_text_prefix(*e, ns, k + 1);
                }
                return Err(TimeError::Parse);
            },
        }
        proof {
            acc = acc + value_lines(name, values_of(*e, name))->0;
            assert(out@ =~= head + acc);
        }
        k = k + 1;
    }
    assert(ns.subrange(0, k as int) =~= ns);
    out.append("\n");
    Ok(out)
}

/// Renders entries one after the other, in the order given.
pub fn render(entries: &Vec<ResultEntry>) -> (r: Result<String, TimeError>)
    requires
        forall|i: int| 0 <= i < entries@.len() ==> entry_wf(#[trigger] entries@[i]),
    ensures
        ok_text(r) == entries_text(entries@),
        r is Err ==> r == Err::<String, TimeError>(TimeError::Parse),
{
    let mut out = String::new();
    let ghost es = entries@;
    let mut k: usize = 0;
    assert(es.subrange(0, 0) =~= Seq::<ResultEntry>::empty());
    while k < entries.len()
        invariant
            es == entries@,
            forall|i: int| 0 <= i < es.len() ==> entry_wf(#[trigger] es[i]),
            k <= es.len(),
            entries_text(es.subrange(0, k as int)) == Some(out@),
        decreases es.len() - k,
    {
        assert(es.subrange(0, k + 1).drop_last() =~= es.subrange(0, k as int));
        assert(es.subrange(0, k + 1).last() == es[k as int]);
        match render_entry(&entries[k]) {
            Ok(t) => {
                out.append(t.as_str());
            },
            Err(_) => {
                proof {
                    lemma_entries_text_prefix(es, k + 1);
                }
                return Err(TimeError::Parse);
            },
        }
        k = k + 1;
    }
    assert(es.subrange(0, k as int) =~= es);
    Ok(out)
}

proof fn lemma_values_absent(attrs: Seq<Attribute>, n: Seq<char>)
    requires
        !names_of(attrs).contains(n),
    ensures
        values_in(attrs, n) == Seq::<Seq<char>>::empty(),
    decreases attrs.len(),
{
    if attrs.len() > 0 {
        let last = attrs.len() - 1;
        assert(names_of(attrs)[last] == attrs[last].name@);
        let rest = attrs.drop_last();
        assert forall|k: int| 0 <= k < rest.len() implies names_of(rest)[k] != n by {
            assert(names_of(rest)[k] == rest[k].name@);
            assert(names_of(attrs)[k] == attrs[k].name@);
        }
        lemma_values_absent(rest, n);
    }
}

proof fn lemma_name_carried(a: Seq<Attribute>, b: Seq<Attribute>, n: Seq<char>)
    requires
        names_of(a).no_duplicates(),
        names_of(b).no_duplicates(),
        a.to_multiset() == b.to_multiset(),
        names_of(a).contains(n),
    ensures
        names_of(b).contains(n),
        values_in(a, n) == values_in(b, n),
{
    broadcast use vstd::seq_lib::group_to_multiset_ensures;

    let i = choose|i: int| 0 <= i < names_of(a).len() && names_of(a)[i] == n;
    assert(a.contains(a[i]));
    assert(a.to_multiset().count(a[i]) > 0);
    assert(b.contains(a[i]));
    let j = choose|j: int| 0 <= j < b.len() && b[j] == a[i];
    assert(names_of(b)[j] == n);
    lemma_values_at(a, i);
    lemma_values_at(b, j);
}

proof fn lemma_attrs_text_same(e1: ResultEntry, e2: ResultEntry, ns: Seq<Seq<char>>)
    requires
        forall|n: Seq<char>| #[trigger] values_of(e1, n) == values_of(e2, n),
    ensures
        attrs_text(e1, ns) == attrs_text(e2, ns),
    decreases ns.len(),
{
    if ns.len() > 0 {
        assert(values_of(e1, ns.last()) == values_of(e2, ns.last()));
        lemma_attrs_text_same(e1, e2, ns.drop_last());
    }
}

/// The text of an entry does not depend on the order in which its
/// attributes are stored: attribute lines always come by increasing name.
pub proof fn lemma_entry_text_order_free(e1: ResultEntry, e2: ResultEntry)
    requires
        entry_wf(e1),
        entry_wf(e2),
        e1.dn@ == e2.dn@,
        e1.attrs@.to_multiset() == e2.attrs@.to_multiset(),
    ensures
        entry_text(e1) == entry_text(e2),
{
    let a = e1.attrs@;
    let b = e2.attrs@;
    assert forall|n: Seq<char>| #[trigger] values_of(e1, n) == values_of(e2, n) by {
        if names_of(a).contains(n) {
            lemma_name_carried(a, b, n);
        } else if names_of(b).contains(n) {
            lemma_name_carried(b, a, n);
        } else {
            lemma_values_absent(a, n);
            lemma_values_absent(b, n);
        }
    }
    assert forall|n: Seq<char>| names_of(a).to_set().contains(n) == names_of(b).to_set().contains(
        n,
    ) by {
        if names_of(a).contains(n) {
            lemma_name_carried(a, b, n);
        } else if names_of(b).contains(n) {
            lemma_name_carried(b, a, n);
        }
    }
    assert(names_of(a).to_set() =~= names_of(b).to_set());
    assert(attr_order(e1) == attr_order(e2));
    lemma_attrs_text_same(e1, e2, attr_order(e1));
}

} // verus!
