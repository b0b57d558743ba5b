use ldap_recon::adtime::TimeReference;
use ldap_recon::template::{expand, replace_text, same_text, Query};

fn query(name: &str, base: &str, filter: &str, attr: &[&str]) -> Query {
    Query {
        name: name.to_string(),
        base_dn: base.to_string(),
        query: filter.to_string(),
        attr: attr.iter().map(|a| a.to_string()).collect(),
    }
}

fn times() -> TimeReference {
    TimeReference { now: 1000, one_year_ago: 11, thirty_days_ago: 222, seven_days_ago: 3333 }
}

#[test]
fn replace_text_all_occurrences() {
    assert_eq!(replace_text("a[X]b[X]", "[X]", "yy"), "ayybyy");
    assert_eq!(replace_text("aaa", "aa", "b"), "ba");
    assert_eq!(replace_text("", "[X]", "y"), "");
    assert_eq!(replace_text("no token", "[X]", "y"), "no token");
    assert_eq!(replace_text("[X]", "[X]", ""), "");
}

#[test]
fn same_text_compares() {
    assert!(same_text("cn", "cn"));
    assert!(!same_text("cn", "cN"));
    assert!(!same_text("cn", "cn "));
}

#[test]
fn expand_two_queries_scenario() {
    let mut a = query("A", "", "(objectClass=*)", &["*"]);
    let mut b = query("B", "OU=Test", "(sAMAccountName=[TARGETDN])", &["sAMAccountName"]);
    expand(&mut a, "DC=example,DC=com", &times());
    expand(&mut b, "DC=example,DC=com", &times());
    assert_eq!(a.base_dn, "DC=example,DC=com");
    assert_eq!(a.query, "(objectClass=*)");
    assert_eq!(b.base_dn, "OU=Test,DC=example,DC=com");
    assert_eq!(b.query, "(sAMAccountName=DC=example,DC=com)");
    assert_eq!(b.name, "B");
    assert_eq!(b.attr, vec!["sAMAccountName".to_string()]);
}

#[test]
fn expand_base_with_trailing_separator() {
    let mut q = query("C", "OU=Test,", "(cn=*)", &["cn"]);
    expand(&mut q, "DC=x", &times());
    assert_eq!(q.base_dn, "OU=Test,DC=x");
}

#[test]
fn expand_plain_filter_unchanged() {
    let mut q = query("D", "OU=Users", "(&(objectClass=user)(cn=[OTHER]))", &["cn"]);
    expand(&mut q, "DC=example,DC=com", &times());
    assert_eq!(q.query, "(&(objectClass=user)(cn=[OTHER]))");
    assert_eq!(q.base_dn, "OU=Users,DC=example,DC=com");
}

#[test]
fn expand_all_four_tokens() {
    let mut q = query(
        "E",
        "",
        "(&(x=[TARGETDN])(a>=[-1YEAR])(b>=[-30DAYS])(c>=[-7DAYS])(d=[-7DAYS]))",
        &["*"],
    );
    expand(&mut q, "DC=ex", &times());
    assert_eq!(q.query, "(&(x=DC=ex)(a>=11)(b>=222)(c>=3333)(d=3333))");
    for token in ["[TARGETDN]", "[-1YEAR]", "[-30DAYS]", "[-7DAYS]"] {
        assert!(!q.query.contains(token));
    }
}

#[test]
fn expand_with_real_instants() {
    let t = TimeReference::at(132_539_328_000_000_000).unwrap();
    let mut q = query("F", "", "(pwdLastSet<=[-1YEAR])", &["cn"]);
    expand(&mut q, "DC=ex", &t);
    assert_eq!(q.query, "(pwdLastSet<=132223968000000000)");
}
