use ldap_recon::adtime::{TimeError, TimeReference};
use ldap_recon::render::{Attribute, ResultEntry};
use ldap_recon::run::{collect_outputs, expand_all, query_block, root_context, RunError};
use ldap_recon::template::Query;

fn query(name: &str, base: &str, filter: &str, attr: &[&str]) -> Query {
    Query {
        name: name.to_string(),
        base_dn: base.to_string(),
        query: filter.to_string(),
        attr: attr.iter().map(|a| a.to_string()).collect(),
    }
}

fn attr(name: &str, values: &[&str]) -> Attribute {
    Attribute { name: name.to_string(), values: values.iter().map(|v| v.to_string()).collect() }
}

#[test]
fn expand_all_scenario() {
    let qs = vec![
        query("A", "", "(objectClass=*)", &["*"]),
        query("B", "OU=Test", "(sAMAccountName=[TARGETDN])", &["sAMAccountName"]),
    ];
    let t = TimeReference::at(132_539_328_000_000_000).unwrap();
    let out = expand_all(qs, "DC=example,DC=com", &t);
    assert_eq!(out.len(), 2);
    assert_eq!(out[0].name, "A");
    assert_eq!(out[0].base_dn, "DC=example,DC=com");
    assert_eq!(out[1].base_dn, "OU=Test,DC=example,DC=com");
    assert_eq!(out[1].query, "(sAMAccountName=DC=example,DC=com)");
}

#[test]
fn query_block_layout() {
    let q = query("Users", "DC=ex", "(cn=*)", &["cn"]);
    let es = vec![ResultEntry { dn: "CN=a,DC=ex".to_string(), attrs: vec![attr("cn", &["a"])] }];
    let out = query_block(&q, &es).unwrap();
    assert_eq!(
        out,
        "\x1b[1;4;35mUsers\x1b[0m:\n\x1b[35mBase: DC=ex\x1b[0m\n\x1b[35mQuery: (cn=*)\x1b[0m\n\
         \x1b[1;36mCN=a,DC=ex\x1b[0m\ncn: a\n\n"
    );
    let bad = vec![ResultEntry { dn: "CN=a".to_string(), attrs: vec![attr("pwdLastSet", &["x"])] }];
    assert_eq!(query_block(&q, &bad), Err(RunError::Time(TimeError::Parse)));
}

#[test]
fn root_context_from_bootstrap() {
    let es = vec![ResultEntry {
        dn: String::new(),
        attrs: vec![attr("other", &["x"]), attr("rootDomainNamingContext", &["DC=example,DC=com", "DC=y"])],
    }];
    assert_eq!(root_context(&es), Some("DC=example,DC=com".to_string()));
    assert_eq!(root_context(&vec![]), None);
    let none = vec![ResultEntry { dn: String::new(), attrs: vec![attr("rootDomainNamingContext", &[])] }];
    assert_eq!(root_context(&none), None);
    let missing = vec![ResultEntry { dn: String::new(), attrs: vec![attr("cn", &["x"])] }];
    assert_eq!(root_context(&missing), None);
}

#[test]
fn collect_outputs_keeps_configuration_order() {
    let rs = vec![Ok("first".to_string()), Ok("second".to_string()), Ok("third".to_string())];
    assert_eq!(
        collect_outputs(rs),
        Ok(vec!["first".to_string(), "second".to_string(), "third".to_string()])
    );
    assert_eq!(collect_outputs(vec![]), Ok(vec![]));
}

#[test]
fn collect_outputs_first_failure_discards_all() {
    let rs = vec![
        Ok("first".to_string()),
        Err(RunError::Search("busy".to_string())),
        Ok("third".to_string()),
        Err(RunError::Search("later".to_string())),
    ];
    assert_eq!(collect_outputs(rs), Err(RunError::Search("busy".to_string())));
}
