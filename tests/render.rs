use ldap_recon::adtime::TimeError;
use ldap_recon::render::{is_time_name, render, render_entry, Attribute, ResultEntry};

fn attr(name: &str, values: &[&str]) -> Attribute {
    Attribute { name: name.to_string(), values: values.iter().map(|v| v.to_string()).collect() }
}

fn entry(dn: &str, attrs: Vec<Attribute>) -> ResultEntry {
    ResultEntry { dn: dn.to_string(), attrs }
}

const LOC_OPEN: &str = "\x1b[1;36m";
const RESET: &str = "\x1b[0m";

#[test]
fn render_time_and_plain_attributes() {
    let e = entry("CN=alice", vec![attr("pwdLastSet", &["0"]), attr("cn", &["alice"])]);
    let out = render_entry(&e).unwrap();
    let expected = format!(
        "{}CN=alice{}\ncn: alice\npwdLastSet: 0000-00-00 00:00:00\n\n",
        LOC_OPEN, RESET
    );
    assert_eq!(out, expected);
    assert!(out.contains("pwdLastSet: 0000-00-00 00:00:00\n"));
    assert!(out.contains("cn: alice\n"));
}

#[test]
fn render_sorts_attribute_names() {
    let a = entry(
        "CN=x",
        vec![attr("zeta", &["1"]), attr("alpha", &["2"]), attr("Mid", &["3"]), attr("beta", &["4"])],
    );
    let b = entry(
        "CN=x",
        vec![attr("beta", &["4"]), attr("Mid", &["3"]), attr("alpha", &["2"]), attr("zeta", &["1"])],
    );
    let out = render_entry(&a).unwrap();
    assert_eq!(out, render_entry(&b).unwrap());
    let lines: Vec<&str> = out.lines().skip(1).filter(|l| !l.is_empty()).collect();
    assert_eq!(lines, vec!["Mid: 3", "alpha: 2", "beta: 4", "zeta: 1"]);
}

#[test]
fn render_multiple_values_one_line_each() {
    let e = entry("CN=g", vec![attr("member", &["CN=a", "CN=b"])]);
    let out = render_entry(&e).unwrap();
    assert_eq!(out, format!("{}CN=g{}\nmember: CN=a\nmember: CN=b\n\n", LOC_OPEN, RESET));
}

#[test]
fn render_decodes_every_time_attribute() {
    for name in ["pwdLastSet", "LastPwdSet", "accountExpires", "LastLogon", "LastLogonTimestamp"] {
        assert!(is_time_name(name));
        let e = entry("CN=t", vec![attr(name, &["132539328000000000"])]);
        let out = render_entry(&e).unwrap();
        assert!(out.contains(&format!("{}: 2021-01-01 00:00:00\n", name)));
    }
    assert!(!is_time_name("lastLogon"));
    let e = entry("CN=t", vec![attr("lastLogon", &["132539328000000000"])]);
    assert!(render_entry(&e).unwrap().contains("lastLogon: 132539328000000000\n"));
}

#[test]
fn render_bad_time_value_fails() {
    let e = entry("CN=t", vec![attr("cn", &["x"]), attr("accountExpires", &["never"])]);
    assert_eq!(render_entry(&e), Err(TimeError::Parse));
    let es = vec![entry("CN=ok", vec![attr("cn", &["ok"])]), e];
    assert_eq!(render(&es), Err(TimeError::Parse));
}

#[test]
fn render_entries_in_input_order() {
    let es = vec![
        entry("CN=b", vec![attr("cn", &["b"])]),
        entry("CN=a", vec![]),
    ];
    let out = render(&es).unwrap();
    assert_eq!(
        out,
        format!("{o}CN=b{r}\ncn: b\n\n{o}CN=a{r}\n\n", o = LOC_OPEN, r = RESET)
    );
    assert_eq!(render(&vec![]).unwrap(), "");
}
