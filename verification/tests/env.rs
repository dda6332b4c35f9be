use safenv::Env;
use safenv::VarError;

#[test]
fn test_vars() {
    let env = Env::new();
    env.set_var(b"KEY".to_vec(), b"VALUE".to_vec());
    assert_eq!(env.var(&b"KEY".to_vec()), Ok("VALUE".to_string()));

    assert_eq!(env.var_os(&b"KEY".to_vec()), Some(b"VALUE".to_vec()));
}

#[test]
fn test_round_trip() {
    let env = Env::new();
    env.set_var("GREETING".as_bytes().to_vec(), "h\u{e9}llo \u{4e16}\u{754c}".as_bytes().to_vec());
    assert_eq!(
        env.var(&"GREETING".as_bytes().to_vec()),
        Ok("h\u{e9}llo \u{4e16}\u{754c}".to_string())
    );
}

#[test]
fn test_absent() {
    let env = Env::new();
    assert_eq!(env.var(&b"NEVER_SET".to_vec()), Err(VarError::NotPresent));
    assert_eq!(env.var_os(&b"NEVER_SET".to_vec()), None);
}

#[test]
fn test_remove_idempotent() {
    let env = Env::new();
    env.set_var(b"K".to_vec(), b"V".to_vec());
    env.set_var(b"OTHER".to_vec(), b"KEPT".to_vec());

    env.remove_var(&b"K".to_vec());
    assert_eq!(env.var(&b"K".to_vec()), Err(VarError::NotPresent));
    let mut it = env.vars_os();
    assert_eq!(it.size_hint(), (1, Some(1)));

    env.remove_var(&b"K".to_vec());
    assert_eq!(env.var(&b"K".to_vec()), Err(VarError::NotPresent));
    let mut it2 = env.vars_os();
    assert_eq!(it2.size_hint(), (1, Some(1)));

    assert_eq!(it.next(), Some((b"OTHER".to_vec(), b"KEPT".to_vec())));
    assert_eq!(it.next(), None);
    assert_eq!(it2.next(), Some((b"OTHER".to_vec(), b"KEPT".to_vec())));
    assert_eq!(it2.next(), None);
}

#[test]
fn test_overwrite() {
    let env = Env::new();
    env.set_var(b"K".to_vec(), b"A".to_vec());
    env.set_var(b"K".to_vec(), b"B".to_vec());
    assert_eq!(env.var(&b"K".to_vec()), Ok("B".to_string()));

    let mut it = env.vars_os();
    assert_eq!(it.size_hint(), (1, Some(1)));
    assert_eq!(it.next(), Some((b"K".to_vec(), b"B".to_vec())));
    assert_eq!(it.next(), None);
}

#[test]
fn test_snapshot_isolation() {
    let env = Env::new();
    env.set_var(b"A".to_vec(), b"1".to_vec());
    env.set_var(b"B".to_vec(), b"2".to_vec());

    let mut snap = env.vars_os();

    env.set_var(b"A".to_vec(), b"CHANGED".to_vec());
    env.set_var(b"C".to_vec(), b"3".to_vec());
    env.remove_var(&b"B".to_vec());

    assert_eq!(snap.size_hint(), (2, Some(2)));
    assert_eq!(snap.next(), Some((b"A".to_vec(), b"1".to_vec())));
    assert_eq!(snap.next(), Some((b"B".to_vec(), b"2".to_vec())));
    assert_eq!(snap.next(), None);
}

#[test]
fn test_fill_last_wins() {
    let env = Env::new();
    let pairs = vec![
        (b"K".to_vec(), b"1".to_vec()),
        (b"K".to_vec(), b"2".to_vec()),
    ];
    env.fill(&pairs);
    assert_eq!(env.var(&b"K".to_vec()), Ok("2".to_string()));
}

#[test]
fn test_scenario() {
    let env = Env::new();
    env.set_var(b"KEY".to_vec(), b"VALUE".to_vec());
    assert_eq!(env.var(&b"KEY".to_vec()), Ok("VALUE".to_string()));
    env.remove_var(&b"KEY".to_vec());
    assert_eq!(env.var(&b"KEY".to_vec()), Err(VarError::NotPresent));
}

#[test]
fn test_not_unicode() {
    let env = Env::new();
    env.set_var(b"RAW".to_vec(), vec![0xff, 0xfe, 0x41]);
    assert_eq!(
        env.var(&b"RAW".to_vec()),
        Err(VarError::NotUnicode(vec![0xff, 0xfe, 0x41]))
    );
    assert_eq!(env.var_os(&b"RAW".to_vec()), Some(vec![0xff, 0xfe, 0x41]));
}

#[test]
fn test_listing_order() {
    let env = Env::new();
    env.set_var(b"B".to_vec(), b"2".to_vec());
    env.set_var(b"A".to_vec(), b"1".to_vec());
    env.set_var(b"C".to_vec(), b"3".to_vec());
    env.set_var(b"AB".to_vec(), b"4".to_vec());

    let mut it = env.vars_os();
    assert_eq!(it.size_hint(), (4, Some(4)));
    assert_eq!(it.next(), Some((b"A".to_vec(), b"1".to_vec())));
    assert_eq!(it.next(), Some((b"AB".to_vec(), b"4".to_vec())));
    assert_eq!(it.next(), Some((b"B".to_vec(), b"2".to_vec())));
    assert_eq!(it.next(), Some((b"C".to_vec(), b"3".to_vec())));
    assert_eq!(it.next(), None);
    assert_eq!(it.size_hint(), (0, Some(0)));
}

#[test]
fn test_vars_text() {
    let env = Env::new();
    env.set_var(b"NAME".to_vec(), b"ada".to_vec());
    env.set_var(b"CITY".to_vec(), "Z\u{fc}rich".as_bytes().to_vec());

    let mut it = env.vars();
    assert_eq!(it.size_hint(), (2, Some(2)));
    assert_eq!(it.next(), Some(("CITY".to_string(), "Z\u{fc}rich".to_string())));
    assert_eq!(it.next(), Some(("NAME".to_string(), "ada".to_string())));
    assert_eq!(it.next(), None);
}

#[test]
fn test_fill_many_keys() {
    let env = Env::new();
    let pairs = vec![
        (b"X".to_vec(), b"10".to_vec()),
        (b"Y".to_vec(), b"20".to_vec()),
        (b"X".to_vec(), b"11".to_vec()),
        (b"Z".to_vec(), b"30".to_vec()),
    ];
    env.fill(&pairs);
    assert_eq!(env.var(&b"X".to_vec()), Ok("11".to_string()));
    assert_eq!(env.var(&b"Y".to_vec()), Ok("20".to_string()));
    assert_eq!(env.var(&b"Z".to_vec()), Ok("30".to_string()));
    let mut it = env.vars_os();
    assert_eq!(it.size_hint(), (3, Some(3)));
    assert_eq!(it.next(), Some((b"X".to_vec(), b"11".to_vec())));
    assert_eq!(it.next(), Some((b"Y".to_vec(), b"20".to_vec())));
    assert_eq!(it.next(), Some((b"Z".to_vec(), b"30".to_vec())));
    assert_eq!(it.next(), None);
}

#[test]
fn test_separator_key_unreachable() {
    let env = Env::new();
    env.set_var(b"A=B".to_vec(), b"stored".to_vec());
    env.set_var(vec![0x41, 0x00], b"nul".to_vec());

    assert_eq!(env.var_os(&b"A=B".to_vec()), None);
    assert_eq!(env.var(&b"A=B".to_vec()), Err(VarError::NotPresent));
    assert_eq!(env.var_os(&vec![0x41, 0x00]), None);
    assert_eq!(env.var(&vec![0x41, 0x00]), Err(VarError::NotPresent));

    let mut it = env.vars_os();
    assert_eq!(it.size_hint(), (2, Some(2)));
    assert_eq!(it.next(), Some((vec![0x41, 0x00], b"nul".to_vec())));
    assert_eq!(it.next(), Some((b"A=B".to_vec(), b"stored".to_vec())));
    assert_eq!(it.next(), None);
}

#[test]
fn test_vars_valid_prefix() {
    let env = Env::new();
    env.set_var(b"A".to_vec(), b"ok".to_vec());
    env.set_var(b"B".to_vec(), b"fine".to_vec());
    env.set_var(b"Z".to_vec(), vec![0xff]);

    let mut it = env.vars();
    assert_eq!(it.next(), Some(("A".to_string(), "ok".to_string())));
    assert_eq!(it.next(), Some(("B".to_string(), "fine".to_string())));
}

#[test]
fn test_listing_deterministic() {
    let env1 = Env::new();
    env1.set_var(b"A".to_vec(), b"1".to_vec());
    env1.set_var(b"B".to_vec(), b"2".to_vec());
    env1.set_var(b"C".to_vec(), b"3".to_vec());

    let env2 = Env::new();
    env2.set_var(b"C".to_vec(), b"3".to_vec());
    env2.set_var(b"A".to_vec(), b"0".to_vec());
    env2.set_var(b"B".to_vec(), b"2".to_vec());
    env2.set_var(b"A".to_vec(), b"1".to_vec());

    let mut it1 = env1.vars_os();
    let mut it2 = env2.vars_os();
    loop {
        let a = it1.next();
        let b = it2.next();
        assert_eq!(a, b);
        if a.is_none() {
            break;
        }
    }
}

#[test]
fn test_description() {
    assert_eq!(
        VarError::NotPresent.description(),
        "environment variable not found".to_string()
    );
    assert_eq!(
        VarError::NotUnicode(vec![0xff]).description(),
        "environment variable was not valid unicode".to_string()
    );
}

#[test]
fn test_empty_key_and_value() {
    let env = Env::new();
    env.set_var(Vec::new(), Vec::new());
    assert_eq!(env.var(&Vec::new()), Ok(String::new()));
    assert_eq!(env.var_os(&Vec::new()), Some(Vec::new()));
}
