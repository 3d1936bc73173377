//! The client's decisions and the shell.

use arcux::client::cache::{ranges_overlap, CachedRegion, RegionCache};
use arcux::client::calls::{
    exhausted, lock_expiry, plan_transaction, stored_key, Client, Mutation, MutationOp, Outcome,
    Policy, RegionContext, Target, Verdict,
};
use arcux::client::endpoint::accept;
use arcux::client::error::{
    is_reroute, key_error, try_next_node, ClientError, Failure, KeyError,
};
use arcux::client::requests::{answered, found_value, prewrite_answered, Body};
use arcux::pd::cluster::Regime;
use arcux::pd::region::Region;
use arcux::shell::{
    chosen_table, connection, line_action, node_changed, parse_command, react, render, render_pair,
    resolve_endpoints, tokenize, Command, Connection, LineAction, Reaction,
};
use arcux::text;

fn cached(id: u64, start: &[u8], end: &[u8], address: &str) -> CachedRegion {
    CachedRegion {
        id,
        start: start.to_vec(),
        end: end.to_vec(),
        epoch: id * 10,
        address: address.to_string(),
    }
}

fn down() -> Failure {
    Failure {
        code: "The service is currently unavailable".into(),
        message: "connection refused".into(),
        unsent: true,
        late: false,
    }
}

fn answer(message: &str) -> Failure {
    Failure {
        code: "Internal error".into(),
        message: message.into(),
        unsent: false,
        late: false,
    }
}

#[test]
fn the_cache_finds_the_region_of_a_key() {
    let mut c = RegionCache::new();
    assert_eq!(c.lookup(b"k"), None);
    c.insert(cached(1, b"", b"m", "a"));
    c.insert(cached(2, b"t", b"", "b"));
    assert_eq!(c.lookup(b"").unwrap().id, 1);
    assert_eq!(c.lookup(b"lzz").unwrap().id, 1);
    assert_eq!(c.lookup(b"m"), None, "a gap");
    assert_eq!(c.lookup(b"t").unwrap().id, 2);
    assert_eq!(c.lookup(b"zzz").unwrap().id, 2);
    // What overlaps is superseded, what does not stays.
    c.insert(cached(3, b"g", b"p", "c"));
    assert_eq!(c.lookup(b"a"), None);
    assert_eq!(c.lookup(b"g").unwrap().id, 3);
    assert_eq!(c.lookup(b"u").unwrap().id, 2);
    c.invalidate(b"h");
    assert_eq!(c.lookup(b"g"), None);
    assert_eq!(c.lookup(b"u").unwrap().id, 2);
}

#[test]
fn ranges_that_touch_do_not_overlap() {
    let a = cached(1, b"a", b"m", "");
    assert!(!ranges_overlap(&a, &cached(2, b"m", b"", "")));
    assert!(ranges_overlap(&a, &cached(2, b"l", b"", "")));
    assert!(ranges_overlap(&cached(1, b"", b"", ""), &a));
    assert!(a.contains(b"a") && !a.contains(b"m"));
}

#[test]
fn a_routed_client_asks_then_remembers() {
    let mut c = Client::connect_with_pd("http://seed".into(), "http://pd".into()).unwrap();
    let key = stored_key(1, b"k");
    assert_eq!(key, vec![0, 0, 0, 1, b'k']);
    assert_eq!(c.prepare(&key), Ok(Target::AskPd));
    let sent = c.located(cached(7, b"", b"", "http://n7")).unwrap();
    let want = Target::Send {
        endpoint: "http://n7".into(),
        context: Some(RegionContext { region_id: 7, region_epoch: 70 }),
    };
    assert_eq!(sent, want);
    assert_eq!(c.prepare(&key), Ok(want));
    // A stale route is dropped, and asked for again.
    let mut call = c.call(Policy::Keyed);
    let v = c.settle(&mut call, &key, Outcome::Refused(KeyError::RegionStale { new_epoch: 71 }));
    assert_eq!(v, Verdict::Again);
    assert_eq!(c.prepare(&key), Ok(Target::AskPd));
    // A region without an address is reached at the seed.
    match c.located(cached(8, b"", b"", "")).unwrap() {
        Target::Send { endpoint, .. } => assert_eq!(endpoint, "http://seed"),
        other => panic!("{other:?}"),
    }
}

#[test]
fn a_cluster_client_follows_the_leader() {
    let nodes: Vec<String> = (1..=3).map(|i| format!("http://n{i}")).collect();
    let mut c = Client::connect_cluster(nodes).unwrap();
    assert_eq!(c.current_endpoint(), Some("http://n1".into()));
    let mut call = c.call(Policy::Keyed);
    assert_eq!(
        c.settle(&mut call, b"k", Outcome::Refused(KeyError::NotLeader)),
        Verdict::Again
    );
    assert_eq!(c.current_endpoint(), Some("http://n2".into()));
    assert_eq!(c.settle(&mut call, b"k", Outcome::Failed(down())), Verdict::Again);
    assert_eq!(c.current_endpoint(), Some("http://n3".into()));
    assert_eq!(c.settle(&mut call, b"k", Outcome::Answered), Verdict::Done);
    // The discovered leader is kept.
    assert_eq!(c.current_endpoint(), Some("http://n3".into()));
    assert_eq!(
        Client::connect_cluster(vec![]).err(),
        Some(ClientError::Key("connect_cluster needs at least one endpoint".into()))
    );
}

#[test]
fn a_call_is_given_up_after_its_tries() {
    let mut c = Client::connect_cluster(vec!["a".into(), "b".into()]).unwrap();
    // No node ever answered: the cluster is down.
    let mut call = c.call(Policy::Keyed);
    for _ in 0..4 {
        assert_eq!(c.settle(&mut call, b"", Outcome::Failed(down())), Verdict::Again);
    }
    assert_eq!(
        c.settle(&mut call, b"", Outcome::Failed(down())),
        Verdict::Fail(ClientError::Unreachable)
    );
    // A node answered, and kept redirecting: an election is on.
    let mut call = c.call(Policy::Transaction);
    for _ in 0..4 {
        assert_eq!(
            c.settle(&mut call, b"", Outcome::Refused(KeyError::NotLeader)),
            Verdict::Again
        );
    }
    assert_eq!(
        c.settle(&mut call, b"", Outcome::Refused(KeyError::NotLeader)),
        Verdict::Fail(ClientError::NoLeader)
    );
    // Any node will do: each is tried once.
    let mut call = c.call(Policy::AnyNode);
    assert_eq!(c.settle(&mut call, b"", Outcome::Failed(down())), Verdict::Again);
    assert_eq!(
        c.settle(&mut call, b"", Outcome::Failed(down())),
        Verdict::Fail(ClientError::Unreachable)
    );
    assert_eq!(exhausted(true), ClientError::NoLeader);
}

#[test]
fn an_answer_is_final() {
    let mut c = Client::connect_cluster(vec!["a".into(), "b".into()]).unwrap();
    let mut call = c.call(Policy::Scan);
    assert_eq!(
        c.settle(&mut call, b"", Outcome::Failed(answer("tso unavailable"))),
        Verdict::Fail(ClientError::Rpc(answer("tso unavailable")))
    );
    assert_eq!(c.current_endpoint(), Some("a".into()));
    // A scan has no other way to say that it is not here.
    assert_eq!(
        c.settle(&mut call, b"", Outcome::Failed(answer("not the region leader: 2"))),
        Verdict::Again
    );
    // A step of a transaction is never sent again by itself.
    let mut call = c.call(Policy::Transaction);
    assert_eq!(
        c.settle(&mut call, b"", Outcome::Failed(down())),
        Verdict::Fail(ClientError::Rpc(down()))
    );
    // And neither is a write whose outcome is not known.
    let mut call = c.call(Policy::Keyed);
    assert_eq!(
        c.settle(&mut call, b"", Outcome::Refused(KeyError::Undetermined("leader left".into()))),
        Verdict::Fail(ClientError::Undetermined("leader left".into()))
    );
}

#[test]
fn a_direct_client_stays_with_its_node() {
    let mut c = Client::connect("http://one".into()).unwrap();
    assert_eq!(c.current_endpoint(), None);
    let to = Target::Send { endpoint: "http://one".into(), context: None };
    assert_eq!(c.prepare(b"k"), Ok(to.clone()));
    let mut call = c.call(Policy::Keyed);
    assert_eq!(
        c.settle(&mut call, b"k", Outcome::Refused(KeyError::RegionStale { new_epoch: 2 })),
        Verdict::Fail(ClientError::NotHosted)
    );
    assert_eq!(
        c.settle(&mut call, b"k", Outcome::Refused(KeyError::NotLeader)),
        Verdict::Again
    );
    assert_eq!(
        c.settle(&mut call, b"k", Outcome::Failed(down())),
        Verdict::Fail(ClientError::Rpc(down()))
    );
    assert_eq!(c.prepare(b"k"), Ok(to));
    assert_eq!(c.reroute(b"k", &KeyError::NotLeader), Ok(()));
}

#[test]
fn tables_are_learned_by_name() {
    let mut c = Client::connect("u".into()).unwrap();
    assert_eq!(c.known_table(""), Some(0));
    assert_eq!(c.known_table("default"), Some(0));
    assert_eq!(c.known_table("orders"), None);
    assert_eq!(c.table_id("orders"), Err(ClientError::UnknownTable("orders".into())));
    c.learn_tables(&vec![("orders".into(), 1), ("clicks".into(), 2)]);
    assert_eq!(c.table_id("orders"), Ok(1));
    let region = Region { id: 9, start: vec![], end: vec![], epoch: 1 };
    assert_eq!(c.table_created("new".into(), 3, Some(region.clone())), Ok(region));
    assert_eq!(c.table_id("new"), Ok(3));
    assert!(c.table_created("none".into(), 4, None).is_err());
    assert_eq!(c.known_table("none"), None);
    assert_eq!(
        c.put_mutation("clicks", b"k", b"v".to_vec()),
        Ok(Mutation {
            op: MutationOp::Put,
            key: vec![0, 0, 0, 2, b'k'],
            value: b"v".to_vec()
        })
    );
    assert_eq!(
        c.delete_mutation("", b"k").unwrap(),
        Mutation { op: MutationOp::Delete, key: vec![0, 0, 0, 0, b'k'], value: vec![] }
    );
}

#[test]
fn a_transaction_has_a_primary_and_a_lease() {
    assert_eq!(
        plan_transaction(&vec![]),
        Err(ClientError::Key("empty transaction".into()))
    );
    let c = Client::connect("u".into()).unwrap();
    let ms = vec![
        c.put_mutation("", b"a", b"1".to_vec()).unwrap(),
        c.delete_mutation("", b"b").unwrap(),
    ];
    let (primary, keys) = plan_transaction(&ms).unwrap();
    assert_eq!(primary, vec![0, 0, 0, 0, b'a']);
    assert_eq!(keys, vec![vec![0, 0, 0, 0, b'a'], vec![0, 0, 0, 0, b'b']]);
    assert_eq!(lock_expiry(5), 5 + (1 << 32));
    assert_eq!(lock_expiry(u64::MAX - 1), u64::MAX);
}

#[test]
fn key_errors_have_words() {
    let cases = vec![
        (KeyError::Conflict("x".into()), "key error: conflict: x"),
        (
            KeyError::Locked { primary: vec![1, 20], ttl: 7 },
            "key error: locked by primary [1, 20] (ttl 7)",
        ),
        (KeyError::Invalid("x".into()), "key error: invalid: x"),
        (KeyError::Retryable("x".into()), "key error: retryable: x"),
        (KeyError::NotLeader, "key error: not leader"),
        (KeyError::RegionStale { new_epoch: 3 }, "key error: region stale (new epoch 3)"),
        (KeyError::Unspecified, "key error: unspecified key error"),
    ];
    for (e, want) in cases {
        assert_eq!(key_error(e).message(), want);
    }
    assert!(is_reroute(&KeyError::NotLeader) && !is_reroute(&KeyError::Unspecified));
}

#[test]
fn client_errors_have_words() {
    assert_eq!(ClientError::Transport("t".into()).message(), "transport error: t");
    assert_eq!(
        ClientError::Rpc(answer("boom")).message(),
        "rpc error: boom (Internal error)"
    );
    assert_eq!(
        ClientError::UnknownTable("or\"ders".into()).message(),
        "unknown table \"or\\\"ders\" — create it with `create table or\"ders <cp|ap>`"
    );
    assert!(ClientError::NoLeader.message().contains("election"));
    assert!(ClientError::Unreachable.message().contains("reachable"));
    assert!(ClientError::NotHosted.message().contains("no replica"));
    assert!(ClientError::Undetermined("d".into()).message().ends_with("(d)"));
    assert!(try_next_node(&answer("region stale: 4")));
    assert!(try_next_node(&answer("region not hosted here")));
    assert!(!try_next_node(&answer("the region stale")));
    let late = Failure { late: true, ..answer("deadline") };
    assert!(try_next_node(&late));
}

#[test]
fn a_line_is_split_on_white_space_and_quotes() {
    assert_eq!(tokenize("put k \"a b c\"\n"), vec!["put", "k", "a b c"]);
    assert_eq!(tokenize("  \t "), Vec::<String>::new());
    assert_eq!(tokenize("scan \"\" \"\""), vec!["scan", "", ""]);
    assert_eq!(tokenize("a\"b c\"d e"), vec!["ab cd", "e"]);
    assert_eq!(tokenize("open \"quote x"), vec!["open", "quote x"]);
    assert_eq!(tokenize("über\u{2003}größe"), vec!["über", "größe"]);
}

#[test]
fn a_command_is_read_or_explained() {
    let parse = |l: &str| parse_command(&tokenize(l));
    assert!(matches!(
        parse("put a b"),
        Ok(Command::Put { table: None, key, value }) if key == "a" && value == "b"
    ));
    assert!(matches!(
        parse("get a"),
        Ok(Command::Get { table: None, key, read_ts: 0 }) if key == "a"
    ));
    assert!(matches!(parse("get a 17"), Ok(Command::Get { table: None, read_ts: 17, .. })));
    assert!(matches!(parse("del a"), Ok(Command::Delete { table: None, .. })));
    assert!(matches!(parse("delete a"), Ok(Command::Delete { .. })));
    assert!(matches!(parse("scan a b"), Ok(Command::Scan { table: None, limit: 0, .. })));
    assert!(matches!(parse("scan a b 3"), Ok(Command::Scan { table: None, limit: 3, .. })));
    assert!(matches!(parse("split m"), Ok(Command::Split { .. })));
    assert!(matches!(parse("merge m"), Ok(Command::Merge { .. })));
    assert!(matches!(parse(""), Ok(Command::Nothing)));
    assert_eq!(parse("get t a -1").err().unwrap(), "read_ts must be a u64, got \"-1\"");
    assert_eq!(
        parse("scan t a b 4294967296").err().unwrap(),
        "limit must be a u32, got \"4294967296\""
    );
    assert_eq!(parse("put a").err().unwrap(), "unknown command \"put\" — try 'help'");
}

#[test]
fn a_command_can_name_its_table() {
    let parse = |l: &str| parse_command(&tokenize(l));
    let is = |t: &Option<String>, name: &str| t.as_deref() == Some(name);
    assert!(matches!(
        parse("create table orders cp"),
        Ok(Command::CreateTable { name, regime: Regime::Cp }) if name == "orders"
    ));
    assert!(matches!(
        parse("create table clicks ap"),
        Ok(Command::CreateTable { name, regime: Regime::Ap }) if name == "clicks"
    ));
    assert_eq!(
        parse("create table clicks cap").err().unwrap(),
        "regime must be cp or ap, got \"cap\""
    );
    assert!(matches!(parse("use ap_table"), Ok(Command::Use { table }) if table == "ap_table"));
    assert!(matches!(
        parse("put cp_table acct1 100"),
        Ok(Command::Put { table, key, value })
            if is(&table, "cp_table") && key == "acct1" && value == "100"
    ));
    assert!(matches!(
        parse("get cp_table acct1"),
        Ok(Command::Get { table, key, read_ts: 0 }) if is(&table, "cp_table") && key == "acct1"
    ));
    assert!(matches!(
        parse("get cp_table acct1 9"),
        Ok(Command::Get { table, key, read_ts: 9 }) if is(&table, "cp_table") && key == "acct1"
    ));
    assert!(matches!(
        parse("delete cp_table acct1"),
        Ok(Command::Delete { table, key }) if is(&table, "cp_table") && key == "acct1"
    ));
    assert!(matches!(
        parse("scan ap_table"),
        Ok(Command::Scan { table, start, end, limit: 0 })
            if is(&table, "ap_table") && start.is_empty() && end.is_empty()
    ));
    assert!(matches!(
        parse("scan ap_table a z"),
        Ok(Command::Scan { table, start, end, limit: 0 })
            if is(&table, "ap_table") && start == "a" && end == "z"
    ));
    assert!(matches!(
        parse("scan ap_table a z 5"),
        Ok(Command::Scan { table, start, end, limit: 5 })
            if is(&table, "ap_table") && start == "a" && end == "z"
    ));
    assert_eq!(chosen_table(&None, "ap_table"), "ap_table");
    assert_eq!(chosen_table(&Some("orders".into()), "ap_table"), "orders");
}

#[test]
fn a_line_asks_something_of_the_shell() {
    let ask = |l: &str| line_action(&tokenize(l));
    assert!(matches!(ask(""), LineAction::Blank));
    assert!(matches!(ask("q"), LineAction::Quit));
    assert!(matches!(ask("exit now"), LineAction::Quit));
    assert!(matches!(ask("?"), LineAction::Help));
    assert!(matches!(ask("leader"), LineAction::Leader));
    assert!(matches!(ask("connect"), LineAction::Connect(None)));
    assert!(matches!(ask("connect http://x"), LineAction::Connect(Some(u)) if u == "http://x"));
    assert!(matches!(ask("get k"), LineAction::Run));
}

#[test]
fn endpoints_come_from_the_settings() {
    assert_eq!(resolve_endpoints(None, None, None), vec!["http://127.0.0.1:50051"]);
    assert_eq!(
        resolve_endpoints(Some("2"), None, Some("http://ignored")),
        vec!["http://127.0.0.1:50061", "http://127.0.0.1:50062"]
    );
    assert_eq!(
        resolve_endpoints(Some("1"), Some("7000"), None),
        vec!["http://127.0.0.1:7001"]
    );
    assert_eq!(
        resolve_endpoints(Some("many"), None, Some(" http://a , ,http://b,")),
        vec!["http://a", "http://b"]
    );
    assert_eq!(connection(2, true), Connection::Cluster);
    assert_eq!(connection(1, true), Connection::Routed);
    assert_eq!(connection(1, false), Connection::Direct);
}

#[test]
fn a_missing_leader_is_waited_for() {
    assert!(matches!(react(&ClientError::NoLeader, 1), Reaction::Wait { announce: true }));
    assert!(matches!(react(&ClientError::NoLeader, 39), Reaction::Wait { announce: false }));
    assert!(matches!(
        react(&ClientError::NoLeader, 40),
        Reaction::Stop(s) if s.contains("majority")
    ));
    assert!(matches!(
        react(&ClientError::Unreachable, 1),
        Reaction::Stop(s) if s.contains("can't reach any")
    ));
    assert!(matches!(
        react(&ClientError::Key("k".into()), 1),
        Reaction::Stop(s) if s == "key error: k"
    ));
    assert!(node_changed(&Some("a".into()), &Some("b".into())));
    assert!(node_changed(&Some("a".into()), &None));
    assert!(!node_changed(&None, &Some("b".into())));
    assert!(!node_changed(&Some("a".into()), &Some("a".into())));
}

#[test]
fn bytes_are_shown_as_text_or_numbers() {
    assert_eq!(render(b"hello"), "hello");
    assert_eq!(render("é".as_bytes()), "é");
    assert_eq!(render(&[0xff, 0, 7]), "[255, 0, 7]");
    assert_eq!(render(&[]), "");
    assert_eq!(render_pair(b"k", &[0xfe]), "  k = [254]");
}

#[test]
fn text_helpers_agree_with_the_standard_library() {
    for s in ["", " ", "a", "  a b\t", "\u{a0}x\u{3000}", "12 ", "+7"] {
        assert_eq!(text::trim(s), s.trim());
    }
    for s in ["", ",", "a,b", ",a,", "é,ü"] {
        let want: Vec<String> = s.split(',').map(|x| x.to_string()).collect();
        assert_eq!(text::split(s, ','), want);
    }
    for s in ["", "0", "007", "+5", "-5", "18446744073709551615", "18446744073709551616", "1x"] {
        assert_eq!(text::parse_u64(s, u64::MAX), s.parse::<u64>().ok());
    }
    assert!(text::starts_with("éa", "é") && !text::starts_with("é", "éa"));
    assert_eq!(text::strip_prefix("abc", "ab"), Some("c"));
    assert_eq!(text::from_utf8(&[0x61, 0xc3]), None);
    for c in ['\u{0}', ' ', '\u{85}', '\u{180e}', '\u{200a}', '\u{200b}', '\u{feff}'] {
        assert_eq!(text::white(c), c.is_whitespace());
    }
}

#[test]
fn requests_are_routed_on_stored_keys() {
    let mut c = Client::connect("http://n".into()).unwrap();
    c.learn_table("orders".into(), 7);
    let r = c.put("orders", b"o1", b"100".to_vec()).unwrap();
    assert_eq!(r.route, vec![0, 0, 0, 7, b'o', b'1']);
    assert_eq!(r.policy, Policy::Keyed);
    assert_eq!(
        r.body,
        Body::Put { table: "orders".into(), key: b"o1".to_vec(), value: b"100".to_vec() }
    );
    assert_eq!(c.get("orders", b"o1"), c.get_at("orders", b"o1", 0));
    assert_eq!(
        c.get_at("", b"k", 9).unwrap().body,
        Body::Get { table: String::new(), key: b"k".to_vec(), read_ts: 9 }
    );
    assert_eq!(c.delete("orders", b"o1").unwrap().route, r.route);
    let scan = c.scan("orders", b"", b"", 3).unwrap();
    assert_eq!(scan.route, vec![0, 0, 0, 7], "a whole table goes to that table's region");
    assert_eq!(scan.policy, Policy::Scan);
    assert!(matches!(scan.body, Body::Scan { limit: 3, read_ts: 0, .. }));
    assert_eq!(c.get("nowhere", b"k"), Err(ClientError::UnknownTable("nowhere".into())));
    for r in [c.begin(), c.list_tables(), c.create_table("t".into(), Regime::Ap)] {
        assert_eq!(r.policy, Policy::AnyNode);
        assert!(r.route.is_empty());
    }
}

#[test]
fn a_transaction_commits_what_it_prewrote() {
    let mut c = Client::connect("http://n".into()).unwrap();
    c.learn_table("audit".into(), 2);
    assert_eq!(
        c.transact(Vec::new()).err(),
        Some(ClientError::Key("empty transaction".into()))
    );
    let ms = vec![
        c.put_mutation("", b"alice", b"90".to_vec()).unwrap(),
        c.delete_mutation("audit", b"old").unwrap(),
    ];
    let primary = stored_key(0, b"alice");
    let t = c.transact(ms.clone()).unwrap();
    let (prewrite, done) = t.begun(41);
    assert_eq!(prewrite, c.prewrite(41, primary.clone(), ms, 41 + (1 << 32)));
    let keys = vec![primary.clone(), stored_key(2, b"old")];
    assert_eq!(done.committed(), c.commit(41, primary.clone(), keys));
    assert_eq!(prewrite.route, primary);
    assert_eq!(prewrite.policy, Policy::Transaction);
}

#[test]
fn answers_are_read() {
    assert_eq!(answered(None), Outcome::Answered);
    assert_eq!(answered(Some(KeyError::NotLeader)), Outcome::Refused(KeyError::NotLeader));
    assert_eq!(prewrite_answered(Vec::new()), Outcome::Answered);
    assert_eq!(
        prewrite_answered(vec![KeyError::Conflict("x".into()), KeyError::NotLeader]),
        Outcome::Refused(KeyError::Conflict("x".into()))
    );
    assert_eq!(found_value(true, b"v".to_vec()), Some(b"v".to_vec()));
    assert_eq!(found_value(false, b"v".to_vec()), None);
    let mut c = Client::connect_with_pd("http://seed".into(), "http://pd".into()).unwrap();
    c.located(cached(7, b"", b"", "http://n7")).unwrap();
    assert_eq!(c.region_split(b"m", Some(7), None), (7, 0));
    assert_eq!(c.prepare(b"m"), Ok(Target::AskPd), "the cached route is gone");
    assert_eq!(c.region_merged(b"m", Some(7)), 7);
    assert_eq!(c.split_region(b"m".to_vec()).body, Body::SplitRegion { split_key: b"m".to_vec() });
    assert_eq!(
        c.merge_region(b"m".to_vec()).body,
        Body::MergeRegion { boundary_key: b"m".to_vec() }
    );
}

#[test]
fn an_endpoint_that_is_no_uri_is_refused() {
    for uri in ["", "http://bad host", "http://a:b:c"] {
        for r in [
            Client::connect(uri.to_string()).err(),
            Client::connect_with_pd("http://seed".into(), uri.to_string()).err(),
            Client::connect_cluster(vec![uri.to_string()]).unwrap().prepare(b"k").err(),
        ] {
            match r {
                Some(ClientError::Key(m)) => assert!(m.starts_with("invalid endpoint: "), "{m}"),
                other => panic!("{uri}: {other:?}"),
            }
        }
    }
    // Only the placement driver's own URI is looked at in front of the first request.
    let mut c = Client::connect_with_pd("http://bad host".into(), "http://pd".into()).unwrap();
    assert!(matches!(c.located(cached(8, b"", b"", "")), Err(ClientError::Key(_))));
    assert_eq!(c.prepare(b"k"), Ok(Target::AskPd), "no route is remembered");
    assert!(c.located(cached(8, b"", b"", "http://n8")).is_ok());
    assert_eq!(
        accept("x".to_string(), Some("empty string".to_string())),
        Err(ClientError::Key("invalid endpoint: empty string".to_string()))
    );
    assert_eq!(accept("x".to_string(), None), Ok("x".to_string()));
}
