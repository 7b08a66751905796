//! The command line, the configuration, and requests that are repeated.

use std::collections::{BTreeMap, BTreeSet, HashSet};
use std::ops::Range;

use raft_rust::cli::{
    check_peers, is_write, parse_client_id, parse_line, parse_task, render, request_of,
    split_flags, split_peers, Flag, Line, Printed, SessionStore, Task,
};
use raft_rust::config::{
    parse_config_path, NodeFileConfig, NodeSection, OptionsSection, PeerSection,
};
use raft_rust::kv::{self, Command};
use raft_rust::retry::{Heard, Retry, Step, Verdict};
use raft_rust::text::{decimal_text, parse_number, split, strip_prefix, trim, NumberFault};
use raft_rust::{Error, Options, Request, Response, Status};
use uuid::Uuid;

fn words(list: &[&str]) -> Vec<String> {
    list.iter().map(|word| word.to_string()).collect()
}

fn refusal(list: &[&str]) -> String {
    match parse_task(&words(list)) {
        Err(Error::InvalidInput(text)) => text,
        _ => panic!("{list:?} is no command"),
    }
}

#[test]
fn flags_are_told_from_words() {
    let args = words(&["--peers", "a:1", "put", "--client-id", "x", "k", "v", "--peers"]);
    let (flags, rest) = split_flags(&args);
    assert!(matches!(&flags[0], Flag::Peers(text) if text == "a:1"));
    assert!(matches!(&flags[1], Flag::ClientId(text) if text == "x"));
    assert_eq!(flags.len(), 2);
    assert_eq!(rest, words(&["put", "k", "v", "--peers"]));
    assert_eq!(split_peers("a:1, b:2"), words(&["a:1", "b:2"]));
    assert!(check_peers(1).is_ok());
    match check_peers(0) {
        Err(Error::InvalidInput(text)) => assert_eq!(
            text,
            "usage: raft-cli --peers host:port[,host:port...] [--client-id UUID] <put|get|scan|status|members> ..."
        ),
        other => panic!("{other:?}"),
    }
}

#[test]
fn tasks_are_read_from_words() {
    let put = parse_task(&words(&["put", "k", "v"])).unwrap();
    assert!(matches!(&put, Task::Put { key, value } if key == "k" && value == "v"));
    assert!(is_write(&put));
    let members = parse_task(&words(&["members", "1, 2,3"])).unwrap();
    assert!(matches!(&members, Task::Members { voters } if *voters == BTreeSet::from([1, 2, 3])));
    assert!(!is_write(&members));
    assert!(matches!(parse_task(&words(&["scan"])), Ok(Task::Scan)));
    assert!(matches!(parse_task(&words(&["status"])), Ok(Task::Status)));
    assert_eq!(refusal(&[]), "missing command");
    assert_eq!(refusal(&["put", "k"]), "put <key> <value>");
    assert_eq!(refusal(&["get"]), "get <key>");
    assert_eq!(refusal(&["members"]), "members <id,id,...>");
    // The first identifier that is wrong decides, and says what the standard library
    // says of it.
    for (list, wrong) in [
        ("1,x", "x"),
        ("256", "256"),
        ("1,,256", ""),
        ("300,x", "300"),
        ("25x", "25x"),
        ("2567x", "2567x"),
        ("+", "+"),
        ("-", "-"),
        ("-1", "-1"),
        ("++1", "++1"),
        ("", ""),
        ("1, 2 3", "2 3"),
        ("é", "é"),
    ] {
        let error = wrong.parse::<u8>().unwrap_err();
        assert_eq!(refusal(&["members", list]), format!("bad id: {error}"));
    }
    assert_eq!(refusal(&["members", "1,x"]), "bad id: invalid digit found in string");
    assert_eq!(refusal(&["members", "1,,2"]), "bad id: cannot parse integer from empty string");
    assert_eq!(
        refusal(&["members", "1,256,x"]),
        "bad id: number too large to fit in target type"
    );
    assert_eq!(refusal(&["drop"]), "unknown command drop");
}

#[test]
fn tasks_lead_to_requests() {
    let put = Task::Put { key: "k".into(), value: "v".into() };
    let command = kv::encode(&Command::Put { key: "k".into(), value: "v".into() });
    assert_eq!(
        request_of(&put, 7, 3),
        Request::WriteSession { client_id: 7, seq: 3, command }
    );
    let command = kv::encode(&Command::Get { key: "k".into() });
    assert_eq!(request_of(&Task::Get { key: "k".into() }, 7, 3), Request::Read(command));
    assert_eq!(
        request_of(&Task::Members { voters: BTreeSet::from([2]) }, 7, 3),
        Request::ChangeMembership { voters: HashSet::from([2]) }
    );
}

#[test]
fn answers_are_printed() {
    let text = |task: &Task, response: Response| match render(task, response) {
        Ok(Printed::Text(text)) => text,
        _ => panic!("no text"),
    };
    let get = Task::Get { key: "k".into() };
    let bytes = kv::encode(&kv::Response::Get(Some("v".into())));
    assert_eq!(text(&get, Response::Read(bytes)), "v");
    let members = Task::Members { voters: BTreeSet::new() };
    assert_eq!(
        text(&members, Response::ChangeMembership { index: 5 }),
        "membership proposed @ 5"
    );
    let status = Status {
        leader: 1,
        term: 2,
        match_index: BTreeMap::from([(1, 4), (2, 3)]),
        commit_index: 4,
        applied_index: 3,
        storage: raft_rust::storage::Status {
            name: "memory".into(),
            keys: 0,
            size: 0,
            disk_size: 0,
            live_disk_size: 0,
        },
        voters: BTreeSet::from([2, 1]),
    };
    assert_eq!(
        text(&Task::Status, Response::Status(status)),
        "leader=1 term=2 commit=4 applied=3 voters={1, 2}\nmatch_index={1: 4, 2: 3}"
    );
    assert!(matches!(render(&get, Response::Read(vec![9])), Err(Error::InvalidData(_))));
    assert!(matches!(
        render(&get, Response::Write(vec![])),
        Ok(Printed::Raw(Response::Write(_)))
    ));
}

#[test]
fn sessions_are_kept_in_a_file() {
    let id = Uuid::new_v4();
    let mut store = SessionStore::load(None, id.as_u128());
    assert_eq!(store, SessionStore { client_id: id.as_u128(), last_seq: 0 });
    assert_eq!(store.next_seq(), 1);
    assert_eq!(store.next_seq(), 2);
    let text = store.text();
    assert_eq!(text, format!("client_id={id}\nlast_seq=2\n"));
    assert_eq!(SessionStore::load(Some(&text), 0), store);
    // What cannot be read is passed over.
    let partial = "# comment\nclient_id=nonsense\nlast_seq= 41 \r\n";
    assert_eq!(
        SessionStore::load(Some(partial), 9),
        SessionStore { client_id: 9, last_seq: 41 }
    );
    assert!(matches!(parse_line("last_seq=5"), Line::LastSeq(text) if text == "5"));
    assert!(matches!(parse_line("other"), Line::Other));
    // The last number is used again and again.
    let mut last = SessionStore { client_id: 0, last_seq: u64::MAX };
    assert_eq!(last.next_seq(), u64::MAX);
}

#[test]
fn identifiers_of_clients_are_parsed() {
    let id = Uuid::new_v4();
    assert_eq!(parse_client_id(&id.to_string()), Ok(id.as_u128()));
    assert_eq!(parse_client_id("00000000-0000-0000-0000-00000000000a"), Ok(10));
    match parse_client_id("x") {
        Err(Error::InvalidInput(text)) => {
            let detail = Uuid::parse_str("x").unwrap_err();
            assert_eq!(text, format!("bad client-id: {detail}"));
        }
        other => panic!("{other:?}"),
    }
}

#[test]
fn configurations_are_checked() {
    let config = |peer| NodeFileConfig {
        node: NodeSection { id: 1, listen: "127.0.0.1:7001".into(), data_dir: "data".into() },
        peers: vec![PeerSection { id: peer, addr: "127.0.0.1:7002".into() }],
        options: OptionsSection::default(),
    };
    assert!(config(2).check().is_ok());
    match config(1).check() {
        Err(Error::InvalidInput(_)) => {}
        other => panic!("{other:?}"),
    }
    let options = OptionsSection::default();
    assert_eq!(options.snapshot_threshold, 1000);
    let expected = Options {
        heartbeat_interval: options.heartbeat_interval,
        election_timeout_range: Range {
            start: options.election_timeout_min,
            end: options.election_timeout_max,
        },
        max_append_entries: options.max_append_entries,
        pre_vote: true,
        check_quorum: true,
        snapshot_threshold: options.snapshot_threshold,
    };
    assert_eq!(options.to_options(), expected);
}

#[test]
fn the_configuration_is_named_on_the_command_line() {
    assert_eq!(parse_config_path(&words(&[])), "config/node1.yaml");
    assert_eq!(parse_config_path(&words(&["--config", "a.yaml"])), "a.yaml");
    assert_eq!(parse_config_path(&words(&["x", "-c", "b.yaml", "-c", "d"])), "b.yaml");
    assert_eq!(parse_config_path(&words(&["--config=c.yaml"])), "c.yaml");
    assert_eq!(parse_config_path(&words(&["--config"])), "config/node1.yaml");
}

#[test]
fn requests_are_repeated_in_rounds() {
    let mut retry = Retry::new(2, 2, true);
    assert!(matches!(retry.next(), Step::Try(0)));
    assert!(matches!(retry.hear(Heard::Answer(Err(Error::Abort))), Verdict::Again));
    assert!(matches!(retry.next(), Step::Try(1)));
    assert!(matches!(retry.hear(Heard::TimedOut), Verdict::Again));
    assert!(matches!(retry.next(), Step::Pause));
    retry.pause();
    assert!(matches!(retry.next(), Step::Try(0)));
    let io = || Heard::Answer(Err(Error::IO("down".into())));
    assert!(matches!(retry.hear(io()), Verdict::Again));
    assert!(matches!(retry.hear(Heard::Unreachable), Verdict::Again));
    retry.pause();
    match retry.next() {
        Step::Stop(e) => assert_eq!(e, Error::IO("down".into())),
        _ => panic!("the rounds are used up"),
    }
    let mut once = Retry::new(1, 1, false);
    match once.hear(io()) {
        Verdict::Settled(answer) => assert_eq!(answer, Err(Error::IO("down".into()))),
        _ => panic!("settled"),
    }
    let answer = Ok(Response::Write(vec![]));
    assert!(matches!(once.hear(Heard::Answer(answer)), Verdict::Settled(Ok(_))));
}

#[test]
fn errors_have_a_message() {
    assert_eq!(Error::Abort.message(), "operation aborted");
    assert_eq!(Error::InvalidData("x".into()).message(), "invalid data: x");
    assert_eq!(Error::InvalidInput("x".into()).message(), "invalid input: x");
    assert_eq!(Error::IO("x".into()).message(), "io error: x");
    assert!(Error::InvalidInput("x".into()).is_deterministic());
    assert!(!Error::Abort.is_deterministic());
    assert_eq!(Error::IO("x".into()).duplicate(), Error::IO("x".into()));
}

#[test]
fn texts() {
    assert_eq!(decimal_text(0), "0");
    assert_eq!(decimal_text(u64::MAX), "18446744073709551615");
    assert_eq!(trim(" \ta b\r\n"), "a b");
    assert_eq!(split("a,,b", ','), words(&["a", "", "b"]));
    assert_eq!(split("", ','), words(&[""]));
    assert_eq!(strip_prefix("key=1", "key="), Some("1".to_string()));
    assert_eq!(strip_prefix("ke", "key="), None);
    assert_eq!(parse_number("+12", 255), Ok(12));
    assert_eq!(parse_number("256", 255), Err(NumberFault::TooLarge));
    assert_eq!(parse_number("", 255), Err(NumberFault::Empty));
    assert_eq!(parse_number("1x", 255), Err(NumberFault::InvalidDigit));
}
