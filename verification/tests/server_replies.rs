use miniredis::config::Config;
use miniredis::db::RedisDatabase;
use miniredis::parser::Rdb;
use miniredis::response::Value;
use miniredis::server::{handle_request, ServerStep};

struct World {
    live: RedisDatabase,
    snap: Rdb,
    config: Config,
}

impl World {
    fn new() -> World {
        World {
            live: RedisDatabase::new(),
            snap: Rdb::new(),
            config: Config::new(None, None),
        }
    }

    fn ask(&mut self, request: &[u8], now_ms: u64) -> (Vec<u8>, usize) {
        match handle_request(request, &mut self.live, &mut self.snap, &self.config, now_ms) {
            ServerStep::Reply(reply, n) => (reply, n),
            ServerStep::NeedMore => panic!("expected a reply, got a request for more bytes"),
            ServerStep::Close => panic!("expected a reply, got a close"),
        }
    }
}

#[test]
fn ping_gets_pong() {
    let mut w = World::new();
    let (reply, n) = w.ask(b"*1\r\n$4\r\nPING\r\n", 0);
    assert_eq!(reply, b"+PONG\r\n".to_vec());
    assert_eq!(n, 14);
}

#[test]
fn echo_repeats_its_argument() {
    let mut w = World::new();
    let (reply, _) = w.ask(b"*2\r\n$4\r\nECHO\r\n$5\r\nhello\r\n", 0);
    assert_eq!(reply, b"+hello\r\n".to_vec());
}

#[test]
fn echo_joins_several_arguments() {
    let mut w = World::new();
    let (reply, _) = w.ask(b"*3\r\n$4\r\necho\r\n$3\r\nfoo\r\n$3\r\nbar\r\n", 0);
    assert_eq!(reply, b"+foo bar\r\n".to_vec());
}

#[test]
fn set_get_with_ttl_expires() {
    let mut w = World::new();
    let (reply, _) = w.ask(
        b"*5\r\n$3\r\nSET\r\n$3\r\nkey\r\n$3\r\nval\r\n$2\r\nPX\r\n$3\r\n100\r\n",
        0,
    );
    assert_eq!(reply, b"+OK\r\n".to_vec());
    let (reply, _) = w.ask(b"*2\r\n$3\r\nGET\r\n$3\r\nkey\r\n", 50);
    assert_eq!(reply, b"+val\r\n".to_vec());
    let (reply, _) = w.ask(b"*2\r\n$3\r\nGET\r\n$3\r\nkey\r\n", 200);
    assert_eq!(reply, b"$-1\r\n".to_vec());
}

#[test]
fn get_of_missing_key_is_null_bulk() {
    let mut w = World::new();
    let (reply, _) = w.ask(b"*2\r\n$3\r\nGET\r\n$5\r\nnokey\r\n", 0);
    assert_eq!(reply, b"$-1\r\n".to_vec());
}

#[test]
fn config_get_reports_startup_flags() {
    let mut w = World::new();
    w.config = Config::new(Some(b"/tmp".to_vec()), Some(b"dump.rdb".to_vec()));
    let (reply, _) = w.ask(b"*3\r\n$6\r\nCONFIG\r\n$3\r\nGET\r\n$3\r\ndir\r\n", 0);
    assert_eq!(reply, b"*2\r\n$3\r\ndir\r\n$4\r\n/tmp\r\n".to_vec());
    let (reply, _) = w.ask(
        b"*3\r\n$6\r\nCONFIG\r\n$3\r\nGET\r\n$10\r\ndbfilename\r\n",
        0,
    );
    assert_eq!(reply, b"*2\r\n$10\r\ndbfilename\r\n$8\r\ndump.rdb\r\n".to_vec());
    let (reply, _) = w.ask(b"*3\r\n$6\r\nCONFIG\r\n$3\r\nGET\r\n$4\r\nxyzw\r\n", 0);
    assert_eq!(reply, b"$-1\r\n".to_vec());
}

#[test]
fn keys_star_lists_snapshot_keys() {
    let mut w = World::new();
    w.snap
        .add_object(b"foo".to_vec(), Value::String(b"bar".to_vec()), None);
    let (reply, _) = w.ask(b"*2\r\n$4\r\nKEYS\r\n$1\r\n*\r\n", 0);
    assert_eq!(reply, b"*1\r\n$3\r\nfoo\r\n".to_vec());
    let (reply, _) = w.ask(b"*2\r\n$3\r\nGET\r\n$3\r\nfoo\r\n", 0);
    assert_eq!(reply, b"$3\r\nbar\r\n".to_vec());
}

#[test]
fn keys_with_another_pattern_is_an_empty_array() {
    let mut w = World::new();
    w.snap
        .add_object(b"foo".to_vec(), Value::String(b"bar".to_vec()), None);
    let (reply, _) = w.ask(b"*2\r\n$4\r\nKEYS\r\n$3\r\nfo*\r\n", 0);
    assert_eq!(reply, b"*0\r\n".to_vec());
}

#[test]
fn unknown_command_is_an_error_reply() {
    let mut w = World::new();
    let (reply, n) = w.ask(b"*1\r\n$3\r\nFOO\r\n", 0);
    assert_eq!(reply, b"-ERR unknown command\r\n".to_vec());
    assert_eq!(n, 13);
    // The connection stays open: the next command still answers.
    let (reply, _) = w.ask(b"*1\r\n$4\r\nPING\r\n", 0);
    assert_eq!(reply, b"+PONG\r\n".to_vec());
}

#[test]
fn wrong_arity_is_an_error_reply() {
    let mut w = World::new();
    let (reply, _) = w.ask(b"*2\r\n$3\r\nSET\r\n$1\r\nk\r\n", 0);
    assert_eq!(reply, b"-ERR unknown command\r\n".to_vec());
}

#[test]
fn unparseable_px_is_an_error_reply() {
    let mut w = World::new();
    let (reply, _) = w.ask(
        b"*5\r\n$3\r\nSET\r\n$1\r\nk\r\n$1\r\nv\r\n$2\r\nPX\r\n$3\r\nabc\r\n",
        0,
    );
    assert_eq!(reply, b"-ERR unknown command\r\n".to_vec());
}

#[test]
fn partial_input_waits_for_more() {
    let mut w = World::new();
    match handle_request(
        b"*2\r\n$3\r\nGET",
        &mut w.live,
        &mut w.snap,
        &w.config,
        0,
    ) {
        ServerStep::NeedMore => {}
        _ => panic!("expected a request for more bytes"),
    }
}

#[test]
fn malformed_input_closes_the_connection() {
    let mut w = World::new();
    match handle_request(b"!weird\r\n", &mut w.live, &mut w.snap, &w.config, 0) {
        ServerStep::Close => {}
        _ => panic!("expected a close"),
    }
}

#[test]
fn pipelined_commands_are_answered_in_order() {
    let mut w = World::new();
    let buf = b"*1\r\n$4\r\nPING\r\n*2\r\n$4\r\nECHO\r\n$2\r\nhi\r\n".to_vec();
    let (reply, n) = w.ask(&buf, 0);
    assert_eq!(reply, b"+PONG\r\n".to_vec());
    let (reply, n2) = w.ask(&buf[n..], 0);
    assert_eq!(reply, b"+hi\r\n".to_vec());
    assert_eq!(n + n2, buf.len());
}

#[test]
fn set_without_ttl_never_expires() {
    let mut w = World::new();
    let (reply, _) = w.ask(b"*3\r\n$3\r\nSET\r\n$1\r\nk\r\n$1\r\nv\r\n", 0);
    assert_eq!(reply, b"+OK\r\n".to_vec());
    let (reply, _) = w.ask(b"*2\r\n$3\r\nGET\r\n$1\r\nk\r\n", u64::MAX - 1);
    assert_eq!(reply, b"+v\r\n".to_vec());
}

#[test]
fn ping_with_an_argument_is_an_error_reply() {
    let mut w = World::new();
    let (reply, _) = w.ask(b"*2\r\n$4\r\nPING\r\n$2\r\nhi\r\n", 0);
    assert_eq!(reply, b"-ERR unknown command\r\n".to_vec());
}

#[test]
fn echo_substitutes_nothing_for_an_array_argument() {
    let mut w = World::new();
    let (reply, _) = w.ask(b"*3\r\n$4\r\nECHO\r\n*0\r\n$3\r\nfoo\r\n", 0);
    assert_eq!(reply, b"+ foo\r\n".to_vec());
}

#[test]
fn command_names_match_case_insensitively() {
    let mut w = World::new();
    let (reply, _) = w.ask(b"*1\r\n$4\r\npInG\r\n", 0);
    assert_eq!(reply, b"+PONG\r\n".to_vec());
}

#[test]
fn px_option_matches_case_insensitively() {
    let mut w = World::new();
    let (reply, _) = w.ask(
        b"*5\r\n$3\r\nSET\r\n$1\r\nk\r\n$1\r\nv\r\n$2\r\npx\r\n$2\r\n50\r\n",
        0,
    );
    assert_eq!(reply, b"+OK\r\n".to_vec());
    let (reply, _) = w.ask(b"*2\r\n$3\r\nGET\r\n$1\r\nk\r\n", 49);
    assert_eq!(reply, b"+v\r\n".to_vec());
}

#[test]
fn non_array_request_is_an_error_reply() {
    let mut w = World::new();
    let (reply, _) = w.ask(b"+PING\r\n", 0);
    assert_eq!(reply, b"-ERR unknown command\r\n".to_vec());
}
