use nucleon::addr::SocketAddr;
use nucleon::backend::{GetBackend, RoundRobinBackend};
use nucleon::events::EventSet;
use nucleon::options::{NoServer, Options};
use nucleon::simplelogger::{init, level_filter, log_line, LogLevelFilter};
use nucleon::sync::{carry_out, command, handle_message, Command, MessageOutcome};
use nucleon::text::same_text;

#[test]
fn event_sets_grow_and_shrink() {
    let mut set = EventSet::none();
    set.insert(EventSet::readable());
    set.insert(EventSet::hup());
    assert_eq!(EventSet { readable: true, writable: false, error: false, hup: true }, set);
    set.insert(EventSet::writable());
    set.insert(EventSet::error());
    set.insert(EventSet::error());
    set.remove(EventSet::readable());
    set.remove(EventSet::readable());
    assert_eq!(EventSet { readable: false, writable: true, error: true, hup: true }, set);
    set.remove(set);
    assert_eq!(EventSet::none(), set);
}

#[test]
fn log_levels_are_known_by_name() {
    assert_eq!(Some(LogLevelFilter::Error), level_filter("error"));
    assert_eq!(Some(LogLevelFilter::Warn), level_filter("warn"));
    assert_eq!(Some(LogLevelFilter::Info), level_filter("info"));
    assert_eq!(Some(LogLevelFilter::Debug), level_filter("debug"));
    assert_eq!(None, level_filter("trace"));
    assert_eq!(None, level_filter("INFO"));
    assert_eq!(None, level_filter(""));
    assert_eq!(LogLevelFilter::Error, init("error"));
    assert_eq!(LogLevelFilter::Warn, init("warn"));
    assert_eq!(LogLevelFilter::Info, init("info"));
    assert_eq!(LogLevelFilter::Debug, init("debug"));
}

#[test]
fn a_log_line_names_its_level() {
    assert_eq!(
        "INFO - Now listening on 0.0.0.0:8000",
        log_line("INFO", "Now listening on 0.0.0.0:8000")
    );
    assert_eq!("WARN - ", log_line("WARN", ""));
}

#[test]
fn texts_are_compared_whole() {
    assert!(same_text("backend_add", "backend_add"));
    assert!(!same_text("backend_add", "backend_ad"));
    assert!(!same_text("", "x"));
    assert!(same_text("", ""));
}

#[test]
fn options_have_defaults() {
    let mut options = Options::default();
    assert!(options.servers.is_empty());
    assert_eq!("127.0.0.1:8000", options.bind);
    assert_eq!("redis://localhost", options.redis_url);
    assert!(!options.disable_redis);
    assert_eq!("info", options.log_level);
    assert_eq!(Err(NoServer), options.check());
    options.servers.push("10.0.0.1:80".to_string());
    assert_eq!(Ok(()), options.check());
}

#[test]
fn channels_name_commands() {
    assert_eq!(Some(Command::Add), command("backend_add"));
    assert_eq!(Some(Command::Remove), command("backend_remove"));
    assert_eq!(None, command("backend"));
    assert_eq!(None, command("BACKEND_ADD"));
}

#[test]
fn servers_come_and_go_with_messages() {
    let first = SocketAddr::V4 { octets: 0x0a000001, port: 80 };
    let second = SocketAddr::V4 { octets: 0x0a000002, port: 80 };
    let third = SocketAddr::V4 { octets: 0x0a000003, port: 80 };
    let mut backend =
        RoundRobinBackend::new(vec!["10.0.0.1:80".to_string(), "10.0.0.2:80".to_string()])
            .ok()
            .unwrap();
    assert_eq!(
        MessageOutcome::Added,
        handle_message(&mut backend, "backend_add", "10.0.0.3:80")
    );
    assert_eq!(&vec![first, second, third], backend.backends());
    assert_eq!(Some(second), backend.get());
    assert_eq!(Some(third), backend.get());
    assert_eq!(
        MessageOutcome::Removed,
        handle_message(&mut backend, "backend_remove", "10.0.0.2:80")
    );
    assert_eq!(&vec![first, third], backend.backends());
    assert_eq!(Some(third), backend.get());
    assert_eq!(Some(first), backend.get());
    assert_eq!(
        MessageOutcome::Ignored,
        handle_message(&mut backend, "backend_add", "10.0.0.4")
    );
    assert_eq!(
        MessageOutcome::Ignored,
        handle_message(&mut backend, "backend_remove", "")
    );
    assert_eq!(
        MessageOutcome::Unknown,
        handle_message(&mut backend, "backend", "10.0.0.4:80")
    );
    assert_eq!(&vec![first, third], backend.backends());
}

#[test]
fn commands_are_carried_out() {
    let first = SocketAddr::V4 { octets: 1, port: 1 };
    let second = SocketAddr::V6 { segments: 2, port: 2, flowinfo: 0, scope_id: 0 };
    let mut backend = RoundRobinBackend::from_addrs(vec![first]);
    assert_eq!(
        MessageOutcome::Added,
        carry_out(&mut backend, Some(Command::Add), Some(second))
    );
    assert_eq!(
        MessageOutcome::Removed,
        carry_out(&mut backend, Some(Command::Remove), Some(first))
    );
    assert_eq!(MessageOutcome::Ignored, carry_out(&mut backend, Some(Command::Remove), None));
    assert_eq!(MessageOutcome::Unknown, carry_out(&mut backend, None, Some(second)));
    assert_eq!(MessageOutcome::Unknown, carry_out(&mut backend, None, None));
    assert_eq!(&vec![second], backend.backends());
}
