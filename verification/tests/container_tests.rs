use contenedores::container::{is_container_running, CommandOutcome, Process};

fn process(pid: u32, cmd_line: &str, cpu_key: u64, memory_key: u64) -> Process {
    Process {
        pid,
        name: String::from("stress"),
        cmd_line: String::from(cmd_line),
        memory_key,
        cpu_key,
    }
}

fn finished(stdout: &str) -> CommandOutcome {
    CommandOutcome::Finished { success: true, stdout: stdout.as_bytes().to_vec() }
}

#[test]
fn container_id_follows_flag() {
    let p = process(1, "/usr/bin/containerd-shim-runc-v2 -namespace moby -id 4f2a9c -address /run", 0, 0);
    assert_eq!(p.get_container_id(), "4f2a9c");
}

#[test]
fn container_id_missing_flag() {
    let p = process(1, "python3 main.py", 0, 0);
    assert_eq!(p.get_container_id(), "N/A");
}

#[test]
fn container_id_flag_at_end() {
    let p = process(1, "shim -namespace moby -id", 0, 0);
    assert_eq!(p.get_container_id(), "N/A");
}

#[test]
fn container_id_first_flag_wins() {
    let p = process(1, "shim -id first -id second", 0, 0);
    assert_eq!(p.get_container_id(), "first");
    let q = process(2, "shim -id -id second", 0, 0);
    assert_eq!(q.get_container_id(), "-id");
}

#[test]
fn container_id_any_whitespace() {
    let p = process(1, "  shim\t-id\n\u{3000}abc \u{a0}def", 0, 0);
    assert_eq!(p.get_container_id(), "abc");
    let q = process(2, "", 0, 0);
    assert_eq!(q.get_container_id(), "N/A");
}

#[test]
fn config_path_of_container() {
    let p = process(1, "shim -id abc", 0, 0);
    assert_eq!(p.config_path(), "/var/lib/docker/containers/abc/config.v2.json");
    let q = process(2, "shim", 0, 0);
    assert_eq!(q.config_path(), "/var/lib/docker/containers/N/A/config.v2.json");
}

fn type_of(text: &str) -> String {
    let v: serde_json::Value = serde_json::from_str(text).unwrap();
    Process::container_type_of_config(&v)
}

#[test]
fn type_after_stress() {
    assert_eq!(type_of(r#"{"Config":{"Cmd":["stress","--cpu","2"]}}"#), "cpu");
    assert_eq!(type_of(r#"{"Config":{"Cmd":["stress","--vm","1","--vm-bytes","64M"]}}"#), "vm");
    assert_eq!(type_of(r#"{"Config":{"Cmd":["sh","stress","---hdd"]}}"#), "hdd");
}

#[test]
fn type_skips_non_text_items() {
    assert_eq!(type_of(r#"{"Config":{"Cmd":["stress",1,"--io"]}}"#), "io");
}

#[test]
fn type_defaults_to_python() {
    assert_eq!(type_of(r#"{"Config":{"Cmd":["stress"]}}"#), "python");
    assert_eq!(type_of(r#"{"Config":{"Cmd":["python3","app.py"]}}"#), "python");
    assert_eq!(type_of(r#"{"Config":{"Cmd":"stress --cpu 1"}}"#), "python");
    assert_eq!(type_of(r#"{"Config":{}}"#), "python");
    assert_eq!(type_of(r#"{"Other":1}"#), "python");
    assert_eq!(type_of(r#"["stress","--cpu"]"#), "python");
}

#[test]
fn type_only_first_stress_counts() {
    assert_eq!(type_of(r#"{"Config":{"Cmd":["stress","--cpu","stress","--vm"]}}"#), "cpu");
    assert_eq!(type_of(r#"{"Config":{"Cmd":["a","stress"]}}"#), "python");
}

#[test]
fn type_from_command_outcome() {
    assert_eq!(Process::get_container_type(&CommandOutcome::NotStarted), "python");
    let failed = CommandOutcome::Finished { success: false, stdout: b"{}".to_vec() };
    assert_eq!(Process::get_container_type(&failed), "cpu");
    let ok = finished(r#"{"Config":{"Cmd":["stress","--io","1"]},"Name":"/io_1"}"#);
    assert_eq!(Process::get_container_type(&ok), "io");
    assert_eq!(Process::get_container_type(&finished("not json")), "python");
    assert_eq!(Process::get_container_type(&finished("")), "python");
}

#[test]
fn name_from_config() {
    assert_eq!(Process::get_container_name(&finished(r#"{"Name":"/stress_cpu_1"}"#)), "stress_cpu_1");
    assert_eq!(Process::get_container_name(&finished(r#"{"Name":"//double"}"#)), "double");
    assert_eq!(Process::get_container_name(&finished(r#"{"Name":"a/b"}"#)), "a/b");
    assert_eq!(Process::get_container_name(&finished(r#"{"Name":7}"#)), "N/A");
    assert_eq!(Process::get_container_name(&finished(r#"{}"#)), "N/A");
    assert_eq!(Process::get_container_name(&finished("{")), "python");
    assert_eq!(Process::get_container_name(&CommandOutcome::NotStarted), "python");
    let failed = CommandOutcome::Finished { success: false, stdout: Vec::new() };
    assert_eq!(Process::get_container_name(&failed), "cpu");
}

#[test]
fn name_from_parsed_value() {
    let v: serde_json::Value = serde_json::from_str(r#"{"Name":"/web","Config":{}}"#).unwrap();
    assert_eq!(Process::container_name_of_config(&v), "web");
}

#[test]
fn running_status() {
    assert!(is_container_running(&finished("true\n")));
    assert!(is_container_running(&finished("  true  ")));
    assert!(!is_container_running(&finished("false\n")));
    assert!(!is_container_running(&finished("truex")));
    let failed = CommandOutcome::Finished { success: false, stdout: b"true".to_vec() };
    assert!(!is_container_running(&failed));
}

#[test]
fn invalid_utf8_is_replaced() {
    let out = CommandOutcome::Finished { success: true, stdout: vec![b't', b'r', 0xff, b'e'] };
    assert!(!is_container_running(&out));
    let name = CommandOutcome::Finished { success: true, stdout: b"{\"Name\":\"/caf\xc3\xa9\"}".to_vec() };
    assert_eq!(Process::get_container_name(&name), "caf\u{e9}");
}
