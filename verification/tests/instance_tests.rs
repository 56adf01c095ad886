use dsh_desktop::instance::{
    dsh_web_pids, file_name_is_dsh, find_running_instances, is_dsh_web_command, listen_port_of,
    port_of_line, process_table, DshInstance,
};

fn args(v: &[&str]) -> Vec<String> {
    v.iter().map(|s| s.to_string()).collect()
}

const PS_OUTPUT: &str = "    1 /sbin/launchd\n33876 node /Users/me/.nvm/versions/node/v24.16.0/bin/dsh web\n  412 node /opt/homebrew/bin/dsh --profile web --port 3080\n  500 node /usr/local/bin/dsh serve\nnot-a-pid something\n\n  777 dsh web\n";

#[test]
fn process_table_reads_pid_and_arguments() {
    let rows = process_table(PS_OUTPUT);
    let got: Vec<(u32, Vec<String>)> = rows.into_iter().map(|r| (r.pid, r.args)).collect();
    assert_eq!(
        got,
        vec![
            (1, args(&["/sbin/launchd"])),
            (33876, args(&["node", "/Users/me/.nvm/versions/node/v24.16.0/bin/dsh", "web"])),
            (412, args(&["node", "/opt/homebrew/bin/dsh", "--profile", "web", "--port", "3080"])),
            (500, args(&["node", "/usr/local/bin/dsh", "serve"])),
            (777, args(&["dsh", "web"])),
        ]
    );
}

#[test]
fn file_name_follows_path_components() {
    assert!(file_name_is_dsh("dsh"));
    assert!(file_name_is_dsh("/usr/local/bin/dsh"));
    assert!(file_name_is_dsh("/usr/local/bin/dsh/"));
    assert!(file_name_is_dsh("./dsh"));
    assert!(file_name_is_dsh("bin//dsh/."));
    assert!(!file_name_is_dsh("dsh/.."));
    assert!(!file_name_is_dsh("/usr/bin/dshx"));
    assert!(!file_name_is_dsh("/"));
    assert!(!file_name_is_dsh(""));
}

#[test]
fn dsh_web_command_lines() {
    assert!(is_dsh_web_command(&args(&["node", "/bin/dsh", "web"])));
    assert!(is_dsh_web_command(&args(&["dsh", "--profile", "web", "--no-open"])));
    assert!(!is_dsh_web_command(&args(&["dsh", "--profile", "cli"])));
    assert!(!is_dsh_web_command(&args(&["dsh", "serve", "web"])));
    assert!(!is_dsh_web_command(&args(&["node", "dsh"])));
    assert!(!is_dsh_web_command(&args(&["dsh", "--profile"])));
    // only the first dsh counts
    assert!(!is_dsh_web_command(&args(&["dsh", "x", "dsh", "web"])));
    assert!(!is_dsh_web_command(&args(&["node", "/bin/dshweb", "web"])));
    assert!(!is_dsh_web_command(&Vec::new()));
}

#[test]
fn dsh_web_pids_in_table_order() {
    assert_eq!(dsh_web_pids(PS_OUTPUT), vec![33876, 412, 777]);
    assert!(dsh_web_pids("").is_empty());
}

const LSOF_OUTPUT: &str = "COMMAND   PID USER   FD   TYPE             DEVICE SIZE/OFF NODE NAME\nnode    33876 me   21u  IPv6 0x1234      0t0  TCP [::1]:3081 (LISTEN)\nnode    33876 me   22u  IPv4 0x5678      0t0  TCP 127.0.0.1:3080 (LISTEN)\nnode    33876 me   23u  IPv4 0x9abc      0t0  TCP 127.0.0.1:4000 (LISTEN)\n";

#[test]
fn listen_port_is_first_loopback_listener() {
    assert_eq!(listen_port_of(LSOF_OUTPUT), Some(3080));
    assert_eq!(listen_port_of(""), None);
    assert_eq!(listen_port_of("node 1 me 20u IPv4 0x1 0t0 TCP 127.0.0.1:3080->127.0.0.1:5000 (ESTABLISHED)\n"), None);
}

#[test]
fn port_of_one_lsof_line() {
    assert_eq!(port_of_line("node 1 me 20u IPv4 0x1 0t0 TCP 127.0.0.1:65535 (LISTEN)"), Some(65535));
    assert_eq!(port_of_line("node 1 me 20u IPv4 0x1 0t0 TCP 127.0.0.1:65536 (LISTEN)"), None);
    assert_eq!(port_of_line("node 1 me 20u IPv4 0x1 0t0 TCP *:3080 (LISTEN)"), None);
    assert_eq!(port_of_line("TCP 127.0.0.1:3080"), None);
    // the first field with the prefix decides, even where it does not parse
    assert_eq!(port_of_line("TCP 127.0.0.1:x 127.0.0.1:3080 (LISTEN)"), None);
}

#[test]
fn instances_are_sorted_and_deduplicated_by_port() {
    let listen = |port: u16| format!("node 1 me 20u IPv4 0x1 0t0 TCP 127.0.0.1:{port} (LISTEN)\n");
    let probes = vec![
        (10, listen(4000)),
        (11, String::new()),
        (12, listen(3080)),
        (13, listen(4000)),
        (14, listen(5000)),
        (15, listen(3080)),
    ];
    assert_eq!(
        find_running_instances(&probes),
        vec![
            DshInstance { pid: 12, port: 3080 },
            DshInstance { pid: 10, port: 4000 },
            DshInstance { pid: 14, port: 5000 },
        ]
    );
    assert!(find_running_instances(&Vec::new()).is_empty());
}
