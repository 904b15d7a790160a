use ccc::sshkit::exec::ExecOutcome;
use ccc::sshkit::paths::{ccc_root, data_root, forwards_dir, is_dev_mode};
use ccc::sshkit::ssh_config::{
    build_master_ssh_args, build_slave_ssh_args, control_master_active, expand_tilde,
    identity_candidates, own_control_path, parse, parse_ssh_g, resolve, server_alive_interval,
    split_kv, ssh_g_output, user_has_control_master, ConfigError, SshHost, CCC_CONTROL_PATH,
};

fn g(alias: &str, output: &str) -> SshHost {
    parse_ssh_g(alias, output, &None, &Vec::new())
}

#[test]
fn test_parse_basic() {
    let config = r#"
Host dev
    HostName 192.168.1.10
    Port 2222
    User ubuntu
    IdentityFile ~/.ssh/id_ed25519

Host prod
    HostName prod.example.com
    User deploy
    ProxyJump bastion

Host *
    ServerAliveInterval 60
"#;
    let hosts = parse(config, &Some("/home/me".to_string()));
    assert_eq!(hosts.len(), 2);
    assert_eq!(hosts[0].alias, "dev");
    assert_eq!(hosts[0].hostname, "192.168.1.10");
    assert_eq!(hosts[0].port, 2222);
    assert_eq!(hosts[0].user, Some("ubuntu".to_string()));
    assert_eq!(hosts[0].proxy_jump, None);
    assert_eq!(hosts[1].alias, "prod");
    assert_eq!(hosts[1].port, 22);
    assert_eq!(hosts[1].proxy_jump, Some("bastion".to_string()));
    assert_eq!(
        hosts[0].identity_file.as_deref(),
        Some("/home/me/.ssh/id_ed25519")
    );
}

#[test]
fn test_parse_ssh_g() {
    let output = "\
hostname 10.0.0.5
port 22
user ubuntu
identityfile ~/.ssh/id_ed25519
proxyjump bastion
";
    let host = g("dev-host", output);
    assert_eq!(host.alias, "dev-host");
    assert_eq!(host.hostname, "10.0.0.5");
    assert_eq!(host.port, 22);
    assert_eq!(host.user, Some("ubuntu".to_string()));
    assert_eq!(host.proxy_jump, Some("bastion".to_string()));
}

#[test]
fn test_parse_ssh_g_no_proxy() {
    let output = "\
hostname direct.example.com
port 2222
user deploy
proxyjump none
";
    let host = g("direct", output);
    assert_eq!(host.hostname, "direct.example.com");
    assert_eq!(host.port, 2222);
    assert_eq!(host.proxy_jump, None);
}

#[test]
fn test_parse_ssh_g_control_master() {
    let output = "\
hostname 10.0.0.5
port 22
user ubuntu
controlmaster auto
controlpath /tmp/ssh-%r@%h:%p
controlpersist 60
";
    let host = g("dev", output);
    assert_eq!(host.control_master, Some("auto".to_string()));
    assert_eq!(host.control_path, Some("/tmp/ssh-%r@%h:%p".to_string()));
    assert_eq!(host.control_persist, Some("60".to_string()));
}

#[test]
fn test_parse_ssh_g_control_master_defaults() {
    let output = "\
hostname 10.0.0.5
port 22
controlmaster no
controlpath none
controlpersist no
";
    let host = g("dev", output);
    assert_eq!(host.control_master, Some("no".to_string()));
    assert_eq!(host.control_path, None);
    assert_eq!(host.control_persist, Some("no".to_string()));
}

#[test]
fn test_user_has_control_master_no() {
    let output = "\
hostname 10.0.0.5
port 22
controlmaster no
";
    let host = g("dev", output);
    let has_cm = host
        .control_master
        .as_deref()
        .is_some_and(|v| !matches!(v, "no" | "none" | "false"));
    assert!(!has_cm);
    assert!(!control_master_active(&host));
    assert_eq!(user_has_control_master(Ok(host)).ok(), Some(false));
}

#[test]
fn test_user_has_control_master_auto() {
    let output = "\
hostname 10.0.0.5
port 22
controlmaster auto
controlpath /tmp/ssh-%C
controlpersist 30
";
    let host = g("dev", output);
    let has_cm = host
        .control_master
        .as_deref()
        .is_some_and(|v| !matches!(v, "no" | "none" | "false"));
    assert!(has_cm);
    assert!(control_master_active(&host));
    assert_eq!(user_has_control_master(Ok(host)).ok(), Some(true));
}

#[test]
fn control_path_template_uses_hash_token() {
    assert!(CCC_CONTROL_PATH.contains("%C"));
    assert!(CCC_CONTROL_PATH.starts_with("~/.ssh/"));
}

#[test]
fn identity_counts_where_it_is_there() {
    let output = "identityfile ~/.ssh/a\nidentityfile ~/.ssh/b\n";
    let home = Some("/home/me".to_string());
    assert_eq!(
        identity_candidates(output, &home),
        vec!["/home/me/.ssh/a".to_string(), "/home/me/.ssh/b".to_string()]
    );
    let there = vec!["/home/me/.ssh/a".to_string()];
    assert_eq!(
        parse_ssh_g("h", output, &home, &there).identity_file.as_deref(),
        Some("/home/me/.ssh/a")
    );
    assert_eq!(expand_tilde("~/x", &None), "~/x");
    assert_eq!(expand_tilde("/x", &home), "/x");
}

#[test]
fn keys_and_values_are_told_apart() {
    assert!(split_kv("Host dev") == Some(("Host".to_string(), "dev".to_string())));
    assert!(split_kv("Port=22") == Some(("Port".to_string(), "22".to_string())));
    assert!(split_kv("Word").is_none());
}

#[test]
fn failures_of_the_configuration_are_handed_on() {
    assert!(matches!(
        ssh_g_output(Err("no ssh".into())),
        Err(ConfigError::NotStarted(_))
    ));
    let failed = ExecOutcome {
        code: Some(1),
        stdout: String::new(),
        stderr: "bad".into(),
        timed_out: false,
    };
    assert!(matches!(ssh_g_output(Ok(failed)), Err(ConfigError::Failed(_))));
    let went = ExecOutcome {
        code: Some(0),
        stdout: "hostname h\n".into(),
        stderr: String::new(),
        timed_out: false,
    };
    let output = ssh_g_output(Ok(went));
    let host = resolve("a", output, &None, &Vec::new()).ok().unwrap();
    assert_eq!(host.hostname, "h");
    assert!(user_has_control_master(Err(ConfigError::Failed("x".into()))).is_err());
}

#[test]
fn alive_interval_is_read() {
    assert_eq!(server_alive_interval("serveraliveinterval 15\n"), Some(15));
    assert_eq!(server_alive_interval("serveraliveinterval x\n"), None);
    assert_eq!(server_alive_interval("user me\n"), None);
}

#[test]
fn own_master_has_its_own_path() {
    let path = own_control_path();
    assert!(path.contains(CCC_CONTROL_PATH));
    let host = || Ok(g("h", "hostname h\n"));
    let master = build_master_ssh_args("h", 40001, host()).ok().unwrap();
    assert_eq!(master[0], "-M");
    assert!(master.contains(&path));
    assert!(master.contains(&"127.0.0.1:40001:127.0.0.1:40001".to_string()));
    let slave = build_slave_ssh_args("h", true, Some(40001), host()).ok().unwrap();
    assert!(slave.contains(&path));
    assert!(!slave.contains(&"-R".to_string()));
    let alone = build_slave_ssh_args("h", false, Some(40001), host()).ok().unwrap();
    assert_eq!(
        alone[3..],
        [
            "-R".to_string(),
            "127.0.0.1:40001:127.0.0.1:40001".to_string(),
            "h".to_string()
        ]
    );
    let failed = || Err(ConfigError::Failed("x".into()));
    assert!(build_master_ssh_args("h", 1, failed()).is_err());
    assert!(build_slave_ssh_args("h", true, None, failed()).is_err());
}

#[test]
fn roots_lie_in_the_home_directory() {
    let home = Some("/home/me".to_string());
    assert_eq!(ccc_root(&home).ok().unwrap(), "/home/me/.ccc");
    assert!(ccc_root(&None).is_err());
    assert_eq!(data_root(&home, &None).ok().unwrap(), "/home/me/.ccc");
    let dev = Some("1".to_string());
    assert_eq!(
        is_dev_mode(&dev),
        data_root(&home, &dev).ok().unwrap() == "/home/me/.ccc/dev"
    );
    assert!(forwards_dir(&home, &None).ok().unwrap().ends_with("/forwards"));
}
