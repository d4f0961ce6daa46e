use anchor_tray_app::env_map::EnvMap;
use anchor_tray_app::stack::{
    default_stack, log_dir, log_file_name, rotated_log_file_name, stack_candidates, StackConfig,
    StackJson, StackLauncher, StackService,
};

fn env(pairs: &[(&str, &str)]) -> EnvMap {
    let mut m = EnvMap::new();
    for (k, v) in pairs {
        m.insert(k.to_string(), v.to_string());
    }
    m
}

fn launcher(cmd: &str, args: &[&str]) -> StackLauncher {
    StackLauncher { command: cmd.to_string(), args: args.iter().map(|a| a.to_string()).collect() }
}

fn service(name: &str, port: u16, keys: &[&str]) -> StackService {
    StackService {
        name: name.to_string(),
        port,
        dev: launcher("npm", &["run", "dev", "--prefix", "${HOME}/src/${HOME}"]),
        prod: launcher("node", &["${HOME}/dist/server.js"]),
        env_keys: keys.iter().map(|k| k.to_string()).collect(),
        startup_grace_ms: Some(3000),
    }
}

fn lookup(m: &EnvMap, k: &str) -> Option<String> {
    m.get(&k.to_string())
}

#[test]
fn config_defaults_without_environment() {
    let cfg = StackConfig::from_env(&EnvMap::new());
    assert_eq!(cfg.home, "/tmp");
    assert!(!cfg.use_local);
    assert_eq!(cfg.anchor_db, "/tmp/anchor-backend/server/infra/anchor.db");
    assert_eq!(cfg.security_token, "dev-security-token-change-me");
    assert_eq!(cfg.push_token, "dev-push-token-change-me");
    assert_eq!(cfg.backend_port, 3001);
}

#[test]
fn config_reads_the_environment() {
    let e = env(&[
        ("HOME", "/home/ann"),
        ("ANCHOR_USE_LOCAL_DEV", "true"),
        ("SECURITY_API_TOKEN", "sek"),
        ("PUSH_TOKEN", "psh"),
        ("ANCHOR_BACKEND_PORT", "4001"),
    ]);
    let cfg = StackConfig::from_env(&e);
    assert_eq!(cfg.home, "/home/ann");
    assert!(cfg.use_local);
    assert_eq!(cfg.anchor_db, "/home/ann/anchor-backend/server/infra/anchor.db");
    assert_eq!(cfg.security_token, "sek");
    assert_eq!(cfg.push_token, "psh");
    assert_eq!(cfg.backend_port, 4001);
}

#[test]
fn config_rejects_a_bad_port_and_a_loose_flag() {
    let cfg = StackConfig::from_env(&env(&[("ANCHOR_BACKEND_PORT", "70000"), ("ANCHOR_USE_LOCAL_DEV", "TRUE")]));
    assert_eq!(cfg.backend_port, 3001);
    assert!(!cfg.use_local);
    let cfg = StackConfig::from_env(&env(&[("ANCHOR_BACKEND_PORT", "port")]));
    assert_eq!(cfg.backend_port, 3001);
}

#[test]
fn definitions_follow_the_stack_file() {
    let stack = StackJson {
        services: vec![
            service("anchor-backend", 3001, &["PORT", "ANCHOR_DB_PATH", "MCP_ENABLED", "PUSH_TOKEN", "EXTRA", "MISSING"]),
            service("anchor-security", 3004, &[
                "PORT",
                "SECURITY_DB_PATH",
                "DETECT_TICK_MS",
                "PENTEST_TARGET",
                "PENTEST_ADMIN_TARGET",
                "SECURITY_API_TOKEN",
                "ADMIN_API_TOKEN",
                "SECURITY_API_URL",
            ]),
        ],
    };
    let e = env(&[("HOME", "/h"), ("ANCHOR_BACKEND_PORT", "5001"), ("EXTRA", "x")]);
    let defs = default_stack(&stack, &e);
    assert_eq!(defs.len(), 2);

    let b = &defs[0];
    assert_eq!(b.name, "anchor-backend");
    assert_eq!(b.cmd, "node");
    assert_eq!(b.args, vec!["/h/dist/server.js".to_string()]);
    assert_eq!(b.port, Some(3001));
    assert_eq!(b.env.len(), 5);
    assert_eq!(lookup(&b.env, "PORT").unwrap(), "5001");
    assert_eq!(lookup(&b.env, "ANCHOR_DB_PATH").unwrap(), "/h/anchor-backend/server/infra/anchor.db");
    assert_eq!(lookup(&b.env, "MCP_ENABLED").unwrap(), "true");
    assert_eq!(lookup(&b.env, "PUSH_TOKEN").unwrap(), "dev-push-token-change-me");
    assert_eq!(lookup(&b.env, "EXTRA").unwrap(), "x");
    assert_eq!(lookup(&b.env, "MISSING"), None);

    let s = &defs[1];
    assert_eq!(s.port, Some(3004));
    assert_eq!(s.env.len(), 8);
    assert_eq!(lookup(&s.env, "PORT").unwrap(), "3004");
    assert_eq!(lookup(&s.env, "SECURITY_DB_PATH").unwrap(), "/h/anchor-security/security.db");
    assert_eq!(lookup(&s.env, "DETECT_TICK_MS").unwrap(), "30000");
    assert_eq!(lookup(&s.env, "PENTEST_TARGET").unwrap(), "http://localhost:3001");
    assert_eq!(lookup(&s.env, "PENTEST_ADMIN_TARGET").unwrap(), "http://localhost:3002");
    assert_eq!(lookup(&s.env, "SECURITY_API_TOKEN").unwrap(), "dev-security-token-change-me");
    assert_eq!(lookup(&s.env, "ADMIN_API_TOKEN").unwrap(), "dev-security-token-change-me");
    assert_eq!(lookup(&s.env, "SECURITY_API_URL").unwrap(), "http://localhost:3004");
}

#[test]
fn local_development_uses_the_dev_launcher() {
    let stack = StackJson { services: vec![service("anchor-admin-backend", 3002, &["PORT", "PORT"])] };
    let defs = default_stack(&stack, &env(&[("HOME", "/u"), ("ANCHOR_USE_LOCAL_DEV", "true")]));
    let d = &defs[0];
    assert_eq!(d.cmd, "npm");
    assert_eq!(d.args, vec!["run".to_string(), "dev".to_string(), "--prefix".to_string(), "/u/src//u".to_string()]);
    assert_eq!(d.env.len(), 1);
    assert_eq!(lookup(&d.env, "PORT").unwrap(), "3002");
}

#[test]
fn empty_stack_gives_no_definitions() {
    assert!(default_stack(&StackJson { services: vec![] }, &EnvMap::new()).is_empty());
}

#[test]
fn log_directory_and_file_names() {
    assert_eq!(log_dir(&EnvMap::new()), "/tmp/.anchor/logs");
    assert_eq!(log_dir(&env(&[("HOME", "/home/b")])), "/home/b/.anchor/logs");
    assert_eq!(log_dir(&env(&[("HOME", "/home/b"), ("ANCHOR_LOG_DIR", "/var/log/a")])), "/var/log/a");
    assert_eq!(log_file_name("anchor-backend"), "anchor-backend.log");
    assert_eq!(rotated_log_file_name("anchor-backend"), "anchor-backend.log.1");
    for n in ["anchor-backend", "", "a.b", "x.", "a/", "a//", "a/b"] {
        let p = std::path::Path::new("/logs").join(format!("{}.log", n));
        assert_eq!(
            std::path::Path::new("/logs").join(rotated_log_file_name(n)),
            p.with_extension("log.1"),
            "name {:?}",
            n
        );
    }
}

#[test]
fn stack_file_candidates() {
    assert_eq!(
        stack_candidates(&env(&[("HOME", "/home/c")])),
        vec!["stack.json".to_string(), "../stack.json".to_string(), "/home/c/anchor-tray-app/stack.json".to_string()]
    );
    assert_eq!(stack_candidates(&EnvMap::new())[2], "/anchor-tray-app/stack.json");
}
