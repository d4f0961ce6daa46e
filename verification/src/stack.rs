//! The service stack as read from its description file, and the definitions
//! the supervisor launches from it.
use vstd::prelude::*;

use crate::env_map::EnvMap;
use crate::service::{ServiceDef, ServiceDefView, strings_view};
use crate::text::{decimal, decimal_string, parse_port, parsed_u16, replace_all, replaced};

verus! {

/// One way to launch a service: a command and its arguments.
pub struct StackLauncher {
    pub command: String,
    pub args: Vec<String>,
}

/// A service as the stack file describes it.
pub struct StackService {
    pub name: String,
    pub port: u16,
    /// Launcher used when running from a local development checkout.
    pub dev: StackLauncher,
    /// Launcher used otherwise.
    pub prod: StackLauncher,
    /// Names of the environment variables the service is given.
    pub env_keys: Vec<String>,
    /// Start-up grace period the stack file suggests; not used here.
    pub startup_grace_ms: Option<u64>,
}

/// The whole stack file.
pub struct StackJson {
    pub services: Vec<StackService>,
}

/// Settings taken from the supervisor's own environment.
pub struct StackConfig {
    pub home: String,
    pub use_local: bool,
    pub anchor_db: String,
    pub security_token: String,
    pub push_token: String,
    pub backend_port: u16,
}

/// The mathematical content of a `StackConfig`.
pub struct StackConfigView {
    pub home: Seq<char>,
    pub use_local: bool,
    pub anchor_db: Seq<char>,
    pub security_token: Seq<char>,
    pub push_token: Seq<char>,
    pub backend_port: u16,
}

impl View for StackConfig {
    type V = StackConfigView;

    open spec fn view(&self) -> StackConfigView {
        StackConfigView {
            home: self.home@,
            use_local: self.use_local,
            anchor_db: self.anchor_db@,
            security_token: self.security_token@,
            push_token: self.push_token@,
            backend_port: self.backend_port,
        }
    }
}

/// The value of variable `k` in `env`, or `default` where it is not set.
pub open spec fn var_or(env: Map<Seq<char>, Seq<char>>, k: Seq<char>, default: Seq<char>) -> Seq<char> {
    if env.contains_key(k) {
        env[k]
    } else {
        default
    }
}

/// The home directory: `HOME`, or `/tmp` where it is not set.
pub open spec fn home_of(env: Map<Seq<char>, Seq<char>>) -> Seq<char> {
    var_or(env, "HOME"@, "/tmp"@)
}

/// The port of the user-facing backend: `ANCHOR_BACKEND_PORT` where it is set
/// and parses as a port number, 3001 otherwise.
pub open spec fn backend_port_of(env: Map<Seq<char>, Seq<char>>) -> u16 {
    if env.contains_key("ANCHOR_BACKEND_PORT"@) && parsed_u16(env["ANCHOR_BACKEND_PORT"@]) is Some {
        parsed_u16(env["ANCHOR_BACKEND_PORT"@])->0
    } else {
        3001
    }
}

/// The settings that the environment `env` gives.
pub open spec fn config_of(env: Map<Seq<char>, Seq<char>>) -> StackConfigView {
    StackConfigView {
        home: home_of(env),
        use_local: env.contains_key("ANCHOR_USE_LOCAL_DEV"@) && env["ANCHOR_USE_LOCAL_DEV"@] == "true"@,
        anchor_db: home_of(env) + "/anchor-backend/server/infra/anchor.db"@,
        security_token: var_or(env, "SECURITY_API_TOKEN"@, "dev-security-token-change-me"@),
        push_token: var_or(env, "PUSH_TOKEN"@, "dev-push-token-change-me"@),
        backend_port: backend_port_of(env),
    }
}

/// The port a service is told to listen on: the configured backend port for
/// the user-facing backend, its own port for every other service.
pub open spec fn port_for(cfg: StackConfigView, svc: StackService) -> u16 {
    if svc.name@ == "anchor-backend"@ {
        cfg.backend_port
    } else {
        svc.port
    }
}

/// The value a service is given for variable `k`, where it is given one. Most
/// names have a fixed meaning; any other is passed on from `env`, if set there.
pub open spec fn env_value_for(
    cfg: StackConfigView,
    svc: StackService,
    env: Map<Seq<char>, Seq<char>>,
    k: Seq<char>,
) -> Option<Seq<char>> {
    if k == "PORT"@ {
        Some(decimal(port_for(cfg, svc) as nat))
    } else if k == "ANCHOR_DB_PATH"@ {
        Some(cfg.anchor_db)
    } else if k == "MCP_ENABLED"@ {
        Some("true"@)
    } else if k == "SECURITY_API_URL"@ {
        Some("http://localhost:3004"@)
    } else if k == "SECURITY_DB_PATH"@ {
        Some(cfg.home + "/anchor-security/security.db"@)
    } else if k == "DETECT_TICK_MS"@ {
        Some("30000"@)
    } else if k == "PENTEST_TARGET"@ {
        Some("http://localhost:3001"@)
    } else if k == "PENTEST_ADMIN_TARGET"@ {
        Some("http://localhost:3002"@)
    } else if k == "SECURITY_API_TOKEN"@ || k == "ADMIN_API_TOKEN"@ {
        Some(cfg.security_token)
    } else if k == "PUSH_TOKEN"@ {
        Some(cfg.push_token)
    } else if env.contains_key(k) {
        Some(env[k])
    } else {
        None
    }
}

/// The environment a service gets from its variable names `keys`, taken in
/// order; a name listed twice keeps its last value.
pub open spec fn service_env(
    cfg: StackConfigView,
    svc: StackService,
    env: Map<Seq<char>, Seq<char>>,
    keys: Seq<Seq<char>>,
) -> Map<Seq<char>, Seq<char>>
    decreases keys.len(),
{
    if keys.len() == 0 {
        Map::empty()
    } else {
        let m = service_env(cfg, svc, env, keys.drop_last());
        match env_value_for(cfg, svc, env, keys.last()) {
            Some(v) => m.insert(keys.last(), v),
            None => m,
        }
    }
}

/// `s` with every `${HOME}` replaced by `home`.
pub open spec fn home_expanded(s: Seq<char>, home: Seq<char>) -> Seq<char> {
    replaced(s, "${HOME}"@, home)
}

/// The definition the supervisor launches for stack service `svc`.
pub open spec fn service_def_of(
    cfg: StackConfigView,
    svc: StackService,
    env: Map<Seq<char>, Seq<char>>,
) -> ServiceDefView {
    let l = if cfg.use_local { svc.dev } else { svc.prod };
    ServiceDefView {
        name: svc.name@,
        cmd: l.command@,
        args: strings_view(l.args@).map_values(|a: Seq<char>| home_expanded(a, cfg.home)),
        env: service_env(cfg, svc, env, strings_view(svc.env_keys@)),
        port: Some(svc.port),
    }
}

/// A variable listed among `keys` whose value does not depend on where it is
/// listed ends up in the environment with that value.
pub proof fn lemma_service_env_listed(
    cfg: StackConfigView,
    svc: StackService,
    env: Map<Seq<char>, Seq<char>>,
    keys: Seq<Seq<char>>,
    k: Seq<char>,
    v: Seq<char>,
)
    requires
        keys.contains(k),
        env_value_for(cfg, svc, env, k) == Some(v),
    ensures
        service_env(cfg, svc, env, keys).contains_key(k),
        service_env(cfg, svc, env, keys)[k] == v,
    decreases keys.len(),
{
    if keys.last() != k {
        let j = choose|j: int| 0 <= j < keys.len() && keys[j] == k;
        assert(j < keys.len() - 1);
        assert(keys.drop_last()[j] == k);
        lemma_service_env_listed(cfg, svc, env, keys.drop_last(), k, v);
    }
}

/// The token value every service is given for `SECURITY_API_TOKEN` and
/// `ADMIN_API_TOKEN`: the supervisor's own `SECURITY_API_TOKEN`, or the
/// development default where that is not set.
pub open spec fn expected_security_token(env: Map<Seq<char>, Seq<char>>) -> Seq<char> {
    if env.contains_key("SECURITY_API_TOKEN"@) {
        env["SECURITY_API_TOKEN"@]
    } else {
        "dev-security-token-change-me"@
    }
}

/// The token value every service is given for `PUSH_TOKEN`: the supervisor's
/// own `PUSH_TOKEN`, or the development default where that is not set.
pub open spec fn expected_push_token(env: Map<Seq<char>, Seq<char>>) -> Seq<char> {
    if env.contains_key("PUSH_TOKEN"@) {
        env["PUSH_TOKEN"@]
    } else {
        "dev-push-token-change-me"@
    }
}

/// The names of variables with a fixed meaning are pairwise different.
proof fn lemma_fixed_names_differ()
    ensures
        "SECURITY_API_TOKEN"@ != "PORT"@,
        "SECURITY_API_TOKEN"@ != "ANCHOR_DB_PATH"@,
        "SECURITY_API_TOKEN"@ != "MCP_ENABLED"@,
        "SECURITY_API_TOKEN"@ != "SECURITY_API_URL"@,
        "SECURITY_API_TOKEN"@ != "SECURITY_DB_PATH"@,
        "SECURITY_API_TOKEN"@ != "DETECT_TICK_MS"@,
        "SECURITY_API_TOKEN"@ != "PENTEST_TARGET"@,
        "SECURITY_API_TOKEN"@ != "PENTEST_ADMIN_TARGET"@,
        "ADMIN_API_TOKEN"@ != "PORT"@,
        "ADMIN_API_TOKEN"@ != "ANCHOR_DB_PATH"@,
        "ADMIN_API_TOKEN"@ != "MCP_ENABLED"@,
        "ADMIN_API_TOKEN"@ != "SECURITY_API_URL"@,
        "ADMIN_API_TOKEN"@ != "SECURITY_DB_PATH"@,
        "ADMIN_API_TOKEN"@ != "DETECT_TICK_MS"@,
        "ADMIN_API_TOKEN"@ != "PENTEST_TARGET"@,
        "ADMIN_API_TOKEN"@ != "PENTEST_ADMIN_TARGET"@,
        "PUSH_TOKEN"@ != "PORT"@,
        "PUSH_TOKEN"@ != "ANCHOR_DB_PATH"@,
        "PUSH_TOKEN"@ != "MCP_ENABLED"@,
        "PUSH_TOKEN"@ != "SECURITY_API_URL"@,
        "PUSH_TOKEN"@ != "SECURITY_DB_PATH"@,
        "PUSH_TOKEN"@ != "DETECT_TICK_MS"@,
        "PUSH_TOKEN"@ != "PENTEST_TARGET"@,
        "PUSH_TOKEN"@ != "PENTEST_ADMIN_TARGET"@,
        "PUSH_TOKEN"@ != "SECURITY_API_TOKEN"@,
        "PUSH_TOKEN"@ != "ADMIN_API_TOKEN"@,
{
    reveal_strlit("SECURITY_API_TOKEN");
    reveal_strlit("ADMIN_API_TOKEN");
    reveal_strlit("PUSH_TOKEN");
    reveal_strlit("PORT");
    reveal_strlit("ANCHOR_DB_PATH");
    reveal_strlit("MCP_ENABLED");
    reveal_strlit("SECURITY_API_URL");
    reveal_strlit("SECURITY_DB_PATH");
    reveal_strlit("DETECT_TICK_MS");
    reveal_strlit("PENTEST_TARGET");
    reveal_strlit("PENTEST_ADMIN_TARGET");
    assert("SECURITY_API_TOKEN"@.len() == 18);
    assert("ADMIN_API_TOKEN"@.len() == 15);
    assert("PUSH_TOKEN"@.len() == 10);
    assert("PORT"@.len() == 4);
    assert("ANCHOR_DB_PATH"@.len() == 14);
    assert("MCP_ENABLED"@.len() == 11);
    assert("SECURITY_API_URL"@.len() == 16);
    assert("SECURITY_DB_PATH"@.len() == 16);
    assert("DETECT_TICK_MS"@.len() == 14);
    assert("PENTEST_TARGET"@.len() == 14);
    assert("PENTEST_ADMIN_TARGET"@.len() == 20);
}

/// A service that lists `SECURITY_API_TOKEN` or `ADMIN_API_TOKEN` gets, under
/// that name, the supervisor's own `SECURITY_API_TOKEN` where it is set, and
/// the development default only where it is not.
pub proof fn lemma_security_token_passed_on(svc: StackService, env: Map<Seq<char>, Seq<char>>, k: Seq<char>)
    requires
        k == "SECURITY_API_TOKEN"@ || k == "ADMIN_API_TOKEN"@,
        strings_view(svc.env_keys@).contains(k),
    ensures
        service_def_of(config_of(env), svc, env).env.contains_key(k),
        service_def_of(config_of(env), svc, env).env[k] == expected_security_token(env),
{
    lemma_fixed_names_differ();
    lemma_service_env_listed(config_of(env), svc, env, strings_view(svc.env_keys@), k, expected_security_token(env));
}

/// A service that lists `PUSH_TOKEN` gets the supervisor's own `PUSH_TOKEN`
/// where it is set, and the development default only where it is not.
pub proof fn lemma_push_token_passed_on(svc: StackService, env: Map<Seq<char>, Seq<char>>)
    requires
        strings_view(svc.env_keys@).contains("PUSH_TOKEN"@),
    ensures
        service_def_of(config_of(env), svc, env).env.contains_key("PUSH_TOKEN"@),
        service_def_of(config_of(env), svc, env).env["PUSH_TOKEN"@] == expected_push_token(env),
{
    lemma_fixed_names_differ();
    lemma_service_env_listed(config_of(env), svc, env, strings_view(svc.env_keys@), "PUSH_TOKEN"@, expected_push_token(env));
}

/// Whether `s` spells the literal `lit`.
fn is_lit(s: &String, lit: &str) -> (r: bool)
    ensures
        r == (s@ == lit@),
{
    *s == String::from_str(lit)
}

/// `s` with every `${HOME}` replaced by `home`.
pub fn expand_home(s: &str, home: &str) -> (r: String)
    ensures
        r@ == home_expanded(s@, home@),
{
    proof { reveal_strlit("${HOME}"); }
    replace_all(s, "${HOME}", home)
}

/// The value of `key` in `env`, or `default` where it is not set.
fn get_or(env: &EnvMap, key: &str, default: &str) -> (r: String)
    requires
        env.wf(),
    ensures
        r@ == var_or(env@, key@, default@),
{
    match env.get(&String::from_str(key)) {
        Some(v) => v,
        None => String::from_str(default),
    }
}

impl StackConfig {
    /// The settings that the environment `env` gives.
    pub fn from_env(env: &EnvMap) -> (cfg: StackConfig)
        requires
            env.wf(),
        ensures
            cfg@ == config_of(env@),
    {
        let home = get_or(env, "HOME", "/tmp");
        let use_local = match env.get(&String::from_str("ANCHOR_USE_LOCAL_DEV")) {
            Some(v) => is_lit(&v, "true"),
            None => false,
        };
        let mut anchor_db = home.clone();
        anchor_db.append("/anchor-backend/server/infra/anchor.db");
        let security_token = get_or(env, "SECURITY_API_TOKEN", "dev-security-token-change-me");
        let push_token = get_or(env, "PUSH_TOKEN", "dev-push-token-change-me");
        let backend_port = match env.get(&String::from_str("ANCHOR_BACKEND_PORT")) {
            Some(v) => match parse_port(v.as_str()) {
                Some(p) => p,
                None => 3001,
            },
            None => 3001,
        };
        StackConfig { home, use_local, anchor_db, security_token, push_token, backend_port }
    }
}

/// The value service `svc` is given for variable `k`, where it is given one.
fn env_value(cfg: &StackConfig, svc: &StackService, env: &EnvMap, k: &String) -> (r: Option<String>)
    requires
        env.wf(),
    ensures
        match env_value_for(cfg@, *svc, env@, k@) {
            Some(v) => r is Some && r->0@ == v,
            None => r is None,
        },
{
    if is_lit(k, "PORT") {
        let port = if is_lit(&svc.name, "anchor-backend") { cfg.backend_port } else { svc.port };
        Some(decimal_string(port as u64))
    } else if is_lit(k, "ANCHOR_DB_PATH") {
        Some(cfg.anchor_db.clone())
    } else if is_lit(k, "MCP_ENABLED") {
        Some(String::from_str("true"))
    } else if is_lit(k, "SECURITY_API_URL") {
        Some(String::from_str("http://localhost:3004"))
    } else if is_lit(k, "SECURITY_DB_PATH") {
        let mut p = cfg.home.clone();
        p.append("/anchor-security/security.db");
        Some(p)
    } else if is_lit(k, "DETECT_TICK_MS") {
        Some(String::from_str("30000"))
    } else if is_lit(k, "PENTEST_TARGET") {
        Some(String::from_str("http://localhost:3001"))
    } else if is_lit(k, "PENTEST_ADMIN_TARGET") {
        Some(String::from_str("http://localhost:3002"))
    } else if is_lit(k, "SECURITY_API_TOKEN") || is_lit(k, "ADMIN_API_TOKEN") {
        Some(cfg.security_token.clone())
    } else if is_lit(k, "PUSH_TOKEN") {
        Some(cfg.push_token.clone())
    } else {
        env.get(k)
    }
}

/// The definition the supervisor launches for stack service `svc`.
pub fn service_def(cfg: &StackConfig, svc: &StackService, env: &EnvMap) -> (d: ServiceDef)
    requires
        env.wf(),
    ensures
        d.wf(),
        d@ == service_def_of(cfg@, *svc, env@),
{
    let ghost keys = strings_view(svc.env_keys@);
    let mut m = EnvMap::new();
    let mut i: usize = 0;
    while i < svc.env_keys.len()
        invariant
            env.wf(),
            m.wf(),
            keys == strings_view(svc.env_keys@),
            i <= svc.env_keys@.len(),
            m@ == service_env(cfg@, *svc, env@, keys.take(i as int)),
        decreases svc.env_keys@.len() - i,
    {
        let k = &svc.env_keys[i];
        proof {
            assert(keys.take(i + 1).drop_last() =~= keys.take(i as int));
            assert(keys.take(i + 1).last() == k@);
        }
        match env_value(cfg, svc, env, k) {
            Some(v) => m.insert(k.clone(), v),
            None => {},
        }
        i = i + 1;
    }
    assert(keys.take(svc.env_keys@.len() as int) =~= keys);
    let l = if cfg.use_local { &svc.dev } else { &svc.prod };
    let mut args: Vec<String> = Vec::new();
    let mut j: usize = 0;
    while j < l.args.len()
        invariant
            j <= l.args@.len(),
            args@.len() == j,
            forall|a: int| 0 <= a < j ==> (#[trigger] args@[a])@ == home_expanded(l.args@[a]@, cfg.home@),
        decreases l.args@.len() - j,
    {
        args.push(expand_home(l.args[j].as_str(), cfg.home.as_str()));
        j = j + 1;
    }
    let d = ServiceDef {
        name: svc.name.clone(),
        cmd: l.command.clone(),
        args,
        env: m,
        port: Some(svc.port),
    };
    assert(d@.args =~= strings_view(l.args@).map_values(|a: Seq<char>| home_expanded(a, cfg.home@)));
    d
}

/// The definitions of every service of the stack, in the order of the stack
/// file, with the settings that the environment `env` gives.
pub fn default_stack(stack: &StackJson, env: &EnvMap) -> (defs: Vec<ServiceDef>)
    requires
        env.wf(),
    ensures
        defs@.len() == stack.services@.len(),
        forall|i: int| 0 <= i < defs@.len() ==> (#[trigger] defs@[i]).wf() && defs@[i]@ == service_def_of(
            config_of(env@),
            stack.services@[i],
            env@,
        ),
        forall|i: int|
            0 <= i < defs@.len() && strings_view(stack.services@[i].env_keys@).contains("SECURITY_API_TOKEN"@)
                ==> (#[trigger] defs@[i]@.env).contains_key("SECURITY_API_TOKEN"@)
                && defs@[i]@.env["SECURITY_API_TOKEN"@] == expected_security_token(env@),
        forall|i: int|
            0 <= i < defs@.len() && strings_view(stack.services@[i].env_keys@).contains("ADMIN_API_TOKEN"@)
                ==> (#[trigger] defs@[i]@.env).contains_key("ADMIN_API_TOKEN"@)
                && defs@[i]@.env["ADMIN_API_TOKEN"@] == expected_security_token(env@),
        forall|i: int|
            0 <= i < defs@.len() && strings_view(stack.services@[i].env_keys@).contains("PUSH_TOKEN"@)
                ==> (#[trigger] defs@[i]@.env).contains_key("PUSH_TOKEN"@) && defs@[i]@.env["PUSH_TOKEN"@]
                == expected_push_token(env@),
{
    proof {
        assert forall|i: int|
            0 <= i < stack.services@.len() && strings_view(stack.services@[i].env_keys@).contains("SECURITY_API_TOKEN"@)
                implies service_def_of(config_of(env@), stack.services@[i], env@).env.contains_key("SECURITY_API_TOKEN"@)
                && service_def_of(config_of(env@), stack.services@[i], env@).env["SECURITY_API_TOKEN"@]
                == expected_security_token(env@) by {
            lemma_security_token_passed_on(stack.services@[i], env@, "SECURITY_API_TOKEN"@);
        }
        assert forall|i: int|
            0 <= i < stack.services@.len() && strings_view(stack.services@[i].env_keys@).contains("ADMIN_API_TOKEN"@)
                implies service_def_of(config_of(env@), stack.services@[i], env@).env.contains_key("ADMIN_API_TOKEN"@)
                && service_def_of(config_of(env@), stack.services@[i], env@).env["ADMIN_API_TOKEN"@]
                == expected_security_token(env@) by {
            lemma_security_token_passed_on(stack.services@[i], env@, "ADMIN_API_TOKEN"@);
        }
        assert forall|i: int|
            0 <= i < stack.services@.len() && strings_view(stack.services@[i].env_keys@).contains("PUSH_TOKEN"@)
                implies service_def_of(config_of(env@), stack.services@[i], env@).env.contains_key("PUSH_TOKEN"@)
                && service_def_of(config_of(env@), stack.services@[i], env@).env["PUSH_TOKEN"@]
                == expected_push_token(env@) by {
            lemma_push_token_passed_on(stack.services@[i], env@);
        }
    }
    let cfg = StackConfig::from_env(env);
    let mut defs: Vec<ServiceDef> = Vec::new();
    let mut i: usize = 0;
    while i < stack.services.len()
        invariant
            env.wf(),
            cfg@ == config_of(env@),
            i <= stack.services@.len(),
            defs@.len() == i,
            forall|a: int| 0 <= a < i ==> (#[trigger] defs@[a]).wf() && defs@[a]@ == service_def_of(
                config_of(env@),
                stack.services@[a],
                env@,
            ),
        decreases stack.services@.len() - i,
    {
        defs.push(service_def(&cfg, &stack.services[i], env));
        i = i + 1;
    }
    defs
}

/// The directory that receives the services' log files: `ANCHOR_LOG_DIR`, or
/// `.anchor/logs` under the home directory.
pub open spec fn log_dir_of(env: Map<Seq<char>, Seq<char>>) -> Seq<char> {
    var_or(env, "ANCHOR_LOG_DIR"@, home_of(env) + "/.anchor/logs"@)
}

/// The directory that receives the services' log files.
pub fn log_dir(env: &EnvMap) -> (r: String)
    requires
        env.wf(),
    ensures
        r@ == log_dir_of(env@),
{
    match env.get(&String::from_str("ANCHOR_LOG_DIR")) {
        Some(d) => d,
        None => {
            let mut d = get_or(env, "HOME", "/tmp");
            d.append("/.anchor/logs");
            d
        },
    }
}

/// The places where the stack file is looked for, in order: the working
/// directory, its parent, and `anchor-tray-app` under `HOME` (or under the
/// root where `HOME` is not set).
pub fn stack_candidates(env: &EnvMap) -> (r: Vec<String>)
    requires
        env.wf(),
    ensures
        strings_view(r@) == seq![
            "stack.json"@,
            "../stack.json"@,
            var_or(env@, "HOME"@, ""@) + "/anchor-tray-app/stack.json"@,
        ],
{
    let mut r: Vec<String> = Vec::new();
    r.push(String::from_str("stack.json"));
    r.push(String::from_str("../stack.json"));
    let mut p = get_or(env, "HOME", "");
    p.append("/anchor-tray-app/stack.json");
    r.push(p);
    assert(strings_view(r@) =~= seq![
        "stack.json"@,
        "../stack.json"@,
        var_or(env@, "HOME"@, ""@) + "/anchor-tray-app/stack.json"@,
    ]);
    r
}

/// The name of the log file of service `name`.
pub fn log_file_name(name: &str) -> (r: String)
    ensures
        r@ == name@ + ".log"@,
{
    let mut r = String::from_str(name);
    r.append(".log");
    r
}

/// The name a full log file of service `name` is moved to: its log file's
/// name with the extension `log` replaced by `log.1`. Where the last path
/// part of `name` is empty, the log file's last part is just `.log`, which
/// has no extension, so `.log.1` is added to it instead.
pub open spec fn rotated_name_of(name: Seq<char>) -> Seq<char> {
    if name.len() == 0 || name.last() == '/' {
        name + ".log.log.1"@
    } else {
        name + ".log.1"@
    }
}

/// The name a full log file of service `name` is moved to.
pub fn rotated_log_file_name(name: &str) -> (r: String)
    ensures
        r@ == rotated_name_of(name@),
{
    let n = name.unicode_len();
    if n == 0 || name.get_char(n - 1) == '/' {
        let mut r = String::from_str(name);
        r.append(".log.log.1");
        return r;
    }
    let mut r = String::from_str(name);
    r.append(".log.1");
    r
}

} // verus!
