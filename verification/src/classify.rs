//! The kind of a process (web server, database, development tool, system
//! process or other), guessed from its name, path and command line.
use vstd::prelude::*;
use crate::text::{
    ascii_lower, chars_of, contains_exec, contains_text, eq_chars, lower_chars, owned, string_from_chars,
};

verus! {

/// Some needle occurs in `hay`.
pub open spec fn contains_any_text(hay: Seq<char>, needles: Seq<Seq<char>>) -> bool {
    exists|i: int| 0 <= i < needles.len() && contains_text(hay, #[trigger] needles[i])
}

pub open spec fn views(needles: Seq<&str>) -> Seq<Seq<char>> {
    needles.map_values(|s: &str| s@)
}

pub fn contains_any(value: &str, needles: &[&str]) -> (r: bool)
    ensures
        r == contains_any_text(value@, views(needles@)),
{
    let hay = chars_of(value);
    let mut i: usize = 0;
    while i < needles.len()
        invariant
            i <= needles.len(),
            hay@ == value@,
            forall|k: int| 0 <= k < i ==> !contains_text(value@, #[trigger] views(needles@)[k]),
        decreases needles.len() - i,
    {
        let n = chars_of(needles[i]);
        if contains_exec(hay.as_slice(), n.as_slice()) {
            assert(views(needles@)[i as int] == needles@[i as int]@);
            return true;
        }
        i = i + 1;
    }
    false
}

pub open spec fn web_server_names() -> Seq<Seq<char>> {
    seq![
        "nginx"@,
        "apache"@,
        "httpd"@,
        "caddy"@,
        "traefik"@,
        "lighttpd"@,
        "iis"@,
        "iisexpress"@,
    ]
}

pub open spec fn database_names() -> Seq<Seq<char>> {
    seq![
        "postgres"@,
        "postgresql"@,
        "postmaster"@,
        "pg_ctl"@,
        "pgsql"@,
        "mysql"@,
        "mysqld"@,
        "mysqladmin"@,
        "mariadb"@,
        "mariadbd"@,
        "redis"@,
        "mongo"@,
        "sqlite"@,
        "cockroach"@,
        "clickhouse"@,
        "sqlservr"@,
        "mssql"@,
    ]
}

pub open spec fn development_names() -> Seq<Seq<char>> {
    seq![
        "node"@,
        "npm"@,
        "yarn"@,
        "python"@,
        "ruby"@,
        "php"@,
        "java"@,
        "go"@,
        "cargo"@,
        "dotnet"@,
        "vite"@,
        "webpack"@,
        "esbuild"@,
        "next"@,
        "nuxt"@,
        "remix"@,
        "bun"@,
        "deno"@,
    ]
}

pub open spec fn system_names() -> Seq<Seq<char>> {
    seq!["svchost"@, "csrss"@, "lsass"@, "winlogon"@, "services"@, "system"@, "smss"@, "dwm"@]
}

/// The text searched: `"{process} {path} {command}"`, ASCII-lowered.
pub open spec fn haystack(process: Seq<char>, path: Seq<char>, command: Seq<char>) -> Seq<char> {
    ascii_lower(process + seq![' '] + path + seq![' '] + command)
}

/// The kind of a process: the first category, in the order web server,
/// database, development, system, one of whose names occurs in the haystack.
pub open spec fn process_kind(process: Seq<char>, path: Seq<char>, command: Seq<char>) -> Seq<char> {
    let h = haystack(process, path, command);
    if contains_any_text(h, web_server_names()) {
        "web_server"@
    } else if contains_any_text(h, database_names()) {
        "database"@
    } else if contains_any_text(h, development_names()) {
        "development"@
    } else if contains_any_text(h, system_names()) {
        "system"@
    } else {
        "other"@
    }
}

pub fn detect_process_type(process: &str, path: &str, command: &str) -> (r: String)
    ensures
        r@ == process_kind(process@, path@, command@),
{
    let mut joined: Vec<char> = chars_of(process);
    joined.push(' ');
    let vp = chars_of(path);
    crate::net::append_chars(&mut joined, vp.as_slice());
    joined.push(' ');
    let vc = chars_of(command);
    crate::net::append_chars(&mut joined, vc.as_slice());
    let lowered = lower_chars(joined.as_slice());
    let hay = string_from_chars(lowered.as_slice());
    assert(hay@ == haystack(process@, path@, command@));
    let web = vec!["nginx", "apache", "httpd", "caddy", "traefik", "lighttpd", "iis", "iisexpress"];
    assert(views(web@) =~= web_server_names());
    if contains_any(hay.as_str(), web.as_slice()) {
        return owned("web_server");
    }
    let db = vec![
        "postgres",
        "postgresql",
        "postmaster",
        "pg_ctl",
        "pgsql",
        "mysql",
        "mysqld",
        "mysqladmin",
        "mariadb",
        "mariadbd",
        "redis",
        "mongo",
        "sqlite",
        "cockroach",
        "clickhouse",
        "sqlservr",
        "mssql",
    ];
    assert(views(db@) =~= database_names());
    if contains_any(hay.as_str(), db.as_slice()) {
        return owned("database");
    }
    let dev = vec![
        "node",
        "npm",
        "yarn",
        "python",
        "ruby",
        "php",
        "java",
        "go",
        "cargo",
        "dotnet",
        "vite",
        "webpack",
        "esbuild",
        "next",
        "nuxt",
        "remix",
        "bun",
        "deno",
    ];
    assert(views(dev@) =~= development_names());
    if contains_any(hay.as_str(), dev.as_slice()) {
        return owned("development");
    }
    let sys = vec!["svchost", "csrss", "lsass", "winlogon", "services", "system", "smss", "dwm"];
    assert(views(sys@) =~= system_names());
    if contains_any(hay.as_str(), sys.as_slice()) {
        return owned("system");
    }
    owned("other")
}

/// The label shown for a process kind.
pub open spec fn kind_label(process_type: Seq<char>) -> Seq<char> {
    if process_type == "web_server"@ {
        "Web Server"@
    } else if process_type == "database"@ {
        "Database"@
    } else if process_type == "development"@ {
        "Development"@
    } else if process_type == "system"@ {
        "System"@
    } else {
        "Other"@
    }
}

fn is_text(v: &Vec<char>, lit: &str) -> (r: bool)
    ensures
        r == (v@ == lit@),
{
    let l = chars_of(lit);
    eq_chars(v.as_slice(), l.as_slice())
}

pub fn process_type_label(process_type: &str) -> (r: &'static str)
    ensures
        r@ == kind_label(process_type@),
{
    let v = chars_of(process_type);
    if is_text(&v, "web_server") {
        "Web Server"
    } else if is_text(&v, "database") {
        "Database"
    } else if is_text(&v, "development") {
        "Development"
    } else if is_text(&v, "system") {
        "System"
    } else {
        "Other"
    }
}

} // verus!
