//! The command-line front end: reading the arguments of `list`, `find` and
//! `kill`, the confirmation answer, and the text of the port table.
use vstd::prelude::*;
use crate::model::{PortEntry, PortFilter};
use crate::text::{
    ascii_lower, ascii_upper, chars_of, concat2, decimal, decimal_chars, eq_chars, lower_of, owned,
    pad_right, parse_unsigned, parse_unsigned_exec, push_chars, push_char, push_padded, string_from_chars,
    trim_chars, trimmed, upper_chars,
};

verus! {

// ---------------------------------------------------------------------------
// Numbers given as arguments
// ---------------------------------------------------------------------------

/// The value of a numeric option: missing, not a number of the type, or the number.
pub open spec fn required_number(value: Option<Seq<char>>, name: Seq<char>, max: nat, invalid: Seq<char>) -> Result<
    nat,
    Seq<char>,
> {
    match value {
        None => Err(name + " 缺少值"@),
        Some(v) => match parse_unsigned(v, max) {
            Some(n) => Ok(n),
            None => Err(name + invalid),
        },
    }
}

pub open spec fn opt_view(value: Option<&String>) -> Option<Seq<char>> {
    match value {
        Some(s) => Some(s@),
        None => None,
    }
}

pub open spec fn port_invalid() -> Seq<char> {
    " 必须是 0-65535 的端口号"@
}

pub open spec fn number_invalid() -> Seq<char> {
    " 必须是数字"@
}

pub fn parse_required_u16(value: Option<&String>, name: &str) -> (r: Result<u16, String>)
    ensures
        match r {
            Ok(n) => required_number(opt_view(value), name@, 65535, port_invalid()) == Ok::<nat, Seq<char>>(n as nat),
            Err(e) => required_number(opt_view(value), name@, 65535, port_invalid()) == Err::<nat, Seq<char>>(e@),
        },
{
    match value {
        None => Err(concat2(name, " 缺少值")),
        Some(v) => match parse_unsigned_exec(v.as_str(), 65535) {
            Some(n) => Ok(n as u16),
            None => Err(concat2(name, " 必须是 0-65535 的端口号")),
        },
    }
}

pub fn parse_required_u32(value: Option<&String>, name: &str) -> (r: Result<u32, String>)
    ensures
        match r {
            Ok(n) => required_number(opt_view(value), name@, 0xFFFF_FFFF, number_invalid()) == Ok::<nat, Seq<char>>(n as nat),
            Err(e) => required_number(opt_view(value), name@, 0xFFFF_FFFF, number_invalid()) == Err::<nat, Seq<char>>(e@),
        },
{
    match value {
        None => Err(concat2(name, " 缺少值")),
        Some(v) => match parse_unsigned_exec(v.as_str(), 0xFFFF_FFFF) {
            Some(n) => Ok(n),
            None => Err(concat2(name, " 必须是数字")),
        },
    }
}

// ---------------------------------------------------------------------------
// Commands
// ---------------------------------------------------------------------------

#[derive(Debug, PartialEq, Eq, Clone, Copy)]
pub enum CliCommand {
    Help,
    List,
    Find,
    Kill,
}

/// The command named by the first argument; no argument asks for help.
pub open spec fn command_of(args: Seq<String>) -> Result<CliCommand, Seq<char>> {
    if args.len() == 0 {
        Ok(CliCommand::Help)
    } else {
        let a = args[0]@;
        if a == "list"@ {
            Ok(CliCommand::List)
        } else if a == "find"@ {
            Ok(CliCommand::Find)
        } else if a == "kill"@ {
            Ok(CliCommand::Kill)
        } else if a == "-h"@ || a == "--help"@ || a == "help"@ {
            Ok(CliCommand::Help)
        } else {
            Err("未知命令："@ + a)
        }
    }
}

fn is_lit(s: &String, lit: &str) -> (r: bool)
    ensures
        r == (s@ == lit@),
{
    let a = chars_of(s.as_str());
    let b = chars_of(lit);
    eq_chars(a.as_slice(), b.as_slice())
}

pub fn parse_command(args: &[String]) -> (r: Result<CliCommand, String>)
    ensures
        match r {
            Ok(c) => command_of(args@) == Ok::<CliCommand, Seq<char>>(c),
            Err(e) => command_of(args@) == Err::<CliCommand, Seq<char>>(e@),
        },
{
    if args.len() == 0 {
        return Ok(CliCommand::Help);
    }
    let a = &args[0];
    if is_lit(a, "list") {
        Ok(CliCommand::List)
    } else if is_lit(a, "find") {
        Ok(CliCommand::Find)
    } else if is_lit(a, "kill") {
        Ok(CliCommand::Kill)
    } else if is_lit(a, "-h") || is_lit(a, "--help") || is_lit(a, "help") {
        Ok(CliCommand::Help)
    } else {
        Err(concat2("未知命令：", a.as_str()))
    }
}

// ---------------------------------------------------------------------------
// list
// ---------------------------------------------------------------------------

/// What `list` was asked for: protocol, state, query, listeners only, JSON output.
pub type ListArgs = (Option<Seq<char>>, Option<Seq<char>>, Option<Seq<char>>, bool, bool);

/// Reading the `list` options from position `i` on, with `acc` read so far.
pub open spec fn list_args_from(args: Seq<String>, i: int, acc: ListArgs) -> Result<ListArgs, Seq<char>>
    decreases args.len() - i,
{
    if i < 0 || i >= args.len() {
        Ok(acc)
    } else {
        let a = args[i]@;
        if a == "--json"@ {
            list_args_from(args, i + 1, (acc.0, acc.1, acc.2, acc.3, true))
        } else if a == "--protocol"@ {
            if i + 1 >= args.len() {
                Err("--protocol 缺少值"@)
            } else {
                let p = ascii_lower(args[i + 1]@);
                if p == "tcp"@ || p == "udp"@ || p == "all"@ {
                    list_args_from(args, i + 2, (Some(p), acc.1, acc.2, acc.3, acc.4))
                } else {
                    Err("--protocol 只支持 tcp、udp、all"@)
                }
            }
        } else if a == "--state"@ {
            if i + 1 >= args.len() {
                Err("--state 缺少值"@)
            } else {
                list_args_from(args, i + 2, (acc.0, Some(ascii_upper(args[i + 1]@)), acc.2, acc.3, acc.4))
            }
        } else if a == "--query"@ {
            if i + 1 >= args.len() {
                Err("--query 缺少值"@)
            } else {
                list_args_from(args, i + 2, (acc.0, acc.1, Some(args[i + 1]@), acc.3, acc.4))
            }
        } else if a == "--listeners-only"@ {
            list_args_from(args, i + 1, (acc.0, acc.1, acc.2, true, acc.4))
        } else {
            Err("list 不支持参数："@ + a)
        }
    }
}

/// The `list` options: protocol `all` unless another is given.
pub open spec fn list_args(args: Seq<String>) -> Result<ListArgs, Seq<char>> {
    list_args_from(args, 0, (Some("all"@), None, None, false, false))
}

pub open spec fn text_view(o: Option<String>) -> Option<Seq<char>> {
    match o {
        Some(s) => Some(s@),
        None => None,
    }
}

/// The options a filter and output flag stand for.
pub open spec fn filter_view(f: PortFilter, json: bool) -> ListArgs {
    (text_view(f.protocol), text_view(f.state), text_view(f.query), f.listeners_only, json)
}

pub fn parse_filter_args(args: &[String]) -> (r: Result<(PortFilter, bool), String>)
    ensures
        match r {
            Ok((f, json)) => list_args(args@) == Ok::<ListArgs, Seq<char>>(filter_view(f, json)) && f.port
                is None,
            Err(e) => list_args(args@) == Err::<ListArgs, Seq<char>>(e@),
        },
{
    let mut filter = PortFilter {
        protocol: Some(owned("all")),
        state: None,
        query: None,
        listeners_only: false,
        port: None,
    };
    let mut json = false;
    let mut i: usize = 0;
    while i < args.len()
        invariant
            i <= args.len(),
            filter.port is None,
            list_args(args@) == list_args_from(args@, i as int, filter_view(filter, json)),
        decreases args.len() - i,
    {
        let a = &args[i];
        if is_lit(a, "--json") {
            json = true;
        } else if is_lit(a, "--protocol") {
            i = i + 1;
            if i >= args.len() {
                return Err(owned("--protocol 缺少值"));
            }
            let p = lower_of(args[i].as_str());
            let protocol = string_from_chars(p.as_slice());
            if is_lit(&protocol, "tcp") || is_lit(&protocol, "udp") || is_lit(&protocol, "all") {
                filter.protocol = Some(protocol);
            } else {
                return Err(owned("--protocol 只支持 tcp、udp、all"));
            }
        } else if is_lit(a, "--state") {
            i = i + 1;
            if i >= args.len() {
                return Err(owned("--state 缺少值"));
            }
            let v = chars_of(args[i].as_str());
            let up = upper_chars(v.as_slice());
            filter.state = Some(string_from_chars(up.as_slice()));
        } else if is_lit(a, "--query") {
            i = i + 1;
            if i >= args.len() {
                return Err(owned("--query 缺少值"));
            }
            filter.query = Some(args[i].clone());
        } else if is_lit(a, "--listeners-only") {
            filter.listeners_only = true;
        } else {
            return Err(concat2("list 不支持参数：", a.as_str()));
        }
        i = i + 1;
    }
    Ok((filter, json))
}

// ---------------------------------------------------------------------------
// find and kill
// ---------------------------------------------------------------------------

pub open spec fn arg_at(args: Seq<String>, i: int) -> Option<Seq<char>> {
    if 0 <= i < args.len() {
        Some(args[i]@)
    } else {
        None
    }
}

/// Reading the `find` options (`--port <port>`, `--json`) from position `i` on.
pub open spec fn find_args_from(args: Seq<String>, i: int, port: Option<nat>, json: bool) -> Result<
    (nat, bool),
    Seq<char>,
>
    decreases args.len() - i,
{
    if i < 0 || i >= args.len() {
        match port {
            Some(p) => Ok((p, json)),
            None => Err("find 必须提供 --port <port>"@),
        }
    } else {
        let a = args[i]@;
        if a == "--port"@ {
            match required_number(arg_at(args, i + 1), "--port"@, 65535, port_invalid()) {
                Ok(p) => find_args_from(args, i + 2, Some(p), json),
                Err(e) => Err(e),
            }
        } else if a == "--json"@ {
            find_args_from(args, i + 1, port, true)
        } else {
            Err("find 不支持参数："@ + a)
        }
    }
}

pub open spec fn find_args(args: Seq<String>) -> Result<(nat, bool), Seq<char>> {
    find_args_from(args, 0, None, false)
}

pub fn parse_find_args(args: &[String]) -> (r: Result<(u16, bool), String>)
    ensures
        match r {
            Ok((port, json)) => find_args(args@) == Ok::<(nat, bool), Seq<char>>((port as nat, json)),
            Err(e) => find_args(args@) == Err::<(nat, bool), Seq<char>>(e@),
        },
{
    let mut port: Option<u16> = None;
    let mut json = false;
    let mut i: usize = 0;
    while i < args.len()
        invariant
            i <= args.len(),
            find_args(args@) == find_args_from(
                args@,
                i as int,
                match port {
                    Some(p) => Some(p as nat),
                    None => None,
                },
                json,
            ),
        decreases args.len() - i,
    {
        let a = &args[i];
        if is_lit(a, "--port") {
            i = i + 1;
            let value = if i < args.len() {
                Some(&args[i])
            } else {
                None
            };
            assert(opt_view(value) == arg_at(args@, i as int));
            match parse_required_u16(value, "--port") {
                Ok(p) => {
                    port = Some(p);
                },
                Err(e) => {
                    return Err(e);
                },
            }
        } else if is_lit(a, "--json") {
            json = true;
        } else {
            return Err(concat2("find 不支持参数：", a.as_str()));
        }
        if i < args.len() {
            i = i + 1;
        }
    }
    match port {
        Some(p) => Ok((p, json)),
        None => Err(owned("find 必须提供 --port <port>")),
    }
}

/// Reading the `kill` options (`--pid <pid>`, `--yes`) from position `i` on.
pub open spec fn kill_args_from(args: Seq<String>, i: int, pid: Option<nat>, yes: bool) -> Result<
    (nat, bool),
    Seq<char>,
>
    decreases args.len() - i,
{
    if i < 0 || i >= args.len() {
        match pid {
            Some(p) => Ok((p, yes)),
            None => Err("kill 必须提供 --pid <pid>"@),
        }
    } else {
        let a = args[i]@;
        if a == "--pid"@ {
            match required_number(arg_at(args, i + 1), "--pid"@, 0xFFFF_FFFF, number_invalid()) {
                Ok(p) => kill_args_from(args, i + 2, Some(p), yes),
                Err(e) => Err(e),
            }
        } else if a == "--yes"@ {
            kill_args_from(args, i + 1, pid, true)
        } else {
            Err("kill 不支持参数："@ + a)
        }
    }
}

pub open spec fn kill_args(args: Seq<String>) -> Result<(nat, bool), Seq<char>> {
    kill_args_from(args, 0, None, false)
}

pub fn parse_kill_args(args: &[String]) -> (r: Result<(u32, bool), String>)
    ensures
        match r {
            Ok((pid, yes)) => kill_args(args@) == Ok::<(nat, bool), Seq<char>>((pid as nat, yes)),
            Err(e) => kill_args(args@) == Err::<(nat, bool), Seq<char>>(e@),
        },
{
    let mut pid: Option<u32> = None;
    let mut yes = false;
    let mut i: usize = 0;
    while i < args.len()
        invariant
            i <= args.len(),
            kill_args(args@) == kill_args_from(
                args@,
                i as int,
                match pid {
                    Some(p) => Some(p as nat),
                    None => None,
                },
                yes,
            ),
        decreases args.len() - i,
    {
        let a = &args[i];
        if is_lit(a, "--pid") {
            i = i + 1;
            let value = if i < args.len() {
                Some(&args[i])
            } else {
                None
            };
            assert(opt_view(value) == arg_at(args@, i as int));
            match parse_required_u32(value, "--pid") {
                Ok(p) => {
                    pid = Some(p);
                },
                Err(e) => {
                    return Err(e);
                },
            }
        } else if is_lit(a, "--yes") {
            yes = true;
        } else {
            return Err(concat2("kill 不支持参数：", a.as_str()));
        }
        if i < args.len() {
            i = i + 1;
        }
    }
    match pid {
        Some(p) => Ok((p, yes)),
        None => Err(owned("kill 必须提供 --pid <pid>")),
    }
}

/// The answer to the confirmation prompt goes on only when it is `yes`, around whitespace.
pub fn check_confirmation(answer: &str) -> (r: Result<(), String>)
    ensures
        r is Ok <==> trimmed(answer@) == "yes"@,
        r matches Err(e) ==> e@ == "已取消。"@,
{
    let v = chars_of(answer);
    let t = trim_chars(v.as_slice());
    let yes = chars_of("yes");
    if eq_chars(t.as_slice(), yes.as_slice()) {
        Ok(())
    } else {
        Err(owned("已取消。"))
    }
}

// ---------------------------------------------------------------------------
// The port table
// ---------------------------------------------------------------------------

/// Bytes of a character in UTF-8.
pub open spec fn utf8_width(c: char) -> int {
    let v = c as int;
    if v < 0x80 {
        1
    } else if v < 0x800 {
        2
    } else if v < 0x10000 {
        3
    } else {
        4
    }
}

/// Bytes of a text in UTF-8.
pub open spec fn utf8_size(s: Seq<char>) -> int
    decreases s.len(),
{
    if s.len() == 0 {
        0
    } else {
        utf8_width(s[0]) + utf8_size(s.drop_first())
    }
}

/// How many leading characters fit in `n` bytes.
pub open spec fn fitting_chars(s: Seq<char>, n: int) -> int
    decreases s.len(),
{
    if s.len() == 0 || utf8_width(s[0]) > n {
        0
    } else {
        1 + fitting_chars(s.drop_first(), n - utf8_width(s[0]))
    }
}

/// Cutting a too long text to `max - 1` bytes falls between two characters, as
/// `String::truncate` needs (it panics otherwise).
pub open spec fn clean_cut(value: Seq<char>, max: nat) -> bool {
    value.len() > max && max > 1 ==> utf8_size(value.take(fitting_chars(value, max - 1))) == max - 1
}

/// A text shortened for a column of `max` characters: kept when it fits; else, for
/// `max` above 1, its first `max - 1` bytes and `…`; else its first `max` characters.
pub open spec fn truncated(value: Seq<char>, max: nat) -> Seq<char> {
    if value.len() <= max {
        value
    } else if max <= 1 {
        value.take(max as int)
    } else {
        value.take(fitting_chars(value, max - 1)).push('…')
    }
}

fn utf8_width_exec(c: char) -> (r: usize)
    ensures
        r == utf8_width(c),
{
    let v = c as u32;
    if v < 0x80 {
        1
    } else if v < 0x800 {
        2
    } else if v < 0x10000 {
        3
    } else {
        4
    }
}

proof fn lemma_fitting_bound(s: Seq<char>, n: int)
    ensures
        0 <= fitting_chars(s, n) <= s.len(),
        n >= 0 ==> fitting_chars(s, n) <= n,
        0 <= n ==> utf8_size(s.take(fitting_chars(s, n))) <= n,
    decreases s.len(),
{
    if s.len() > 0 && utf8_width(s[0]) <= n {
        lemma_fitting_bound(s.drop_first(), n - utf8_width(s[0]));
        let k = fitting_chars(s.drop_first(), n - utf8_width(s[0]));
        assert(s.take(k + 1).drop_first() =~= s.drop_first().take(k));
        assert(s.take(k + 1)[0] == s[0]);
    } else {
        assert(s.take(0).len() == 0);
    }
}

/// `(count, bytes)`: how many leading characters of `v` fit in `n` bytes, and their size.
fn fitting_prefix(v: &[char], n: usize) -> (r: (usize, usize))
    ensures
        r.0 == fitting_chars(v@, n as int),
        r.1 == utf8_size(v@.take(r.0 as int)),
{
    let mut k: usize = 0;
    let mut used: usize = 0;
    assert(v@.skip(0) =~= v@);
    assert(v@.take(0).len() == 0);
    while k < v.len() && utf8_width_exec(v[k]) <= n - used
        invariant
            k <= v.len(),
            used <= n,
            used == utf8_size(v@.take(k as int)),
            fitting_chars(v@, n as int) == k + fitting_chars(v@.skip(k as int), n - used),
        decreases v.len() - k,
    {
        let w = utf8_width_exec(v[k]);
        proof {
            let rest = v@.skip(k as int);
            assert(rest[0] == v@[k as int]);
            assert(rest.drop_first() =~= v@.skip(k + 1));
            lemma_size_push(v@.take(k as int), v@[k as int]);
            assert(v@.take(k + 1) =~= v@.take(k as int).push(v@[k as int]));
        }
        used = used + w;
        k = k + 1;
    }
    proof {
        let rest = v@.skip(k as int);
        if k < v.len() {
            assert(rest[0] == v@[k as int]);
        }
    }
    (k, used)
}

proof fn lemma_size_push(s: Seq<char>, c: char)
    ensures
        utf8_size(s.push(c)) == utf8_size(s) + utf8_width(c),
    decreases s.len(),
{
    if s.len() > 0 {
        lemma_size_push(s.drop_first(), c);
        assert(s.push(c).drop_first() =~= s.drop_first().push(c));
        assert(s.push(c)[0] == s[0]);
    } else {
        assert(s.push(c).drop_first() =~= Seq::<char>::empty());
        assert(s.push(c)[0] == c);
        assert(utf8_size(Seq::<char>::empty()) == 0);
    }
}

/// Whether `truncate(value, max_chars)` can cut cleanly (see `clean_cut`).
pub fn truncation_is_clean(value: &str, max_chars: usize) -> (r: bool)
    ensures
        r == clean_cut(value@, max_chars as nat),
{
    let v = chars_of(value);
    if v.len() > max_chars && max_chars > 1 {
        let (_k, used) = fitting_prefix(v.as_slice(), max_chars - 1);
        used == max_chars - 1
    } else {
        true
    }
}

pub fn truncate(value: &str, max_chars: usize) -> (r: String)
    requires
        clean_cut(value@, max_chars as nat),
    ensures
        r@ == truncated(value@, max_chars as nat),
{
    let v = chars_of(value);
    if v.len() <= max_chars {
        return string_from_chars(v.as_slice());
    }
    if max_chars <= 1 {
        let mut out: Vec<char> = Vec::new();
        let mut k: usize = 0;
        while k < max_chars
            invariant
                k <= max_chars <= 1,
                max_chars < v.len(),
                out@ =~= v@.take(k as int),
            decreases max_chars - k,
        {
            out.push(v[k]);
            k = k + 1;
        }
        return string_from_chars(out.as_slice());
    }
    let (count, _used) = fitting_prefix(v.as_slice(), max_chars - 1);
    proof {
        lemma_fitting_bound(v@, max_chars - 1);
    }
    let mut out: Vec<char> = Vec::new();
    let mut k: usize = 0;
    while k < count
        invariant
            k <= count <= v.len(),
            out@ =~= v@.take(k as int),
        decreases count - k,
    {
        out.push(v[k]);
        k = k + 1;
    }
    out.push('…');
    string_from_chars(out.as_slice())
}

/// The header line of the port table.
pub open spec fn header_text() -> Seq<char> {
    pad_right("协议"@, 4) + " "@ + pad_right("本地地址"@, 22) + " "@ + pad_right("端口"@, 6) + " "@
        + pad_right("远程地址"@, 22) + " "@ + pad_right("端口"@, 6) + " "@ + pad_right("状态"@, 13)
        + " "@ + pad_right("PID"@, 8) + " "@ + "进程"@
}

/// One line of the port table.
pub open spec fn row_text(e: PortEntry) -> Seq<char> {
    pad_right(e.protocol@, 4) + " "@ + pad_right(truncated(e.local_addr@, 22), 22) + " "@ + pad_right(
        decimal(e.local_port as nat),
        6,
    ) + " "@ + pad_right(truncated(e.remote_addr@, 22), 22) + " "@ + pad_right(
        decimal(e.remote_port as nat),
        6,
    ) + " "@ + pad_right(e.state@, 13) + " "@ + pad_right(decimal(e.pid as nat), 8) + " "@ + e.process@
}

fn push_text(out: &mut String, s: &str)
    ensures
        final(out)@ == old(out)@ + s@,
{
    let v = chars_of(s);
    push_chars(out, v.as_slice());
}

pub fn table_header() -> (r: String)
    ensures
        r@ == header_text(),
{
    let mut out = String::new();
    push_padded(&mut out, "协议", 4);
    push_text(&mut out, " ");
    push_padded(&mut out, "本地地址", 22);
    push_text(&mut out, " ");
    push_padded(&mut out, "端口", 6);
    push_text(&mut out, " ");
    push_padded(&mut out, "远程地址", 22);
    push_text(&mut out, " ");
    push_padded(&mut out, "端口", 6);
    push_text(&mut out, " ");
    push_padded(&mut out, "状态", 13);
    push_text(&mut out, " ");
    push_padded(&mut out, "PID", 8);
    push_text(&mut out, " ");
    push_text(&mut out, "进程");
    assert(out@ =~= header_text());
    out
}

/// The rule under the header: 96 dashes.
pub fn table_rule() -> (r: String)
    ensures
        r@ == Seq::new(96, |i: int| '-'),
{
    let mut out = String::new();
    let mut k: usize = 0;
    while k < 96
        invariant
            k <= 96,
            out@ =~= Seq::new(k as nat, |i: int| '-'),
        decreases 96 - k,
    {
        push_char(&mut out, '-');
        k = k + 1;
    }
    out
}

fn push_number(out: &mut String, n: u32, w: usize)
    ensures
        final(out)@ == old(out)@ + pad_right(decimal(n as nat), w as nat),
{
    let d = decimal_chars(n);
    let s = string_from_chars(d.as_slice());
    push_padded(out, s.as_str(), w);
}

pub fn table_row(entry: &PortEntry) -> (r: String)
    requires
        clean_cut(entry.local_addr@, 22),
        clean_cut(entry.remote_addr@, 22),
    ensures
        r@ == row_text(*entry),
{
    let mut out = String::new();
    push_padded(&mut out, entry.protocol.as_str(), 4);
    push_text(&mut out, " ");
    let local = truncate(entry.local_addr.as_str(), 22);
    push_padded(&mut out, local.as_str(), 22);
    push_text(&mut out, " ");
    push_number(&mut out, entry.local_port as u32, 6);
    push_text(&mut out, " ");
    let remote = truncate(entry.remote_addr.as_str(), 22);
    push_padded(&mut out, remote.as_str(), 22);
    push_text(&mut out, " ");
    push_number(&mut out, entry.remote_port as u32, 6);
    push_text(&mut out, " ");
    push_padded(&mut out, entry.state.as_str(), 13);
    push_text(&mut out, " ");
    push_number(&mut out, entry.pid, 8);
    push_text(&mut out, " ");
    push_text(&mut out, entry.process.as_str());
    assert(out@ =~= row_text(*entry));
    out
}

} // verus!
