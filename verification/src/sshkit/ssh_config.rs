//! Hosts of the ssh configuration, and the arguments of the connections to them.

use crate::number::{decimal, parse_u16, parse_u64, push_u64, unsigned};
use crate::pathname::{join_path, path_join};
use crate::sshkit::exec::ExecOutcome;
use crate::split::{
    contains_char, cut, lemma_index_is, lines, lines_of, opt_pair, split_once, strip_prefix,
};
use crate::text::{
    chars_of, copy, in_list, lead, lemma_lead_is, lemma_texts_push, lemma_trail_bounds,
    lowered, opt_text, same, string_of, strip_front, texts, to_lower, trim, trimmed,
    trimming_takes_the_white_ends, white, whites,
};
use vstd::prelude::*;

verus! {

/// One host of the ssh configuration.
#[derive(Debug)]
pub struct SshHost {
    /// The name the host is called by.
    pub alias: String,
    /// The name or address to connect to.
    pub hostname: String,
    pub port: u16,
    pub user: Option<String>,
    pub identity_file: Option<String>,
    /// The hosts to go through.
    pub proxy_jump: Option<String>,
    /// `auto`, `yes`, `no` and the like.
    pub control_master: Option<String>,
    /// The socket of the shared connection; `none` is left out.
    pub control_path: Option<String>,
    /// `yes`, `no` or a number of seconds.
    pub control_persist: Option<String>,
}

/// A host as text.
#[verifier::ext_equal]
pub struct HostView {
    pub alias: Seq<char>,
    pub hostname: Seq<char>,
    pub port: u16,
    pub user: Option<Seq<char>>,
    pub identity_file: Option<Seq<char>>,
    pub proxy_jump: Option<Seq<char>>,
    pub control_master: Option<Seq<char>>,
    pub control_path: Option<Seq<char>>,
    pub control_persist: Option<Seq<char>>,
}

impl SshHost {
    pub open spec fn view(&self) -> HostView {
        HostView {
            alias: self.alias@,
            hostname: self.hostname@,
            port: self.port,
            user: opt_text(self.user),
            identity_file: opt_text(self.identity_file),
            proxy_jump: opt_text(self.proxy_jump),
            control_master: opt_text(self.control_master),
            control_path: opt_text(self.control_path),
            control_persist: opt_text(self.control_persist),
        }
    }
}

/// The hosts as text.
pub open spec fn host_views(v: Seq<SshHost>) -> Seq<HostView> {
    Seq::new(v.len(), |i: int| v[i]@)
}

/// A path whose leading `~/` stands for the home directory, where that is known.
pub open spec fn untilded(s: Seq<char>, home: Option<Seq<char>>) -> Seq<char> {
    if "~/"@.is_prefix_of(s) && home is Some {
        path_join(home->0, s.skip("~/"@.len() as int))
    } else {
        s
    }
}

/// A path whose leading `~/` is replaced by the home directory, where that is known.
pub fn expand_tilde(s: &str, home: &Option<String>) -> (r: String)
    ensures
        r@ == untilded(s@, opt_text(*home)),
{
    if let Some(rest) = strip_prefix(s, "~/") {
        if let Some(h) = home {
            return join_path(h.as_str(), rest.as_str());
        }
    }
    copy(s)
}

// ---------------------------------------------------------------- settings

/// A key with its value, as text.
pub type Setting = (Seq<char>, Seq<char>);

/// The settings as text.
pub open spec fn settings(v: Seq<(String, String)>) -> Seq<Setting> {
    Seq::new(v.len(), |i: int| (v[i].0@, v[i].1@))
}

/// Which values of a key count.
pub enum Rule<'a> {
    /// Every value.
    Any,
    /// Every value but the empty one and `none`.
    Given,
    /// Port numbers.
    Port,
    /// Paths of files that are there.
    Present { home: &'a Option<String>, present: &'a Vec<String> },
}

impl<'a> Rule<'a> {
    pub open spec fn keeps(&self, v: Seq<char>) -> bool {
        match *self {
            Rule::Any => true,
            Rule::Given => v != "none"@ && v.len() > 0,
            Rule::Port => unsigned(v, u16::MAX as nat) is Some,
            Rule::Present { home, present } => texts(present@).contains(
                untilded(v, opt_text(*home)),
            ),
        }
    }

    fn holds_of(&self, v: &str) -> (r: bool)
        ensures
            r == self.keeps(v@),
    {
        match self {
            Rule::Any => true,
            Rule::Given => !same(v, "none") && !v.is_empty(),
            Rule::Port => parse_u16(v).is_some(),
            Rule::Present { home, present } => in_list(present, expand_tilde(v, home).as_str()),
        }
    }
}

/// The last value of `key` that counts.
pub open spec fn last_value(s: Seq<Setting>, key: Seq<char>, rule: Rule) -> Option<Seq<char>>
    decreases s.len(),
{
    if s.len() == 0 {
        None
    } else if s.last().0 == key && rule.keeps(s.last().1) {
        Some(s.last().1)
    } else {
        last_value(s.drop_last(), key, rule)
    }
}

/// The last value of `key` among `s[from..to]` that counts.
fn find_value(s: &Vec<(String, String)>, from: usize, to: usize, key: &str, rule: &Rule) -> (r:
    Option<String>)
    requires
        from <= to <= s@.len(),
    ensures
        opt_text(r) == last_value(settings(s@).subrange(from as int, to as int), key@, *rule),
{
    let ghost all = settings(s@);
    let mut i: usize = to;
    while i > from
        invariant
            from <= i <= to <= s@.len(),
            all == settings(s@),
            last_value(all.subrange(from as int, i as int), key@, *rule) == last_value(
                all.subrange(from as int, to as int),
                key@,
                *rule,
            ),
        decreases i,
    {
        i -= 1;
        proof {
            assert(all.subrange(from as int, i + 1).drop_last() =~= all.subrange(
                from as int,
                i as int,
            ));
            assert(all.subrange(from as int, i + 1).last() == all[i as int]);
        }
        if same(s[i].0.as_str(), key) && rule.holds_of(s[i].1.as_str()) {
            return Some(copy(s[i].1.as_str()));
        }
    }
    assert(all.subrange(from as int, from as int).len() == 0);
    None
}

/// The port that a value gives; 22 where there is none.
pub open spec fn port_of(v: Option<Seq<char>>) -> u16 {
    match v {
        Some(t) => match unsigned(t, u16::MAX as nat) {
            Some(n) => n as u16,
            None => 22,
        },
        None => 22,
    }
}

fn read_port(v: &Option<String>) -> (r: u16)
    ensures
        r == port_of(opt_text(*v)),
{
    match v {
        Some(t) => match parse_u16(t.as_str()) {
            Some(n) => n,
            None => 22,
        },
        None => 22,
    }
}

/// A value or, where there is none, another.
pub open spec fn or(v: Option<Seq<char>>, other: Seq<char>) -> Seq<char> {
    match v {
        Some(t) => t,
        None => other,
    }
}

// ---------------------------------------------------------------- ssh -G

/// The settings that `ssh -G` prints: on each line a key, a space and the value.
pub open spec fn printed(rows: Seq<Seq<char>>) -> Seq<Setting>
    decreases rows.len(),
{
    if rows.len() == 0 {
        seq![]
    } else {
        match cut(rows.last(), ' ') {
            Some(kv) => printed(rows.drop_last()).push(kv),
            None => printed(rows.drop_last()),
        }
    }
}

fn read_printed(output: &str) -> (r: Vec<(String, String)>)
    ensures
        settings(r@) == printed(lines_of(output@)),
{
    let rows: Vec<String> = lines(output);
    let mut out: Vec<(String, String)> = Vec::new();
    let mut i: usize = 0;
    while i < rows.len()
        invariant
            i <= rows@.len(),
            settings(out@) == printed(texts(rows@).take(i as int)),
        decreases rows@.len() - i,
    {
        proof {
            assert(texts(rows@).take(i + 1).drop_last() =~= texts(rows@).take(i as int));
            assert(texts(rows@).take(i + 1).last() == rows@[i as int]@);
        }
        if let Some(kv) = split_once(rows[i].as_str(), ' ') {
            let ghost before = out@;
            out.push(kv);
            assert(settings(out@) =~= settings(before).push((kv.0@, kv.1@)));
        }
        i += 1;
    }
    assert(texts(rows@).take(rows@.len() as int) =~= texts(rows@));
    out
}

/// The identity file a value names.
pub open spec fn identity(v: Option<Seq<char>>, home: Option<Seq<char>>) -> Option<Seq<char>> {
    match v {
        Some(t) => Some(untilded(t, home)),
        None => None,
    }
}

fn identity_of(v: &Option<String>, home: &Option<String>) -> (r: Option<String>)
    ensures
        opt_text(r) == identity(opt_text(*v), opt_text(*home)),
{
    match v {
        Some(t) => Some(expand_tilde(t.as_str(), home)),
        None => None,
    }
}

/// The host that `ssh -G` describes. Of each key the last value holds; an identity file counts
/// only where it is there.
pub open spec fn resolved_host(
    alias: Seq<char>,
    s: Seq<Setting>,
    home: &Option<String>,
    present: &Vec<String>,
) -> HostView {
    HostView {
        alias,
        hostname: or(last_value(s, "hostname"@, Rule::Any), alias),
        port: port_of(last_value(s, "port"@, Rule::Port)),
        user: last_value(s, "user"@, Rule::Any),
        identity_file: identity(
            last_value(s, "identityfile"@, Rule::Present { home, present }),
            opt_text(*home),
        ),
        proxy_jump: last_value(s, "proxyjump"@, Rule::Given),
        control_master: last_value(s, "controlmaster"@, Rule::Any),
        control_path: last_value(s, "controlpath"@, Rule::Given),
        control_persist: last_value(s, "controlpersist"@, Rule::Any),
    }
}

fn or_copy(v: Option<String>, other: &str) -> (r: String)
    ensures
        r@ == or(opt_text(v), other@),
{
    match v {
        Some(t) => t,
        None => copy(other),
    }
}

/// The host that the output of `ssh -G` describes. `present` holds the identity files that are
/// there.
pub fn parse_ssh_g(alias: &str, output: &str, home: &Option<String>, present: &Vec<String>) -> (r:
    SshHost)
    ensures
        r@ == resolved_host(alias@, printed(lines_of(output@)), home, present),
{
    let s: Vec<(String, String)> = read_printed(output);
    let n: usize = s.len();
    let any: Rule = Rule::Any;
    let given: Rule = Rule::Given;
    let port: Rule = Rule::Port;
    let there: Rule = Rule::Present { home, present };
    assert(settings(s@).subrange(0, n as int) =~= settings(s@));
    SshHost {
        alias: copy(alias),
        hostname: or_copy(find_value(&s, 0, n, "hostname", &any), alias),
        port: read_port(&find_value(&s, 0, n, "port", &port)),
        user: find_value(&s, 0, n, "user", &any),
        identity_file: identity_of(&find_value(&s, 0, n, "identityfile", &there), home),
        proxy_jump: find_value(&s, 0, n, "proxyjump", &given),
        control_master: find_value(&s, 0, n, "controlmaster", &any),
        control_path: find_value(&s, 0, n, "controlpath", &given),
        control_persist: find_value(&s, 0, n, "controlpersist", &any),
    }
}

/// The seconds between the signs of life that a host's settings ask for.
pub open spec fn alive_seconds(s: Seq<Setting>) -> Option<u64> {
    match last_value(s, "serveraliveinterval"@, Rule::Any) {
        Some(v) => match unsigned(v, u64::MAX as nat) {
            Some(n) => Some(n as u64),
            None => None,
        },
        None => None,
    }
}

/// The seconds between the signs of life that the output of `ssh -G` asks for.
pub fn server_alive_interval(output: &str) -> (r: Option<u64>)
    ensures
        r == alive_seconds(printed(lines_of(output@))),
{
    let s: Vec<(String, String)> = read_printed(output);
    let any: Rule = Rule::Any;
    assert(settings(s@).subrange(0, s@.len() as int) =~= settings(s@));
    match find_value(&s, 0, s.len(), "serveraliveinterval", &any) {
        Some(v) => parse_u64(v.as_str()),
        None => None,
    }
}

/// The paths that the identity files in the output of `ssh -G` may stand at.
pub open spec fn identity_paths(s: Seq<Setting>, home: Option<Seq<char>>) -> Seq<Seq<char>>
    decreases s.len(),
{
    if s.len() == 0 {
        seq![]
    } else if s.last().0 == "identityfile"@ {
        identity_paths(s.drop_last(), home).push(untilded(s.last().1, home))
    } else {
        identity_paths(s.drop_last(), home)
    }
}

/// The paths that the identity files in the output of `ssh -G` may stand at.
pub fn identity_candidates(output: &str, home: &Option<String>) -> (r: Vec<String>)
    ensures
        texts(r@) == identity_paths(printed(lines_of(output@)), opt_text(*home)),
{
    let s: Vec<(String, String)> = read_printed(output);
    let ghost all = settings(s@);
    let mut out: Vec<String> = Vec::new();
    let mut i: usize = 0;
    while i < s.len()
        invariant
            i <= s@.len(),
            all == settings(s@),
            texts(out@) == identity_paths(all.take(i as int), opt_text(*home)),
        decreases s@.len() - i,
    {
        proof {
            assert(all.take(i + 1).drop_last() =~= all.take(i as int));
            assert(all.take(i + 1).last() == all[i as int]);
        }
        if same(s[i].0.as_str(), "identityfile") {
            let p: String = expand_tilde(s[i].1.as_str(), home);
            proof {
                lemma_texts_push(out@, p);
            }
            out.push(p);
        }
        i += 1;
    }
    assert(all.take(s@.len() as int) =~= all);
    out
}

// ---------------------------------------------------------------- the configuration file

/// White space of the ASCII range.
pub open spec fn ascii_white(c: char) -> bool {
    c == ' ' || c == '\t' || c == '\n' || c == '\r' || c == '\u{c}'
}

/// The predicate of not being ASCII white space.
pub open spec fn ascii_black() -> spec_fn(char) -> bool {
    |c: char| !ascii_white(c)
}

/// The key and the value of a line: what stands at either side of the first `=` or, where there
/// is none, of the first white space.
pub open spec fn key_value(s: Seq<char>) -> Option<Setting> {
    match cut(s, '=') {
        Some((k, v)) => Some((trimmed(k), trimmed(v))),
        None => {
            let n = lead(s, ascii_black()) as int;
            if n < s.len() {
                Some((trimmed(s.take(n)), trimmed(s.skip(n))))
            } else {
                None
            }
        },
    }
}

/// The key and the value of a line of the configuration file.
pub fn split_kv(s: &str) -> (r: Option<(String, String)>)
    ensures
        opt_pair(r) == key_value(s@),
{
    if let Some((k, v)) = split_once(s, '=') {
        return Some((trim(k.as_str()), trim(v.as_str())));
    }
    let cs: Vec<char> = chars_of(s);
    let mut n: usize = 0;
    while n < cs.len() && !(cs[n] == ' ' || cs[n] == '\t' || cs[n] == '\n' || cs[n] == '\r' || cs[n]
        == '\u{c}')
        invariant
            n <= cs@.len(),
            forall|k: int| 0 <= k < n ==> ascii_black()(#[trigger] cs@[k]),
        decreases cs@.len() - n,
    {
        n += 1;
    }
    proof {
        lemma_lead_is(cs@, ascii_black(), n as nat);
    }
    if n < cs.len() {
        let k: String = string_of(&cs, 0, n);
        let v: String = string_of(&cs, n, cs.len());
        assert(k@ =~= s@.take(n as int));
        assert(v@ =~= s@.skip(n as int));
        Some((trim(k.as_str()), trim(v.as_str())))
    } else {
        None
    }
}

/// The setting that a line holds, its key in lower case; empty lines and comments hold none.
pub open spec fn line_setting(row: Seq<char>) -> Option<Setting> {
    let t = trimmed(row);
    if t.len() == 0 || t[0] == '#' {
        None
    } else {
        match key_value(t) {
            Some((k, v)) => Some((lowered(k), v)),
            None => None,
        }
    }
}

/// The settings that the lines hold.
pub open spec fn written(rows: Seq<Seq<char>>) -> Seq<Setting>
    decreases rows.len(),
{
    if rows.len() == 0 {
        seq![]
    } else {
        match line_setting(rows.last()) {
            Some(kv) => written(rows.drop_last()).push(kv),
            None => written(rows.drop_last()),
        }
    }
}

fn read_setting(row: &str) -> (r: Option<(String, String)>)
    ensures
        opt_pair(r) == line_setting(row@),
{
    let t: String = trim(row);
    let cs: Vec<char> = chars_of(t.as_str());
    if cs.len() == 0 || cs[0] == '#' {
        return None;
    }
    match split_kv(t.as_str()) {
        Some((k, v)) => Some((to_lower(k.as_str()), v)),
        None => None,
    }
}

fn read_written(content: &str) -> (r: Vec<(String, String)>)
    ensures
        settings(r@) == written(lines_of(content@)),
{
    let rows: Vec<String> = lines(content);
    let mut out: Vec<(String, String)> = Vec::new();
    let mut i: usize = 0;
    while i < rows.len()
        invariant
            i <= rows@.len(),
            settings(out@) == written(texts(rows@).take(i as int)),
        decreases rows@.len() - i,
    {
        proof {
            assert(texts(rows@).take(i + 1).drop_last() =~= texts(rows@).take(i as int));
            assert(texts(rows@).take(i + 1).last() == rows@[i as int]@);
        }
        if let Some(kv) = read_setting(rows[i].as_str()) {
            let ghost before = out@;
            out.push(kv);
            assert(settings(out@) =~= settings(before).push((kv.0@, kv.1@)));
        }
        i += 1;
    }
    assert(texts(rows@).take(rows@.len() as int) =~= texts(rows@));
    out
}

/// The first position from `i` on that opens a host's section, or the end.
pub open spec fn next_host(s: Seq<Setting>, i: int) -> int
    decreases s.len() - i,
{
    if i >= s.len() {
        s.len() as int
    } else if s[i].0 == "host"@ {
        i
    } else {
        next_host(s, i + 1)
    }
}

/// Whether a host's name is a pattern.
pub open spec fn is_pattern(v: Seq<char>) -> bool {
    v.contains('*') || v.contains('?')
}

/// The host called `alias` whose section holds the settings `s`.
pub open spec fn section_host(alias: Seq<char>, s: Seq<Setting>, home: Option<Seq<char>>) -> HostView {
    HostView {
        alias,
        hostname: or(last_value(s, "hostname"@, Rule::Any), alias),
        port: port_of(last_value(s, "port"@, Rule::Port)),
        user: last_value(s, "user"@, Rule::Any),
        identity_file: identity(last_value(s, "identityfile"@, Rule::Any), home),
        proxy_jump: last_value(s, "proxyjump"@, Rule::Given),
        control_master: None,
        control_path: None,
        control_persist: None,
    }
}

/// The hosts whose sections open at position `i` or later, but for patterns.
pub open spec fn hosts_from(s: Seq<Setting>, i: int, home: Option<Seq<char>>) -> Seq<HostView>
    decreases s.len() - i,
{
    if i < 0 || i >= s.len() {
        seq![]
    } else if s[i].0 == "host"@ && !is_pattern(s[i].1) {
        seq![section_host(s[i].1, s.subrange(i + 1, next_host(s, i + 1)), home)] + hosts_from(
            s,
            i + 1,
            home,
        )
    } else {
        hosts_from(s, i + 1, home)
    }
}

/// The hosts of a configuration file.
pub open spec fn config_hosts(content: Seq<char>, home: Option<Seq<char>>) -> Seq<HostView> {
    hosts_from(written(lines_of(content)), 0, home)
}

fn section_end(s: &Vec<(String, String)>, from: usize) -> (r: usize)
    requires
        from <= s@.len(),
    ensures
        from <= r <= s@.len(),
        r == next_host(settings(s@), from as int),
{
    let mut i: usize = from;
    while i < s.len() && !same(s[i].0.as_str(), "host")
        invariant
            from <= i <= s@.len(),
            next_host(settings(s@), i as int) == next_host(settings(s@), from as int),
        decreases s@.len() - i,
    {
        assert(settings(s@)[i as int].0 == s@[i as int].0@);
        i += 1;
    }
    if i < s.len() {
        assert(settings(s@)[i as int].0 == s@[i as int].0@);
    }
    i
}

fn read_section(s: &Vec<(String, String)>, at: usize, home: &Option<String>) -> (r: SshHost)
    requires
        at < s@.len(),
    ensures
        r@ == section_host(
            s@[at as int].1@,
            settings(s@).subrange(at + 1, next_host(settings(s@), at + 1)),
            opt_text(*home),
        ),
{
    let n: usize = s.len();
    assert(at < n);
    let from: usize = at + 1;
    let to: usize = section_end(s, from);
    let alias: &str = s[at].1.as_str();
    let any: Rule = Rule::Any;
    let given: Rule = Rule::Given;
    let port: Rule = Rule::Port;
    SshHost {
        alias: copy(alias),
        hostname: or_copy(find_value(s, from, to, "hostname", &any), alias),
        port: read_port(&find_value(s, from, to, "port", &port)),
        user: find_value(s, from, to, "user", &any),
        identity_file: identity_of(&find_value(s, from, to, "identityfile", &any), home),
        proxy_jump: find_value(s, from, to, "proxyjump", &given),
        control_master: None,
        control_path: None,
        control_persist: None,
    }
}

/// The hosts of a configuration file, but for patterns.
pub fn parse(content: &str, home: &Option<String>) -> (r: Vec<SshHost>)
    ensures
        host_views(r@) == config_hosts(content@, opt_text(*home)),
{
    let s: Vec<(String, String)> = read_written(content);
    let ghost all = settings(s@);
    let mut hosts: Vec<SshHost> = Vec::new();
    let mut i: usize = 0;
    assert(host_views(hosts@) + hosts_from(all, 0, opt_text(*home)) =~= hosts_from(
        all,
        0,
        opt_text(*home),
    ));
    while i < s.len()
        invariant
            i <= s@.len(),
            all == settings(s@),
            host_views(hosts@) + hosts_from(all, i as int, opt_text(*home)) == hosts_from(
                all,
                0,
                opt_text(*home),
            ),
        decreases s@.len() - i,
    {
        let name: &str = s[i].1.as_str();
        if same(s[i].0.as_str(), "host") && !contains_char(name, '*') && !contains_char(name, '?') {
            let h: SshHost = read_section(&s, i, home);
            let ghost before = hosts@;
            hosts.push(h);
            proof {
                let rest = hosts_from(all, i + 1, opt_text(*home));
                assert(host_views(hosts@) =~= host_views(before).push(h@));
                assert(host_views(hosts@) + rest =~= host_views(before) + (seq![h@] + rest));
            }
        }
        i += 1;
    }
    assert(host_views(hosts@) + hosts_from(all, s@.len() as int, opt_text(*home)) =~= host_views(
        hosts@,
    ));
    hosts
}

/// A configuration file lists no pattern: no alias holds `*` or `?`.
pub proof fn no_pattern_is_listed(content: Seq<char>, home: Option<Seq<char>>, k: int)
    requires
        0 <= k < config_hosts(content, home).len(),
    ensures
        !is_pattern(config_hosts(content, home)[k].alias),
{
    lemma_no_pattern(written(lines_of(content)), 0, home);
}

proof fn lemma_no_pattern(s: Seq<Setting>, i: int, home: Option<Seq<char>>)
    requires
        0 <= i,
    ensures
        forall|k: int|
            0 <= k < hosts_from(s, i, home).len() ==> !is_pattern(
                (#[trigger] hosts_from(s, i, home)[k]).alias,
            ),
    decreases s.len() - i,
{
    if i < s.len() {
        lemma_no_pattern(s, i + 1, home);
        let rest = hosts_from(s, i + 1, home);
        if s[i].0 == "host"@ && !is_pattern(s[i].1) {
            let h = section_host(s[i].1, s.subrange(i + 1, next_host(s, i + 1)), home);
            assert(hosts_from(s, i, home) == seq![h] + rest);
            assert forall|k: int| 0 <= k < hosts_from(s, i, home).len() implies !is_pattern(
                (#[trigger] hosts_from(s, i, home)[k]).alias,
            ) by {
                if k > 0 {
                    assert(hosts_from(s, i, home)[k] == rest[k - 1]);
                }
            }
        }
    }
}

/// Why the configuration of a host could not be had.
#[derive(Debug)]
pub enum ConfigError {
    /// `ssh` did not start.
    NotStarted(String),
    /// `ssh -G` failed with this on its error stream.
    Failed(String),
}

/// What `ssh -G` printed, where it ended well.
pub fn ssh_g_output(run: Result<ExecOutcome, String>) -> (r: Result<String, ConfigError>)
    ensures
        match run {
            Err(e) => r == Err::<String, ConfigError>(ConfigError::NotStarted(e)),
            Ok(o) => if o.succeeded() {
                r == Ok::<String, ConfigError>(o.stdout)
            } else {
                r == Err::<String, ConfigError>(ConfigError::Failed(o.stderr))
            },
        },
{
    match run {
        Err(e) => Err(ConfigError::NotStarted(e)),
        Ok(o) => if o.success() {
            Ok(o.stdout)
        } else {
            Err(ConfigError::Failed(o.stderr))
        },
    }
}

/// The configuration of a host, from what `ssh -G` gave.
pub fn resolve(
    alias: &str,
    run: Result<String, ConfigError>,
    home: &Option<String>,
    present: &Vec<String>,
) -> (r: Result<SshHost, ConfigError>)
    ensures
        match run {
            Err(e) => r == Err::<SshHost, ConfigError>(e),
            Ok(output) => r is Ok && r->Ok_0@ == resolved_host(
                alias@,
                printed(lines_of(output@)),
                home,
                present,
            ),
        },
{
    match run {
        Err(e) => Err(e),
        Ok(output) => Ok(parse_ssh_g(alias, output.as_str(), home, present)),
    }
}

/// Whether the user's own configuration shares connections: `ControlMaster` is set to anything
/// but `no`, `none` and `false`.
pub open spec fn shares(h: HostView) -> bool {
    &&& h.control_master is Some
    &&& h.control_master->0 != "no"@
    &&& h.control_master->0 != "none"@
    &&& h.control_master->0 != "false"@
}

/// Whether a resolved host shares connections by the user's own configuration.
pub fn control_master_active(h: &SshHost) -> (r: bool)
    ensures
        r == shares(h@),
{
    match &h.control_master {
        Some(v) => !same(v.as_str(), "no") && !same(v.as_str(), "none") && !same(
            v.as_str(),
            "false",
        ),
        None => false,
    }
}

/// Whether the user's own configuration shares connections to a host.
pub fn user_has_control_master(resolved: Result<SshHost, ConfigError>) -> (r: Result<
    bool,
    ConfigError,
>)
    ensures
        match resolved {
            Err(e) => r == Err::<bool, ConfigError>(e),
            Ok(h) => r == Ok::<bool, ConfigError>(shares(h@)),
        },
{
    match resolved {
        Err(e) => Err(e),
        Ok(h) => Ok(control_master_active(&h)),
    }
}

// ---------------------------------------------------------------- arguments

/// The socket of a connection of our own; ssh replaces `%C` by a hash of the destination.
pub const CCC_CONTROL_PATH: &'static str = "~/.ssh/ccc-cm-%C";

/// `ControlPath=` with our own socket.
pub open spec fn control_path_option() -> Seq<char> {
    "ControlPath="@ + "~/.ssh/ccc-cm-%C"@
}

/// `ControlPath=` with our own socket.
pub fn own_control_path() -> (r: String)
    ensures
        r@ == control_path_option(),
{
    let mut s: String = copy("ControlPath=");
    s.append(CCC_CONTROL_PATH);
    s
}

/// The port on the remote loopback that leads to the same port here.
pub open spec fn loopback_forward(port: u16) -> Seq<char> {
    "127.0.0.1:"@ + decimal(port as nat) + ":127.0.0.1:"@ + decimal(port as nat)
}

fn loopback(port: u16) -> (r: String)
    ensures
        r@ == loopback_forward(port),
{
    let mut s: String = copy("127.0.0.1:");
    push_u64(&mut s, port as u64);
    s.append(":127.0.0.1:");
    push_u64(&mut s, port as u64);
    assert(s@ =~= loopback_forward(port));
    s
}

/// The arguments of a master of our own: in the background, with the forward for the hooks, and
/// ending at once where that forward cannot be had.
pub open spec fn master_args(alias: Seq<char>, port: u16) -> Seq<Seq<char>> {
    seq![
        "-M"@,
        "-N"@,
        "-f"@,
        "-o"@,
        "StrictHostKeyChecking=accept-new"@,
        "-o"@,
        "ControlMaster=yes"@,
        "-o"@,
        control_path_option(),
        "-o"@,
        "ControlPersist=30"@,
        "-o"@,
        "ExitOnForwardFailure=yes"@,
        "-R"@,
        loopback_forward(port),
        alias,
    ]
}

/// The arguments of a master of our own, for a host whose configuration can be had.
pub fn build_master_ssh_args(
    alias: &str,
    hook_port: u16,
    resolved: Result<SshHost, ConfigError>,
) -> (r: Result<Vec<String>, ConfigError>)
    ensures
        match resolved {
            Err(e) => r == Err::<Vec<String>, ConfigError>(e),
            Ok(_) => r is Ok && texts(r->Ok_0@) == master_args(alias@, hook_port),
        },
{
    if let Err(e) = resolved {
        return Err(e);
    }
    let args: Vec<String> = vec![
        copy("-M"),
        copy("-N"),
        copy("-f"),
        copy("-o"),
        copy("StrictHostKeyChecking=accept-new"),
        copy("-o"),
        copy("ControlMaster=yes"),
        copy("-o"),
        own_control_path(),
        copy("-o"),
        copy("ControlPersist=30"),
        copy("-o"),
        copy("ExitOnForwardFailure=yes"),
        copy("-R"),
        loopback(hook_port),
        copy(alias),
    ];
    assert(texts(args@) =~= master_args(alias@, hook_port));
    Ok(args)
}

/// The arguments of an instance's connection. With a master of our own it joins that master's
/// socket, which holds the forward already; else it asks for the forward itself, if one is
/// wanted.
pub open spec fn slave_args(alias: Seq<char>, own_master: bool, port: Option<u16>) -> Seq<
    Seq<char>,
> {
    let first = seq!["-t"@, "-o"@, "StrictHostKeyChecking=accept-new"@];
    let joined = if own_master {
        seq!["-o"@, control_path_option()]
    } else {
        match port {
            Some(p) => seq!["-R"@, loopback_forward(p)],
            None => seq![],
        }
    };
    (first + joined).push(alias)
}

/// The arguments of an instance's connection, for a host whose configuration can be had.
pub fn build_slave_ssh_args(
    alias: &str,
    ccc_master: bool,
    hook_port: Option<u16>,
    resolved: Result<SshHost, ConfigError>,
) -> (r: Result<Vec<String>, ConfigError>)
    ensures
        match resolved {
            Err(e) => r == Err::<Vec<String>, ConfigError>(e),
            Ok(_) => r is Ok && texts(r->Ok_0@) == slave_args(alias@, ccc_master, hook_port),
        },
{
    if let Err(e) = resolved {
        return Err(e);
    }
    let mut args: Vec<String> = vec![
        copy("-t"),
        copy("-o"),
        copy("StrictHostKeyChecking=accept-new"),
    ];
    if ccc_master {
        args.push(copy("-o"));
        args.push(own_control_path());
    } else if let Some(port) = hook_port {
        args.push(copy("-R"));
        args.push(loopback(port));
    }
    args.push(copy(alias));
    assert(texts(args@) =~= slave_args(alias@, ccc_master, hook_port));
    Ok(args)
}

// ---------------------------------------------------------------- what the configuration promises

/// A setting that is given more than once counts as given last, by a value that the rule keeps.
pub proof fn last_setting_counts(s: Seq<Setting>, k: Seq<char>, v: Seq<char>, key: Seq<char>, rule: Rule)
    ensures
        k == key && rule.keeps(v) ==> last_value(s.push((k, v)), key, rule) == Some(v),
        k != key || !rule.keeps(v) ==> last_value(s.push((k, v)), key, rule) == last_value(
            s,
            key,
            rule,
        ),
        last_value(Seq::empty(), key, rule) is None,
{
    assert(s.push((k, v)).drop_last() =~= s);
}

/// Which values count: of hosts to go through and of sockets neither `none` nor nothing, of ports only
/// numbers of ports.
pub proof fn values_are_kept_by_their_kind(v: Seq<char>)
    ensures
        Rule::Any.keeps(v),
        Rule::Given.keeps(v) <==> v.len() > 0 && v != "none"@,
        Rule::Port.keeps(v) <==> (exists|n: nat| n <= 65535 && #[trigger] unsigned(v, 65535) == Some(n)),
{
    if unsigned(v, 65535) is Some {
        assert(unsigned(v, 65535) == Some(unsigned(v, 65535)->0));
    }
}

/// Of what ssh prints each line sets its own part of the host and no other; without any, a host is called
/// by its alias, on port 22.
pub proof fn printed_setting_sets_its_part(
    alias: Seq<char>,
    s: Seq<Setting>,
    k: Seq<char>,
    v: Seq<char>,
    home: &Option<String>,
    present: &Vec<String>,
)
    ensures
        ({
            let before = resolved_host(alias, s, home, present);
            let after = resolved_host(alias, s.push((k, v)), home, present);
            &&& after.alias == alias
            &&& after.hostname == if k == "hostname"@ {
                v
            } else {
                before.hostname
            }
            &&& k == "port"@ ==> (unsigned(v, 65535) matches Some(n) ==> after.port == n)
            &&& k != "port"@ || unsigned(v, 65535) is None ==> after.port == before.port
            &&& after.user == if k == "user"@ {
                Some(v)
            } else {
                before.user
            }
            &&& after.proxy_jump == if k == "proxyjump"@ && v.len() > 0 && v != "none"@ {
                Some(v)
            } else {
                before.proxy_jump
            }
            &&& after.control_master == if k == "controlmaster"@ {
                Some(v)
            } else {
                before.control_master
            }
            &&& after.control_path == if k == "controlpath"@ && v.len() > 0 && v != "none"@ {
                Some(v)
            } else {
                before.control_path
            }
            &&& after.control_persist == if k == "controlpersist"@ {
                Some(v)
            } else {
                before.control_persist
            }
            &&& k == "identityfile"@ && texts(present@).contains(untilded(v, opt_text(*home)))
                ==> after.identity_file == Some(untilded(v, opt_text(*home)))
            &&& k != "identityfile"@ || !texts(present@).contains(untilded(v, opt_text(*home)))
                ==> after.identity_file == before.identity_file
        }),
        ({
            let none = resolved_host(alias, Seq::empty(), home, present);
            none.hostname == alias && none.port == 22 && none.user is None && none.identity_file is None
                && none.proxy_jump is None && none.control_master is None && none.control_path is None
                && none.control_persist is None
        }),
{
    reveal_strlit("hostname");
    reveal_strlit("port");
    reveal_strlit("user");
    reveal_strlit("identityfile");
    reveal_strlit("proxyjump");
    reveal_strlit("controlmaster");
    reveal_strlit("controlpath");
    reveal_strlit("controlpersist");
    assert("hostname"@.len() == 8);
    assert("identityfile"@.len() == 12);
    assert("proxyjump"@.len() == 9);
    assert("controlmaster"@.len() == 13);
    assert("controlpath"@.len() == 11);
    assert("controlpersist"@.len() == 14);
    assert("port"@.len() == 4 && "port"@[0] == 'p');
    assert("user"@.len() == 4 && "user"@[0] == 'u');
    assert(s.push((k, v)).drop_last() =~= s);
}

/// Of a section of the configuration each line sets its own part of the host and no other.
pub proof fn written_setting_sets_its_part(
    alias: Seq<char>,
    s: Seq<Setting>,
    k: Seq<char>,
    v: Seq<char>,
    home: Option<Seq<char>>,
)
    ensures
        ({
            let before = section_host(alias, s, home);
            let after = section_host(alias, s.push((k, v)), home);
            &&& after.alias == alias
            &&& after.hostname == if k == "hostname"@ {
                v
            } else {
                before.hostname
            }
            &&& k == "port"@ ==> (unsigned(v, 65535) matches Some(n) ==> after.port == n)
            &&& k != "port"@ || unsigned(v, 65535) is None ==> after.port == before.port
            &&& after.user == if k == "user"@ {
                Some(v)
            } else {
                before.user
            }
            &&& after.identity_file == if k == "identityfile"@ {
                Some(untilded(v, home))
            } else {
                before.identity_file
            }
            &&& after.proxy_jump == if k == "proxyjump"@ && v.len() > 0 && v != "none"@ {
                Some(v)
            } else {
                before.proxy_jump
            }
        }),
        ({
            let none = section_host(alias, Seq::empty(), home);
            none.hostname == alias && none.port == 22 && none.user is None && none.identity_file is None
                && none.proxy_jump is None
        }),
{
    reveal_strlit("hostname");
    reveal_strlit("port");
    reveal_strlit("user");
    reveal_strlit("identityfile");
    reveal_strlit("proxyjump");
    reveal_strlit("controlmaster");
    reveal_strlit("controlpath");
    reveal_strlit("controlpersist");
    assert("hostname"@.len() == 8);
    assert("identityfile"@.len() == 12);
    assert("proxyjump"@.len() == 9);
    assert("controlmaster"@.len() == 13);
    assert("controlpath"@.len() == 11);
    assert("controlpersist"@.len() == 14);
    assert("port"@.len() == 4 && "port"@[0] == 'p');
    assert("user"@.len() == 4 && "user"@[0] == 'u');
    assert(s.push((k, v)).drop_last() =~= s);
}

/// A section that names a host is listed behind those before it, with the settings that follow up to the
/// next section; one that names a pattern is not, and its settings belong to no host.
pub proof fn sections_are_listed_one_by_one(
    a: Seq<Setting>,
    name: Seq<char>,
    section: Seq<Setting>,
    home: Option<Seq<char>>,
)
    requires
        forall|i: int| 0 <= i < section.len() ==> (#[trigger] section[i]).0 != "host"@,
    ensures
        !name.contains('*') && !name.contains('?') ==> hosts_from(
            a.push(("host"@, name)) + section,
            0,
            home,
        ) == hosts_from(a, 0, home).push(section_host(name, section, home)),
        name.contains('*') || name.contains('?') ==> hosts_from(
            a.push(("host"@, name)) + section,
            0,
            home,
        ) == hosts_from(a, 0, home),
        hosts_from(section, 0, home).len() == 0,
{
    lemma_sections(a, name, section, home, 0);
    lemma_no_sections(section, home, 0);
    let t = a.push(("host"@, name)) + section;
    if !is_pattern(name) {
        assert(hosts_from(t, 0, home) =~= hosts_from(a, 0, home).push(
            section_host(name, section, home),
        ));
    } else {
        assert(hosts_from(t, 0, home) =~= hosts_from(a, 0, home));
    }
}

proof fn lemma_no_sections(s: Seq<Setting>, home: Option<Seq<char>>, i: int)
    requires
        0 <= i <= s.len(),
        forall|k: int| i <= k < s.len() ==> (#[trigger] s[k]).0 != "host"@,
    ensures
        hosts_from(s, i, home) == Seq::<HostView>::empty(),
        next_host(s, i) == s.len(),
    decreases s.len() - i,
{
    if i < s.len() {
        lemma_no_sections(s, home, i + 1);
    }
}

proof fn lemma_next_in_front(a: Seq<Setting>, t: Seq<Setting>, i: int)
    requires
        0 <= i <= a.len() < t.len(),
        t.take(a.len() as int) == a,
        t[a.len() as int].0 == "host"@,
    ensures
        next_host(t, i) == next_host(a, i),
        i <= next_host(a, i) <= a.len(),
    decreases a.len() - i,
{
    if i < a.len() {
        assert(t.take(a.len() as int)[i] == t[i]);
        lemma_next_in_front(a, t, i + 1);
    }
}

proof fn lemma_sections(
    a: Seq<Setting>,
    name: Seq<char>,
    section: Seq<Setting>,
    home: Option<Seq<char>>,
    i: int,
)
    requires
        0 <= i <= a.len(),
        forall|k: int| 0 <= k < section.len() ==> (#[trigger] section[k]).0 != "host"@,
    ensures
        hosts_from(a.push(("host"@, name)) + section, i, home) == hosts_from(a, i, home) + if is_pattern(
            name,
        ) {
            Seq::empty()
        } else {
            seq![section_host(name, section, home)]
        },
    decreases a.len() - i,
{
    let t = a.push(("host"@, name)) + section;
    let n = a.len() as int;
    assert(t.take(n) =~= a);
    assert(t[n] == ("host"@, name));
    let last: Seq<HostView> = if is_pattern(name) {
        Seq::empty()
    } else {
        seq![section_host(name, section, home)]
    };
    if i < n {
        lemma_sections(a, name, section, home, i + 1);
        assert(t[i] == a[i]);
        lemma_next_in_front(a, t, i + 1);
        assert(t.subrange(i + 1, next_host(t, i + 1)) =~= a.subrange(i + 1, next_host(a, i + 1)));
        assert(hosts_from(t, i, home) =~= hosts_from(a, i, home) + last);
    } else {
        assert forall|k: int| n + 1 <= k < t.len() implies (#[trigger] t[k]).0 != "host"@ by {
            assert(t[k] == section[k - n - 1]);
        }
        lemma_no_sections(t, home, n + 1);
        assert(t.subrange(n + 1, t.len() as int) =~= section);
        assert(hosts_from(t, i, home) =~= hosts_from(a, i, home) + last);
    }
}

/// A line of the configuration is a key, in either case, and a value, with white space or an equals sign
/// between; a comment and a blank line say nothing.
pub proof fn line_is_key_and_value(key: Seq<char>, value: Seq<char>, comment: Seq<char>)
    requires
        key.len() > 0,
        value.len() > 0,
        !key.contains('='),
        !value.contains('='),
        forall|k: int| 0 <= k < key.len() ==> !white(#[trigger] key[k]),
        key[0] != '#',
        !white(value[0]),
        !white(value.last()),
    ensures
        line_setting(key + " "@ + value) == Some((lowered(key), value)),
        line_setting(key + "="@ + value) == Some((lowered(key), value)),
        line_setting("#"@ + comment) is None,
        line_setting(Seq::empty()) is None,
{
    reveal_strlit(" ");
    reveal_strlit("=");
    reveal_strlit("#");
    let e = Seq::<char>::empty();
    let a = key + " "@ + value;
    let b = key + "="@ + value;
    let n = key.len() as int;
    assert(e + a + e =~= a);
    assert(e + b + e =~= b);
    assert(a[0] == key[0] && a.last() == value.last());
    assert(b[0] == key[0] && b.last() == value.last());
    trimming_takes_the_white_ends(e, a, e);
    trimming_takes_the_white_ends(e, b, e);
    assert forall|k: int| 0 <= k < n implies #[trigger] b[k] != '=' by {
        assert(b[k] == key[k]);
        assert(key.contains(key[k]));
    }
    lemma_index_is(b, '=', n);
    assert(b.take(n) =~= key);
    assert(b.skip(n + 1) =~= value);
    assert(e + key + e =~= key);
    assert(!white(key[n - 1]));
    trimming_takes_the_white_ends(e, key, e);
    assert(e + value + e =~= value);
    trimming_takes_the_white_ends(e, value, e);
    assert forall|k: int| 0 <= k < a.len() implies #[trigger] a[k] != '=' by {
        if k < n {
            assert(a[k] == key[k]);
            assert(key.contains(key[k]));
        } else if k > n {
            assert(a[k] == value[k - n - 1]);
            assert(value.contains(value[k - n - 1]));
        }
    }
    lemma_index_is(a, '=', a.len() as int);
    assert forall|k: int| 0 <= k < n implies ascii_black()(#[trigger] a[k]) by {
        assert(a[k] == key[k]);
        assert(!white(key[k]));
    }
    assert(a[n] == ' ');
    lemma_lead_is(a, ascii_black(), n as nat);
    assert(a.take(n) =~= key);
    assert(a.skip(n) =~= " "@ + value);
    let sp = " "@;
    assert(white(' '));
    assert(sp + value + e =~= sp + value);
    trimming_takes_the_white_ends(sp, value, e);
    let c = "#"@ + comment;
    lemma_lead_is(c, whites(), 0);
    assert(strip_front(c, whites()) =~= c);
    crate::text::lemma_trimmed_ends(c);
    lemma_trail_bounds(c, whites());
    if trimmed(c).len() > 0 {
        assert(trimmed(c)[0] == c[0]);
    }
    crate::text::lemma_blank(e);
}

/// Lines say what they say one by one, in their order.
pub proof fn lines_are_read_one_by_one(rows: Seq<Seq<char>>, row: Seq<char>)
    ensures
        line_setting(row) matches Some(kv) ==> written(rows.push(row)) == written(rows).push(kv),
        line_setting(row) is None ==> written(rows.push(row)) == written(rows),
        cut(row, ' ') matches Some(kv) ==> printed(rows.push(row)) == printed(rows).push(kv),
        cut(row, ' ') is None ==> printed(rows.push(row)) == printed(rows),
        written(Seq::empty()).len() == 0,
        printed(Seq::empty()).len() == 0,
{
    assert(rows.push(row).drop_last() =~= rows);
}

/// The user keeps a shared connection where the configuration asks for one and does not refuse it.
pub proof fn connection_is_shared_unless_refused(h: HostView)
    ensures
        h.control_master is None ==> !shares(h),
        h.control_master == Some("no"@) || h.control_master == Some("none"@) || h.control_master
            == Some("false"@) ==> !shares(h),
        h.control_master matches Some(v) ==> v != "no"@ && v != "none"@ && v != "false"@ ==> shares(h),
{
}

/// A path that begins in the home directory lies below it; every other stays.
pub proof fn home_is_put_before_the_path(rest: Seq<char>, home: Seq<char>, other: Seq<char>)
    ensures
        untilded("~/"@ + rest, Some(home)) == path_join(home, rest),
        untilded("~/"@ + rest, None) == "~/"@ + rest,
        other.len() > 0 && other[0] != '~' ==> untilded(other, Some(home)) == other,
{
    reveal_strlit("~/");
    let t = "~/"@ + rest;
    assert(t.subrange(0, 2) =~= "~/"@);
    assert(t.skip(2) =~= rest);
    if "~/"@.is_prefix_of(other) {
        assert(other.subrange(0, 2)[0] == other[0]);
    }
}

/// Our own master listens on our own socket, leads the port of the hooks on the remote machine back here,
/// fails where that cannot be had, and is for the host given; a session joins it, or brings the forward
/// itself where the connection is the user's.
pub proof fn master_leads_the_hooks_back(alias: Seq<char>, port: u16)
    ensures
        ({
            let m = master_args(alias, port);
            let n = m.len() as int;
            let back = "127.0.0.1:"@ + decimal(port as nat) + ":127.0.0.1:"@ + decimal(port as nat);
            &&& m[n - 1] == alias
            &&& m[n - 3] == "-R"@ && m[n - 2] == back
            &&& m.contains("ControlMaster=yes"@)
            &&& m.contains("ControlPath="@ + "~/.ssh/ccc-cm-%C"@)
            &&& m.contains("ExitOnForwardFailure=yes"@)
            &&& m.contains("ControlPersist=30"@)
            &&& m[0] == "-M"@ && m[1] == "-N"@ && m[2] == "-f"@
            &&& slave_args(alias, true, Some(port)).last() == alias
            &&& slave_args(alias, true, Some(port)) == seq![
                "-t"@,
                "-o"@,
                "StrictHostKeyChecking=accept-new"@,
                "-o"@,
                "ControlPath="@ + "~/.ssh/ccc-cm-%C"@,
                alias,
            ]
            &&& slave_args(alias, false, Some(port)) == seq![
                "-t"@,
                "-o"@,
                "StrictHostKeyChecking=accept-new"@,
                "-R"@,
                back,
                alias,
            ]
            &&& slave_args(alias, false, None) == seq![
                "-t"@,
                "-o"@,
                "StrictHostKeyChecking=accept-new"@,
                alias,
            ]
        }),
{
    let m = master_args(alias, port);
    assert(m[6] == "ControlMaster=yes"@);
    assert(m[8] == "ControlPath="@ + "~/.ssh/ccc-cm-%C"@);
    assert(m[10] == "ControlPersist=30"@);
    assert(m[12] == "ExitOnForwardFailure=yes"@);
    assert(slave_args(alias, true, Some(port)) =~= seq![
        "-t"@,
        "-o"@,
        "StrictHostKeyChecking=accept-new"@,
        "-o"@,
        "ControlPath="@ + "~/.ssh/ccc-cm-%C"@,
        alias,
    ]);
    assert(slave_args(alias, false, Some(port)) =~= seq![
        "-t"@,
        "-o"@,
        "StrictHostKeyChecking=accept-new"@,
        "-R"@,
        loopback_forward(port),
        alias,
    ]);
    assert(slave_args(alias, false, None) =~= seq![
        "-t"@,
        "-o"@,
        "StrictHostKeyChecking=accept-new"@,
        alias,
    ]);
}

/// How often ssh sees whether the other side is alive is what it prints last of it, where that is a
/// number; the keys that may be used are all that it prints, in order.
pub proof fn alive_interval_is_printed(
    s: Seq<Setting>,
    k: Seq<char>,
    v: Seq<char>,
    home: Option<Seq<char>>,
)
    ensures
        k == "serveraliveinterval"@ ==> (unsigned(v, u64::MAX as nat) matches Some(n)
            ==> alive_seconds(s.push((k, v))) == Some(n as u64)),
        k == "serveraliveinterval"@ && unsigned(v, u64::MAX as nat) is None ==> alive_seconds(
            s.push((k, v)),
        ) is None,
        k != "serveraliveinterval"@ ==> alive_seconds(s.push((k, v))) == alive_seconds(s),
        k == "identityfile"@ ==> identity_paths(s.push((k, v)), home) == identity_paths(
            s,
            home,
        ).push(untilded(v, home)),
        k != "identityfile"@ ==> identity_paths(s.push((k, v)), home) == identity_paths(s, home),
        alive_seconds(Seq::empty()) is None,
        identity_paths(Seq::empty(), home).len() == 0,
{
    assert(s.push((k, v)).drop_last() =~= s);
}

/// Every option of our master is given by its letter, and a new host's key is taken.
pub proof fn master_gives_every_option(alias: Seq<char>, port: u16, i: int)
    requires
        0 <= i < 5,
    ensures
        ({
            let a = master_args(alias, port);
            &&& a.len() == 16
            &&& a[3 + 2 * i] == "-o"@
            &&& a[4] == "StrictHostKeyChecking=accept-new"@
        }),
{
    assert(i == 0 || i == 1 || i == 2 || i == 3 || i == 4);
}

} // verus!
