//! The keychain's tool: under which name a configuration directory's credentials are kept.

use crate::agent::{credential_service, service_prefix};
use crate::bytes::{text_of, utf8_text};
use crate::digest::{sha256, sha256_of};
use crate::number::{hex, show_hex};
use crate::text::{
    copy, lemma_trail_is, only, strip_back, texts, trail, trim, trim_end_char, trimmed,
};
use vstd::prelude::*;
use vstd::utf8::encode_utf8;

verus! {

/// The mark of a configuration directory: the first four bytes of its path's digest, whatever
/// slashes the path ends with.
pub open spec fn account_of(config_dir: Seq<char>) -> Seq<char> {
    hex(sha256(encode_utf8(strip_back(config_dir, only('/')))).take(4))
}

/// The mark of a configuration directory.
pub fn keychain_account_for(config_dir: &str) -> (r: String)
    ensures
        r@ == account_of(config_dir@),
{
    let dir: String = trim_end_char(config_dir, '/');
    let d: Vec<u8> = sha256_of(dir.as_str().as_bytes());
    show_hex(d.as_slice(), 4)
}

/// Slashes at the end of a path do not change its mark.
pub proof fn trailing_slash_is_ignored(config_dir: Seq<char>)
    ensures
        account_of(config_dir.push('/')) == account_of(config_dir),
{
    let s = config_dir.push('/');
    assert(s.drop_last() =~= config_dir);
    assert(s.last() == '/');
    assert(only('/')(s.last()));
    assert(trail(s, only('/')) == 1 + trail(config_dir, only('/')));
    assert(strip_back(s, only('/')) =~= strip_back(config_dir, only('/'))) by {
        crate::text::lemma_trail_bounds(config_dir, only('/'));
    }
}

/// Why credentials could not be had.
#[derive(Debug)]
pub enum AuthError {
    /// The user's name is not known.
    NoUser,
    /// The keychain's program did not start.
    NotStarted(String),
    /// It failed with this on its error stream.
    Failed(String),
    /// What it printed is no text.
    NotUtf8,
}

/// The service under which the credentials are kept.
pub open spec fn service_name(agent: Seq<char>, config_dir: Seq<char>) -> Seq<char> {
    service_prefix(agent) + account_of(config_dir)
}

/// The arguments that ask the keychain for the credentials; without a user's name there are none.
pub fn credential_args(agent: &str, config_dir: &str, user: &Option<String>) -> (r: Result<
    Vec<String>,
    AuthError,
>)
    ensures
        if *user is None || user->0@.len() == 0 {
            r == Err::<Vec<String>, AuthError>(AuthError::NoUser)
        } else {
            r is Ok && texts(r->Ok_0@) == seq![
                "find-generic-password"@,
                "-s"@,
                service_name(agent@, config_dir@),
                "-a"@,
                user->0@,
                "-w"@,
            ]
        },
{
    let name: &String = match user {
        Some(u) => u,
        None => {
            return Err(AuthError::NoUser);
        },
    };
    if name.as_str().is_empty() {
        return Err(AuthError::NoUser);
    }
    let mut service: String = credential_service(agent);
    service.append(keychain_account_for(config_dir).as_str());
    let args: Vec<String> = vec![
        copy("find-generic-password"),
        copy("-s"),
        service,
        copy("-a"),
        copy(name.as_str()),
        copy("-w"),
    ];
    assert(texts(args@) =~= seq![
        "find-generic-password"@,
        "-s"@,
        service_name(agent@, config_dir@),
        "-a"@,
        user->0@,
        "-w"@,
    ]);
    Ok(args)
}

/// How the keychain's program ended.
#[derive(Debug)]
pub struct KeychainRun {
    pub success: bool,
    pub stdout: Vec<u8>,
    pub stderr: String,
}

/// The credentials that the keychain's program printed, without the line's end.
pub fn fetch_credentials(run: Result<KeychainRun, String>) -> (r: Result<String, AuthError>)
    ensures
        match run {
            Err(e) => r == Err::<String, AuthError>(AuthError::NotStarted(e)),
            Ok(o) => if !o.success {
                r is Err && r->Err_0 is Failed && r->Err_0->Failed_0@ == trimmed(o.stderr@)
            } else {
                match utf8_text(o.stdout@) {
                    Some(t) => r is Ok && r->Ok_0@ == strip_back(t, only('\n')),
                    None => r == Err::<String, AuthError>(AuthError::NotUtf8),
                }
            },
        },
{
    let o: KeychainRun = match run {
        Err(e) => {
            return Err(AuthError::NotStarted(e));
        },
        Ok(o) => o,
    };
    if !o.success {
        return Err(AuthError::Failed(trim(o.stderr.as_str())));
    }
    match text_of(o.stdout) {
        Some(t) => Ok(trim_end_char(t.as_str(), '\n')),
        None => Err(AuthError::NotUtf8),
    }
}

/// The keychain is asked for the user's entry under the agent's service and the directory's mark; without
/// a user it is not asked.
pub proof fn entry_is_the_users(
    agent: &str,
    config_dir: &str,
    user: &Option<String>,
    r: Result<Vec<String>, AuthError>,
)
    requires
        call_ensures(credential_args, (agent, config_dir, user), r),
    ensures
        user is None ==> r is Err,
        user matches Some(u) ==> (u@.len() == 0 ==> r is Err),
        user matches Some(u) ==> (u@.len() > 0 ==> (r matches Ok(a) && a@.len() == 6 && a@[0]@
            == "find-generic-password"@ && a@[1]@ == "-s"@ && a@[2]@ == service_prefix(agent@) + hex(
            sha256(encode_utf8(strip_back(config_dir@, only('/')))).take(4),
        ) && a@[3]@ == "-a"@ && a@[4]@ == u@ && a@[5]@ == "-w"@)),
{
    if let Ok(a) = r {
        let t = texts(a@);
        assert(t.len() == 6);
        assert(t[0] == a@[0]@ && t[1] == a@[1]@ && t[2] == a@[2]@);
        assert(t[3] == a@[3]@ && t[4] == a@[4]@ && t[5] == a@[5]@);
    }
}

/// The credentials are what the keychain printed but for the line's end; a keychain that failed gives what
/// it said.
pub proof fn credentials_are_what_was_printed(
    run: KeychainRun,
    secret: Seq<char>,
    r: Result<String, AuthError>,
)
    requires
        call_ensures(fetch_credentials, (Ok::<KeychainRun, String>(run),), r),
        secret.len() > 0,
        secret.last() != '\n',
    ensures
        run.success && (utf8_text(run.stdout@) == Some(secret) || utf8_text(run.stdout@) == Some(
            secret.push('\n'),
        )) ==> (r matches Ok(t) && t@ == secret),
        !run.success ==> (r matches Err(AuthError::Failed(m)) && m@ == trimmed(run.stderr@)),
        run.success && utf8_text(run.stdout@) is None ==> r == Err::<String, AuthError>(AuthError::NotUtf8),
{
    let t = secret.push('\n');
    lemma_trail_is(secret, only('\n'), 0);
    assert(t[t.len() - 1] == '\n' && t[t.len() - 2] == secret.last());
    lemma_trail_is(t, only('\n'), 1);
    assert(strip_back(secret, only('\n')) =~= secret);
    assert(strip_back(t, only('\n')) =~= secret);
}

} // verus!
