use ccc::archive::like::is_like;
use ccc::archive::memory::{list_memory, list_memory_for_instance, MemoryFilter, MemoryVersion};
use ccc::archive::query::{
    list_sessions, location_predicate, resolve_session_ids, sessions_for_location, stats,
    ListFilter, SessionRow,
};
use rusqlite::{params_from_iter, Connection};

const DIRS: &[&str] = &["/w/ccc", "/w/CCC", "/home/me/ccc", "/w/a_c", "/w/abc", "~/ccc", "/"];
const HOSTS: &[Option<&str>] = &[None, Some("h"), Some("H")];
const KINDS: &[Option<&str>] = &[None, Some("local"), Some("remote")];

fn owned(o: Option<&str>) -> Option<String> {
    o.map(|s| s.to_string())
}

/// Sessions with no two equal times, so that every order is settled.
fn seeded() -> (Connection, Vec<SessionRow>, Vec<Option<String>>) {
    let conn = Connection::open_in_memory().unwrap();
    conn.execute_batch(
        "CREATE TABLE sessions(session_id TEXT, kind TEXT, host_alias TEXT, cwd TEXT,
           project TEXT, attribution TEXT, started_at INTEGER, ended_at INTEGER)",
    )
    .unwrap();
    let mut rows = Vec::new();
    let mut cwds = Vec::new();
    for i in 0..84usize {
        let row = SessionRow {
            session_id: format!("{:02x}{}", (i * 37) % 256, i),
            instance_name: None,
            kind: owned(KINDS[(i / 3) % 3]),
            host_alias: owned(HOSTS[i % 3]),
            project: (i % 5 != 0).then(|| format!("p{}", i % 4)),
            source: None,
            attribution: (i % 7 != 0).then(|| "hook".to_string()),
            started_at: (i % 11 != 0).then(|| (i as i64 * 7919) % 1009 + 1),
            ended_at: (i % 4 == 0).then(|| (i as i64 * 7919) % 1009 + 2000),
            message_count: 0,
            summary: None,
        };
        let cwd = (i % 13 != 0).then(|| DIRS[i % DIRS.len()].to_string());
        conn.execute(
            "INSERT INTO sessions VALUES (?1,?2,?3,?4,?5,?6,?7,?8)",
            (
                &row.session_id,
                &row.kind,
                &row.host_alias,
                &cwd,
                &row.project,
                &row.attribution,
                &row.started_at,
                &row.ended_at,
            ),
        )
        .unwrap();
        rows.push(row);
        cwds.push(cwd);
    }
    (conn, rows, cwds)
}

fn ids(conn: &Connection, sql: &str, args: Vec<Option<String>>) -> Vec<String> {
    conn.prepare(sql)
        .unwrap()
        .query_map(params_from_iter(args), |r| r.get(0))
        .unwrap()
        .collect::<Result<Vec<_>, _>>()
        .unwrap()
}

fn named(rows: &[SessionRow], at: Vec<usize>) -> Vec<String> {
    at.into_iter().map(|i| rows[i].session_id.clone()).collect()
}

/// The order of those that have no time at all is left to the database.
fn timed(rows: &[SessionRow], ids: Vec<String>) -> Vec<String> {
    ids.into_iter()
        .filter(|id| {
            let r = rows.iter().find(|r| r.session_id == *id).unwrap();
            r.started_at.is_some() || r.ended_at.is_some()
        })
        .collect()
}

#[test]
fn patterns_agree_with_the_database() {
    let conn = Connection::open_in_memory().unwrap();
    let texts = ["", "a", "A", "abc", "aXc", "%", "a%c", "会議", "a\nb", "Ä", "ä", "\\%", "aab"];
    let patterns = [
        "", "%", "_", "a", "A%", "%c", "a_c", "%a%b", "a\\%c", "\\%", "_議", "ä", "%\n%", "a%%c",
    ];
    for p in patterns {
        for t in texts {
            let plain: bool = conn
                .query_row("SELECT ?1 LIKE ?2", [t, p], |r| r.get(0))
                .unwrap();
            assert_eq!(is_like(p, t, None), plain, "{t:?} LIKE {p:?}");
            let escaped: bool = conn
                .query_row("SELECT ?1 LIKE ?2 ESCAPE '\\'", [t, p], |r| r.get(0))
                .unwrap();
            assert_eq!(is_like(p, t, Some('\\')), escaped, "{t:?} LIKE {p:?} ESCAPE");
        }
    }
}

#[test]
fn places_agree_with_the_database() {
    let (conn, rows, cwds) = seeded();
    for dir in ["/w/ccc", "~/ccc", "~/a_c", "~/", "/nowhere"] {
        for host in [None, Some("h"), Some("other")] {
            let (pred, bound) = location_predicate("", dir, host);
            let sql = format!(
                "SELECT session_id FROM sessions WHERE {pred}
                 ORDER BY COALESCE(ended_at, started_at, 0) DESC"
            );
            let want = ids(&conn, &sql, bound.into_iter().map(Some).collect());
            let got = named(&rows, sessions_for_location(&rows, &cwds, dir, host));
            assert_eq!(got.len(), want.len(), "{dir} {host:?}");
            assert_eq!(timed(&rows, got), timed(&rows, want), "{dir} {host:?}");
        }
    }
}

#[test]
fn listing_agrees_with_the_database() {
    let (conn, rows, _) = seeded();
    for kind in KINDS {
        for host in [None, Some("h")] {
            for project in [None, Some("p1"), Some("none")] {
                for since_ms in [None, Some(500), Some(2500)] {
                    let f = ListFilter {
                        kind: owned(*kind),
                        host: owned(host),
                        project: owned(project),
                        since_ms,
                        limit: 1000,
                    };
                    let sql = format!(
                        "SELECT session_id FROM sessions
                         WHERE (?1 IS NULL OR kind = ?1)
                           AND (?2 IS NULL OR host_alias = ?2)
                           AND (?3 IS NULL OR project = ?3)
                           AND COALESCE(ended_at, started_at, 0) >= {}
                         ORDER BY COALESCE(ended_at, started_at, 0) DESC",
                        since_ms.unwrap_or(i64::MIN)
                    );
                    let args = vec![f.kind.clone(), f.host.clone(), f.project.clone()];
                    let want = ids(&conn, &sql, args);
                    let got = named(&rows, list_sessions(&rows, &f));
                    assert_eq!(got.len(), want.len());
                    assert_eq!(timed(&rows, got), timed(&rows, want));
                }
            }
        }
    }
}

#[test]
fn short_ids_agree_with_the_database() {
    let (conn, rows, _) = seeded();
    let all: Vec<String> = rows.iter().map(|r| r.session_id.clone()).collect();
    for key in ["", "0", "4", "a", "A", "00", &all[5], "zz", "_", "%"] {
        let want = ids(
            &conn,
            "SELECT session_id FROM sessions
             WHERE session_id = ?1 OR session_id LIKE ?1 || '%'
             ORDER BY (session_id = ?1) DESC, session_id LIMIT 10",
            vec![Some(key.to_string())],
        );
        assert_eq!(named(&rows, resolve_session_ids(&all, key)), want, "{key}");
    }
}

#[test]
fn counts_agree_with_the_database() {
    let (conn, rows, _) = seeded();
    let one = |sql: &str| -> Option<i64> { conn.query_row(sql, [], |r| r.get(0)).unwrap() };
    let s = stats(&rows, 0, 0, 0);
    assert_eq!(Some(s.sessions), one("SELECT COUNT(*) FROM sessions"));
    assert_eq!(
        Some(s.local_sessions),
        one("SELECT COUNT(*) FROM sessions WHERE kind='local' OR kind IS NULL")
    );
    assert_eq!(
        Some(s.remote_sessions),
        one("SELECT COUNT(*) FROM sessions WHERE kind='remote'")
    );
    assert_eq!(s.first_activity, one("SELECT MIN(started_at) FROM sessions"));
    assert_eq!(
        s.last_activity,
        one("SELECT MAX(COALESCE(ended_at, started_at)) FROM sessions")
    );
    let mut stmt = conn
        .prepare(
            "SELECT project, COUNT(*) FROM sessions WHERE project IS NOT NULL
             GROUP BY project ORDER BY COUNT(*) DESC, project LIMIT 5",
        )
        .unwrap();
    let want: Vec<(Option<String>, i64)> = stmt
        .query_map([], |r| Ok((r.get(0)?, r.get(1)?)))
        .unwrap()
        .collect::<Result<_, _>>()
        .unwrap();
    let got: Vec<_> = s
        .top_projects
        .iter()
        .map(|c| (c.label.clone(), c.count))
        .collect();
    assert_eq!(got, want);
}

const LATEST: &str = "a.id = (SELECT c.id FROM memory c
       WHERE COALESCE(c.agent_profile,'') = COALESCE(a.agent_profile,'')
         AND c.rel_path = a.rel_path
       ORDER BY c.captured_at DESC, c.id DESC LIMIT 1)";

const VERSIONS: &str = "(SELECT COUNT(*) FROM memory b
       WHERE COALESCE(b.agent_profile,'') = COALESCE(a.agent_profile,'')
         AND b.rel_path = a.rel_path)";

fn remembered() -> (Connection, Vec<MemoryVersion>) {
    let conn = Connection::open_in_memory().unwrap();
    conn.execute_batch(
        "CREATE TABLE memory(id INTEGER PRIMARY KEY, agent_profile TEXT, rel_path TEXT,
           scope TEXT, project TEXT, content_hash TEXT, captured_at INTEGER, content TEXT)",
    )
    .unwrap();
    let paths = ["rules/a.md", "projects/-w-x/MEMORY.md", "projects/-W-X/memory/b.md", "q%.md"];
    let mut rows = Vec::new();
    for i in 0..60i64 {
        let v = MemoryVersion {
            id: i + 1,
            agent_profile: owned([Some("p"), None, Some(""), Some("q")][(i % 4) as usize]),
            rel_path: paths[(i as usize / 4) % 4].to_string(),
            scope: owned(if i % 3 == 0 { Some("user") } else { Some("project") }),
            project: None,
            content_hash: Some(format!("h{i}")),
            source_kind: None,
            host_alias: None,
            captured_at: (i % 9 != 0).then_some((i * 31) % 17),
            content: Some(format!("text {i} 50%_x")),
        };
        conn.execute(
            "INSERT INTO memory VALUES (?1,?2,?3,?4,?5,?6,?7,?8)",
            (
                &v.id,
                &v.agent_profile,
                &v.rel_path,
                &v.scope,
                &v.project,
                &v.content_hash,
                &v.captured_at,
                &v.content,
            ),
        )
        .unwrap();
        rows.push(v);
    }
    (conn, rows)
}

type Listed = Vec<(String, String, i64)>;

fn memory_in(conn: &Connection, cond: &str, args: Vec<Option<String>>) -> Listed {
    conn.prepare(&format!(
        "SELECT a.rel_path, a.content_hash, {VERSIONS} FROM memory a
         WHERE {LATEST} AND {cond} ORDER BY a.captured_at DESC, a.rel_path"
    ))
    .unwrap()
    .query_map(params_from_iter(args), |r| {
        Ok((r.get(0)?, r.get(1)?, r.get(2)?))
    })
    .unwrap()
    .collect::<Result<_, _>>()
    .unwrap()
}

#[test]
fn memory_agrees_with_the_database() {
    let (conn, rows) = remembered();
    for profile in [None, Some("p"), Some("")] {
        for scope in [None, Some("user")] {
            let f = MemoryFilter {
                profile: owned(profile),
                scope: owned(scope),
                project: None,
            };
            let mut want = memory_in(
                &conn,
                "(?1 IS NULL OR a.agent_profile = ?1) AND (?2 IS NULL OR a.scope = ?2)",
                vec![f.profile.clone(), f.scope.clone()],
            );
            let mut got: Listed = list_memory(&rows, &f)
                .into_iter()
                .map(|e| (e.rel_path, e.content_hash.unwrap(), e.versions))
                .collect();
            want.sort();
            got.sort();
            assert_eq!(got, want);
        }
    }
    for query in [None, Some("50%_"), Some("MEMORY"), Some("q%"), Some("text 1")] {
        let got: Listed = list_memory_for_instance(&rows, "p", "-w-x", &owned(query))
            .into_iter()
            .map(|e| (e.rel_path, e.content_hash.unwrap(), e.versions))
            .collect();
        let like = query.map(|q| format!("%{}%", ccc::archive::like::escape_like(q)));
        let want = memory_in(
            &conn,
            "a.agent_profile = 'p' AND (a.scope = 'user' OR a.rel_path LIKE 'projects/-w-x/%')
             AND (?1 IS NULL OR a.rel_path LIKE ?1 ESCAPE '\\' OR a.content LIKE ?1 ESCAPE '\\')",
            vec![like],
        );
        assert_eq!(got, want, "{query:?}");
    }
}
