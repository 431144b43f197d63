use commit_clock::github::{
    collect_authored_pulls, fetch_start, fetch_step, latest_prs, login_of, prs_from_search,
    pulls_address, reply_of, repo_names, repos_address, search_address, text_less,
    user_address,
    FetchStage, FetchStep, GithubPr, PullEntry, Reply,
};
use commit_clock::json::{json_str_member, Json};

fn s(v: &str) -> Json {
    Json::Str(v.to_string())
}

fn obj(pairs: Vec<(&str, Json)>) -> Json {
    Json::Object(pairs.into_iter().map(|(k, v)| (k.to_string(), v)).collect())
}

fn hit(title: &str, url: &str) -> Json {
    obj(vec![("title", s(title)), ("html_url", s(url))])
}

fn pull(author: &str, title: &str, updated: &str) -> Json {
    obj(vec![
        ("user", obj(vec![("login", s(author))])),
        ("title", s(title)),
        ("html_url", s(&format!("https://github.com/x/pull/{}", title))),
        ("updated_at", s(updated)),
    ])
}

fn entry(updated: &str, title: &str) -> PullEntry {
    (updated.to_string(), GithubPr { title: title.to_string(), url: String::new() })
}

fn titles(prs: &[GithubPr]) -> Vec<&str> {
    prs.iter().map(|p| p.title.as_str()).collect()
}

#[test]
fn addresses() {
    assert_eq!(user_address(), "https://api.github.com/user");
    assert_eq!(
        search_address("octo"),
        "https://api.github.com/search/issues?q=is:pr+is:open+author:octo&per_page=3&sort=updated&order=desc"
    );
    assert_eq!(
        repos_address(),
        "https://api.github.com/user/repos?affiliation=owner,collaborator,organization_member&per_page=50&sort=updated"
    );
    assert_eq!(
        pulls_address("octo/clock"),
        "https://api.github.com/repos/octo/clock/pulls?state=open&per_page=10&sort=updated&direction=desc"
    );
}

#[test]
fn login_from_user_reply() {
    assert_eq!(login_of(&obj(vec![("id", Json::Number("1".into())), ("login", s("octo"))])), Some("octo".to_string()));
    assert_eq!(login_of(&obj(vec![("login", Json::Number("5".into()))])), None);
    assert_eq!(login_of(&Json::Null), None);
}

#[test]
fn search_hits_first_three() {
    let reply = obj(vec![(
        "items",
        Json::Array(vec![
            hit("a", "u1"),
            obj(vec![("title", s("no url"))]),
            hit("b", "u2"),
            hit("c", "u3"),
            hit("d", "u4"),
        ]),
    )]);
    let prs = prs_from_search(&reply);
    assert_eq!(titles(&prs), vec!["a", "b", "c"]);
    assert_eq!(prs[1].url, "u2");
    assert!(prs_from_search(&obj(vec![("items", Json::Null)])).is_empty());
    assert!(prs_from_search(&Json::Null).is_empty());
}

#[test]
fn repository_names_first_twenty() {
    let items: Vec<Json> = (0..25)
        .map(|i| if i == 1 { obj(vec![]) } else { obj(vec![("full_name", s(&format!("o/r{}", i)))]) })
        .collect();
    let names = repo_names(&Json::Array(items));
    assert_eq!(names.len(), 20);
    assert_eq!(names[0], "o/r0");
    assert_eq!(names[1], "o/r2");
    assert_eq!(names[19], "o/r20");
    assert!(repo_names(&obj(vec![])).is_empty());
}

#[test]
fn authored_pulls_only() {
    let reply = Json::Array(vec![
        pull("octo", "mine", "2024-01-02T00:00:00Z"),
        pull("other", "theirs", "2024-01-03T00:00:00Z"),
        obj(vec![("title", s("nobody"))]),
    ]);
    let mut matches = vec![entry("2023", "earlier")];
    collect_authored_pulls(&reply, "octo", &mut matches);
    assert_eq!(matches.len(), 2);
    assert_eq!(matches[1].0, "2024-01-02T00:00:00Z");
    assert_eq!(matches[1].1.title, "mine");
    let mut none = Vec::new();
    collect_authored_pulls(&reply, "", &mut none);
    assert_eq!(none.len(), 1);
    assert_eq!(none[0].1.title, "nobody");
    assert_eq!(none[0].0, "");
}

#[test]
fn text_order() {
    assert!(text_less("2024-01-01", "2024-01-02"));
    assert!(!text_less("2024-01-02", "2024-01-01"));
    assert!(text_less("abc", "abcd"));
    assert!(!text_less("abc", "abc"));
    assert!(text_less("", "a"));
    assert_eq!(text_less("é", "z"), "é" < "z");
}

#[test]
fn text_order_matches_str_order() {
    let words = [
        "", "a", "ab", "b", "z", "é", "ée", "\u{7ff}", "\u{800}", "\u{ffff}", "\u{10000}",
        "\u{10ffff}", "\u{d7ff}", "\u{e000}", "2024-05-01T10:00:00Z", "2024-05-01T09:59:59Z",
    ];
    for a in words.iter() {
        for b in words.iter() {
            assert_eq!(text_less(a, b), a.as_bytes() < b.as_bytes(), "{:?} {:?}", a, b);
        }
    }
}

#[test]
fn latest_first_and_stable() {
    let prs = latest_prs(vec![
        entry("2024-01-01", "old"),
        entry("2024-03-01", "new1"),
        entry("2024-02-01", "mid"),
        entry("2024-03-01", "new2"),
        entry("2023-12-31", "oldest"),
    ]);
    assert_eq!(titles(&prs), vec!["new1", "new2", "mid"]);
    assert!(latest_prs(vec![]).is_empty());
}

fn expect_request(step: FetchStep) -> (FetchStage, String) {
    match step {
        FetchStep::Request(stage, url) => (stage, url),
        FetchStep::Finish(_) => panic!("expected a request"),
    }
}

#[test]
fn refused_token_is_not_connected() {
    let (stage, url) = expect_request(fetch_start());
    assert_eq!(url, "https://api.github.com/user");
    match fetch_step(stage, Reply::Failed) {
        FetchStep::Finish(r) => {
            assert!(!r.connected);
            assert!(r.prs.is_empty());
        },
        _ => panic!("expected the end"),
    }
    let (stage, _) = expect_request(fetch_start());
    match fetch_step(stage, Reply::Body(Json::Null)) {
        FetchStep::Finish(r) => assert!(!r.connected),
        _ => panic!("expected the end"),
    }
}

#[test]
fn search_results_are_listed() {
    let (stage, _) = expect_request(fetch_start());
    let (stage, url) = expect_request(fetch_step(stage, Reply::Body(obj(vec![("login", s("octo"))]))));
    assert!(url.contains("author:octo&"));
    let reply = obj(vec![("items", Json::Array(vec![hit("a", "u1"), hit("b", "u2")]))]);
    match fetch_step(stage, Reply::Body(reply)) {
        FetchStep::Finish(r) => {
            assert!(r.connected);
            assert_eq!(titles(&r.prs), vec!["a", "b"]);
        },
        _ => panic!("expected the end"),
    }
}

#[test]
fn failed_search_lists_nothing() {
    let (stage, _) = expect_request(fetch_start());
    let (stage, _) = expect_request(fetch_step(stage, Reply::Body(obj(vec![("login", s("octo"))]))));
    match fetch_step(stage, Reply::Unreadable) {
        FetchStep::Finish(r) => {
            assert!(r.connected);
            assert!(r.prs.is_empty());
        },
        _ => panic!("expected the end"),
    }
}

#[test]
fn repositories_are_walked_when_search_is_empty() {
    let (stage, _) = expect_request(fetch_start());
    let (stage, _) = expect_request(fetch_step(stage, Reply::Body(obj(vec![("login", s("octo"))]))));
    let (stage, url) = expect_request(fetch_step(stage, Reply::Body(obj(vec![("items", Json::Array(vec![]))]))));
    assert_eq!(url, repos_address());
    let repos = Json::Array(vec![
        obj(vec![("full_name", s("octo/a"))]),
        obj(vec![("full_name", s("octo/b"))]),
        obj(vec![("full_name", s("octo/c"))]),
    ]);
    let (stage, url) = expect_request(fetch_step(stage, Reply::Body(repos)));
    assert_eq!(url, pulls_address("octo/a"));
    let pulls_a = Json::Array(vec![
        pull("octo", "a1", "2024-01-05"),
        pull("octo", "a2", "2024-01-01"),
        pull("bob", "a3", "2024-02-01"),
    ]);
    let (stage, url) = expect_request(fetch_step(stage, Reply::Body(pulls_a)));
    assert_eq!(url, pulls_address("octo/b"));
    let (stage, url) = expect_request(fetch_step(stage, Reply::Failed));
    assert_eq!(url, pulls_address("octo/c"));
    let pulls_c = Json::Array(vec![pull("octo", "c1", "2024-01-03"), pull("octo", "c2", "2024-01-09")]);
    match fetch_step(stage, Reply::Body(pulls_c)) {
        FetchStep::Finish(r) => {
            assert!(r.connected);
            assert_eq!(titles(&r.prs), vec!["c2", "a1", "c1"]);
        },
        _ => panic!("expected the end"),
    }
}

#[test]
fn no_repositories_lists_nothing() {
    let (stage, _) = expect_request(fetch_start());
    let (stage, _) = expect_request(fetch_step(stage, Reply::Body(obj(vec![("login", s("octo"))]))));
    let (stage, _) = expect_request(fetch_step(stage, Reply::Body(Json::Null)));
    match fetch_step(stage, Reply::Unreadable) {
        FetchStep::Finish(r) => {
            assert!(r.connected);
            assert!(r.prs.is_empty());
        },
        _ => panic!("expected the end"),
    }
}

#[test]
fn reply_from_status_and_body() {
    assert!(matches!(reply_of(None, None), Reply::Failed));
    assert!(matches!(reply_of(Some(401), Some("{}".to_string())), Reply::Failed));
    assert!(matches!(reply_of(Some(199), None), Reply::Failed));
    assert!(matches!(reply_of(Some(300), Some("{}".to_string())), Reply::Failed));
    assert!(matches!(reply_of(Some(200), None), Reply::Unreadable));
    assert!(matches!(reply_of(Some(299), Some("not json".to_string())), Reply::Body(Json::Null)));
    match reply_of(Some(200), Some("{\"login\": \"octo\", \"id\": 7}".to_string())) {
        Reply::Body(j) => {
            assert_eq!(json_str_member(&j, "login"), Some("octo"));
            assert_eq!(login_of(&j), Some("octo".to_string()));
        }
        _ => panic!("expected a body"),
    }
}

#[test]
fn reply_bodies_are_read_as_json() {
    let body = |text: &str| match reply_of(Some(200), Some(text.to_string())) {
        Reply::Body(j) => j,
        _ => panic!("expected a body"),
    };
    assert!(matches!(body(""), Json::Null));
    assert!(matches!(body("{"), Json::Null));
    assert!(matches!(body("null"), Json::Null));
    assert!(matches!(body("true"), Json::Bool(true)));
    assert!(matches!(body("12.5"), Json::Number(n) if n == "12.5"));
    match body("[\"a\", {\"k\": [1]}]") {
        Json::Array(items) => {
            assert_eq!(items.len(), 2);
            assert!(matches!(&items[0], Json::Str(t) if t == "a"));
            match &items[1] {
                Json::Object(members) => {
                    assert_eq!(members.len(), 1);
                    assert_eq!(members[0].0, "k");
                    assert!(matches!(&members[0].1, Json::Array(v) if v.len() == 1));
                }
                _ => panic!("expected an object"),
            }
        }
        _ => panic!("expected an array"),
    }
}
