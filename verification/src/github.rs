//! What the clock learns from the GitHub API: the signed-in user's login,
//! up to three of the user's open pull requests, and, when the search finds
//! none, the pull requests of the user's repositories, newest first.
//!
//! The requests themselves are made by the caller: `fetch_start` names the
//! first address to fetch, and `fetch_step` takes the reply to the last
//! request and names the next address, or the final result.

use vstd::prelude::*;
use crate::json::{
    Json, as_array, get, json_as_array, json_get, json_str_member, parse_json, parsed_json,
    str_member,
};
use crate::text::same_text;

verus! {

/// An open pull request: its title and its address in the browser.
#[derive(Clone, Debug)]
pub struct GithubPr {
    pub title: String,
    pub url: String,
}

impl View for GithubPr {
    type V = (Seq<char>, Seq<char>);

    open spec fn view(&self) -> (Seq<char>, Seq<char>) {
        (self.title@, self.url@)
    }
}

/// What one round of fetching found: whether GitHub accepted the token, and
/// the pull requests to list.
#[derive(Clone, Debug)]
pub struct GithubFetchResult {
    pub connected: bool,
    pub prs: Vec<GithubPr>,
}

/// A pull request found in a repository, with the time of its last update
/// (ISO 8601 text, so that text order is time order).
pub type PullEntry = (String, GithubPr);

/// The plain view of a pull request entry.
pub open spec fn entry_view(e: PullEntry) -> (Seq<char>, (Seq<char>, Seq<char>)) {
    (e.0@, e.1@)
}

/// The plain views of a sequence of entries.
pub open spec fn entry_views(s: Seq<PullEntry>) -> Seq<(Seq<char>, (Seq<char>, Seq<char>))> {
    s.map_values(|e: PullEntry| entry_view(e))
}

/// The plain views of a sequence of pull requests.
pub open spec fn pr_views(s: Seq<GithubPr>) -> Seq<(Seq<char>, Seq<char>)> {
    s.map_values(|p: GithubPr| p@)
}

/// The first `n` elements of `s` (all of them when there are fewer).
pub open spec fn first_n<A>(s: Seq<A>, n: nat) -> Seq<A> {
    if s.len() <= n {
        s
    } else {
        s.take(n as int)
    }
}

// ---------------------------------------------------------------------------
// Reading the replies
// ---------------------------------------------------------------------------

/// The login of the signed-in user, from the `/user` reply.
pub open spec fn user_login(user: Json) -> Option<Seq<char>> {
    str_member(user, "login"@)
}

/// The login of the signed-in user.
pub fn login_of(user: &Json) -> (r: Option<String>)
    ensures
        r is None <==> user_login(*user) is None,
        r matches Some(s) ==> user_login(*user) == Some(s@),
{
    match json_str_member(user, "login") {
        Some(s) => Some(String::from_str(s)),
        None => None,
    }
}

/// A search hit as a pull request, if it has a string title and address.
pub open spec fn item_pr(item: Json) -> Option<(Seq<char>, Seq<char>)> {
    match (str_member(item, "title"@), str_member(item, "html_url"@)) {
        (Some(t), Some(u)) => Some((t, u)),
        _ => None,
    }
}

/// The pull requests among search hits, in order.
pub open spec fn item_prs(items: Seq<Json>) -> Seq<(Seq<char>, Seq<char>)>
    decreases items.len(),
{
    if items.len() == 0 {
        seq![]
    } else {
        item_prs(items.drop_last()) + match item_pr(items.last()) {
            Some(p) => seq![p],
            None => seq![],
        }
    }
}

/// The first three pull requests of a search reply's `items`; none when
/// the reply has no `items` array.
pub open spec fn search_prs(search: Json) -> Seq<(Seq<char>, Seq<char>)> {
    match get(search, "items"@) {
        Some(items) => match as_array(items) {
            Some(a) => first_n(item_prs(a), 3),
            None => seq![],
        },
        None => seq![],
    }
}

/// The first three pull requests of a search reply.
pub fn prs_from_search(search: &Json) -> (r: Vec<GithubPr>)
    ensures
        pr_views(r@) == search_prs(*search),
{
    let mut out: Vec<GithubPr> = Vec::new();
    let items = match json_get(search, "items") {
        Some(x) => x,
        None => {
            assert(pr_views(out@) =~= search_prs(*search));
            return out;
        },
    };
    let a = match json_as_array(items) {
        Some(a) => a,
        None => {
            assert(pr_views(out@) =~= search_prs(*search));
            return out;
        },
    };
    let mut i: usize = 0;
    assert(a@.take(0) =~= Seq::<Json>::empty());
    assert(pr_views(out@) =~= Seq::<(Seq<char>, Seq<char>)>::empty());
    while i < a.len()
        invariant
            i <= a.len(),
            pr_views(out@) == item_prs(a@.take(i as int)),
        decreases a.len() - i,
    {
        let ghost before = pr_views(out@);
        assert(a@.take(i + 1).drop_last() =~= a@.take(i as int));
        match (json_str_member(&a[i], "title"), json_str_member(&a[i], "html_url")) {
            (Some(t), Some(u)) => {
                out.push(GithubPr { title: String::from_str(t), url: String::from_str(u) });
                assert(pr_views(out@) =~= before.push((t@, u@)));
            },
            _ => {},
        }
        i = i + 1;
    }
    assert(a@.take(a.len() as int) =~= a@);
    out.truncate(3);
    assert(pr_views(out@) =~= search_prs(*search));
    out
}

/// The full names of the repositories of a `/user/repos` reply, in order.
pub open spec fn repo_list(items: Seq<Json>) -> Seq<Seq<char>>
    decreases items.len(),
{
    if items.len() == 0 {
        seq![]
    } else {
        repo_list(items.drop_last()) + match str_member(items.last(), "full_name"@) {
            Some(n) => seq![n],
            None => seq![],
        }
    }
}

/// The first twenty repository names of a `/user/repos` reply; none when
/// the reply is not an array.
pub open spec fn reply_repos(repos: Json) -> Seq<Seq<char>> {
    match as_array(repos) {
        Some(a) => first_n(repo_list(a), 20),
        None => seq![],
    }
}

/// The first twenty repository names of a `/user/repos` reply.
pub fn repo_names(repos: &Json) -> (r: Vec<String>)
    ensures
        r@.map_values(|s: String| s@) == reply_repos(*repos),
{
    let mut out: Vec<String> = Vec::new();
    let a = match json_as_array(repos) {
        Some(a) => a,
        None => {
            assert(out@.map_values(|s: String| s@) =~= reply_repos(*repos));
            return out;
        },
    };
    let mut i: usize = 0;
    assert(a@.take(0) =~= Seq::<Json>::empty());
    assert(out@.map_values(|s: String| s@) =~= Seq::<Seq<char>>::empty());
    while i < a.len()
        invariant
            i <= a.len(),
            out@.map_values(|s: String| s@) == repo_list(a@.take(i as int)),
        decreases a.len() - i,
    {
        let ghost before = out@.map_values(|s: String| s@);
        assert(a@.take(i + 1).drop_last() =~= a@.take(i as int));
        if let Some(n) = json_str_member(&a[i], "full_name") {
            out.push(String::from_str(n));
            assert(out@.map_values(|s: String| s@) =~= before.push(n@));
        }
        i = i + 1;
    }
    assert(a@.take(a.len() as int) =~= a@);
    out.truncate(20);
    assert(out@.map_values(|s: String| s@) =~= reply_repos(*repos));
    out
}

/// The text, or the empty text.
pub open spec fn or_empty(o: Option<Seq<char>>) -> Seq<char> {
    match o {
        Some(s) => s,
        None => seq![],
    }
}

/// The login of a pull request's author (`user.login`), empty if missing.
pub open spec fn pull_author(pr: Json) -> Seq<char> {
    match get(pr, "user"@) {
        Some(u) => or_empty(str_member(u, "login"@)),
        None => seq![],
    }
}

/// A pull request of a `/pulls` reply as an entry: update time, title and
/// address, each empty when missing.
pub open spec fn pull_entry(pr: Json) -> (Seq<char>, (Seq<char>, Seq<char>)) {
    (
        or_empty(str_member(pr, "updated_at"@)),
        (or_empty(str_member(pr, "title"@)), or_empty(str_member(pr, "html_url"@))),
    )
}

/// The entries of the pull requests in `items` written by `login`.
pub open spec fn authored_entries(items: Seq<Json>, login: Seq<char>) -> Seq<
    (Seq<char>, (Seq<char>, Seq<char>)),
>
    decreases items.len(),
{
    if items.len() == 0 {
        seq![]
    } else {
        authored_entries(items.drop_last(), login) + if pull_author(items.last()) == login {
            seq![pull_entry(items.last())]
        } else {
            seq![]
        }
    }
}

/// The entries of a `/pulls` reply written by `login`; none when the reply
/// is not an array.
pub open spec fn reply_pulls(pulls: Json, login: Seq<char>) -> Seq<
    (Seq<char>, (Seq<char>, Seq<char>)),
> {
    match as_array(pulls) {
        Some(a) => authored_entries(a, login),
        None => seq![],
    }
}

/// The position in `items` of the pull request that gives the `k`-th
/// entry of `authored_entries(items, login)`.
pub open spec fn authored_position(items: Seq<Json>, login: Seq<char>, k: int) -> int
    decreases items.len(),
{
    if items.len() == 0 {
        0
    } else if k < authored_entries(items.drop_last(), login).len() {
        authored_position(items.drop_last(), login, k)
    } else {
        items.len() - 1
    }
}

proof fn lemma_authored_position(items: Seq<Json>, login: Seq<char>, k: int)
    requires
        0 <= k < authored_entries(items, login).len(),
    ensures
        0 <= authored_position(items, login, k) < items.len(),
        pull_author(items[authored_position(items, login, k)]) == login,
        authored_entries(items, login)[k] == pull_entry(items[authored_position(items, login, k)]),
    decreases items.len(),
{
    let rest = items.drop_last();
    if k < authored_entries(rest, login).len() {
        lemma_authored_position(rest, login, k);
        assert(rest[authored_position(rest, login, k)] == items[authored_position(rest, login, k)]);
    } else {
        assert(items[items.len() - 1] == items.last());
    }
}

proof fn lemma_authored_entries_members(items: Seq<Json>, login: Seq<char>)
    ensures
        forall|k: int|
            #![trigger authored_position(items, login, k)]
            0 <= k < authored_entries(items, login).len() ==> {
                &&& 0 <= authored_position(items, login, k) < items.len()
                &&& (match get(items[authored_position(items, login, k)], "user"@) {
                Some(u) => or_empty(str_member(u, "login"@)),
                None => seq![],
            }) == login
                &&& authored_entries(items, login)[k] === (
                or_empty(str_member(items[authored_position(items, login, k)], "updated_at"@)),
                (or_empty(str_member(items[authored_position(items, login, k)], "title"@)), or_empty(str_member(items[authored_position(items, login, k)], "html_url"@))),
            )
            },
        forall|i: int|
            0 <= i < items.len() && (match get(#[trigger] items[i], "user"@) {
                Some(u) => or_empty(str_member(u, "login"@)),
                None => seq![],
            }) == login ==> exists|k: int|
                0 <= k < authored_entries(items, login).len() && #[trigger] authored_entries(items, login)[k] === (
                or_empty(str_member(items[i], "updated_at"@)),
                (or_empty(str_member(items[i], "title"@)), or_empty(str_member(items[i], "html_url"@))),
            ),
    decreases items.len(),
{
    if items.len() > 0 {
        let rest = items.drop_last();
        lemma_authored_entries_members(rest, login);
        assert forall|k: int|
            #![trigger authored_position(items, login, k)]
            0 <= k < authored_entries(items, login).len() implies {
            &&& 0 <= authored_position(items, login, k) < items.len()
            &&& (match get(items[authored_position(items, login, k)], "user"@) {
                Some(u) => or_empty(str_member(u, "login"@)),
                None => seq![],
            }) == login
            &&& authored_entries(items, login)[k] === (
                or_empty(str_member(items[authored_position(items, login, k)], "updated_at"@)),
                (or_empty(str_member(items[authored_position(items, login, k)], "title"@)), or_empty(str_member(items[authored_position(items, login, k)], "html_url"@))),
            )
        } by {
            lemma_authored_position(items, login, k);
        }
        assert forall|i: int|
            0 <= i < items.len() && (match get(#[trigger] items[i], "user"@) {
                Some(u) => or_empty(str_member(u, "login"@)),
                None => seq![],
            }) == login implies exists|k: int|
            0 <= k < authored_entries(items, login).len() && #[trigger] authored_entries(items, login)[k] === (
                or_empty(str_member(items[i], "updated_at"@)),
                (or_empty(str_member(items[i], "title"@)), or_empty(str_member(items[i], "html_url"@))),
            ) by {
            if i < rest.len() {
                assert(rest[i] == items[i]);
                let k = choose|k: int|
                    0 <= k < authored_entries(rest, login).len()
                        && #[trigger] authored_entries(rest, login)[k] === (
                or_empty(str_member(rest[i], "updated_at"@)),
                (or_empty(str_member(rest[i], "title"@)), or_empty(str_member(rest[i], "html_url"@))),
            );
                assert(authored_entries(items, login)[k] == authored_entries(rest, login)[k]);
            } else {
                assert(items[i] == items.last());
                assert(authored_entries(items, login)[authored_entries(rest, login).len() as int] == pull_entry(items.last()));
            }
        }
    } else {
        assert(authored_entries(items, login).len() == 0);
    }
}

/// What a `/pulls` reply gives: nothing unless it is an array; otherwise
/// each entry is the update time, title and browser address (`html_url`)
/// of a pull request of the array whose `user.login` is `login`, each text
/// empty when missing, and every such pull request gives an entry.
pub proof fn lemma_reply_pulls_members(pulls: Json, login: Seq<char>)
    ensures
        as_array(pulls) is None ==> reply_pulls(pulls, login).len() == 0,
        as_array(pulls) matches Some(a) ==> {
            &&& forall|k: int|
            #![trigger authored_position(a, login, k)]
            0 <= k < reply_pulls(pulls, login).len() ==> {
                &&& 0 <= authored_position(a, login, k) < a.len()
                &&& (match get(a[authored_position(a, login, k)], "user"@) {
                Some(u) => or_empty(str_member(u, "login"@)),
                None => seq![],
            }) == login
                &&& reply_pulls(pulls, login)[k] === (
                or_empty(str_member(a[authored_position(a, login, k)], "updated_at"@)),
                (or_empty(str_member(a[authored_position(a, login, k)], "title"@)), or_empty(str_member(a[authored_position(a, login, k)], "html_url"@))),
            )
            }
            &&& forall|i: int|
            0 <= i < a.len() && (match get(#[trigger] a[i], "user"@) {
                Some(u) => or_empty(str_member(u, "login"@)),
                None => seq![],
            }) == login ==> exists|k: int|
                0 <= k < reply_pulls(pulls, login).len() && #[trigger] reply_pulls(pulls, login)[k] === (
                or_empty(str_member(a[i], "updated_at"@)),
                (or_empty(str_member(a[i], "title"@)), or_empty(str_member(a[i], "html_url"@))),
            )
        },
{
    if let Some(a) = as_array(pulls) {
        lemma_authored_entries_members(a, login);
        assert(reply_pulls(pulls, login) == authored_entries(a, login));
    }
}

fn str_or_empty(o: Option<&str>) -> (r: String)
    ensures
        r@ == or_empty(
            match o {
                Some(s) => Some(s@),
                None => None,
            },
        ),
{
    match o {
        Some(s) => String::from_str(s),
        None => String::new(),
    }
}

/// Appends to `matches` the pull requests of a `/pulls` reply that `login`
/// wrote.
pub fn collect_authored_pulls(pulls: &Json, login: &str, matches: &mut Vec<PullEntry>)
    ensures
        entry_views(final(matches)@) == entry_views(old(matches)@) + reply_pulls(*pulls, login@),
{
    let ghost start = entry_views(matches@);
    let a = match json_as_array(pulls) {
        Some(a) => a,
        None => {
            assert(entry_views(matches@) =~= start + reply_pulls(*pulls, login@));
            return ;
        },
    };
    let mut i: usize = 0;
    assert(a@.take(0) =~= Seq::<Json>::empty());
    assert(entry_views(matches@) =~= start + authored_entries(a@.take(0), login@));
    while i < a.len()
        invariant
            i <= a.len(),
            entry_views(matches@) == start + authored_entries(a@.take(i as int), login@),
        decreases a.len() - i,
    {
        let ghost before = entry_views(matches@);
        assert(a@.take(i + 1).drop_last() =~= a@.take(i as int));
        let pr = &a[i];
        let author = match json_get(pr, "user") {
            Some(u) => str_or_empty(json_str_member(u, "login")),
            None => String::new(),
        };
        assert(author@ == pull_author(a@[i as int]));
        if same_text(author.as_str(), login) {
            let title = str_or_empty(json_str_member(pr, "title"));
            let url = str_or_empty(json_str_member(pr, "html_url"));
            let updated = str_or_empty(json_str_member(pr, "updated_at"));
            let ghost e = (updated@, (title@, url@));
            assert(e == pull_entry(a@[i as int]));
            matches.push((updated, GithubPr { title, url }));
            assert(entry_views(matches@) =~= before.push(e));
        }
        assert(entry_views(matches@) =~= start + authored_entries(a@.take(i + 1), login@));
        i = i + 1;
    }
    assert(a@.take(a.len() as int) =~= a@);
}

// ---------------------------------------------------------------------------
// Newest first
// ---------------------------------------------------------------------------

/// `a` comes before `b` in text order (character by character; a proper
/// prefix comes first).  It is the byte order of the UTF-8 encodings
/// (`lemma_text_lt_byte_order`), the order in which strings compare.
pub open spec fn text_lt(a: Seq<char>, b: Seq<char>) -> bool
    decreases a.len(),
{
    if b.len() == 0 {
        false
    } else if a.len() == 0 {
        true
    } else if a[0] != b[0] {
        (a[0] as u32) < (b[0] as u32)
    } else {
        text_lt(a.drop_first(), b.drop_first())
    }
}

/// Whether `a` comes before `b` in text order.
pub fn text_less(a: &str, b: &str) -> (r: bool)
    ensures
        r == text_lt(a@, b@),
{
    let n = a.unicode_len();
    let m = b.unicode_len();
    let mut i: usize = 0;
    assert(a@.skip(0) =~= a@);
    assert(b@.skip(0) =~= b@);
    while i < n && i < m
        invariant
            i <= n,
            i <= m,
            n == a@.len(),
            m == b@.len(),
            text_lt(a@, b@) == text_lt(a@.skip(i as int), b@.skip(i as int)),
        decreases n - i,
    {
        let ca = a.get_char(i);
        let cb = b.get_char(i);
        assert(a@.skip(i as int)[0] == ca);
        assert(b@.skip(i as int)[0] == cb);
        if ca != cb {
            return (ca as u32) < (cb as u32);
        }
        assert(a@.skip(i as int).drop_first() =~= a@.skip(i + 1));
        assert(b@.skip(i as int).drop_first() =~= b@.skip(i + 1));
        i = i + 1;
    }
    i < m
}

/// `sorted` with `e` put before the first entry updated earlier than `e`
/// (so after every entry updated at the same time or later).
pub open spec fn insert_desc<T>(sorted: Seq<(Seq<char>, T)>, e: (Seq<char>, T)) -> Seq<
    (Seq<char>, T),
>
    decreases sorted.len(),
{
    if sorted.len() == 0 {
        seq![e]
    } else if text_lt(sorted[0].0, e.0) {
        seq![e] + sorted
    } else {
        seq![sorted[0]] + insert_desc(sorted.drop_first(), e)
    }
}

/// The entries ordered by update time, latest first; entries updated at the
/// same time keep their order (a stable sort).
pub open spec fn sort_desc<T>(s: Seq<(Seq<char>, T)>) -> Seq<(Seq<char>, T)>
    decreases s.len(),
{
    if s.len() == 0 {
        seq![]
    } else {
        insert_desc(sort_desc(s.drop_last()), s.last())
    }
}

proof fn lemma_insert_desc_at<T>(sorted: Seq<(Seq<char>, T)>, e: (Seq<char>, T), j: int)
    requires
        0 <= j <= sorted.len(),
        forall|k: int| 0 <= k < j ==> !text_lt(#[trigger] sorted[k].0, e.0),
        j == sorted.len() || text_lt(sorted[j].0, e.0),
    ensures
        insert_desc(sorted, e) == sorted.take(j).push(e) + sorted.skip(j),
    decreases j,
{
    if sorted.len() == 0 {
        assert(sorted.take(j).push(e) + sorted.skip(j) =~= seq![e]);
    } else if j == 0 {
        assert(sorted.take(j).push(e) + sorted.skip(j) =~= seq![e] + sorted);
    } else {
        let rest = sorted.drop_first();
        assert forall|k: int| 0 <= k < j - 1 implies !text_lt(#[trigger] rest[k].0, e.0) by {
            assert(rest[k] == sorted[k + 1]);
        }
        lemma_insert_desc_at(rest, e, j - 1);
        assert(sorted.take(j).push(e) + sorted.skip(j) =~= seq![sorted[0]] + (rest.take(j
            - 1).push(e) + rest.skip(j - 1)));
    }
}

/// The entries ordered by update time, latest first, stable.
pub fn sort_entries_desc(entries: Vec<PullEntry>) -> (r: Vec<PullEntry>)
    ensures
        entry_views(r@) == sort_desc(entry_views(entries@)),
{
    let ghost orig = entry_views(entries@);
    let mut input = entries;
    let mut sorted: Vec<PullEntry> = Vec::new();
    let ghost mut done: int = 0;
    assert(entry_views(input@) =~= orig.skip(0));
    assert(orig.take(0) =~= Seq::<(Seq<char>, (Seq<char>, Seq<char>))>::empty());
    assert(entry_views(sorted@) =~= sort_desc(orig.take(0)));
    while input.len() > 0
        invariant
            0 <= done <= orig.len(),
            entry_views(input@) == orig.skip(done),
            entry_views(sorted@) == sort_desc(orig.take(done)),
        decreases input.len(),
    {
        let ghost sv = entry_views(sorted@);
        let ghost pre = input@;
        assert(entry_views(pre)[0] == entry_view(pre[0]));
        let e = input.remove(0);
        let ghost ev = entry_view(e);
        assert(input@ =~= pre.drop_first());
        assert(entry_views(input@) =~= entry_views(pre).drop_first());
        assert(orig.skip(done).drop_first() =~= orig.skip(done + 1));
        assert(ev == orig[done]);
        let mut j: usize = 0;
        while j < sorted.len() && !text_less(sorted[j].0.as_str(), e.0.as_str())
            invariant
                j <= sorted.len(),
                sv == entry_views(sorted@),
                ev == entry_view(e),
                forall|k: int| 0 <= k < j ==> !text_lt(#[trigger] sv[k].0, ev.0),
            decreases sorted.len() - j,
        {
            j = j + 1;
        }
        proof {
            lemma_insert_desc_at(sv, ev, j as int);
            assert(orig.take(done + 1).drop_last() =~= orig.take(done));
            assert(orig.take(done + 1).last() == ev);
        }
        sorted.insert(j, e);
        assert(entry_views(sorted@) =~= sv.take(j as int).push(ev) + sv.skip(j as int));
        proof {
            done = done + 1;
        }
    }
    assert(orig.take(done) =~= orig);
    sorted
}

/// The three most recently updated entries' pull requests.
pub open spec fn latest_three(entries: Seq<(Seq<char>, (Seq<char>, Seq<char>))>) -> Seq<
    (Seq<char>, Seq<char>),
> {
    first_n(sort_desc(entries), 3).map_values(|e: (Seq<char>, (Seq<char>, Seq<char>))| e.1)
}

/// The pull requests of the three most recently updated entries, latest
/// first.
pub fn latest_prs(entries: Vec<PullEntry>) -> (r: Vec<GithubPr>)
    ensures
        pr_views(r@) == latest_three(entry_views(entries@)),
{
    let mut sorted = sort_entries_desc(entries);
    sorted.truncate(3);
    let ghost top = entry_views(sorted@);
    let mut out: Vec<GithubPr> = Vec::new();
    while sorted.len() > 0
        invariant
            sorted.len() <= top.len(),
            entry_views(sorted@) == top.skip(top.len() - sorted.len()),
            pr_views(out@) == top.take(top.len() - sorted.len()).map_values(
                |e: (Seq<char>, (Seq<char>, Seq<char>))| e.1,
            ),
        decreases sorted.len(),
    {
        let ghost k = top.len() - sorted.len();
        let ghost before = pr_views(out@);
        let ghost pre = sorted@;
        assert(entry_views(pre)[0] == entry_view(pre[0]));
        let e = sorted.remove(0);
        assert(sorted@ =~= pre.drop_first());
        assert(entry_views(sorted@) =~= entry_views(pre).drop_first());
        assert(top.skip(k).drop_first() =~= top.skip(k + 1));
        assert(entry_view(e) == top[k]);
        out.push(e.1);
        assert(pr_views(out@) =~= before.push(entry_view(e).1));
        assert(top.take(k + 1).map_values(|e: (Seq<char>, (Seq<char>, Seq<char>))| e.1)
            =~= top.take(k).map_values(|e: (Seq<char>, (Seq<char>, Seq<char>))| e.1).push(
            top[k].1,
        ));
        assert(pr_views(out@) =~= top.take(k + 1).map_values(
            |e: (Seq<char>, (Seq<char>, Seq<char>))| e.1,
        ));
    }
    assert(top.take(top.len() as int) =~= top);
    assert(pr_views(out@) =~= latest_three(entry_views(entries@)));
    out
}

} // verus!

verus! {

// ---------------------------------------------------------------------------
// Addresses
// ---------------------------------------------------------------------------

/// The address of the signed-in user.
pub open spec fn user_url() -> Seq<char> {
    "https://api.github.com/user"@
}

/// The search for the open pull requests that `login` wrote, most recently
/// updated first, three of them.
pub open spec fn search_url(login: Seq<char>) -> Seq<char> {
    "https://api.github.com/search/issues?q=is:pr+is:open+author:"@ + login
        + "&per_page=3&sort=updated&order=desc"@
}

/// The signed-in user's repositories (owned, collaborated on, or of an
/// organisation), most recently updated first, fifty of them.
pub open spec fn repos_url() -> Seq<char> {
    "https://api.github.com/user/repos?affiliation=owner,collaborator,organization_member&per_page=50&sort=updated"@
}

/// The open pull requests of repository `repo` (`owner/name`), most
/// recently updated first, ten of them.
pub open spec fn pulls_url(repo: Seq<char>) -> Seq<char> {
    "https://api.github.com/repos/"@ + repo + "/pulls?state=open&per_page=10&sort=updated&direction=desc"@
}

/// The address of the signed-in user.
pub fn user_address() -> (r: String)
    ensures
        r@ == user_url(),
{
    String::from_str("https://api.github.com/user")
}

/// The pull request search address for `login`.
pub fn search_address(login: &str) -> (r: String)
    ensures
        r@ == search_url(login@),
{
    String::from_str("https://api.github.com/search/issues?q=is:pr+is:open+author:").concat(
        login,
    ).concat("&per_page=3&sort=updated&order=desc")
}

/// The address of the user's repositories.
pub fn repos_address() -> (r: String)
    ensures
        r@ == repos_url(),
{
    String::from_str(
        "https://api.github.com/user/repos?affiliation=owner,collaborator,organization_member&per_page=50&sort=updated",
    )
}

/// The address of the open pull requests of `repo`.
pub fn pulls_address(repo: &str) -> (r: String)
    ensures
        r@ == pulls_url(repo@),
{
    String::from_str("https://api.github.com/repos/").concat(repo).concat(
        "/pulls?state=open&per_page=10&sort=updated&direction=desc",
    )
}

// ---------------------------------------------------------------------------
// The fetch, step by step
// ---------------------------------------------------------------------------

/// Which request is under way.
pub enum FetchStage {
    /// Asking who the token belongs to.
    User,
    /// Searching the user's open pull requests.
    Search { login: String },
    /// Listing the user's repositories.
    Repos { login: String },
    /// Listing the open pull requests of `repos[next]`; `matches` holds what
    /// the earlier repositories gave.
    Pulls { login: String, repos: Vec<String>, next: usize, matches: Vec<PullEntry> },
}

/// The answer to a request.
pub enum Reply {
    /// The request failed or GitHub answered with a status outside 200-299.
    Failed,
    /// The answer's body could not be read as text.
    Unreadable,
    /// The body, read as JSON (`Json::Null` when it is not JSON).
    Body(Json),
}

/// An HTTP status of success, 200 to 299.
pub open spec fn status_ok(status: u16) -> bool {
    200 <= status < 300
}

/// The reply to a request that answered with `status` (`None` when the
/// request failed before any answer) and whose body read as `body` (`None`
/// when it could not be read).
pub open spec fn reply_spec(status: Option<u16>, body: Option<String>) -> Reply {
    match status {
        Some(code) if status_ok(code) => match body {
            None => Reply::Unreadable,
            Some(text) => Reply::Body(
                match parsed_json(text@) {
                    Some(j) => j,
                    None => Json::Null,
                },
            ),
        },
        _ => Reply::Failed,
    }
}

/// The reply to a request, from its status and body text: `Failed` unless
/// the status is 200 to 299, `Unreadable` without a body, otherwise the body
/// read as JSON, `Json::Null` when it is not JSON.
pub fn reply_of(status: Option<u16>, body: Option<String>) -> (r: Reply)
    ensures
        r == reply_spec(status, body),
{
    match status {
        Some(code) if 200 <= code && code < 300 => match body {
            None => Reply::Unreadable,
            Some(text) => match parse_json(text.as_str()) {
                Some(j) => Reply::Body(j),
                None => Reply::Body(Json::Null),
            },
        },
        _ => Reply::Failed,
    }
}

/// What to do next.
pub enum FetchStep {
    /// Fetch `url` (with the token) and pass the reply to `fetch_step`
    /// together with the stage.
    Request(FetchStage, String),
    /// The fetch is over.
    Finish(GithubFetchResult),
}

/// The plain view of a stage.
pub enum StageView {
    User,
    Search(Seq<char>),
    Repos(Seq<char>),
    Pulls(Seq<char>, Seq<Seq<char>>, nat, Seq<(Seq<char>, (Seq<char>, Seq<char>))>),
}

/// The plain view of a step.
pub enum StepView {
    Request(StageView, Seq<char>),
    Finish(bool, Seq<(Seq<char>, Seq<char>)>),
}

impl View for FetchStage {
    type V = StageView;

    open spec fn view(&self) -> StageView {
        match self {
            FetchStage::User => StageView::User,
            FetchStage::Search { login } => StageView::Search(login@),
            FetchStage::Repos { login } => StageView::Repos(login@),
            FetchStage::Pulls { login, repos, next, matches } => StageView::Pulls(
                login@,
                repos@.map_values(|s: String| s@),
                *next as nat,
                entry_views(matches@),
            ),
        }
    }
}

impl View for FetchStep {
    type V = StepView;

    open spec fn view(&self) -> StepView {
        match self {
            FetchStep::Request(stage, url) => StepView::Request(stage@, url@),
            FetchStep::Finish(result) => StepView::Finish(result.connected, pr_views(result.prs@)),
        }
    }
}

/// The step after the pull requests of `repos[next]` were added to `matches`:
/// the next repository's pull requests, or, after the last repository, the
/// three most recently updated matches.
pub open spec fn after_repo(
    login: Seq<char>,
    repos: Seq<Seq<char>>,
    next: nat,
    matches: Seq<(Seq<char>, (Seq<char>, Seq<char>))>,
) -> StepView {
    if next < repos.len() {
        StepView::Request(StageView::Pulls(login, repos, next, matches), pulls_url(repos[next as int]))
    } else {
        StepView::Finish(true, latest_three(matches))
    }
}

/// The protocol of one round of fetching.
///
/// - the user: without a readable answer, or without a string `login` in
///   it, the token is refused (not connected, nothing to list); otherwise
///   the user's open pull requests are searched;
/// - the search: without a readable answer there is nothing to list; when
///   it finds pull requests, the first three are listed; otherwise the
///   user's repositories are asked for;
/// - the repositories: a failed request ends with nothing to list; an
///   unreadable answer counts as no repositories; each of the first twenty
///   repositories is then asked for its open pull requests in turn;
/// - the pull requests of one repository: those whose author is the user
///   are kept (a failed or unreadable answer adds none); after the last
///   repository the three most recently updated are listed.
pub open spec fn fetch_next(stage: StageView, reply: Reply) -> StepView {
    match stage {
        StageView::User => match reply {
            Reply::Body(j) => match user_login(j) {
                Some(login) => StepView::Request(StageView::Search(login), search_url(login)),
                None => StepView::Finish(false, seq![]),
            },
            _ => StepView::Finish(false, seq![]),
        },
        StageView::Search(login) => match reply {
            Reply::Body(j) => if search_prs(j).len() > 0 {
                StepView::Finish(true, search_prs(j))
            } else {
                StepView::Request(StageView::Repos(login), repos_url())
            },
            _ => StepView::Finish(true, seq![]),
        },
        StageView::Repos(login) => match reply {
            Reply::Failed => StepView::Finish(true, seq![]),
            Reply::Unreadable => after_repo(login, seq![], 0, seq![]),
            Reply::Body(j) => after_repo(login, reply_repos(j), 0, seq![]),
        },
        StageView::Pulls(login, repos, next, matches) => {
            let found = match reply {
                Reply::Body(j) => reply_pulls(j, login),
                _ => seq![],
            };
            after_repo(login, repos, next + 1, matches + found)
        },
    }
}

/// The first step of a fetch: ask who the token belongs to.
pub fn fetch_start() -> (r: FetchStep)
    ensures
        r@ == StepView::Request(StageView::User, user_url()),
{
    FetchStep::Request(FetchStage::User, user_address())
}

fn finish(connected: bool, prs: Vec<GithubPr>) -> (r: FetchStep)
    ensures
        r@ == StepView::Finish(connected, pr_views(prs@)),
{
    FetchStep::Finish(GithubFetchResult { connected, prs })
}

fn finish_empty(connected: bool) -> (r: FetchStep)
    ensures
        r@ == StepView::Finish(connected, seq![]),
{
    let prs: Vec<GithubPr> = Vec::new();
    assert(pr_views(prs@) =~= Seq::<(Seq<char>, Seq<char>)>::empty());
    finish(connected, prs)
}

fn continue_repos(login: String, repos: Vec<String>, next: usize, matches: Vec<PullEntry>) -> (r:
    FetchStep)
    ensures
        r@ == after_repo(
            login@,
            repos@.map_values(|s: String| s@),
            next as nat,
            entry_views(matches@),
        ),
{
    if next < repos.len() {
        let url = pulls_address(repos[next].as_str());
        FetchStep::Request(FetchStage::Pulls { login, repos, next, matches }, url)
    } else {
        let prs = latest_prs(matches);
        finish(true, prs)
    }
}

/// The next step of a fetch, given the stage it is at and the reply to the
/// stage's request.
pub fn fetch_step(stage: FetchStage, reply: Reply) -> (r: FetchStep)
    ensures
        r@ == fetch_next(stage@, reply),
{
    let ghost sv = stage@;
    match stage {
        FetchStage::User => match reply {
            Reply::Body(j) => match login_of(&j) {
                Some(login) => {
                    let url = search_address(login.as_str());
                    FetchStep::Request(FetchStage::Search { login }, url)
                },
                None => finish_empty(false),
            },
            _ => finish_empty(false),
        },
        FetchStage::Search { login } => match reply {
            Reply::Body(j) => {
                let prs = prs_from_search(&j);
                if prs.len() > 0 {
                    finish(true, prs)
                } else {
                    FetchStep::Request(FetchStage::Repos { login }, repos_address())
                }
            },
            _ => finish_empty(true),
        },
        FetchStage::Repos { login } => match reply {
            Reply::Failed => finish_empty(true),
            Reply::Unreadable => {
                let none: Vec<String> = Vec::new();
                assert(none@.map_values(|s: String| s@) =~= Seq::<Seq<char>>::empty());
                let empty: Vec<PullEntry> = Vec::new();
                assert(entry_views(empty@) =~= Seq::<(Seq<char>, (Seq<char>, Seq<char>))>::empty());
                let r = continue_repos(login, none, 0, empty);
                assert(r@ == fetch_next(sv, Reply::Unreadable));
                r
            },
            Reply::Body(j) => {
                let names = repo_names(&j);
                let empty: Vec<PullEntry> = Vec::new();
                assert(entry_views(empty@) =~= Seq::<(Seq<char>, (Seq<char>, Seq<char>))>::empty());
                let r = continue_repos(login, names, 0, empty);
                assert(r@ == fetch_next(sv, Reply::Body(j)));
                r
            },
        },
        FetchStage::Pulls { login, repos, next, matches } => {
            let mut matches = matches;
            let ghost before = entry_views(matches@);
            let ghost found = match reply {
                Reply::Body(ref j) => reply_pulls(*j, login@),
                _ => seq![],
            };
            if let Reply::Body(j) = &reply {
                collect_authored_pulls(j, login.as_str(), &mut matches);
            } else {
                assert(entry_views(matches@) =~= before + Seq::<
                    (Seq<char>, (Seq<char>, Seq<char>)),
                >::empty());
            }
            assert(entry_views(matches@) == before + found);
            let next2: usize = if next < usize::MAX {
                next + 1
            } else {
                next
            };
            let ghost rv = repos@.map_values(|s: String| s@);
            assert(rv.len() == repos.len());
            let r = continue_repos(login, repos, next2, matches);
            assert(r@ == after_repo(login@, rv, next2 as nat, before + found));
            assert(r@ == after_repo(login@, rv, (next + 1) as nat, before + found));
            r
        },
    }
}

} // verus!

verus! {

// ---------------------------------------------------------------------------
// Laws of the fetch
// ---------------------------------------------------------------------------

/// A stage that the fetch can reach: a repository walk over at most twenty
/// repositories, at one of them.
pub open spec fn stage_ok(stage: StageView) -> bool {
    match stage {
        StageView::Pulls(_, repos, next, _) => repos.len() <= 20 && next < repos.len(),
        _ => true,
    }
}

/// How many more requests can follow the one of `stage`.
pub open spec fn requests_left(stage: StageView) -> nat {
    match stage {
        StageView::User => 22,
        StageView::Search(_) => 21,
        StageView::Repos(_) => 20,
        StageView::Pulls(_, repos, next, _) => if next < repos.len() {
            (repos.len() - next - 1) as nat
        } else {
            0
        },
    }
}

proof fn lemma_latest_three_len(m: Seq<(Seq<char>, (Seq<char>, Seq<char>))>)
    ensures
        latest_three(m).len() <= 3,
{
}

/// Each step of the fetch either finishes, with at most three pull
/// requests and "not connected" only when the user could not be read, or
/// asks for one more request from a reachable stage with fewer requests
/// left.  So a fetch makes at most 23 requests.
pub proof fn lemma_fetch_progress(stage: StageView, reply: Reply)
    requires
        stage_ok(stage),
    ensures
        match fetch_next(stage, reply) {
            StepView::Request(s2, _) => stage_ok(s2) && requests_left(s2) < requests_left(stage),
            StepView::Finish(connected, prs) => prs.len() <= 3 && (!connected ==> stage
                == StageView::User && prs.len() == 0),
        },
{
    match stage {
        StageView::Repos(login) => {
            match reply {
                Reply::Body(j) => {
                    let rs = reply_repos(j);
                    assert(rs.len() <= 20);
                    lemma_latest_three_len(seq![]);
                },
                _ => {
                    lemma_latest_three_len(seq![]);
                },
            }
        },
        StageView::Pulls(login, repos, next, matches) => {
            let found = match reply {
                Reply::Body(j) => reply_pulls(j, login),
                _ => seq![],
            };
            lemma_latest_three_len(matches + found);
        },
        StageView::Search(_) => {
            match reply {
                Reply::Body(j) => {
                    assert(search_prs(j).len() <= 3);
                },
                _ => {},
            }
        },
        StageView::User => {},
    }
}

} // verus!

verus! {

// ---------------------------------------------------------------------------
// Laws of the ordering
// ---------------------------------------------------------------------------

/// Text order is asymmetric.
pub proof fn lemma_text_lt_asym(a: Seq<char>, b: Seq<char>)
    ensures
        text_lt(a, b) ==> !text_lt(b, a),
    decreases a.len(),
{
    if a.len() > 0 && b.len() > 0 && a[0] == b[0] {
        lemma_text_lt_asym(a.drop_first(), b.drop_first());
    }
}

/// Text order is transitive.
pub proof fn lemma_text_lt_trans(a: Seq<char>, b: Seq<char>, c: Seq<char>)
    ensures
        text_lt(a, b) && text_lt(b, c) ==> text_lt(a, c),
    decreases a.len(),
{
    if a.len() > 0 && b.len() > 0 && c.len() > 0 && a[0] == b[0] && b[0] == c[0] {
        lemma_text_lt_trans(a.drop_first(), b.drop_first(), c.drop_first());
    }
}

/// Of two different texts, one comes first.
pub proof fn lemma_text_lt_total(a: Seq<char>, b: Seq<char>)
    ensures
        a != b ==> text_lt(a, b) || text_lt(b, a),
    decreases a.len(),
{
    if a.len() > 0 && b.len() > 0 && a[0] == b[0] {
        lemma_text_lt_total(a.drop_first(), b.drop_first());
        if a.drop_first() == b.drop_first() {
            assert(a =~= seq![a[0]] + a.drop_first());
            assert(b =~= seq![b[0]] + b.drop_first());
        }
    } else if a.len() == 0 && b.len() == 0 {
        assert(a =~= b);
    } else if a.len() > 0 && b.len() > 0 {
        vstd::utf8::char_u32_cast(a[0], a[0] as u32);
        vstd::utf8::char_u32_cast(b[0], b[0] as u32);
    }
}

/// `a` comes before `b` in byte order: the first byte that differs is
/// smaller in `a`, or `a` is a proper prefix of `b`.
pub open spec fn bytes_lt(a: Seq<u8>, b: Seq<u8>) -> bool
    decreases a.len(),
{
    if b.len() == 0 {
        false
    } else if a.len() == 0 {
        true
    } else if a[0] != b[0] {
        a[0] < b[0]
    } else {
        bytes_lt(a.drop_first(), b.drop_first())
    }
}

/// Where two byte strings first differ at `k`, that byte decides their order.
proof fn lemma_bytes_lt_first_diff(a: Seq<u8>, b: Seq<u8>, k: int)
    requires
        0 <= k < a.len(),
        k < b.len(),
        forall|j: int| 0 <= j < k ==> a[j] == b[j],
        a[k] != b[k],
    ensures
        bytes_lt(a, b) == (a[k] < b[k]),
    decreases k,
{
    if k > 0 {
        assert(a[0] == b[0]);
        lemma_bytes_lt_first_diff(a.drop_first(), b.drop_first(), k - 1);
    }
}

/// A common beginning does not change the order.
proof fn lemma_bytes_lt_common_prefix(p: Seq<u8>, s: Seq<u8>, t: Seq<u8>)
    ensures
        bytes_lt(p + s, p + t) == bytes_lt(s, t),
    decreases p.len(),
{
    if p.len() == 0 {
        assert(p + s =~= s);
        assert(p + t =~= t);
    } else {
        assert((p + s).drop_first() =~= p.drop_first() + s);
        assert((p + t).drop_first() =~= p.drop_first() + t);
        lemma_bytes_lt_common_prefix(p.drop_first(), s, t);
    }
}

proof fn lemma_leading_byte_ranges(x: u32)
    by (bit_vector)
    ensures
        vstd::utf8::has_width_1_encoding(x) ==> vstd::utf8::leading_byte_width_1(x) == x,
        vstd::utf8::has_width_2_encoding(x) ==> 0xc0 <= vstd::utf8::leading_byte_width_2(x)
            <= 0xdf,
        vstd::utf8::has_width_3_encoding(x) ==> 0xe0 <= vstd::utf8::leading_byte_width_3(x)
            <= 0xef,
        vstd::utf8::has_width_4_encoding(x) ==> 0xf0 <= vstd::utf8::leading_byte_width_4(x)
            <= 0xf7,
{
}

proof fn lemma_width_2_order(x: u32, y: u32)
    by (bit_vector)
    requires
        vstd::utf8::has_width_2_encoding(x),
        vstd::utf8::has_width_2_encoding(y),
        x < y,
    ensures
        vstd::utf8::leading_byte_width_2(x) < vstd::utf8::leading_byte_width_2(y) || (
        vstd::utf8::leading_byte_width_2(x) == vstd::utf8::leading_byte_width_2(y)
            && vstd::utf8::last_continuation_byte(x) < vstd::utf8::last_continuation_byte(y)),
{
}

proof fn lemma_width_3_order(x: u32, y: u32)
    by (bit_vector)
    requires
        vstd::utf8::has_width_3_encoding(x),
        vstd::utf8::has_width_3_encoding(y),
        x < y,
    ensures
        vstd::utf8::leading_byte_width_3(x) < vstd::utf8::leading_byte_width_3(y) || (
        vstd::utf8::leading_byte_width_3(x) == vstd::utf8::leading_byte_width_3(y) && (
        vstd::utf8::second_last_continuation_byte(x) < vstd::utf8::second_last_continuation_byte(
            y,
        ) || (vstd::utf8::second_last_continuation_byte(x)
            == vstd::utf8::second_last_continuation_byte(y)
            && vstd::utf8::last_continuation_byte(x) < vstd::utf8::last_continuation_byte(y)))),
{
}

proof fn lemma_width_4_order(x: u32, y: u32)
    by (bit_vector)
    requires
        vstd::utf8::has_width_4_encoding(x),
        vstd::utf8::has_width_4_encoding(y),
        x < y,
    ensures
        vstd::utf8::leading_byte_width_4(x) < vstd::utf8::leading_byte_width_4(y) || (
        vstd::utf8::leading_byte_width_4(x) == vstd::utf8::leading_byte_width_4(y) && (
        vstd::utf8::third_last_continuation_byte(x) < vstd::utf8::third_last_continuation_byte(y)
            || (vstd::utf8::third_last_continuation_byte(x)
            == vstd::utf8::third_last_continuation_byte(y) && (
        vstd::utf8::second_last_continuation_byte(x) < vstd::utf8::second_last_continuation_byte(
            y,
        ) || (vstd::utf8::second_last_continuation_byte(x)
            == vstd::utf8::second_last_continuation_byte(y)
            && vstd::utf8::last_continuation_byte(x) < vstd::utf8::last_continuation_byte(
            y,
        )))))),
{
}

/// The encodings of two scalars `x < y` first differ at some byte `k`, where
/// the byte of `x` is the smaller.
proof fn lemma_scalar_bytes_order(x: u32, y: u32) -> (k: int)
    requires
        vstd::utf8::is_scalar(x),
        vstd::utf8::is_scalar(y),
        x < y,
    ensures
        0 <= k < vstd::utf8::encode_scalar(x).len(),
        k < vstd::utf8::encode_scalar(y).len(),
        forall|j: int|
            0 <= j < k ==> vstd::utf8::encode_scalar(x)[j] == vstd::utf8::encode_scalar(y)[j],
        vstd::utf8::encode_scalar(x)[k] < vstd::utf8::encode_scalar(y)[k],
{
    lemma_leading_byte_ranges(x);
    lemma_leading_byte_ranges(y);
    let ex = vstd::utf8::encode_scalar(x);
    let ey = vstd::utf8::encode_scalar(y);
    if vstd::utf8::has_width_2_encoding(x) && vstd::utf8::has_width_2_encoding(y) {
        lemma_width_2_order(x, y);
        if ex[0] < ey[0] {
            0
        } else {
            1
        }
    } else if vstd::utf8::has_width_3_encoding(x) && vstd::utf8::has_width_3_encoding(y) {
        lemma_width_3_order(x, y);
        if ex[0] < ey[0] {
            0
        } else if ex[1] < ey[1] {
            1
        } else {
            2
        }
    } else if vstd::utf8::has_width_4_encoding(x) && vstd::utf8::has_width_4_encoding(y) {
        lemma_width_4_order(x, y);
        if ex[0] < ey[0] {
            0
        } else if ex[1] < ey[1] {
            1
        } else if ex[2] < ey[2] {
            2
        } else {
            3
        }
    } else {
        0
    }
}

/// Text order is the order of the UTF-8 bytes, which is the order in which
/// strings compare.
pub proof fn lemma_text_lt_byte_order(a: Seq<char>, b: Seq<char>)
    ensures
        text_lt(a, b) == bytes_lt(vstd::utf8::encode_utf8(a), vstd::utf8::encode_utf8(b)),
    decreases a.len(),
{
    let ea = vstd::utf8::encode_utf8(a);
    let eb = vstd::utf8::encode_utf8(b);
    if b.len() == 0 {
        assert(eb.len() == 0);
    } else if a.len() == 0 {
        assert(ea.len() == 0);
        assert(eb.len() > 0);
    } else {
        vstd::utf8::char_is_scalar(a[0]);
        vstd::utf8::char_is_scalar(b[0]);
        let x = a[0] as u32;
        let y = b[0] as u32;
        let sx = vstd::utf8::encode_scalar(x);
        let sy = vstd::utf8::encode_scalar(y);
        assert(ea == sx + vstd::utf8::encode_utf8(a.drop_first()));
        assert(eb == sy + vstd::utf8::encode_utf8(b.drop_first()));
        if a[0] != b[0] {
            vstd::utf8::char_u32_cast(a[0], x);
            vstd::utf8::char_u32_cast(b[0], y);
            if x < y {
                let k = lemma_scalar_bytes_order(x, y);
                lemma_bytes_lt_first_diff(ea, eb, k);
            } else {
                let k = lemma_scalar_bytes_order(y, x);
                lemma_bytes_lt_first_diff(ea, eb, k);
            }
        } else {
            lemma_bytes_lt_common_prefix(
                sx,
                vstd::utf8::encode_utf8(a.drop_first()),
                vstd::utf8::encode_utf8(b.drop_first()),
            );
            lemma_text_lt_byte_order(a.drop_first(), b.drop_first());
        }
    }
}

/// Inserting adds the entry and keeps all the others.
pub proof fn lemma_insert_desc_multiset<T>(s: Seq<(Seq<char>, T)>, e: (Seq<char>, T))
    ensures
        insert_desc(s, e).to_multiset() == s.to_multiset().insert(e),
    decreases s.len(),
{
    broadcast use vstd::seq_lib::group_to_multiset_ensures;
    broadcast use vstd::seq_lib::lemma_multiset_commutative;

    if s.len() == 0 {
        assert(seq![e] =~= Seq::<(Seq<char>, T)>::empty().push(e));
    } else if text_lt(s[0].0, e.0) {
        assert(seq![e] =~= Seq::<(Seq<char>, T)>::empty().push(e));
        assert(seq![e].to_multiset() =~= vstd::multiset::Multiset::<(Seq<char>, T)>::empty().insert(e));
        assert((seq![e] + s).to_multiset() =~= s.to_multiset().insert(e));
    } else {
        lemma_insert_desc_multiset(s.drop_first(), e);
        let h = seq![s[0]];
        assert(h =~= Seq::<(Seq<char>, T)>::empty().push(s[0]));
        assert(s =~= h + s.drop_first());
        assert((h + insert_desc(s.drop_first(), e)).to_multiset() =~= h.to_multiset().add(
            insert_desc(s.drop_first(), e).to_multiset(),
        ));
        assert((h + s.drop_first()).to_multiset() =~= h.to_multiset().add(
            s.drop_first().to_multiset(),
        ));
    }
}

/// Latest first: no entry is updated before a later one.
pub open spec fn is_sorted_desc<T>(s: Seq<(Seq<char>, T)>) -> bool {
    forall|i: int, j: int| 0 <= i < j < s.len() ==> !text_lt(#[trigger] s[i].0, #[trigger] s[j].0)
}

proof fn lemma_insert_desc_sorted<T>(s: Seq<(Seq<char>, T)>, e: (Seq<char>, T))
    requires
        is_sorted_desc(s),
    ensures
        is_sorted_desc(insert_desc(s, e)),
    decreases s.len(),
{
    broadcast use vstd::seq_lib::group_to_multiset_ensures;

    if s.len() == 0 {
    } else if text_lt(s[0].0, e.0) {
        let r = seq![e] + s;
        assert forall|i: int, j: int| 0 <= i < j < r.len() implies !text_lt(
            #[trigger] r[i].0,
            #[trigger] r[j].0,
        ) by {
            if i == 0 {
                let x = s[j - 1];
                assert(r[j] == x);
                if text_lt(e.0, x.0) {
                    if j - 1 > 0 {
                        assert(!text_lt(s[0].0, x.0));
                        lemma_text_lt_total(s[0].0, x.0);
                        if x.0 != s[0].0 {
                            lemma_text_lt_trans(e.0, x.0, s[0].0);
                        }
                    }
                    lemma_text_lt_asym(e.0, s[0].0);
                }
            } else {
                assert(r[i] == s[i - 1]);
                assert(r[j] == s[j - 1]);
            }
        }
    } else {
        let rest = s.drop_first();
        assert(is_sorted_desc(rest)) by {
            assert forall|i: int, j: int| 0 <= i < j < rest.len() implies !text_lt(
                #[trigger] rest[i].0,
                #[trigger] rest[j].0,
            ) by {
                assert(rest[i] == s[i + 1]);
                assert(rest[j] == s[j + 1]);
            }
        }
        lemma_insert_desc_sorted(rest, e);
        lemma_insert_desc_multiset(rest, e);
        let tail = insert_desc(rest, e);
        let r = seq![s[0]] + tail;
        assert forall|i: int, j: int| 0 <= i < j < r.len() implies !text_lt(
            #[trigger] r[i].0,
            #[trigger] r[j].0,
        ) by {
            if i == 0 {
                let x = tail[j - 1];
                assert(r[j] == x);
                assert(tail.contains(x));
                assert(tail.to_multiset().count(x) > 0);
                if x != e {
                    assert(rest.to_multiset().count(x) > 0);
                    assert(rest.contains(x));
                    let k = choose|k: int| 0 <= k < rest.len() && rest[k] == x;
                    assert(s[k + 1] == x);
                }
            } else {
                assert(r[i] == tail[i - 1]);
                assert(r[j] == tail[j - 1]);
            }
        }
    }
}

/// Sorting orders the entries latest first and keeps every entry, each as
/// often as it was there.
pub proof fn lemma_sort_desc<T>(s: Seq<(Seq<char>, T)>)
    ensures
        is_sorted_desc(sort_desc(s)),
        sort_desc(s).to_multiset() == s.to_multiset(),
    decreases s.len(),
{
    broadcast use vstd::seq_lib::group_to_multiset_ensures;

    if s.len() > 0 {
        lemma_sort_desc(s.drop_last());
        lemma_insert_desc_sorted(sort_desc(s.drop_last()), s.last());
        lemma_insert_desc_multiset(sort_desc(s.drop_last()), s.last());
        assert(s =~= s.drop_last().push(s.last()));
    }
}

} // verus!

verus! {

/// The entries of `s` updated at time `k`, in order.
pub open spec fn with_key<T>(s: Seq<(Seq<char>, T)>, k: Seq<char>) -> Seq<(Seq<char>, T)>
    decreases s.len(),
{
    if s.len() == 0 {
        seq![]
    } else {
        (if s[0].0 == k {
            seq![s[0]]
        } else {
            seq![]
        }) + with_key(s.drop_first(), k)
    }
}

proof fn lemma_with_key_concat<T>(a: Seq<(Seq<char>, T)>, b: Seq<(Seq<char>, T)>, k: Seq<char>)
    ensures
        with_key(a + b, k) == with_key(a, k) + with_key(b, k),
    decreases a.len(),
{
    if a.len() == 0 {
        assert(a + b =~= b);
    } else {
        lemma_with_key_concat(a.drop_first(), b, k);
        assert((a + b).drop_first() =~= a.drop_first() + b);
        assert((a + b)[0] == a[0]);
    }
}

proof fn lemma_with_key_single<T>(x: (Seq<char>, T), k: Seq<char>)
    ensures
        with_key(seq![x], k) == if x.0 == k {
            seq![x]
        } else {
            seq![]
        },
{
    let none = Seq::<(Seq<char>, T)>::empty();
    assert(seq![x].drop_first() =~= none);
    assert(with_key(none, k) == none);
    let head: Seq<(Seq<char>, T)> = if x.0 == k {
        seq![x]
    } else {
        seq![]
    };
    assert(with_key(seq![x], k) == head + with_key(none, k));
    assert(head + none =~= head);
}

proof fn lemma_with_key_none<T>(s: Seq<(Seq<char>, T)>, k: Seq<char>)
    requires
        forall|i: int| 0 <= i < s.len() ==> (#[trigger] s[i]).0 != k,
    ensures
        with_key(s, k) == Seq::<(Seq<char>, T)>::empty(),
    decreases s.len(),
{
    if s.len() > 0 {
        assert forall|i: int| 0 <= i < s.drop_first().len() implies (
        #[trigger] s.drop_first()[i]).0 != k by {
            assert(s.drop_first()[i] == s[i + 1]);
        }
        lemma_with_key_none(s.drop_first(), k);
    }
}

proof fn lemma_insert_desc_stable<T>(s: Seq<(Seq<char>, T)>, e: (Seq<char>, T), k: Seq<char>)
    requires
        is_sorted_desc(s),
    ensures
        with_key(insert_desc(s, e), k) == with_key(s, k) + if e.0 == k {
            seq![e]
        } else {
            seq![]
        },
    decreases s.len(),
{
    let tail_e: Seq<(Seq<char>, T)> = if e.0 == k {
        seq![e]
    } else {
        seq![]
    };
    lemma_with_key_single(e, k);
    if s.len() == 0 {
        assert(with_key(s, k) =~= Seq::<(Seq<char>, T)>::empty());
        assert(with_key(s, k) + tail_e =~= tail_e);
    } else if text_lt(s[0].0, e.0) {
        lemma_with_key_concat(seq![e], s, k);
        if e.0 == k {
            lemma_text_lt_asym(s[0].0, e.0);
            assert forall|i: int| 0 <= i < s.len() implies (#[trigger] s[i]).0 != k by {
                if i > 0 {
                    assert(!text_lt(s[0].0, s[i].0));
                }
            }
            lemma_with_key_none(s, k);
            assert(with_key(seq![e] + s, k) =~= with_key(s, k) + tail_e);
        } else {
            assert(with_key(seq![e] + s, k) =~= with_key(s, k) + tail_e);
        }
    } else {
        let rest = s.drop_first();
        assert(is_sorted_desc(rest)) by {
            assert forall|i: int, j: int| 0 <= i < j < rest.len() implies !text_lt(
                #[trigger] rest[i].0,
                #[trigger] rest[j].0,
            ) by {
                assert(rest[i] == s[i + 1]);
                assert(rest[j] == s[j + 1]);
            }
        }
        lemma_insert_desc_stable(rest, e, k);
        let r = insert_desc(rest, e);
        assert((seq![s[0]] + r).drop_first() =~= r);
        assert(with_key(seq![s[0]] + r, k) =~= with_key(s, k) + tail_e);
    }
}

/// Sorting is stable: the entries updated at any one time keep their order.
pub proof fn lemma_sort_desc_stable<T>(s: Seq<(Seq<char>, T)>, k: Seq<char>)
    ensures
        with_key(sort_desc(s), k) == with_key(s, k),
    decreases s.len(),
{
    if s.len() > 0 {
        lemma_sort_desc_stable(s.drop_last(), k);
        lemma_sort_desc(s.drop_last());
        lemma_insert_desc_stable(sort_desc(s.drop_last()), s.last(), k);
        lemma_with_key_concat(s.drop_last(), seq![s.last()], k);
        assert(s.drop_last() + seq![s.last()] =~= s);
        lemma_with_key_single(s.last(), k);
    }
}

} // verus!
