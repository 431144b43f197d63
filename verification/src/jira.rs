//! Finding Jira issue keys such as `ABC-123` in pull-request titles.

use vstd::prelude::*;
use crate::text::{
    char_len_utf8, is_alnum_char, is_ascii_alnum, is_ascii_digit, is_ascii_upper, is_digit_char,
    is_upper_char, lemma_utf8_len_is_byte_len, lemma_utf8_len_prefix, lemma_utf8_len_step,
    utf8_len,
};

verus! {

/// `v` splits at position `k` into `L-D`: `L` at least two ASCII
/// upper-case letters, `D` at least one ASCII digit.
pub open spec fn jira_split_at(v: Seq<char>, k: int) -> bool {
    &&& 2 <= k
    &&& k + 1 < v.len()
    &&& v[k] == '-'
    &&& forall|j: int| 0 <= j < k ==> is_ascii_upper(#[trigger] v[j])
    &&& forall|j: int| k < j < v.len() ==> is_ascii_digit(#[trigger] v[j])
}

/// `v` is a Jira key: upper-case project letters (two or more), a dash,
/// and a non-empty issue number.
pub open spec fn is_jira_key_spec(v: Seq<char>) -> bool {
    exists|k: int| #[trigger] jira_split_at(v, k)
}

/// Whether `value` is a Jira key.
pub fn is_jira_key(value: &str) -> (r: bool)
    ensures
        r == is_jira_key_spec(value@),
{
    let n = value.unicode_len();
    let mut k: usize = 0;
    while k < n && value.get_char(k) != '-'
        invariant
            k <= n,
            n == value@.len(),
            forall|j: int| 0 <= j < k ==> #[trigger] value@[j] != '-',
        decreases n - k,
    {
        k = k + 1;
    }
    if k == n || k < 2 || k + 1 >= n {
        proof {
            assert forall|k2: int| !#[trigger] jira_split_at(value@, k2) by {
                if jira_split_at(value@, k2) {
                    if k2 > k as int {
                        assert(is_ascii_upper(value@[k as int]));
                    }
                }
            }
        }
        return false;
    }
    let mut j: usize = 0;
    while j < k
        invariant
            j <= k < n,
            n == value@.len(),
            forall|i: int| 0 <= i < j ==> is_ascii_upper(#[trigger] value@[i]),
            forall|i: int| 0 <= i < k ==> #[trigger] value@[i] != '-',
            value@[k as int] == '-',
        decreases k - j,
    {
        if !is_upper_char(value.get_char(j)) {
            proof {
                assert forall|k2: int| !#[trigger] jira_split_at(value@, k2) by {
                    if jira_split_at(value@, k2) {
                        if k2 > k as int {
                            assert(is_ascii_upper(value@[k as int]));
                        }
                        assert(is_ascii_upper(value@[j as int]));
                    }
                }
            }
            return false;
        }
        j = j + 1;
    }
    let mut d: usize = k + 1;
    while d < n
        invariant
            k < d <= n,
            n == value@.len(),
            forall|i: int| k < i < d ==> is_ascii_digit(#[trigger] value@[i]),
            forall|i: int| 0 <= i < k ==> is_ascii_upper(#[trigger] value@[i]),
            forall|i: int| 0 <= i < k ==> #[trigger] value@[i] != '-',
            value@[k as int] == '-',
            2 <= k,
        decreases n - d,
    {
        if !is_digit_char(value.get_char(d)) {
            proof {
                assert forall|k2: int| !#[trigger] jira_split_at(value@, k2) by {
                    if jira_split_at(value@, k2) {
                        if k2 > k as int {
                            assert(is_ascii_upper(value@[k as int]));
                        }
                        assert(is_ascii_digit(value@[d as int]));
                    }
                }
            }
            return false;
        }
        d = d + 1;
    }
    assert(jira_split_at(value@, k as int));
    true
}

/// Characters that may belong to a Jira token: ASCII letters, digits, `-`.
pub open spec fn is_token_char(c: char) -> bool {
    is_ascii_alnum(c) || c == '-'
}

/// Length of the run of token characters at the start of `s`.
pub open spec fn run_len(s: Seq<char>) -> nat
    decreases s.len(),
{
    if s.len() > 0 && is_token_char(s[0]) {
        1 + run_len(s.drop_first())
    } else {
        0
    }
}

/// `run_len` of a run found by scanning.
proof fn lemma_run_len_of_run(s: Seq<char>, p: int, k: int)
    requires
        0 <= p <= k <= s.len(),
        forall|i: int| p <= i < k ==> is_token_char(#[trigger] s[i]),
        k == s.len() || !is_token_char(s[k]),
    ensures
        run_len(s.skip(p)) == k - p,
    decreases k - p,
{
    if p < k {
        lemma_run_len_of_run(s, p + 1, k);
        assert(s.skip(p).drop_first() =~= s.skip(p + 1));
    } else {
        if k < s.len() {
            assert(s.skip(p)[0] == s[k]);
        }
    }
}

/// A maximal run of token characters starts at `a` in `l`.
pub open spec fn token_starts_at(l: Seq<char>, a: int) -> bool {
    &&& 0 <= a < l.len()
    &&& is_token_char(l[a])
    &&& (a == 0 || !is_token_char(l[a - 1]))
}

/// The end (exclusive) of the token run that starts at `a`.
pub open spec fn token_end(l: Seq<char>, a: int) -> int {
    a + run_len(l.skip(a))
}

/// A token that is a Jira key starts at `a` in `l`.
pub open spec fn jira_token_at(l: Seq<char>, a: int) -> bool {
    token_starts_at(l, a) && is_jira_key_spec(l.subrange(a, token_end(l, a)))
}

/// The first Jira key in `line`, split off at maximal runs of ASCII letters,
/// digits and dashes: the byte offset where it starts, the byte offset where
/// it ends, and the key itself; `None` when no run is a Jira key.
pub fn find_jira_in_line(line: &str) -> (r: Option<(usize, usize, String)>)
    ensures
        r is None <==> forall|a: int| !#[trigger] jira_token_at(line@, a),
        r matches Some((s, e, key)) ==> exists|a: int|
            {
                &&& #[trigger] jira_token_at(line@, a)
                &&& forall|a2: int| 0 <= a2 < a ==> !jira_token_at(line@, a2)
                &&& key@ == line@.subrange(a, token_end(line@, a))
                &&& s == utf8_len(line@.take(a))
                &&& e == utf8_len(line@.take(token_end(line@, a)))
            },
{
    let total_bytes: usize = line.as_bytes().len();
    proof {
        lemma_utf8_len_is_byte_len(line@);
    }
    assert(utf8_len(line@) == total_bytes);
    let n = line.unicode_len();
    let ghost l = line@;
    let mut in_tok = false;
    let mut ts: usize = 0;
    let mut tb: usize = 0;
    let mut bp: usize = 0;
    let mut i: usize = 0;
    assert(l.take(0) =~= Seq::<char>::empty());
    while i < n
        invariant
            i <= n,
            n == l.len(),
            l == line@,
            utf8_len(l) <= usize::MAX,
            bp == utf8_len(l.take(i as int)),
            in_tok ==> {
                &&& ts < i
                &&& token_starts_at(l, ts as int)
                &&& tb == utf8_len(l.take(ts as int))
                &&& forall|j: int| ts <= j < i ==> is_token_char(#[trigger] l[j])
            },
            !in_tok ==> (i == 0 || !is_token_char(l[i - 1])),
            forall|a: int|
                0 <= a < i && !(in_tok && a == ts) ==> !#[trigger] jira_token_at(l, a),
        decreases n - i,
    {
        let c = line.get_char(i);
        let is_tok = is_alnum_char(c) || c == '-';
        if is_tok {
            if !in_tok {
                ts = i;
                tb = bp;
                in_tok = true;
            }
        } else if in_tok {
            proof {
                lemma_run_len_of_run(l, ts as int, i as int);
            }
            let token = line.substring_char(ts, i);
            if is_jira_key(token) {
                let key = String::from_str(token);
                assert(jira_token_at(l, ts as int));
                return Some((tb, bp, key));
            }
            in_tok = false;
        }
        proof {
            lemma_utf8_len_step(l, i as int);
            lemma_utf8_len_prefix(l, i + 1);
            assert forall|a: int| 0 <= a < i + 1 && !(in_tok && a == ts) implies !#[trigger] jira_token_at(l, a) by {
                if a == i && !is_tok {
                    assert(!token_starts_at(l, a));
                }
                if a == i && is_tok && in_tok && ts != i {
                    assert(!token_starts_at(l, a));
                }
            }
        }
        bp = bp + char_len_utf8(c);
        i = i + 1;
    }
    if in_tok {
        proof {
            lemma_run_len_of_run(l, ts as int, n as int);
        }
        let token = line.substring_char(ts, n);
        if is_jira_key(token) {
            let key = String::from_str(token);
            assert(jira_token_at(l, ts as int));
            assert(l.take(n as int) =~= l);
            return Some((tb, bp, key));
        }
    }
    assert forall|a: int| !#[trigger] jira_token_at(l, a) by {
        if 0 <= a < n && in_tok && a == ts {
            lemma_run_len_of_run(l, ts as int, n as int);
        }
    }
    None
}

/// The browser address of the Jira issue `key`.
pub open spec fn jira_url_spec(key: Seq<char>) -> Seq<char> {
    "https://gspcloud.atlassian.net/browse/"@ + key
}

/// The browser address of the Jira issue `key`.
pub fn jira_url(key: &str) -> (r: String)
    ensures
        r@ == jira_url_spec(key@),
{
    String::from_str("https://gspcloud.atlassian.net/browse/").concat(key)
}

} // verus!
