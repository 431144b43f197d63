//! Where the GitHub token comes from: two environment variables, then the
//! `GITHUB_TOKEN=` line of the configuration file; and when that file is
//! written for the user to fill in.

use vstd::prelude::*;
use crate::text::{lines, split_lines, trim, trimmed};

verus! {

/// A token value, trimmed; blank values give no token.
pub open spec fn token_value(v: Seq<char>) -> Option<Seq<char>> {
    if trimmed(v).len() > 0 {
        Some(trimmed(v))
    } else {
        None
    }
}

/// The key that introduces the token in the configuration file.
pub open spec fn token_key() -> Seq<char> {
    seq!['G', 'I', 'T', 'H', 'U', 'B', '_', 'T', 'O', 'K', 'E', 'N', '=']
}

/// `l` starts with `p`.
pub open spec fn has_prefix(l: Seq<char>, p: Seq<char>) -> bool {
    p.len() <= l.len() && l.take(p.len() as int) == p
}

/// The token of the first line that starts with the key and whose value is
/// not blank.
pub open spec fn token_in_lines(ls: Seq<Seq<char>>) -> Option<Seq<char>>
    decreases ls.len(),
{
    if ls.len() == 0 {
        None
    } else if has_prefix(ls[0], token_key()) && token_value(
        ls[0].skip(token_key().len() as int),
    ) is Some {
        token_value(ls[0].skip(token_key().len() as int))
    } else {
        token_in_lines(ls.drop_first())
    }
}

/// The token that a configuration file's text holds.
pub open spec fn config_token(content: Seq<char>) -> Option<Seq<char>> {
    token_in_lines(lines(content))
}

/// The token given by a value: the value trimmed, if anything is left.
pub fn token_from_value(value: &str) -> (r: Option<String>)
    ensures
        match r {
            None => token_value(value@) is None,
            Some(t) => token_value(value@) == Some(t@),
        },
{
    let t = trim(value);
    if t.as_str().unicode_len() > 0 {
        Some(t)
    } else {
        None
    }
}

fn strip_token_key(line: &str) -> (r: Option<&str>)
    ensures
        match r {
            None => !has_prefix(line@, token_key()),
            Some(rest) => has_prefix(line@, token_key()) && rest@ == line@.skip(
                token_key().len() as int,
            ),
        },
{
    let key = "GITHUB_TOKEN=";
    proof {
        reveal_strlit("GITHUB_TOKEN=");
    }
    assert(key@ =~= token_key());
    let kl = key.unicode_len();
    let n = line.unicode_len();
    if n < kl {
        return None;
    }
    let mut j: usize = 0;
    while j < kl
        invariant
            j <= kl <= n,
            kl == key@.len(),
            n == line@.len(),
            key@ == token_key(),
            forall|i: int| 0 <= i < j ==> line@[i] == #[trigger] key@[i],
        decreases kl - j,
    {
        if line.get_char(j) != key.get_char(j) {
            assert(line@.take(kl as int)[j as int] != key@[j as int]);
            return None;
        }
        j = j + 1;
    }
    assert(line@.take(kl as int) =~= key@);
    let rest = line.substring_char(kl, n);
    assert(rest@ =~= line@.skip(kl as int));
    Some(rest)
}

/// The token held by the text of a configuration file.
pub fn token_from_config(content: &str) -> (r: Option<String>)
    ensures
        match r {
            None => config_token(content@) is None,
            Some(t) => config_token(content@) == Some(t@),
        },
{
    let ls = split_lines(content);
    let ghost all = ls@.map_values(|l: String| l@);
    let mut i: usize = 0;
    assert(all.skip(0) =~= all);
    while i < ls.len()
        invariant
            i <= ls.len(),
            all == ls@.map_values(|l: String| l@),
            all == lines(content@),
            token_in_lines(all) == token_in_lines(all.skip(i as int)),
        decreases ls.len() - i,
    {
        assert(all.skip(i as int)[0] == ls[i as int]@);
        assert(all.skip(i as int).drop_first() =~= all.skip(i + 1));
        if let Some(rest) = strip_token_key(ls[i].as_str()) {
            if let Some(t) = token_from_value(rest) {
                return Some(t);
            }
        }
        i = i + 1;
    }
    assert(all.skip(i as int) =~= Seq::<Seq<char>>::empty());
    None
}

/// The token in order of preference: the `GITHUB_TOKEN` variable, the
/// `CHRONO_GITHUB_TOKEN` variable, then the configuration file.
pub open spec fn chosen_token(
    github_var: Option<Seq<char>>,
    chrono_var: Option<Seq<char>>,
    config: Option<Seq<char>>,
) -> Option<Seq<char>> {
    let first = match github_var {
        Some(v) => token_value(v),
        None => None,
    };
    let second = match chrono_var {
        Some(v) => token_value(v),
        None => None,
    };
    if first is Some {
        first
    } else if second is Some {
        second
    } else {
        match config {
            Some(c) => config_token(c),
            None => None,
        }
    }
}

/// The characters of an optional text.
pub open spec fn opt_view(o: Option<&str>) -> Option<Seq<char>> {
    match o {
        Some(s) => Some(s@),
        None => None,
    }
}

/// The GitHub token, given the two environment variables (if set) and the
/// text of the configuration file (if it could be read).
pub fn choose_token(github_var: Option<&str>, chrono_var: Option<&str>, config: Option<&str>) -> (r:
    Option<String>)
    ensures
        match r {
            None => chosen_token(
                opt_view(github_var),
                opt_view(chrono_var),
                opt_view(config),
            ) is None,
            Some(t) => chosen_token(
                opt_view(github_var),
                opt_view(chrono_var),
                opt_view(config),
            ) == Some(t@),
        },
{
    if let Some(v) = github_var {
        if let Some(t) = token_from_value(v) {
            return Some(t);
        }
    }
    if let Some(v) = chrono_var {
        if let Some(t) = token_from_value(v) {
            return Some(t);
        }
    }
    match config {
        Some(c) => token_from_config(c),
        None => None,
    }
}

/// The configuration file under the home directory `home`.
pub fn config_path(home: &str) -> (r: String)
    ensures
        r@ == home@ + "/.config/.githubclock"@,
{
    let mut path = String::from_str(home);
    path.append("/.config/.githubclock");
    path
}

/// Whether to write the configuration file for the user to fill in: only
/// when the home directory is known, the file does not exist yet and
/// neither token variable is set.
pub fn config_file_needed(
    home_set: bool,
    file_exists: bool,
    github_var_set: bool,
    chrono_var_set: bool,
) -> (r: bool)
    ensures
        r == (home_set && !file_exists && !github_var_set && !chrono_var_set),
{
    home_set && !file_exists && !github_var_set && !chrono_var_set
}

} // verus!
