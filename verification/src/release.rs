//! Where releases come from: the GitHub owner and repository named by the
//! package's repository URL.

use crate::text::{chars_of, starts_with, string_of};
use vstd::prelude::*;
use vstd::string::StringExecFns;

verus! {

/// The URL prefix of a GitHub repository.
pub open spec fn github_prefix() -> Seq<char> {
    "https://github.com/"@
}

/// `s` without its trailing `/` characters.
pub open spec fn trim_slashes(s: Seq<char>) -> Seq<char>
    decreases s.len(),
{
    if s.len() > 0 && s.last() == '/' {
        trim_slashes(s.drop_last())
    } else {
        s
    }
}

/// `s` without its trailing repetitions of `.git`.
pub open spec fn trim_git(s: Seq<char>) -> Seq<char>
    decreases s.len(),
{
    if s.len() >= 4 && s.subrange(s.len() - 4, s.len() as int) == ".git"@ {
        trim_git(s.take(s.len() - 4))
    } else {
        s
    }
}

/// Index of the first `/` of `s` at or after `i`, or `s.len()`.
pub open spec fn slash_pos(s: Seq<char>, i: int) -> int
    decreases s.len() - i,
{
    if i >= s.len() {
        s.len() as int
    } else if s[i] == '/' {
        i
    } else {
        slash_pos(s, i + 1)
    }
}

/// The message for a URL that is not a GitHub one.
pub open spec fn not_github_text(url: Seq<char>) -> Seq<char> {
    "repository URL not a github.com URL: "@ + url
}

/// The message for a GitHub URL without a usable owner and name.
pub open spec fn placeholder_text(url: Seq<char>) -> Seq<char> {
    "set the real GitHub URL in the workspace Cargo.toml `repository` field (currently "@ + url + ")"@
}

/// Owner and repository of `https://github.com/<owner>/<repo>` (trailing
/// slashes and `.git` ignored); both must be non-empty and the owner must
/// not be the `your-org` placeholder.
pub open spec fn spec_repo(url: Seq<char>) -> core::result::Result<(Seq<char>, Seq<char>), Seq<char>> {
    if !github_prefix().is_prefix_of(url) {
        Err(not_github_text(url))
    } else {
        let t = trim_git(trim_slashes(url.skip(github_prefix().len() as int)));
        let k = slash_pos(t, 0);
        if k >= t.len() {
            Err(placeholder_text(url))
        } else {
            let owner = t.take(k);
            let rest = t.skip(k + 1);
            let name = rest.take(slash_pos(rest, 0));
            if owner.len() > 0 && name.len() > 0 && owner != "your-org"@ {
                Ok((owner, name))
            } else {
                Err(placeholder_text(url))
            }
        }
    }
}

proof fn lemma_slash_pos_range(s: Seq<char>, i: int)
    requires
        0 <= i <= s.len(),
    ensures
        i <= slash_pos(s, i) <= s.len(),
        forall|j: int| i <= j < slash_pos(s, i) ==> s[j] != '/',
        slash_pos(s, i) < s.len() ==> s[slash_pos(s, i)] == '/',
    decreases s.len() - i,
{
    if i < s.len() && s[i] != '/' {
        lemma_slash_pos_range(s, i + 1);
    }
}

/// First `/` of `c[from..to]`, as an index into `c`, or `to`.
fn find_slash(c: &Vec<char>, from: usize, to: usize) -> (k: usize)
    requires
        from <= to <= c@.len(),
    ensures
        from <= k <= to,
        k - from == slash_pos(c@.subrange(from as int, to as int), 0),
{
    let ghost s = c@.subrange(from as int, to as int);
    let mut k = from;
    while k < to
        invariant
            from <= k <= to <= c@.len(),
            s == c@.subrange(from as int, to as int),
            slash_pos(s, 0) == slash_pos(s, k - from),
        decreases to - k,
    {
        if c[k] == '/' {
            return k;
        }
        k += 1;
    }
    k
}

/// Whether `c[start..end]` ends with `.git`.
fn ends_with_git(c: &Vec<char>, start: usize, end: usize) -> (b: bool)
    requires
        start <= end <= c@.len(),
    ensures
        b == (end - start >= 4 && c@.subrange(start as int, end as int).subrange(end - start - 4, end - start)
            == ".git"@),
{
    proof {
        reveal_strlit(".git");
        assert(".git"@ =~= seq!['.', 'g', 'i', 't']);
    }
    if end - start < 4 {
        return false;
    }
    let ghost t = c@.subrange(start as int, end as int).subrange(end - start - 4, end - start);
    assert(t[0] == c@[end - 4] && t[1] == c@[end - 3] && t[2] == c@[end - 2] && t[3] == c@[end - 1]);
    let b = c[end - 4] == '.' && c[end - 3] == 'g' && c[end - 2] == 'i' && c[end - 1] == 't';
    if b {
        assert(t =~= ".git"@);
    }
    b
}

/// `head` followed by `url` and `tail`.
fn message(head: &str, url: &str, tail: &str) -> (s: String)
    ensures
        s@ == head@ + url@ + tail@,
{
    let mut s = String::from_str(head);
    s.append(url);
    s.append(tail);
    s
}

/// Parse the GitHub owner and repository name out of a repository URL.
#[verifier::rlimit(30)]
pub fn parse_repo(url: &str) -> (r: core::result::Result<(String, String), String>)
    ensures
        match spec_repo(url@) {
            Ok((o, n)) => r matches Ok((a, b)) && a@ == o && b@ == n,
            Err(m) => r matches Err(e) && e@ == m,
        },
{
    proof {
        reveal_strlit("");
        assert(""@ =~= Seq::<char>::empty());
        assert(not_github_text(url@) + ""@ =~= not_github_text(url@));
    }
    if !starts_with(url, "https://github.com/") {
        return Err(message("repository URL not a github.com URL: ", url, ""));
    }
    let c = chars_of(url);
    let start = chars_of("https://github.com/").len();
    let ghost u = url@;
    let ghost placeholder = placeholder_text(u);
    // Trailing slashes.
    let mut end = c.len();
    while end > start && c[end - 1] == '/'
        invariant
            start <= end <= c@.len(),
            c@ == u,
            start == github_prefix().len(),
            trim_slashes(u.skip(start as int)) == trim_slashes(c@.subrange(start as int, end as int)),
        decreases end,
    {
        assert(c@.subrange(start as int, end as int).drop_last() =~= c@.subrange(start as int, end - 1));
        end -= 1;
    }
    assert(trim_slashes(c@.subrange(start as int, end as int)) == c@.subrange(start as int, end as int));
    // Trailing ".git"s.
    while ends_with_git(&c, start, end)
        invariant
            start <= end <= c@.len(),
            c@ == u,
            trim_git(trim_slashes(u.skip(start as int))) == trim_git(c@.subrange(start as int, end as int)),
        decreases end,
    {
        assert(c@.subrange(start as int, end as int).take(end - start - 4) =~= c@.subrange(start as int, end - 4));
        end -= 4;
    }
    let ghost t = c@.subrange(start as int, end as int);
    assert(trim_git(t) == t);
    assert(t == trim_git(trim_slashes(u.skip(github_prefix().len() as int))));
    proof {
        lemma_slash_pos_range(t, 0);
    }
    let k = find_slash(&c, start, end);
    if k >= end {
        return Err(message(
            "set the real GitHub URL in the workspace Cargo.toml `repository` field (currently ",
            url,
            ")",
        ));
    }
    let k2 = find_slash(&c, k + 1, end);
    let ghost rest = t.skip(k - start + 1);
    assert(rest =~= c@.subrange(k + 1, end as int));
    let owner = string_of(c.as_slice(), start, k);
    let name = string_of(c.as_slice(), k + 1, k2);
    assert(owner@ =~= t.take(k - start));
    assert(name@ =~= rest.take(slash_pos(rest, 0)));
    if k == start || k2 == k + 1 || crate::text::str_eq(owner.as_str(), "your-org") {
        return Err(message(
            "set the real GitHub URL in the workspace Cargo.toml `repository` field (currently ",
            url,
            ")",
        ));
    }
    Ok((owner, name))
}

} // verus!
