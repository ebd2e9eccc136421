//! The `owner/repo` pattern and the test of a remote URL against it.

use crate::error::FsgitError;
use crate::text::{
    char_code, chars_of, drop_suffixes, ends_at_ignore_ascii_case, ends_with_ignore_ascii_case,
    eq_ignore_ascii_case,
    find_char, fold_ascii, fold_char, lemma_eq_ignore_ascii_case_symmetric,
    lemma_eq_ignore_ascii_case_transitive, lemma_position, lemma_position_after,
    lemma_trim_end_matches_ignores_case, position, skip_prefixes, sub_vec, trim,
    trim_end_matches_ignore_ascii_case, trim_range, trim_start_matches, vec_eq_ignore_ascii_case,
};
use vstd::prelude::*;
use vstd::string::StringExecFns;

verus! {

/// The repository that a scan looks for: an owner and a repository name.
///
/// Both are kept as written and compared without regard to ASCII case.
/// Neither is ever empty.
#[derive(Debug)]
pub struct RepositoryPattern {
    owner: String,
    repo: String,
}

/// What a `RepositoryPattern` stands for.
pub struct PatternView {
    pub owner: Seq<char>,
    pub repo: Seq<char>,
}

/// What the URL parser found in a remote URL: the owner, where it names one,
/// and the repository's name.
#[derive(Debug, Clone, PartialEq, Eq)]
pub struct ParsedRemote {
    pub owner: Option<String>,
    pub name: String,
}

/// The owner and name that `git_url_parse::GitUrl::parse` reports for `url`,
/// or `None` where it reports an error.
pub uninterp spec fn parsed_remote(url: Seq<char>) -> Option<(Option<Seq<char>>, Seq<char>)>;

/// The parser's report `r` as plain values.
pub open spec fn remote_parts(r: Option<ParsedRemote>) -> Option<(Option<Seq<char>>, Seq<char>)> {
    match r {
        Some(p) => Some(
            (
                match p.owner {
                    Some(o) => Some(o@),
                    None => None,
                },
                p.name@,
            ),
        ),
        None => None,
    }
}

/// Whether `i` is the index of the only `/` in `s`.
pub open spec fn sole_slash(s: Seq<char>, i: int) -> bool {
    &&& 0 <= i < s.len()
    &&& s[i] == '/'
    &&& forall|j: int| 0 <= j < s.len() && j != i ==> s[j] != '/'
}

/// Whether `s` is a pattern: exactly one `/`, with something other than
/// whitespace on both sides of it.
pub open spec fn valid_pattern(s: Seq<char>) -> bool {
    exists|i: int|
        #![trigger sole_slash(s, i)]
        sole_slash(s, i) && trim(s.take(i)).len() > 0 && trim(s.skip(i + 1)).len() > 0
}

/// The owner that the pattern `s` names.
pub open spec fn pattern_owner(s: Seq<char>) -> Seq<char> {
    trim(s.take(position(s, '/')))
}

/// The repository that the pattern `s` names.
pub open spec fn pattern_repo(s: Seq<char>) -> Seq<char> {
    trim(s.skip(position(s, '/') + 1))
}

/// A repository's name as it is compared: without any trailing `.git`, in
/// whatever case that suffix is written.
pub open spec fn normalize_repo_name(name: Seq<char>) -> Seq<char> {
    trim_end_matches_ignore_ascii_case(name, ".git"@)
}

/// Whether the pattern `p` names the repository `repo` of `owner`.
pub open spec fn names(p: PatternView, owner: Seq<char>, repo: Seq<char>) -> bool {
    eq_ignore_ascii_case(p.owner, owner) && eq_ignore_ascii_case(p.repo, normalize_repo_name(repo))
}

/// Whether `path`, of the form `owner/repo` with anything after a further
/// `/`, names what `p` names.
pub open spec fn path_matches(p: PatternView, path: Seq<char>) -> bool {
    let a = position(path, '/');
    let rest = path.skip(a + 1);
    a < path.len() && names(p, path.take(a), rest.take(position(rest, '/')))
}

/// `url` without the scheme and user that commonly open a remote URL.
pub open spec fn without_scheme(url: Seq<char>) -> Seq<char> {
    trim_start_matches(
        trim_start_matches(
            trim_start_matches(trim_start_matches(url, "https://"@), "http://"@),
            "ssh://"@,
        ),
        "git@"@,
    )
}

/// The verdict on a URL by its segments alone: what follows the first `:`,
/// or else the first `/`, is read as `owner/repo`.
pub open spec fn manual_match(p: PatternView, url: Seq<char>) -> bool {
    let u = without_scheme(url);
    let colon = position(u, ':');
    let slash = position(u, '/');
    if colon < u.len() {
        path_matches(p, u.skip(colon + 1))
    } else {
        slash < u.len() && path_matches(p, u.skip(slash + 1))
    }
}

/// The verdict on `url` given what the URL parser reported for it.
pub open spec fn verdict(
    p: PatternView,
    parsed: Option<(Option<Seq<char>>, Seq<char>)>,
    url: Seq<char>,
) -> bool {
    match parsed {
        Some((Some(owner), name)) => names(p, owner, name),
        Some((None, name)) => names(p, Seq::empty(), name),
        None => manual_match(p, url),
    }
}

/// Whether `c` is a visible ASCII character other than `%`: one that the
/// parser takes as it stands.
pub open spec fn visible_char(c: char) -> bool {
    0x21 <= c as int <= 0x7E && c != '%'
}

/// Whether `c` ends the path of a URL or, under some schemes, a segment
/// of it: the opening of a query or a fragment, or a backslash.
pub open spec fn path_breaker(c: char) -> bool {
    c == '?' || c == '#' || c == '\\'
}

/// Whether `s` opens with `pat`, up to the case of ASCII letters.
pub open spec fn starts_with_ignore_ascii_case(s: Seq<char>, pat: Seq<char>) -> bool {
    pat.len() <= s.len() && eq_ignore_ascii_case(s.take(pat.len() as int), pat)
}

/// Whether `s` opens with `http://` or `https://`, in any ASCII case.
pub open spec fn web_scheme(s: Seq<char>) -> bool {
    starts_with_ignore_ascii_case(s, "http://"@) || starts_with_ignore_ascii_case(
        s,
        "https://"@,
    )
}

/// Whether a path segment may end just before index `k` of `s`.
pub open spec fn segment_break(s: Seq<char>, k: int) -> bool {
    k < 0 || k >= s.len() || s[k] == '/' || s[k] == ':'
}

/// Whether a segment `.` or `..` begins at index `i` of `s`.
pub open spec fn dot_segment_at(s: Seq<char>, i: int) -> bool {
    &&& 0 <= i < s.len()
    &&& s[i] == '.'
    &&& segment_break(s, i - 1)
    &&& (segment_break(s, i + 1) || (s[i + 1] == '.' && segment_break(s, i + 2)))
}

/// How many `/` the text `s` holds.
pub open spec fn slashes(s: Seq<char>) -> nat
    decreases s.len(),
{
    if s.len() == 0 {
        0
    } else {
        slashes(s.drop_last()) + if s.last() == '/' {
            1nat
        } else {
            0nat
        }
    }
}

/// Whether the name of the Azure DevOps host, `dev.azure.com`, stands in
/// `s` at index `k`, in any ASCII case. The host `ssh.dev.azure.com` ends
/// in it.
pub open spec fn azure_host_at(s: Seq<char>, k: int) -> bool {
    &&& 0 <= k
    &&& k + 13 <= s.len()
    &&& eq_ignore_ascii_case(s.subrange(k, k + 13), "dev.azure.com"@)
}

/// Whether the name of the Azure DevOps host stands in `s` at index `k`
/// and too little follows it: fewer than three `/`, or `s` ends in a `/`
/// or a `:`, after which the parser drops what ends the path.
pub open spec fn short_azure_path_at(s: Seq<char>, k: int) -> bool {
    azure_host_at(s, k) && (s.last() == '/' || s.last() == ':' || slashes(s.skip(k + 13)) < 3)
}

/// Whether `s` opens with the scheme `ssh:`, in any ASCII case, and no `//`
/// follows it.
pub open spec fn bare_ssh_scheme(s: Seq<char>) -> bool {
    &&& s.len() >= 4
    &&& fold_ascii(s[0]) == fold_ascii('s')
    &&& fold_ascii(s[1]) == fold_ascii('s')
    &&& fold_ascii(s[2]) == fold_ascii('h')
    &&& s[3] == ':'
    &&& !(s.len() >= 6 && s[4] == '/' && s[5] == '/')
}

/// Whether the URL `url` of the web, one that opens with `http://` or
/// `https://`, can be handed to the parser: it must not hold the name of
/// the Azure DevOps host.
pub open spec fn web_url_accepted(url: Seq<char>) -> bool {
    web_scheme(url) && forall|k: int| 0 <= k < url.len() ==> !#[trigger] azure_host_at(url, k)
}

/// Whether the URL `url`, of whatever scheme, can be handed to the
/// parser: its path cannot shrink to a single character, as it could by a
/// `.` or `..` segment, a query, a fragment or after `ssh:` without `//`,
/// and where it holds the name of the Azure DevOps host enough follows.
pub open spec fn plain_url_accepted(url: Seq<char>) -> bool {
    &&& forall|i: int| 0 <= i < url.len() ==> !path_breaker(#[trigger] url[i])
    &&& forall|i: int| 0 <= i < url.len() ==> !#[trigger] dot_segment_at(url, i)
    &&& forall|k: int| 0 <= k < url.len() ==> !#[trigger] short_azure_path_at(url, k)
    &&& !bare_ssh_scheme(url)
}

/// The URLs that are handed to the URL parser: those on which it is sure
/// to return. The others are judged by their segments alone.
///
/// A URL is handed over where it holds visible ASCII only and no escape,
/// and is either a URL of the web without the name of the Azure DevOps
/// host, or a URL of any scheme whose path can neither shrink to a single
/// character nor be too short for that host.
pub open spec fn parser_accepts(url: Seq<char>) -> bool {
    &&& forall|i: int| 0 <= i < url.len() ==> visible_char(#[trigger] url[i])
    &&& web_url_accepted(url) || plain_url_accepted(url)
}

/// Whether the pattern `p` matches the remote URL `url`.
pub open spec fn matches_url(p: PatternView, url: Seq<char>) -> bool {
    if parser_accepts(url) {
        verdict(p, parsed_remote(url), url)
    } else {
        manual_match(p, url)
    }
}

/// Calls `git_url_parse::GitUrl::parse` on `url` and keeps, of what it
/// returns, the owner and the name; an error becomes `None`.
///
/// The parser indexes into the segments of the path without a test. It
/// does not return where the scheme is `ssh` and the path that remains is
/// a single character (`ssh:a`, or a path that `.` and `..` segments, a
/// query or a fragment reduce to `/`). Nor does it return where the host
/// is `dev.azure.com` or `ssh.dev.azure.com` and the path has fewer than
/// three segments for `ssh`, fewer than four for `https`. The host it
/// sees is a piece of the URL's text and the path is what follows it,
/// with a `:` read as a `/` and without the `/` that end it. A URL that
/// opens with `http://` or `https://` never has the scheme `ssh`.
/// `parser_accepts` leaves out the URLs on which the parser could fail
/// to return, and with them every URL in which an escape or a character
/// outside visible ASCII could hide such a form. What the parser returns
/// depends on the text of the URL alone.
#[verifier::external_body]
fn parse_remote(url: &str) -> (r: Option<ParsedRemote>)
    requires
        parser_accepts(url@),
    ensures
        remote_parts(r) == parsed_remote(url@),
{
    match git_url_parse::GitUrl::parse(url) {
        Ok(parsed) => Some(ParsedRemote { owner: parsed.owner, name: parsed.name }),
        Err(_) => None,
    }
}

/// How many `/` the text `v` holds from index `from` on.
fn count_slashes(v: &Vec<char>, from: usize) -> (count: usize)
    requires
        from <= v@.len(),
    ensures
        count == slashes(v@.skip(from as int)),
{
    let mut count: usize = 0;
    let mut j: usize = from;
    assert(v@.subrange(from as int, from as int) =~= Seq::<char>::empty());
    while j < v.len()
        invariant
            from <= j <= v@.len(),
            count <= j - from,
            count == slashes(v@.subrange(from as int, j as int)),
        decreases v@.len() - j,
    {
        proof {
            let next = v@.subrange(from as int, j + 1);
            assert(next.drop_last() =~= v@.subrange(from as int, j as int));
            assert(next.last() == v@[j as int]);
        }
        if v[j] == '/' {
            count += 1;
        }
        j += 1;
    }
    assert(v@.subrange(from as int, j as int) =~= v@.skip(from as int));
    count
}

/// Whether `v` holds visible ASCII only and no escape.
fn check_visible(v: &Vec<char>) -> (b: bool)
    ensures
        b == forall|i: int| 0 <= i < v@.len() ==> visible_char(#[trigger] v@[i]),
{
    let mut i: usize = 0;
    while i < v.len()
        invariant
            i <= v@.len(),
            forall|j: int| 0 <= j < i ==> visible_char(#[trigger] v@[j]),
        decreases v@.len() - i,
    {
        let code: u32 = char_code(v[i]);
        if code < 0x21 || code > 0x7E || v[i] == '%' {
            assert(!visible_char(v@[i as int]));
            return false;
        }
        i += 1;
    }
    true
}

/// Whether `v` is a URL of the web that can be handed to the parser.
fn check_web_url(v: &Vec<char>) -> (b: bool)
    ensures
        b == web_url_accepted(v@),
{
    let n: usize = v.len();
    let http = chars_of("http://");
    let https = chars_of("https://");
    let host = chars_of("dev.azure.com");
    proof {
        reveal_strlit("http://");
        reveal_strlit("https://");
        reveal_strlit("dev.azure.com");
        assert(v@.take(7).skip(0) =~= v@.take(7));
        assert(v@.take(8).skip(0) =~= v@.take(8));
    }
    let web: bool = (n >= 7 && ends_at_ignore_ascii_case(v, 7, &http)) || (n >= 8
        && ends_at_ignore_ascii_case(v, 8, &https));
    if !web {
        return false;
    }
    let mut i: usize = 0;
    while i < n
        invariant
            n == v@.len(),
            i <= n,
            host@ == "dev.azure.com"@,
            host@.len() == 13,
            forall|k: int| 0 <= k < i ==> !#[trigger] azure_host_at(v@, k),
        decreases n - i,
    {
        if n - i >= 13 {
            proof {
                assert(v@.take(i + 13).skip(i as int) =~= v@.subrange(i as int, i + 13));
            }
            if ends_at_ignore_ascii_case(v, i + 13, &host) {
                assert(azure_host_at(v@, i as int));
                return false;
            }
        }
        i += 1;
    }
    true
}

/// Whether `v` is a URL of any scheme that can be handed to the parser.
fn check_plain_url(v: &Vec<char>) -> (b: bool)
    ensures
        b == plain_url_accepted(v@),
{
    let n: usize = v.len();
    let host = chars_of("dev.azure.com");
    proof {
        reveal_strlit("dev.azure.com");
    }
    let mut i: usize = 0;
    while i < n
        invariant
            n == v@.len(),
            i <= n,
            host@ == "dev.azure.com"@,
            host@.len() == 13,
            forall|j: int| 0 <= j < i ==> !path_breaker(#[trigger] v@[j]),
            forall|j: int| 0 <= j < i ==> !#[trigger] dot_segment_at(v@, j),
            forall|k: int| 0 <= k < i ==> !#[trigger] short_azure_path_at(v@, k),
        decreases n - i,
    {
        let c: char = v[i];
        if c == '?' || c == '#' || c == '\\' {
            assert(path_breaker(v@[i as int]));
            return false;
        }
        if c == '.' && (i == 0 || v[i - 1] == '/' || v[i - 1] == ':') {
            let one: bool = i + 1 >= n || v[i + 1] == '/' || v[i + 1] == ':';
            let two: bool = i + 1 < n && v[i + 1] == '.' && (i + 2 >= n || v[i + 2] == '/' || v[i
                + 2] == ':');
            if one || two {
                assert(dot_segment_at(v@, i as int));
                return false;
            }
        }
        if n - i >= 13 {
            let here: bool = ends_at_ignore_ascii_case(v, i + 13, &host);
            proof {
                assert(v@.take(i + 13).skip(i as int) =~= v@.subrange(i as int, i + 13));
            }
            if here {
                if v[n - 1] == '/' || v[n - 1] == ':' || count_slashes(v, i + 13) < 3 {
                    assert(short_azure_path_at(v@, i as int));
                    return false;
                }
            }
        }
        i += 1;
    }
    if n >= 4 && fold_char(v[0]) == fold_char('s') && fold_char(v[1]) == fold_char('s')
        && fold_char(v[2]) == fold_char('h') && v[3] == ':' {
        if !(n >= 6 && v[4] == '/' && v[5] == '/') {
            return false;
        }
    }
    true
}

/// Whether the parser may be called on `v`.
fn check_parser_accepts(v: &Vec<char>) -> (b: bool)
    ensures
        b == parser_accepts(v@),
{
    check_visible(v) && (check_web_url(v) || check_plain_url(v))
}

impl View for RepositoryPattern {
    type V = PatternView;

    closed spec fn view(&self) -> PatternView {
        PatternView { owner: self.owner@, repo: self.repo@ }
    }
}

impl Clone for RepositoryPattern {
    fn clone(&self) -> (r: Self)
        ensures
            r@ == self@,
    {
        proof {
            use_type_invariant(self);
        }
        RepositoryPattern { owner: self.owner.clone(), repo: self.repo.clone() }
    }
}

impl RepositoryPattern {
    #[verifier::type_invariant]
    spec fn well_formed(&self) -> bool {
        self.owner@.len() > 0 && self.repo@.len() > 0
    }

    /// Reads a pattern of the form `owner/repo`.
    ///
    /// Succeeds exactly on the texts that hold one `/` with something other
    /// than whitespace on both sides; the owner and the repository are the
    /// two sides without the whitespace around them. Every other text is
    /// returned in `FsgitError::InvalidPattern`.
    pub fn new(pattern: &str) -> (r: Result<RepositoryPattern, FsgitError>)
        ensures
            valid_pattern(pattern@) ==> (r matches Ok(p) && p@.owner == pattern_owner(pattern@)
                && p@.repo == pattern_repo(pattern@)),
            !valid_pattern(pattern@) ==> (r matches Err(FsgitError::InvalidPattern(t)) && t@
                == pattern@),
            r matches Ok(p) ==> p@.owner.len() > 0 && p@.repo.len() > 0,
    {
        let v = chars_of(pattern);
        let n: usize = v.len();
        let i: usize = find_char(&v, 0, '/');
        proof {
            assert(v@.skip(0) =~= v@);
            lemma_position(v@, '/');
        }
        if i >= n {
            assert(!valid_pattern(v@));
            return Err(FsgitError::InvalidPattern(String::from_str(pattern)));
        }
        let j: usize = find_char(&v, i + 1, '/');
        proof {
            lemma_position(v@.skip(i + 1), '/');
        }
        if j < n {
            assert(v@[j as int] == v@.skip(i + 1)[j - (i + 1)]);
            assert(!valid_pattern(v@)) by {
                assert forall|k: int| !sole_slash(v@, k) by {
                    if k == i as int {
                        assert(v@[j as int] == '/');
                    } else {
                        assert(v@[i as int] == '/');
                    }
                }
            }
            return Err(FsgitError::InvalidPattern(String::from_str(pattern)));
        }
        assert(sole_slash(v@, i as int)) by {
            assert forall|k: int| 0 <= k < v@.len() && k != i implies v@[k] != '/' by {
                if k > i {
                    assert(v@[k] == v@.skip(i + 1)[k - (i + 1)]);
                }
            }
        }
        assert(forall|k: int| sole_slash(v@, k) ==> k == i);
        let (a, b) = trim_range(&v, 0, i);
        let (c, d) = trim_range(&v, i + 1, n);
        proof {
            assert(v@.subrange(0, i as int) =~= v@.take(i as int));
            assert(v@.subrange(i + 1, n as int) =~= v@.skip(i + 1));
        }
        if a == b || c == d {
            assert(!valid_pattern(v@));
            return Err(FsgitError::InvalidPattern(String::from_str(pattern)));
        }
        let owner = String::from_str(pattern.substring_char(a, b));
        let repo = String::from_str(pattern.substring_char(c, d));
        Ok(RepositoryPattern { owner, repo })
    }

    /// The owner, as it was written in the pattern.
    pub fn owner(&self) -> (s: &str)
        ensures
            s@ == self@.owner,
            s@.len() > 0,
    {
        proof {
            use_type_invariant(self);
        }
        self.owner.as_str()
    }

    /// The repository's name, as it was written in the pattern.
    pub fn repo(&self) -> (s: &str)
        ensures
            s@ == self@.repo,
            s@.len() > 0,
    {
        proof {
            use_type_invariant(self);
        }
        self.repo.as_str()
    }

    /// Whether `remote_url` names the repository of this pattern.
    ///
    /// A URL of the plain kind goes through the URL parser, and the verdict
    /// is that of `matches_parsed` on what the parser reports. Any other URL
    /// is judged by `manual_parse`.
    pub fn matches(&self, remote_url: &str) -> (b: bool)
        ensures
            b == matches_url(self@, remote_url@),
    {
        let v = chars_of(remote_url);
        if check_parser_accepts(&v) {
            let parsed = parse_remote(remote_url);
            self.matches_parsed(parsed, remote_url)
        } else {
            self.manual_parse(remote_url)
        }
    }

    /// Whether `remote_url` names the repository of this pattern, given what
    /// the URL parser reported for it.
    ///
    /// Where the parser found an owner and a name, those decide; an owner
    /// that is missing counts as empty. Where it reported an error, the URL
    /// is judged by `manual_parse`.
    pub fn matches_parsed(&self, parsed: Option<ParsedRemote>, remote_url: &str) -> (b: bool)
        ensures
            b == verdict(self@, remote_parts(parsed), remote_url@),
    {
        match parsed {
            Some(p) => {
                let name = chars_of(p.name.as_str());
                match p.owner {
                    Some(o) => {
                        let owner = chars_of(o.as_str());
                        self.names_parts(&owner, &name)
                    },
                    None => {
                        let owner: Vec<char> = Vec::new();
                        assert(owner@ =~= Seq::<char>::empty());
                        self.names_parts(&owner, &name)
                    },
                }
            },
            None => self.manual_parse(remote_url),
        }
    }

    /// Whether this pattern names the repository `repo` of `owner`.
    fn names_parts(&self, owner: &Vec<char>, repo: &Vec<char>) -> (b: bool)
        ensures
            b == names(self@, owner@, repo@),
    {
        let mine = chars_of(self.owner.as_str());
        if !vec_eq_ignore_ascii_case(&mine, owner) {
            return false;
        }
        let suffix = chars_of(".git");
        proof {
            reveal_strlit(".git");
        }
        let k: usize = drop_suffixes(repo, repo.len(), &suffix);
        let bare = sub_vec(repo, 0, k);
        proof {
            assert(repo@.take(repo@.len() as int) =~= repo@);
            assert(repo@.subrange(0, k as int) =~= repo@.take(k as int));
        }
        let mine_repo = chars_of(self.repo.as_str());
        vec_eq_ignore_ascii_case(&mine_repo, &bare)
    }

    /// `repo_name` without any trailing `.git`, in whatever case that suffix
    /// is written.
    pub fn normalize_repo_name(&self, repo_name: &str) -> (s: String)
        ensures
            s@ == normalize_repo_name(repo_name@),
    {
        let v = chars_of(repo_name);
        let suffix = chars_of(".git");
        proof {
            reveal_strlit(".git");
        }
        let k: usize = drop_suffixes(&v, v.len(), &suffix);
        proof {
            assert(v@.take(v@.len() as int) =~= v@);
            assert(v@.subrange(0, k as int) =~= v@.take(k as int));
        }
        String::from_str(repo_name.substring_char(0, k))
    }

    /// Whether `url`, read by its segments alone, names the repository of
    /// this pattern.
    ///
    /// Every leading `https://`, then `http://`, `ssh://` and `git@` is
    /// removed. What follows the first `:` is then read as `owner/repo`;
    /// where there is no `:`, what follows the first `/`; where there is
    /// neither, the URL does not match.
    pub fn manual_parse(&self, url: &str) -> (b: bool)
        ensures
            b == manual_match(self@, url@),
    {
        let v = chars_of(url);
        let https = chars_of("https://");
        let http = chars_of("http://");
        let ssh = chars_of("ssh://");
        let git = chars_of("git@");
        proof {
            reveal_strlit("https://");
            reveal_strlit("http://");
            reveal_strlit("ssh://");
            reveal_strlit("git@");
            assert(v@.skip(0) =~= v@);
        }
        let k1: usize = skip_prefixes(&v, 0, &https);
        let k2: usize = skip_prefixes(&v, k1, &http);
        let k3: usize = skip_prefixes(&v, k2, &ssh);
        let k4: usize = skip_prefixes(&v, k3, &git);
        let ghost u = v@.skip(k4 as int);
        assert(u == without_scheme(url@));
        let colon: usize = find_char(&v, k4, ':');
        if colon < v.len() {
            assert(u.skip(colon - k4 + 1) =~= v@.skip(colon + 1));
            return self.path_matches_from(&v, colon + 1);
        }
        let slash: usize = find_char(&v, k4, '/');
        if slash < v.len() {
            assert(u.skip(slash - k4 + 1) =~= v@.skip(slash + 1));
            return self.path_matches_from(&v, slash + 1);
        }
        false
    }

    /// Whether `path`, of the form `owner/repo` with anything after a
    /// further `/`, names the repository of this pattern.
    pub fn match_owner_repo_path(&self, path: &str) -> (b: bool)
        ensures
            b == path_matches(self@, path@),
    {
        let v = chars_of(path);
        assert(v@.skip(0) =~= v@);
        self.path_matches_from(&v, 0)
    }

    /// `match_owner_repo_path` on what `v` holds from index `from` on.
    fn path_matches_from(&self, v: &Vec<char>, from: usize) -> (b: bool)
        requires
            from <= v@.len(),
        ensures
            b == path_matches(self@, v@.skip(from as int)),
    {
        let ghost path = v@.skip(from as int);
        let a: usize = find_char(v, from, '/');
        if a >= v.len() {
            return false;
        }
        let z: usize = find_char(v, a + 1, '/');
        let owner = sub_vec(v, from, a);
        let repo = sub_vec(v, a + 1, z);
        proof {
            let rest = path.skip(a - from + 1);
            assert(rest =~= v@.skip(a + 1));
            assert(owner@ =~= path.take(a - from));
            assert(repo@ =~= rest.take(z - (a + 1)));
        }
        self.names_parts(&owner, &repo)
    }
}

/// Matching does not depend on the case of ASCII letters: patterns that
/// are equal up to that case give, on owners and on repository names that
/// are equal up to that case, the same answer.
pub proof fn lemma_names_ignores_case(
    p: PatternView,
    q: PatternView,
    owner1: Seq<char>,
    repo1: Seq<char>,
    owner2: Seq<char>,
    repo2: Seq<char>,
)
    requires
        eq_ignore_ascii_case(p.owner, q.owner),
        eq_ignore_ascii_case(p.repo, q.repo),
        eq_ignore_ascii_case(owner1, owner2),
        eq_ignore_ascii_case(repo1, repo2),
    ensures
        names(p, owner1, repo1) == names(q, owner2, repo2),
{
    let n1 = normalize_repo_name(repo1);
    let n2 = normalize_repo_name(repo2);
    lemma_trim_end_matches_ignores_case(repo1, repo2, ".git"@);
    lemma_eq_ignore_ascii_case_symmetric(p.owner, q.owner);
    lemma_eq_ignore_ascii_case_symmetric(p.repo, q.repo);
    lemma_eq_ignore_ascii_case_symmetric(owner1, owner2);
    lemma_eq_ignore_ascii_case_symmetric(n1, n2);
    if eq_ignore_ascii_case(p.owner, owner1) {
        lemma_eq_ignore_ascii_case_transitive(q.owner, p.owner, owner1);
        lemma_eq_ignore_ascii_case_transitive(q.owner, owner1, owner2);
    }
    if eq_ignore_ascii_case(q.owner, owner2) {
        lemma_eq_ignore_ascii_case_transitive(p.owner, q.owner, owner2);
        lemma_eq_ignore_ascii_case_transitive(p.owner, owner2, owner1);
    }
    if eq_ignore_ascii_case(p.repo, n1) {
        lemma_eq_ignore_ascii_case_transitive(q.repo, p.repo, n1);
        lemma_eq_ignore_ascii_case_transitive(q.repo, n1, n2);
    }
    if eq_ignore_ascii_case(q.repo, n2) {
        lemma_eq_ignore_ascii_case_transitive(p.repo, q.repo, n2);
        lemma_eq_ignore_ascii_case_transitive(p.repo, n2, n1);
    }
}

/// Matching does not depend on a trailing `.git`: a repository name
/// followed by that suffix, in whatever case, is matched as the name alone.
pub proof fn lemma_names_ignores_git_suffix(
    p: PatternView,
    owner: Seq<char>,
    repo: Seq<char>,
    suffix: Seq<char>,
)
    requires
        eq_ignore_ascii_case(suffix, ".git"@),
    ensures
        names(p, owner, repo + suffix) == names(p, owner, repo),
{
    reveal_strlit(".git");
    let whole = repo + suffix;
    assert(whole.skip(whole.len() - 4) =~= suffix);
    assert(whole.take(whole.len() - 4) =~= repo);
}

/// A pattern matches the owner and repository that it was written with,
/// in whatever case they come and with or without a trailing `.git`.
pub proof fn lemma_pattern_names_itself(p: PatternView, owner: Seq<char>, repo: Seq<char>)
    requires
        eq_ignore_ascii_case(p.owner, owner),
        eq_ignore_ascii_case(p.repo, repo),
        !ends_with_ignore_ascii_case(p.repo, ".git"@),
    ensures
        names(p, owner, repo),
        forall|suffix: Seq<char>| #[trigger]
            eq_ignore_ascii_case(suffix, ".git"@) ==> names(p, owner, repo + suffix),
{
    reveal_strlit(".git");
    lemma_trim_end_matches_ignores_case(p.repo, repo, ".git"@);
    assert forall|suffix: Seq<char>| #[trigger]
        eq_ignore_ascii_case(suffix, ".git"@) implies names(p, owner, repo + suffix) by {
        lemma_names_ignores_git_suffix(p, owner, repo, suffix);
    }
}

/// A URL that, once scheme and user are removed, reads
/// `host:owner/repo`, with or without more after a further `/`, is judged
/// by its segments as the repository `repo` of `owner`.
pub proof fn lemma_manual_match_colon_form(
    p: PatternView,
    url: Seq<char>,
    host: Seq<char>,
    owner: Seq<char>,
    repo: Seq<char>,
    more: Seq<char>,
)
    requires
        without_scheme(url) == host + seq![':'] + (owner + seq!['/'] + (repo + more)),
        !host.contains(':'),
        !owner.contains('/'),
        !repo.contains('/'),
        more.len() == 0 || more[0] == '/',
    ensures
        manual_match(p, url) == names(p, owner, repo),
{
    let path = owner + seq!['/'] + (repo + more);
    let u = without_scheme(url);
    lemma_position_after(host, ':', path);
    assert(u.skip(host.len() + 1int) =~= path);
    lemma_path_matches_reads_two_segments(p, owner, repo, more);
}

/// A URL that, once scheme and user are removed, holds no `:` and reads
/// `host/owner/repo`, with or without more after a further `/`, is judged
/// by its segments as the repository `repo` of `owner`.
pub proof fn lemma_manual_match_slash_form(
    p: PatternView,
    url: Seq<char>,
    host: Seq<char>,
    owner: Seq<char>,
    repo: Seq<char>,
    more: Seq<char>,
)
    requires
        without_scheme(url) == host + seq!['/'] + (owner + seq!['/'] + (repo + more)),
        !without_scheme(url).contains(':'),
        !host.contains('/'),
        !owner.contains('/'),
        !repo.contains('/'),
        more.len() == 0 || more[0] == '/',
    ensures
        manual_match(p, url) == names(p, owner, repo),
{
    let path = owner + seq!['/'] + (repo + more);
    let u = without_scheme(url);
    lemma_position(u, ':');
    lemma_position_after(host, '/', path);
    assert(u.skip(host.len() + 1int) =~= path);
    lemma_path_matches_reads_two_segments(p, owner, repo, more);
}

/// A path `owner/repo`, with or without more after a further `/`, names
/// the repository `repo` of `owner`.
pub proof fn lemma_path_matches_reads_two_segments(
    p: PatternView,
    owner: Seq<char>,
    repo: Seq<char>,
    more: Seq<char>,
)
    requires
        !owner.contains('/'),
        !repo.contains('/'),
        more.len() == 0 || more[0] == '/',
    ensures
        path_matches(p, owner + seq!['/'] + (repo + more)) == names(p, owner, repo),
{
    let path = owner + seq!['/'] + (repo + more);
    lemma_position_after(owner, '/', repo + more);
    let rest = path.skip(owner.len() + 1int);
    assert(rest =~= repo + more);
    assert(path.take(owner.len() as int) =~= owner);
    if more.len() == 0 {
        assert(repo + more =~= repo);
        lemma_position_after(repo, '/', Seq::empty());
    } else {
        assert(repo + more =~= repo + seq!['/'] + more.skip(1));
        lemma_position_after(repo, '/', more.skip(1));
    }
    assert(rest.take(repo.len() as int) =~= repo);
}

} // verus!
