//! Public repository addresses: `[http[s]://]domain/user/repository`.
use vstd::prelude::*;

verus! {

#[derive(Clone, Copy, Debug, PartialEq, Eq, Structural)]
pub enum UrlError {
    /// The scheme is cut short.
    InvalidDomain,
    /// No `/` after the domain.
    InvalidUser,
    /// No `/` after the user.
    InvalidRepository,
}

pub open spec fn no_slash(s: Seq<char>) -> bool {
    forall|i: int| 0 <= i < s.len() ==> s[i] != '/'
}

/// `s` holds exactly one `/`.
#[verifier::opaque]
pub open spec fn one_slash(s: Seq<char>) -> bool {
    exists|i: int| 0 <= i < s.len() && s[i] == '/' && no_slash(s.subrange(0, i)) && no_slash(s.subrange(i + 1, s.len() as int))
}

/// The scheme prefix of `s` as written back (`https://`, `http://` or
/// nothing) and the rest after it; `None` where the scheme is cut short.
pub open spec fn split_scheme(s: Seq<char>) -> Option<(Seq<char>, Seq<char>)> {
    if s.len() >= 5 && s.subrange(0, 5) == "https"@ {
        if s.len() >= 8 {
            Some(("https://"@, s.subrange(8, s.len() as int)))
        } else {
            None
        }
    } else if s.len() >= 4 && s.subrange(0, 4) == "http"@ {
        if s.len() >= 7 {
            Some(("http://"@, s.subrange(7, s.len() as int)))
        } else {
            None
        }
    } else {
        Some((Seq::empty(), s))
    }
}

fn has_prefix(s: &str, p: &str) -> (r: bool)
    ensures
        r == (s@.len() >= p@.len() && s@.subrange(0, p@.len() as int) == p@),
{
    let n = s.unicode_len();
    let m = p.unicode_len();
    if n < m {
        return false;
    }
    let mut i: usize = 0;
    while i < m
        invariant
            n == s@.len(),
            m == p@.len(),
            m <= n,
            i <= m,
            forall|k: int| 0 <= k < i ==> s@[k] == p@[k],
        decreases m - i,
    {
        if s.get_char(i) != p.get_char(i) {
            assert(s@.subrange(0, m as int)[i as int] != p@[i as int]);
            return false;
        }
        i = i + 1;
    }
    assert(s@.subrange(0, m as int) =~= p@);
    true
}

fn find_slash(s: &str, from: usize, n: usize) -> (r: Option<usize>)
    requires
        n == s@.len(),
        from <= n,
    ensures
        r is None ==> forall|k: int| from <= k < n ==> s@[k] != '/',
        r matches Some(i) ==> from <= i < n && s@[i as int] == '/' && forall|k: int| from <= k < i ==> s@[k] != '/',
{
    let mut i = from;
    while i < n
        invariant
            n == s@.len(),
            from <= i <= n,
            forall|k: int| from <= k < i ==> s@[k] != '/',
        decreases n - i,
    {
        if s.get_char(i) == '/' {
            return Some(i);
        }
        i = i + 1;
    }
    None
}

/// Positions of the two `/` after the domain and the user, and of the end
/// of the repository name, in `s[start..n]`.
fn slash_positions(s: &str, start: usize, n: usize) -> (r: Result<(usize, usize, usize), UrlError>)
    requires
        n == s@.len(),
        start <= n,
    ensures
        ({
            let rest = s@.subrange(start as int, n as int);
            &&& r == Err::<(usize, usize, usize), UrlError>(UrlError::InvalidUser) <==> no_slash(rest)
            &&& r == Err::<(usize, usize, usize), UrlError>(UrlError::InvalidRepository) <==> one_slash(rest)
            &&& r != Err::<(usize, usize, usize), UrlError>(UrlError::InvalidDomain)
            &&& r matches Ok((s1, s2, s3)) ==> start <= s1 < s2 < s3 <= n && s@[s1 as int] == '/' && s@[s2 as int] == '/'
                && (forall|k: int| start <= k < s1 ==> s@[k] != '/') && (forall|k: int| s1 < k < s2 ==> s@[k] != '/')
                && (forall|k: int| s2 < k < s3 ==> s@[k] != '/') && (s3 == n || s@[s3 as int] == '/')
        }),
{
    let ghost rest = s@.subrange(start as int, n as int);
    proof {
        reveal(one_slash);
    }
    let s1 = match find_slash(s, start, n) {
        Some(i) => i,
        None => {
            assert(no_slash(rest)) by {
                assert forall|k: int| 0 <= k < rest.len() implies rest[k] != '/' by {
                    assert(rest[k] == s@[start + k]);
                }
            }
            return Err(UrlError::InvalidUser);
        },
    };
    let ghost i1 = s1 - start;
    assert(rest[i1] == '/');
    let s2 = match find_slash(s, s1 + 1, n) {
        Some(i) => i,
        None => {
            proof {
                let head = rest.subrange(0, i1);
                let tail = rest.subrange(i1 + 1, rest.len() as int);
                assert forall|k: int| 0 <= k < head.len() implies #[trigger] head[k] != '/' by {
                    assert(head[k] == s@[start + k]);
                }
                assert forall|k: int| 0 <= k < tail.len() implies #[trigger] tail[k] != '/' by {
                    assert(tail[k] == s@[s1 + 1 + k]);
                }
            }
            return Err(UrlError::InvalidRepository);
        },
    };
    let s3 = match find_slash(s, s2 + 1, n) {
        Some(i) => i,
        None => n,
    };
    proof {
        assert forall|i: int| 0 <= i < rest.len() && rest[i] == '/' && no_slash(rest.subrange(0, i)) implies !no_slash(
            rest.subrange(i + 1, rest.len() as int),
        ) by {
            if i < i1 {
                assert(rest[i] == s@[start + i]);
            } else if i > i1 {
                assert(rest.subrange(0, i)[i1] == '/');
            } else {
                assert(rest.subrange(i + 1, rest.len() as int)[s2 - s1 - 1] == '/');
            }
        }
    }
    Ok((s1, s2, s3))
}

fn scheme_of(s: &str, len: usize) -> (r: Option<(&'static str, usize)>)
    requires
        len == s@.len(),
    ensures
        r is None <==> split_scheme(s@) is None,
        r matches Some((m, start)) ==> start <= len && split_scheme(s@) == Some((m@, s@.subrange(start as int, len as int))),
{
    proof {
        reveal_strlit("https");
        reveal_strlit("http");
        reveal_strlit("https://");
        reveal_strlit("http://");
        reveal_strlit("");
    }
    if has_prefix(s, "https") {
        if len < 8 {
            None
        } else {
            Some(("https://", 8))
        }
    } else if has_prefix(s, "http") {
        if len < 7 {
            None
        } else {
            Some(("http://", 7))
        }
    } else {
        assert(s@.subrange(0, len as int) =~= s@);
        Some(("", 0))
    }
}

/// A remote repository as the client knows it.
pub struct Url {
    pub remote_id: i64,
    pub origin: String,
}

impl Url {
    /// Splits a public address into scheme, domain, user and repository.
    /// Whatever follows the repository after another `/` is ignored.
    #[verifier::rlimit(60)]
    pub fn parse(public_url: &str) -> (r: Result<(String, String, String, String), UrlError>)
        ensures
            split_scheme(public_url@) is None ==> r == Err::<(String, String, String, String), UrlError>(UrlError::InvalidDomain),
            split_scheme(public_url@) matches Some((m, rest)) ==> {
                &&& r is Ok ==> {
                    let (a, b, c, d) = r->Ok_0;
                    let n = b@.len() + c@.len() + d@.len() + 2;
                    &&& a@ == m
                    &&& no_slash(b@) && no_slash(c@) && no_slash(d@)
                    &&& n <= rest.len()
                    &&& rest.subrange(0, n as int) == b@ + seq!['/'] + c@ + seq!['/'] + d@
                    &&& (n == rest.len() || rest[n as int] == '/')
                }
                &&& r == Err::<(String, String, String, String), UrlError>(UrlError::InvalidUser) <==> no_slash(rest)
                &&& r == Err::<(String, String, String, String), UrlError>(UrlError::InvalidRepository) <==> one_slash(rest)
                &&& r != Err::<(String, String, String, String), UrlError>(UrlError::InvalidDomain)
            },
    {
        let len = public_url.unicode_len();
        let (method, start) = match scheme_of(public_url, len) {
            Some(x) => x,
            None => {
                return Err(UrlError::InvalidDomain);
            },
        };
        let ghost rest = public_url@.subrange(start as int, len as int);
        let (s1, s2, s3) = match slash_positions(public_url, start, len) {
            Ok(x) => x,
            Err(e) => {
                return Err(e);
            },
        };
        let domain = String::from_str(public_url.substring_char(start, s1));
        let user = String::from_str(public_url.substring_char(s1 + 1, s2));
        let repository = String::from_str(public_url.substring_char(s2 + 1, s3));
        proof {
            let n = (s3 - start) as int;
            assert forall|k: int| 0 <= k < domain@.len() implies domain@[k] != '/' by {
                assert(domain@[k] == public_url@[start + k]);
            }
            assert forall|k: int| 0 <= k < user@.len() implies user@[k] != '/' by {
                assert(user@[k] == public_url@[s1 + 1 + k]);
            }
            assert forall|k: int| 0 <= k < repository@.len() implies repository@[k] != '/' by {
                assert(repository@[k] == public_url@[s2 + 1 + k]);
            }
            assert(rest.subrange(0, n) =~= domain@ + seq!['/'] + user@ + seq!['/'] + repository@);
            if s3 < len {
                assert(rest[n] == public_url@[s3 as int]);
            }
        }
        Ok((String::from_str(method), domain, user, repository))
    }
}

} // verus!
