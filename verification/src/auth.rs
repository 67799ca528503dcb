//! The single shared-password lock: which requests pass, what the locked
//! page shows, and what a login attempt answers.

use vstd::prelude::*;
use crate::text::{is_white_space, lemma_leading_blanks, lemma_trailing_blanks, starts_with, str_eq, trim, trim_spec};

verus! {

/// The cookie a successful login with `password` sets, and that later
/// requests must carry.
pub open spec fn auth_pair(password: Seq<char>) -> Seq<char> {
    "ciderhub_auth="@ + password
}

/// `Set-Cookie` value of a successful login: the auth pair, for the whole
/// site, kept one year (31536000 seconds).
pub open spec fn login_cookie(password: Seq<char>) -> Seq<char> {
    auth_pair(password) + "; Path=/; HttpOnly; SameSite=Lax; Max-Age=31536000"@
}

/// A password that a cookie can carry back unchanged: no `;`, which would
/// split the cookie, and no white space at its end, which the cookie
/// check trims off.
pub open spec fn cookie_safe(password: Seq<char>) -> bool {
    &&& forall|q: int| 0 <= q < password.len() ==> #[trigger] password[q] != ';'
    &&& (password.len() == 0 || !is_white_space(password.last()))
}

/// The piece of `s` from `i` to `j` is one of the pieces `s.split(';')`
/// yields.
pub open spec fn is_split_piece(s: Seq<char>, i: int, j: int) -> bool {
    &&& 0 <= i <= j <= s.len()
    &&& (i == 0 || s[i - 1] == ';')
    &&& (j == s.len() || s[j] == ';')
    &&& forall|q: int| i <= q < j ==> s[q] != ';'
}

/// A `Cookie` header carries the auth pair when one of its
/// `;`-separated pieces, trimmed, is exactly that pair.
pub open spec fn carries_auth(cookie_header: Seq<char>, password: Seq<char>) -> bool {
    exists|i: int, j: int|
        is_split_piece(cookie_header, i, j) && trim_spec(#[trigger] cookie_header.subrange(i, j))
            == auth_pair(password)
}

proof fn lemma_piece_start(s: Seq<char>, start: int, pos: int, i: int)
    requires
        is_split_piece(s, i, pos),
        0 <= start <= pos,
        start == 0 || s[start - 1] == ';',
        forall|q: int| start <= q < pos ==> s[q] != ';',
    ensures
        i == start,
{
    if i < start {
        assert(s[start - 1] == ';');
        assert(i <= start - 1 < pos);
    } else if i > start {
        assert(s[i - 1] == ';');
        assert(start <= i - 1 < pos);
    }
}

/// Whether the request's `Cookie` header (absent, or not valid visible
/// ASCII, when `None`) carries the auth cookie of the configured site
/// password.
pub fn is_authenticated(cookie_header: Option<&str>, password: &str) -> (r: bool)
    ensures
        r == (cookie_header matches Some(h) && carries_auth(h@, password@)),
{
    let header = match cookie_header {
        Some(h) => h,
        None => return false,
    };
    let mut pair = String::from_str("ciderhub_auth=");
    pair.append(password);
    proof {
        reveal_strlit("ciderhub_auth=");
    }
    assert(pair@ == auth_pair(password@));
    let n = header.unicode_len();
    let mut start: usize = 0;
    let mut pos: usize = 0;
    while pos <= n
        invariant
            cookie_header == Some(header),
            pair@ == auth_pair(password@),
            n == header@.len(),
            start <= pos <= n + 1,
            start <= n,
            pos <= n ==> start <= pos,
            start == 0 || header@[start - 1] == ';',
            forall|q: int| start <= q < pos && q < n ==> header@[q] != ';',
            forall|i: int, j: int|
                is_split_piece(header@, i, j) && j < pos ==> trim_spec(
                    #[trigger] header@.subrange(i, j),
                ) != auth_pair(password@),
        decreases n + 1 - pos,
    {
        if pos == n || header.get_char(pos) == ';' {
            let piece = header.substring_char(start, pos);
            let trimmed = trim(piece);
            if str_eq(trimmed, pair.as_str()) {
                assert(is_split_piece(header@, start as int, pos as int));
                assert(trim_spec(header@.subrange(start as int, pos as int)) == auth_pair(password@));
                assert(carries_auth(header@, password@));
                return true;
            }
            proof {
                assert forall|i: int, j: int|
                    is_split_piece(header@, i, j) && j < pos + 1 implies trim_spec(
                        #[trigger] header@.subrange(i, j),
                    ) != auth_pair(password@) by {
                    if j == pos {
                        lemma_piece_start(header@, start as int, pos as int, i);
                    }
                }
            }
            if pos == n {
                assert forall|i: int, j: int| is_split_piece(header@, i, j) implies trim_spec(
                    #[trigger] header@.subrange(i, j),
                ) != auth_pair(password@) by {
                    assert(j < pos + 1);
                }
                return false;
            }
            start = pos + 1;
        }
        pos = pos + 1;
    }
    false
}

/// A redirect target taken from user input is only trusted when it is a
/// path on this site: it starts with a single `/`.
pub open spec fn is_local_path(t: Seq<char>) -> bool {
    t.len() >= 1 && t[0] == '/' && !(t.len() >= 2 && t[1] == '/')
}

/// Where a visitor is sent after logging in: the requested path when it
/// is local, else the home page.
pub open spec fn safe_next_spec(next: Option<String>) -> Seq<char> {
    if next matches Some(n) && is_local_path(n@) {
        next.unwrap()@
    } else {
        "/"@
    }
}

/// Only a path starting with a single leading slash is a safe redirect
/// target; anything else becomes `/`.
pub fn safe_next(next: Option<String>) -> (r: String)
    ensures
        r@ == safe_next_spec(next),
{
    proof {
        reveal_strlit("/");
        reveal_strlit("//");
        assert("/"@ =~= seq!['/']);
        assert("//"@ =~= seq!['/', '/']);
    }
    match next {
        Some(n) => {
            let single = starts_with(n.as_str(), "/");
            let double = starts_with(n.as_str(), "//");
            proof {
                if n@.len() >= 1 && n@[0] == '/' {
                    assert(n@.take(1) =~= seq!['/']);
                }
                if single {
                    assert(n@.take(1)[0] == n@[0]);
                }
                if n@.len() >= 2 && n@[0] == '/' && n@[1] == '/' {
                    assert(n@.take(2) =~= seq!['/', '/']);
                }
                if double {
                    assert(n@.take(2)[0] == n@[0]);
                    assert(n@.take(2)[1] == n@[1]);
                }
            }
            if single && !double {
                n
            } else {
                String::from_str("/")
            }
        },
        None => String::from_str("/"),
    }
}

/// The page a locked-out visitor sees, with the path to return to after
/// logging in and whether a wrong password was just entered.
pub struct LockedTemplate {
    pub next: String,
    pub error: bool,
}

/// A submitted login form.
pub struct LoginForm {
    pub password: String,
    pub next: Option<String>,
}

/// Paths that are served without the auth cookie: the login endpoint, the
/// health check and the static files.
pub open spec fn is_public_path(path: Seq<char>) -> bool {
    path == "/login"@ || path == "/healthz"@ || (path.len() >= 8 && path.take(8) == "/static/"@)
}

/// Guards every route: `None` lets the request through,
/// `Some(page)` answers it with the locked page (401), remembering where
/// the visitor was going (`/` when the request has no path and query).
pub fn require_auth(path: &str, cookie_header: Option<&str>, path_and_query: Option<&str>, password: &str) -> (r:
    Option<LockedTemplate>)
    ensures
        (is_public_path(path@) || (cookie_header matches Some(h) && carries_auth(h@, password@))) ==> r is None,
        !(is_public_path(path@) || (cookie_header matches Some(h) && carries_auth(h@, password@))) ==> (r matches Some(
            page,
        ) && !page.error && page.next@ == match path_and_query {
            Some(pq) => pq@,
            None => "/"@,
        }),
{
    proof {
        reveal_strlit("/static/");
    }
    let public = str_eq(path, "/login") || str_eq(path, "/healthz") || starts_with(path, "/static/");
    if public {
        return None;
    }
    if is_authenticated(cookie_header, password) {
        return None;
    }
    let next = match path_and_query {
        Some(pq) => String::from_str(pq),
        None => String::from_str("/"),
    };
    Some(LockedTemplate { next, error: false })
}

/// What a login attempt answers.
pub enum LoginOutcome {
    /// Right password: redirect to `location`, setting `set_cookie`.
    Redirect { location: String, set_cookie: String },
    /// Wrong password: the locked page again (401), flagged as an error.
    Locked(LockedTemplate),
}

/// Checks the submitted password against the configured site password.
/// Either way the visitor is sent on to a safe local path only.
pub fn login(form: LoginForm, password: &str) -> (r: LoginOutcome)
    ensures
        ({
            let next = safe_next_spec(form.next);
            if form.password@ == password@ {
                r matches LoginOutcome::Redirect { location, set_cookie } && location@ == next
                    && set_cookie@ == login_cookie(password@)
            } else {
                r matches LoginOutcome::Locked(page) && page.next@ == next && page.error
            }
        }),
{
    let next = safe_next(form.next);
    if str_eq(form.password.as_str(), password) {
        let mut set_cookie = String::from_str("ciderhub_auth=");
        set_cookie.append(password);
        set_cookie.append("; Path=/; HttpOnly; SameSite=Lax; Max-Age=31536000");
        proof {
            reveal_strlit("ciderhub_auth=");
        }
        assert(set_cookie@ =~= login_cookie(password@));
        LoginOutcome::Redirect { location: next, set_cookie }
    } else {
        LoginOutcome::Locked(LockedTemplate { next, error: true })
    }
}

/// Whatever is asked for, the redirect target that login uses is a path
/// on this site: never another host, never a scheme-relative `//host`.
pub proof fn law_redirect_stays_on_site(next: Option<String>)
    ensures
        is_local_path(safe_next_spec(next)),
{
    reveal_strlit("/");
}

/// The auth pair of a cookie-safe password has no `;` and trims to itself.
proof fn lemma_pair_is_one_clean_piece(password: Seq<char>)
    requires
        cookie_safe(password),
    ensures
        forall|q: int| 0 <= q < auth_pair(password).len() ==> #[trigger] auth_pair(password)[q] != ';',
        trim_spec(auth_pair(password)) == auth_pair(password),
        is_split_piece(auth_pair(password), 0, auth_pair(password).len() as int),
{
    reveal_strlit("ciderhub_auth=");
    let prefix = "ciderhub_auth="@;
    let p = auth_pair(password);
    assert(prefix.len() == 14);
    assert forall|q: int| 0 <= q < p.len() implies #[trigger] p[q] != ';' by {
        if q >= 14 {
            assert(p[q] == password[q - 14]);
        }
    }
    assert(!is_white_space(p[0]));
    lemma_leading_blanks(p, 0);
    if password.len() == 0 {
        assert(p[p.len() - 1] == '=');
    } else {
        assert(p[p.len() - 1] == password.last());
    }
    lemma_trailing_blanks(p, 0);
    assert(p.subrange(0, p.len() as int) =~= p);
}

/// The cookie a successful login sets is the auth pair, and a browser
/// sending that pair back (alone, or after other cookies) is let in, for
/// any site password a cookie can carry.
pub proof fn law_login_cookie_lets_the_visitor_in(password: Seq<char>, other: Seq<char>)
    requires
        cookie_safe(password),
    ensures
        login_cookie(password) == auth_pair(password) + "; Path=/; HttpOnly; SameSite=Lax; Max-Age=31536000"@,
        carries_auth(auth_pair(password), password),
        carries_auth(other + "; "@ + auth_pair(password), password),
{
    reveal_strlit("; ");
    let p = auth_pair(password);
    lemma_pair_is_one_clean_piece(password);
    assert(p.subrange(0, p.len() as int) =~= p);
    assert(trim_spec(p.subrange(0, p.len() as int)) == p);
    let h = other + "; "@ + p;
    let i: int = other.len() as int + 1;
    let piece = h.subrange(i, h.len() as int);
    assert(piece =~= seq![' '] + p);
    assert(forall|q: int| 0 <= q < piece.len() ==> #[trigger] piece[q] != ';') by {
        assert forall|q: int| 0 <= q < piece.len() implies #[trigger] piece[q] != ';' by {
            if q >= 1 {
                assert(piece[q] == p[q - 1]);
            }
        }
    }
    assert(h[i - 1] == ';');
    assert(is_split_piece(h, i, h.len() as int)) by {
        assert forall|q: int| i <= q < h.len() implies h[q] != ';' by {
            assert(h[q] == piece[q - i]);
        }
    }
    assert(is_white_space(piece[0]));
    assert(forall|q: int| 0 <= q < 1 ==> is_white_space(#[trigger] piece[q]));
    reveal_strlit("ciderhub_auth=");
    assert(piece[1] == p[0]);
    lemma_leading_blanks(piece, 1);
    if password.len() == 0 {
        assert(piece[piece.len() - 1] == '=');
    } else {
        assert(piece[piece.len() - 1] == password.last());
    }
    lemma_trailing_blanks(piece, 0);
    assert(piece.subrange(1, piece.len() as int) =~= p);
    assert(trim_spec(h.subrange(i, h.len() as int)) == auth_pair(password));
}

/// A cookie that carries another password is refused: the pair of any
/// cookie-safe password other than the site password does not let the
/// visitor in.
pub proof fn law_wrong_password_is_refused(password: Seq<char>, wrong: Seq<char>)
    requires
        cookie_safe(wrong),
        wrong != password,
    ensures
        !carries_auth(auth_pair(wrong), password),
{
    reveal_strlit("ciderhub_auth=");
    let h = auth_pair(wrong);
    lemma_pair_is_one_clean_piece(wrong);
    if carries_auth(h, password) {
        let (i, j) = choose|i: int, j: int|
            is_split_piece(h, i, j) && trim_spec(#[trigger] h.subrange(i, j)) == auth_pair(password);
        if i > 0 {
            assert(h[i - 1] != ';');
        }
        if j < h.len() {
            assert(h[j] != ';');
        }
        assert(h.subrange(i, j) =~= h);
        assert(h == auth_pair(password));
        assert(wrong =~= h.subrange(14, h.len() as int));
        assert(password =~= auth_pair(password).subrange(14, auth_pair(password).len() as int));
    }
}

} // verus!
