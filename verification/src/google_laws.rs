//! How logging in, connecting and resetting go from beginning to end, and what
//! the answers of Google come to.

use crate::clock;
use crate::drive;
use crate::drive::{DriveFileList, ListingView, PageView, Sent, TokenResponse};
use crate::login;
use crate::paths;
use crate::remote;
use crate::remote::DriveFile;
use crate::reset;
use crate::reset::{ResetReplyView, ResetStepView};
use crate::search_laws;
use crate::session;
use crate::session::{
    ConnectReplyView, ConnectStepView, ConnectView, LoginReplyView, LoginStepView,
};
use crate::text;
use crate::url;
use vstd::prelude::*;

verus! {

// ---------------------------------------------------------------------------
// Words and pieces
// ---------------------------------------------------------------------------

/// There is no white space in it.
pub open spec fn is_one_word(s: Seq<char>) -> bool {
    s.len() > 0 && forall|i: int| 0 <= i < s.len() ==> !text::is_space(#[trigger] s[i])
}

proof fn lemma_words_not_empty(s: Seq<char>)
    ensures
        s.len() > 0 && !text::is_space(s.last()) ==> login::words(s).len() >= 1,
    decreases s.len(),
{
    if s.len() > 0 {
        lemma_words_not_empty(s.drop_last());
    }
}

/// White space ends a word: the words of a text are those before it and those
/// behind it.
pub proof fn white_space_ends_a_word(a: Seq<char>, c: char, b: Seq<char>)
    requires
        text::is_space(c),
    ensures
        login::words(a + seq![c] + b) == login::words(a) + login::words(b),
    decreases b.len(),
{
    let s = a + seq![c] + b;
    if b.len() == 0 {
        assert(s.last() == c);
        assert(s.drop_last() =~= a);
        assert(login::words(b) =~= Seq::empty());
        assert(login::words(a) + login::words(b) =~= login::words(a));
    } else {
        let t = b.drop_last();
        let front = a + seq![c] + t;
        white_space_ends_a_word(a, c, t);
        assert(s.last() == b.last());
        assert(s.drop_last() =~= front);
        let x = login::words(a);
        let y = login::words(t);
        if !text::is_space(b.last()) {
            if t.len() == 0 {
                assert(front.last() == c);
                assert(y =~= Seq::empty());
                assert((x + y).push(seq![b.last()]) =~= x + login::words(b));
            } else {
                assert(front.last() == t.last());
                if text::is_space(t.last()) {
                    assert((x + y).push(seq![b.last()]) =~= x + login::words(b));
                } else {
                    lemma_words_not_empty(t);
                    assert((x + y).last() == y.last());
                    assert((x + y).update((x + y).len() - 1, y.last().push(b.last())) =~= x
                        + y.update(y.len() - 1, y.last().push(b.last())));
                }
            }
        }
    }
}

/// What has no white space in it is one word.
pub proof fn a_word_is_one_word(w: Seq<char>)
    requires
        is_one_word(w),
    ensures
        login::words(w) == seq![w],
    decreases w.len(),
{
    let t = w.drop_last();
    assert(!text::is_space(w[w.len() - 1]));
    if t.len() > 0 {
        assert forall|i: int| 0 <= i < t.len() implies !text::is_space(#[trigger] t[i]) by {
            assert(t[i] == w[i]);
        }
        a_word_is_one_word(t);
        assert(!text::is_space(t[t.len() - 1]));
        assert(t.push(w.last()) =~= w);
        assert(seq![t].update(0, w) =~= seq![w]);
    } else {
        assert(login::words(t) =~= Seq::empty());
        assert(seq![w.last()] =~= w);
        assert(Seq::<Seq<char>>::empty().push(w) =~= seq![w]);
    }
}

proof fn lemma_split_not_empty(s: Seq<char>, c: char)
    ensures
        login::split(s, c).len() >= 1,
    decreases s.len(),
{
    if s.len() > 0 {
        lemma_split_not_empty(s.drop_last(), c);
    }
}

/// A separator ends a piece: the pieces of a text are those before it and those
/// behind it.
pub proof fn a_separator_ends_a_piece(a: Seq<char>, c: char, b: Seq<char>)
    ensures
        login::split(a + seq![c] + b, c) == login::split(a, c) + login::split(b, c),
    decreases b.len(),
{
    let s = a + seq![c] + b;
    let x = login::split(a, c);
    if b.len() == 0 {
        assert(s.last() == c);
        assert(s.drop_last() =~= a);
        assert(b =~= Seq::empty());
        assert(x.push(Seq::empty()) =~= x + login::split(b, c));
    } else {
        let t = b.drop_last();
        let y = login::split(t, c);
        a_separator_ends_a_piece(a, c, t);
        lemma_split_not_empty(t, c);
        assert(s.last() == b.last());
        assert(s.drop_last() =~= a + seq![c] + t);
        assert((x + y).last() == y.last());
        if b.last() == c {
            assert((x + y).push(Seq::empty()) =~= x + y.push(Seq::empty()));
        } else {
            assert((x + y).update((x + y).len() - 1, y.last().push(b.last())) =~= x + y.update(
                y.len() - 1,
                y.last().push(b.last()),
            ));
        }
    }
}

/// What has no separator in it is one piece.
pub proof fn a_piece_is_one_piece(p: Seq<char>, c: char)
    requires
        !p.contains(c),
    ensures
        login::split(p, c) == seq![p],
    decreases p.len(),
{
    if p.len() > 0 {
        let t = p.drop_last();
        assert(p.contains(p.last()));
        assert forall|d: char| t.contains(d) implies p.contains(d) by {
            let k = choose|k: int| 0 <= k < t.len() && t[k] == d;
            assert(p[k] == d);
        }
        a_piece_is_one_piece(t, c);
        assert(t.push(p.last()) =~= p);
        assert(seq![t].update(0, p) =~= seq![p]);
    }
}

// ---------------------------------------------------------------------------
// The redirect
// ---------------------------------------------------------------------------

/// The parameters of a request are what stands in its second word behind the
/// question mark, whatever its other words and lines.
pub proof fn the_parameters_stand_behind_the_question_mark(
    method: Seq<char>,
    path: Seq<char>,
    query: Seq<char>,
    version: Seq<char>,
    more: Seq<char>,
)
    requires
        is_one_word(method),
        is_one_word(path + seq!['?'] + query),
        is_one_word(version),
        !path.contains('?'),
        !query.contains('?'),
    ensures
        login::query_of(
            method + seq![' '] + (path + seq!['?'] + query) + seq![' '] + version + seq!['\r', '\n']
                + more,
        ) == query,
{
    let address = path + seq!['?'] + query;
    let line = method + seq![' '] + address + seq![' '] + version;
    assert(!line.contains('\n')) by {
        if line.contains('\n') {
            let k = choose|k: int| 0 <= k < line.len() && line[k] == '\n';
            let m = method.len() as int;
            let n = address.len() as int;
            if k < m {
                assert(method[k] == '\n');
            } else if k == m {
            } else if k < m + 1 + n {
                assert(address[k - m - 1] == '\n');
            } else if k == m + 1 + n {
            } else {
                assert(version[k - m - n - 2] == '\n');
            }
        }
    }
    search_laws::the_first_line_ends_before_the_break(line, more);
    assert(line =~= method + seq![' '] + (address + seq![' '] + version));
    white_space_ends_a_word(method, ' ', address + seq![' '] + version);
    white_space_ends_a_word(address, ' ', version);
    a_word_is_one_word(method);
    a_word_is_one_word(address);
    a_word_is_one_word(version);
    let w = login::words(line);
    assert(w == seq![method] + (seq![address] + seq![version]));
    assert(w[1] == address);
    a_separator_ends_a_piece(path, '?', query);
    a_piece_is_one_piece(path, '?');
    a_piece_is_one_piece(query, '?');
    let p = login::split(address, '?');
    assert(p == seq![path] + seq![query]);
    assert(p[1] == query);
}

proof fn lemma_before_first(k: Seq<char>, c: char, v: Seq<char>)
    requires
        !k.contains(c),
    ensures
        login::before_first(k + seq![c] + v, c) == k,
        login::before_first(k, c) == k,
    decreases k.len(),
{
    let s = k + seq![c] + v;
    if k.len() == 0 {
        assert(s[0] == c);
        assert(login::before_first(s, c) =~= k);
        assert(login::before_first(k, c) =~= k);
    } else {
        let t = k.skip(1);
        assert(k.contains(k[0]));
        assert forall|d: char| t.contains(d) implies k.contains(d) by {
            let j = choose|j: int| 0 <= j < t.len() && t[j] == d;
            assert(k[j + 1] == d);
        }
        lemma_before_first(t, c, v);
        assert(s.skip(1) =~= t + seq![c] + v);
        assert(seq![k[0]] + t =~= k);
    }
}

/// A parameter is a name and a value, on both sides of the first sign of
/// equality, each decoded; without one it is a name alone.
pub proof fn a_parameter_is_name_and_value(k: Seq<char>, v: Seq<char>)
    requires
        !k.contains('='),
    ensures
        login::raw_param(k + seq!['='] + v) == (k, v),
        login::raw_param(k) == (k, Seq::<char>::empty()),
        login::param(k + seq!['='] + v) == (url::url_text(k), url::url_text(v)),
{
    lemma_before_first(k, '=', v);
    assert((k + seq!['='] + v).skip((k.len() + 1) as int) =~= v);
}

/// The parameters of a request come one after the other, each behind an
/// ampersand.
pub proof fn an_ampersand_ends_a_parameter(request: Seq<char>, a: Seq<char>, b: Seq<char>)
    requires
        login::query_of(request) == a + seq!['&'] + b,
        !a.contains('&'),
    ensures
        login::params_of(request) == seq![login::param(a)] + login::split(b, '&').map_values(
            |p: Seq<char>| login::param(p),
        ),
{
    a_separator_ends_a_piece(a, '&', b);
    a_piece_is_one_piece(a, '&');
    let rest = login::split(b, '&');
    assert((seq![a] + rest).map_values(|p: Seq<char>| login::param(p)) =~= seq![login::param(a)]
        + rest.map_values(|p: Seq<char>| login::param(p)));
}

/// A request with one parameter.
pub proof fn one_parameter_is_one(request: Seq<char>, a: Seq<char>)
    requires
        login::query_of(request) == a,
        !a.contains('&'),
    ensures
        login::params_of(request) == seq![login::param(a)],
{
    a_piece_is_one_piece(a, '&');
    assert(login::params_of(request) =~= seq![login::param(a)]);
}

/// Of several values of a parameter the last one counts.
pub proof fn the_last_value_counts(
    params: Seq<(Seq<char>, Seq<char>)>,
    key: Seq<char>,
    i: int,
    n: int,
)
    requires
        0 <= i < n <= params.len(),
        params[i].0 == key,
        forall|j: int| i < j < n ==> (#[trigger] params[j]).0 != key,
    ensures
        login::last_value(params, key, n) == Some(params[i].1),
    decreases n,
{
    if i < n - 1 {
        assert(params[n - 1].0 != key);
        the_last_value_counts(params, key, i, n - 1);
    }
}

/// A parameter that is not there has no value.
pub proof fn what_is_not_there_has_no_value(
    params: Seq<(Seq<char>, Seq<char>)>,
    key: Seq<char>,
    n: int,
)
    requires
        0 <= n <= params.len(),
        forall|j: int| 0 <= j < n ==> (#[trigger] params[j]).0 != key,
    ensures
        login::last_value(params, key, n) is None,
    decreases n,
{
    if n > 0 {
        assert(params[n - 1].0 != key);
        what_is_not_there_has_no_value(params, key, n - 1);
    }
}

/// A redirect that names a code and no error says the code.
pub proof fn a_code_is_taken(params: Seq<(Seq<char>, Seq<char>)>, i: int)
    requires
        0 <= i < params.len(),
        params[i].0 == "code"@,
        forall|j: int| i < j < params.len() ==> (#[trigger] params[j]).0 != "code"@,
        forall|j: int| 0 <= j < params.len() ==> (#[trigger] params[j]).0 != "error"@,
    ensures
        login::answer_of(params) == Ok::<Seq<char>, Seq<char>>(params[i].1),
{
    the_last_value_counts(params, "code"@, i, params.len() as int);
    what_is_not_there_has_no_value(params, "error"@, params.len() as int);
}

/// A redirect that names an error is refused with it, whatever else it names.
pub proof fn an_error_is_a_refusal(params: Seq<(Seq<char>, Seq<char>)>, i: int)
    requires
        0 <= i < params.len(),
        params[i].0 == "error"@,
        forall|j: int| i < j < params.len() ==> (#[trigger] params[j]).0 != "error"@,
    ensures
        login::answer_of(params) == Err::<Seq<char>, Seq<char>>(
            "Authorization denied: "@ + params[i].1,
        ),
{
    the_last_value_counts(params, "error"@, i, params.len() as int);
}

/// A redirect that names neither is not understood.
pub proof fn a_redirect_without_code_is_not_understood(params: Seq<(Seq<char>, Seq<char>)>)
    requires
        forall|j: int| 0 <= j < params.len() ==> (#[trigger] params[j]).0 != "error"@,
        forall|j: int| 0 <= j < params.len() ==> (#[trigger] params[j]).0 != "code"@,
    ensures
        login::answer_of(params) == Err::<Seq<char>, Seq<char>>(
            "Failed to parse auth code from redirect URL"@,
        ),
{
    what_is_not_there_has_no_value(params, "error"@, params.len() as int);
    what_is_not_there_has_no_value(params, "code"@, params.len() as int);
}

// ---------------------------------------------------------------------------
// Addresses and forms
// ---------------------------------------------------------------------------

/// The browser is sent back to the port that is listened on.
pub proof fn the_browser_comes_back_to_the_port(port: u16)
    ensures
        login::local_address(port) == "http://localhost:"@ + text::decimal(port as nat),
{
}

/// Consent is asked for with the id of the app and the address to come back to,
/// as they are.
pub proof fn consent_is_asked_for_the_app(client_id: Seq<char>, redirect: Seq<char>)
    ensures
        login::consent_url(client_id, redirect)
            == "https://accounts.google.com/o/oauth2/v2/auth?client_id="@ + client_id
            + "&redirect_uri="@ + redirect
            + "&response_type=code&scope=https://www.googleapis.com/auth/drive.file&access_type=offline&prompt=consent"@,
{
}

/// A code is exchanged with the credentials of the app and the address that the
/// browser came back to.
pub proof fn a_code_is_exchanged_with_these(
    code: Seq<char>,
    client_id: Seq<char>,
    client_secret: Seq<char>,
    redirect: Seq<char>,
)
    ensures
        ({
            let f = login::code_form(code, client_id, client_secret, redirect);
            &&& f.len() == 5
            &&& f[0] == ("code"@, code)
            &&& f[1] == ("client_id"@, client_id)
            &&& f[2] == ("client_secret"@, client_secret)
            &&& f[3] == ("redirect_uri"@, redirect)
            &&& f[4] == ("grant_type"@, "authorization_code"@)
        }),
{
}

/// A new token is asked for with what is stored, all of which is needed.
pub proof fn a_token_is_asked_for_with_what_is_stored(
    i: Seq<char>,
    s: Seq<char>,
    t: Seq<char>,
    other: Option<Seq<char>>,
    another: Option<Seq<char>>,
)
    ensures
        login::stored_form(Some(i), Some(s), Some(t)) matches Ok(f) && f.len() == 4 && f[0] == (
            "client_id"@,
            i,
        ) && f[1] == ("client_secret"@, s) && f[2] == ("refresh_token"@, t) && f[3] == (
            "grant_type"@,
            "refresh_token"@,
        ),
        login::stored_form(None, other, another) == Err::<
            Seq<(Seq<char>, Seq<char>)>,
            Seq<char>,
        >("No Client ID stored"@),
        login::stored_form(Some(i), None, another) == Err::<
            Seq<(Seq<char>, Seq<char>)>,
            Seq<char>,
        >("No Client Secret stored"@),
        login::stored_form(Some(i), Some(s), None) == Err::<
            Seq<(Seq<char>, Seq<char>)>,
            Seq<char>,
        >("No Refresh Token stored"@),
{
}

// ---------------------------------------------------------------------------
// Logging in
// ---------------------------------------------------------------------------

/// Where every step succeeds, a login listens, opens the browser, exchanges the
/// code of the redirect, stores the id, the secret and the refresh token, answers
/// the browser and ends well.
pub proof fn a_login_goes_well(
    client_id: Seq<char>,
    client_secret: Seq<char>,
    port: u16,
    bytes: Seq<u8>,
    code: Seq<char>,
    token: Seq<char>,
)
    requires
        login::has_line(bytes),
        login::answer_of(login::params_of(login::request_line(bytes))) == Ok::<
            Seq<char>,
            Seq<char>,
        >(code),
    ensures
        ({
            let address = "http://localhost:"@ + text::decimal(port as nat);
            let a = session::login_begun(client_id, client_secret);
            let b = a.after(LoginReplyView::Listening { port });
            let c = b.after(LoginReplyView::Done);
            let d = c.after(LoginReplyView::Came);
            let e = d.after(LoginReplyView::Read { bytes });
            let f = e.after(LoginReplyView::Exchanged(Ok(token)));
            let g = f.after(LoginReplyView::Done);
            let h = g.after(LoginReplyView::Done);
            let i = h.after(LoginReplyView::Done);
            let j = i.after(LoginReplyView::Done);
            &&& a.pending() == LoginStepView::Listen
            &&& b.pending() == (LoginStepView::Open { url: login::consent_url(client_id, address) })
            &&& c.pending() == LoginStepView::Accept
            &&& d.pending() == LoginStepView::Read
            &&& e.pending() == (LoginStepView::Exchange {
                form: login::code_form(code, client_id, client_secret, address),
            })
            &&& f.pending() == (LoginStepView::Store { key: "client_id"@, value: client_id })
            &&& g.pending() == (LoginStepView::Store {
                key: "client_secret"@,
                value: client_secret,
            })
            &&& h.pending() == (LoginStepView::Store { key: "refresh_token"@, value: token })
            &&& i.pending() == LoginStepView::Respond
            &&& j.pending() == (LoginStepView::Finish { outcome: Ok(()) })
        }),
{
    assert(Seq::<u8>::empty() + bytes =~= bytes);
}

/// A login that fails reports why.
pub proof fn a_failed_login_is_reported(s: session::LoginView, cause: Seq<char>)
    ensures
        s.stage is Listening || s.stage is StoringId || s.stage is StoringSecret
            || s.stage is StoringToken ==> s.after(LoginReplyView::Failed { cause }).pending() == (
        LoginStepView::Finish { outcome: Err(cause) }),
        s.stage is Accepting ==> {
            &&& s.after(LoginReplyView::TimedOut).pending() == (LoginStepView::Finish {
                outcome: Err("Login timed out waiting for browser redirect (180s)."@),
            })
            &&& s.after(LoginReplyView::Broken { cause }).pending() == (LoginStepView::Finish {
                outcome: Err("Accept task failed: "@ + cause),
            })
            &&& s.after(LoginReplyView::WaitFailed { cause }).pending() == (LoginStepView::Finish {
                outcome: Err(cause),
            })
        },
        s.stage is Reading ==> s.after(LoginReplyView::ReadFailed { cause }).pending() == (
        LoginStepView::Finish { outcome: Err("Failed to read redirect: "@ + cause) }),
        s.stage is Exchanging ==> s.after(LoginReplyView::Exchanged(Err(cause))).pending() == (
        LoginStepView::Finish { outcome: Err(cause) }),
{
}

/// A redirect that is refused, or not understood, ends the login with what it
/// comes to; also where nothing more is read.
pub proof fn a_refused_redirect_ends_the_login(s: session::LoginView, bytes: Seq<u8>, e: Seq<char>)
    requires
        s.stage is Reading,
    ensures
        login::has_line(s.request + bytes) && login::answer_of(
            login::params_of(login::request_line(s.request + bytes)),
        ) == Err::<Seq<char>, Seq<char>>(e) ==> s.after(LoginReplyView::Read { bytes }).pending()
            == (LoginStepView::Finish { outcome: Err(e) }),
        login::answer_of(login::params_of(login::request_line(s.request))) == Err::<
            Seq<char>,
            Seq<char>,
        >(e) ==> s.after(LoginReplyView::ReadAll).pending() == (LoginStepView::Finish {
            outcome: Err(e),
        }),
        !login::has_line(s.request + bytes) ==> s.after(LoginReplyView::Read { bytes }).pending()
            == LoginStepView::Read && s.after(LoginReplyView::Read { bytes }).request == s.request
            + bytes,
{
}

/// The first line of a request is whole exactly where a line break has come, and
/// is read up to it.
pub proof fn a_line_ends_with_its_break(front: Seq<u8>, rest: Seq<u8>)
    requires
        !front.contains(10),
    ensures
        !login::has_line(front),
        login::has_line(front + seq![10u8] + rest),
        login::request_line(front) == url::text_of(front),
        login::request_line(front + seq![10u8] + rest) == url::text_of(front.push(10u8)),
{
    let all = front + seq![10u8] + rest;
    assert(all[front.len() as int] == 10);
    lemma_line_end(front, rest);
    assert(front.take(front.len() as int) =~= front);
    assert(all.take((front.len() + 1) as int) =~= front.push(10u8));
}

proof fn lemma_line_end(front: Seq<u8>, rest: Seq<u8>)
    requires
        !front.contains(10),
    ensures
        login::line_end(front) == front.len(),
        login::line_end(front + seq![10u8] + rest) == front.len() + 1,
    decreases front.len(),
{
    let all = front + seq![10u8] + rest;
    if front.len() > 0 {
        let t = front.skip(1);
        assert(front.contains(front[0]));
        assert forall|b: u8| t.contains(b) implies front.contains(b) by {
            let k = choose|k: int| 0 <= k < t.len() && t[k] == b;
            assert(front[k + 1] == b);
        }
        lemma_line_end(t, rest);
        assert(all[0] == front[0]);
        assert(all.skip(1) =~= t + seq![10u8] + rest);
    } else {
        assert(all[0] == 10);
    }
}

// ---------------------------------------------------------------------------
// What answers come to
// ---------------------------------------------------------------------------

/// The codes from 200 to 299 mean success, and no other.
pub proof fn these_codes_mean_success(code: u16)
    ensures
        drive::is_success(code) <==> code / 100 == 2,
{
}

/// An exchange gives the refresh token of a success; nothing else does.
pub proof fn an_exchange_gives_the_refresh_token(sent: Sent<TokenResponse>)
    ensures
        match sent {
            Err(e) => drive::exchanged(sent) == Err::<Seq<char>, Seq<char>>(e@),
            Ok(res) => if res.code / 100 != 2 {
                drive::exchanged(sent) == Err::<Seq<char>, Seq<char>>(
                    "Token exchange failed: "@ + res.text@,
                )
            } else {
                match res.body {
                    Err(e) => drive::exchanged(sent) == Err::<Seq<char>, Seq<char>>(e@),
                    Ok(t) => match t.refresh_token {
                        Some(token) => drive::exchanged(sent) == Ok::<Seq<char>, Seq<char>>(token@),
                        None => drive::exchanged(sent) is Err,
                    },
                }
            },
        },
{
}

/// A refresh gives the access token of a success; nothing else does.
pub proof fn a_refresh_gives_the_access_token(sent: Sent<TokenResponse>)
    ensures
        match sent {
            Err(e) => drive::refreshed(sent) == Err::<Seq<char>, Seq<char>>(e@),
            Ok(res) => if res.code / 100 != 2 {
                drive::refreshed(sent) == Err::<Seq<char>, Seq<char>>(
                    "Failed to refresh access token: "@ + res.status@,
                )
            } else {
                match res.body {
                    Err(e) => drive::refreshed(sent) == Err::<Seq<char>, Seq<char>>(e@),
                    Ok(t) => drive::refreshed(sent) == Ok::<Seq<char>, Seq<char>>(t.access_token@),
                }
            },
        },
{
}

/// The first folder that is listed is the app folder; where none is listed there
/// is none.
pub proof fn the_first_folder_is_taken(sent: Sent<Vec<DriveFile>>)
    ensures
        match sent {
            Err(e) => drive::folder_found(sent) == Err::<Option<Seq<char>>, Seq<char>>(e@),
            Ok(res) => if res.code / 100 != 2 {
                drive::folder_found(sent) == Err::<Option<Seq<char>>, Seq<char>>(
                    "Drive API error (get_or_create_app_folder) "@ + res.status@ + ": "@ + res.text@,
                )
            } else {
                match res.body {
                    Err(e) => drive::folder_found(sent) == Err::<Option<Seq<char>>, Seq<char>>(e@),
                    Ok(files) => drive::folder_found(sent) == Ok::<Option<Seq<char>>, Seq<char>>(
                        if files@.len() > 0 {
                            Some(files@[0].id@)
                        } else {
                            None
                        },
                    ),
                }
            },
        },
{
}

/// A folder that was made has the id that the answer tells.
pub proof fn a_folder_that_was_made_has_its_id(sent: Sent<DriveFile>)
    ensures
        match sent {
            Err(e) => drive::folder_made(sent) == Err::<Seq<char>, Seq<char>>(e@),
            Ok(res) => if res.code / 100 != 2 {
                drive::folder_made(sent) == Err::<Seq<char>, Seq<char>>(
                    "Failed to create aanote folder: "@ + res.status@,
                )
            } else {
                match res.body {
                    Err(e) => drive::folder_made(sent) == Err::<Seq<char>, Seq<char>>(e@),
                    Ok(file) => drive::folder_made(sent) == Ok::<Seq<char>, Seq<char>>(file.id@),
                }
            },
        },
{
}

/// A page has the files that the answer tells, each as it is, and the token of
/// the next.
pub proof fn a_page_has_its_files(sent: Sent<DriveFileList>)
    ensures
        match sent {
            Err(e) => drive::page_view(sent) == Err::<PageView, Seq<char>>(e@),
            Ok(res) => if res.code / 100 != 2 {
                drive::page_view(sent) == Err::<PageView, Seq<char>>(
                    "Drive API error (list_drive_files) "@ + res.status@ + ": "@ + res.text@,
                )
            } else {
                match res.body {
                    Err(e) => drive::page_view(sent) == Err::<PageView, Seq<char>>(e@),
                    Ok(page) => drive::page_view(sent) matches Ok(p) && p.files.len()
                        == page.files@.len() && (forall|i: int|
                        0 <= i < p.files.len() ==> #[trigger] p.files[i] == page.files@[i]@)
                        && p.next == text::opt_text(page.next_page_token),
                }
            },
        },
{
}

/// The next page is asked for by its token, with what was listed so far kept in
/// order; a page without a token completes the listing, and a failure ends it.
pub proof fn a_listing_goes_on_by_the_token(
    so_far: Seq<remote::FileView>,
    token: Option<Seq<char>>,
    files: Seq<remote::FileView>,
    t: Seq<char>,
    e: Seq<char>,
)
    ensures
        (ListingView::Asking { so_far, token }).after(Ok(PageView { files, next: Some(t) })) == (
        ListingView::Asking { so_far: so_far + files, token: Some(t) }),
        (ListingView::Asking { so_far, token }).after(Ok(PageView { files, next: None })) == (
        ListingView::Complete { files: so_far + files }),
        (ListingView::Asking { so_far, token }).after(Err(e)) == (ListingView::Failed { error: e }),
{
}

/// What a refused transfer is reported as.
pub proof fn a_refused_transfer_names_the_note(
    front: Seq<char>,
    rel: Seq<char>,
    status: Seq<char>,
    said: Seq<char>,
)
    ensures
        drive::transfer_refusal(front, rel, status, said) == front + rel + ": "@ + status + " "@
            + said,
{
}

/// A time that Drive tells is what it reads as, in milliseconds; one that is
/// missing or cannot be read is 0.
pub proof fn a_time_is_what_it_reads_as(t: Seq<char>)
    ensures
        remote::time_ms(None) == 0,
        clock::rfc3339_ms(t) is None ==> remote::time_ms(Some(t)) == 0,
        clock::rfc3339_ms(t) matches Some(ms) ==> (ms >= 0 ==> remote::time_ms(Some(t)) == ms),
        clock::rfc3339_ms(t) matches Some(ms) ==> (ms < 0 ==> remote::time_ms(Some(t)) == ms
            + 0x1_0000_0000_0000_0000),
{
}

/// A folder is told by its type.
pub proof fn a_folder_is_told_by_its_type(f: remote::FileView)
    ensures
        f.is_folder() <==> f.mime_type == Some("application/vnd.google-apps.folder"@),
{
}

// ---------------------------------------------------------------------------
// Connecting
// ---------------------------------------------------------------------------

/// Where every step succeeds, connecting asks for a token with what is stored,
/// looks for the app folder, makes it where there is none, and lists it from the
/// first page on.
pub proof fn connecting_goes_well(
    i: Seq<char>,
    s: Seq<char>,
    t: Seq<char>,
    token: Seq<char>,
    folder: Seq<char>,
)
    ensures
        ({
            let a = session::connect_begun();
            let b = a.after(
                ConnectReplyView::Credentials {
                    client_id: Some(i),
                    client_secret: Some(s),
                    refresh_token: Some(t),
                },
            );
            let c = b.after(ConnectReplyView::Token(Ok(token)));
            let d = c.after(ConnectReplyView::Folders(Ok(Some(folder))));
            let n = c.after(ConnectReplyView::Folders(Ok(None)));
            let e = n.after(ConnectReplyView::Folder(Ok(folder)));
            &&& a.pending() == ConnectStepView::LoadCredentials
            &&& b.pending() == (ConnectStepView::Refresh {
                form: login::stored_form(Some(i), Some(s), Some(t))->Ok_0,
            })
            &&& c.pending() == ConnectStepView::FindFolder
            &&& d.pending() == (ConnectStepView::ListPage { folder, page: None })
            &&& d.token == token && d.folder == folder
            &&& n.pending() == ConnectStepView::CreateFolder
            &&& e == d
        }),
{
}

/// While connecting lists the app folder, it asks for the page that comes next,
/// and ends with the files, or with what failed.
pub proof fn connecting_lists_page_after_page(
    c: ConnectView,
    so_far: Seq<remote::FileView>,
    token: Option<Seq<char>>,
    files: Seq<remote::FileView>,
    t: Seq<char>,
    e: Seq<char>,
)
    requires
        c.stage == session::ConnectStageView::Listing(ListingView::Asking { so_far, token }),
    ensures
        c.pending() == (ConnectStepView::ListPage { folder: c.folder, page: token }),
        ({
            let d = c.after(ConnectReplyView::Page(Ok(PageView { files, next: Some(t) })));
            &&& d.pending() == (ConnectStepView::ListPage { folder: c.folder, page: Some(t) })
            &&& d.token == c.token
            &&& d.stage == session::ConnectStageView::Listing(
                ListingView::Asking { so_far: so_far + files, token: Some(t) },
            )
        }),
        ({
            let d = c.after(ConnectReplyView::Page(Ok(PageView { files, next: None })));
            &&& d.pending() == (ConnectStepView::Finish { failure: None })
            &&& d.token == c.token && d.folder == c.folder
            &&& d.stage == session::ConnectStageView::Listing(
                ListingView::Complete { files: so_far + files },
            )
        }),
        c.after(ConnectReplyView::Page(Err(e))).pending() == (ConnectStepView::Finish {
            failure: Some(e),
        }),
{
}

/// Connecting that fails reports why.
pub proof fn a_failed_connection_is_reported(c: ConnectView, e: Seq<char>)
    ensures
        c.stage is Token ==> c.after(ConnectReplyView::Token(Err(e))).pending() == (
        ConnectStepView::Finish { failure: Some(e) }),
        c.stage is Folders ==> c.after(ConnectReplyView::Folders(Err(e))).pending() == (
        ConnectStepView::Finish { failure: Some(e) }),
        c.stage is NewFolder ==> c.after(ConnectReplyView::Folder(Err(e))).pending() == (
        ConnectStepView::Finish { failure: Some(e) }),
{
}

// ---------------------------------------------------------------------------
// Resetting
// ---------------------------------------------------------------------------

/// A reset deletes the index where there is one, connects, and deletes every
/// file that is listed; it reports how many it deleted.
pub proof fn a_reset_goes_from_the_index_to_the_files(
    root: Seq<char>,
    ids: Seq<Seq<char>>,
    outcomes: Seq<Result<(), Seq<char>>>,
    cause: Seq<char>,
)
    requires
        outcomes.len() == ids.len(),
    ensures
        ({
            let index = paths::joined(root, ".sync.json"@);
            let ok = ResetReplyView::Outcome(Ok(()));
            let a = reset::reset_begun(root);
            let b = a.after(ResetReplyView::Exists(true));
            let c = b.after(ok);
            let d = c.after(ResetReplyView::Connected(Ok(ids)));
            &&& a.pending() == (ResetStepView::Probe { path: index })
            &&& b.pending() == (ResetStepView::RemoveIndex { path: index })
            &&& c.pending() == ResetStepView::Connect
            &&& a.after(ResetReplyView::Exists(false)) == c
            &&& forall|k: int|
                0 <= k < ids.len() ==> reset::after_all(d, #[trigger] outcomes.take(k)).pending()
                    == (ResetStepView::Delete { id: ids[k] })
            &&& reset::after_all(d, outcomes).pending() == (ResetStepView::Finish {
                outcome: Ok(
                    "Reset sync: deleted local index and "@ + text::decimal(
                        outcomes.filter(|r: Result<(), Seq<char>>| r is Ok).len(),
                    ) + " remote files"@,
                ),
            })
            &&& b.after(ResetReplyView::Outcome(Err(cause))).pending() == (ResetStepView::Finish {
                outcome: Err(cause),
            })
            &&& c.after(ResetReplyView::Connected(Err(cause))).pending() == (
            ResetStepView::Finish { outcome: Err(cause) })
        }),
{
    let c = reset::reset_begun(root).after(ResetReplyView::Exists(true)).after(
        ResetReplyView::Outcome(Ok(())),
    );
    let d = c.after(ResetReplyView::Connected(Ok(ids)));
    assert forall|k: int| 0 <= k < ids.len() implies reset::after_all(
        d,
        #[trigger] outcomes.take(k),
    ).pending() == (ResetStepView::Delete { id: ids[k] }) by {
        reset::every_file_is_deleted(d, ids, outcomes.take(k));
    }
    reset::every_file_is_deleted(d, ids, outcomes);
    lemma_deleted(outcomes);
}

proof fn lemma_deleted(outcomes: Seq<Result<(), Seq<char>>>)
    ensures
        reset::deleted_count(outcomes) == outcomes.filter(
            |r: Result<(), Seq<char>>| r is Ok,
        ).len(),
    decreases outcomes.len(),
{
    reveal(Seq::filter);
    if outcomes.len() > 0 {
        lemma_deleted(outcomes.drop_last());
    }
}

/// A request without parameters is not understood.
pub proof fn a_request_without_parameters_is_not_understood(
    method: Seq<char>,
    path: Seq<char>,
    version: Seq<char>,
    more: Seq<char>,
)
    requires
        is_one_word(method),
        is_one_word(path),
        is_one_word(version),
        !path.contains('?'),
    ensures
        login::query_of(
            method + seq![' '] + path + seq![' '] + version + seq!['\r', '\n'] + more,
        ).len() == 0,
{
    let line = method + seq![' '] + path + seq![' '] + version;
    lemma_no_break(method, path, version);
    search_laws::the_first_line_ends_before_the_break(line, more);
    assert(line =~= method + seq![' '] + (path + seq![' '] + version));
    white_space_ends_a_word(method, ' ', path + seq![' '] + version);
    white_space_ends_a_word(path, ' ', version);
    a_word_is_one_word(method);
    a_word_is_one_word(path);
    a_word_is_one_word(version);
    assert(login::words(line) == seq![method] + (seq![path] + seq![version]));
    assert(login::words(line)[1] == path);
    a_piece_is_one_piece(path, '?');
}

proof fn lemma_no_break(method: Seq<char>, address: Seq<char>, version: Seq<char>)
    requires
        is_one_word(method),
        is_one_word(address),
        is_one_word(version),
    ensures
        !(method + seq![' '] + address + seq![' '] + version).contains('\n'),
{
    let line = method + seq![' '] + address + seq![' '] + version;
    if line.contains('\n') {
        let k = choose|k: int| 0 <= k < line.len() && line[k] == '\n';
        let m = method.len() as int;
        let n = address.len() as int;
        if k < m {
            assert(method[k] == '\n');
        } else if k == m {
        } else if k < m + 1 + n {
            assert(address[k - m - 1] == '\n');
        } else if k == m + 1 + n {
        } else {
            assert(version[k - m - n - 2] == '\n');
        }
    }
}

/// The parameters end before a second question mark, and the line before a line
/// break of one character, or with the request.
pub proof fn the_parameters_end_where_they_end(
    method: Seq<char>,
    path: Seq<char>,
    query: Seq<char>,
    further: Seq<char>,
    version: Seq<char>,
    more: Seq<char>,
)
    requires
        is_one_word(method),
        is_one_word(path + seq!['?'] + query + seq!['?'] + further),
        is_one_word(path + seq!['?'] + query),
        is_one_word(version),
        !path.contains('?'),
        !query.contains('?'),
    ensures
        ({
            let short = method + seq![' '] + (path + seq!['?'] + query) + seq![' '] + version;
            let long = method + seq![' '] + (path + seq!['?'] + query + seq!['?'] + further) + seq![
                ' ',
            ] + version;
            &&& login::query_of(short) == query
            &&& login::query_of(short + seq!['\n'] + more) == query
            &&& login::query_of(long) == query
        }),
{
    let address = path + seq!['?'] + query;
    let whole = address + seq!['?'] + further;
    let short = method + seq![' '] + address + seq![' '] + version;
    let long = method + seq![' '] + whole + seq![' '] + version;
    lemma_no_break(method, address, version);
    lemma_no_break(method, whole, version);
    assert(short.last() == version.last());
    assert(!text::is_space(version[version.len() - 1]));
    search_laws::the_first_line_ends_before_the_break(short, more);
    search_laws::the_first_line_ends_before_the_break(long, more);
    assert(short =~= method + seq![' '] + (address + seq![' '] + version));
    assert(long =~= method + seq![' '] + (whole + seq![' '] + version));
    white_space_ends_a_word(method, ' ', address + seq![' '] + version);
    white_space_ends_a_word(method, ' ', whole + seq![' '] + version);
    white_space_ends_a_word(address, ' ', version);
    white_space_ends_a_word(whole, ' ', version);
    a_word_is_one_word(method);
    a_word_is_one_word(address);
    a_word_is_one_word(whole);
    a_word_is_one_word(version);
    assert(login::words(short) == seq![method] + (seq![address] + seq![version]));
    assert(login::words(long) == seq![method] + (seq![whole] + seq![version]));
    assert(login::words(short)[1] == address);
    assert(login::words(long)[1] == whole);
    a_separator_ends_a_piece(path, '?', query);
    a_separator_ends_a_piece(address, '?', further);
    a_piece_is_one_piece(path, '?');
    a_piece_is_one_piece(query, '?');
    assert(login::split(address, '?') == seq![path] + seq![query]);
    assert(login::split(address, '?')[1] == query);
    assert(login::split(whole, '?')[1] == query);
}

/// Whatever is asked may be answered by what it asks for.
pub proof fn every_reply_that_answers_is_taken(
    l: session::LoginView,
    c: ConnectView,
    r: reset::ResetView,
    port: u16,
    bytes: Seq<u8>,
    cause: Seq<char>,
    o: Result<(), Seq<char>>,
    t: Result<Seq<char>, Seq<char>>,
    b: bool,
    ids: Result<Seq<Seq<char>>, Seq<char>>,
    found: Result<Option<Seq<char>>, Seq<char>>,
    page: Result<PageView, Seq<char>>,
    i: Option<Seq<char>>,
    s: Option<Seq<char>>,
    k: Option<Seq<char>>,
)
    ensures
        l.pending() is Listen ==> l.accepts(LoginReplyView::Listening { port }) && l.accepts(
            LoginReplyView::Failed { cause },
        ),
        l.pending() is Open || l.pending() is Respond ==> l.accepts(LoginReplyView::Done),
        l.pending() is Accept ==> l.accepts(LoginReplyView::Came) && l.accepts(
            LoginReplyView::TimedOut,
        ) && l.accepts(LoginReplyView::Broken { cause }) && l.accepts(
            LoginReplyView::WaitFailed { cause },
        ),
        l.pending() is Read ==> l.accepts(LoginReplyView::Read { bytes }) && l.accepts(
            LoginReplyView::ReadAll,
        ) && l.accepts(LoginReplyView::ReadFailed { cause }),
        l.pending() is Exchange ==> l.accepts(LoginReplyView::Exchanged(t)),
        l.pending() is Store ==> l.accepts(LoginReplyView::Done) && l.accepts(
            LoginReplyView::Failed { cause },
        ),
        c.pending() is LoadCredentials ==> c.accepts(
            ConnectReplyView::Credentials { client_id: i, client_secret: s, refresh_token: k },
        ),
        c.pending() is Refresh ==> c.accepts(ConnectReplyView::Token(t)),
        c.pending() is FindFolder ==> c.accepts(ConnectReplyView::Folders(found)),
        c.pending() is CreateFolder ==> c.accepts(ConnectReplyView::Folder(t)),
        c.pending() is ListPage ==> c.accepts(ConnectReplyView::Page(page)),
        r.pending() is Probe ==> r.accepts(ResetReplyView::Exists(b)),
        r.pending() is RemoveIndex || r.pending() is Delete ==> r.accepts(
            ResetReplyView::Outcome(o),
        ),
        r.pending() is Connect ==> r.accepts(ResetReplyView::Connected(ids)),
{
}

/// Where nothing more is read, the code of what came is exchanged.
pub proof fn the_code_of_what_came_is_exchanged(s: session::LoginView, code: Seq<char>)
    requires
        s.stage is Reading,
        login::answer_of(login::params_of(login::request_line(s.request))) == Ok::<
            Seq<char>,
            Seq<char>,
        >(code),
    ensures
        s.after(LoginReplyView::ReadAll).pending() == (LoginStepView::Exchange {
            form: login::code_form(code, s.client_id, s.client_secret, s.redirect),
        }),
{
}

/// What is asked of Google goes to these addresses, asks for these fields, and is
/// stored under this name.
pub proof fn these_are_the_addresses()
    ensures
        drive::TOKEN_URL@ == "https://oauth2.googleapis.com/token"@,
        drive::FILES_URL@ == "https://www.googleapis.com/drive/v3/files"@,
        drive::UPLOAD_URL@
            == "https://www.googleapis.com/upload/drive/v3/files?uploadType=multipart&fields=id,modifiedTime"@,
        drive::FOLDER_QUERY@
            == "name = 'aanote' and mimeType = 'application/vnd.google-apps.folder' and trashed = false"@,
        drive::FILE_FIELDS@ == "nextPageToken, files(id, name, modifiedTime, mimeType)"@,
        remote::FOLDER_TYPE@ == "application/vnd.google-apps.folder"@,
        session::SERVICE_NAME@ == "aanote-gdrive"@,
        session::KEY_CLIENT_ID@ == "client_id"@,
        session::KEY_CLIENT_SECRET@ == "client_secret"@,
        session::KEY_REFRESH_TOKEN@ == "refresh_token"@,
{
}

} // verus!
