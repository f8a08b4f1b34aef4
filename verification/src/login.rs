//! Connecting to Google Drive: the addresses that are opened, the redirect that
//! comes back, and the tokens.

use crate::bytes;
use crate::notes;
use crate::search;
use crate::search::line_of;
use crate::sort;
use crate::text;
use crate::text::{chars_of, decimal_text, join2, join3, same_text, text_range, white_space};
use crate::url;
use crate::url::{read_lossy, url_decode};
use vstd::prelude::*;
use vstd::utf8::*;

verus! {

// ---------------------------------------------------------------------------
// Addresses
// ---------------------------------------------------------------------------

/// Where the browser is sent back to.
pub open spec fn local_address(port: u16) -> Seq<char> {
    "http://localhost:"@ + text::decimal(port as nat)
}

/// Where the user is asked for consent.
pub open spec fn consent_url(client_id: Seq<char>, redirect: Seq<char>) -> Seq<char> {
    "https://accounts.google.com/o/oauth2/v2/auth?client_id="@ + client_id + "&redirect_uri="@
        + redirect
        + "&response_type=code&scope=https://www.googleapis.com/auth/drive.file&access_type=offline&prompt=consent"@
}

/// Where the browser is sent back to.
pub fn redirect_uri(port: u16) -> (r: String)
    ensures
        r@ == local_address(port),
{
    join2("http://localhost:", decimal_text(port as u64).as_str())
}

/// Where the user is asked for consent.
pub fn auth_url(client_id: &str, redirect: &str) -> (r: String)
    ensures
        r@ == consent_url(client_id@, redirect@),
{
    let mut s = join3(
        "https://accounts.google.com/o/oauth2/v2/auth?client_id=",
        client_id,
        "&redirect_uri=",
    );
    s.append(redirect);
    s.append(
        "&response_type=code&scope=https://www.googleapis.com/auth/drive.file&access_type=offline&prompt=consent",
    );
    s
}

// ---------------------------------------------------------------------------
// The redirect
// ---------------------------------------------------------------------------

/// Where the first line of a request ends, behind its line break; its end where
/// there is none.
pub open spec fn line_end(request: Seq<u8>) -> int
    decreases request.len(),
{
    if request.len() == 0 {
        0
    } else if request[0] == 10 {
        1
    } else {
        1 + line_end(request.skip(1))
    }
}

/// The first line of a request has come to its end.
pub open spec fn has_line(request: Seq<u8>) -> bool {
    request.contains(10)
}

/// The first line of a request as text.
pub open spec fn request_line(request: Seq<u8>) -> Seq<char> {
    url::text_of(request.take(line_end(request)))
}

proof fn lemma_line_end(request: Seq<u8>)
    ensures
        0 <= line_end(request) <= request.len(),
    decreases request.len(),
{
    if request.len() > 0 && request[0] != 10 {
        lemma_line_end(request.skip(1));
    }
}

/// What comes behind the first line does not change it.
pub proof fn the_first_line_stays(request: Seq<u8>, more: Seq<u8>)
    requires
        has_line(request),
    ensures
        has_line(request + more),
        line_end(request + more) == line_end(request),
        request_line(request + more) == request_line(request),
    decreases request.len(),
{
    let all = request + more;
    let k = choose|k: int| 0 <= k < request.len() && request[k] == 10;
    assert(all[k] == 10);
    lemma_line_end(request);
    if request[0] != 10 {
        assert(request.skip(1)[k - 1] == 10);
        assert(all.skip(1) =~= request.skip(1) + more);
        the_first_line_stays(request.skip(1), more);
    }
    assert(all.take(line_end(request)) =~= request.take(line_end(request)));
}

proof fn lemma_line_end_at(front: Seq<u8>, rest: Seq<u8>)
    requires
        !front.contains(10),
    ensures
        line_end(front + seq![10u8] + rest) == front.len() + 1,
    decreases front.len(),
{
    let all = front + seq![10u8] + rest;
    if front.len() > 0 {
        let t = front.skip(1);
        assert(front.contains(front[0]));
        assert forall|b: u8| t.contains(b) implies front.contains(b) by {
            let k = choose|k: int| 0 <= k < t.len() && t[k] == b;
            assert(front[k + 1] == b);
        }
        lemma_line_end_at(t, rest);
        assert(all[0] == front[0]);
        assert(all.skip(1) =~= t + seq![10u8] + rest);
    } else {
        assert(all[0] == 10);
    }
}

/// Of a text that is received, the first line is read as it was sent.
pub proof fn the_first_line_is_read_as_sent(line: Seq<char>, rest: Seq<char>)
    requires
        !line.contains('\n'),
    ensures
        has_line(encode_utf8(line + seq!['\n'] + rest)),
        request_line(encode_utf8(line + seq!['\n'] + rest)) == line.push('\n'),
{
    let front = encode_utf8(line);
    let back = encode_utf8(rest);
    let all = encode_utf8(line + seq!['\n'] + rest);
    let sent = line.push('\n');
    bytes::absent_ascii_is_no_byte(line, '\n');
    bytes::encode_concat(line, seq!['\n'] + rest);
    bytes::encode_concat(line, seq!['\n']);
    bytes::ascii_is_one_byte('\n', rest);
    bytes::ascii_is_one_byte('\n', Seq::empty());
    assert(seq!['\n'] + Seq::<char>::empty() =~= seq!['\n']);
    assert(line + seq!['\n'] + rest =~= line + (seq!['\n'] + rest));
    assert(encode_utf8(seq!['\n']) =~= seq![10u8]);
    assert(all =~= front + seq![10u8] + back);
    assert(all[front.len() as int] == 10);
    lemma_line_end_at(front, back);
    assert(line + seq!['\n'] =~= sent);
    assert(all.take((front.len() + 1) as int) =~= encode_utf8(sent));
    encode_utf8_valid_utf8(sent);
    encode_utf8_decode_utf8(sent);
}

/// Where the first line of a request ends, and whether it has come to its end.
fn find_line(request: &Vec<u8>) -> (r: (usize, bool))
    ensures
        r.0 == line_end(request@),
        r.0 <= request@.len(),
        r.1 == has_line(request@),
{
    let mut i: usize = 0;
    assert(request@.skip(0) =~= request@);
    while i < request.len()
        invariant
            i <= request@.len(),
            line_end(request@) == i + line_end(request@.skip(i as int)),
            forall|j: int| 0 <= j < i ==> request@[j] != 10,
        decreases request@.len() - i,
    {
        assert(request@.skip(i as int).skip(1) =~= request@.skip(i + 1));
        if request[i] == 10 {
            assert(request@.contains(10)) by {
                assert(request@[i as int] == 10);
            }
            return (i + 1, true);
        }
        i += 1;
    }
    assert(!request@.contains(10));
    (i, false)
}

/// Whether the first line of the request, as far as it was received, has come to
/// its end.
pub fn is_enough(request: &Vec<u8>) -> (r: bool)
    ensures
        r == has_line(request@),
{
    find_line(request).1
}

/// The first line of a request as text.
pub fn line_text(request: &Vec<u8>) -> (r: String)
    ensures
        r@ == request_line(request@),
{
    let (n, _) = find_line(request);
    let mut line: Vec<u8> = Vec::new();
    let mut i: usize = 0;
    while i < n
        invariant
            i <= n <= request@.len(),
            line@ == request@.take(i as int),
        decreases n - i,
    {
        line.push(request[i]);
        assert(line@ =~= request@.take(i + 1));
        i += 1;
    }
    read_lossy(line.as_slice())
}

/// What came of reading from the browser.
pub enum Read {
    /// There is nothing more.
    End,
    Bytes(Vec<u8>),
    /// Nothing came in time.
    TimedOut,
    Failed { cause: String },
}

/// Takes what was read into the request; whether that is enough. It is where the
/// first line is whole, or nothing more comes.
pub fn receive(request: &mut Vec<u8>, read: &Read) -> (r: Result<bool, String>)
    ensures
        match (read, r) {
            (Read::End, Ok(enough)) => enough && final(request)@ == old(request)@,
            (Read::Bytes(b), Ok(enough)) => final(request)@ == old(request)@ + b@ && enough
                == has_line(final(request)@),
            (Read::TimedOut, Ok(enough)) => enough && final(request)@ == old(request)@,
            (Read::Failed { cause }, Err(e)) => e@ == "Failed to read redirect: "@ + cause@
                && final(request)@ == old(request)@,
            _ => false,
        },
{
    match read {
        Read::End => Ok(true),
        Read::Bytes(b) => {
            let ghost before = request@;
            let mut i: usize = 0;
            while i < b.len()
                invariant
                    i <= b@.len(),
                    request@ == before + b@.take(i as int),
                decreases b@.len() - i,
            {
                request.push(b[i]);
                assert(request@ =~= before + b@.take(i + 1));
                i += 1;
            }
            assert(b@.take(i as int) =~= b@);
            Ok(is_enough(request))
        },
        Read::TimedOut => Ok(true),
        Read::Failed { cause } => Err(join2("Failed to read redirect: ", cause.as_str())),
    }
}

/// The pieces of `s` between the characters `c`.
pub open spec fn split(s: Seq<char>, c: char) -> Seq<Seq<char>>
    decreases s.len(),
{
    if s.len() == 0 {
        seq![s]
    } else {
        let before = split(s.drop_last(), c);
        if s.last() == c {
            before.push(Seq::empty())
        } else {
            before.update(before.len() - 1, before.last().push(s.last()))
        }
    }
}

/// The words of `s`, between white space.
pub open spec fn words(s: Seq<char>) -> Seq<Seq<char>>
    decreases s.len(),
{
    if s.len() == 0 {
        Seq::empty()
    } else {
        let front = s.drop_last();
        let before = words(front);
        if text::is_space(s.last()) {
            before
        } else if front.len() == 0 || text::is_space(front.last()) {
            before.push(seq![s.last()])
        } else {
            before.update(before.len() - 1, before.last().push(s.last()))
        }
    }
}

/// Piece number `n`, or nothing where there are fewer.
pub open spec fn piece(s: Seq<Seq<char>>, n: int) -> Seq<char> {
    if 0 <= n < s.len() {
        s[n]
    } else {
        Seq::empty()
    }
}

/// The parameters in the first line of a request: what stands in its second
/// word behind the first question mark.
pub open spec fn query_of(request: Seq<char>) -> Seq<char> {
    piece(split(piece(words(search::first_line(request)), 1), '?'), 1)
}

/// What stands before the first `c`.
pub open spec fn before_first(s: Seq<char>, c: char) -> Seq<char>
    decreases s.len(),
{
    if s.len() == 0 || s[0] == c {
        Seq::empty()
    } else {
        seq![s[0]] + before_first(s.skip(1), c)
    }
}

/// What stands behind the first `c`; nothing where there is none.
pub open spec fn after_first(s: Seq<char>, c: char) -> Seq<char> {
    let n = before_first(s, c).len() as int;
    if n < s.len() {
        s.skip(n + 1)
    } else {
        Seq::empty()
    }
}

/// The name and the value of a parameter, as they stand in the address.
pub open spec fn raw_param(pair: Seq<char>) -> (Seq<char>, Seq<char>) {
    (before_first(pair, '='), after_first(pair, '='))
}

/// The name and the value of a parameter.
pub open spec fn param(pair: Seq<char>) -> (Seq<char>, Seq<char>) {
    (url::url_text(raw_param(pair).0), url::url_text(raw_param(pair).1))
}

/// The parameters of a request.
pub open spec fn params_of(request: Seq<char>) -> Seq<(Seq<char>, Seq<char>)> {
    split(query_of(request), '&').map_values(|p: Seq<char>| param(p))
}

/// The contents of a list of parameters.
pub open spec fn param_views(v: Seq<(String, String)>) -> Seq<(Seq<char>, Seq<char>)> {
    v.map_values(|p: (String, String)| (p.0@, p.1@))
}

/// The last value, among the first `n` parameters, that was given for `key`.
pub open spec fn last_value(
    params: Seq<(Seq<char>, Seq<char>)>,
    key: Seq<char>,
    n: int,
) -> Option<Seq<char>>
    decreases n,
{
    if n <= 0 {
        None
    } else if params[n - 1].0 == key {
        Some(params[n - 1].1)
    } else {
        last_value(params, key, n - 1)
    }
}

/// What the parameters of the redirect say: the code for a token, unless the
/// user refused.
pub open spec fn answer_of(params: Seq<(Seq<char>, Seq<char>)>) -> Result<Seq<char>, Seq<char>> {
    let n = params.len() as int;
    match (last_value(params, "error"@, n), last_value(params, "code"@, n)) {
        (Some(e), _) => Err("Authorization denied: "@ + e),
        (None, Some(c)) => Ok(c),
        (None, None) => Err("Failed to parse auth code from redirect URL"@),
    }
}

fn find_param(params: &Vec<(String, String)>, key: &str) -> (r: Option<String>)
    ensures
        text::opt_text(r) == last_value(param_views(params@), key@, params@.len() as int),
{
    let ghost all = param_views(params@);
    let mut n: usize = params.len();
    while n > 0
        invariant
            n <= params@.len(),
            all == param_views(params@),
            last_value(all, key@, n as int) == last_value(all, key@, params@.len() as int),
        decreases n,
    {
        assert(all[n - 1] == (params@[n - 1].0@, params@[n - 1].1@));
        if same_text(params[n - 1].0.as_str(), key) {
            return Some(params[n - 1].1.clone());
        }
        n -= 1;
    }
    None
}

/// What the parameters of the redirect say.
pub fn auth_code(params: &Vec<(String, String)>) -> (r: Result<String, String>)
    ensures
        notes::text_view(r) == answer_of(param_views(params@)),
{
    match find_param(params, "error") {
        Some(e) => Err(join2("Authorization denied: ", e.as_str())),
        None => match find_param(params, "code") {
            Some(c) => Ok(c),
            None => Err("Failed to parse auth code from redirect URL".to_owned()),
        },
    }
}

proof fn lemma_words_len(s: Seq<char>)
    ensures
        s.len() > 0 && !text::is_space(s.last()) ==> words(s).len() >= 1,
    decreases s.len(),
{
    if s.len() > 0 {
        lemma_words_len(s.drop_last());
    }
}

/// The pieces of `s` between the characters `c`.
pub fn pieces(s: &str, c: char) -> (r: Vec<String>)
    ensures
        sort::views(r@) == split(s@, c),
{
    let v = chars_of(s);
    let mut out: Vec<String> = Vec::new();
    let mut last = String::new();
    let mut i: usize = 0;
    assert(v@.take(0) =~= Seq::empty());
    assert(last@ =~= Seq::empty());
    assert(sort::views(out@).push(last@) =~= split(v@.take(0), c));
    while i < v.len()
        invariant
            i <= v@.len(),
            v@ == s@,
            sort::views(out@).push(last@) == split(v@.take(i as int), c),
        decreases v@.len() - i,
    {
        let ghost t = v@.take(i + 1);
        let ghost whole = sort::views(out@).push(last@);
        assert(t.drop_last() =~= v@.take(i as int));
        if v[i] == c {
            let ghost before = out@;
            out.push(last);
            last = String::new();
            assert(last@ =~= Seq::empty());
            assert(sort::views(out@) =~= whole);
        } else {
            last.push(v[i]);
            assert(sort::views(out@).push(last@) =~= whole.update(
                whole.len() - 1,
                whole.last().push(v@[i as int]),
            ));
        }
        i += 1;
    }
    assert(v@.take(i as int) =~= s@);
    let ghost before = out@;
    out.push(last);
    assert(sort::views(out@) =~= sort::views(before).push(last@));
    out
}

/// The words of `s`, between white space.
pub fn words_of(s: &str) -> (r: Vec<String>)
    ensures
        sort::views(r@) == words(s@),
{
    let v = chars_of(s);
    let mut out: Vec<String> = Vec::new();
    let mut i: usize = 0;
    assert(sort::views(out@) =~= words(v@.take(0)));
    while i < v.len()
        invariant
            i <= v@.len(),
            v@ == s@,
            sort::views(out@) == words(v@.take(i as int)),
        decreases v@.len() - i,
    {
        let ghost t = v@.take(i + 1);
        let ghost whole = sort::views(out@);
        proof {
            assert(t.drop_last() =~= v@.take(i as int));
            lemma_words_len(v@.take(i as int));
        }
        if !white_space(v[i]) {
            if i == 0 || white_space(v[i - 1]) {
                let mut w = String::new();
                w.push(v[i]);
                assert(w@ =~= seq![v@[i as int]]);
                out.push(w);
                assert(sort::views(out@) =~= whole.push(w@));
            } else {
                match out.pop() {
                    Some(mut w) => {
                        w.push(v[i]);
                        out.push(w);
                        assert(sort::views(out@) =~= whole.update(
                            whole.len() - 1,
                            whole.last().push(v@[i as int]),
                        ));
                    },
                    None => {},
                }
            }
        }
        i += 1;
    }
    assert(v@.take(i as int) =~= s@);
    out
}

fn piece_of(v: &Vec<String>, n: usize) -> (r: String)
    ensures
        r@ == piece(sort::views(v@), n as int),
{
    if n < v.len() {
        v[n].clone()
    } else {
        let none = String::new();
        assert(none@ =~= Seq::empty());
        none
    }
}

fn split_param(pair: &str) -> (r: (String, String))
    ensures
        (r.0@, r.1@) == raw_param(pair@),
{
    let v = chars_of(pair);
    let mut k: usize = 0;
    assert(v@.skip(0) =~= v@);
    assert(v@.take(0) =~= Seq::empty());
    assert(v@.take(0) + before_first(v@, '=') =~= before_first(v@, '='));
    while k < v.len() && v[k] != '='
        invariant
            k <= v@.len(),
            before_first(v@, '=') == v@.take(k as int) + before_first(v@.skip(k as int), '='),
        decreases v@.len() - k,
    {
        proof {
            let rest = v@.skip(k as int);
            assert(rest.skip(1) =~= v@.skip(k + 1));
            assert(v@.take(k as int) + (seq![rest[0]] + before_first(rest.skip(1), '='))
                =~= v@.take(k + 1) + before_first(rest.skip(1), '='));
        }
        k += 1;
    }
    assert(before_first(v@.skip(k as int), '=') =~= Seq::empty());
    assert(before_first(v@, '=') =~= v@.take(k as int));
    assert(v@.subrange(0, k as int) =~= v@.take(k as int));
    let name = text_range(&v, 0, k);
    if k < v.len() {
        let value = text_range(&v, k + 1, v.len());
        assert(value@ =~= v@.skip(k + 1));
        (name, value)
    } else {
        let none = String::new();
        assert(none@ =~= Seq::empty());
        (name, none)
    }
}

/// The parameters in the first line of a request, as they stand in the
/// address.
pub fn raw_params(request: &str) -> (r: Vec<(String, String)>)
    ensures
        param_views(r@) == split(query_of(request@), '&').map_values(
            |p: Seq<char>| raw_param(p),
        ),
{
    let line = line_of(request);
    let path = piece_of(&words_of(line.as_str()), 1);
    let query = piece_of(&pieces(path.as_str(), '?'), 1);
    let pairs = pieces(query.as_str(), '&');
    let ghost all = sort::views(pairs@);
    let mut out: Vec<(String, String)> = Vec::new();
    let mut i: usize = 0;
    while i < pairs.len()
        invariant
            i <= pairs@.len(),
            all == sort::views(pairs@),
            out@.len() == i,
            forall|j: int|
                0 <= j < i ==> param_views(out@)[j] == raw_param(#[trigger] all[j]),
        decreases pairs@.len() - i,
    {
        assert(all[i as int] == pairs@[i as int]@);
        let ghost before = param_views(out@);
        out.push(split_param(pairs[i].as_str()));
        assert(forall|j: int| 0 <= j < i ==> param_views(out@)[j] == before[j]);
        i += 1;
    }
    assert(param_views(out@) =~= all.map_values(|p: Seq<char>| raw_param(p)));
    out
}

/// The parameters of a request.
pub fn redirect_params(request: &str) -> (r: Vec<(String, String)>)
    ensures
        param_views(r@) == params_of(request@),
{
    let raw = raw_params(request);
    let ghost all = param_views(raw@);
    let ghost pairs = split(query_of(request@), '&');
    let mut out: Vec<(String, String)> = Vec::new();
    let mut i: usize = 0;
    while i < raw.len()
        invariant
            i <= raw@.len(),
            all == param_views(raw@),
            all == pairs.map_values(|p: Seq<char>| raw_param(p)),
            out@.len() == i,
            forall|j: int|
                0 <= j < i ==> param_views(out@)[j] == (
                    url::url_text((#[trigger] all[j]).0),
                    url::url_text(all[j].1),
                ),
        decreases raw@.len() - i,
    {
        assert(all[i as int] == (raw@[i as int].0@, raw@[i as int].1@));
        let ghost before = param_views(out@);
        out.push((url_decode(raw[i].0.as_str()), url_decode(raw[i].1.as_str())));
        assert(forall|j: int| 0 <= j < i ==> param_views(out@)[j] == before[j]);
        i += 1;
    }
    proof {
        assert(all.len() == raw@.len());
        assert(param_views(out@).len() == pairs.len());
        assert forall|j: int| 0 <= j < pairs.len() implies param_views(out@)[j] == params_of(
            request@,
        )[j] by {
            assert(all[j] == raw_param(pairs[j]));
        }
        assert(param_views(out@) =~= params_of(request@));
    }
    out
}

/// What a redirect says: the code for a token, unless the user refused.
pub fn parse_redirect(request: &str) -> (r: Result<String, String>)
    ensures
        notes::text_view(r) == answer_of(params_of(request@)),
{
    auth_code(&redirect_params(request))
}

// ---------------------------------------------------------------------------
// Forms and credentials
// ---------------------------------------------------------------------------

/// The form that asks for tokens in exchange for a code.
pub open spec fn code_form(
    code: Seq<char>,
    client_id: Seq<char>,
    client_secret: Seq<char>,
    redirect: Seq<char>,
) -> Seq<(Seq<char>, Seq<char>)> {
    seq![
        ("code"@, code),
        ("client_id"@, client_id),
        ("client_secret"@, client_secret),
        ("redirect_uri"@, redirect),
        ("grant_type"@, "authorization_code"@),
    ]
}

/// The form that asks for a new access token, from what is stored.
pub open spec fn stored_form(
    client_id: Option<Seq<char>>,
    client_secret: Option<Seq<char>>,
    refresh_token: Option<Seq<char>>,
) -> Result<Seq<(Seq<char>, Seq<char>)>, Seq<char>> {
    match (client_id, client_secret, refresh_token) {
        (Some(i), Some(s), Some(t)) => Ok(
            seq![
                ("client_id"@, i),
                ("client_secret"@, s),
                ("refresh_token"@, t),
                ("grant_type"@, "refresh_token"@),
            ],
        ),
        (None, _, _) => Err("No Client ID stored"@),
        (Some(_), None, _) => Err("No Client Secret stored"@),
        (Some(_), Some(_), None) => Err("No Refresh Token stored"@),
    }
}

fn field(name: &str, value: &str) -> (r: (String, String))
    ensures
        (r.0@, r.1@) == (name@, value@),
{
    (name.to_owned(), value.to_owned())
}

/// The form that asks for tokens in exchange for a code.
pub fn exchange_form(code: &str, client_id: &str, client_secret: &str, redirect: &str) -> (r: Vec<
    (String, String),
>)
    ensures
        param_views(r@) == code_form(code@, client_id@, client_secret@, redirect@),
{
    let mut out: Vec<(String, String)> = Vec::new();
    out.push(field("code", code));
    out.push(field("client_id", client_id));
    out.push(field("client_secret", client_secret));
    out.push(field("redirect_uri", redirect));
    out.push(field("grant_type", "authorization_code"));
    assert(param_views(out@) =~= code_form(code@, client_id@, client_secret@, redirect@));
    out
}

/// The form that asks for a new access token, from what is stored.
pub fn refresh_form(
    client_id: &Option<String>,
    client_secret: &Option<String>,
    refresh_token: &Option<String>,
) -> (r: Result<Vec<(String, String)>, String>)
    ensures
        match r {
            Ok(form) => stored_form(
                text::opt_text(*client_id),
                text::opt_text(*client_secret),
                text::opt_text(*refresh_token),
            ) == Ok::<Seq<(Seq<char>, Seq<char>)>, Seq<char>>(param_views(form@)),
            Err(e) => stored_form(
                text::opt_text(*client_id),
                text::opt_text(*client_secret),
                text::opt_text(*refresh_token),
            ) == Err::<Seq<(Seq<char>, Seq<char>)>, Seq<char>>(e@),
        },
{
    match (client_id, client_secret, refresh_token) {
        (Some(i), Some(s), Some(t)) => {
            let mut out: Vec<(String, String)> = Vec::new();
            out.push(field("client_id", i.as_str()));
            out.push(field("client_secret", s.as_str()));
            out.push(field("refresh_token", t.as_str()));
            out.push(field("grant_type", "refresh_token"));
            assert(param_views(out@) =~= seq![
                ("client_id"@, i@),
                ("client_secret"@, s@),
                ("refresh_token"@, t@),
                ("grant_type"@, "refresh_token"@),
            ]);
            Ok(out)
        },
        (None, _, _) => Err("No Client ID stored".to_owned()),
        (Some(_), None, _) => Err("No Client Secret stored".to_owned()),
        (Some(_), Some(_), None) => Err("No Refresh Token stored".to_owned()),
    }
}

/// Whether Drive is connected: whether a refresh token is stored.
pub fn gdrive_status(refresh_token: &Option<String>) -> (r: Result<String, String>)
    ensures
        notes::text_view(r) == Ok::<Seq<char>, Seq<char>>(
            if refresh_token is Some {
                "connected"@
            } else {
                "disconnected"@
            },
        ),
{
    match refresh_token {
        Some(_) => Ok("connected".to_owned()),
        None => Ok("disconnected".to_owned()),
    }
}

// ---------------------------------------------------------------------------
// Laws
// ---------------------------------------------------------------------------

/// An error that the redirect names is reported, whatever else it says.
pub proof fn a_refusal_is_reported(params: Seq<(Seq<char>, Seq<char>)>)
    requires
        last_value(params, "error"@, params.len() as int) is Some,
    ensures
        answer_of(params) == Err::<Seq<char>, Seq<char>>(
            "Authorization denied: "@ + last_value(params, "error"@, params.len() as int)->0,
        ),
{
}

} // verus!
