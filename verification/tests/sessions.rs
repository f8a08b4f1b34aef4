use aanote::drive::{
    children_query, created_folder, delete_remote_file, download_file, download_unwritten,
    file_url, found_folder, media_url, update_file, update_url, upload_file, DriveFileList,
    FileListing, Response, Sent, TokenResponse, Uploaded, FILE_FIELDS,
};
use aanote::login::{
    auth_code, auth_url, gdrive_status, is_enough, line_text, parse_redirect, pieces, raw_params,
    receive, redirect_uri, refresh_form, words_of, Read,
};
use aanote::remote::DriveFile;
use aanote::reset::{ResetReply, ResetStep, Resetting};
use aanote::session::{
    gdrive_login, gdrive_logout, ConnectReply, ConnectStep, Connecting, LoginReply, LoginRun,
    LoginStep, Waited,
};
use aanote::url::{percent_decode, url_decode};

fn ok<T>(body: T) -> Sent<T> {
    Ok(Response { code: 200, status: "200 OK".to_string(), text: String::new(), body: Ok(body) })
}

fn unreadable<T>() -> Sent<T> {
    Ok(Response {
        code: 200,
        status: "200 OK".to_string(),
        text: String::new(),
        body: Err("bad json".to_string()),
    })
}

fn refused<T>(code: u16, status: &str, text: &str) -> Sent<T> {
    Ok(Response {
        code,
        status: status.to_string(),
        text: text.to_string(),
        body: Err(String::new()),
    })
}

fn unsent<T>() -> Sent<T> {
    Err("offline".to_string())
}

fn drive_file(id: &str) -> DriveFile {
    DriveFile {
        id: id.to_string(),
        name: format!("{}.md", id),
        modified_time: Some("2024-01-01T00:00:00Z".to_string()),
        mime_type: None,
    }
}

#[test]
fn percent_escapes_are_decoded() {
    assert_eq!(url_decode("%41%6a%2B"), "Aj+");
    assert_eq!(url_decode("100%"), "100%");
    assert_eq!(url_decode("%zz%4"), "%zz%4");
    assert_eq!(url_decode("%+f"), "\u{f}");
    assert_eq!(url_decode("%+g"), "% g");
    assert_eq!(url_decode("%f+%f"), "%f %f");
    assert_eq!(url_decode("%-1x"), "%-1x");
    assert_eq!(url_decode("%C3%A9"), "é");
    assert_eq!(url_decode("%c3%a9%C3%a9"), "éé");
    assert_eq!(url_decode("é+ü"), "é ü");
    // What stands before an escape, and behind it, is taken by itself.
    for front in ["", "a+b", "é+\u{20ac}", "x y"] {
        for rest in ["", "%", "%41", "+%2b", "tail"] {
            let joined = format!("{}{}", front, rest);
            assert_eq!(url_decode(&joined), front.replace('+', " ") + &url_decode(rest));
            assert_eq!(url_decode(&format!("%6A{}", rest)), format!("j{}", url_decode(rest)));
            assert_eq!(url_decode(&format!("%g{}", rest)), format!("%g{}", url_decode(rest)));
        }
    }
    // Bytes that are no text are replaced.
    assert_eq!(url_decode("a%FFb"), "a\u{fffd}b");
    assert_eq!(percent_decode(b"%00%ff"), vec![0, 255]);
}

#[test]
fn addresses_are_spelt_out() {
    assert_eq!(redirect_uri(8080), "http://localhost:8080");
    assert_eq!(
        auth_url("ID", "http://localhost:1"),
        "https://accounts.google.com/o/oauth2/v2/auth?client_id=ID&redirect_uri=http://localhost:1&response_type=code&scope=https://www.googleapis.com/auth/drive.file&access_type=offline&prompt=consent"
    );
    assert_eq!(file_url("x"), "https://www.googleapis.com/drive/v3/files/x");
    assert_eq!(media_url("x"), "https://www.googleapis.com/drive/v3/files/x?alt=media");
    assert_eq!(
        update_url("x"),
        "https://www.googleapis.com/upload/drive/v3/files/x?uploadType=media&fields=modifiedTime"
    );
    assert_eq!(children_query("x"), "'x' in parents and trashed = false");
    assert_eq!(FILE_FIELDS, "nextPageToken, files(id, name, modifiedTime, mimeType)");
}

#[test]
fn words_and_pieces_are_those_of_std() {
    for s in ["", " ", "GET /?a HTTP/1.1", "  a\tb\u{3000}c ", "??", "a?b?c", "?"] {
        let words: Vec<String> = s.split_whitespace().map(str::to_string).collect();
        assert_eq!(words_of(s), words);
        let parts: Vec<String> = s.split('?').map(str::to_string).collect();
        assert_eq!(pieces(s, '?'), parts);
    }
}

#[test]
fn redirects_are_read() {
    assert_eq!(
        parse_redirect("GET /?code=4%2F0xxx&scope=a HTTP/1.1\r\nHost: x\r\n"),
        Ok("4/0xxx".to_string())
    );
    assert_eq!(
        parse_redirect("GET /?error=access_denied&code=1 HTTP/1.1"),
        Err("Authorization denied: access_denied".to_string())
    );
    let none = Err("Failed to parse auth code from redirect URL".to_string());
    assert_eq!(parse_redirect(""), none);
    assert_eq!(parse_redirect("GET /favicon.ico HTTP/1.1"), none);
    assert_eq!(parse_redirect("GET /\r\ncode=1"), none);
    assert_eq!(parse_redirect("GET /?=code&code HTTP/1.1"), Ok(String::new()));
    assert_eq!(parse_redirect("GET /?code=1&code=2=3?x HTTP/1.1"), Ok("2=3".to_string()));
    assert_eq!(
        raw_params("GET /?a=%41&b HTTP/1.1"),
        vec![("a".to_string(), "%41".to_string()), ("b".to_string(), String::new())]
    );
    assert_eq!(
        auth_code(&vec![("code".to_string(), "7".to_string())]),
        Ok("7".to_string())
    );
}

#[test]
fn requests_are_received_in_parts() {
    let mut request: Vec<u8> = Vec::new();
    assert_eq!(receive(&mut request, &Read::Bytes(b"GET /?code=1\xc3".to_vec())), Ok(false));
    assert_eq!(receive(&mut request, &Read::Bytes(b"\xa9 HTTP".to_vec())), Ok(false));
    assert_eq!(receive(&mut request, &Read::Bytes(b"/1.1\r\nHost".to_vec())), Ok(true));
    let whole = b"GET /?code=1\xc3\xa9 HTTP/1.1\r\nHost".to_vec();
    assert_eq!(request, whole);
    assert!(is_enough(&b"x error=y\n".to_vec()));
    assert!(!is_enough(&b"x code=y".to_vec()));
    assert_eq!(parse_redirect(&line_text(&request)), Ok("1\u{e9}".to_string()));
    assert_eq!(line_text(&b"GET / HTTP".to_vec()), "GET / HTTP");
    assert_eq!(receive(&mut request, &Read::End), Ok(true));
    assert_eq!(receive(&mut request, &Read::TimedOut), Ok(true));
    assert_eq!(
        receive(&mut request, &Read::Failed { cause: "reset".to_string() }),
        Err("Failed to read redirect: reset".to_string())
    );
    assert_eq!(request, whole);
}

fn exchanged_code(segments: &[&str]) -> String {
    let mut run = reading();
    run.advance(LoginReply::Waited(Waited::Came));
    for s in segments {
        assert!(matches!(run.pending(), LoginStep::Read));
        run.advance(LoginReply::Read(Read::Bytes(s.as_bytes().to_vec())));
    }
    match run.pending() {
        LoginStep::Exchange { form } => {
            assert_eq!(form[4], ("grant_type".to_string(), "authorization_code".to_string()));
            form[0].1.clone()
        }
        _ => panic!("unexpected step"),
    }
}

#[test]
fn a_redirect_may_come_in_segments() {
    let whole = "GET /?code=4%2F0AXX&scope=s HTTP/1.1\r\n\r\n";
    assert_eq!(exchanged_code(&[whole]), "4/0AXX");
    assert_eq!(
        exchanged_code(&["GET /?code=4%2F0A", "XX&scope=s HTTP/1.1\r\n\r\n"]),
        "4/0AXX"
    );
    for at in 0..whole.find('\n').unwrap() {
        assert_eq!(exchanged_code(&[&whole[..at], &whole[at..]]), "4/0AXX");
    }
}

fn reading() -> LoginRun {
    let mut run = gdrive_login("ID", "SECRET");
    assert!(matches!(run.pending(), LoginStep::Listen));
    run.advance(LoginReply::Listening { port: 7 });
    match run.pending() {
        LoginStep::Open { url } => assert_eq!(url, auth_url("ID", "http://localhost:7")),
        _ => panic!("unexpected step"),
    }
    run.advance(LoginReply::Done);
    assert!(matches!(run.pending(), LoginStep::Accept));
    run
}

fn outcome(run: &LoginRun) -> Result<(), String> {
    match run.pending() {
        LoginStep::Finish { outcome } => outcome,
        _ => panic!("not over"),
    }
}

#[test]
fn a_login_runs_to_its_end() {
    let mut run = reading();
    run.advance(LoginReply::Waited(Waited::Came));
    run.advance(LoginReply::Read(Read::Bytes(b"GET /?".to_vec())));
    assert!(matches!(run.pending(), LoginStep::Read));
    run.advance(LoginReply::Read(Read::Bytes(b"code=c%20d HTTP/1.1\r\n".to_vec())));
    match run.pending() {
        LoginStep::Exchange { form } => {
            let form: Vec<(&str, &str)> =
                form.iter().map(|(k, v)| (k.as_str(), v.as_str())).collect();
            assert_eq!(
                form,
                vec![
                    ("code", "c d"),
                    ("client_id", "ID"),
                    ("client_secret", "SECRET"),
                    ("redirect_uri", "http://localhost:7"),
                    ("grant_type", "authorization_code"),
                ]
            );
        }
        _ => panic!("unexpected step"),
    }
    run.advance(LoginReply::Exchanged(ok(TokenResponse {
        access_token: "A".to_string(),
        refresh_token: Some("R".to_string()),
    })));
    let mut stored = Vec::new();
    while let LoginStep::Store { key, value } = run.pending() {
        stored.push(format!("{}={}", key, value));
        run.advance(LoginReply::Done);
    }
    assert_eq!(stored, vec!["client_id=ID", "client_secret=SECRET", "refresh_token=R"]);
    assert!(matches!(run.pending(), LoginStep::Respond));
    run.advance(LoginReply::Done);
    assert_eq!(outcome(&run), Ok(()));
}

#[test]
fn a_login_names_its_failures() {
    let mut run = gdrive_login("ID", "SECRET");
    run.advance(LoginReply::Failed { cause: "in use".to_string() });
    assert_eq!(outcome(&run), Err("in use".to_string()));

    let mut run = reading();
    run.advance(LoginReply::Waited(Waited::TimedOut));
    assert_eq!(
        outcome(&run),
        Err("Login timed out waiting for browser redirect (180s).".to_string())
    );
    let mut run = reading();
    run.advance(LoginReply::Waited(Waited::Broken { cause: "x".to_string() }));
    assert_eq!(outcome(&run), Err("Accept task failed: x".to_string()));
    let mut run = reading();
    run.advance(LoginReply::Waited(Waited::Failed { cause: "x".to_string() }));
    assert_eq!(outcome(&run), Err("x".to_string()));

    let with_code = || {
        let mut run = reading();
        run.advance(LoginReply::Waited(Waited::Came));
        run.advance(LoginReply::Read(Read::Bytes(b"GET /?code=1 H\r\n".to_vec())));
        run
    };
    let tokens = |refresh: Option<String>| TokenResponse {
        access_token: "A".to_string(),
        refresh_token: refresh,
    };
    let cases: Vec<(Sent<TokenResponse>, &str)> = vec![
        (unsent(), "offline"),
        (refused(400, "400 Bad Request", "bad code"), "Token exchange failed: bad code"),
        (unreadable(), "bad json"),
        (
            ok(tokens(None)),
            "No refresh token returned (consent might already be given; try revoking app access first)",
        ),
    ];
    for (sent, expected) in cases {
        let mut run = with_code();
        run.advance(LoginReply::Exchanged(sent));
        assert_eq!(outcome(&run), Err(expected.to_string()));
    }
    let mut run = with_code();
    run.advance(LoginReply::Exchanged(ok(tokens(Some("R".to_string())))));
    run.advance(LoginReply::Done);
    run.advance(LoginReply::Failed { cause: "locked".to_string() });
    assert_eq!(outcome(&run), Err("locked".to_string()));

    let mut run = reading();
    run.advance(LoginReply::Waited(Waited::Came));
    run.advance(LoginReply::Read(Read::End));
    assert_eq!(outcome(&run), Err("Failed to parse auth code from redirect URL".to_string()));
}

#[test]
fn stored_credentials_are_all_needed() {
    let some = || Some("x".to_string());
    assert_eq!(refresh_form(&None, &None, &None), Err("No Client ID stored".to_string()));
    assert_eq!(refresh_form(&some(), &None, &None), Err("No Client Secret stored".to_string()));
    assert_eq!(
        refresh_form(&some(), &some(), &None),
        Err("No Refresh Token stored".to_string())
    );
    assert_eq!(gdrive_status(&some()), Ok("connected".to_string()));
    assert_eq!(gdrive_status(&None), Ok("disconnected".to_string()));
    assert_eq!(gdrive_logout(), vec!["refresh_token", "client_id", "client_secret"]);
}

fn with_token() -> Connecting {
    let c = Connecting::begin();
    assert!(matches!(c.pending(), ConnectStep::LoadCredentials));
    let c = c.advance(ConnectReply::Credentials {
        client_id: Some("I".to_string()),
        client_secret: Some("S".to_string()),
        refresh_token: Some("R".to_string()),
    });
    match c.pending() {
        ConnectStep::Refresh { form } => {
            let form: Vec<(&str, &str)> =
                form.iter().map(|(k, v)| (k.as_str(), v.as_str())).collect();
            assert_eq!(
                form,
                vec![
                    ("client_id", "I"),
                    ("client_secret", "S"),
                    ("refresh_token", "R"),
                    ("grant_type", "refresh_token"),
                ]
            );
        }
        _ => panic!("unexpected step"),
    }
    let c = c.advance(ConnectReply::Token(ok(TokenResponse {
        access_token: "T".to_string(),
        refresh_token: None,
    })));
    assert_eq!(c.token(), "T");
    assert!(matches!(c.pending(), ConnectStep::FindFolder));
    c
}

fn failure(c: &Connecting) -> Option<String> {
    match c.pending() {
        ConnectStep::Finish { failure } => failure,
        _ => panic!("not over"),
    }
}

fn page(ids: &[&str], next: Option<&str>) -> Sent<DriveFileList> {
    ok(DriveFileList {
        files: ids.iter().map(|i| drive_file(i)).collect(),
        next_page_token: next.map(str::to_string),
    })
}

#[test]
fn connecting_lists_every_page() {
    let c = with_token().advance(ConnectReply::Folders(ok(vec![drive_file("F"), drive_file("G")])));
    assert_eq!(c.folder(), "F");
    match c.pending() {
        ConnectStep::ListPage { folder, page } => {
            assert_eq!((folder.as_str(), page), ("F", None))
        }
        _ => panic!("unexpected step"),
    }
    let c = c.advance(ConnectReply::Page(page(&["a", "b"], Some("p2"))));
    assert!(c.files().is_none());
    match c.pending() {
        ConnectStep::ListPage { page, .. } => assert_eq!(page, Some("p2".to_string())),
        _ => panic!("unexpected step"),
    }
    let c = c.advance(ConnectReply::Page(page(&[], Some("p3"))));
    let c = c.advance(ConnectReply::Page(page(&["c"], None)));
    assert_eq!(failure(&c), None);
    let ids: Vec<&str> = c.files().unwrap().iter().map(|f| f.id.as_str()).collect();
    assert_eq!(ids, vec!["a", "b", "c"]);
}

#[test]
fn connecting_makes_a_missing_folder() {
    let c = with_token().advance(ConnectReply::Folders(ok(Vec::new())));
    assert!(matches!(c.pending(), ConnectStep::CreateFolder));
    let c = c.advance(ConnectReply::Folder(ok(drive_file("new"))));
    assert_eq!(c.folder(), "new");
    let c = c.advance(ConnectReply::Page(refused(500, "500 Internal Server Error", "oops")));
    assert_eq!(
        failure(&c),
        Some("Drive API error (list_drive_files) 500 Internal Server Error: oops".to_string())
    );
    let c = with_token().advance(ConnectReply::Folders(ok(Vec::new())));
    let c = c.advance(ConnectReply::Folder(refused(403, "403 Forbidden", "")));
    assert_eq!(failure(&c), Some("Failed to create aanote folder: 403 Forbidden".to_string()));
}

#[test]
fn connecting_names_its_failures() {
    let c = Connecting::begin().advance(ConnectReply::Credentials {
        client_id: None,
        client_secret: None,
        refresh_token: None,
    });
    assert_eq!(failure(&c), Some("No Client ID stored".to_string()));
    let c = with_token().advance(ConnectReply::Folders(refused(401, "401 Unauthorized", "no")));
    assert_eq!(
        failure(&c),
        Some("Drive API error (get_or_create_app_folder) 401 Unauthorized: no".to_string())
    );
    let c = Connecting::begin().advance(ConnectReply::Credentials {
        client_id: Some("I".to_string()),
        client_secret: Some("S".to_string()),
        refresh_token: Some("R".to_string()),
    });
    let c = c.advance(ConnectReply::Token(refused(400, "400 Bad Request", "x")));
    assert_eq!(
        failure(&c),
        Some("Failed to refresh access token: 400 Bad Request".to_string())
    );
}

#[test]
fn folders_are_found_or_made() {
    assert_eq!(found_folder(ok(Vec::new())), Ok(None));
    assert_eq!(found_folder(unsent()), Err("offline".to_string()));
    assert_eq!(found_folder(unreadable()), Err("bad json".to_string()));
    assert_eq!(created_folder(ok(drive_file("x"))), Ok("x".to_string()));
    assert_eq!(created_folder(unsent()), Err("offline".to_string()));
    assert_eq!(created_folder(unreadable()), Err("bad json".to_string()));
}

#[test]
fn a_listing_that_failed_stays_failed() {
    let l = FileListing::begin().take(unsent());
    match l.take(page(&["a"], None)) {
        FileListing::Failed { error } => assert_eq!(error, "offline"),
        _ => panic!("not failed"),
    }
}

#[test]
fn transfers_report_what_came_of_them() {
    let content = "héllo".as_bytes().to_vec();
    let uploaded = |time: Option<&str>| Uploaded {
        id: "x".to_string(),
        modified_time: time.map(str::to_string),
    };
    assert_eq!(
        upload_file("a.md", &content, ok(uploaded(Some("2024-01-01T00:00:00Z")))),
        Ok(("x".to_string(), 1_704_067_200_000, 5))
    );
    assert_eq!(
        upload_file("a.md", &content, ok(uploaded(None))),
        Ok(("x".to_string(), 0, 5))
    );
    assert_eq!(
        upload_file("a.md", &content, refused(507, "507 Insufficient Storage", "full")),
        Err("Upload failed for a.md: 507 Insufficient Storage full".to_string())
    );
    assert_eq!(upload_file("a.md", &content, unreadable()), Err("bad json".to_string()));
    assert_eq!(upload_file("a.md", &content, unsent()), Err("offline".to_string()));

    assert_eq!(
        update_file("a.md", &content, ok(Some("2024-01-01T00:00:00Z".to_string()))),
        Ok((1_704_067_200_000, 5))
    );
    assert_eq!(update_file("a.md", &content, ok(None)), Ok((0, 5)));
    assert_eq!(update_file("a.md", &content, unreadable()), Ok((0, 5)));
    assert_eq!(
        update_file("a.md", &content, refused(404, "404 Not Found", "gone")),
        Err("Update failed for a.md: 404 Not Found gone".to_string())
    );
    assert_eq!(update_file("a.md", &content, unsent()), Err("offline".to_string()));

    assert_eq!(download_file("a.md", ok(vec![1, 2])), Ok(vec![1, 2]));
    assert_eq!(
        download_file("a.md", refused(404, "404 Not Found", "gone")),
        Err("Download failed for a.md: 404 Not Found gone".to_string())
    );
    assert_eq!(download_file("a.md", unreadable()), Err("bad json".to_string()));
    assert_eq!(download_file("a.md", unsent()), Err("offline".to_string()));
    assert_eq!(download_unwritten("/n/a.md", "full"), "Failed to write /n/a.md: full");
}

#[test]
fn a_file_that_is_not_there_counts_as_deleted() {
    assert_eq!(delete_remote_file(ok(())), Ok(()));
    assert_eq!(delete_remote_file(refused(404, "404 Not Found", "")), Ok(()));
    assert_eq!(
        delete_remote_file(refused(403, "403 Forbidden", "")),
        Err("Delete failed: 403 Forbidden".to_string())
    );
    assert_eq!(
        delete_remote_file(refused(300, "300 Multiple Choices", "")),
        Err("Delete failed: 300 Multiple Choices".to_string())
    );
    assert_eq!(delete_remote_file(unsent()), Err("offline".to_string()));
}

fn finished(r: &Resetting) -> Result<String, String> {
    match r.pending() {
        ResetStep::Finish { outcome } => outcome,
        _ => panic!("not over"),
    }
}

#[test]
fn a_reset_deletes_the_index_and_every_file() {
    let r = Resetting::begin("/n");
    match r.pending() {
        ResetStep::Probe { path } => assert_eq!(path, "/n/.sync.json"),
        _ => panic!("unexpected step"),
    }
    let r = r.advance(ResetReply::Exists(true));
    match r.pending() {
        ResetStep::RemoveIndex { path } => assert_eq!(path, "/n/.sync.json"),
        _ => panic!("unexpected step"),
    }
    let r = r.advance(ResetReply::Outcome(Ok(())));
    assert!(matches!(r.pending(), ResetStep::Connect));
    let files = vec![drive_file("a"), drive_file("b"), drive_file("c")];
    let mut r = r.advance(ResetReply::Connected(Ok(files)));
    let mut deleted = Vec::new();
    while let ResetStep::Delete { id } = r.pending() {
        let outcome = if id == "b" { Err("x".to_string()) } else { Ok(()) };
        deleted.push(id);
        r = r.advance(ResetReply::Outcome(outcome));
    }
    assert_eq!(deleted, vec!["a", "b", "c"]);
    let text = "Reset sync: deleted local index and 2 remote files".to_string();
    assert_eq!(finished(&r), Ok(text));
}

#[test]
fn a_reset_reports_failures() {
    let r = Resetting::begin("/n").advance(ResetReply::Exists(true));
    let r = r.advance(ResetReply::Outcome(Err("locked".to_string())));
    assert_eq!(finished(&r), Err("locked".to_string()));
    let r = Resetting::begin("/n").advance(ResetReply::Exists(false));
    let r = r.advance(ResetReply::Connected(Err("offline".to_string())));
    assert_eq!(finished(&r), Err("offline".to_string()));
    let r = Resetting::begin("/n").advance(ResetReply::Exists(false));
    let r = r.advance(ResetReply::Connected(Ok(Vec::new())));
    let text = "Reset sync: deleted local index and 0 remote files".to_string();
    assert_eq!(finished(&r), Ok(text));
}
