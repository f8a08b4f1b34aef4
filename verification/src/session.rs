//! Logging in to Google Drive, and connecting to it, step by step.

use crate::drive;
use crate::drive::{
    access_token_of, created_folder, found_folder, refresh_token_of, DriveFileList, FileListing,
    ListingView, Sent, TokenResponse,
};
use crate::login;
use crate::login::{
    auth_url, exchange_form, line_text, parse_redirect, receive, redirect_uri, refresh_form, Read,
};
use crate::notes;
use crate::remote;
use crate::remote::DriveFile;
use crate::text;
use crate::text::join2;
use vstd::prelude::*;

verus! {

/// The name under which the credentials are stored.
pub const SERVICE_NAME: &'static str = "aanote-gdrive";

pub const KEY_REFRESH_TOKEN: &'static str = "refresh_token";

pub const KEY_CLIENT_ID: &'static str = "client_id";

pub const KEY_CLIENT_SECRET: &'static str = "client_secret";

/// What is forgotten on logging out, in this order.
pub fn gdrive_logout() -> (r: Vec<String>)
    ensures
        remote::texts(r@) == seq![KEY_REFRESH_TOKEN@, KEY_CLIENT_ID@, KEY_CLIENT_SECRET@],
{
    let mut keys: Vec<String> = Vec::new();
    keys.push(KEY_REFRESH_TOKEN.to_owned());
    keys.push(KEY_CLIENT_ID.to_owned());
    keys.push(KEY_CLIENT_SECRET.to_owned());
    assert(remote::texts(keys@) =~= seq![KEY_REFRESH_TOKEN@, KEY_CLIENT_ID@, KEY_CLIENT_SECRET@]);
    keys
}

// ---------------------------------------------------------------------------
// Logging in
// ---------------------------------------------------------------------------

/// What a login asks for.
pub enum LoginStep {
    /// Listen on a port of this machine.
    Listen,
    /// Open an address in the browser; a failure is of no consequence.
    Open { url: String },
    /// Wait for the browser.
    Accept,
    /// Read from the browser.
    Read,
    /// Send a form to Google, for tokens.
    Exchange { form: Vec<(String, String)> },
    /// Store a credential.
    Store { key: String, value: String },
    /// Tell the browser that all is well; a failure is of no consequence.
    Respond,
    /// Nothing: the login is over.
    Finish { outcome: Result<(), String> },
}

/// What a [`LoginStep`] stands for.
pub enum LoginStepView {
    Listen,
    Open { url: Seq<char> },
    Accept,
    Read,
    Exchange { form: Seq<(Seq<char>, Seq<char>)> },
    Store { key: Seq<char>, value: Seq<char> },
    Respond,
    Finish { outcome: Result<(), Seq<char>> },
}

impl View for LoginStep {
    type V = LoginStepView;

    open spec fn view(&self) -> LoginStepView {
        match self {
            LoginStep::Listen => LoginStepView::Listen,
            LoginStep::Open { url } => LoginStepView::Open { url: url@ },
            LoginStep::Accept => LoginStepView::Accept,
            LoginStep::Read => LoginStepView::Read,
            LoginStep::Exchange { form } => LoginStepView::Exchange {
                form: login::param_views(form@),
            },
            LoginStep::Store { key, value } => LoginStepView::Store { key: key@, value: value@ },
            LoginStep::Respond => LoginStepView::Respond,
            LoginStep::Finish { outcome } => LoginStepView::Finish {
                outcome: notes::outcome_view(*outcome),
            },
        }
    }
}

/// What came of waiting for the browser.
pub enum Waited {
    Came,
    /// It came to nothing in time.
    TimedOut,
    /// The waiting itself failed.
    Broken { cause: String },
    Failed { cause: String },
}

/// The reply to what a login asked for.
pub enum LoginReply {
    Done,
    Listening { port: u16 },
    Waited(Waited),
    Read(Read),
    Exchanged(Sent<TokenResponse>),
    /// It could not be done.
    Failed { cause: String },
}

/// What a [`LoginReply`] stands for.
pub enum LoginReplyView {
    Done,
    Listening { port: u16 },
    Came,
    TimedOut,
    Broken { cause: Seq<char> },
    WaitFailed { cause: Seq<char> },
    /// There is nothing more to read.
    ReadAll,
    Read { bytes: Seq<u8> },
    ReadFailed { cause: Seq<char> },
    Exchanged(Result<Seq<char>, Seq<char>>),
    Failed { cause: Seq<char> },
}

impl View for LoginReply {
    type V = LoginReplyView;

    open spec fn view(&self) -> LoginReplyView {
        match self {
            LoginReply::Done => LoginReplyView::Done,
            LoginReply::Listening { port } => LoginReplyView::Listening { port: *port },
            LoginReply::Waited(w) => match w {
                Waited::Came => LoginReplyView::Came,
                Waited::TimedOut => LoginReplyView::TimedOut,
                Waited::Broken { cause } => LoginReplyView::Broken { cause: cause@ },
                Waited::Failed { cause } => LoginReplyView::WaitFailed { cause: cause@ },
            },
            LoginReply::Read(r) => match r {
                Read::End => LoginReplyView::ReadAll,
                Read::TimedOut => LoginReplyView::ReadAll,
                Read::Bytes(b) => LoginReplyView::Read { bytes: b@ },
                Read::Failed { cause } => LoginReplyView::ReadFailed { cause: cause@ },
            },
            LoginReply::Exchanged(sent) => LoginReplyView::Exchanged(drive::exchanged(*sent)),
            LoginReply::Failed { cause } => LoginReplyView::Failed { cause: cause@ },
        }
    }
}

/// Where a login stands.
pub enum LoginStageView {
    Listening,
    Opening,
    Accepting,
    Reading,
    /// The code is being exchanged.
    Exchanging(Seq<char>),
    StoringId(Seq<char>),
    StoringSecret(Seq<char>),
    /// The refresh token is being stored.
    StoringToken(Seq<char>),
    Responding,
    Over(Result<(), Seq<char>>),
}

/// A login under way.
pub struct LoginView {
    pub client_id: Seq<char>,
    pub client_secret: Seq<char>,
    pub redirect: Seq<char>,
    /// What the browser has sent so far.
    pub request: Seq<u8>,
    pub stage: LoginStageView,
}

impl LoginView {
    pub open spec fn at(self, stage: LoginStageView) -> LoginView {
        LoginView { stage, ..self }
    }

    pub open spec fn failed(self, error: Seq<char>) -> LoginView {
        self.at(LoginStageView::Over(Err(error)))
    }

    /// The request is there: the code in its first line is exchanged, or what
    /// that says is reported.
    pub open spec fn answered(self) -> LoginView {
        match login::answer_of(login::params_of(login::request_line(self.request))) {
            Ok(code) => self.at(LoginStageView::Exchanging(code)),
            Err(e) => self.failed(e),
        }
    }

    /// What the login asks for.
    pub open spec fn pending(self) -> LoginStepView {
        match self.stage {
            LoginStageView::Listening => LoginStepView::Listen,
            LoginStageView::Opening => LoginStepView::Open {
                url: login::consent_url(self.client_id, self.redirect),
            },
            LoginStageView::Accepting => LoginStepView::Accept,
            LoginStageView::Reading => LoginStepView::Read,
            LoginStageView::Exchanging(code) => LoginStepView::Exchange {
                form: login::code_form(code, self.client_id, self.client_secret, self.redirect),
            },
            LoginStageView::StoringId(_) => LoginStepView::Store {
                key: KEY_CLIENT_ID@,
                value: self.client_id,
            },
            LoginStageView::StoringSecret(_) => LoginStepView::Store {
                key: KEY_CLIENT_SECRET@,
                value: self.client_secret,
            },
            LoginStageView::StoringToken(token) => LoginStepView::Store {
                key: KEY_REFRESH_TOKEN@,
                value: token,
            },
            LoginStageView::Responding => LoginStepView::Respond,
            LoginStageView::Over(outcome) => LoginStepView::Finish { outcome },
        }
    }

    /// `reply` answers what the login asked for.
    pub open spec fn accepts(self, reply: LoginReplyView) -> bool {
        match (self.stage, reply) {
            (LoginStageView::Listening, LoginReplyView::Listening { .. }) => true,
            (LoginStageView::Listening, LoginReplyView::Failed { .. }) => true,
            (LoginStageView::Opening, LoginReplyView::Done) => true,
            (LoginStageView::Accepting, LoginReplyView::Came) => true,
            (LoginStageView::Accepting, LoginReplyView::TimedOut) => true,
            (LoginStageView::Accepting, LoginReplyView::Broken { .. }) => true,
            (LoginStageView::Accepting, LoginReplyView::WaitFailed { .. }) => true,
            (LoginStageView::Reading, LoginReplyView::ReadAll) => true,
            (LoginStageView::Reading, LoginReplyView::Read { .. }) => true,
            (LoginStageView::Reading, LoginReplyView::ReadFailed { .. }) => true,
            (LoginStageView::Exchanging(_), LoginReplyView::Exchanged(_)) => true,
            (LoginStageView::StoringId(_), LoginReplyView::Done) => true,
            (LoginStageView::StoringId(_), LoginReplyView::Failed { .. }) => true,
            (LoginStageView::StoringSecret(_), LoginReplyView::Done) => true,
            (LoginStageView::StoringSecret(_), LoginReplyView::Failed { .. }) => true,
            (LoginStageView::StoringToken(_), LoginReplyView::Done) => true,
            (LoginStageView::StoringToken(_), LoginReplyView::Failed { .. }) => true,
            (LoginStageView::Responding, LoginReplyView::Done) => true,
            _ => false,
        }
    }

    /// The login once the reply has come.
    pub open spec fn after(self, reply: LoginReplyView) -> LoginView {
        match (self.stage, reply) {
            (LoginStageView::Listening, LoginReplyView::Listening { port }) => (LoginView {
                redirect: login::local_address(port),
                ..self
            }).at(LoginStageView::Opening),
            (LoginStageView::Opening, _) => self.at(LoginStageView::Accepting),
            (LoginStageView::Accepting, LoginReplyView::Came) => self.at(LoginStageView::Reading),
            (LoginStageView::Accepting, LoginReplyView::TimedOut) => self.failed(
                "Login timed out waiting for browser redirect (180s)."@,
            ),
            (LoginStageView::Accepting, LoginReplyView::Broken { cause }) => self.failed(
                "Accept task failed: "@ + cause,
            ),
            (LoginStageView::Accepting, LoginReplyView::WaitFailed { cause }) => self.failed(cause),
            (LoginStageView::Reading, LoginReplyView::ReadAll) => self.answered(),
            (LoginStageView::Reading, LoginReplyView::Read { bytes }) => {
                let s = LoginView { request: self.request + bytes, ..self };
                if login::has_line(s.request) {
                    s.answered()
                } else {
                    s
                }
            },
            (LoginStageView::Reading, LoginReplyView::ReadFailed { cause }) => self.failed(
                "Failed to read redirect: "@ + cause,
            ),
            (LoginStageView::Exchanging(_), LoginReplyView::Exchanged(Ok(token))) => self.at(
                LoginStageView::StoringId(token),
            ),
            (LoginStageView::Exchanging(_), LoginReplyView::Exchanged(Err(e))) => self.failed(e),
            (LoginStageView::StoringId(token), LoginReplyView::Done) => self.at(
                LoginStageView::StoringSecret(token),
            ),
            (LoginStageView::StoringSecret(token), LoginReplyView::Done) => self.at(
                LoginStageView::StoringToken(token),
            ),
            (LoginStageView::StoringToken(_), LoginReplyView::Done) => self.at(
                LoginStageView::Responding,
            ),
            (LoginStageView::Responding, _) => self.at(LoginStageView::Over(Ok(()))),
            (_, LoginReplyView::Failed { cause }) => self.failed(cause),
            _ => self,
        }
    }
}

/// How a login begins.
pub open spec fn login_begun(client_id: Seq<char>, client_secret: Seq<char>) -> LoginView {
    LoginView {
        client_id,
        client_secret,
        redirect: Seq::empty(),
        request: Seq::empty(),
        stage: LoginStageView::Listening,
    }
}

enum LoginStage {
    Listening,
    Opening,
    Accepting,
    Reading,
    Exchanging(String),
    StoringId(String),
    StoringSecret(String),
    StoringToken(String),
    Responding,
    Over(Result<(), String>),
}

impl View for LoginStage {
    type V = LoginStageView;

    closed spec fn view(&self) -> LoginStageView {
        match self {
            LoginStage::Listening => LoginStageView::Listening,
            LoginStage::Opening => LoginStageView::Opening,
            LoginStage::Accepting => LoginStageView::Accepting,
            LoginStage::Reading => LoginStageView::Reading,
            LoginStage::Exchanging(c) => LoginStageView::Exchanging(c@),
            LoginStage::StoringId(t) => LoginStageView::StoringId(t@),
            LoginStage::StoringSecret(t) => LoginStageView::StoringSecret(t@),
            LoginStage::StoringToken(t) => LoginStageView::StoringToken(t@),
            LoginStage::Responding => LoginStageView::Responding,
            LoginStage::Over(r) => LoginStageView::Over(notes::outcome_view(*r)),
        }
    }
}

/// A login under way.
pub struct LoginRun {
    client_id: String,
    client_secret: String,
    redirect: String,
    request: Vec<u8>,
    stage: LoginStage,
}

impl View for LoginRun {
    type V = LoginView;

    closed spec fn view(&self) -> LoginView {
        LoginView {
            client_id: self.client_id@,
            client_secret: self.client_secret@,
            redirect: self.redirect@,
            request: self.request@,
            stage: self.stage@,
        }
    }
}

/// Begins a login with the credentials of the app.
pub fn gdrive_login(client_id: &str, client_secret: &str) -> (r: LoginRun)
    ensures
        r@ == login_begun(client_id@, client_secret@),
{
    let redirect = String::new();
    let request: Vec<u8> = Vec::new();
    assert(redirect@ =~= Seq::empty());
    LoginRun {
        client_id: client_id.to_owned(),
        client_secret: client_secret.to_owned(),
        redirect,
        request,
        stage: LoginStage::Listening,
    }
}

fn same_result(r: &Result<(), String>) -> (q: Result<(), String>)
    ensures
        notes::outcome_view(q) == notes::outcome_view(*r),
{
    match r {
        Ok(_) => Ok(()),
        Err(e) => Err(e.clone()),
    }
}

impl LoginRun {
    /// What the login asks for.
    pub fn pending(&self) -> (r: LoginStep)
        ensures
            r@ == self@.pending(),
    {
        match &self.stage {
            LoginStage::Listening => LoginStep::Listen,
            LoginStage::Opening => LoginStep::Open {
                url: auth_url(self.client_id.as_str(), self.redirect.as_str()),
            },
            LoginStage::Accepting => LoginStep::Accept,
            LoginStage::Reading => LoginStep::Read,
            LoginStage::Exchanging(code) => LoginStep::Exchange {
                form: exchange_form(
                    code.as_str(),
                    self.client_id.as_str(),
                    self.client_secret.as_str(),
                    self.redirect.as_str(),
                ),
            },
            LoginStage::StoringId(_) => LoginStep::Store {
                key: KEY_CLIENT_ID.to_owned(),
                value: self.client_id.clone(),
            },
            LoginStage::StoringSecret(_) => LoginStep::Store {
                key: KEY_CLIENT_SECRET.to_owned(),
                value: self.client_secret.clone(),
            },
            LoginStage::StoringToken(token) => LoginStep::Store {
                key: KEY_REFRESH_TOKEN.to_owned(),
                value: token.clone(),
            },
            LoginStage::Responding => LoginStep::Respond,
            LoginStage::Over(r) => LoginStep::Finish { outcome: same_result(r) },
        }
    }

    /// The request is there.
    fn answered(&mut self)
        ensures
            final(self)@ == old(self)@.answered(),
    {
        self.stage = match parse_redirect(line_text(&self.request).as_str()) {
            Ok(code) => LoginStage::Exchanging(code),
            Err(e) => LoginStage::Over(Err(e)),
        };
    }

    /// Takes the reply to what the login asked for.
    pub fn advance(&mut self, reply: LoginReply)
        requires
            old(self)@.accepts(reply@),
        ensures
            final(self)@ == old(self)@.after(reply@),
    {
        match (&self.stage, reply) {
            (LoginStage::Listening, LoginReply::Listening { port }) => {
                self.redirect = redirect_uri(port);
                self.stage = LoginStage::Opening;
            },
            (LoginStage::Opening, _) => {
                self.stage = LoginStage::Accepting;
            },
            (LoginStage::Accepting, LoginReply::Waited(w)) => {
                self.stage = match w {
                    Waited::Came => LoginStage::Reading,
                    Waited::TimedOut => LoginStage::Over(
                        Err("Login timed out waiting for browser redirect (180s).".to_owned()),
                    ),
                    Waited::Broken { cause } => LoginStage::Over(
                        Err(join2("Accept task failed: ", cause.as_str())),
                    ),
                    Waited::Failed { cause } => LoginStage::Over(Err(cause)),
                };
            },
            (LoginStage::Reading, LoginReply::Read(read)) => {
                match receive(&mut self.request, &read) {
                    Ok(enough) => {
                        if enough {
                            self.answered();
                        }
                    },
                    Err(e) => {
                        self.stage = LoginStage::Over(Err(e));
                    },
                }
            },
            (LoginStage::Exchanging(_), LoginReply::Exchanged(sent)) => {
                self.stage = match refresh_token_of(sent) {
                    Ok(token) => LoginStage::StoringId(token),
                    Err(e) => LoginStage::Over(Err(e)),
                };
            },
            (LoginStage::StoringId(token), LoginReply::Done) => {
                self.stage = LoginStage::StoringSecret(token.clone());
            },
            (LoginStage::StoringSecret(token), LoginReply::Done) => {
                self.stage = LoginStage::StoringToken(token.clone());
            },
            (LoginStage::StoringToken(_), LoginReply::Done) => {
                self.stage = LoginStage::Responding;
            },
            (LoginStage::Responding, _) => {
                self.stage = LoginStage::Over(Ok(()));
            },
            (_, LoginReply::Failed { cause }) => {
                self.stage = LoginStage::Over(Err(cause));
            },
            _ => {},
        }
    }
}

/// A login that reads a request in these pieces, one after the other, until it
/// has enough; or to the end, where it never has.
pub open spec fn read_in_pieces(s: LoginView, pieces: Seq<Seq<u8>>) -> LoginView
    decreases pieces.len(),
{
    if pieces.len() == 0 {
        s.after(LoginReplyView::ReadAll)
    } else {
        let t = s.after(LoginReplyView::Read { bytes: pieces[0] });
        if t.stage is Reading {
            read_in_pieces(t, pieces.skip(1))
        } else {
            t
        }
    }
}

/// Pieces put together.
pub open spec fn whole(pieces: Seq<Seq<u8>>) -> Seq<u8>
    decreases pieces.len(),
{
    if pieces.len() == 0 {
        Seq::empty()
    } else {
        pieces[0] + whole(pieces.skip(1))
    }
}

/// What a login takes from a request is what it says as a whole: it does not
/// depend on the pieces in which the request comes.
pub proof fn a_request_may_come_in_pieces(s: LoginView, pieces: Seq<Seq<u8>>)
    requires
        s.stage is Reading,
        !login::has_line(s.request),
    ensures
        read_in_pieces(s, pieces).stage == (LoginView {
            request: s.request + whole(pieces),
            ..s
        }).answered().stage,
    decreases pieces.len(),
{
    if pieces.len() == 0 {
        assert(s.request + whole(pieces) =~= s.request);
    } else {
        let rest = whole(pieces.skip(1));
        let sofar = s.request + pieces[0];
        let t = s.after(LoginReplyView::Read { bytes: pieces[0] });
        assert(s.request + whole(pieces) =~= sofar + rest);
        if login::has_line(sofar) {
            login::the_first_line_stays(sofar, rest);
        } else {
            a_request_may_come_in_pieces(t, pieces.skip(1));
        }
    }
}

/// Credentials are stored only once Google has handed out a refresh token: in
/// the order id, secret, token.
pub proof fn credentials_are_stored_after_the_exchange(s: LoginView, reply: LoginReplyView)
    requires
        s.accepts(reply),
        s.after(reply).pending() is Store,
    ensures
        (s.stage is Exchanging && (reply matches LoginReplyView::Exchanged(Ok(_)))
            && s.after(reply).stage is StoringId) || (s.stage is StoringId && s.after(
            reply,
        ).stage is StoringSecret) || (s.stage is StoringSecret && s.after(reply).stage
            is StoringToken),
{
}

/// A login succeeds only once everything is stored.
pub proof fn a_login_succeeds_once_all_is_stored(s: LoginView, reply: LoginReplyView)
    requires
        s.accepts(reply),
        s.after(reply).stage == LoginStageView::Over(Ok(())),
    ensures
        s.stage is Responding,
{
}

// ---------------------------------------------------------------------------
// Connecting
// ---------------------------------------------------------------------------

/// What connecting asks for.
pub enum ConnectStep {
    /// Read the stored credentials.
    LoadCredentials,
    /// Send a form to Google, for an access token.
    Refresh { form: Vec<(String, String)> },
    /// Look for the app folder.
    FindFolder,
    /// Make the app folder.
    CreateFolder,
    /// List a page of the files in a folder; the first one without a token.
    ListPage { folder: String, page: Option<String> },
    /// Nothing: the files are there, or they are not.
    Finish { failure: Option<String> },
}

/// What a [`ConnectStep`] stands for.
pub enum ConnectStepView {
    LoadCredentials,
    Refresh { form: Seq<(Seq<char>, Seq<char>)> },
    FindFolder,
    CreateFolder,
    ListPage { folder: Seq<char>, page: Option<Seq<char>> },
    Finish { failure: Option<Seq<char>> },
}

impl View for ConnectStep {
    type V = ConnectStepView;

    open spec fn view(&self) -> ConnectStepView {
        match self {
            ConnectStep::LoadCredentials => ConnectStepView::LoadCredentials,
            ConnectStep::Refresh { form } => ConnectStepView::Refresh {
                form: login::param_views(form@),
            },
            ConnectStep::FindFolder => ConnectStepView::FindFolder,
            ConnectStep::CreateFolder => ConnectStepView::CreateFolder,
            ConnectStep::ListPage { folder, page } => ConnectStepView::ListPage {
                folder: folder@,
                page: text::opt_text(*page),
            },
            ConnectStep::Finish { failure } => ConnectStepView::Finish {
                failure: text::opt_text(*failure),
            },
        }
    }
}

/// The reply to what connecting asked for.
pub enum ConnectReply {
    Credentials {
        client_id: Option<String>,
        client_secret: Option<String>,
        refresh_token: Option<String>,
    },
    Token(Sent<TokenResponse>),
    Folders(Sent<Vec<DriveFile>>),
    Folder(Sent<DriveFile>),
    Page(Sent<DriveFileList>),
}

/// What a [`ConnectReply`] stands for.
pub enum ConnectReplyView {
    Credentials {
        client_id: Option<Seq<char>>,
        client_secret: Option<Seq<char>>,
        refresh_token: Option<Seq<char>>,
    },
    Token(Result<Seq<char>, Seq<char>>),
    Folders(Result<Option<Seq<char>>, Seq<char>>),
    Folder(Result<Seq<char>, Seq<char>>),
    Page(Result<drive::PageView, Seq<char>>),
}

impl View for ConnectReply {
    type V = ConnectReplyView;

    open spec fn view(&self) -> ConnectReplyView {
        match self {
            ConnectReply::Credentials { client_id, client_secret, refresh_token } =>
                ConnectReplyView::Credentials {
                    client_id: text::opt_text(*client_id),
                    client_secret: text::opt_text(*client_secret),
                    refresh_token: text::opt_text(*refresh_token),
                },
            ConnectReply::Token(sent) => ConnectReplyView::Token(drive::refreshed(*sent)),
            ConnectReply::Folders(sent) => ConnectReplyView::Folders(drive::folder_found(*sent)),
            ConnectReply::Folder(sent) => ConnectReplyView::Folder(drive::folder_made(*sent)),
            ConnectReply::Page(sent) => ConnectReplyView::Page(drive::page_view(*sent)),
        }
    }
}

/// Where connecting stands.
pub enum ConnectStageView {
    Credentials,
    /// A token is being asked for, with this form.
    Token(Seq<(Seq<char>, Seq<char>)>),
    Folders,
    NewFolder,
    Listing(ListingView),
    Failed(Seq<char>),
}

/// Connecting to Drive.
pub struct ConnectView {
    /// The access token, once there is one.
    pub token: Seq<char>,
    /// The id of the app folder, once it is known.
    pub folder: Seq<char>,
    pub stage: ConnectStageView,
}

impl ConnectView {
    pub open spec fn at(self, stage: ConnectStageView) -> ConnectView {
        ConnectView { stage, ..self }
    }

    pub open spec fn listing(self, folder: Seq<char>) -> ConnectView {
        ConnectView {
            folder,
            stage: ConnectStageView::Listing(
                ListingView::Asking { so_far: Seq::empty(), token: None },
            ),
            ..self
        }
    }

    /// What connecting asks for.
    pub open spec fn pending(self) -> ConnectStepView {
        match self.stage {
            ConnectStageView::Credentials => ConnectStepView::LoadCredentials,
            ConnectStageView::Token(form) => ConnectStepView::Refresh { form },
            ConnectStageView::Folders => ConnectStepView::FindFolder,
            ConnectStageView::NewFolder => ConnectStepView::CreateFolder,
            ConnectStageView::Listing(l) => match l {
                ListingView::Asking { token, .. } => ConnectStepView::ListPage {
                    folder: self.folder,
                    page: token,
                },
                ListingView::Complete { .. } => ConnectStepView::Finish { failure: None },
                ListingView::Failed { error } => ConnectStepView::Finish { failure: Some(error) },
            },
            ConnectStageView::Failed(e) => ConnectStepView::Finish { failure: Some(e) },
        }
    }

    /// `reply` answers what was asked.
    pub open spec fn accepts(self, reply: ConnectReplyView) -> bool {
        match (self.pending(), reply) {
            (ConnectStepView::LoadCredentials, ConnectReplyView::Credentials { .. }) => true,
            (ConnectStepView::Refresh { .. }, ConnectReplyView::Token(_)) => true,
            (ConnectStepView::FindFolder, ConnectReplyView::Folders(_)) => true,
            (ConnectStepView::CreateFolder, ConnectReplyView::Folder(_)) => true,
            (ConnectStepView::ListPage { .. }, ConnectReplyView::Page(_)) => true,
            _ => false,
        }
    }

    /// Connecting once the reply has come.
    pub open spec fn after(self, reply: ConnectReplyView) -> ConnectView {
        match (self.stage, reply) {
            (
                ConnectStageView::Credentials,
                ConnectReplyView::Credentials { client_id, client_secret, refresh_token },
            ) => match login::stored_form(client_id, client_secret, refresh_token) {
                Ok(form) => self.at(ConnectStageView::Token(form)),
                Err(e) => self.at(ConnectStageView::Failed(e)),
            },
            (ConnectStageView::Token(_), ConnectReplyView::Token(Ok(token))) => (ConnectView {
                token,
                ..self
            }).at(ConnectStageView::Folders),
            (ConnectStageView::Token(_), ConnectReplyView::Token(Err(e))) => self.at(
                ConnectStageView::Failed(e),
            ),
            (ConnectStageView::Folders, ConnectReplyView::Folders(Ok(Some(id)))) => self.listing(id),
            (ConnectStageView::Folders, ConnectReplyView::Folders(Ok(None))) => self.at(
                ConnectStageView::NewFolder,
            ),
            (ConnectStageView::Folders, ConnectReplyView::Folders(Err(e))) => self.at(
                ConnectStageView::Failed(e),
            ),
            (ConnectStageView::NewFolder, ConnectReplyView::Folder(Ok(id))) => self.listing(id),
            (ConnectStageView::NewFolder, ConnectReplyView::Folder(Err(e))) => self.at(
                ConnectStageView::Failed(e),
            ),
            (ConnectStageView::Listing(l), ConnectReplyView::Page(p)) => self.at(
                ConnectStageView::Listing(l.after(p)),
            ),
            _ => self,
        }
    }
}

/// How connecting begins.
pub open spec fn connect_begun() -> ConnectView {
    ConnectView {
        token: Seq::empty(),
        folder: Seq::empty(),
        stage: ConnectStageView::Credentials,
    }
}

enum ConnectStage {
    Credentials,
    Token(Vec<(String, String)>),
    Folders,
    NewFolder,
    Listing(FileListing),
    Failed(String),
}

impl View for ConnectStage {
    type V = ConnectStageView;

    closed spec fn view(&self) -> ConnectStageView {
        match self {
            ConnectStage::Credentials => ConnectStageView::Credentials,
            ConnectStage::Token(form) => ConnectStageView::Token(login::param_views(form@)),
            ConnectStage::Folders => ConnectStageView::Folders,
            ConnectStage::NewFolder => ConnectStageView::NewFolder,
            ConnectStage::Listing(l) => ConnectStageView::Listing(l@),
            ConnectStage::Failed(e) => ConnectStageView::Failed(e@),
        }
    }
}

/// Connecting to Drive.
pub struct Connecting {
    token: String,
    folder: String,
    stage: ConnectStage,
}

impl View for Connecting {
    type V = ConnectView;

    closed spec fn view(&self) -> ConnectView {
        ConnectView { token: self.token@, folder: self.folder@, stage: self.stage@ }
    }
}

fn clone_text(t: &Option<String>) -> (r: Option<String>)
    ensures
        text::opt_text(r) == text::opt_text(*t),
{
    match t {
        Some(s) => Some(s.clone()),
        None => None,
    }
}

fn clone_form(form: &Vec<(String, String)>) -> (r: Vec<(String, String)>)
    ensures
        login::param_views(r@) == login::param_views(form@),
{
    let mut out: Vec<(String, String)> = Vec::new();
    let mut i: usize = 0;
    while i < form.len()
        invariant
            i <= form@.len(),
            out@.len() == i,
            forall|j: int|
                0 <= j < i ==> (#[trigger] out@[j]).0@ == form@[j].0@ && out@[j].1@ == form@[j].1@,
        decreases form@.len() - i,
    {
        out.push((form[i].0.clone(), form[i].1.clone()));
        i += 1;
    }
    assert(login::param_views(out@) =~= login::param_views(form@));
    out
}

impl Connecting {
    /// Begins to connect.
    pub fn begin() -> (r: Connecting)
        ensures
            r@ == connect_begun(),
    {
        let token = String::new();
        let folder = String::new();
        assert(token@ =~= Seq::empty());
        assert(folder@ =~= Seq::empty());
        Connecting { token, folder, stage: ConnectStage::Credentials }
    }

    /// The access token, once there is one.
    pub fn token(&self) -> (r: &str)
        ensures
            r@ == self@.token,
    {
        self.token.as_str()
    }

    /// The id of the app folder, once it is known.
    pub fn folder(&self) -> (r: &str)
        ensures
            r@ == self@.folder,
    {
        self.folder.as_str()
    }

    /// The files in the app folder, once all are listed.
    pub fn files(&self) -> (r: Option<&Vec<DriveFile>>)
        ensures
            match r {
                Some(files) => self@.stage == ConnectStageView::Listing(
                    ListingView::Complete { files: remote::views(files@) },
                ),
                None => !(self@.stage matches ConnectStageView::Listing(l) && l is Complete),
            },
    {
        match &self.stage {
            ConnectStage::Listing(l) => match l {
                FileListing::Complete { files } => Some(files),
                _ => None,
            },
            _ => None,
        }
    }

    /// What connecting asks for.
    pub fn pending(&self) -> (r: ConnectStep)
        ensures
            r@ == self@.pending(),
    {
        match &self.stage {
            ConnectStage::Credentials => ConnectStep::LoadCredentials,
            ConnectStage::Token(form) => ConnectStep::Refresh { form: clone_form(form) },
            ConnectStage::Folders => ConnectStep::FindFolder,
            ConnectStage::NewFolder => ConnectStep::CreateFolder,
            ConnectStage::Listing(l) => match l {
                FileListing::Asking { token, .. } => ConnectStep::ListPage {
                    folder: self.folder.clone(),
                    page: clone_text(token),
                },
                FileListing::Complete { .. } => ConnectStep::Finish { failure: None },
                FileListing::Failed { error } => ConnectStep::Finish {
                    failure: Some(error.clone()),
                },
            },
            ConnectStage::Failed(e) => ConnectStep::Finish { failure: Some(e.clone()) },
        }
    }

    /// Takes the reply to what was asked.
    pub fn advance(self, reply: ConnectReply) -> (r: Connecting)
        requires
            self@.accepts(reply@),
        ensures
            r@ == self@.after(reply@),
    {
        let token = self.token;
        let folder = self.folder;
        match (self.stage, reply) {
            (
                ConnectStage::Credentials,
                ConnectReply::Credentials { client_id, client_secret, refresh_token },
            ) => {
                let stage = match refresh_form(&client_id, &client_secret, &refresh_token) {
                    Ok(form) => ConnectStage::Token(form),
                    Err(e) => ConnectStage::Failed(e),
                };
                Connecting { token, folder, stage }
            },
            (ConnectStage::Token(form), ConnectReply::Token(sent)) => match access_token_of(sent) {
                Ok(t) => Connecting { token: t, folder, stage: ConnectStage::Folders },
                Err(e) => Connecting { token, folder, stage: ConnectStage::Failed(e) },
            },
            (ConnectStage::Folders, ConnectReply::Folders(sent)) => match found_folder(sent) {
                Ok(Some(id)) => Connecting {
                    token,
                    folder: id,
                    stage: ConnectStage::Listing(FileListing::begin()),
                },
                Ok(None) => Connecting { token, folder, stage: ConnectStage::NewFolder },
                Err(e) => Connecting { token, folder, stage: ConnectStage::Failed(e) },
            },
            (ConnectStage::NewFolder, ConnectReply::Folder(sent)) => match created_folder(sent) {
                Ok(id) => Connecting {
                    token,
                    folder: id,
                    stage: ConnectStage::Listing(FileListing::begin()),
                },
                Err(e) => Connecting { token, folder, stage: ConnectStage::Failed(e) },
            },
            (ConnectStage::Listing(l), ConnectReply::Page(sent)) => Connecting {
                token,
                folder,
                stage: ConnectStage::Listing(l.take(sent)),
            },
            (stage, _) => Connecting { token, folder, stage },
        }
    }
}

/// A folder is made only where none was found.
pub proof fn a_folder_is_made_only_where_there_is_none(s: ConnectView, reply: ConnectReplyView)
    requires
        s.accepts(reply),
        s.after(reply).pending() is CreateFolder,
    ensures
        s.pending() is FindFolder,
        reply == ConnectReplyView::Folders(Ok(None)),
{
}

} // verus!
