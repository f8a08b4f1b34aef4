//! What is asked of Google, and what its answers come to.

use crate::bytes;
use crate::bytes::char_count;
use crate::notes;
use crate::remote;
use crate::remote::{modified_ms, DriveFile, FileView};
use crate::text;
use crate::text::{join2, join3};
use vstd::prelude::*;

verus! {

/// The answer to a request.
pub struct Response<T> {
    /// The status code.
    pub code: u16,
    /// The status code with its name.
    pub status: String,
    /// What an answer that is no success says; nothing where that cannot be
    /// read.
    pub text: String,
    /// What a success brings, or why it cannot be read.
    pub body: Result<T, String>,
}

/// What became of a request: an answer, or why there is none.
pub type Sent<T> = Result<Response<T>, String>;

/// A status code that means success.
pub open spec fn is_success(code: u16) -> bool {
    200 <= code <= 299
}

/// Whether a status code means success.
pub fn success(code: u16) -> (r: bool)
    ensures
        r == is_success(code),
{
    200 <= code && code <= 299
}

// ---------------------------------------------------------------------------
// Addresses
// ---------------------------------------------------------------------------

/// Where tokens are asked for.
pub const TOKEN_URL: &'static str = "https://oauth2.googleapis.com/token";

/// Where files are listed and folders made.
pub const FILES_URL: &'static str = "https://www.googleapis.com/drive/v3/files";

/// Where new files are uploaded to.
pub const UPLOAD_URL: &'static str = "https://www.googleapis.com/upload/drive/v3/files?uploadType=multipart&fields=id,modifiedTime";

/// Which folders the app folder is looked for among.
pub const FOLDER_QUERY: &'static str = "name = 'aanote' and mimeType = 'application/vnd.google-apps.folder' and trashed = false";

/// What is asked for of a list of files: what the next page is asked for with,
/// and which properties of the files.
pub const FILE_FIELDS: &'static str = "nextPageToken, files(id, name, modifiedTime, mimeType)";

/// The address of a file.
pub fn file_url(id: &str) -> (r: String)
    ensures
        r@ == "https://www.googleapis.com/drive/v3/files/"@ + id@,
{
    join2("https://www.googleapis.com/drive/v3/files/", id)
}

/// The address of the content of a file.
pub fn media_url(id: &str) -> (r: String)
    ensures
        r@ == "https://www.googleapis.com/drive/v3/files/"@ + id@ + "?alt=media"@,
{
    join3("https://www.googleapis.com/drive/v3/files/", id, "?alt=media")
}

/// Where new content of a file is sent to.
pub fn update_url(id: &str) -> (r: String)
    ensures
        r@ == "https://www.googleapis.com/upload/drive/v3/files/"@ + id@
            + "?uploadType=media&fields=modifiedTime"@,
{
    join3(
        "https://www.googleapis.com/upload/drive/v3/files/",
        id,
        "?uploadType=media&fields=modifiedTime",
    )
}

/// Which files lie in the folder `parent_id`.
pub fn children_query(parent_id: &str) -> (r: String)
    ensures
        r@ == "'"@ + parent_id@ + "' in parents and trashed = false"@,
{
    join3("'", parent_id, "' in parents and trashed = false")
}

// ---------------------------------------------------------------------------
// Tokens
// ---------------------------------------------------------------------------

/// The tokens that Google hands out.
pub struct TokenResponse {
    pub access_token: String,
    pub refresh_token: Option<String>,
}

/// The refresh token that an exchange brought.
pub open spec fn exchanged(sent: Sent<TokenResponse>) -> Result<Seq<char>, Seq<char>> {
    match sent {
        Err(e) => Err(e@),
        Ok(res) => if !is_success(res.code) {
            Err("Token exchange failed: "@ + res.text@)
        } else {
            match res.body {
                Err(e) => Err(e@),
                Ok(t) => match t.refresh_token {
                    Some(token) => Ok(token@),
                    None => Err(
                        "No refresh token returned (consent might already be given; try revoking app access first)"@,
                    ),
                },
            }
        },
    }
}

/// The access token that a refresh brought.
pub open spec fn refreshed(sent: Sent<TokenResponse>) -> Result<Seq<char>, Seq<char>> {
    match sent {
        Err(e) => Err(e@),
        Ok(res) => if !is_success(res.code) {
            Err("Failed to refresh access token: "@ + res.status@)
        } else {
            match res.body {
                Err(e) => Err(e@),
                Ok(t) => Ok(t.access_token@),
            }
        },
    }
}

/// The refresh token that an exchange brought.
pub fn refresh_token_of(sent: Sent<TokenResponse>) -> (r: Result<String, String>)
    ensures
        notes::text_view(r) == exchanged(sent),
{
    match sent {
        Err(e) => Err(e),
        Ok(res) => if !success(res.code) {
            Err(join2("Token exchange failed: ", res.text.as_str()))
        } else {
            match res.body {
                Err(e) => Err(e),
                Ok(t) => match t.refresh_token {
                    Some(token) => Ok(token),
                    None => Err(
                        "No refresh token returned (consent might already be given; try revoking app access first)".to_owned(),
                    ),
                },
            }
        },
    }
}

/// The access token that a refresh brought.
pub fn access_token_of(sent: Sent<TokenResponse>) -> (r: Result<String, String>)
    ensures
        notes::text_view(r) == refreshed(sent),
{
    match sent {
        Err(e) => Err(e),
        Ok(res) => if !success(res.code) {
            Err(join2("Failed to refresh access token: ", res.status.as_str()))
        } else {
            match res.body {
                Err(e) => Err(e),
                Ok(t) => Ok(t.access_token),
            }
        },
    }
}

// ---------------------------------------------------------------------------
// The app folder
// ---------------------------------------------------------------------------

/// What a refused request is reported as: the status, and what the answer says.
pub open spec fn refusal(front: Seq<char>, status: Seq<char>, text: Seq<char>) -> Seq<char> {
    front + status + ": "@ + text
}

/// The id of the app folder among those that were found; nothing where there
/// is none yet.
pub open spec fn folder_found(sent: Sent<Vec<DriveFile>>) -> Result<Option<Seq<char>>, Seq<char>> {
    match sent {
        Err(e) => Err(e@),
        Ok(res) => if !is_success(res.code) {
            Err(
                refusal(
                    "Drive API error (get_or_create_app_folder) "@,
                    res.status@,
                    res.text@,
                ),
            )
        } else {
            match res.body {
                Err(e) => Err(e@),
                Ok(files) => Ok(
                    if files@.len() > 0 {
                        Some(files@[0].id@)
                    } else {
                        None
                    },
                ),
            }
        },
    }
}

/// The id of the app folder that was made.
pub open spec fn folder_made(sent: Sent<DriveFile>) -> Result<Seq<char>, Seq<char>> {
    match sent {
        Err(e) => Err(e@),
        Ok(res) => if !is_success(res.code) {
            Err("Failed to create aanote folder: "@ + res.status@)
        } else {
            match res.body {
                Err(e) => Err(e@),
                Ok(file) => Ok(file.id@),
            }
        },
    }
}

/// The id of the app folder among those that were found; nothing where there
/// is none yet.
pub fn found_folder(sent: Sent<Vec<DriveFile>>) -> (r: Result<Option<String>, String>)
    ensures
        match r {
            Ok(id) => folder_found(sent) == Ok::<Option<Seq<char>>, Seq<char>>(text::opt_text(id)),
            Err(e) => folder_found(sent) == Err::<Option<Seq<char>>, Seq<char>>(e@),
        },
{
    match sent {
        Err(e) => Err(e),
        Ok(res) => if !success(res.code) {
            Err(
                notes::failure(
                    "Drive API error (get_or_create_app_folder) ",
                    res.status.as_str(),
                    res.text.as_str(),
                ),
            )
        } else {
            match res.body {
                Err(e) => Err(e),
                Ok(files) => if files.len() > 0 {
                    Ok(Some(files[0].id.clone()))
                } else {
                    Ok(None)
                },
            }
        },
    }
}

/// The id of the app folder that was made.
pub fn created_folder(sent: Sent<DriveFile>) -> (r: Result<String, String>)
    ensures
        notes::text_view(r) == folder_made(sent),
{
    match sent {
        Err(e) => Err(e),
        Ok(res) => if !success(res.code) {
            Err(join2("Failed to create aanote folder: ", res.status.as_str()))
        } else {
            match res.body {
                Err(e) => Err(e),
                Ok(file) => Ok(file.id),
            }
        },
    }
}

// ---------------------------------------------------------------------------
// Listing
// ---------------------------------------------------------------------------

/// One page of a list of files.
pub struct DriveFileList {
    pub files: Vec<DriveFile>,
    /// What the next page is asked for with, where there is one.
    pub next_page_token: Option<String>,
}

/// What a page holds, and what the next one is asked for with.
pub struct PageView {
    pub files: Seq<FileView>,
    pub next: Option<Seq<char>>,
}

impl View for DriveFileList {
    type V = PageView;

    open spec fn view(&self) -> PageView {
        PageView {
            files: remote::views(self.files@),
            next: text::opt_text(self.next_page_token),
        }
    }
}

/// Where a listing stands.
pub enum ListingView {
    /// A page is asked for, with this token unless it is the first.
    Asking { so_far: Seq<FileView>, token: Option<Seq<char>> },
    Complete { files: Seq<FileView> },
    Failed { error: Seq<char> },
}

/// What became of a request for a page.
pub open spec fn page_view(sent: Sent<DriveFileList>) -> Result<PageView, Seq<char>> {
    match sent {
        Err(e) => Err(e@),
        Ok(res) => if !is_success(res.code) {
            Err(refusal("Drive API error (list_drive_files) "@, res.status@, res.text@))
        } else {
            match res.body {
                Err(e) => Err(e@),
                Ok(page) => Ok(page@),
            }
        },
    }
}

impl ListingView {
    /// The listing once a page has come.
    pub open spec fn after(self, page: Result<PageView, Seq<char>>) -> ListingView {
        match (self, page) {
            (ListingView::Asking { so_far, .. }, Ok(p)) => match p.next {
                Some(t) => ListingView::Asking { so_far: so_far + p.files, token: Some(t) },
                None => ListingView::Complete { files: so_far + p.files },
            },
            (ListingView::Asking { .. }, Err(error)) => ListingView::Failed { error },
            _ => self,
        }
    }
}

/// A listing of the files in a folder, page by page.
pub enum FileListing {
    Asking { so_far: Vec<DriveFile>, token: Option<String> },
    Complete { files: Vec<DriveFile> },
    Failed { error: String },
}

impl View for FileListing {
    type V = ListingView;

    open spec fn view(&self) -> ListingView {
        match self {
            FileListing::Asking { so_far, token } => ListingView::Asking {
                so_far: remote::views(so_far@),
                token: text::opt_text(*token),
            },
            FileListing::Complete { files } => ListingView::Complete {
                files: remote::views(files@),
            },
            FileListing::Failed { error } => ListingView::Failed { error: error@ },
        }
    }
}

impl FileListing {
    /// A listing that asks for its first page.
    pub fn begin() -> (r: FileListing)
        ensures
            r@ == (ListingView::Asking { so_far: Seq::empty(), token: None }),
    {
        let so_far: Vec<DriveFile> = Vec::new();
        assert(remote::views(so_far@) =~= Seq::empty());
        FileListing::Asking { so_far, token: None }
    }

    /// Takes a page, or why there is none.
    pub fn take(self, sent: Sent<DriveFileList>) -> (r: FileListing)
        ensures
            r@ == self@.after(page_view(sent)),
    {
        match self {
            FileListing::Asking { so_far, token } => {
                let res = match sent {
                    Err(e) => {
                        return FileListing::Failed { error: e };
                    },
                    Ok(res) => res,
                };
                if !success(res.code) {
                    return FileListing::Failed {
                        error: notes::failure(
                            "Drive API error (list_drive_files) ",
                            res.status.as_str(),
                            res.text.as_str(),
                        ),
                    };
                }
                match res.body {
                    Err(e) => FileListing::Failed { error: e },
                    Ok(page) => {
                        let mut all = so_far;
                        let mut more = page.files;
                        let ghost a = all@;
                        let ghost b = more@;
                        all.append(&mut more);
                        assert(remote::views(all@) =~= remote::views(a) + remote::views(b));
                        match page.next_page_token {
                            Some(t) => FileListing::Asking { so_far: all, token: Some(t) },
                            None => FileListing::Complete { files: all },
                        }
                    },
                }
            },
            other => other,
        }
    }
}

/// A listing after some pages.
pub open spec fn after_pages(s: ListingView, pages: Seq<PageView>) -> ListingView
    decreases pages.len(),
{
    if pages.len() == 0 {
        s
    } else {
        after_pages(s, pages.drop_last()).after(Ok(pages.last()))
    }
}

/// The files of some pages, one page after the other.
pub open spec fn all_files(pages: Seq<PageView>) -> Seq<FileView>
    decreases pages.len(),
{
    if pages.len() == 0 {
        Seq::empty()
    } else {
        all_files(pages.drop_last()) + pages.last().files
    }
}

/// A listing holds every file of every page, however many pages there are.
pub proof fn no_page_is_lost(pages: Seq<PageView>)
    requires
        pages.len() > 0,
        forall|i: int| 0 <= i < pages.len() - 1 ==> (#[trigger] pages[i]).next is Some,
        pages.last().next is None,
    ensures
        after_pages(ListingView::Asking { so_far: Seq::empty(), token: None }, pages) == (
        ListingView::Complete { files: all_files(pages) }),
{
    lemma_pages(pages.drop_last());
}

proof fn lemma_pages(pages: Seq<PageView>)
    requires
        forall|i: int| 0 <= i < pages.len() ==> (#[trigger] pages[i]).next is Some,
    ensures
        after_pages(ListingView::Asking { so_far: Seq::empty(), token: None }, pages)
            matches ListingView::Asking { so_far, .. } && so_far == all_files(pages),
    decreases pages.len(),
{
    if pages.len() > 0 {
        let t = pages.drop_last();
        assert forall|i: int| 0 <= i < t.len() implies (#[trigger] t[i]).next is Some by {
            assert(t[i] == pages[i]);
        }
        lemma_pages(t);
        assert(pages[pages.len() - 1].next is Some);
    }
}

// ---------------------------------------------------------------------------
// Transfers
// ---------------------------------------------------------------------------

/// What a refused transfer is reported as.
pub open spec fn transfer_refusal(
    front: Seq<char>,
    rel: Seq<char>,
    status: Seq<char>,
    text: Seq<char>,
) -> Seq<char> {
    front + rel + ": "@ + status + " "@ + text
}

fn transfer_failure(front: &str, rel: &str, status: &str, said: &str) -> (r: String)
    ensures
        r@ == transfer_refusal(front@, rel@, status@, said@),
{
    let mut s = join3(front, rel, ": ");
    s.append(status);
    s.append(" ");
    s.append(said);
    s
}

/// What Drive tells of a new file.
pub struct Uploaded {
    pub id: String,
    pub modified_time: Option<String>,
}

/// What an upload of `content` came to: the id of the new file, when it changed,
/// and how many characters it has.
pub fn upload_file(rel_path: &str, content: &Vec<u8>, sent: Sent<Uploaded>) -> (r: Result<
    (String, u64, u64),
    String,
>)
    ensures
        match r {
            Ok(t) => sent matches Ok(res) && is_success(res.code) && (res.body matches Ok(file)
                && t.0@ == file.id@ && t.1 == remote::time_ms(text::opt_text(file.modified_time))
                && t.2 == bytes::chars_in(content@)),
            Err(e) => match sent {
                Err(cause) => e@ == cause@,
                Ok(res) => if !is_success(res.code) {
                    e@ == transfer_refusal(
                        "Upload failed for "@,
                        rel_path@,
                        res.status@,
                        res.text@,
                    )
                } else {
                    res.body matches Err(cause) && e@ == cause@
                },
            },
        },
{
    match sent {
        Err(e) => Err(e),
        Ok(res) => if !success(res.code) {
            Err(
                transfer_failure(
                    "Upload failed for ",
                    rel_path,
                    res.status.as_str(),
                    res.text.as_str(),
                ),
            )
        } else {
            match res.body {
                Err(e) => Err(e),
                Ok(file) => {
                    let ms = modified_ms(&file.modified_time);
                    Ok((file.id, ms, char_count(content)))
                },
            }
        },
    }
}

/// What an update with `content` came to: when the file changed, and how many
/// characters it has. The answer brings the time; where it cannot be read, the
/// time counts as 0.
pub fn update_file(rel_path: &str, content: &Vec<u8>, sent: Sent<Option<String>>) -> (r: Result<
    (u64, u64),
    String,
>)
    ensures
        match r {
            Ok(t) => sent matches Ok(res) && is_success(res.code) && t.0 == match res.body {
                Ok(time) => remote::time_ms(text::opt_text(time)),
                Err(_) => 0,
            } && t.1 == bytes::chars_in(content@),
            Err(e) => match sent {
                Err(cause) => e@ == cause@,
                Ok(res) => !is_success(res.code) && e@ == transfer_refusal(
                    "Update failed for "@,
                    rel_path@,
                    res.status@,
                    res.text@,
                ),
            },
        },
{
    match sent {
        Err(e) => Err(e),
        Ok(res) => if !success(res.code) {
            Err(
                transfer_failure(
                    "Update failed for ",
                    rel_path,
                    res.status.as_str(),
                    res.text.as_str(),
                ),
            )
        } else {
            let ms: u64 = match res.body {
                Ok(time) => modified_ms(&time),
                Err(_) => 0,
            };
            Ok((ms, char_count(content)))
        },
    }
}

/// What a download came to: the content of the file.
pub fn download_file(rel_path: &str, sent: Sent<Vec<u8>>) -> (r: Result<Vec<u8>, String>)
    ensures
        match r {
            Ok(b) => sent matches Ok(res) && is_success(res.code) && (res.body matches Ok(content)
                && b@ == content@),
            Err(e) => match sent {
                Err(cause) => e@ == cause@,
                Ok(res) => if !is_success(res.code) {
                    e@ == transfer_refusal(
                        "Download failed for "@,
                        rel_path@,
                        res.status@,
                        res.text@,
                    )
                } else {
                    res.body matches Err(cause) && e@ == cause@
                },
            },
        },
{
    match sent {
        Err(e) => Err(e),
        Ok(res) => if !success(res.code) {
            Err(
                transfer_failure(
                    "Download failed for ",
                    rel_path,
                    res.status.as_str(),
                    res.text.as_str(),
                ),
            )
        } else {
            res.body
        },
    }
}

/// What is reported where a downloaded note could not be written.
pub fn download_unwritten(path: &str, cause: &str) -> (r: String)
    ensures
        r@ == notes::failure_text("Failed to write "@, path@, cause@),
{
    notes::failure("Failed to write ", path, cause)
}

/// What a deletion came to. A file that is not there counts as deleted.
pub fn delete_remote_file(sent: Sent<()>) -> (r: Result<(), String>)
    ensures
        notes::outcome_view(r) == match sent {
            Err(e) => Err(e@),
            Ok(res) => if is_success(res.code) || res.code == 404 {
                Ok(())
            } else {
                Err("Delete failed: "@ + res.status@)
            },
        },
{
    match sent {
        Err(e) => Err(e),
        Ok(res) => if !success(res.code) && res.code != 404 {
            Err(join2("Delete failed: ", res.status.as_str()))
        } else {
            Ok(())
        },
    }
}

} // verus!
