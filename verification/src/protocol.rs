//! What registering the `x-notify://` scheme writes and decides: the Linux
//! desktop entry, the Windows open command, whether another program holds
//! the scheme, and the `.app` bundle that holds the macOS executable.
use vstd::prelude::*;

use crate::config::APP_DIR_NAME;
use crate::text::{chars_of, find, find_chars, string_of, trim, trim_bounds};

verus! {

/// The URL scheme the service answers.
pub const SCHEME: &'static str = "x-notify";

/// File name of the desktop entry: `x-notify-service.desktop`.
pub open spec fn desktop_file_text() -> Seq<char> {
    APP_DIR_NAME@ + ".desktop"@
}

/// MIME type of the scheme's handler: `x-scheme-handler/x-notify`.
pub open spec fn scheme_mime_text() -> Seq<char> {
    "x-scheme-handler/"@ + SCHEME@
}

/// The desktop entry that makes the executable the scheme's handler.
pub open spec fn desktop_entry_text(exe: Seq<char>) -> Seq<char> {
    "[Desktop Entry]\nType=Application\nName="@ + APP_DIR_NAME@ + "\nExec="@ + exe + " %u\nIcon="@
        + APP_DIR_NAME@ + "\nNoDisplay=true\nTerminal=false\nMimeType="@ + scheme_mime_text()
        + ";\n"@
}

/// Windows `shell\open\command`: the quoted executable and `"%1"`.
pub open spec fn open_command_text(exe: Seq<char>) -> Seq<char> {
    "\""@ + exe + "\" \"%1\""@
}

/// Default value of the scheme's registry key.
pub open spec fn url_description_text() -> Seq<char> {
    "URL:"@ + SCHEME@ + " 协议"@
}

pub fn desktop_file_name() -> (r: String)
    ensures
        r@ == desktop_file_text(),
{
    let mut s = String::new();
    s.push_str(APP_DIR_NAME);
    s.push_str(".desktop");
    s
}

pub fn scheme_mime() -> (r: String)
    ensures
        r@ == scheme_mime_text(),
{
    let mut s = String::new();
    s.push_str("x-scheme-handler/");
    s.push_str(SCHEME);
    s
}

pub fn desktop_entry(exe: &str) -> (r: String)
    ensures
        r@ == desktop_entry_text(exe@),
{
    let mut s = String::new();
    s.push_str("[Desktop Entry]\nType=Application\nName=");
    s.push_str(APP_DIR_NAME);
    s.push_str("\nExec=");
    s.push_str(exe);
    s.push_str(" %u\nIcon=");
    s.push_str(APP_DIR_NAME);
    s.push_str("\nNoDisplay=true\nTerminal=false\nMimeType=");
    let mime = scheme_mime();
    s.push_str(mime.as_str());
    s.push_str(";\n");
    s
}

pub fn open_command(exe: &str) -> (r: String)
    ensures
        r@ == open_command_text(exe@),
{
    let mut s = String::new();
    s.push_str("\"");
    s.push_str(exe);
    s.push_str("\" \"%1\"");
    s
}

pub fn url_description() -> (r: String)
    ensures
        r@ == url_description_text(),
{
    let mut s = String::new();
    s.push_str("URL:");
    s.push_str(SCHEME);
    s.push_str(" 协议");
    s
}

/// Windows: the registered open command belongs to another program when it
/// does not contain this executable's path.
pub fn command_of_other_program(cmd: &str, exe: &str) -> (r: bool)
    ensures
        r == (find(cmd@, exe@) is None),
{
    let c = chars_of(cmd);
    let e = chars_of(exe);
    find_chars(&c, e.as_slice()).is_none()
}

/// Linux: `xdg-mime query default` names another program's desktop entry
/// when its trimmed output is neither empty nor this program's entry.
pub fn handler_of_other_program(query_output: &str) -> (r: bool)
    ensures
        r == (trim(query_output@).len() > 0 && trim(query_output@) != desktop_file_text()),
{
    let chars = chars_of(query_output);
    let (a, b) = trim_bounds(&chars);
    let current = crate::html::attr::sub_chars(&chars, a, b);
    let cur = string_of(&current);
    let ours = desktop_file_name();
    b > a && cur != ours
}

/// Whether the prefix of `p` that ends before the `/` at `i` names a
/// directory called `<name>.app` (with a name before `.app`).
pub open spec fn bundle_dir_at(p: Seq<char>, i: int) -> bool {
    &&& 5 <= i < p.len()
    &&& p[i] == '/'
    &&& p.subrange(i - 4, i) == ".app"@
    &&& p[i - 5] != '/'
}

/// The deepest directory above the executable (a `/`-separated path) whose
/// name ends in `.app`.
pub open spec fn app_bundle_of(exe: Seq<char>) -> Option<Seq<char>> {
    if exists|i: int| bundle_dir_at(exe, i) {
        let i = choose|i: int|
            bundle_dir_at(exe, i) && forall|j: int| i < j < exe.len() ==> !bundle_dir_at(exe, j);
        Some(exe.take(i))
    } else {
        None
    }
}

/// macOS: the `.app` bundle that holds the executable, if any.
pub fn find_app_bundle(exe: &str) -> (r: Option<String>)
    ensures
        match app_bundle_of(exe@) {
            Some(b) => r matches Some(s) && s@ == b,
            None => r is None,
        },
{
    let p = chars_of(exe);
    let app: [char; 4] = ['.', 'a', 'p', 'p'];
    assert(app@ =~= ".app"@) by {
        reveal_strlit(".app");
    }
    let mut i: usize = p.len();
    while i > 0
        invariant
            i <= p@.len(),
            p@ == exe@,
            app@ == ".app"@,
            forall|j: int| i <= j < p@.len() ==> !bundle_dir_at(p@, j),
        decreases i,
    {
        let k = i - 1;
        if k >= 5 && p[k] == '/' && p[k - 5] != '/' && crate::text::matches_at(&p, app.as_slice(), k - 4) {
            assert(bundle_dir_at(p@, k as int));
            proof {
                let w = choose|w: int|
                    bundle_dir_at(exe@, w) && forall|j: int|
                        w < j < exe@.len() ==> !bundle_dir_at(exe@, j);
                assert(bundle_dir_at(exe@, k as int) && forall|j: int|
                    k < j < exe@.len() ==> !bundle_dir_at(exe@, j));
                assert(w == k);
            }
            let dir = crate::html::attr::sub_chars(&p, 0, k);
            return Some(string_of(&dir));
        }
        i = k;
    }
    None
}

} // verus!
