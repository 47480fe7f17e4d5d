//! Connection and synchronisation settings.

use crate::path::chars_of;
use vstd::prelude::*;
use vstd::string::StringExecFns;

verus! {

/// What one synchronisation needs to know: where the server is, how to log in,
/// which local directory is mirrored to which remote directory, and which files
/// take part. The value is never changed while a synchronisation runs.
#[derive(Debug)]
pub struct FtpConfig {
    pub host: String,
    pub port: u16,
    pub username: String,
    pub password: String,
    /// The remote root: the directory on the server that mirrors `local_path`.
    pub remote_path: String,
    /// The local root: the directory whose files are uploaded.
    pub local_path: String,
    pub auto_sync: bool,
    /// The watched extensions, without the leading dot.
    pub file_extensions: Vec<String>,
}

/// An `FtpConfig` as plain mathematical values.
pub struct ConfigView {
    pub host: Seq<char>,
    pub port: u16,
    pub username: Seq<char>,
    pub password: Seq<char>,
    pub remote_path: Seq<char>,
    pub local_path: Seq<char>,
    pub auto_sync: bool,
    pub file_extensions: Seq<Seq<char>>,
}

impl View for FtpConfig {
    type V = ConfigView;

    open spec fn view(&self) -> ConfigView {
        ConfigView {
            host: self.host@,
            port: self.port,
            username: self.username@,
            password: self.password@,
            remote_path: self.remote_path@,
            local_path: self.local_path@,
            auto_sync: self.auto_sync,
            file_extensions: self.file_extensions.deep_view(),
        }
    }
}

/// Whether `ext` is written as a watched extension should be:
/// without a leading dot and without capital letters `A` to `Z`.
pub open spec fn is_plain_extension(ext: Seq<char>) -> bool {
    &&& ext.len() > 0 ==> ext[0] != '.'
    &&& forall|i: int| 0 <= i < ext.len() ==> !('A' <= #[trigger] ext[i] <= 'Z')
}

impl ConfigView {
    /// The settings that a synchronisation accepts: both roots are named,
    /// and every watched extension is plain.
    pub open spec fn well_formed(self) -> bool {
        &&& self.remote_path.len() > 0
        &&& self.local_path.len() > 0
        &&& forall|i: int|
            0 <= i < self.file_extensions.len() ==> is_plain_extension(
                #[trigger] self.file_extensions[i],
            )
    }
}

/// Whether `ext` has no leading dot and no capital letter `A` to `Z`.
pub fn check_plain_extension(ext: &str) -> (b: bool)
    ensures
        b == is_plain_extension(ext@),
{
    let chars = chars_of(ext);
    if chars.len() > 0 && chars[0] == '.' {
        return false;
    }
    let mut i: usize = 0;
    while i < chars.len()
        invariant
            i <= chars.len(),
            chars@ == ext@,
            forall|j: int| 0 <= j < i ==> !('A' <= #[trigger] ext@[j] <= 'Z'),
        decreases chars.len() - i,
    {
        if 'A' <= chars[i] && chars[i] <= 'Z' {
            return false;
        }
        i = i + 1;
    }
    true
}

/// A copy of a list of texts.
pub fn clone_texts(list: &Vec<String>) -> (copy: Vec<String>)
    ensures
        copy.deep_view() == list.deep_view(),
{
    let mut copy: Vec<String> = Vec::new();
    let mut i: usize = 0;
    while i < list.len()
        invariant
            i <= list.len(),
            copy.len() == i,
            forall|j: int| 0 <= j < i ==> copy[j]@ == list[j]@,
        decreases list.len() - i,
    {
        copy.push(list[i].clone());
        i = i + 1;
    }
    assert(copy.deep_view() =~= list.deep_view());
    copy
}

impl FtpConfig {
    /// Whether these settings are well formed.
    pub fn is_valid(&self) -> (b: bool)
        ensures
            b == self@.well_formed(),
    {
        if self.remote_path.as_str().is_empty() || self.local_path.as_str().is_empty() {
            return false;
        }
        let mut i: usize = 0;
        while i < self.file_extensions.len()
            invariant
                i <= self.file_extensions.len(),
                forall|j: int|
                    0 <= j < i ==> is_plain_extension(#[trigger] self.file_extensions.deep_view()[j]),
            decreases self.file_extensions.len() - i,
        {
            assert(self.file_extensions.deep_view()[i as int] == self.file_extensions[i as int]@);
            if !check_plain_extension(self.file_extensions[i].as_str()) {
                assert(!is_plain_extension(self@.file_extensions[i as int]));
                return false;
            }
            i = i + 1;
        }
        true
    }
}

impl Default for FtpConfig {
    /// The settings of a fresh project: a server on this machine at port 21,
    /// the current directory mirrored to `/var/www/html`, and the
    /// extensions `php`, `html`, `css` and `js` watched.
    fn default() -> (c: Self)
        ensures
            c.host@ == "localhost"@,
            c.port == 21,
            c.username@ == "user"@,
            c.password@ == "password"@,
            c.remote_path@ == "/var/www/html"@,
            c.local_path@ == "."@,
            c.auto_sync,
            c@.file_extensions == seq!["php"@, "html"@, "css"@, "js"@],
            c@.well_formed(),
    {
        let mut file_extensions: Vec<String> = Vec::new();
        file_extensions.push(String::from_str("php"));
        file_extensions.push(String::from_str("html"));
        file_extensions.push(String::from_str("css"));
        file_extensions.push(String::from_str("js"));
        let c = FtpConfig {
            host: String::from_str("localhost"),
            port: 21,
            username: String::from_str("user"),
            password: String::from_str("password"),
            remote_path: String::from_str("/var/www/html"),
            local_path: String::from_str("."),
            auto_sync: true,
            file_extensions,
        };
        proof {
            reveal_strlit("php");
            reveal_strlit("html");
            reveal_strlit("css");
            reveal_strlit("js");
            reveal_strlit("/var/www/html");
            reveal_strlit(".");
            assert(c@.file_extensions =~= seq!["php"@, "html"@, "css"@, "js"@]);
        }
        c
    }
}

impl Clone for FtpConfig {
    fn clone(&self) -> (c: Self)
        ensures
            c@ == self@,
    {
        FtpConfig {
            host: self.host.clone(),
            port: self.port,
            username: self.username.clone(),
            password: self.password.clone(),
            remote_path: self.remote_path.clone(),
            local_path: self.local_path.clone(),
            auto_sync: self.auto_sync,
            file_extensions: clone_texts(&self.file_extensions),
        }
    }
}

} // verus!
