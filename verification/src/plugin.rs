//! The value that the editor holds while the plugin is loaded.

use crate::config::FtpConfig;
use crate::path::{has_extension_in, has_watched_extension};
use vstd::prelude::*;

verus! {

/// The plugin as the editor sees it: at most one set of settings.
pub struct FtpSyncExtension {
    pub config: Option<FtpConfig>,
}

impl FtpSyncExtension {
    /// A plugin that has not read any settings yet.
    pub fn new() -> (ext: Self)
        ensures
            ext.config is None,
    {
        FtpSyncExtension { config: None }
    }

    /// Whether the file `path` takes part in the synchronisation that `config` describes:
    /// whether its extension, as it stands, is one of the watched extensions.
    pub fn should_sync_file(&self, path: &str, config: &FtpConfig) -> (b: bool)
        ensures
            b == has_watched_extension(path@, config@.file_extensions),
    {
        has_extension_in(path, &config.file_extensions)
    }

    /// The file that is open in the editor. The editor does not tell, so there is none.
    pub fn get_current_file(&self) -> (file: Option<String>)
        ensures
            file is None,
    {
        None
    }
}

} // verus!
