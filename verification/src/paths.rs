//! Where the backup copy of the vault file goes.

use vstd::prelude::*;
use vstd::string::StringExecFns;

verus! {

/// Why no backup name could be made for the vault file.
#[derive(Clone, Copy, PartialEq, Eq, Debug)]
pub enum BackupPathError {
    /// The vault path has no file name.
    NotAFile,
    /// The file name is not valid Unicode.
    NotUnicode,
}

impl BackupPathError {
    /// A message for the user.
    pub fn message(&self) -> (text: &'static str)
        ensures
            *self == BackupPathError::NotAFile ==> text@ == "vault file must be a regular file"@,
            *self == BackupPathError::NotUnicode ==> text@
                == "vault file name must be regular unicode"@,
    {
        match self {
            BackupPathError::NotAFile => "vault file must be a regular file",
            BackupPathError::NotUnicode => "vault file name must be regular unicode",
        }
    }
}

/// The file name of the backup beside a vault file, from the vault file's
/// name: absent where the path has none, and `None` inside where it is not
/// Unicode. The backup name is the vault file's name with `.bak` after it.
pub fn backup_file_name(file_name: Option<Option<&str>>) -> (backup: Result<String, BackupPathError>)
    ensures
        match file_name {
            None => backup matches Err(BackupPathError::NotAFile),
            Some(None) => backup matches Err(BackupPathError::NotUnicode),
            Some(Some(name)) => backup matches Ok(b) && b@ == name@ + ".bak"@,
        },
{
    match file_name {
        None => Err(BackupPathError::NotAFile),
        Some(None) => Err(BackupPathError::NotUnicode),
        Some(Some(name)) => {
            let mut backup = String::from_str(name);
            backup.append(".bak");
            Ok(backup)
        },
    }
}

} // verus!
