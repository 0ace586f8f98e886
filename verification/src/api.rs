use crate::backend::auth::{spec_is_admin_check, spec_key_check, Auth};
use crate::backend::database::User;
use vstd::prelude::*;
use vstd::string::StringExecFns;

verus! {

/// The plain fields of an upload request: the uploader's API key and the
/// extension of the file (the file itself stays with the web layer).
pub struct Upload {
    pub apikey: String,
    pub extension: String,
}

/// The file extensions that uploads may have.
pub open spec fn spec_valid_extension(extension: Seq<char>) -> bool {
    ||| extension == "png"@
    ||| extension == "gif"@
    ||| extension == "jpg"@
    ||| extension == "jpeg"@
    ||| extension == "mp4"@
}

/// Exactly five extensions are allowed: `png`, `gif`, `jpg`, `jpeg` and
/// `mp4`; any other, `webp` or `PNG` for one, is refused.
pub proof fn lemma_allowed_extensions(extension: Seq<char>)
    ensures
        spec_valid_extension(extension) <==> seq!["png"@, "gif"@, "jpg"@, "jpeg"@, "mp4"@].contains(
            extension,
        ),
{
    let allowed = seq!["png"@, "gif"@, "jpg"@, "jpeg"@, "mp4"@];
    if spec_valid_extension(extension) {
        if extension == "png"@ {
            assert(allowed[0] == extension);
        } else if extension == "gif"@ {
            assert(allowed[1] == extension);
        } else if extension == "jpg"@ {
            assert(allowed[2] == extension);
        } else if extension == "jpeg"@ {
            assert(allowed[3] == extension);
        } else {
            assert(allowed[4] == extension);
        }
    }
}

/// Whether uploads may carry this extension: `png`, `gif`, `jpg`, `jpeg` or
/// `mp4`, exactly.
pub fn is_valid_extension(extension: &str) -> (ok: bool)
    ensures
        ok == spec_valid_extension(extension@),
        ok == (extension@ == "png"@ || extension@ == "gif"@ || extension@ == "jpg"@ || extension@
            == "jpeg"@ || extension@ == "mp4"@),
{
    let e = String::from_str(extension);
    e == String::from_str("png") || e == String::from_str("gif") || e == String::from_str("jpg")
        || e == String::from_str("jpeg") || e == String::from_str("mp4")
}

impl Upload {
    /// Whether the upload is taken: its key is accepted and its extension is
    /// one of those allowed.
    pub fn accepted(&self, salt: &str, users: &Vec<User>) -> (ok: bool)
        ensures
            ok == (spec_key_check(self.apikey@, salt@, users@) && spec_valid_extension(
                self.extension@,
            )),
            ok ==> (self.extension@ == "png"@ || self.extension@ == "gif"@ || self.extension@
                == "jpg"@ || self.extension@ == "jpeg"@ || self.extension@ == "mp4"@),
    {
        Auth::key_check(self.apikey.as_str(), salt, users) && is_valid_extension(
            self.extension.as_str(),
        )
    }
}

/// Whether a request to create an account is taken: the key is accepted and
/// passes the administrator check.
pub fn may_create_user(apikey: &str, salt: &str, users: &Vec<User>) -> (ok: bool)
    ensures
        ok == (spec_key_check(apikey@, salt@, users@) && spec_is_admin_check(apikey@, salt@, users@)),
{
    Auth::key_check(apikey, salt, users) && Auth::is_admin_check(apikey, salt, users)
}

} // verus!
