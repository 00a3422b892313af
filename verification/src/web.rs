//! The HTTP file endpoint's logic: authenticate the bearer header, read
//! the principal id, look the file up by hash for that principal, infer
//! the content type from the display name, and serve the stored bytes.

use vstd::prelude::*;

use crate::auth::{bearer_header_ok, spec_bearer_ok};
use crate::content::ContentStore;
use crate::database::Database;
use crate::errors::ServiceError;
use crate::text::{parse_i32, spec_parse_i32};

verus! {

/// The content type a display name's extension implies. The guess is a
/// function of the name alone.
pub uninterp spec fn mime_of(name: Seq<char>) -> Option<Seq<char>>;

/// Relies on `mime_guess::from_path(..).first_raw()`: the first known
/// media type for the path's extension, found case-insensitively and
/// with no disk access, or nothing when the extension is missing or
/// unknown. The guess depends on the name alone.
#[verifier::external_body]
fn guess_content_type(name: &str) -> (r: Option<&'static str>)
    ensures
        r is Some <==> mime_of(name@) is Some,
        r is Some ==> r->0@ == mime_of(name@)->0,
{
    mime_guess::from_path(name).first_raw()
}

/// The content type an emission sends for a display name; a failed
/// inference is a storage-side failure, never a silent default.
pub fn emission_content_type(name: &str) -> (r: Result<String, ServiceError>)
    ensures
        r is Ok <==> mime_of(name@) is Some,
        r is Ok ==> r->Ok_0@ == mime_of(name@)->0,
        r is Err ==> r->Err_0 == ServiceError::Internal,
{
    match guess_content_type(name) {
        Option::Some(s) => Ok(s.to_owned()),
        Option::None => Err(ServiceError::Internal),
    }
}

/// How the HTTP endpoint refuses a request: a missing right or row is
/// reported as absent, an inference or storage fault as internal.
#[derive(Clone, Copy, Debug, PartialEq, Eq, Structural)]
pub enum HttpFailure {
    NotFoundStatus,
    InternalServerError,
}

/// A file response: the inferred content type, the display name for the
/// disposition header, and the stored bytes.
#[derive(Debug)]
pub struct ServedFile {
    pub content_type: String,
    pub file_name: String,
    pub content: Vec<u8>,
}

/// Serves one stored file over HTTP: the caller must present the
/// service's bearer token and a parsable principal id, the principal
/// must own a file row under the hash, the row's name must imply a
/// content type, and the store must hold the object. Every
/// authentication or ownership failure is reported as absent, so the
/// endpoint leaks nothing about what exists.
pub fn serve_file(
    db: &Database,
    store: &ContentStore,
    auth_header: Option<&String>,
    user_header: Option<&String>,
    service_token: &str,
    file_hash: &String,
) -> (r: Result<ServedFile, HttpFailure>)
    ensures
        ({
            let auth_ok = auth_header is Some && spec_bearer_ok(auth_header->0@, service_token@);
            let uid_ok = user_header is Some && spec_parse_i32(user_header->0@) is Some;
            let row = db.spec_file_by_hash(spec_parse_i32(user_header->0@)->0, file_hash@);
            &&& (r is Ok <==> auth_ok && uid_ok && row is Some && mime_of(row->0.name@) is Some
                && store.spec_contains(file_hash@))
            &&& (r == Result::<ServedFile, HttpFailure>::Err(HttpFailure::NotFoundStatus)
                <==> !auth_ok || !uid_ok || row is None)
            &&& (r == Result::<ServedFile, HttpFailure>::Err(HttpFailure::InternalServerError)
                <==> auth_ok && uid_ok && row is Some && (mime_of(row->0.name@) is None
                || !store.spec_contains(file_hash@)))
            &&& (r is Ok ==> {
                let s = r->Ok_0;
                &&& s.content@ == store.spec_content(file_hash@)
                &&& s.file_name == row->0.name
                &&& s.content_type@ == mime_of(row->0.name@)->0
            })
        }),
{
    let authed = match auth_header {
        Option::Some(h) => bearer_header_ok(h.as_str(), service_token),
        Option::None => false,
    };
    if !authed {
        return Err(HttpFailure::NotFoundStatus);
    }
    let user_id = match user_header {
        Option::Some(h) => {
            match parse_i32(h.as_str()) {
                Option::Some(v) => v,
                Option::None => {
                    return Err(HttpFailure::NotFoundStatus);
                },
            }
        },
        Option::None => {
            return Err(HttpFailure::NotFoundStatus);
        },
    };
    let row = match db.find_file_by_hash(user_id, file_hash) {
        Option::Some(f) => f,
        Option::None => {
            return Err(HttpFailure::NotFoundStatus);
        },
    };
    let content_type = match guess_content_type(row.name.as_str()) {
        Option::Some(s) => s.to_owned(),
        Option::None => {
            return Err(HttpFailure::InternalServerError);
        },
    };
    let data = match store.get_object(file_hash) {
        Option::Some(d) => d,
        Option::None => {
            return Err(HttpFailure::InternalServerError);
        },
    };
    let mut content: Vec<u8> = Vec::new();
    let mut i: usize = 0;
    while i < data.len()
        invariant
            i <= data@.len(),
            content@ == data@.take(i as int),
        decreases data@.len() - i,
    {
        content.push(data[i]);
        proof {
            assert(content@ =~= data@.take(i as int + 1));
        }
        i = i + 1;
    }
    proof {
        assert(data@.take(data@.len() as int) =~= data@);
    }
    Ok(ServedFile { content_type, file_name: row.name.clone(), content })
}

} // verus!
