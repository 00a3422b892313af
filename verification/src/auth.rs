//! Request authentication: the exact-match interceptor the RPC surface
//! uses, and the bearer-header check of the HTTP file endpoint.

use vstd::prelude::*;

verus! {

/// Compares two string slices for equal contents.
pub fn str_eq(a: &str, b: &str) -> (r: bool)
    ensures
        r == (a@ == b@),
{
    let a_len = a.unicode_len();
    let b_len = b.unicode_len();
    if a_len != b_len {
        return false;
    }
    let mut i: usize = 0;
    while i < a_len
        invariant
            i <= a_len,
            a_len == a@.len(),
            b_len == b@.len(),
            a_len == b_len,
            forall|j: int| 0 <= j < i ==> a@[j] == b@[j],
        decreases a_len - i,
    {
        let ca = a.get_char(i);
        let cb = b.get_char(i);
        if ca != cb {
            return false;
        }
        i = i + 1;
    }
    proof {
        assert(a@ =~= b@);
    }
    true
}

/// The request interceptor: every call must carry an authorization
/// header equal, letter for letter, to the configured value.
#[derive(Clone, Debug)]
pub struct Interceptor {
    pub auth_value: String,
}

impl Interceptor {
    /// Whether a request's authorization header passes.
    pub fn authorize(&self, header: Option<&String>) -> (r: bool)
        ensures
            r == (header is Some && header->0@ == self.auth_value@),
    {
        match header {
            Option::Some(h) => str_eq(h.as_str(), self.auth_value.as_str()),
            Option::None => false,
        }
    }
}

/// A well-formed bearer header: the word `Bearer:`, one space, the
/// token — exactly two space-separated fields.
pub open spec fn spec_bearer_ok(v: Seq<char>, token: Seq<char>) -> bool {
    exists|i: int|
        {
            &&& 0 <= i < v.len()
            &&& #[trigger] v[i] == ' '
            &&& forall|j: int| 0 <= j < v.len() && j != i ==> v[j] != ' '
            &&& v.take(i) == "Bearer:"@
            &&& v.skip(i + 1) == token
        }
}

/// Checks a bearer header against the expected service token.
pub fn bearer_header_ok(value: &str, token: &str) -> (r: bool)
    ensures
        r == spec_bearer_ok(value@, token@),
{
    let len = value.unicode_len();
    let mut space_at: usize = 0;
    let mut found = false;
    let mut i: usize = 0;
    while i < len
        invariant
            i <= len,
            len == value@.len(),
            !found ==> forall|j: int| 0 <= j < i ==> value@[j] != ' ',
            found ==> 0 <= space_at < i && value@[space_at as int] == ' ' && (forall|j: int|
                0 <= j < i && j != space_at ==> value@[j] != ' '),
        decreases len - i,
    {
        if value.get_char(i) == ' ' {
            if found {
                proof {
                    assert forall|k: int| !({
                        &&& 0 <= k < value@.len()
                        &&& value@[k] == ' '
                        &&& forall|j: int| 0 <= j < value@.len() && j != k ==> value@[j] != ' '
                    }) by {
                        if 0 <= k < value@.len() && value@[k] == ' ' {
                            if k != space_at {
                                assert(value@[space_at as int] == ' ');
                            } else {
                                assert(value@[i as int] == ' ');
                            }
                        }
                    }
                }
                return false;
            }
            space_at = i;
            found = true;
        }
        i = i + 1;
    }
    if !found {
        return false;
    }
    let prefix = value.substring_char(0, space_at);
    let suffix = value.substring_char(space_at + 1, len);
    let r = str_eq(prefix, "Bearer:") && str_eq(suffix, token);
    proof {
        assert(value@.subrange(0, space_at as int) =~= value@.take(space_at as int));
        assert(value@.subrange(space_at as int + 1, value@.len() as int) =~= value@.skip(
            space_at as int + 1,
        ));
        if r {
            assert(spec_bearer_ok(value@, token@)) by {
                assert({
                    &&& 0 <= space_at < value@.len()
                    &&& value@[space_at as int] == ' '
                    &&& forall|j: int|
                        0 <= j < value@.len() && j != space_at ==> value@[j] != ' '
                    &&& value@.take(space_at as int) == "Bearer:"@
                    &&& value@.skip(space_at as int + 1) == token@
                });
            }
        } else {
            assert forall|k: int| !({
                &&& 0 <= k < value@.len()
                &&& value@[k] == ' '
                &&& forall|j: int| 0 <= j < value@.len() && j != k ==> value@[j] != ' '
                &&& value@.take(k) == "Bearer:"@
                &&& value@.skip(k + 1) == token@
            }) by {
                if 0 <= k < value@.len() && value@[k] == ' ' && (forall|j: int|
                    0 <= j < value@.len() && j != k ==> value@[j] != ' ') {
                    assert(k == space_at) by {
                        if k != space_at {
                            assert(value@[space_at as int] == ' ');
                        }
                    }
                    assert(!(value@.take(k) == "Bearer:"@ && value@.skip(k + 1) == token@));
                }
            }
        }
    }
    r
}

} // verus!
