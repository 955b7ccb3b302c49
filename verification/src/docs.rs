use vstd::prelude::*;

verus! {

/// The fixed text served by the documentation endpoint.
pub open spec fn docs_text() -> Seq<char> {
    "
    Welcome to RustyVault Docs! minimal documentation:

    1) GET : '/'.
        use '/' to check if RustyVault API is active and listening actively on localhost at port 8080

    2) GET : '/api/v1/docs'.
        use '/api/v1/docs' to browse to the minimal docs for development.

    3) POST : '/api/v1/vault/create'.
        use '/api/v1/vault/create' to create a new vault.
        Body : name, replicas (pass as a raw json body).

    4) GET : '/api/v1/vault/list'.
        use '/api/v1/vault/list' to list the vaults held by the store.

    5) GET : '/api/v1/vault/replicas'.
        use '/api/v1/vault/replicas' to list the replicas held by the store.
    "@
}

/// The minimal usage notes returned by the documentation endpoint.
pub fn docs() -> (r: String)
    ensures
        r@ == docs_text(),
{
    "
    Welcome to RustyVault Docs! minimal documentation:

    1) GET : '/'.
        use '/' to check if RustyVault API is active and listening actively on localhost at port 8080

    2) GET : '/api/v1/docs'.
        use '/api/v1/docs' to browse to the minimal docs for development.

    3) POST : '/api/v1/vault/create'.
        use '/api/v1/vault/create' to create a new vault.
        Body : name, replicas (pass as a raw json body).

    4) GET : '/api/v1/vault/list'.
        use '/api/v1/vault/list' to list the vaults held by the store.

    5) GET : '/api/v1/vault/replicas'.
        use '/api/v1/vault/replicas' to list the replicas held by the store.
    ".to_owned()
}

} // verus!
