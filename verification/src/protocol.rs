//! The request and response shapes of the query surface. The request kinds
//! form a closed set dispatched through an explicit match by the transport
//! layer outside this crate; string-keyed data fields carry the parameters
//! of each operation.

use std::collections::HashMap;

use vstd::prelude::*;

verus! {

/// The closed set of operations a client can ask of the store.
#[derive(Clone, Debug, PartialEq, Eq, Hash, Structural)]
pub enum ZkRequestType {
    ZkLoad,
    LoadDocs,
    Query,
}

/// A client request: an operation and its string-keyed parameters.
#[derive(Clone, Debug)]
pub struct ZkRequest {
    pub request_type: ZkRequestType,
    pub data: HashMap<String, String>,
}

impl ZkRequest {
    /// A request of the given kind with no parameters yet.
    pub fn new(request_type: ZkRequestType) -> (r: ZkRequest)
        ensures
            r.request_type == request_type,
            r.data@ == Map::<String, String>::empty(),
    {
        let request = ZkRequest { request_type, data: HashMap::new() };
        request
    }
}

/// The kinds of response the store can send back.
#[derive(Clone, Debug, PartialEq, Eq, Hash, Structural)]
pub enum ZkResponseType {
    ZkLoad,
}

/// A server response: string-keyed result fields.
#[derive(Clone, Debug)]
pub struct ZkResponse {
    pub data: HashMap<String, String>,
}

impl ZkResponse {
    /// A response with no result fields yet.
    pub fn new() -> (r: ZkResponse)
        ensures
            r.data@ == Map::<String, String>::empty(),
    {
        let response = ZkResponse { data: HashMap::new() };
        response
    }
}

} // verus!
