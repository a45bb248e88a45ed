//! The request/reply boundary: path parsing and the choice of reply.
//!
//! The transport itself — a blocking request/reply socket — is an outside
//! collaborator; an embedding receives one UTF-8 message, asks [`reply_for`]
//! what to answer, serialises the record if one comes back, and sends it.
//! Everything here is computation on plain values.

use vstd::prelude::*;

verus! {

/// Where the method name of a path `/method/params` ends: the index of the
/// first `/` at or after `i`, or the path's length when none follows.
pub open spec fn method_end(s: Seq<char>, i: int) -> int
    recommends
        0 <= i <= s.len(),
    decreases s.len() - i,
{
    if i < 0 || i >= s.len() {
        s.len() as int
    } else if s[i] == '/' {
        i
    } else {
        method_end(s, i + 1)
    }
}

/// Splits an RPC path `/method/params` into its method name and parameter
/// rest. Paths that do not begin with `/` are rejected; a path without a
/// second `/` has all of its tail as the method and no parameters.
pub fn parse_rpc_method(path: &str) -> (r: Option<(&str, &str)>)
    ensures
        r is Some <==> path@.len() > 0 && path@[0] == '/',
        r matches Some((method, params)) ==> {
            let e = method_end(path@, 1);
            &&& method@ == path@.subrange(1, e)
            &&& (e < path@.len() ==> params@ == path@.subrange(e + 1, path@.len() as int))
            &&& (e == path@.len() ==> params@ == Seq::<char>::empty())
        },
{
    let n = path.unicode_len();
    if n == 0 || path.get_char(0) != '/' {
        return None;
    }
    let mut i: usize = 1;
    while i < n && path.get_char(i) != '/'
        invariant
            1 <= i <= n,
            n == path@.len(),
            method_end(path@, 1) == method_end(path@, i as int),
        decreases n - i,
    {
        i = i + 1;
    }
    proof {
        assert(method_end(path@, 1) == i as int);
    }
    let method = path.substring_char(1, i);
    let params = if i < n {
        path.substring_char(i + 1, n)
    } else {
        path.substring_char(n, n)
    };
    proof {
        if i == n {
            assert(params@ =~= Seq::<char>::empty());
        }
    }
    Some((method, params))
}

/// The record the endpoint serialises in answer to an entity query.
pub struct Entity {
    pub name: String,
    pub id: i64,
}

/// What the endpoint answers to one received message: either a record to be
/// serialised, or the fixed acknowledgement text.
pub enum Reply {
    /// Answer with this record, serialised.
    Record(Entity),
    /// Answer with the fixed acknowledgement string.
    Ack,
}

/// A message is an entity query when it carries the `entity:` prefix.
pub open spec fn is_entity_query(s: Seq<char>) -> bool {
    s.len() >= 7 && s.subrange(0, 7) == "entity:"@
}

/// Whether `msg` starts with the `entity:` prefix.
pub fn has_entity_prefix(msg: &str) -> (b: bool)
    ensures
        b == is_entity_query(msg@),
{
    proof {
        reveal_strlit("entity:");
    }
    let n = msg.unicode_len();
    if n < 7 {
        return false;
    }
    let b = msg.get_char(0) == 'e' && msg.get_char(1) == 'n' && msg.get_char(2) == 't'
        && msg.get_char(3) == 'i' && msg.get_char(4) == 't' && msg.get_char(5) == 'y'
        && msg.get_char(6) == ':';
    proof {
        if b {
            assert(msg@.subrange(0, 7) =~= "entity:"@);
        } else {
            if is_entity_query(msg@) {
                assert(msg@.subrange(0, 7) == "entity:"@);
                assert(msg@[0] == 'e' && msg@[1] == 'n' && msg@[2] == 't' && msg@[3] == 'i'
                    && msg@[4] == 't' && msg@[5] == 'y' && msg@[6] == ':') by {
                    assert(msg@.subrange(0, 7)[0] == msg@[0]);
                    assert(msg@.subrange(0, 7)[1] == msg@[1]);
                    assert(msg@.subrange(0, 7)[2] == msg@[2]);
                    assert(msg@.subrange(0, 7)[3] == msg@[3]);
                    assert(msg@.subrange(0, 7)[4] == msg@[4]);
                    assert(msg@.subrange(0, 7)[5] == msg@[5]);
                    assert(msg@.subrange(0, 7)[6] == msg@[6]);
                }
                assert(false);
            }
        }
    }
    b
}

/// Decides the reply to one received message: an entity query is answered
/// with the test record carrying the given identifier, anything else with
/// the acknowledgement. The identifier is drawn by the embedding — the
/// endpoint draws it at random — so it arrives here as a plain argument.
pub fn reply_for(msg: &str, id: i64) -> (r: Reply)
    ensures
        is_entity_query(msg@) ==> (r matches Reply::Record(e) && e.name@ == "test"@ && e.id
            == id),
        !is_entity_query(msg@) ==> r is Ack,
{
    if has_entity_prefix(msg) {
        Reply::Record(Entity { name: "test".to_owned(), id })
    } else {
        Reply::Ack
    }
}

/// A request interface an addressable collection can answer on. A vector
/// acknowledges every request with an empty reply, whether or not the path
/// parses.
pub trait RpcInterface {
    fn rpc(&self, path: &str, msg: &str) -> (r: String)
        ensures
            r@.len() == 0,
    ;

    fn rpc_mut(&mut self, path: &str, msg: &str) -> (r: String)
        ensures
            r@.len() == 0,
    ;
}

impl<T> RpcInterface for Vec<T> {
    fn rpc(&self, path: &str, msg: &str) -> (r: String) {
        match parse_rpc_method(path) {
            Some(_) => String::new(),
            None => String::new(),
        }
    }

    fn rpc_mut(&mut self, path: &str, msg: &str) -> (r: String) {
        String::new()
    }
}

} // verus!
