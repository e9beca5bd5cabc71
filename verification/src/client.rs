//! The client side of a tunnel: what it is configured with, and the
//! datagram that it opens the conversation with.

use vstd::prelude::*;
use vstd::slice::slice_to_vec;
use vstd::utf8::encode_utf8;
use crate::command::{connect_word, lemma_command_words, CONNECT_STR};

verus! {

/// A tunnel client: the relay it talks to, the local address it serves, and
/// the key it presents to the relay.
pub struct Client {
    remote_addr: String,
    local_addr: String,
    key: String,
}

impl Client {
    /// The address of the relay.
    pub closed spec fn remote(&self) -> Seq<char> {
        self.remote_addr@
    }

    /// The local address that the tunnel serves.
    pub closed spec fn local(&self) -> Seq<char> {
        self.local_addr@
    }

    /// The key that the client presents to the relay.
    pub closed spec fn secret(&self) -> Seq<char> {
        self.key@
    }

    /// A client of the relay at `remote_addr`, for the local service at
    /// `local_addr`, with the key `key`.
    pub fn new(remote_addr: String, local_addr: String, key: String) -> (client: Self)
        ensures
            client.remote() == remote_addr@,
            client.local() == local_addr@,
            client.secret() == key@,
    {
        Self { remote_addr, local_addr, key }
    }

    /// The address of the relay.
    pub fn remote_addr(&self) -> (addr: &str)
        ensures
            addr@ == self.remote(),
    {
        self.remote_addr.as_str()
    }

    /// The local address that the tunnel serves.
    pub fn local_addr(&self) -> (addr: &str)
        ensures
            addr@ == self.local(),
    {
        self.local_addr.as_str()
    }

    /// The key that the client presents to the relay.
    pub fn key(&self) -> (key: &str)
        ensures
            key@ == self.secret(),
    {
        self.key.as_str()
    }

    /// The payload of the datagram that the client sends first: the word
    /// `CONNECT`, a space, and the key.
    pub fn connect_request(&self) -> (payload: Vec<u8>)
        ensures
            payload@ == connect_word() + seq![0x20u8] + encode_utf8(self.secret()),
    {
        proof {
            lemma_command_words();
        }
        let mut payload = slice_to_vec(CONNECT_STR.as_bytes());
        payload.push(0x20);
        let key = self.key.as_str().as_bytes();
        let ghost head = payload@;
        let mut i: usize = 0;
        while i < key.len()
            invariant
                i <= key.len(),
                payload@ == head + key@.take(i as int),
            decreases key.len() - i,
        {
            payload.push(key[i]);
            proof {
                assert(key@.take(i as int + 1) =~= key@.take(i as int).push(key@[i as int]));
            }
            i = i + 1;
        }
        proof {
            assert(key@.take(i as int) =~= key@);
        }
        payload
    }
}

} // verus!
