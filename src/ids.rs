//! Identifiers: clients, rooms, channels and message texts.
use vstd::prelude::*;

verus! {

/// A client's identifier: the 128-bit value of a random (version 4) UUID.
#[derive(Debug, Clone, Copy, PartialEq, Eq, Structural, Hash)]
pub struct ClientId(pub u128);

/// Bits of a UUID that hold its version and variant.
pub const UUID_VERSION_VARIANT_MASK: u128 = 0xF000_C000_0000_0000_0000;

/// Version 4 and the RFC 4122 variant, as they stand under the mask above.
pub const UUID_V4_VARIANT_BITS: u128 = 0x4000_8000_0000_0000_0000;

/// Relies on uuid::Uuid::new_v4 and Uuid::as_u128: a random value whose
/// version nibble is 4 and whose variant bits are `10`.
#[verifier::external_body]
fn random_uuid_v4() -> (r: u128)
    ensures
        r & UUID_VERSION_VARIANT_MASK == UUID_V4_VARIANT_BITS,
{
    uuid::Uuid::new_v4().as_u128()
}

impl ClientId {
    /// A fresh identifier, drawn from the operating system's random source.
    pub fn new() -> (r: ClientId)
        ensures
            r.0 & UUID_VERSION_VARIANT_MASK == UUID_V4_VARIANT_BITS,
    {
        ClientId(random_uuid_v4())
    }

    /// The identifier's 128-bit value.
    pub fn get(&self) -> (r: u128)
        ensures
            r == self.0,
    {
        self.0
    }
}

/// The name of a room: a group of clients that see each other's messages.
#[derive(Debug, Clone, PartialEq, Eq, Hash)]
pub struct Room(pub String);

/// A sub-address within a room, carried with each message.
#[derive(Debug, Clone, PartialEq, Eq, Hash)]
pub struct Channel(pub String);

/// The text of a message.
#[derive(Debug, Clone, PartialEq, Eq, Hash)]
pub struct Message(pub String);

impl View for Room {
    type V = Seq<char>;

    open spec fn view(&self) -> Seq<char> {
        self.0@
    }
}

impl View for Channel {
    type V = Seq<char>;

    open spec fn view(&self) -> Seq<char> {
        self.0@
    }
}

impl View for Message {
    type V = Seq<char>;

    open spec fn view(&self) -> Seq<char> {
        self.0@
    }
}

impl std::ops::Deref for Room {
    type Target = String;

    fn deref(&self) -> (r: &String)
        ensures
            *r == self.0,
    {
        &self.0
    }
}

impl std::ops::Deref for Channel {
    type Target = String;

    fn deref(&self) -> (r: &String)
        ensures
            *r == self.0,
    {
        &self.0
    }
}

impl std::ops::Deref for Message {
    type Target = String;

    fn deref(&self) -> (r: &String)
        ensures
            *r == self.0,
    {
        &self.0
    }
}

impl Room {
    /// A copy of the room name.
    pub fn copy(&self) -> (r: Room)
        ensures
            r@ == self@,
    {
        Room(self.0.clone())
    }
}

} // verus!
