//! Link-layer addresses.

use crate::net::table::Id;
use vstd::prelude::*;

verus! {

/// An address of the link layer.
pub trait LinkAddress: Id {
    /// The number of bytes of an address.
    spec fn length() -> nat;

    /// The bytes of the address.
    spec fn to_bytes(self) -> Seq<u8>;

    /// The address with the given bytes.
    spec fn of_bytes(bytes: Seq<u8>) -> Self;

    /// Bytes and addresses correspond.
    proof fn bytes_round_trip(self)
        ensures
            self.to_bytes().len() == Self::length(),
            Self::of_bytes(self.to_bytes()) == self,
    ;

    /// The number of bytes of an address.
    fn bytes_length() -> (result: usize)
        ensures
            result == Self::length(),
    ;

    /// Makes an address from its bytes.
    fn from_bytes(bytes: &Vec<u8>) -> (result: Self)
        requires
            bytes@.len() >= Self::length(),
        ensures
            result == Self::of_bytes(bytes@.take(Self::length() as int)),
    ;

    /// The bytes of the address.
    fn bytes(&self) -> (result: Vec<u8>)
        ensures
            result@ == self.to_bytes(),
    ;
}

/// An Ethernet address.
#[derive(Clone, Copy, Debug, PartialEq, Eq, Hash, Structural)]
pub struct Mac {
    b0: u8,
    b1: u8,
    b2: u8,
    b3: u8,
    b4: u8,
    b5: u8,
}

impl Mac {
    /// Makes an address from its bytes.
    pub fn new(bytes: [u8; 6]) -> (result: Mac)
        ensures
            result.to_bytes() == bytes@,
    {
        let result = Mac {
            b0: bytes[0],
            b1: bytes[1],
            b2: bytes[2],
            b3: bytes[3],
            b4: bytes[4],
            b5: bytes[5],
        };
        assert(result.to_bytes() =~= bytes@);
        result
    }
}

impl Id for Mac {
    fn same(&self, other: &Self) -> (result: bool) {
        *self == *other
    }
}

impl LinkAddress for Mac {
    open spec fn length() -> nat {
        6
    }

    closed spec fn to_bytes(self) -> Seq<u8> {
        seq![self.b0, self.b1, self.b2, self.b3, self.b4, self.b5]
    }

    closed spec fn of_bytes(bytes: Seq<u8>) -> Mac {
        Mac {
            b0: bytes[0],
            b1: bytes[1],
            b2: bytes[2],
            b3: bytes[3],
            b4: bytes[4],
            b5: bytes[5],
        }
    }

    proof fn bytes_round_trip(self) {
    }

    fn bytes_length() -> (result: usize) {
        6
    }

    fn from_bytes(bytes: &Vec<u8>) -> (result: Self) {
        Mac {
            b0: bytes[0],
            b1: bytes[1],
            b2: bytes[2],
            b3: bytes[3],
            b4: bytes[4],
            b5: bytes[5],
        }
    }

    fn bytes(&self) -> (result: Vec<u8>) {
        let mut result: Vec<u8> = Vec::new();
        result.push(self.b0);
        result.push(self.b1);
        result.push(self.b2);
        result.push(self.b3);
        result.push(self.b4);
        result.push(self.b5);
        assert(result@ =~= self.to_bytes());
        result
    }
}

} // verus!
