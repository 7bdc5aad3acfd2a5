//! Storage for the digits of a number: either borrowed for the whole program or shared.
use std::rc::Rc;
use vstd::prelude::*;

verus! {

/// The digits of a number, either a slice that lives for the whole program or a vector
/// that several numbers may share.
#[derive(Debug)]
pub enum DigitsType {
    Ref(&'static [u8]),
    V(Rc<Vec<u8>>),
}

impl View for DigitsType {
    type V = Seq<u8>;

    open spec fn view(&self) -> Seq<u8> {
        match self {
            DigitsType::Ref(r) => r@,
            DigitsType::V(v) => v@,
        }
    }
}

/// `Rc::strong_count`: how many `Rc` values share the allocation. The count depends on how
/// the program has shared the value, not on its contents, so only its lower bound is stated.
#[verifier::external_body]
fn rc_strong_count(rc: &Rc<Vec<u8>>) -> (count: usize)
    ensures
        count >= 1,
{
    Rc::strong_count(rc)
}

/// `Rc::clone`: a new handle to the same vector, so it holds the same digits.
#[verifier::external_body]
fn rc_clone(rc: &Rc<Vec<u8>>) -> (copy: Rc<Vec<u8>>)
    ensures
        copy == *rc,
{
    Rc::clone(rc)
}

impl DigitsType {
    /// The digits as a slice, wherever they are held.
    #[inline]
    pub fn get_ref(&self) -> (digits: &[u8])
        ensures
            digits@ == self@,
    {
        match self {
            DigitsType::Ref(r) => r,
            DigitsType::V(v) => v.as_slice(),
        }
    }

    /// The digits as an owned vector, reusing the shared vector when nothing else holds it.
    pub fn into_vec(self) -> (v: Vec<u8>)
        ensures
            v@ == self@,
    {
        match self {
            DigitsType::Ref(r) => vstd::slice::slice_to_vec(r),
            DigitsType::V(v) => match Rc::try_unwrap(v) {
                Ok(owned) => owned,
                Err(shared) => {
                    let copy = (*shared).clone();
                    assert(copy@ =~= shared@);
                    copy
                },
            },
        }
    }

    /// The number of digits.
    pub fn len(&self) -> (n: usize)
        ensures
            n == self@.len(),
    {
        self.get_ref().len()
    }

    /// Whether the digits are held in a vector that no other number shares.
    pub fn holds_memory(&self) -> (held: bool)
        ensures
            self is Ref ==> !held,
    {
        match self {
            DigitsType::Ref(_r) => false,
            DigitsType::V(rc) => rc_strong_count(rc) == 1,
        }
    }

    /// The digit at `index`.
    pub fn index(&self, index: usize) -> (d: u8)
        requires
            index < self@.len(),
        ensures
            d == self@[index as int],
    {
        self.get_ref()[index]
    }

    /// The digits as a slice.
    pub fn as_slice(&self) -> (digits: &[u8])
        ensures
            digits@ == self@,
    {
        self.get_ref()
    }
}

impl From<&'static [u8]> for DigitsType {
    fn from(v: &'static [u8]) -> (d: Self) {
        DigitsType::Ref(v)
    }
}

impl vstd::std_specs::convert::FromSpecImpl<&'static [u8]> for DigitsType {
    open spec fn obeys_from_spec() -> bool {
        true
    }

    open spec fn from_spec(v: &'static [u8]) -> Self {
        DigitsType::Ref(v)
    }
}

impl From<Vec<u8>> for DigitsType {
    fn from(v: Vec<u8>) -> (d: Self) {
        DigitsType::V(Rc::new(v))
    }
}

impl vstd::std_specs::convert::FromSpecImpl<Vec<u8>> for DigitsType {
    open spec fn obeys_from_spec() -> bool {
        true
    }

    open spec fn from_spec(v: Vec<u8>) -> Self {
        DigitsType::V(Rc::new(v))
    }
}

impl Clone for DigitsType {
    fn clone(&self) -> (copy: Self)
        ensures
            copy == *self,
    {
        match self {
            DigitsType::Ref(r) => DigitsType::Ref(r),
            DigitsType::V(v) => DigitsType::V(rc_clone(v)),
        }
    }
}

} // verus!
