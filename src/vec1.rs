use vstd::prelude::*;

verus! {

/// A vector that always holds at least one element.
#[derive(Clone, Debug, PartialEq, Eq)]
pub struct Vec1<T>(Vec<T>);

impl<T> View for Vec1<T> {
    type V = Seq<T>;

    closed spec fn view(&self) -> Seq<T> {
        self.0@
    }
}

impl<T> Vec1<T> {
    pub fn new(t: T) -> (r: Self)
        ensures
            r@ == seq![t],
    {
        let mut v = Vec::with_capacity(1);
        v.push(t);
        Vec1(v)
    }

    pub fn push(&mut self, t: T)
        ensures
            final(self)@ == old(self)@.push(t),
    {
        self.0.push(t);
    }

    pub fn append(&mut self, other: &mut Vec<T>)
        ensures
            final(self)@ == old(self)@ + old(other)@,
            final(other)@ == Seq::<T>::empty(),
    {
        self.0.append(other);
    }

    pub fn into_vec(self) -> (r: Vec<T>)
        ensures
            r@ == self@,
    {
        self.0
    }

    pub fn as_vec(&self) -> (r: &Vec<T>)
        ensures
            r@ == self@,
    {
        &self.0
    }

    /// Wraps `value` when it is not empty.
    pub fn try_from_vec(value: Vec<T>) -> (r: Result<Self, ()>)
        ensures
            value@.len() == 0 <==> r is Err,
            r matches Ok(v) ==> v@ == value@,
    {
        if value.len() == 0 {
            Err(())
        } else {
            Ok(Vec1(value))
        }
    }
}

} // verus!
