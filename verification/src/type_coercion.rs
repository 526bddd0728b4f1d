//! Turning a string slice into the shapes a caller wants to hold it in.
use vstd::prelude::*;
use std::borrow::Cow;
use std::sync::Arc;

verus! {

/// `Arc::<str>::from(&str)`: a shared copy of the slice's characters in one allocation.
#[verifier::external_body]
fn arc_from_str(s: &str) -> (r: Arc<str>)
    ensures
        (*r)@ == s@,
{
    Arc::from(s)
}

/// The shapes a string slice can be held in.
pub trait TypeCoercion {
    /// This slice as a [`Cow`], borrowed.
    ///
    /// Never allocates. It is the shape a function takes when it may or may not need to
    /// modify what it was given, and this is the "did not need to" side of it.
    fn as_cow(&self) -> Cow<'_, str>;

    /// This slice in an [`Arc`], as `Arc<String>`.
    ///
    /// Two allocations and two hops to read a byte: the `Arc` holds a `String`, which holds
    /// the buffer. [`to_arc`](Self::to_arc) is one of each and is what most callers want.
    /// This one is for a caller that will later reach for `Arc::make_mut` and needs the
    /// `String` to grow into.
    fn into_arc(&self) -> Arc<String>;

    /// This slice in an [`Arc`], as `Arc<str>`.
    ///
    /// One allocation and one hop. Prefer this to [`into_arc`](Self::into_arc) unless the
    /// contents have to be mutable later.
    fn to_arc(&self) -> Arc<str>;
}

impl TypeCoercion for str {
    fn as_cow(&self) -> (r: Cow<'_, str>)
        ensures
            r is Borrowed,
            r@ == self@,
    {
        Cow::Borrowed(self)
    }

    fn into_arc(&self) -> (r: Arc<String>)
        ensures
            r@ == self@,
    {
        broadcast use vstd::string::to_string_from_display_ensures_for_str;

        Arc::new(self.to_string())
    }

    fn to_arc(&self) -> (r: Arc<str>)
        ensures
            (*r)@ == self@,
    {
        // `From<&str> for Arc<str>` copies the bytes straight into the allocation the `Arc`
        // makes. Going through a `String` would allocate once for the `String` and again to
        // move it in.
        arc_from_str(self)
    }
}

} // verus!
