//! Types that know their own message descriptor.

use vstd::prelude::*;

use crate::handles::MessageDescriptor;
use crate::message::DynamicMessage;

verus! {

/// A message type that can name its descriptor.
pub trait ReflectMessage {
    /// The descriptor of `self`'s message type.
    fn descriptor(&self) -> MessageDescriptor;
}

impl ReflectMessage for DynamicMessage {
    /// A dynamic message's descriptor is the one it was made with.
    fn descriptor(&self) -> (r: MessageDescriptor)
        ensures
            r.pool_view() == self.model().pool,
            r.index() == self.model().index,
    {
        DynamicMessage::descriptor(self)
    }
}

} // verus!
