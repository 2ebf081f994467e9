use vstd::prelude::*;

verus! {

/// One indexed unit of payload bytes delivered to the reassembly buffer.
///
/// `index` is the message's position in the logical stream; the complete
/// stream uses the dense sequence 0, 1, 2, ... of indices. `data` is the
/// payload for that position and is never inspected by the buffer.
#[derive(Debug)]
pub struct Message {
    pub data: Vec<u8>,
    pub index: u64,
}

/// The mathematical value of a `Message`: its position and its payload bytes.
pub ghost struct MessageModel {
    pub index: u64,
    pub data: Seq<u8>,
}

impl View for Message {
    type V = MessageModel;

    open spec fn view(&self) -> MessageModel {
        MessageModel { index: self.index, data: self.data@ }
    }
}

} // verus!
