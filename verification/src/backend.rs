//! Remote objects: how they are named, and an in-memory store of them.
use std::collections::HashMap;
use vstd::prelude::*;

verus! {

broadcast use vstd::std_specs::hash::group_hash_axioms;

/// Where an uploaded object lies in the channel, and what it must contain.
#[derive(Debug, PartialEq, Eq)]
pub struct RemoteObjectRef {
    pub chat_id: i64,
    pub message_id: i32,
    pub object_id: u64,
    pub generation: u64,
    pub sha256: String,
}

/// The value of a [`RemoteObjectRef`].
#[verifier::ext_equal]
pub struct RemoteObjectRefView {
    pub chat_id: i64,
    pub message_id: i32,
    pub object_id: u64,
    pub generation: u64,
    pub sha256: Seq<char>,
}

impl View for RemoteObjectRef {
    type V = RemoteObjectRefView;

    open spec fn view(&self) -> RemoteObjectRefView {
        RemoteObjectRefView {
            chat_id: self.chat_id,
            message_id: self.message_id,
            object_id: self.object_id,
            generation: self.generation,
            sha256: self.sha256@,
        }
    }
}

impl Clone for RemoteObjectRef {
    fn clone(&self) -> (copy: Self)
        ensures
            copy == *self,
    {
        RemoteObjectRef {
            chat_id: self.chat_id,
            message_id: self.message_id,
            object_id: self.object_id,
            generation: self.generation,
            sha256: self.sha256.clone(),
        }
    }
}

/// The values of a run of references.
pub open spec fn ref_views(refs: Seq<RemoteObjectRef>) -> Seq<RemoteObjectRefView> {
    Seq::new(refs.len(), |i: int| refs[i]@)
}

/// The value of a reference that may be absent.
pub open spec fn opt_ref_view(reference: Option<RemoteObjectRef>) -> Option<RemoteObjectRefView> {
    match reference {
        Some(r) => Some(r@),
        None => None,
    }
}

/// The value of a text that may be absent.
pub open spec fn opt_text_view(text: Option<String>) -> Option<Seq<char>> {
    match text {
        Some(t) => Some(t@),
        None => None,
    }
}

/// Copies a text that may be absent.
pub fn clone_opt_text(text: &Option<String>) -> (copy: Option<String>)
    ensures
        copy == *text,
{
    match text {
        Some(t) => Some(t.clone()),
        None => None,
    }
}

/// Copies a reference that may be absent.
pub fn clone_opt_ref(reference: &Option<RemoteObjectRef>) -> (copy: Option<RemoteObjectRef>)
    ensures
        copy == *reference,
{
    match reference {
        Some(r) => Some(r.clone()),
        None => None,
    }
}

/// Copies a run of references.
pub fn clone_refs(refs: &Vec<RemoteObjectRef>) -> (copy: Vec<RemoteObjectRef>)
    ensures
        copy@ == refs@,
{
    let mut copy: Vec<RemoteObjectRef> = Vec::new();
    let mut i: usize = 0;
    while i < refs.len()
        invariant
            i <= refs@.len(),
            copy@ == refs@.take(i as int),
        decreases refs@.len() - i,
    {
        copy.push(refs[i].clone());
        assert(refs@.take(i + 1) =~= refs@.take(i as int).push(refs@[i as int]));
        i += 1;
    }
    assert(refs@.take(i as int) =~= refs@);
    copy
}

/// No message with the requested number.
#[derive(Debug, Clone, Copy, PartialEq, Eq, Structural)]
pub struct MessageNotFound {
    pub message_id: i32,
}

/// A channel held in memory: messages numbered from one in the order of sending.
#[derive(Debug)]
pub struct MemoryBackend {
    chat_id: i64,
    next_message_id: i32,
    messages: HashMap<i32, Vec<u8>>,
}

impl MemoryBackend {
    /// The channel that the messages belong to.
    pub closed spec fn chat(&self) -> i64 {
        self.chat_id
    }

    /// The number that the next message gets.
    pub closed spec fn next(&self) -> i32 {
        self.next_message_id
    }

    /// The messages sent so far, by number.
    pub closed spec fn sent(&self) -> Map<i32, Seq<u8>> {
        self.messages@.map_values(|payload: Vec<u8>| payload@)
    }

    /// Every message sent has a number between one and the next one.
    #[verifier::type_invariant]
    spec fn numbered(&self) -> bool {
        &&& self.next_message_id >= 1
        &&& forall|id: i32|
            #[trigger] self.messages@.dom().contains(id) ==> 1 <= id < self.next_message_id
    }

    /// An empty channel.
    pub fn new(chat_id: i64) -> (backend: Self)
        ensures
            backend.chat() == chat_id,
            backend.next() == 1,
            backend.sent() == Map::<i32, Seq<u8>>::empty(),
    {
        let messages: HashMap<i32, Vec<u8>> = HashMap::new();
        let backend = MemoryBackend { chat_id, next_message_id: 1, messages };
        assert(backend.sent() =~= Map::<i32, Seq<u8>>::empty());
        backend
    }

    /// The number that the next message gets.
    pub fn next_message_id(&self) -> (id: i32)
        ensures
            id == self.next(),
    {
        self.next_message_id
    }

    /// Stores a payload under the next number and hands back its reference. The
    /// number was not in use before.
    pub fn send_object(
        &mut self,
        object_id: u64,
        generation: u64,
        payload: Vec<u8>,
        sha256: String,
    ) -> (reference: RemoteObjectRef)
        requires
            old(self).next() < i32::MAX,
        ensures
            reference@ == (RemoteObjectRefView {
                chat_id: old(self).chat(),
                message_id: old(self).next(),
                object_id,
                generation,
                sha256: sha256@,
            }),
            !old(self).sent().dom().contains(reference.message_id),
            final(self).sent() == old(self).sent().insert(reference.message_id, payload@),
            final(self).next() == old(self).next() + 1,
            final(self).chat() == old(self).chat(),
    {
        proof {
            use_type_invariant(&*self);
        }
        let ghost before = self.sent();
        let message_id: i32 = self.next_message_id;
        self.next_message_id = message_id + 1;
        let mut messages: HashMap<i32, Vec<u8>> = HashMap::new();
        std::mem::swap(&mut messages, &mut self.messages);
        messages.insert(message_id, payload);
        self.messages = messages;
        assert(self.sent() =~= before.insert(message_id, payload@));
        RemoteObjectRef { chat_id: self.chat_id, message_id, object_id, generation, sha256 }
    }

    /// The payload of the message that a reference names.
    pub fn fetch_object(&self, reference: &RemoteObjectRef) -> (payload: Result<
        Vec<u8>,
        MessageNotFound,
    >)
        ensures
            match payload {
                Ok(bytes) => self.sent().dom().contains(reference.message_id)
                    && self.sent()[reference.message_id] == bytes@,
                Err(e) => !self.sent().dom().contains(reference.message_id) && e.message_id
                    == reference.message_id,
            },
    {
        match self.messages.get(&reference.message_id) {
            Some(bytes) => Ok(clone_bytes(bytes)),
            None => Err(MessageNotFound { message_id: reference.message_id }),
        }
    }

    /// The payloads of several messages, in the order asked for.
    pub fn get_messages_by_id(&self, ids: &[i32]) -> (payloads: Vec<Option<Vec<u8>>>)
        ensures
            payloads@.len() == ids@.len(),
            forall|i: int|
                0 <= i < ids@.len() ==> match #[trigger] payloads@[i] {
                    Some(bytes) => self.sent().dom().contains(ids@[i]) && self.sent()[ids@[i]]
                        == bytes@,
                    None => !self.sent().dom().contains(ids@[i]),
                },
    {
        let mut payloads: Vec<Option<Vec<u8>>> = Vec::new();
        let mut i: usize = 0;
        while i < ids.len()
            invariant
                i <= ids@.len(),
                payloads@.len() == i,
                forall|k: int|
                    0 <= k < i ==> match #[trigger] payloads@[k] {
                        Some(bytes) => self.sent().dom().contains(ids@[k]) && self.sent()[ids@[k]]
                            == bytes@,
                        None => !self.sent().dom().contains(ids@[k]),
                    },
            decreases ids@.len() - i,
        {
            payloads.push(
                match self.messages.get(&ids[i]) {
                    Some(bytes) => Some(clone_bytes(bytes)),
                    None => None,
                },
            );
            i += 1;
        }
        payloads
    }
}

/// Copies a byte string.
pub fn clone_bytes(bytes: &Vec<u8>) -> (copy: Vec<u8>)
    ensures
        copy@ == bytes@,
{
    vstd::slice::slice_to_vec(bytes.as_slice())
}

} // verus!
