//! Application messages and their contents. Serialization happens at the
//! edge of the library: the core moves bytes.

use vstd::prelude::*;
use crate::node::NodeId;

verus! {

/// A message of session `session_id` from `source_id` to `destination_id`.
#[derive(Debug)]
pub struct Message<M> {
    pub source_id: NodeId,
    pub destination_id: NodeId,
    pub session_id: u64,
    pub content: M,
}

impl<M> Message<M> {
    pub fn new(source_id: NodeId, destination_id: NodeId, session_id: u64, content: M) -> (r: Self)
        ensures
            r.source_id == source_id,
            r.destination_id == destination_id,
            r.session_id == session_id,
            r.content == content,
    {
        Message { source_id, destination_id, session_id, content }
    }

    /// The response to this request: same session, back to its source.
    pub fn generate_response<R>(&self, content: R) -> (r: Message<R>)
        ensures
            r.source_id == self.destination_id,
            r.destination_id == self.source_id,
            r.session_id == self.session_id,
            r.content == content,
    {
        Message {
            source_id: self.destination_id,
            destination_id: self.source_id,
            session_id: self.session_id,
            content,
        }
    }
}

/// The content of a message.
pub trait MessageContent {

}

/// The content of a request.
pub trait Request: MessageContent {

}

/// The content of a response.
pub trait Response: MessageContent {

}

#[derive(Debug, Clone)]
pub enum ChatRequest {
    ClientList,
    Register(String),
    SendMessage { from: String, to: String, message: String },
}

#[derive(Debug, Clone)]
pub enum ChatResponse {
    ClientList(Vec<String>),
    MessageFrom { from: String, message: String },
    DestinationNotFound,
}

#[derive(Debug, Clone)]
pub enum TextRequest {
    TextList,
    Text(String),
}

#[derive(Debug, Clone)]
pub enum TextResponse {
    TextList(Vec<String>),
    Text(String),
    NotFound,
}

#[derive(Debug, Clone)]
pub enum MediaRequest {
    MediaList,
    Media(String),
    ExpandList,
}

#[derive(Debug, Clone)]
pub enum MediaResponse {
    MediaList(Vec<String>),
    Media(Vec<u8>),
    NotFound,
}

#[derive(Debug, Clone)]
pub enum ContentRequest {
    TextRequest(TextRequest),
    MediaRequest(MediaRequest),
}

#[derive(Debug, Clone)]
pub enum ContentResponse {
    TextResponse(TextResponse),
    MediaResponse(MediaResponse),
    ServiceNotProvided,
}

impl MessageContent for String {

}

impl MessageContent for ChatRequest {

}

impl Request for ChatRequest {

}

impl MessageContent for ChatResponse {

}

impl Response for ChatResponse {

}

impl MessageContent for ContentRequest {

}

impl Request for ContentRequest {

}

impl MessageContent for ContentResponse {

}

impl Response for ContentResponse {

}

/// A node that runs its event loop until told to stop.
pub trait Runnable {
    fn run(&mut self);
}

} // verus!
