//! The plain data the surrounding service passes around: configuration,
//! the posted chat request, and the template values of the two rendered
//! views. Rendering and deserialization live outside this library, on
//! mirror types that carry the needed derives.

use vstd::prelude::*;

verus! {

/// The service configuration handed to each chat call: upstream host and
/// model identifier, passed in explicitly instead of read from the
/// process environment.
#[derive(Debug, Clone)]
pub struct AppState {
    pub ollama_host: String,
    pub ollama_model: String,
}

/// A chat request the UI posts: the user's message text.
#[derive(Debug)]
pub struct ChatRequest {
    pub message: String,
}

/// The template value of the chat page shell.
#[derive(Debug)]
pub struct ChatPage {}

/// The template value of one rendered chat message: sender, timestamp
/// text, body text.
#[derive(Debug)]
pub struct Message {
    pub from: String,
    pub time: String,
    pub text: String,
}

} // verus!
