//! Text to speech with the Kokoro model.
//!
//! Text is split into chunks on sentence boundaries ([`text`]), each of which is
//! turned into the phonemes the model reads ([`phonemes`]) with its punctuation kept
//! ([`punctuation`]). A chunk is synthesised with a voice ([`voices`]) a batch at a
//! time ([`synth`]), the silence around it is taken off ([`mod@trim`]), and the audio
//! goes to a sink ([`audio`]). [`models`] finds the files all of this needs, and
//! [`cli`] says what a run does in which order.
//!
//! Phonemising, running the model, and reading and writing files and devices are done
//! by the caller: the functions here are handed what does it, or say what is to be
//! done next. [`laws`] states what holds of all of them together.

pub mod audio;
pub mod chars;
pub mod cli;
pub mod laws;
pub mod models;
pub mod numbers;
pub mod phonemes;
pub mod punctuation;
pub mod synth;
pub mod text;
pub mod trim;
pub mod voices;
