//! Declarations of the supporting crates' types that flow through the
//! library opaquely: decoded raw images and ready-to-render protocol
//! objects, and the message-queue endpoints that connect the interactive
//! thread to the encoder worker.

use vstd::prelude::*;

verus! {

/// A decoded raw image (the image crate); carried through to the encoder,
/// never inspected by the library.
#[verifier::external_type_specification]
#[verifier::external_body]
pub struct ExDynamicImage(image::DynamicImage);

/// A renderable terminal-graphics protocol object (ratatui_image), with the
/// internal state a draw call mutates; opaque to the library.
#[verifier::external_type_specification]
#[verifier::external_body]
pub struct ExStatefulProtocol(ratatui_image::protocol::StatefulProtocol);

/// The sending half of std's mpsc channel.
#[verifier::external_type_specification]
#[verifier::external_body]
#[verifier::reject_recursive_types(T)]
pub struct ExSender<T>(std::sync::mpsc::Sender<T>);

/// The receiving half of std's mpsc channel.
#[verifier::external_type_specification]
#[verifier::external_body]
#[verifier::reject_recursive_types(T)]
pub struct ExReceiver<T>(std::sync::mpsc::Receiver<T>);

} // verus!
