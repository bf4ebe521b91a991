//! What layout needs to know of a canvas element.

use vstd::prelude::*;

verus! {

/// `ipc_channel::ipc::IpcSender`, the sending end of an inter-process
/// channel. Nothing is claimed of what is inside: a value is only held,
/// handed on and dropped.
#[verifier::external_type_specification]
#[verifier::external_body]
#[verifier::reject_recursive_types(T)]
pub struct ExIpcSender<T>(ipc_channel::ipc::IpcSender<T>);

/// The size of a canvas and, where it has a renderer, the channel on which
/// the renderer takes its commands.
#[verifier::reject_recursive_types(T)]
pub struct HTMLCanvasData<T> {
    pub ipc_renderer: Option<ipc_channel::ipc::IpcSender<T>>,
    pub width: u32,
    pub height: u32,
}

impl<T> HTMLCanvasData<T> {
    /// A canvas of the given size that no renderer backs yet.
    pub fn with_dimensions(width: u32, height: u32) -> (r: Self)
        ensures
            r.ipc_renderer.is_none(),
            r.width == width,
            r.height == height,
    {
        HTMLCanvasData { ipc_renderer: None, width, height }
    }

    /// Whether a renderer is attached.
    pub fn has_renderer(&self) -> (r: bool)
        ensures
            r == self.ipc_renderer.is_some(),
    {
        self.ipc_renderer.is_some()
    }

    /// Takes over `sender` as the canvas's channel. A channel that was held
    /// before is dropped; the size stays.
    pub fn attach_channel(&mut self, sender: ipc_channel::ipc::IpcSender<T>)
        ensures
            final(self).ipc_renderer == Some(sender),
            final(self).width == old(self).width,
            final(self).height == old(self).height,
    {
        self.ipc_renderer = Some(sender);
    }

    /// Drops the channel, if there is one; the size stays.
    pub fn detach(&mut self)
        ensures
            final(self).ipc_renderer.is_none(),
            final(self).width == old(self).width,
            final(self).height == old(self).height,
    {
        self.ipc_renderer = None;
    }
}

} // verus!
