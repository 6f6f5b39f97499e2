//! The kernel's global state: the frame buffer it was handed and its console.
use vstd::prelude::*;
use crate::framebuffer::FrameBufferConfig;
use crate::console::Console;

verus! {

pub struct Context {
    pub fb_config: Option<FrameBufferConfig>,
    pub console: Console,
}

impl Context {
    /// The frame buffer the boot loader handed over; it must have been set.
    pub fn fb_config(&self) -> (r: &FrameBufferConfig)
        requires
            self.fb_config is Some,
        ensures
            *r == self.fb_config->0,
    {
        self.fb_config.as_ref().unwrap()
    }
}

} // verus!
