use vstd::prelude::*;

pub mod actions;
pub mod compose;
pub mod digits;
pub mod errors;
pub mod paths;
pub mod pin_name;
pub mod plan;
pub mod programs;
pub mod revision;

verus! {

/// Hard ceiling on the number of extension slots the dispatcher byte code
/// exports: attachment targets `prog0` .. `prog9`.
pub const MAX_PROGRAMS: usize = 10;

/// Bitmask of XDP return codes on which the dispatcher proceeds to the next
/// slot instead of returning: bits 2 and 31.
pub fn default_proceed_on_mask() -> (r: u32)
    ensures
        r == 0x8000_0004u32,
{
    let mut proceed_on_mask: u32 = 0;
    proceed_on_mask = proceed_on_mask | (1u32 << 2);
    proceed_on_mask = proceed_on_mask | (1u32 << 31);
    proof {
        assert((0u32 | (1u32 << 2)) | (1u32 << 31) == 0x8000_0004u32) by (bit_vector);
    }
    proceed_on_mask
}

/// The value communicated to the dispatcher byte code at load time, under the
/// global name `CONFIG`: how many slots are enabled, and per slot the bitmask
/// of XDP return codes on which the chain proceeds to the next slot.
#[derive(Debug, Clone, Copy)]
pub struct XdpDispatcherConfig {
    pub num_progs_enabled: u8,
    pub chain_call_actions: [u32; 10],
}

/// The configuration for `num` enabled slots, every slot carrying the
/// default proceed-on mask.
pub fn dispatcher_config(num: u8) -> (c: XdpDispatcherConfig)
    ensures
        c.num_progs_enabled == num,
        forall|i: int| 0 <= i < 10 ==> c.chain_call_actions@[i] == 0x8000_0004u32,
{
    let mask = default_proceed_on_mask();
    XdpDispatcherConfig { num_progs_enabled: num, chain_call_actions: [mask; 10] }
}

} // verus!
