//! The filesystem layout under the BPF root: every pin path the dispatcher
//! reads or writes, as spec functions with verified builders.

use vstd::prelude::*;
use vstd::string::*;
use crate::digits::dec_str;
use crate::digits::usize_to_dec;
use crate::pin_name::{encoded_name, AttrsView, ExtensionAttrs};

verus! {

/// The root of the dispatcher's subtree in the BPF filesystem.
pub open spec fn bpf_root() -> Seq<char> {
    "/sys/fs/bpf/xdp-dispatcher"@
}

/// `{bpf_root}/dispatcher_{iface}`: all state for one interface.
pub open spec fn dispatcher_dir_of(iface: Seq<char>) -> Seq<char> {
    bpf_root() + "/dispatcher_"@ + iface
}

/// `{dispatcher_dir}/{rev}`: one revision of the extension set.
pub open spec fn rev_dir_of(iface: Seq<char>, rev: nat) -> Seq<char> {
    dispatcher_dir_of(iface) + "/"@ + dec_str(rev)
}

/// `{dispatcher_dir}/dispatcher_link`: the single pinned link binding the
/// dispatcher to the NIC; lives outside any revision.
pub open spec fn nic_link_of(iface: Seq<char>) -> Seq<char> {
    dispatcher_dir_of(iface) + "/dispatcher_link"@
}

/// `{rev_dir}/dispatcher_pin`: the pinned dispatcher program.
pub open spec fn dispatcher_pin_of(iface: Seq<char>, rev: nat) -> Seq<char> {
    rev_dir_of(iface, rev) + "/dispatcher_pin"@
}

/// `{rev_dir}/link_{i}`: the pinned link for slot `i`.
pub open spec fn link_pin_of(iface: Seq<char>, rev: nat, i: nat) -> Seq<char> {
    rev_dir_of(iface, rev) + "/link_"@ + dec_str(i)
}

/// `{rev_dir}/{encoded_name}`: the pinned extension itself.
pub open spec fn ext_pin_of(iface: Seq<char>, rev: nat, a: AttrsView) -> Seq<char> {
    rev_dir_of(iface, rev) + "/"@ + encoded_name(a)
}

/// The advisory cross-process lock file for one interface.
pub open spec fn lock_path_of(iface: Seq<char>) -> Seq<char> {
    "/tmp/.dispatcher_"@ + iface + "_lock"@
}

/// `prog{i}`: the dispatcher's attachment target for slot `i`.
pub open spec fn slot_name_of(i: nat) -> Seq<char> {
    "prog"@ + dec_str(i)
}

pub fn dispatcher_dir_path(iface: &str) -> (r: String)
    ensures
        r@ == dispatcher_dir_of(iface@),
{
    let mut s = "/sys/fs/bpf/xdp-dispatcher".to_owned();
    s.append("/dispatcher_");
    s.append(iface);
    proof {
        assert(s@ =~= dispatcher_dir_of(iface@));
    }
    s
}

pub fn rev_dir_path(iface: &str, rev: usize) -> (r: String)
    ensures
        r@ == rev_dir_of(iface@, rev as nat),
{
    let mut s = dispatcher_dir_path(iface);
    s.append("/");
    let d = usize_to_dec(rev);
    s.append(d.as_str());
    proof {
        assert(s@ =~= rev_dir_of(iface@, rev as nat));
    }
    s
}

pub fn nic_link_path(iface: &str) -> (r: String)
    ensures
        r@ == nic_link_of(iface@),
{
    let mut s = dispatcher_dir_path(iface);
    s.append("/dispatcher_link");
    proof {
        assert(s@ =~= nic_link_of(iface@));
    }
    s
}

pub fn dispatcher_pin_path(iface: &str, rev: usize) -> (r: String)
    ensures
        r@ == dispatcher_pin_of(iface@, rev as nat),
{
    let mut s = rev_dir_path(iface, rev);
    s.append("/dispatcher_pin");
    proof {
        assert(s@ =~= dispatcher_pin_of(iface@, rev as nat));
    }
    s
}

pub fn link_pin_path(iface: &str, rev: usize, i: usize) -> (r: String)
    ensures
        r@ == link_pin_of(iface@, rev as nat, i as nat),
{
    let mut s = rev_dir_path(iface, rev);
    s.append("/link_");
    let d = usize_to_dec(i);
    s.append(d.as_str());
    proof {
        assert(s@ =~= link_pin_of(iface@, rev as nat, i as nat));
    }
    s
}

pub fn ext_pin_path(iface: &str, rev: usize, a: &ExtensionAttrs) -> (r: String)
    ensures
        r@ == ext_pin_of(iface@, rev as nat, a@),
{
    let mut s = rev_dir_path(iface, rev);
    s.append("/");
    let name = a.duplicate().to_pin_name();
    s.append(name.as_str());
    proof {
        assert(s@ =~= ext_pin_of(iface@, rev as nat, a@));
    }
    s
}

pub fn lock_path(iface: &str) -> (r: String)
    ensures
        r@ == lock_path_of(iface@),
{
    let mut s = "/tmp/.dispatcher_".to_owned();
    s.append(iface);
    s.append("_lock");
    proof {
        assert(s@ =~= lock_path_of(iface@));
    }
    s
}

pub fn slot_name(i: usize) -> (r: String)
    ensures
        r@ == slot_name_of(i as nat),
{
    let mut s = "prog".to_owned();
    let d = usize_to_dec(i);
    s.append(d.as_str());
    proof {
        assert(s@ =~= slot_name_of(i as nat));
    }
    s
}

} // verus!
