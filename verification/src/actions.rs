//! The execution order of a plan, and the commit-or-nothing guarantee: a
//! conforming executor performs the actions front to back and stops at the
//! first failure, so nothing before the single NIC-link action ever touches
//! the NIC link — a failure mid-install leaves the previously-attached
//! dispatcher serving — and the previous revision is removed only after the
//! commit.

use vstd::prelude::*;
use vstd::string::*;
use crate::digits::{dec_str, is_digit, lemma_dec_str_ensures};
use crate::paths::{dispatcher_dir_of, ext_pin_of, link_pin_of, nic_link_of, rev_dir_of};
use crate::pin_name::{AttrsView, ExtensionAttrs};
use crate::plan::{plan_wf, InstallPlan, InstallPlanView, SlotPlanView};
use crate::XdpDispatcherConfig;

verus! {

/// One step of an install. `BindSlot` loads a fresh extension into the new
/// dispatcher's attachment target (or re-attaches a previously-loaded one),
/// then pins the produced link and the extension. The NIC step is
/// `RetargetNic` when a pinned NIC link already exists, else `AttachNic`.
#[derive(Debug)]
pub enum Action {
    LoadDispatcher { config: XdpDispatcherConfig },
    BindSlot { attrs: ExtensionAttrs, slot_name: String, link_pin: String, ext_pin: String },
    PinDispatcher { path: String },
    RetargetNic { link_path: String },
    AttachNic { if_name: String, link_path: String },
    RemoveDir { path: String },
}

pub enum ActionView {
    LoadDispatcher { num: u8, chain: Seq<u32> },
    BindSlot { attrs: AttrsView, slot_name: Seq<char>, link_pin: Seq<char>, ext_pin: Seq<char> },
    PinDispatcher { path: Seq<char> },
    RetargetNic { link_path: Seq<char> },
    AttachNic { if_name: Seq<char>, link_path: Seq<char> },
    RemoveDir { path: Seq<char> },
}

impl View for Action {
    type V = ActionView;

    open spec fn view(&self) -> ActionView {
        match self {
            Action::LoadDispatcher { config } => ActionView::LoadDispatcher {
                num: config.num_progs_enabled,
                chain: config.chain_call_actions@,
            },
            Action::BindSlot { attrs, slot_name, link_pin, ext_pin } => ActionView::BindSlot {
                attrs: attrs@,
                slot_name: slot_name@,
                link_pin: link_pin@,
                ext_pin: ext_pin@,
            },
            Action::PinDispatcher { path } => ActionView::PinDispatcher { path: path@ },
            Action::RetargetNic { link_path } => ActionView::RetargetNic { link_path: link_path@ },
            Action::AttachNic { if_name, link_path } => ActionView::AttachNic {
                if_name: if_name@,
                link_path: link_path@,
            },
            Action::RemoveDir { path } => ActionView::RemoveDir { path: path@ },
        }
    }
}

impl DeepView for Action {
    type V = ActionView;

    open spec fn deep_view(&self) -> ActionView {
        self.view()
    }
}

/// Whether performing the action writes, creates, retargets or removes the
/// object at `path` (a removed directory takes everything under it).
pub open spec fn touches(a: ActionView, path: Seq<char>) -> bool {
    match a {
        ActionView::LoadDispatcher { .. } => false,
        ActionView::BindSlot { link_pin, ext_pin, .. } => path == link_pin || path == ext_pin,
        ActionView::PinDispatcher { path: q } => path == q,
        ActionView::RetargetNic { link_path } => path == link_path,
        ActionView::AttachNic { link_path, .. } => path == link_path,
        ActionView::RemoveDir { path: d } => path == d || d.is_prefix_of(path),
    }
}

/// The single NIC-link step of the plan: the commit point.
pub open spec fn nic_action_spec(p: InstallPlanView) -> ActionView {
    if p.retarget {
        ActionView::RetargetNic { link_path: p.nic_link }
    } else {
        ActionView::AttachNic { if_name: p.if_name, link_path: p.nic_link }
    }
}

/// The order a conforming executor follows: load the configured dispatcher,
/// bind and pin every slot in order, pin the dispatcher, perform the NIC
/// step, and only then — and only when retargeting — remove the previous
/// revision directory.
pub open spec fn install_actions_spec(p: InstallPlanView) -> Seq<ActionView> {
    seq![ActionView::LoadDispatcher { num: p.config_num, chain: p.chain }]
        + p.slots.map_values(
        |s: SlotPlanView| ActionView::BindSlot {
            attrs: s.attrs,
            slot_name: s.slot_name,
            link_pin: s.link_pin,
            ext_pin: s.ext_pin,
        },
    ) + seq![ActionView::PinDispatcher { path: p.dispatcher_pin }] + seq![nic_action_spec(p)] + (
    if p.retarget {
        seq![ActionView::RemoveDir { path: p.current_rev_dir }]
    } else {
        Seq::empty()
    })
}

impl InstallPlan {
    /// The plan's steps, front to back.
    pub fn actions(&self) -> (r: Vec<Action>)
        ensures
            r.deep_view() == install_actions_spec(self@),
    {
        let mut r: Vec<Action> = Vec::new();
        r.push(Action::LoadDispatcher { config: self.config });
        let mut i: usize = 0;
        let ghost binds = self@.slots.map_values(
            |s: SlotPlanView| ActionView::BindSlot {
                attrs: s.attrs,
                slot_name: s.slot_name,
                link_pin: s.link_pin,
                ext_pin: s.ext_pin,
            },
        );
        proof {
            assert(r.deep_view() =~= seq![
                ActionView::LoadDispatcher { num: self@.config_num, chain: self@.chain },
            ] + binds.take(0));
        }
        while i < self.slots.len()
            invariant
                binds == self@.slots.map_values(
                    |s: SlotPlanView| ActionView::BindSlot {
                        attrs: s.attrs,
                        slot_name: s.slot_name,
                        link_pin: s.link_pin,
                        ext_pin: s.ext_pin,
                    },
                ),
                binds.len() == self.slots.len(),
                0 <= i <= self.slots.len(),
                r.deep_view() == seq![
                    ActionView::LoadDispatcher { num: self@.config_num, chain: self@.chain },
                ] + binds.take(i as int),
            decreases self.slots.len() - i,
        {
            proof {
                assert(self@.slots[i as int] == self.slots[i as int]@);
            }
            let ghost before = r.deep_view();
            let s = &self.slots[i];
            let a = Action::BindSlot {
                attrs: s.attrs.duplicate(),
                slot_name: s.slot_name.clone(),
                link_pin: s.link_pin.clone(),
                ext_pin: s.ext_pin.clone(),
            };
            proof {
                assert(a@ == binds[i as int]);
            }
            r.push(a);
            proof {
                assert(r.deep_view() =~= before.push(binds[i as int]));
                assert(r.deep_view() =~= seq![
                    ActionView::LoadDispatcher { num: self@.config_num, chain: self@.chain },
                ] + binds.take(i + 1));
            }
            i = i + 1;
        }
        proof {
            assert(binds.take(self.slots.len() as int) =~= binds);
        }
        r.push(Action::PinDispatcher { path: self.dispatcher_pin.clone() });
        if self.retarget {
            r.push(Action::RetargetNic { link_path: self.nic_link.clone() });
            r.push(Action::RemoveDir { path: self.current_rev_dir.clone() });
        } else {
            r.push(
                Action::AttachNic {
                    if_name: self.if_name.clone(),
                    link_path: self.nic_link.clone(),
                },
            );
        }
        proof {
            assert(r.deep_view() =~= install_actions_spec(self@));
        }
        r
    }
}

/// Any path under a revision directory differs from the NIC link path: right
/// after the shared dispatcher-directory prefix, the one continues with a
/// digit of the revision number, the other with the letter `d`.
proof fn lemma_under_rev_dir_ne_nic(iface: Seq<char>, rev: nat, tail: Seq<char>)
    ensures
        rev_dir_of(iface, rev) + tail != nic_link_of(iface),
{
    let dd = dispatcher_dir_of(iface);
    let lhs = rev_dir_of(iface, rev) + tail;
    let rhs = nic_link_of(iface);
    reveal_strlit("/");
    reveal_strlit("/dispatcher_link");
    lemma_dec_str_ensures(rev);
    let k = dd.len() as int + 1;
    assert(lhs[k] == dec_str(rev)[0]) by {
        assert(rev_dir_of(iface, rev) == dd + "/"@ + dec_str(rev));
        assert((dd + "/"@ + dec_str(rev))[k] == dec_str(rev)[0]);
    }
    assert(is_digit(dec_str(rev)[0]));
    assert(rhs[k] == "/dispatcher_link"@[1]);
    assert(rhs[k] == 'd');
    if lhs == rhs {
        assert(lhs[k] == rhs[k]);
        assert(false);
    }
}

/// Commit-or-nothing on the NIC link: in the prescribed order, the NIC step
/// stands strictly after every pin of the next revision and nothing before
/// it touches the NIC link path, so an install that fails after creating the
/// next revision but before the NIC step leaves the NIC link — and with it
/// the previously-attached dispatcher — exactly as it was. The previous
/// revision directory is removed only strictly after the commit.
pub proof fn lemma_commit_or_nothing(p: InstallPlanView)
    requires
        plan_wf(p),
    ensures
        ({
            let acts = install_actions_spec(p);
            let nic = p.slots.len() as int + 2;
            &&& acts.len() == p.slots.len() + 3 + (if p.retarget {
                1int
            } else {
                0int
            })
            &&& acts[nic] == nic_action_spec(p)
            &&& forall|i: int| 0 <= i < nic ==> !touches(#[trigger] acts[i], p.nic_link)
            &&& forall|i: int| 0 <= i < acts.len() && acts[i] is RemoveDir ==> i > nic
        }),
{
    let acts = install_actions_spec(p);
    let n = p.slots.len() as int;
    let nic = n + 2;
    let binds = p.slots.map_values(
        |s: SlotPlanView| ActionView::BindSlot {
            attrs: s.attrs,
            slot_name: s.slot_name,
            link_pin: s.link_pin,
            ext_pin: s.ext_pin,
        },
    );
    assert(acts[0] == ActionView::LoadDispatcher { num: p.config_num, chain: p.chain });
    assert(forall|i: int| 1 <= i <= n ==> acts[i] == binds[i - 1]);
    assert(acts[n + 1] == ActionView::PinDispatcher { path: p.dispatcher_pin });
    assert(acts[nic] == nic_action_spec(p));
    assert forall|i: int| 0 <= i < nic implies !touches(#[trigger] acts[i], p.nic_link) by {
        if 1 <= i <= n {
            let s = p.slots[i - 1];
            assert(acts[i] == ActionView::BindSlot {
                attrs: s.attrs,
                slot_name: s.slot_name,
                link_pin: s.link_pin,
                ext_pin: s.ext_pin,
            });
            assert(s.link_pin == link_pin_of(p.if_name, p.next_rev as nat, (i - 1) as nat));
            assert(s.ext_pin == ext_pin_of(p.if_name, p.next_rev as nat, s.attrs));
            assert(s.link_pin != p.nic_link) by {
                assert(link_pin_of(p.if_name, p.next_rev as nat, (i - 1) as nat) =~= rev_dir_of(
                    p.if_name,
                    p.next_rev as nat,
                ) + ("/link_"@ + dec_str((i - 1) as nat)));
                lemma_under_rev_dir_ne_nic(
                    p.if_name,
                    p.next_rev as nat,
                    "/link_"@ + dec_str((i - 1) as nat),
                );
            }
            assert(s.ext_pin != p.nic_link) by {
                assert(ext_pin_of(p.if_name, p.next_rev as nat, s.attrs) =~= rev_dir_of(
                    p.if_name,
                    p.next_rev as nat,
                ) + ("/"@ + crate::pin_name::encoded_name(s.attrs)));
                lemma_under_rev_dir_ne_nic(
                    p.if_name,
                    p.next_rev as nat,
                    "/"@ + crate::pin_name::encoded_name(s.attrs),
                );
            }
        } else if i == n + 1 {
            assert(p.dispatcher_pin != p.nic_link) by {
                lemma_under_rev_dir_ne_nic(p.if_name, p.next_rev as nat, "/dispatcher_pin"@);
            }
        }
    }
    assert forall|i: int| 0 <= i < acts.len() && acts[i] is RemoveDir implies i > nic by {
        if i == 0 || i == n + 1 || i == nic {
            assert(!(acts[i] is RemoveDir));
        } else if 1 <= i <= n {
            assert(acts[i] == binds[i - 1]);
            assert(!(acts[i] is RemoveDir));
        }
    }
}

} // verus!
