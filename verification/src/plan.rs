//! Install and cleanup planning: the pure decision core. A plan fixes the
//! next revision, the composed slot order and every pin path; the caller
//! executes it against the kernel and the BPF filesystem, in the prescribed
//! order, and stops at the first failure. A plan that is never executed
//! alters no pinned state, so returning an error changes nothing.

use vstd::prelude::*;
use vstd::seq_lib::*;
use crate::compose::{compose, compose_spec, key_of, lemma_compose_unique_keys, unique_keys};
use crate::errors::Error;
use crate::paths::{
    dispatcher_dir_of, dispatcher_dir_path, dispatcher_pin_of, dispatcher_pin_path, ext_pin_of,
    ext_pin_path, link_pin_of, link_pin_path, nic_link_of, nic_link_path, rev_dir_of,
    rev_dir_path, slot_name, slot_name_of,
};
use crate::pin_name::{AttrsView, ExtensionAttrs};
use crate::programs::{
    check_sets, fresh_attrs, fresh_attrs_spec, fresh_count, lemma_fresh_unique_keys, owns,
    sets_wf, EbpfPrograms, EbpfProgramsView, XdpDispatcher, XdpDispatcherView,
};
use crate::{dispatcher_config, XdpDispatcherConfig, MAX_PROGRAMS};

verus! {

/// One slot of a plan: which extension binds to it, the attachment target
/// name inside the dispatcher, and where its link and the extension itself
/// are pinned.
#[derive(Debug)]
pub struct SlotPlan {
    pub attrs: ExtensionAttrs,
    pub slot_name: String,
    pub link_pin: String,
    pub ext_pin: String,
}

pub struct SlotPlanView {
    pub attrs: AttrsView,
    pub slot_name: Seq<char>,
    pub link_pin: Seq<char>,
    pub ext_pin: Seq<char>,
}

impl View for SlotPlan {
    type V = SlotPlanView;

    open spec fn view(&self) -> SlotPlanView {
        SlotPlanView {
            attrs: self.attrs@,
            slot_name: self.slot_name@,
            link_pin: self.link_pin@,
            ext_pin: self.ext_pin@,
        }
    }
}

impl DeepView for SlotPlan {
    type V = SlotPlanView;

    open spec fn deep_view(&self) -> SlotPlanView {
        self.view()
    }
}

/// Everything an install must do, decided up front.
#[derive(Debug)]
pub struct InstallPlan {
    pub if_name: String,
    pub next_rev: usize,
    pub config: XdpDispatcherConfig,
    pub dispatcher_dir: String,
    pub current_rev_dir: String,
    pub next_rev_dir: String,
    pub dispatcher_pin: String,
    pub nic_link: String,
    /// True when the NIC already carries a pinned dispatcher link: commit by
    /// retargeting it, then delete the previous revision directory. False on
    /// a first install: attach to the NIC and pin the new link.
    pub retarget: bool,
    pub slots: Vec<SlotPlan>,
}

pub struct InstallPlanView {
    pub if_name: Seq<char>,
    pub next_rev: usize,
    pub config_num: u8,
    pub chain: Seq<u32>,
    pub dispatcher_dir: Seq<char>,
    pub current_rev_dir: Seq<char>,
    pub next_rev_dir: Seq<char>,
    pub dispatcher_pin: Seq<char>,
    pub nic_link: Seq<char>,
    pub retarget: bool,
    pub slots: Seq<SlotPlanView>,
}

impl View for InstallPlan {
    type V = InstallPlanView;

    open spec fn view(&self) -> InstallPlanView {
        InstallPlanView {
            if_name: self.if_name@,
            next_rev: self.next_rev,
            config_num: self.config.num_progs_enabled,
            chain: self.config.chain_call_actions@,
            dispatcher_dir: self.dispatcher_dir@,
            current_rev_dir: self.current_rev_dir@,
            next_rev_dir: self.next_rev_dir@,
            dispatcher_pin: self.dispatcher_pin@,
            nic_link: self.nic_link@,
            retarget: self.retarget,
            slots: self.slots.deep_view(),
        }
    }
}

/// All paths of the plan are the canonical ones for its interface and its
/// revision pair, and every slot's names are the canonical ones for its
/// index.
pub open spec fn plan_wf(p: InstallPlanView) -> bool {
    &&& p.next_rev >= 1
    &&& p.dispatcher_dir == dispatcher_dir_of(p.if_name)
    &&& p.current_rev_dir == rev_dir_of(p.if_name, (p.next_rev - 1) as nat)
    &&& p.next_rev_dir == rev_dir_of(p.if_name, p.next_rev as nat)
    &&& p.dispatcher_pin == dispatcher_pin_of(p.if_name, p.next_rev as nat)
    &&& p.nic_link == nic_link_of(p.if_name)
    &&& forall|i: int|
        0 <= i < p.slots.len() ==> (#[trigger] p.slots[i]).slot_name == slot_name_of(i as nat)
            && p.slots[i].link_pin == link_pin_of(p.if_name, p.next_rev as nat, i as nat)
            && p.slots[i].ext_pin == ext_pin_of(p.if_name, p.next_rev as nat, p.slots[i].attrs)
}

/// The plan decides exactly this: the next revision is one above the
/// current, the commit mode follows whether a NIC link already exists, the
/// byte-code configuration enables one slot per composed extension with the
/// default proceed-on mask everywhere, and the slots carry the composed
/// extensions in order.
pub open spec fn plan_matches(
    p: InstallPlanView,
    iface: Seq<char>,
    current_rev: nat,
    link_exists: bool,
    all: Seq<AttrsView>,
) -> bool {
    &&& p.if_name == iface
    &&& p.next_rev as nat == current_rev + 1
    &&& p.retarget == link_exists
    &&& p.config_num as nat == all.len()
    &&& p.chain.len() == 10
    &&& forall|i: int| 0 <= i < 10 ==> p.chain[i] == 0x8000_0004u32
    &&& p.slots.map_values(|s: SlotPlanView| s.attrs) == compose_spec(all)
    &&& p.slots.len() == compose_spec(all).len()
    &&& plan_wf(p)
}

/// Lays out the plan for binding `all` (already merged, not yet ordered) on
/// `iface`, next to the given current revision.
fn build_plan(
    iface: &str,
    current_rev: usize,
    link_exists: bool,
    all: &Vec<ExtensionAttrs>,
) -> (r: Result<InstallPlan, Error>)
    requires
        current_rev < usize::MAX,
    ensures
        all.deep_view().len() > MAX_PROGRAMS ==> r == Err::<InstallPlan, Error>(
            Error::SlotsExhausted(MAX_PROGRAMS as usize),
        ),
        all.deep_view().len() <= MAX_PROGRAMS ==> (r matches Ok(p) && plan_matches(
            p@,
            iface@,
            current_rev as nat,
            link_exists,
            all.deep_view(),
        )),
{
    if all.len() > MAX_PROGRAMS {
        return Err(Error::SlotsExhausted(MAX_PROGRAMS));
    }
    let next_rev = current_rev + 1;
    let composed = compose(all);
    let ghost composed_seq = compose_spec(all.deep_view());
    let mut slots: Vec<SlotPlan> = Vec::new();
    let mut i: usize = 0;
    while i < composed.len()
        invariant
            composed.deep_view() == composed_seq,
            composed.len() == composed_seq.len(),
            0 <= i <= composed.len(),
            next_rev == current_rev + 1 <= usize::MAX,
            slots.len() == i,
            forall|k: int|
                0 <= k < i ==> {
                    &&& (#[trigger] slots.deep_view()[k]).attrs == composed_seq[k]
                    &&& slots.deep_view()[k].slot_name == slot_name_of(k as nat)
                    &&& slots.deep_view()[k].link_pin == link_pin_of(
                        iface@,
                        next_rev as nat,
                        k as nat,
                    )
                    &&& slots.deep_view()[k].ext_pin == ext_pin_of(
                        iface@,
                        next_rev as nat,
                        composed_seq[k],
                    )
                },
        decreases composed.len() - i,
    {
        proof {
            assert(composed_seq[i as int] == composed[i as int].deep_view());
        }
        let ghost before = slots.deep_view();
        let slot = SlotPlan {
            attrs: composed[i].duplicate(),
            slot_name: slot_name(i),
            link_pin: link_pin_path(iface, next_rev, i),
            ext_pin: ext_pin_path(iface, next_rev, &composed[i]),
        };
        proof {
            assert(slot@.attrs == composed_seq[i as int]);
        }
        slots.push(slot);
        proof {
            assert(slots.deep_view() =~= before.push(slot@));
            assert(forall|k: int|
                0 <= k < i ==> #[trigger] slots.deep_view()[k] == before[k]);
            assert(slots.deep_view()[i as int] == slot@);
        }
        i = i + 1;
    }
    let config = dispatcher_config(all.len() as u8);
    let plan = InstallPlan {
        if_name: iface.to_owned(),
        next_rev,
        config,
        dispatcher_dir: dispatcher_dir_path(iface),
        current_rev_dir: rev_dir_path(iface, current_rev),
        next_rev_dir: rev_dir_path(iface, next_rev),
        dispatcher_pin: dispatcher_pin_path(iface, next_rev),
        nic_link: nic_link_path(iface),
        retarget: link_exists,
        slots,
    };
    proof {
        assert(plan@.slots.map_values(|s: SlotPlanView| s.attrs) =~= composed_seq);
    }
    Ok(plan)
}

/// Plans an install of `sets` on `iface`, merging with the extensions
/// discovered in the current revision. Rejects an invalid configuration
/// before counting slots; rejects more than ten total extensions; otherwise
/// decides everything the install will do. Success is owed whenever the
/// configuration is valid and the slot ceiling holds.
pub fn install_plan(
    iface: &str,
    current_rev: usize,
    link_exists: bool,
    prev: &Vec<ExtensionAttrs>,
    sets: &Vec<EbpfPrograms>,
) -> (r: Result<InstallPlan, Error>)
    requires
        current_rev < usize::MAX,
    ensures
        !(sets_wf(sets.deep_view()) && fresh_count(sets.deep_view()) > 0) ==> (r matches Err(e)
            && e is InvalidConfig),
        sets_wf(sets.deep_view()) && fresh_count(sets.deep_view()) > 0 && prev.deep_view().len()
            + fresh_count(sets.deep_view()) > MAX_PROGRAMS ==> r == Err::<InstallPlan, Error>(
            Error::SlotsExhausted(MAX_PROGRAMS as usize),
        ),
        sets_wf(sets.deep_view()) && fresh_count(sets.deep_view()) > 0 && prev.deep_view().len()
            + fresh_count(sets.deep_view()) <= MAX_PROGRAMS ==> (r matches Ok(p) && plan_matches(
            p@,
            iface@,
            current_rev as nat,
            link_exists,
            prev.deep_view() + fresh_attrs_spec(sets.deep_view()),
        )),
{
    if let Some(reason) = check_sets(sets) {
        return Err(Error::InvalidConfig(reason));
    }
    let fresh = fresh_attrs(sets);
    proof {
        crate::programs::lemma_fresh_attrs_len(sets.deep_view());
    }
    if fresh.len() == 0 {
        return Err(Error::InvalidConfig("zero programs".to_owned()));
    }
    let mut all: Vec<ExtensionAttrs> = Vec::new();
    let ghost prev_seq = prev.deep_view();
    let ghost fresh_seq = fresh.deep_view();
    let mut i: usize = 0;
    while i < prev.len()
        invariant
            prev_seq == prev.deep_view(),
            prev_seq.len() == prev.len(),
            0 <= i <= prev.len(),
            all.deep_view() == prev_seq.take(i as int),
        decreases prev.len() - i,
    {
        proof {
            assert(prev_seq[i as int] == prev[i as int].deep_view());
        }
        let ghost before = all.deep_view();
        all.push(prev[i].duplicate());
        proof {
            assert(all.deep_view() =~= before.push(prev_seq[i as int]));
            assert(all.deep_view() =~= prev_seq.take(i + 1));
        }
        i = i + 1;
    }
    proof {
        assert(prev_seq.take(prev.len() as int) =~= prev_seq);
    }
    let mut j: usize = 0;
    while j < fresh.len()
        invariant
            prev_seq == prev.deep_view(),
            fresh_seq == fresh.deep_view(),
            fresh_seq.len() == fresh.len(),
            0 <= j <= fresh.len(),
            all.deep_view() == prev_seq + fresh_seq.take(j as int),
        decreases fresh.len() - j,
    {
        proof {
            assert(fresh_seq[j as int] == fresh[j as int].deep_view());
        }
        let ghost before = all.deep_view();
        all.push(fresh[j].duplicate());
        proof {
            assert(all.deep_view() =~= before.push(fresh_seq[j as int]));
            assert(all.deep_view() =~= prev_seq + fresh_seq.take(j + 1));
        }
        j = j + 1;
    }
    proof {
        assert(fresh_seq.take(fresh.len() as int) =~= fresh_seq);
        assert(all.deep_view() == prev_seq + fresh_seq);
    }
    build_plan(iface, current_rev, link_exists, &all)
}

/// A cleanup either detaches the NIC entirely (no foreign extension
/// survives) or reinstalls the survivors into a fresh revision.
#[derive(Debug)]
pub enum CleanupPlan {
    Detach { nic_link: String, current_rev_dir: String },
    Reinstall(InstallPlan),
}

/// Survival under cleanup: everything in the current revision except what
/// the departing handle owns, in discovery order.
pub open spec fn not_owned_pred(h: XdpDispatcherView) -> spec_fn(AttrsView) -> bool {
    |a: AttrsView| !owns(h, a)
}

pub open spec fn survivors_spec(prev: Seq<AttrsView>, h: XdpDispatcherView) -> Seq<AttrsView> {
    prev.filter(not_owned_pred(h))
}

/// Plans the reverse install run on drop: discovers nothing itself, but
/// decides from the discovered extensions and the handle's ownership what
/// survives. An empty survivor set detaches the NIC; otherwise the survivors
/// are reinstalled into the next revision.
pub fn cleanup_plan(
    iface: &str,
    current_rev: usize,
    link_exists: bool,
    prev: &Vec<ExtensionAttrs>,
    handle: &XdpDispatcher,
) -> (r: Result<CleanupPlan, Error>)
    requires
        current_rev < usize::MAX,
    ensures
        survivors_spec(prev.deep_view(), handle@).len() == 0 ==> (r matches Ok(c) && (
        c matches CleanupPlan::Detach { nic_link, current_rev_dir } && nic_link@ == nic_link_of(
            iface@,
        ) && current_rev_dir@ == rev_dir_of(iface@, current_rev as nat))),
        0 < survivors_spec(prev.deep_view(), handle@).len() <= MAX_PROGRAMS ==> (r matches Ok(c)
            && (c matches CleanupPlan::Reinstall(p) && plan_matches(
            p@,
            iface@,
            current_rev as nat,
            link_exists,
            survivors_spec(prev.deep_view(), handle@),
        ))),
        survivors_spec(prev.deep_view(), handle@).len() > MAX_PROGRAMS ==> r == Err::<
            CleanupPlan,
            Error,
        >(Error::SlotsExhausted(MAX_PROGRAMS as usize)),
{
    let ghost prev_seq = prev.deep_view();
    let mut survivors: Vec<ExtensionAttrs> = Vec::new();
    let mut i: usize = 0;
    proof {
        assert(prev_seq.take(0) =~= Seq::empty());
        assert(Seq::<AttrsView>::empty().filter(not_owned_pred(handle@)) =~= Seq::empty()) by {
            reveal(Seq::filter);
        }
        assert(survivors.deep_view() =~= prev_seq.take(0).filter(not_owned_pred(handle@)));
    }
    while i < prev.len()
        invariant
            prev_seq == prev.deep_view(),
            prev_seq.len() == prev.len(),
            0 <= i <= prev.len(),
            survivors.deep_view() == prev_seq.take(i as int).filter(not_owned_pred(handle@)),
        decreases prev.len() - i,
    {
        proof {
            assert(prev_seq[i as int] == prev[i as int].deep_view());
            assert(prev_seq.take(i + 1) =~= prev_seq.take(i as int).push(prev_seq[i as int]));
            prev_seq.take(i as int).lemma_filter_push(prev_seq[i as int], not_owned_pred(handle@));
        }
        if !handle.owns_attrs(&prev[i]) {
            let ghost before = survivors.deep_view();
            survivors.push(prev[i].duplicate());
            proof {
                assert(survivors.deep_view() =~= before.push(prev_seq[i as int]));
                assert(survivors.deep_view() =~= prev_seq.take(i + 1).filter(
                    not_owned_pred(handle@),
                ));
            }
        }
        i = i + 1;
    }
    proof {
        assert(prev_seq.take(prev.len() as int) =~= prev_seq);
    }
    if survivors.len() == 0 {
        proof {
            assert(survivors_spec(prev_seq, handle@) =~= survivors.deep_view());
        }
        return Ok(
            CleanupPlan::Detach {
                nic_link: nic_link_path(iface),
                current_rev_dir: rev_dir_path(iface, current_rev),
            },
        );
    }
    match build_plan(iface, current_rev, link_exists, &survivors) {
        Ok(p) => Ok(CleanupPlan::Reinstall(p)),
        Err(e) => Err(e),
    }
}

/// Everything in `s` satisfies `pred`: filtering keeps it whole.
proof fn lemma_filter_all_true<A>(s: Seq<A>, pred: spec_fn(A) -> bool)
    requires
        forall|i: int| 0 <= i < s.len() ==> pred(#[trigger] s[i]),
    ensures
        s.filter(pred) == s,
    decreases s.len(),
{
    if s.len() == 0 {
        assert(s.filter(pred) =~= s) by {
            reveal(Seq::filter);
        }
    } else {
        let t = s.drop_last();
        lemma_filter_all_true(t, pred);
        t.lemma_filter_push(s.last(), pred);
        assert(t.push(s.last()) =~= s);
    }
}

/// Idempotent reinstall: when the extensions discovered from the current
/// revision carry pairwise-distinct `(ebpf_id, program_name)` keys and the
/// freshly provided sets repeat none of them — as when the same programs are
/// installed again under a handle with a disjoint id — the composed slot
/// order of the planned install holds exactly one extension per key.
pub proof fn lemma_install_unique_keys(prev: Seq<AttrsView>, sets: Seq<EbpfProgramsView>)
    requires
        sets_wf(sets),
        unique_keys(prev),
        forall|i: int, j: int|
            0 <= i < prev.len() && 0 <= j < fresh_attrs_spec(sets).len() ==> key_of(
                #[trigger] prev[i],
            ) != key_of(#[trigger] fresh_attrs_spec(sets)[j]),
    ensures
        unique_keys(compose_spec(prev + fresh_attrs_spec(sets))),
{
    lemma_fresh_unique_keys(sets);
    let fresh = fresh_attrs_spec(sets);
    let all = prev + fresh;
    assert forall|i: int, j: int| 0 <= i < j < all.len() implies key_of(all[i]) != key_of(
        all[j],
    ) by {
        if j < prev.len() {
            assert(all[i] == prev[i] && all[j] == prev[j]);
        } else if i >= prev.len() {
            assert(all[i] == fresh[i - prev.len()] && all[j] == fresh[j - prev.len()]);
        } else {
            assert(all[i] == prev[i] && all[j] == fresh[j - prev.len()]);
        }
    }
    lemma_compose_unique_keys(all);
}

/// Drop symmetry: a process that installed its extensions alongside
/// pre-existing ones and then drops its handle leaves exactly the
/// pre-existing extensions surviving — every triple it owned goes, every
/// triple it did not own stays, in order.
pub proof fn lemma_drop_symmetry(
    pre: Seq<AttrsView>,
    mine: Seq<AttrsView>,
    h: XdpDispatcherView,
)
    requires
        forall|i: int| 0 <= i < pre.len() ==> !owns(h, #[trigger] pre[i]),
        forall|i: int| 0 <= i < mine.len() ==> owns(h, #[trigger] mine[i]),
    ensures
        survivors_spec(pre + mine, h) == pre,
{
    Seq::filter_distributes_over_add(pre, mine, not_owned_pred(h));
    lemma_filter_all_true(pre, not_owned_pred(h));
    mine.lemma_all_neg_filter_empty(not_owned_pred(h));
    assert(mine.filter(not_owned_pred(h)) =~= Seq::empty());
    assert(pre + Seq::<AttrsView>::empty() =~= pre);
}

} // verus!
