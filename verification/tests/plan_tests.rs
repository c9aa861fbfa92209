use xdp_dispatcher::actions::Action;
use xdp_dispatcher::errors::Error;
use xdp_dispatcher::pin_name::ExtensionAttrs;
use xdp_dispatcher::plan::{cleanup_plan, install_plan, CleanupPlan};
use xdp_dispatcher::programs::{EbpfPrograms, XdpDispatcher};
use xdp_dispatcher::{default_proceed_on_mask, MAX_PROGRAMS};

fn one_set(ebpf_id: &str, programs: &[(&str, u8)]) -> EbpfPrograms {
    let mut set = EbpfPrograms::new(ebpf_id.to_string(), vec![0u8, 1, 2, 3]);
    for (name, priority) in programs {
        set = set.set_priority(name.to_string(), *priority);
    }
    set
}

fn prior(priority: u8, ebpf_id: &str, program_name: &str) -> ExtensionAttrs {
    ExtensionAttrs {
        priority,
        ebpf_id: ebpf_id.to_string(),
        program_name: program_name.to_string(),
        loaded: true,
    }
}

#[test]
fn first_install_single_program() {
    // No prior state on eth0: revision 1 is laid out with one slot, the
    // dispatcher pin, and a fresh NIC attach.
    let sets = vec![one_set("a", &[("probe", 0)])];
    let plan = install_plan("eth0", 0, false, &Vec::new(), &sets).unwrap();
    assert_eq!(plan.next_rev, 1);
    assert!(!plan.retarget);
    assert_eq!(plan.config.num_progs_enabled, 1);
    assert_eq!(plan.dispatcher_dir, "/sys/fs/bpf/xdp-dispatcher/dispatcher_eth0");
    assert_eq!(plan.next_rev_dir, "/sys/fs/bpf/xdp-dispatcher/dispatcher_eth0/1");
    assert_eq!(plan.dispatcher_pin, "/sys/fs/bpf/xdp-dispatcher/dispatcher_eth0/1/dispatcher_pin");
    assert_eq!(plan.nic_link, "/sys/fs/bpf/xdp-dispatcher/dispatcher_eth0/dispatcher_link");
    assert_eq!(plan.slots.len(), 1);
    assert_eq!(plan.slots[0].slot_name, "prog0");
    assert_eq!(plan.slots[0].link_pin, "/sys/fs/bpf/xdp-dispatcher/dispatcher_eth0/1/link_0");
    assert_eq!(
        plan.slots[0].ext_pin,
        "/sys/fs/bpf/xdp-dispatcher/dispatcher_eth0/1/extension_0_a_probe"
    );
    assert!(!plan.slots[0].attrs.loaded);
}

#[test]
fn second_installer_coexists() {
    // Starting from the first install: the prior extension is rediscovered,
    // revision 2 carries both, the NIC link is retargeted and the old
    // revision is removed.
    let prev = vec![prior(0, "a", "probe")];
    let sets = vec![one_set("b", &[("probe2", 5)])];
    let plan = install_plan("eth0", 1, true, &prev, &sets).unwrap();
    assert_eq!(plan.next_rev, 2);
    assert!(plan.retarget);
    assert_eq!(plan.config.num_progs_enabled, 2);
    assert_eq!(plan.current_rev_dir, "/sys/fs/bpf/xdp-dispatcher/dispatcher_eth0/1");
    assert_eq!(plan.slots.len(), 2);
    assert_eq!(plan.slots[0].attrs.ebpf_id, "a");
    assert_eq!(plan.slots[0].slot_name, "prog0");
    assert_eq!(plan.slots[1].attrs.ebpf_id, "b");
    assert_eq!(plan.slots[1].slot_name, "prog1");
    assert_eq!(
        plan.slots[1].ext_pin,
        "/sys/fs/bpf/xdp-dispatcher/dispatcher_eth0/2/extension_5_b_probe2"
    );
}

#[test]
fn reinstalling_the_same_programs_keeps_one_per_key() {
    // The same program set installed again from a second handle with a
    // disjoint id: every (ebpf_id, program_name) appears exactly once.
    let prev = vec![prior(0, "h1", "probe")];
    let sets = vec![one_set("h2", &[("probe", 0)])];
    let plan = install_plan("eth0", 1, true, &prev, &sets).unwrap();
    assert_eq!(plan.slots.len(), 2);
    for i in 0..plan.slots.len() {
        for j in (i + 1)..plan.slots.len() {
            let a = &plan.slots[i].attrs;
            let b = &plan.slots[j].attrs;
            assert!(a.ebpf_id != b.ebpf_id || a.program_name != b.program_name);
        }
    }
}

#[test]
fn slot_ceiling_is_enforced() {
    let programs: Vec<(String, u8)> = (0..11).map(|i| (format!("p{i}"), i as u8)).collect();
    let mut set = EbpfPrograms::new("a".to_string(), vec![0u8]);
    for (name, priority) in &programs {
        set = set.set_priority(name.clone(), *priority);
    }
    let r = install_plan("eth0", 0, false, &Vec::new(), &vec![set]);
    assert_eq!(r.unwrap_err(), Error::SlotsExhausted(MAX_PROGRAMS));
}

#[test]
fn slot_ceiling_counts_prior_extensions() {
    let prev: Vec<ExtensionAttrs> = (0..10).map(|i| prior(i as u8, "old", &format!("p{i}"))).collect();
    let sets = vec![one_set("new", &[("one_more", 0)])];
    let r = install_plan("eth0", 3, true, &prev, &sets);
    assert_eq!(r.unwrap_err(), Error::SlotsExhausted(MAX_PROGRAMS));
    // Exactly ten still fits.
    let r = install_plan("eth0", 3, true, &prev[..9].to_vec(), &sets);
    assert!(r.is_ok());
}

#[test]
fn invalid_configurations_are_rejected() {
    // Zero programs.
    let r = install_plan("eth0", 0, false, &Vec::new(), &Vec::new());
    assert!(matches!(r.unwrap_err(), Error::InvalidConfig(_)));
    let r = install_plan("eth0", 0, false, &Vec::new(), &vec![one_set("a", &[])]);
    assert!(matches!(r.unwrap_err(), Error::InvalidConfig(_)));
    // An underscore in the ebpf id.
    let r = install_plan("eth0", 0, false, &Vec::new(), &vec![one_set("a_b", &[("p", 0)])]);
    assert!(matches!(r.unwrap_err(), Error::InvalidConfig(_)));
    // A slash in a program name.
    let r = install_plan("eth0", 0, false, &Vec::new(), &vec![one_set("a", &[("p/q", 0)])]);
    assert!(matches!(r.unwrap_err(), Error::InvalidConfig(_)));
    // A duplicate (ebpf_id, program_name).
    let r = install_plan("eth0", 0, false, &Vec::new(), &vec![one_set("a", &[("p", 0), ("p", 1)])]);
    assert!(matches!(r.unwrap_err(), Error::InvalidConfig(_)));
    // Two sets sharing an ebpf id.
    let sets = vec![one_set("a", &[("p", 0)]), one_set("a", &[("q", 1)])];
    let r = install_plan("eth0", 0, false, &Vec::new(), &sets);
    assert!(matches!(r.unwrap_err(), Error::InvalidConfig(_)));
}

#[test]
fn revision_strictly_increases() {
    let sets = vec![one_set("a", &[("probe", 0)])];
    for current in [0usize, 1, 41] {
        let plan = install_plan("eth0", current, current > 0, &Vec::new(), &sets).unwrap();
        assert_eq!(plan.next_rev, current + 1);
        assert!(plan.next_rev > current);
    }
}

#[test]
fn default_mask_fills_the_config() {
    assert_eq!(default_proceed_on_mask(), 0x8000_0004);
    let sets = vec![one_set("a", &[("probe", 0)])];
    let plan = install_plan("eth0", 0, false, &Vec::new(), &sets).unwrap();
    assert_eq!(plan.config.chain_call_actions, [0x8000_0004u32; 10]);
}

#[test]
fn install_actions_commit_after_pins() {
    let prev = vec![prior(0, "a", "probe")];
    let sets = vec![one_set("b", &[("probe2", 5)])];
    let plan = install_plan("eth0", 1, true, &prev, &sets).unwrap();
    let acts = plan.actions();
    assert_eq!(acts.len(), plan.slots.len() + 4);
    assert!(matches!(acts[0], Action::LoadDispatcher { .. }));
    for i in 0..plan.slots.len() {
        assert!(matches!(acts[1 + i], Action::BindSlot { .. }));
    }
    assert!(matches!(acts[plan.slots.len() + 1], Action::PinDispatcher { .. }));
    match &acts[plan.slots.len() + 2] {
        Action::RetargetNic { link_path } => {
            assert_eq!(link_path, &plan.nic_link);
        },
        other => panic!("expected the NIC retarget as the commit point, got {other:?}"),
    }
    match &acts[plan.slots.len() + 3] {
        Action::RemoveDir { path } => assert_eq!(path, &plan.current_rev_dir),
        other => panic!("expected the old revision removal last, got {other:?}"),
    }
}

#[test]
fn first_install_actions_attach_and_keep_dirs() {
    let sets = vec![one_set("a", &[("probe", 0)])];
    let plan = install_plan("eth0", 0, false, &Vec::new(), &sets).unwrap();
    let acts = plan.actions();
    assert_eq!(acts.len(), plan.slots.len() + 3);
    assert!(matches!(acts[acts.len() - 1], Action::AttachNic { .. }));
    assert!(acts.iter().all(|a| !matches!(a, Action::RemoveDir { .. })));
}

#[test]
fn drop_preserves_foreign_extensions() {
    // From the two-installer state, handle b leaves: revision 3 keeps only
    // a's extension, bound back to slot 0.
    let sets_b = vec![one_set("b", &[("probe2", 5)])];
    let handle_b = XdpDispatcher::new_with_programs("eth0".to_string(), &sets_b).unwrap();
    let prev = vec![prior(0, "a", "probe"), prior(5, "b", "probe2")];
    let plan = cleanup_plan("eth0", 2, true, &prev, &handle_b).unwrap();
    match plan {
        CleanupPlan::Reinstall(p) => {
            assert_eq!(p.next_rev, 3);
            assert_eq!(p.slots.len(), 1);
            assert_eq!(p.slots[0].attrs.ebpf_id, "a");
            assert_eq!(p.slots[0].attrs.program_name, "probe");
            assert_eq!(p.slots[0].slot_name, "prog0");
            assert_eq!(p.config.num_progs_enabled, 1);
        },
        CleanupPlan::Detach { .. } => panic!("a foreign extension must survive the drop"),
    }
}

#[test]
fn drop_of_last_extension_detaches() {
    let sets = vec![one_set("a", &[("probe", 0)])];
    let handle = XdpDispatcher::new_with_programs("eth0".to_string(), &sets).unwrap();
    let prev = vec![prior(0, "a", "probe")];
    let plan = cleanup_plan("eth0", 1, true, &prev, &handle).unwrap();
    match plan {
        CleanupPlan::Detach { nic_link, current_rev_dir } => {
            assert_eq!(nic_link, "/sys/fs/bpf/xdp-dispatcher/dispatcher_eth0/dispatcher_link");
            assert_eq!(current_rev_dir, "/sys/fs/bpf/xdp-dispatcher/dispatcher_eth0/1");
        },
        CleanupPlan::Reinstall(_) => panic!("nothing survives, the NIC must detach"),
    }
}

#[test]
fn cleanup_keeps_same_key_at_other_priority() {
    // A later reinstall moved the program to another priority: the entry in
    // the current revision is not ours to remove.
    let sets = vec![one_set("a", &[("probe", 0)])];
    let handle = XdpDispatcher::new_with_programs("eth0".to_string(), &sets).unwrap();
    let prev = vec![prior(7, "a", "probe")];
    let plan = cleanup_plan("eth0", 2, true, &prev, &handle).unwrap();
    assert!(matches!(plan, CleanupPlan::Reinstall(_)));
}

#[test]
fn handle_records_ownership() {
    let sets = vec![one_set("a", &[("p", 0), ("q", 3)])];
    let handle = XdpDispatcher::new_with_programs("eth0".to_string(), &sets).unwrap();
    assert_eq!(handle.if_name, "eth0");
    assert_eq!(handle.owned.len(), 2);
    assert!(handle.owns_attrs(&prior(0, "a", "p")));
    assert!(handle.owns_attrs(&prior(3, "a", "q")));
    assert!(!handle.owns_attrs(&prior(1, "a", "p")));
    assert!(!handle.owns_attrs(&prior(0, "a", "r")));
    assert!(!handle.owns_attrs(&prior(0, "b", "p")));
}

#[test]
fn handle_rejects_invalid_sets() {
    let r = XdpDispatcher::new_with_programs("eth0".to_string(), &Vec::new());
    assert!(matches!(r.unwrap_err(), Error::InvalidConfig(_)));
    let r = XdpDispatcher::new_with_programs(
        "eth0".to_string(),
        &vec![one_set("a_b", &[("p", 0)])],
    );
    assert!(matches!(r.unwrap_err(), Error::InvalidConfig(_)));
}

#[test]
fn lock_path_is_keyed_by_interface() {
    assert_eq!(xdp_dispatcher::paths::lock_path("eth0"), "/tmp/.dispatcher_eth0_lock");
    assert_eq!(xdp_dispatcher::paths::lock_path("wlan1"), "/tmp/.dispatcher_wlan1_lock");
}
