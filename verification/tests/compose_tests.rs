use xdp_dispatcher::compose::compose;
use xdp_dispatcher::pin_name::ExtensionAttrs;

fn attrs(priority: u8, ebpf_id: &str, program_name: &str, loaded: bool) -> ExtensionAttrs {
    ExtensionAttrs {
        priority,
        ebpf_id: ebpf_id.to_string(),
        program_name: program_name.to_string(),
        loaded,
    }
}

#[test]
fn priority_orders_slots() {
    // One call installing a low-priority and a high-priority program: the
    // high-priority (smaller number) one binds to the earlier slot.
    let all = vec![attrs(10, "a", "low", false), attrs(0, "a", "high", false)];
    let out = compose(&all);
    assert_eq!(out.len(), 2);
    assert_eq!(out[0].program_name, "high");
    assert_eq!(out[1].program_name, "low");
}

#[test]
fn prior_extensions_stay_ahead_within_a_priority() {
    let all = vec![
        attrs(5, "old", "p1", true),
        attrs(5, "old2", "p2", true),
        attrs(5, "new", "p3", false),
        attrs(0, "new", "p0", false),
    ];
    let out = compose(&all);
    let names: Vec<&str> = out.iter().map(|a| a.program_name.as_str()).collect();
    assert_eq!(names, ["p0", "p1", "p2", "p3"]);
}

#[test]
fn ties_keep_input_order() {
    let all = vec![
        attrs(3, "a", "first", false),
        attrs(3, "a", "second", false),
        attrs(3, "a", "third", false),
    ];
    let out = compose(&all);
    let names: Vec<&str> = out.iter().map(|a| a.program_name.as_str()).collect();
    assert_eq!(names, ["first", "second", "third"]);
}

#[test]
fn disjoint_sets_are_both_kept() {
    // Process A's extension merged with process B's later install: both
    // bindings survive, ordered by priority.
    let all = vec![attrs(5, "b", "probe2", false), attrs(0, "a", "probe", true)];
    let out = compose(&all);
    assert_eq!(out.len(), 2);
    assert_eq!(out[0].ebpf_id, "a");
    assert_eq!(out[1].ebpf_id, "b");
}

#[test]
fn compose_keeps_every_element_once() {
    let all = vec![
        attrs(9, "x", "a", true),
        attrs(1, "y", "b", false),
        attrs(9, "z", "c", false),
        attrs(0, "w", "d", true),
    ];
    let out = compose(&all);
    assert_eq!(out.len(), all.len());
    for a in &all {
        let hits = out
            .iter()
            .filter(|o| {
                o.ebpf_id == a.ebpf_id && o.program_name == a.program_name
                    && o.priority == a.priority && o.loaded == a.loaded
            })
            .count();
        assert_eq!(hits, 1);
    }
}
