//! Caller-supplied program sets, their validation, and the handle a process
//! keeps for the extensions it installed.

use vstd::prelude::*;
use vstd::string::*;
use crate::compose::{key_of, unique_keys};
use crate::errors::Error;
use crate::pin_name::AttrsView;

verus! {

/// One byte-code object a caller hands in before an install: an identifier
/// unique per object, the byte blob for the kernel loader, and the named
/// programs inside it with their priorities.
pub struct EbpfPrograms {
    pub ebpf_id: String,
    pub bpf_bytes: Vec<u8>,
    pub programs: Vec<(String, u8)>,
}

pub struct EbpfProgramsView {
    pub ebpf_id: Seq<char>,
    pub bpf_bytes: Seq<u8>,
    pub programs: Seq<(Seq<char>, u8)>,
}

impl View for EbpfPrograms {
    type V = EbpfProgramsView;

    open spec fn view(&self) -> EbpfProgramsView {
        EbpfProgramsView {
            ebpf_id: self.ebpf_id@,
            bpf_bytes: self.bpf_bytes@,
            programs: self.programs.deep_view(),
        }
    }
}

impl DeepView for EbpfPrograms {
    type V = EbpfProgramsView;

    open spec fn deep_view(&self) -> EbpfProgramsView {
        self.view()
    }
}

impl EbpfPrograms {
    /// A set with no programs named yet.
    pub fn new(ebpf_id: String, bpf_bytes: Vec<u8>) -> (r: Self)
        ensures
            r@.ebpf_id == ebpf_id@,
            r@.bpf_bytes == bpf_bytes@,
            r@.programs == Seq::<(Seq<char>, u8)>::empty(),
    {
        let r = EbpfPrograms { ebpf_id, bpf_bytes, programs: Vec::new() };
        proof {
            assert(r@.programs =~= Seq::<(Seq<char>, u8)>::empty());
        }
        r
    }

    /// Names one program of the byte code and assigns it a priority; lower
    /// priorities bind to earlier slots.
    pub fn set_priority(self, program: String, priority: u8) -> (r: Self)
        ensures
            r@.ebpf_id == self@.ebpf_id,
            r@.bpf_bytes == self@.bpf_bytes,
            r@.programs == self@.programs.push((program@, priority)),
    {
        let ghost before = self@.programs;
        let mut programs = self.programs;
        programs.push((program, priority));
        let r = EbpfPrograms { ebpf_id: self.ebpf_id, bpf_bytes: self.bpf_bytes, programs };
        proof {
            assert(r@.programs =~= before.push((program@, priority)));
        }
        r
    }
}

/// An ebpf id may appear in pin names and paths: no underscore (the decoder
/// splits on underscores) and no slash.
pub open spec fn valid_id(s: Seq<char>) -> bool {
    !s.contains('_') && !s.contains('/')
}

/// A program name may appear in pin names: no slash (underscores are fine,
/// the decoder keeps everything after the second underscore together).
pub open spec fn valid_name(s: Seq<char>) -> bool {
    !s.contains('/')
}

/// One set is well-formed: a valid id, valid program names, no program named
/// twice.
pub open spec fn set_wf(s: EbpfProgramsView) -> bool {
    &&& valid_id(s.ebpf_id)
    &&& forall|i: int| 0 <= i < s.programs.len() ==> valid_name(#[trigger] s.programs[i].0)
    &&& forall|i: int, j: int|
        0 <= i < j < s.programs.len() ==> s.programs[i].0 != s.programs[j].0
}

/// A collection of sets is well-formed: each set is, and no two sets share an
/// ebpf id, so `(ebpf_id, program_name)` is unique across all of them.
pub open spec fn sets_wf(sets: Seq<EbpfProgramsView>) -> bool {
    &&& forall|i: int| 0 <= i < sets.len() ==> set_wf(#[trigger] sets[i])
    &&& forall|i: int, j: int|
        0 <= i < j < sets.len() ==> sets[i].ebpf_id != sets[j].ebpf_id
}

/// How many fresh extensions the sets contribute in all.
pub open spec fn fresh_count(sets: Seq<EbpfProgramsView>) -> nat
    decreases sets.len(),
{
    if sets.len() == 0 {
        0
    } else {
        fresh_count(sets.drop_last()) + sets.last().programs.len()
    }
}

/// The extension identities one set contributes, in the caller-provided
/// order, all marked freshly provided.
pub open spec fn set_attrs(s: EbpfProgramsView) -> Seq<AttrsView> {
    s.programs.map_values(
        |p: (Seq<char>, u8)|
            AttrsView { priority: p.1, ebpf_id: s.ebpf_id, program_name: p.0, loaded: false },
    )
}

/// The extension identities of all sets, sets in order, programs within a set
/// in order.
pub open spec fn fresh_attrs_spec(sets: Seq<EbpfProgramsView>) -> Seq<AttrsView>
    decreases sets.len(),
{
    if sets.len() == 0 {
        Seq::empty()
    } else {
        fresh_attrs_spec(sets.drop_last()) + set_attrs(sets.last())
    }
}

pub proof fn lemma_fresh_attrs_len(sets: Seq<EbpfProgramsView>)
    ensures
        fresh_attrs_spec(sets).len() == fresh_count(sets),
    decreases sets.len(),
{
    if sets.len() > 0 {
        lemma_fresh_attrs_len(sets.drop_last());
    }
}

/// Every fresh extension identity carries the ebpf id of the set that
/// contributed it.
proof fn lemma_fresh_ids(sets: Seq<EbpfProgramsView>)
    ensures
        forall|k: int|
            0 <= k < fresh_attrs_spec(sets).len() ==> exists|i: int|
                0 <= i < sets.len() && (#[trigger] fresh_attrs_spec(sets)[k]).ebpf_id == sets[
                    i
                ].ebpf_id,
    decreases sets.len(),
{
    if sets.len() > 0 {
        let s0 = sets.drop_last();
        lemma_fresh_ids(s0);
        let f = fresh_attrs_spec(sets);
        let f0 = fresh_attrs_spec(s0);
        assert forall|k: int| 0 <= k < f.len() implies exists|i: int|
            0 <= i < sets.len() && (#[trigger] f[k]).ebpf_id == sets[i].ebpf_id by {
            if k < f0.len() {
                assert(f[k] == f0[k]);
                let i = choose|i: int| 0 <= i < s0.len() && f0[k].ebpf_id == s0[i].ebpf_id;
                assert(s0[i] == sets[i]);
                assert(0 <= i < sets.len() && f[k].ebpf_id == sets[i].ebpf_id);
            } else {
                assert(f[k] == set_attrs(sets.last())[k - f0.len()]);
                assert(f[k].ebpf_id == sets[sets.len() - 1].ebpf_id);
            }
        }
    }
}

/// Well-formed sets contribute extensions with pairwise-distinct
/// `(ebpf_id, program_name)` keys: distinct sets have distinct ids, and
/// within one set no program is named twice.
pub proof fn lemma_fresh_unique_keys(sets: Seq<EbpfProgramsView>)
    requires
        sets_wf(sets),
    ensures
        unique_keys(fresh_attrs_spec(sets)),
    decreases sets.len(),
{
    if sets.len() > 0 {
        let s0 = sets.drop_last();
        let last = sets.last();
        assert(sets_wf(s0)) by {
            assert(forall|i: int| 0 <= i < s0.len() ==> s0[i] == sets[i]);
            assert(forall|i: int| 0 <= i < s0.len() ==> set_wf(#[trigger] s0[i]));
        }
        lemma_fresh_unique_keys(s0);
        lemma_fresh_ids(s0);
        let f = fresh_attrs_spec(sets);
        let f0 = fresh_attrs_spec(s0);
        let b = set_attrs(last);
        assert(set_wf(last)) by {
            assert(sets[sets.len() - 1] == last);
        }
        assert forall|i: int, j: int| 0 <= i < j < f.len() implies key_of(f[i]) != key_of(
            f[j],
        ) by {
            if j < f0.len() {
                assert(f[i] == f0[i] && f[j] == f0[j]);
            } else if i >= f0.len() {
                assert(f[i] == b[i - f0.len()] && f[j] == b[j - f0.len()]);
                assert(last.programs[i - f0.len()].0 != last.programs[j - f0.len()].0);
            } else {
                assert(f[i] == f0[i] && f[j] == b[j - f0.len()]);
                let k = choose|k: int| 0 <= k < s0.len() && f0[i].ebpf_id == s0[k].ebpf_id;
                assert(s0[k] == sets[k]);
                assert(sets[k].ebpf_id != sets[sets.len() - 1].ebpf_id);
                assert(f[j].ebpf_id == last.ebpf_id);
            }
        }
    }
}

/// Whether `c` occurs in `s`.
pub fn str_contains_char(s: &str, c: char) -> (r: bool)
    ensures
        r == s@.contains(c),
{
    let n = s.unicode_len();
    let mut i: usize = 0;
    while i < n
        invariant
            n == s@.len(),
            0 <= i <= n,
            forall|k: int| 0 <= k < i ==> s@[k] != c,
        decreases n - i,
    {
        if s.get_char(i) == c {
            return true;
        }
        i = i + 1;
    }
    proof {
        assert(!s@.contains(c));
    }
    false
}

/// Checks the whole collection of sets; `None` means well-formed, otherwise
/// the reason it is not.
pub fn check_sets(sets: &Vec<EbpfPrograms>) -> (r: Option<String>)
    ensures
        r is None <==> sets_wf(sets.deep_view()),
{
    let ghost all = sets.deep_view();
    let mut i: usize = 0;
    while i < sets.len()
        invariant
            all == sets.deep_view(),
            all.len() == sets.len(),
            0 <= i <= sets.len(),
            forall|k: int| 0 <= k < i ==> set_wf(#[trigger] all[k]),
            forall|k: int, l: int| 0 <= k < l < i ==> all[k].ebpf_id != all[l].ebpf_id,
        decreases sets.len() - i,
    {
        let set = &sets[i];
        proof {
            assert(all[i as int] == set.deep_view());
        }
        if str_contains_char(set.ebpf_id.as_str(), '_') {
            return Some("ebpf_id contains an underscore".to_owned());
        }
        if str_contains_char(set.ebpf_id.as_str(), '/') {
            return Some("ebpf_id contains a slash".to_owned());
        }
        let mut j: usize = 0;
        while j < set.programs.len()
            invariant
                all == sets.deep_view(),
                all.len() == sets.len(),
                0 <= i < sets.len(),
                set == &sets[i as int],
                all[i as int] == set.deep_view(),
                0 <= j <= set.programs.len(),
                forall|k: int|
                    0 <= k < j ==> valid_name(#[trigger] all[i as int].programs[k].0),
                forall|k: int, l: int|
                    0 <= k < l < j ==> all[i as int].programs[k].0 != all[i as int].programs[l].0,
            decreases set.programs.len() - j,
        {
            proof {
                assert(all[i as int].programs[j as int] == set.programs[j as int].deep_view());
            }
            if str_contains_char(set.programs[j].0.as_str(), '/') {
                proof {
                    assert(!valid_name(all[i as int].programs[j as int].0));
                    assert(!set_wf(all[i as int]));
                }
                return Some("program name contains a slash".to_owned());
            }
            let mut k: usize = 0;
            while k < j
                invariant
                    all == sets.deep_view(),
                    all.len() == sets.len(),
                    0 <= i < sets.len(),
                    set == &sets[i as int],
                    all[i as int] == set.deep_view(),
                    0 <= k <= j < set.programs.len(),
                    all[i as int].programs[j as int] == set.programs[j as int].deep_view(),
                    forall|l: int|
                        0 <= l < k ==> all[i as int].programs[l].0 != all[i as int].programs[j as int].0,
                decreases j - k,
            {
                proof {
                    assert(all[i as int].programs[k as int] == set.programs[k as int].deep_view());
                }
                if set.programs[k].0 == set.programs[j].0 {
                    return Some("duplicate program name within a set".to_owned());
                }
                k = k + 1;
            }
            j = j + 1;
        }
        let mut k: usize = 0;
        while k < i
            invariant
                all == sets.deep_view(),
                all.len() == sets.len(),
                0 <= k <= i < sets.len(),
                set == &sets[i as int],
                all[i as int] == set.deep_view(),
                forall|l: int| 0 <= l < k ==> all[l].ebpf_id != all[i as int].ebpf_id,
            decreases i - k,
        {
            proof {
                assert(all[k as int] == sets[k as int].deep_view());
            }
            if sets[k].ebpf_id == set.ebpf_id {
                return Some("duplicate ebpf_id across sets".to_owned());
            }
            k = k + 1;
        }
        i = i + 1;
    }
    None
}

/// Flattens the sets into the fresh extension identities, in order.
pub fn fresh_attrs(sets: &Vec<EbpfPrograms>) -> (r: Vec<crate::pin_name::ExtensionAttrs>)
    ensures
        r.deep_view() == fresh_attrs_spec(sets.deep_view()),
{
    let ghost all = sets.deep_view();
    let mut r: Vec<crate::pin_name::ExtensionAttrs> = Vec::new();
    let mut i: usize = 0;
    proof {
        assert(r.deep_view() =~= fresh_attrs_spec(all.take(0)));
    }
    while i < sets.len()
        invariant
            all == sets.deep_view(),
            all.len() == sets.len(),
            0 <= i <= sets.len(),
            r.deep_view() == fresh_attrs_spec(all.take(i as int)),
        decreases sets.len() - i,
    {
        let set = &sets[i];
        proof {
            assert(all[i as int] == set.deep_view());
        }
        let mut j: usize = 0;
        while j < set.programs.len()
            invariant
                all == sets.deep_view(),
                all.len() == sets.len(),
                0 <= i < sets.len(),
                set == &sets[i as int],
                all[i as int] == set.deep_view(),
                0 <= j <= set.programs.len(),
                r.deep_view() == fresh_attrs_spec(all.take(i as int)) + set_attrs(
                    all[i as int],
                ).take(j as int),
            decreases set.programs.len() - j,
        {
            proof {
                assert(all[i as int].programs[j as int] == set.programs[j as int].deep_view());
            }
            let ghost before = r.deep_view();
            let a = crate::pin_name::ExtensionAttrs {
                priority: set.programs[j].1,
                ebpf_id: set.ebpf_id.clone(),
                program_name: set.programs[j].0.clone(),
                loaded: false,
            };
            r.push(a);
            proof {
                assert(r.deep_view() =~= before.push(
                    AttrsView {
                        priority: all[i as int].programs[j as int].1,
                        ebpf_id: all[i as int].ebpf_id,
                        program_name: all[i as int].programs[j as int].0,
                        loaded: false,
                    },
                ));
                assert(set_attrs(all[i as int]).take(j + 1) =~= set_attrs(all[i as int]).take(
                    j as int,
                ).push(set_attrs(all[i as int])[j as int]));
                assert(r.deep_view() =~= fresh_attrs_spec(all.take(i as int)) + set_attrs(
                    all[i as int],
                ).take(j + 1));
            }
            j = j + 1;
        }
        proof {
            assert(set_attrs(all[i as int]).take(set.programs.len() as int) =~= set_attrs(
                all[i as int],
            ));
            assert(all.take(i + 1).drop_last() =~= all.take(i as int));
            assert(all.take(i + 1).last() == all[i as int]);
            assert(r.deep_view() == fresh_attrs_spec(all.take(i + 1)));
        }
        i = i + 1;
    }
    proof {
        assert(all.take(sets.len() as int) =~= all);
    }
    r
}

/// One extension this process installed: its identity and the priority it was
/// requested at.
#[derive(Debug)]
pub struct OwnedExtension {
    pub ebpf_id: String,
    pub program_name: String,
    pub priority: u8,
}

pub struct OwnedExtensionView {
    pub ebpf_id: Seq<char>,
    pub program_name: Seq<char>,
    pub priority: u8,
}

impl View for OwnedExtension {
    type V = OwnedExtensionView;

    open spec fn view(&self) -> OwnedExtensionView {
        OwnedExtensionView {
            ebpf_id: self.ebpf_id@,
            program_name: self.program_name@,
            priority: self.priority,
        }
    }
}

impl DeepView for OwnedExtension {
    type V = OwnedExtensionView;

    open spec fn deep_view(&self) -> OwnedExtensionView {
        self.view()
    }
}

/// The ownership an installing process keeps for the lifetime of its
/// participation: its interface, and which `(ebpf_id, program_name)` it
/// installed at which priority. The loaded kernel byte-code objects
/// themselves live with the caller, keyed by `ebpf_id`.
#[derive(Debug)]
pub struct XdpDispatcher {
    pub if_name: String,
    pub owned: Vec<OwnedExtension>,
}

pub struct XdpDispatcherView {
    pub if_name: Seq<char>,
    pub owned: Seq<OwnedExtensionView>,
}

impl View for XdpDispatcher {
    type V = XdpDispatcherView;

    open spec fn view(&self) -> XdpDispatcherView {
        XdpDispatcherView { if_name: self.if_name@, owned: self.owned.deep_view() }
    }
}

/// Whether the handle owns exactly this identity at this priority. The
/// priority check defends against a later reinstall changing the priority:
/// such an entry is not ours to remove.
pub open spec fn owns(h: XdpDispatcherView, a: AttrsView) -> bool {
    exists|i: int|
        0 <= i < h.owned.len() && (#[trigger] h.owned[i]).ebpf_id == a.ebpf_id && h.owned[
            i
        ].program_name == a.program_name && h.owned[i].priority == a.priority
}

/// The ownership record for one fresh extension identity.
pub open spec fn owned_of(a: AttrsView) -> OwnedExtensionView {
    OwnedExtensionView {
        ebpf_id: a.ebpf_id,
        program_name: a.program_name,
        priority: a.priority,
    }
}

impl XdpDispatcher {
    /// Builds the handle for an install of `sets` on `if_name`: validates the
    /// sets and records the ownership of every fresh extension. Rejects an
    /// empty install — zero programs is an invalid configuration.
    pub fn new_with_programs(if_name: String, sets: &Vec<EbpfPrograms>) -> (r: Result<
        Self,
        Error,
    >)
        ensures
            match r {
                Ok(h) => {
                    &&& sets_wf(sets.deep_view())
                    &&& fresh_count(sets.deep_view()) > 0
                    &&& h@.if_name == if_name@
                    &&& h@.owned == fresh_attrs_spec(sets.deep_view()).map_values(
                        |a: AttrsView| owned_of(a),
                    )
                },
                Err(e) => {
                    &&& e is InvalidConfig
                    &&& (!sets_wf(sets.deep_view()) || fresh_count(sets.deep_view()) == 0)
                },
            },
    {
        if let Some(reason) = check_sets(sets) {
            return Err(Error::InvalidConfig(reason));
        }
        let fresh = fresh_attrs(sets);
        proof {
            lemma_fresh_attrs_len(sets.deep_view());
        }
        if fresh.len() == 0 {
            return Err(Error::InvalidConfig("zero programs".to_owned()));
        }
        let mut owned: Vec<OwnedExtension> = Vec::new();
        let ghost fresh_seq = fresh.deep_view();
        let mut i: usize = 0;
        proof {
            assert(owned.deep_view() =~= fresh_seq.take(0).map_values(
                |a: AttrsView| owned_of(a),
            ));
        }
        while i < fresh.len()
            invariant
                fresh_seq == fresh.deep_view(),
                fresh_seq.len() == fresh.len(),
                0 <= i <= fresh.len(),
                owned.deep_view() == fresh_seq.take(i as int).map_values(
                    |a: AttrsView| owned_of(a),
                ),
            decreases fresh.len() - i,
        {
            proof {
                assert(fresh_seq[i as int] == fresh[i as int].deep_view());
            }
            let ghost before = owned.deep_view();
            let a = &fresh[i];
            owned.push(
                OwnedExtension {
                    ebpf_id: a.ebpf_id.clone(),
                    program_name: a.program_name.clone(),
                    priority: a.priority,
                },
            );
            proof {
                assert(owned.deep_view() =~= before.push(owned_of(fresh_seq[i as int])));
                assert(owned.deep_view() =~= fresh_seq.take(i + 1).map_values(
                    |a: AttrsView| owned_of(a),
                ));
            }
            i = i + 1;
        }
        proof {
            assert(fresh_seq.take(fresh.len() as int) =~= fresh_seq);
        }
        Ok(XdpDispatcher { if_name, owned })
    }

    /// Whether this handle installed exactly this identity at this priority.
    pub fn owns_attrs(&self, a: &crate::pin_name::ExtensionAttrs) -> (r: bool)
        ensures
            r == owns(self@, a@),
    {
        let mut i: usize = 0;
        while i < self.owned.len()
            invariant
                0 <= i <= self.owned.len(),
                self@.owned.len() == self.owned.len(),
                forall|k: int|
                    0 <= k < i ==> !((#[trigger] self@.owned[k]).ebpf_id == a@.ebpf_id
                        && self@.owned[k].program_name == a@.program_name && self@.owned[
                        k
                    ].priority == a@.priority),
            decreases self.owned.len() - i,
        {
            proof {
                assert(self@.owned[i as int] == self.owned[i as int].deep_view());
            }
            let o = &self.owned[i];
            if o.priority == a.priority && o.ebpf_id == a.ebpf_id && o.program_name
                == a.program_name {
                return true;
            }
            i = i + 1;
        }
        false
    }
}

} // verus!
