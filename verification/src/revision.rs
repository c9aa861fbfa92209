//! Revision discovery: the current revision of an interface's dispatcher
//! directory is the largest numeric child directory name, 0 if none.

use vstd::prelude::*;
use crate::digits::{dec_str, dec_val, is_dec_str, lemma_dec_str_ensures, parse_dec};

verus! {

/// One child of the dispatcher directory, as handed in by the caller that
/// listed it: its file name and whether it is a directory.
pub struct DirEntry {
    pub name: String,
    pub is_dir: bool,
}

pub struct DirEntryView {
    pub name: Seq<char>,
    pub is_dir: bool,
}

impl View for DirEntry {
    type V = DirEntryView;

    open spec fn view(&self) -> DirEntryView {
        DirEntryView { name: self.name@, is_dir: self.is_dir }
    }
}

impl DeepView for DirEntry {
    type V = DirEntryView;

    open spec fn deep_view(&self) -> DirEntryView {
        self.view()
    }
}

/// The revision an entry stands for: its name read as decimal, if it is a
/// directory with a plain numeric name that fits; otherwise 0, so that
/// foreign entries are skipped.
pub open spec fn entry_rev(e: DirEntryView) -> nat {
    if e.is_dir && is_dec_str(e.name) && dec_val(e.name) <= usize::MAX {
        dec_val(e.name)
    } else {
        0
    }
}

/// The largest revision among the entries, 0 if none parses.
pub open spec fn current_rev_spec(s: Seq<DirEntryView>) -> nat
    decreases s.len(),
{
    if s.len() == 0 {
        0
    } else if entry_rev(s.last()) > current_rev_spec(s.drop_last()) {
        entry_rev(s.last())
    } else {
        current_rev_spec(s.drop_last())
    }
}

/// Enumerates the given children of a dispatcher directory and returns the
/// maximum revision: non-directory and non-numeric entries are skipped.
pub fn current_rev(entries: &Vec<DirEntry>) -> (r: usize)
    ensures
        r as nat == current_rev_spec(entries.deep_view()),
{
    let ghost all = entries.deep_view();
    let mut r: usize = 0;
    let mut i: usize = 0;
    while i < entries.len()
        invariant
            0 <= i <= entries.len(),
            all == entries.deep_view(),
            all.len() == entries.len(),
            r as nat == current_rev_spec(all.take(i as int)),
        decreases entries.len() - i,
    {
        proof {
            assert(all.take(i + 1).drop_last() =~= all.take(i as int));
            assert(all.take(i + 1).last() == all[i as int]);
            assert(all[i as int] == entries[i as int].deep_view());
        }
        let entry = &entries[i];
        if entry.is_dir {
            match parse_dec(entry.name.as_str()) {
                Some(v) => {
                    proof {
                        assert(entry_rev(all[i as int]) == v as nat);
                    }
                    if v > r {
                        r = v;
                    }
                },
                None => {
                    proof {
                        assert(entry_rev(all[i as int]) == 0);
                    }
                },
            }
        } else {
            proof {
                assert(entry_rev(all[i as int]) == 0);
            }
        }
        i = i + 1;
    }
    proof {
        assert(all.take(entries.len() as int) =~= all);
    }
    r
}

/// Revision monotonicity: once the freshly-allocated next revision directory
/// (named `current + 1` in decimal) exists among the entries, the current
/// revision reads back as exactly that number — strictly above what it was.
pub proof fn lemma_revision_monotonic(s: Seq<DirEntryView>, next: nat)
    requires
        next == current_rev_spec(s) + 1,
        next <= usize::MAX,
    ensures
        current_rev_spec(s.push(DirEntryView { name: dec_str(next), is_dir: true })) == next,
        current_rev_spec(s.push(DirEntryView { name: dec_str(next), is_dir: true }))
            > current_rev_spec(s),
{
    lemma_dec_str_ensures(next);
    let e = DirEntryView { name: dec_str(next), is_dir: true };
    assert(entry_rev(e) == next);
    assert(s.push(e).drop_last() =~= s);
    assert(s.push(e).last() == e);
}

} // verus!
