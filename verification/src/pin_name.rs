//! The pin-name codec: an extension's identity is carried by the file name of
//! its pin, `extension_{priority}_{ebpf_id}_{program_name}`.

use vstd::prelude::*;
use vstd::string::*;
use crate::digits::{
    dec_str, dec_val, digit_char, is_dec_str, is_digit, lemma_dec_str_ensures, parse_dec,
    usize_to_dec,
};

verus! {

/// Identity of one extension slot.
#[derive(Debug, Clone)]
pub struct ExtensionAttrs {
    pub priority: u8,
    pub ebpf_id: String,
    pub program_name: String,
    /// True if the extension was discovered from a pin of a previous
    /// revision, false if freshly provided this revision. In-memory only:
    /// the pin name does not carry it.
    pub loaded: bool,
}

/// The mathematical image of `ExtensionAttrs`.
pub struct AttrsView {
    pub priority: u8,
    pub ebpf_id: Seq<char>,
    pub program_name: Seq<char>,
    pub loaded: bool,
}

impl View for ExtensionAttrs {
    type V = AttrsView;

    open spec fn view(&self) -> AttrsView {
        AttrsView {
            priority: self.priority,
            ebpf_id: self.ebpf_id@,
            program_name: self.program_name@,
            loaded: self.loaded,
        }
    }
}

impl DeepView for ExtensionAttrs {
    type V = AttrsView;

    open spec fn deep_view(&self) -> AttrsView {
        self.view()
    }
}

/// The fixed pin-name prefix, `extension_`.
pub open spec fn ext_prefix() -> Seq<char> {
    seq!['e', 'x', 't', 'e', 'n', 's', 'i', 'o', 'n', '_']
}

/// The encoded pin name of `a`: prefix, decimal priority, ebpf id and program
/// name, separated by underscores.
pub open spec fn encoded_name(a: AttrsView) -> Seq<char> {
    ext_prefix() + dec_str(a.priority as nat) + seq!['_'] + a.ebpf_id + seq!['_'] + a.program_name
}

/// The first index at or after `from` where `c` occurs in `s`, or `s.len()`
/// if there is none.
pub open spec fn find_from(s: Seq<char>, c: char, from: int) -> int
    decreases s.len() - from,
{
    if from < 0 || from >= s.len() {
        s.len() as int
    } else if s[from] == c {
        from
    } else {
        find_from(s, c, from + 1)
    }
}

/// `find_from` is pinned down by a witness: if nothing in `[from, i)` is `c`
/// and either `i` is the end or `s[i] == c`, then `find_from` returns `i`.
pub proof fn lemma_find_from_is(s: Seq<char>, c: char, from: int, i: int)
    requires
        0 <= from <= i <= s.len(),
        forall|k: int| from <= k < i ==> s[k] != c,
        i < s.len() ==> s[i] == c,
    ensures
        find_from(s, c, from) == i,
    decreases i - from,
{
    if from < i {
        lemma_find_from_is(s, c, from + 1, i);
    }
}

/// What a pin name decodes to, if anything: the name must carry the prefix,
/// two separating underscores, and a decimal priority that fits in `u8`.
/// Anything else is a foreign file and decodes to `None`.
pub open spec fn decode_spec(s: Seq<char>) -> Option<AttrsView> {
    if s.len() < 10 || s.subrange(0, 10) != ext_prefix() {
        None
    } else {
        let i1 = find_from(s, '_', 10);
        let i2 = find_from(s, '_', i1 + 1);
        if i1 >= s.len() || i2 >= s.len() {
            None
        } else {
            let p = s.subrange(10, i1);
            if !is_dec_str(p) || dec_val(p) > 255 {
                None
            } else {
                Some(
                    AttrsView {
                        priority: dec_val(p) as u8,
                        ebpf_id: s.subrange(i1 + 1, i2),
                        program_name: s.subrange(i2 + 1, s.len() as int),
                        loaded: true,
                    },
                )
            }
        }
    }
}

/// One character of the pin-name prefix.
fn prefix_char(i: usize) -> (c: char)
    requires
        i < 10,
    ensures
        c == ext_prefix()[i as int],
{
    if i == 0 {
        'e'
    } else if i == 1 {
        'x'
    } else if i == 2 {
        't'
    } else if i == 3 {
        'e'
    } else if i == 4 {
        'n'
    } else if i == 5 {
        's'
    } else if i == 6 {
        'i'
    } else if i == 7 {
        'o'
    } else if i == 8 {
        'n'
    } else {
        '_'
    }
}

impl ExtensionAttrs {
    /// A field-for-field copy.
    pub fn duplicate(&self) -> (r: Self)
        ensures
            r@ == self@,
    {
        ExtensionAttrs {
            priority: self.priority,
            ebpf_id: self.ebpf_id.clone(),
            program_name: self.program_name.clone(),
            loaded: self.loaded,
        }
    }

    /// Encodes the identity as a pin file name. Deterministic: the priority is
    /// decimal with no padding.
    pub fn to_pin_name(self) -> (r: String)
        ensures
            r@ == encoded_name(self@),
    {
        let mut s = "extension_".to_owned();
        proof {
            reveal_strlit("extension_");
            assert("extension_"@ =~= ext_prefix());
            reveal_strlit("_");
            assert("_"@ =~= seq!['_']);
        }
        let dec = usize_to_dec(self.priority as usize);
        s.append(dec.as_str());
        s.append("_");
        s.append(self.ebpf_id.as_str());
        s.append("_");
        s.append(self.program_name.as_str());
        proof {
            assert(s@ =~= encoded_name(self@));
        }
        s
    }

    /// Decodes a pin file name: strips the `extension_` prefix, splits the
    /// remainder on its first two underscores (so the program name may itself
    /// contain underscores), and parses the priority. Returns `None` for any
    /// name that does not fit, so foreign files are skipped, not fatal.
    pub fn from_pin_name(pin: &str) -> (r: Option<Self>)
        ensures
            match r {
                Some(a) => decode_spec(pin@) == Some(a@),
                None => decode_spec(pin@) is None,
            },
    {
        let n = pin.unicode_len();
        if n < 10 {
            return None;
        }
        let mut i: usize = 0;
        while i < 10
            invariant
                n == pin@.len(),
                10 <= n,
                0 <= i <= 10,
                forall|k: int| 0 <= k < i ==> pin@[k] == ext_prefix()[k],
            decreases 10 - i,
        {
            if pin.get_char(i) != prefix_char(i) {
                proof {
                    assert(pin@.subrange(0, 10) != ext_prefix()) by {
                        assert(pin@.subrange(0, 10)[i as int] != ext_prefix()[i as int]);
                    }
                }
                return None;
            }
            i = i + 1;
        }
        proof {
            assert(pin@.subrange(0, 10) =~= ext_prefix());
        }
        let i1 = match Self::scan_underscore(pin, 10) {
            Some(i1) => i1,
            None => {
                return None;
            },
        };
        let i2 = match Self::scan_underscore(pin, i1 + 1) {
            Some(i2) => i2,
            None => {
                return None;
            },
        };
        let priority_part = pin.substring_char(10, i1);
        let priority = match parse_dec(priority_part) {
            Some(v) => {
                if v > 255 {
                    return None;
                } else {
                    v as u8
                }
            },
            None => {
                return None;
            },
        };
        let ebpf_id = pin.substring_char(i1 + 1, i2).to_owned();
        let program_name = pin.substring_char(i2 + 1, n).to_owned();
        Some(
            ExtensionAttrs {
                priority,
                ebpf_id,
                program_name,
                loaded: true,
            },
        )
    }

    /// Finds the first underscore at or after `from`, as `find_from` does.
    fn scan_underscore(pin: &str, from: usize) -> (r: Option<usize>)
        requires
            from <= pin@.len(),
        ensures
            match r {
                Some(i) => find_from(pin@, '_', from as int) == i && from <= i < pin@.len(),
                None => find_from(pin@, '_', from as int) == pin@.len(),
            },
    {
        let n = pin.unicode_len();
        let mut i = from;
        while i < n
            invariant
                n == pin@.len(),
                from <= i <= n,
                forall|k: int| from <= k < i ==> pin@[k] != '_',
            decreases n - i,
        {
            if pin.get_char(i) == '_' {
                proof {
                    lemma_find_from_is(pin@, '_', from as int, i as int);
                }
                return Some(i);
            }
            i = i + 1;
        }
        proof {
            lemma_find_from_is(pin@, '_', from as int, n as int);
        }
        None
    }
}

/// What a listing of a revision directory yields: the decodable names, in
/// listing order, all marked previously loaded.
pub open spec fn decode_all(names: Seq<Seq<char>>) -> Seq<AttrsView> {
    names.filter_map(|n: Seq<char>| decode_spec(n))
}

/// Enumerates the file names of a revision directory and decodes each;
/// names that do not decode are foreign files and are skipped silently.
pub fn discover_extensions(names: &Vec<String>) -> (r: Vec<ExtensionAttrs>)
    ensures
        r.deep_view() == decode_all(names.deep_view()),
{
    let ghost namesv = names.deep_view();
    let mut r: Vec<ExtensionAttrs> = Vec::new();
    let mut i: usize = 0;
    proof {
        assert(namesv.take(0) =~= Seq::<Seq<char>>::empty());
        assert(r.deep_view() =~= decode_all(namesv.take(0)));
    }
    while i < names.len()
        invariant
            namesv == names.deep_view(),
            namesv.len() == names.len(),
            0 <= i <= names.len(),
            r.deep_view() == decode_all(namesv.take(i as int)),
        decreases names.len() - i,
    {
        proof {
            assert(namesv[i as int] == names[i as int]@);
            assert(namesv.take(i + 1).drop_last() =~= namesv.take(i as int));
            assert(namesv.take(i + 1).last() == namesv[i as int]);
        }
        match ExtensionAttrs::from_pin_name(names[i].as_str()) {
            Some(a) => {
                let ghost before = r.deep_view();
                proof {
                    assert(decode_spec(namesv[i as int]) == Some(a@));
                }
                r.push(a);
                proof {
                    assert(r.deep_view() =~= before.push(
                        decode_spec(namesv[i as int]).unwrap(),
                    ));
                    assert(decode_all(namesv.take(i + 1)) =~= decode_all(namesv.take(i as int))
                        + seq![decode_spec(namesv[i as int]).unwrap()]);
                    assert(r.deep_view() =~= decode_all(namesv.take(i + 1)));
                }
            },
            None => {
                proof {
                    assert(decode_spec(namesv[i as int]) is None);
                    assert(decode_all(namesv.take(i + 1)) == decode_all(namesv.take(i as int)));
                }
            },
        }
        i = i + 1;
    }
    proof {
        assert(namesv.take(names.len() as int) =~= namesv);
    }
    r
}

/// Round trip: a valid identity, encoded and decoded again, comes back
/// unchanged except that `loaded` reads true — the pin name does not carry
/// it, and everything read back from a pin counts as previously loaded.
/// Valid means the ebpf id contains no underscore; the decoder splits on the
/// first two underscores, so an underscore in the id would shift the split.
pub proof fn lemma_pin_name_round_trip(a: AttrsView)
    requires
        !a.ebpf_id.contains('_'),
    ensures
        decode_spec(encoded_name(a)) == Some(
            AttrsView {
                priority: a.priority,
                ebpf_id: a.ebpf_id,
                program_name: a.program_name,
                loaded: true,
            },
        ),
{
    let s = encoded_name(a);
    let d = dec_str(a.priority as nat);
    lemma_dec_str_ensures(a.priority as nat);
    assert(s.subrange(0, 10) =~= ext_prefix());
    let i1 = 10 + d.len() as int;
    assert forall|k: int| 10 <= k < i1 implies s[k] != '_' by {
        assert(s[k] == d[k - 10]);
        assert(is_digit(d[k - 10]));
    }
    assert(s[i1] == '_');
    lemma_find_from_is(s, '_', 10, i1);
    let i2 = i1 + 1 + a.ebpf_id.len() as int;
    assert forall|k: int| i1 + 1 <= k < i2 implies s[k] != '_' by {
        assert(s[k] == a.ebpf_id[k - (i1 + 1)]);
        assert(!a.ebpf_id.contains('_'));
    }
    assert(s[i2] == '_');
    lemma_find_from_is(s, '_', i1 + 1, i2);
    assert(s.subrange(10, i1) =~= d);
    assert(is_dec_str(d) && dec_val(d) == a.priority as nat);
    assert(s.subrange(i1 + 1, i2) =~= a.ebpf_id);
    assert(s.subrange(i2 + 1, s.len() as int) =~= a.program_name);
}

} // verus!
