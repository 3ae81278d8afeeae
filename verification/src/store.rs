//! The in-memory credential store: an ordered list of profile sections,
//! each an ordered list of `key = value` entries, all kept as bytes.
//!
//! Entries that stood in the file before any section header are kept under a
//! reserved marker name chosen by the caller, so that a profile literally
//! named `default` can still be written with an explicit header.

use vstd::prelude::*;

verus! {

/// One `key = value` line of a profile section.
pub struct Entry {
    pub key: Vec<u8>,
    pub value: Vec<u8>,
}

/// One profile section: a name and its entries, in file order.
pub struct Section {
    pub name: Vec<u8>,
    pub entries: Vec<Entry>,
}

/// A whole credential file: its sections, in file order.
pub struct CredentialFile {
    pub sections: Vec<Section>,
}

/// The mathematical model of an entry.
pub ghost struct EntryV {
    pub key: Seq<u8>,
    pub value: Seq<u8>,
}

/// The mathematical model of a section.
pub ghost struct SectionV {
    pub name: Seq<u8>,
    pub entries: Seq<EntryV>,
}

impl View for Entry {
    type V = EntryV;

    open spec fn view(&self) -> EntryV {
        EntryV { key: self.key@, value: self.value@ }
    }
}

impl View for Section {
    type V = SectionV;

    open spec fn view(&self) -> SectionV {
        SectionV { name: self.name@, entries: self.entries@.map_values(|e: Entry| e@) }
    }
}

impl View for CredentialFile {
    type V = Seq<SectionV>;

    open spec fn view(&self) -> Seq<SectionV> {
        self.sections@.map_values(|s: Section| s@)
    }
}

/// Bytes the parser strips from the ends of a line or token.
pub open spec fn is_ws(b: u8) -> bool {
    b == 32 || b == 9 || b == 13
}

/// A key as it can stand on the left of `=`: non-empty, trimmed, free of
/// newlines and `=`, and not opening a header or a comment.
pub open spec fn valid_key(k: Seq<u8>) -> bool {
    &&& k.len() > 0
    &&& !is_ws(k[0])
    &&& !is_ws(k[k.len() - 1])
    &&& k[0] != 91 && k[0] != 59 && k[0] != 35
    &&& forall|i: int| 0 <= i < k.len() ==> k[i] != 10 && k[i] != 61
}

/// A value as it can stand on the right of `=`: trimmed and free of newlines.
pub open spec fn valid_value(v: Seq<u8>) -> bool {
    &&& v.len() > 0 ==> !is_ws(v[0]) && !is_ws(v[v.len() - 1])
    &&& forall|i: int| 0 <= i < v.len() ==> v[i] != 10
}

/// A section name as it can stand between brackets: non-empty, trimmed, and
/// free of newlines and brackets.
pub open spec fn valid_name(n: Seq<u8>) -> bool {
    &&& n.len() > 0
    &&& !is_ws(n[0])
    &&& !is_ws(n[n.len() - 1])
    &&& forall|i: int| 0 <= i < n.len() ==> n[i] != 10 && n[i] != 91 && n[i] != 93
}

/// Entries of one section: valid tokens, keys pairwise distinct.
pub open spec fn wf_entries(es: Seq<EntryV>) -> bool {
    &&& forall|i: int|
        0 <= i < es.len() ==> valid_key((#[trigger] es[i]).key) && valid_value(es[i].value)
    &&& forall|i: int, j: int| 0 <= i < j < es.len() ==> es[i].key != es[j].key
}

/// A well-formed credential file for a given marker name: section names are
/// pairwise distinct and valid; the marker section, if present, stands first
/// and is non-empty (it is written without a header, so an empty or displaced
/// one could not be read back).
pub open spec fn wf_file(ss: Seq<SectionV>, marker: Seq<u8>) -> bool {
    &&& forall|i: int| 0 <= i < ss.len() ==> wf_entries((#[trigger] ss[i]).entries)
    &&& forall|i: int|
        0 <= i < ss.len() && (#[trigger] ss[i]).name == marker ==> i == 0 && ss[i].entries.len()
            > 0
    &&& forall|i: int|
        0 <= i < ss.len() && (#[trigger] ss[i]).name != marker ==> valid_name(ss[i].name)
    &&& forall|i: int, j: int| 0 <= i < j < ss.len() ==> ss[i].name != ss[j].name
}

/// Index of the first section named `n`, if any.
pub open spec fn sec_index(ss: Seq<SectionV>, n: Seq<u8>) -> Option<int>
    decreases ss.len(),
{
    if ss.len() == 0 {
        None
    } else if ss[0].name == n {
        Some(0)
    } else {
        match sec_index(ss.drop_first(), n) {
            None => None,
            Some(i) => Some(i + 1),
        }
    }
}

/// Index of the first entry keyed `k`, if any.
pub open spec fn key_index(es: Seq<EntryV>, k: Seq<u8>) -> Option<int>
    decreases es.len(),
{
    if es.len() == 0 {
        None
    } else if es[0].key == k {
        Some(0)
    } else {
        match key_index(es.drop_first(), k) {
            None => None,
            Some(i) => Some(i + 1),
        }
    }
}

/// The value stored for key `k` of section `n`, if any.
pub open spec fn lookup(ss: Seq<SectionV>, n: Seq<u8>, k: Seq<u8>) -> Option<Seq<u8>> {
    match sec_index(ss, n) {
        None => None,
        Some(i) => match key_index(ss[i].entries, k) {
            None => None,
            Some(j) => Some(ss[i].entries[j].value),
        },
    }
}

/// The file after upserting `k = v` into section `n`: the entry is updated in
/// place or appended; an absent section is appended at the end.
pub open spec fn spec_set(ss: Seq<SectionV>, n: Seq<u8>, k: Seq<u8>, v: Seq<u8>) -> Seq<
    SectionV,
> {
    match sec_index(ss, n) {
        None => ss.push(SectionV { name: n, entries: seq![EntryV { key: k, value: v }] }),
        Some(i) => {
            let es = ss[i].entries;
            let es2 = match key_index(es, k) {
                None => es.push(EntryV { key: k, value: v }),
                Some(j) => es.update(j, EntryV { key: k, value: v }),
            };
            ss.update(i, SectionV { name: ss[i].name, entries: es2 })
        },
    }
}

/// `sec_index` finds exactly the first section of that name.
pub proof fn lemma_sec_index(ss: Seq<SectionV>, n: Seq<u8>)
    ensures
        match sec_index(ss, n) {
            Some(i) => 0 <= i < ss.len() && ss[i].name == n && (forall|j: int|
                0 <= j < i ==> ss[j].name != n),
            None => forall|j: int| 0 <= j < ss.len() ==> ss[j].name != n,
        },
    decreases ss.len(),
{
    if ss.len() > 0 && ss[0].name != n {
        lemma_sec_index(ss.drop_first(), n);
        assert(forall|j: int| 1 <= j < ss.len() ==> ss[j] == ss.drop_first()[j - 1]);
    }
}

/// `key_index` finds exactly the first entry of that key.
pub proof fn lemma_key_index(es: Seq<EntryV>, k: Seq<u8>)
    ensures
        match key_index(es, k) {
            Some(j) => 0 <= j < es.len() && es[j].key == k && (forall|i: int|
                0 <= i < j ==> es[i].key != k),
            None => forall|i: int| 0 <= i < es.len() ==> es[i].key != k,
        },
    decreases es.len(),
{
    if es.len() > 0 && es[0].key != k {
        lemma_key_index(es.drop_first(), k);
        assert(forall|i: int| 1 <= i < es.len() ==> es[i] == es.drop_first()[i - 1]);
    }
}

/// If `i` is the first index named `n`, then `sec_index` returns it.
pub proof fn lemma_sec_index_some(ss: Seq<SectionV>, n: Seq<u8>, i: int)
    requires
        0 <= i < ss.len(),
        ss[i].name == n,
        forall|j: int| 0 <= j < i ==> ss[j].name != n,
    ensures
        sec_index(ss, n) == Some(i),
    decreases ss.len(),
{
    if i > 0 {
        assert(ss[0].name != n);
        assert(ss.drop_first()[i - 1].name == n);
        assert(forall|j: int| 0 <= j < i - 1 ==> ss.drop_first()[j] == ss[j + 1]);
        lemma_sec_index_some(ss.drop_first(), n, i - 1);
    }
}

/// If no section is named `n`, then `sec_index` returns nothing.
pub proof fn lemma_sec_index_none(ss: Seq<SectionV>, n: Seq<u8>)
    requires
        forall|j: int| 0 <= j < ss.len() ==> ss[j].name != n,
    ensures
        sec_index(ss, n) is None,
    decreases ss.len(),
{
    if ss.len() > 0 {
        assert(forall|j: int| 0 <= j < ss.len() - 1 ==> ss.drop_first()[j] == ss[j + 1]);
        lemma_sec_index_none(ss.drop_first(), n);
    }
}

/// If `j` is the first index keyed `k`, then `key_index` returns it.
pub proof fn lemma_key_index_some(es: Seq<EntryV>, k: Seq<u8>, j: int)
    requires
        0 <= j < es.len(),
        es[j].key == k,
        forall|t: int| 0 <= t < j ==> es[t].key != k,
    ensures
        key_index(es, k) == Some(j),
    decreases es.len(),
{
    if j > 0 {
        assert(es[0].key != k);
        assert(es.drop_first()[j - 1].key == k);
        assert(forall|t: int| 0 <= t < j - 1 ==> es.drop_first()[t] == es[t + 1]);
        lemma_key_index_some(es.drop_first(), k, j - 1);
    }
}

/// If no entry is keyed `k`, then `key_index` returns nothing.
pub proof fn lemma_key_index_none(es: Seq<EntryV>, k: Seq<u8>)
    requires
        forall|t: int| 0 <= t < es.len() ==> es[t].key != k,
    ensures
        key_index(es, k) is None,
    decreases es.len(),
{
    if es.len() > 0 {
        assert(forall|t: int| 0 <= t < es.len() - 1 ==> es.drop_first()[t] == es[t + 1]);
        lemma_key_index_none(es.drop_first(), k);
    }
}

/// Byte-for-byte equality of two byte strings.
#[verifier::loop_isolation(false)]
pub fn bytes_eq(a: &[u8], b: &[u8]) -> (r: bool)
    ensures
        r == (a@ == b@),
{
    if a.len() != b.len() {
        assert(a@.len() != b@.len());
        return false;
    }
    let mut i: usize = 0;
    while i < a.len()
        invariant
            i <= a@.len(),
            a@.len() == b@.len(),
            forall|j: int| 0 <= j < i ==> a@[j] == b@[j],
        decreases a@.len() - i,
    {
        if a[i] != b[i] {
            return false;
        }
        i = i + 1;
    }
    proof {
        assert(a@ =~= b@);
    }
    true
}

/// A copy of a byte string.
pub fn dup_bytes(v: &Vec<u8>) -> (r: Vec<u8>)
    ensures
        r@ == v@,
{
    let r = v.clone();
    proof {
        assert(r@ =~= v@);
    }
    r
}

/// Whether `v` can stand as a stored value: free of newlines, with no
/// whitespace at either end.
#[verifier::loop_isolation(false)]
pub fn check_value(v: &[u8]) -> (r: bool)
    ensures
        r == valid_value(v@),
{
    if v.len() == 0 {
        return true;
    }
    let first = v[0];
    if first == 32 || first == 9 || first == 13 {
        return false;
    }
    let last = v[v.len() - 1];
    if last == 32 || last == 9 || last == 13 {
        return false;
    }
    let mut i: usize = 0;
    while i < v.len()
        invariant
            i <= v@.len(),
            forall|j: int| 0 <= j < i ==> v@[j] != 10,
        decreases v@.len() - i,
    {
        if v[i] == 10 {
            return false;
        }
        i = i + 1;
    }
    true
}

impl CredentialFile {
    /// An empty credential file.
    pub fn new() -> (r: CredentialFile)
        ensures
            r@ =~= Seq::<SectionV>::empty(),
    {
        CredentialFile { sections: Vec::new() }
    }

    /// Looks up the value of key `k` in section `n`, cloning it out.
    #[verifier::loop_isolation(false)]
    pub fn get(&self, n: &[u8], k: &[u8]) -> (r: Option<Vec<u8>>)
        ensures
            match r {
                Some(v) => lookup(self@, n@, k@) == Some(v@),
                None => lookup(self@, n@, k@) is None,
            },
    {
        let mut i: usize = 0;
        while i < self.sections.len()
            invariant
                i <= self.sections@.len(),
                self@.len() == self.sections@.len(),
                forall|j: int| 0 <= j < self@.len() ==> self@[j] == self.sections@[j]@,
                forall|j: int| 0 <= j < i ==> self@[j].name != n@,
            decreases self.sections@.len() - i,
        {
            if bytes_eq(self.sections[i].name.as_slice(), n) {
                proof {
                    assert(self@[i as int].name == n@);
                    lemma_sec_index_some(self@, n@, i as int);
                }
                let sec = &self.sections[i];
                assert(sec@ == self@[i as int]);
                let mut j: usize = 0;
                while j < sec.entries.len()
                    invariant
                        j <= sec.entries@.len(),
                        sec@.entries.len() == sec.entries@.len(),
                        forall|t: int|
                            0 <= t < sec@.entries.len() ==> sec@.entries[t] == sec.entries@[t]@,
                        forall|t: int| 0 <= t < j ==> sec@.entries[t].key != k@,
                    decreases sec.entries@.len() - j,
                {
                    if bytes_eq(sec.entries[j].key.as_slice(), k) {
                        proof {
                            assert(sec@.entries[j as int].key == k@);
                            lemma_key_index_some(sec@.entries, k@, j as int);
                        }
                        let out = sec.entries[j].value.clone();
                        proof {
                            assert(out@ =~= sec.entries@[j as int].value@);
                            assert(lookup(self@, n@, k@) == Some(out@));
                        }
                        return Some(out);
                    }
                    j = j + 1;
                }
                proof {
                    lemma_key_index_none(sec@.entries, k@);
                }
                return None;
            }
            i = i + 1;
        }
        proof {
            lemma_sec_index_none(self@, n@);
        }
        None
    }

    /// Upserts `k = v` into section `n`, creating the section at the end if
    /// it is absent.
    #[verifier::loop_isolation(false)]
    pub fn set(&mut self, n: Vec<u8>, k: Vec<u8>, v: Vec<u8>)
        ensures
            final(self)@ =~= spec_set(old(self)@, n@, k@, v@),
    {
        let mut i: usize = 0;
        let ghost orig: Seq<SectionV> = self@;
        while i < self.sections.len()
            invariant
                i <= self.sections@.len(),
                self@ == orig,
                self@.len() == self.sections@.len(),
                forall|j: int| 0 <= j < self@.len() ==> self@[j] == self.sections@[j]@,
                forall|j: int| 0 <= j < i ==> self@[j].name != n@,
            decreases self.sections@.len() - i,
        {
            if bytes_eq(self.sections[i].name.as_slice(), n.as_slice()) {
                proof {
                    assert(orig[i as int].name == n@);
                    lemma_sec_index_some(orig, n@, i as int);
                }
                let mut sec = self.sections.remove(i);
                let ghost secv: SectionV = sec@;
                assert(secv == orig[i as int]);
                let mut j: usize = 0;
                let mut found: bool = false;
                let ghost mut fidx: int = 0;
                while j < sec.entries.len() && !found
                    invariant
                        j <= sec.entries@.len(),
                        secv.entries.len() == sec.entries@.len(),
                        sec@.name == secv.name,
                        !found ==> sec@.entries == secv.entries,
                        !found ==> forall|t: int| 0 <= t < j ==> secv.entries[t].key != k@,
                        found ==> 0 <= fidx < secv.entries.len() && key_index(secv.entries, k@)
                            == Some(fidx) && sec@.entries == secv.entries.update(
                            fidx,
                            EntryV { key: k@, value: v@ },
                        ),
                    decreases sec.entries@.len() - j,
                {
                    if bytes_eq(sec.entries[j].key.as_slice(), k.as_slice()) {
                        proof {
                            assert(secv.entries[j as int].key == k@);
                            lemma_key_index_some(secv.entries, k@, j as int);
                            fidx = j as int;
                        }
                        let _ = sec.entries.remove(j);
                        sec.entries.insert(j, Entry { key: k.clone(), value: v.clone() });
                        found = true;
                        proof {
                            assert(sec@.entries =~= secv.entries.update(
                                fidx,
                                EntryV { key: k@, value: v@ },
                            ));
                        }
                    }
                    j = j + 1;
                }
                if !found {
                    proof {
                        lemma_key_index_none(secv.entries, k@);
                    }
                    sec.entries.push(Entry { key: k, value: v });
                    assert(sec@.entries =~= secv.entries.push(EntryV { key: k@, value: v@ }));
                }
                let ghost secg: SectionV = sec@;
                self.sections.insert(i, sec);
                proof {
                    assert(forall|t: int|
                        0 <= t < self@.len() && t != i ==> self@[t] == orig[t]);
                    assert(self@[i as int] == secg);
                    assert(self@ =~= spec_set(orig, n@, k@, v@));
                }
                return ;
            }
            i = i + 1;
        }
        proof {
            lemma_sec_index_none(orig, n@);
        }
        let mut es: Vec<Entry> = Vec::new();
        es.push(Entry { key: k, value: v });
        let ghost newv: SectionV = SectionV {
            name: n@,
            entries: seq![EntryV { key: k@, value: v@ }],
        };
        self.sections.push(Section { name: n, entries: es });
        proof {
            assert(self.sections@.last()@.entries =~= newv.entries);
            assert(self.sections@.last()@ == newv);
            assert(self@ =~= spec_set(orig, n@, k@, v@));
        }
    }
}

} // verus!
