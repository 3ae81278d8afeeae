//! Reading and writing the credential file format: bracketed section
//! headers, `key = value` lines, comments, and entries before any header,
//! which belong to a caller-chosen reserved marker section and are written
//! back without a header line.

use crate::errors::RotateError;
use crate::store::CredentialFile;
use crate::store::Entry;
use crate::store::EntryV;
use crate::store::Section;
use crate::store::SectionV;
use crate::store::bytes_eq;
use crate::store::is_ws;
use crate::store::key_index;
use crate::store::lemma_key_index_none;
use crate::store::lemma_key_index_some;
use crate::store::lemma_sec_index_none;
use crate::store::lemma_sec_index_some;
use crate::store::sec_index;
use crate::store::valid_key;
use crate::store::valid_name;
use crate::store::valid_value;
use crate::store::wf_entries;
use crate::store::wf_file;
use vstd::prelude::*;

verus! {

/// The input split at every newline; the newline bytes themselves are
/// dropped. The result always holds at least one (possibly empty) line.
pub open spec fn split_lines(s: Seq<u8>) -> Seq<Seq<u8>>
    decreases s.len(),
{
    if s.len() == 0 {
        seq![Seq::<u8>::empty()]
    } else if s[0] == 10 {
        seq![Seq::<u8>::empty()] + split_lines(s.drop_first())
    } else {
        let rest = split_lines(s.drop_first());
        seq![seq![s[0]] + rest[0]] + rest.drop_first()
    }
}

/// Leading whitespace removed.
pub open spec fn trim_start(s: Seq<u8>) -> Seq<u8>
    decreases s.len(),
{
    if s.len() > 0 && is_ws(s[0]) {
        trim_start(s.drop_first())
    } else {
        s
    }
}

/// Trailing whitespace removed.
pub open spec fn trim_end(s: Seq<u8>) -> Seq<u8>
    decreases s.len(),
{
    if s.len() > 0 && is_ws(s[s.len() - 1]) {
        trim_end(s.drop_last())
    } else {
        s
    }
}

/// Whitespace removed from both ends.
pub open spec fn trim(s: Seq<u8>) -> Seq<u8> {
    trim_end(trim_start(s))
}

/// Index of the first occurrence of `b`, if any.
pub open spec fn find_byte(s: Seq<u8>, b: u8) -> Option<int>
    decreases s.len(),
{
    if s.len() == 0 {
        None
    } else if s[0] == b {
        Some(0)
    } else {
        match find_byte(s.drop_first(), b) {
            None => None,
            Some(i) => Some(i + 1),
        }
    }
}

/// A section name may hold anything but newlines and brackets.
pub open spec fn ok_name_chars(n: Seq<u8>) -> bool {
    forall|i: int| 0 <= i < n.len() ==> n[i] != 91 && n[i] != 93
}

/// One line applied to the file built so far. `None` is a parse error:
/// an unterminated or reserved or duplicate header, a line without `=`,
/// an empty key, or a duplicate key in the current section.
pub open spec fn parse_step(acc: Seq<SectionV>, line: Seq<u8>, m: Seq<u8>) -> Option<
    Seq<SectionV>,
> {
    let t = trim(line);
    if t.len() == 0 || t[0] == 59 || t[0] == 35 {
        Some(acc)
    } else if t[0] == 91 {
        if t[t.len() - 1] != 93 {
            None
        } else {
            let n = trim(t.subrange(1, t.len() - 1));
            if n.len() == 0 || !ok_name_chars(n) || n == m || sec_index(acc, n) is Some {
                None
            } else {
                Some(acc.push(SectionV { name: n, entries: Seq::empty() }))
            }
        }
    } else {
        match find_byte(t, 61) {
            None => None,
            Some(p) => {
                let k = trim(t.subrange(0, p));
                let v = trim(t.subrange(p + 1, t.len() as int));
                if k.len() == 0 {
                    None
                } else if acc.len() == 0 {
                    Some(seq![SectionV { name: m, entries: seq![EntryV { key: k, value: v }] }])
                } else {
                    let last = acc.last();
                    if key_index(last.entries, k) is Some {
                        None
                    } else {
                        Some(
                            acc.update(
                                acc.len() - 1,
                                SectionV {
                                    name: last.name,
                                    entries: last.entries.push(EntryV { key: k, value: v }),
                                },
                            ),
                        )
                    }
                }
            },
        }
    }
}

/// The lines applied in order to the file built so far.
pub open spec fn parse_lines(lines: Seq<Seq<u8>>, m: Seq<u8>, acc: Seq<SectionV>) -> Option<
    Seq<SectionV>,
>
    decreases lines.len(),
{
    if lines.len() == 0 {
        Some(acc)
    } else {
        match parse_step(acc, lines[0], m) {
            None => None,
            Some(acc2) => parse_lines(lines.drop_first(), m, acc2),
        }
    }
}

/// The meaning of a whole credential file, under marker name `m`.
pub open spec fn parse_spec(s: Seq<u8>, m: Seq<u8>) -> Option<Seq<SectionV>> {
    parse_lines(split_lines(s), m, Seq::<SectionV>::empty())
}

/// One serialised entry line: `key = value` and a newline.
pub open spec fn serialize_entry(e: EntryV) -> Seq<u8> {
    e.key + seq![32u8, 61u8, 32u8] + e.value + seq![10u8]
}

/// The serialised entry lines of a section, in order.
pub open spec fn serialize_entries(es: Seq<EntryV>) -> Seq<u8>
    decreases es.len(),
{
    if es.len() == 0 {
        Seq::<u8>::empty()
    } else {
        serialize_entry(es[0]) + serialize_entries(es.drop_first())
    }
}

/// One serialised section: a bracketed header line, unless the section is
/// the reserved marker one, then its entry lines.
pub open spec fn serialize_section(s: SectionV, m: Seq<u8>) -> Seq<u8> {
    if s.name == m {
        serialize_entries(s.entries)
    } else {
        seq![91u8] + s.name + seq![93u8, 10u8] + serialize_entries(s.entries)
    }
}

/// The serialised sections, in order.
pub open spec fn serialize_sections(ss: Seq<SectionV>, m: Seq<u8>) -> Seq<u8>
    decreases ss.len(),
{
    if ss.len() == 0 {
        Seq::<u8>::empty()
    } else {
        serialize_section(ss[0], m) + serialize_sections(ss.drop_first(), m)
    }
}

/// Leading whitespace can be skipped all at once.
pub proof fn lemma_trim_start_skip(s: Seq<u8>, a: int)
    requires
        0 <= a <= s.len(),
        forall|t: int| 0 <= t < a ==> is_ws(s[t]),
    ensures
        trim_start(s) == trim_start(s.subrange(a, s.len() as int)),
    decreases a,
{
    if a == 0 {
        assert(s.subrange(0, s.len() as int) =~= s);
    } else {
        assert(is_ws(s[0]));
        let d = s.drop_first();
        assert(forall|t: int| 0 <= t < a - 1 ==> d[t] == s[t + 1]);
        lemma_trim_start_skip(d, a - 1);
        assert(d.subrange(a - 1, d.len() as int) =~= s.subrange(a, s.len() as int));
    }
}

/// Trailing whitespace can be skipped all at once.
pub proof fn lemma_trim_end_skip(s: Seq<u8>, b: int)
    requires
        0 <= b <= s.len(),
        forall|t: int| b <= t < s.len() ==> is_ws(s[t]),
    ensures
        trim_end(s) == trim_end(s.subrange(0, b)),
    decreases s.len() - b,
{
    if b == s.len() {
        assert(s.subrange(0, b) =~= s);
    } else {
        assert(is_ws(s[s.len() - 1]));
        let d = s.drop_last();
        assert(d =~= s.subrange(0, s.len() - 1));
        lemma_trim_end_skip(d, b);
        assert(d.subrange(0, b) =~= s.subrange(0, b));
    }
}

/// `trim` yields exactly the bytes between the outermost non-whitespace
/// positions.
pub proof fn lemma_trim_bounds(s: Seq<u8>, a: int, b: int)
    requires
        0 <= a <= b <= s.len(),
        forall|t: int| 0 <= t < a ==> is_ws(s[t]),
        forall|t: int| b <= t < s.len() ==> is_ws(s[t]),
        a < b ==> !is_ws(s[a]) && !is_ws(s[b - 1]),
    ensures
        trim(s) == s.subrange(a, b),
{
    if a == b {
        lemma_trim_start_skip(s, s.len() as int);
        assert(s.subrange(s.len() as int, s.len() as int) =~= Seq::<u8>::empty());
        assert(trim_start(s) =~= Seq::<u8>::empty());
        assert(s.subrange(a, b) =~= Seq::<u8>::empty());
    } else {
        lemma_trim_start_skip(s, a);
        let u = s.subrange(a, s.len() as int);
        assert(!is_ws(u[0]));
        assert(trim_start(u) == u);
        lemma_trim_end_skip(u, b - a);
        let w = u.subrange(0, b - a);
        assert(w =~= s.subrange(a, b));
        assert(!is_ws(w[w.len() - 1]));
        assert(trim_end(w) == w);
    }
}

/// A string already trimmed at both ends is its own trim.
pub proof fn lemma_trim_id(s: Seq<u8>)
    requires
        s.len() == 0 || (!is_ws(s[0]) && !is_ws(s[s.len() - 1])),
    ensures
        trim(s) == s,
{
    lemma_trim_bounds(s, 0, s.len() as int);
    assert(s.subrange(0, s.len() as int) =~= s);
}

/// If `i` is the first position holding `b`, then `find_byte` returns it.
pub proof fn lemma_find_byte_some(s: Seq<u8>, b: u8, i: int)
    requires
        0 <= i < s.len(),
        s[i] == b,
        forall|t: int| 0 <= t < i ==> s[t] != b,
    ensures
        find_byte(s, b) == Some(i),
    decreases s.len(),
{
    if i > 0 {
        let d = s.drop_first();
        assert(forall|t: int| 0 <= t < i - 1 ==> d[t] == s[t + 1]);
        lemma_find_byte_some(d, b, i - 1);
    }
}

/// If no position holds `b`, then `find_byte` returns nothing.
pub proof fn lemma_find_byte_none(s: Seq<u8>, b: u8)
    requires
        forall|t: int| 0 <= t < s.len() ==> s[t] != b,
    ensures
        find_byte(s, b) is None,
    decreases s.len(),
{
    if s.len() > 0 {
        let d = s.drop_first();
        assert(forall|t: int| 0 <= t < d.len() ==> d[t] == s[t + 1]);
        lemma_find_byte_none(d, b);
    }
}

/// Whatever `find_byte` returns is a first occurrence.
pub proof fn lemma_find_byte_char(s: Seq<u8>, b: u8)
    ensures
        match find_byte(s, b) {
            Some(i) => 0 <= i < s.len() && s[i] == b && (forall|t: int|
                0 <= t < i ==> s[t] != b),
            None => forall|t: int| 0 <= t < s.len() ==> s[t] != b,
        },
    decreases s.len(),
{
    if s.len() > 0 && s[0] != b {
        let d = s.drop_first();
        lemma_find_byte_char(d, b);
        assert(forall|t: int| 1 <= t < s.len() ==> s[t] == d[t - 1]);
    }
}

/// Splitting always yields at least one line.
pub proof fn lemma_split_lines_len(s: Seq<u8>)
    ensures
        split_lines(s).len() >= 1,
    decreases s.len(),
{
    if s.len() > 0 {
        lemma_split_lines_len(s.drop_first());
    }
}

/// No split line holds a newline byte.
pub proof fn lemma_split_lines_no_nl(s: Seq<u8>)
    ensures
        forall|i: int, j: int|
            0 <= i < split_lines(s).len() && 0 <= j < split_lines(s)[i].len()
                ==> split_lines(s)[i][j] != 10,
    decreases s.len(),
{
    lemma_split_lines_len(s);
    if s.len() > 0 {
        lemma_split_lines_no_nl(s.drop_first());
        lemma_split_lines_len(s.drop_first());
    }
}

/// A newline-free line followed by a newline splits off as the first line.
pub proof fn lemma_split_prepend(line: Seq<u8>, rest: Seq<u8>)
    requires
        forall|j: int| 0 <= j < line.len() ==> line[j] != 10,
    ensures
        split_lines(line + seq![10u8] + rest) == seq![line] + split_lines(rest),
    decreases line.len(),
{
    let s = line + seq![10u8] + rest;
    if line.len() == 0 {
        assert(s[0] == 10);
        assert(s.drop_first() =~= rest);
        assert(split_lines(s) == seq![Seq::<u8>::empty()] + split_lines(rest));
        assert(line =~= Seq::<u8>::empty());
        assert(seq![Seq::<u8>::empty()] =~~= seq![line]);
    } else {
        assert(s[0] == line[0]);
        assert(s[0] != 10);
        let d = s.drop_first();
        assert(d =~= line.drop_first() + seq![10u8] + rest);
        assert(forall|j: int| 0 <= j < line.drop_first().len() ==> line.drop_first()[j] != 10);
        lemma_split_prepend(line.drop_first(), rest);
        assert(split_lines(d) == seq![line.drop_first()] + split_lines(rest));
        let r = split_lines(d);
        assert(r[0] == line.drop_first());
        assert(seq![s[0]] + r[0] =~= line);
        lemma_split_lines_len(rest);
        assert(r.drop_first() =~= split_lines(rest));
        assert(split_lines(s) == seq![seq![s[0]] + r[0]] + r.drop_first());
        assert(split_lines(s) =~= seq![line] + split_lines(rest));
    }
}

/// A newline-free string is one single line.
pub proof fn lemma_split_single(line: Seq<u8>)
    requires
        forall|j: int| 0 <= j < line.len() ==> line[j] != 10,
    ensures
        split_lines(line) == seq![line],
    decreases line.len(),
{
    if line.len() == 0 {
        assert(line =~= Seq::<u8>::empty());
        assert(split_lines(line) =~~= seq![line]);
    } else {
        let d = line.drop_first();
        assert(forall|j: int| 0 <= j < d.len() ==> d[j] != 10);
        lemma_split_single(d);
        let r = split_lines(d);
        assert(r == seq![d]);
        assert(seq![line[0]] + r[0] =~= line);
        assert(r.drop_first() =~= Seq::<Seq<u8>>::empty());
        assert(split_lines(line) == seq![seq![line[0]] + r[0]] + r.drop_first());
        assert(split_lines(line) =~~= seq![line]);
    }
}

/// Concatenating entry lists serialises to the concatenation.
pub proof fn lemma_serialize_entries_concat(a: Seq<EntryV>, b: Seq<EntryV>)
    ensures
        serialize_entries(a + b) == serialize_entries(a) + serialize_entries(b),
    decreases a.len(),
{
    if a.len() == 0 {
        assert(a + b =~= b);
        assert(serialize_entries(a) + serialize_entries(b) =~= serialize_entries(b));
    } else {
        assert((a + b).drop_first() =~= a.drop_first() + b);
        lemma_serialize_entries_concat(a.drop_first(), b);
        assert((a + b)[0] == a[0]);
        assert(serialize_entry(a[0]) + (serialize_entries(a.drop_first())
            + serialize_entries(b)) =~= (serialize_entry(a[0]) + serialize_entries(
            a.drop_first(),
        )) + serialize_entries(b));
    }
}

/// Concatenating section lists serialises to the concatenation.
pub proof fn lemma_serialize_sections_concat(a: Seq<SectionV>, b: Seq<SectionV>, m: Seq<u8>)
    ensures
        serialize_sections(a + b, m) == serialize_sections(a, m) + serialize_sections(b, m),
    decreases a.len(),
{
    if a.len() == 0 {
        assert(a + b =~= b);
        assert(serialize_sections(a, m) + serialize_sections(b, m) =~= serialize_sections(
            b,
            m,
        ));
    } else {
        assert((a + b).drop_first() =~= a.drop_first() + b);
        lemma_serialize_sections_concat(a.drop_first(), b, m);
        assert((a + b)[0] == a[0]);
        assert(serialize_section(a[0], m) + (serialize_sections(a.drop_first(), m)
            + serialize_sections(b, m)) =~= (serialize_section(a[0], m) + serialize_sections(
            a.drop_first(),
            m,
        )) + serialize_sections(b, m));
    }
}

/// A single entry serialises to its one line.
pub proof fn lemma_serialize_entries_one(e: EntryV)
    ensures
        serialize_entries(seq![e]) == serialize_entry(e),
{
    assert(seq![e].drop_first() =~= Seq::<EntryV>::empty());
    assert(serialize_entries(Seq::<EntryV>::empty()) == Seq::<u8>::empty());
    assert(serialize_entry(e) + Seq::<u8>::empty() =~= serialize_entry(e));
}

/// A single section serialises to its own lines.
pub proof fn lemma_serialize_sections_one(s: SectionV, m: Seq<u8>)
    ensures
        serialize_sections(seq![s], m) == serialize_section(s, m),
{
    assert(seq![s].drop_first() =~= Seq::<SectionV>::empty());
    assert(serialize_sections(Seq::<SectionV>::empty(), m) == Seq::<u8>::empty());
    assert(serialize_section(s, m) + Seq::<u8>::empty() =~= serialize_section(s, m));
}

/// The slice with leading and trailing whitespace removed.
#[verifier::loop_isolation(false)]
pub fn trim_slice<'a>(s: &'a [u8]) -> (r: &'a [u8])
    ensures
        r@ == trim(s@),
{
    let mut a: usize = 0;
    while a < s.len() && (s[a] == 32 || s[a] == 9 || s[a] == 13)
        invariant
            a <= s@.len(),
            forall|t: int| 0 <= t < a ==> is_ws(s@[t]),
        decreases s@.len() - a,
    {
        a = a + 1;
    }
    let mut b: usize = s.len();
    while b > a && (s[b - 1] == 32 || s[b - 1] == 9 || s[b - 1] == 13)
        invariant
            a <= b <= s@.len(),
            forall|t: int| b <= t < s@.len() ==> is_ws(s@[t]),
        decreases b,
    {
        b = b - 1;
    }
    proof {
        lemma_trim_bounds(s@, a as int, b as int);
    }
    &s[a..b]
}

/// Appends all of `src` to `out`.
#[verifier::loop_isolation(false)]
pub(crate) fn push_bytes(out: &mut Vec<u8>, src: &[u8])
    ensures
        final(out)@ == old(out)@ + src@,
{
    let mut i: usize = 0;
    proof {
        assert(out@ =~= old(out)@ + src@.subrange(0, 0));
    }
    while i < src.len()
        invariant
            i <= src@.len(),
            out@ == old(out)@ + src@.subrange(0, i as int),
        decreases src@.len() - i,
    {
        out.push(src[i]);
        proof {
            assert(out@ =~= old(out)@ + src@.subrange(0, i + 1));
        }
        i = i + 1;
    }
    proof {
        assert(src@.subrange(0, src@.len() as int) =~= src@);
    }
}

/// Serialises the file; entries of the marker section are written without a
/// header line, every other section under its bracketed header.
#[verifier::loop_isolation(false)]
pub fn serialize(file: &CredentialFile, marker: &[u8]) -> (out: Vec<u8>)
    ensures
        out@ == serialize_sections(file@, marker@),
{
    let mut out: Vec<u8> = Vec::new();
    let mut i: usize = 0;
    proof {
        assert(file@.take(0) =~= Seq::<SectionV>::empty());
        assert(out@ =~= serialize_sections(file@.take(0), marker@));
    }
    while i < file.sections.len()
        invariant
            i <= file.sections@.len(),
            file@.len() == file.sections@.len(),
            forall|j: int| 0 <= j < file@.len() ==> file@[j] == file.sections@[j]@,
            out@ == serialize_sections(file@.take(i as int), marker@),
        decreases file.sections@.len() - i,
    {
        let sec = &file.sections[i];
        assert(sec@ == file@[i as int]);
        if !bytes_eq(sec.name.as_slice(), marker) {
            out.push(91);
            push_bytes(&mut out, sec.name.as_slice());
            out.push(93);
            out.push(10);
            proof {
                assert(out@ =~= serialize_sections(file@.take(i as int), marker@)
                    + (seq![91u8] + sec@.name + seq![93u8, 10u8]));
            }
        }
        let ghost base: Seq<u8> = out@;
        let mut j: usize = 0;
        proof {
            assert(sec@.entries.take(0) =~= Seq::<EntryV>::empty());
            assert(base + serialize_entries(sec@.entries.take(0)) =~= base);
        }
        while j < sec.entries.len()
            invariant
                j <= sec.entries@.len(),
                sec@.entries.len() == sec.entries@.len(),
                forall|t: int| 0 <= t < sec@.entries.len() ==> sec@.entries[t] == sec.entries@[t]@,
                out@ == base + serialize_entries(sec@.entries.take(j as int)),
            decreases sec.entries@.len() - j,
        {
            let e = &sec.entries[j];
            assert(e@ == sec@.entries[j as int]);
            push_bytes(&mut out, e.key.as_slice());
            out.push(32);
            out.push(61);
            out.push(32);
            push_bytes(&mut out, e.value.as_slice());
            out.push(10);
            proof {
                let es = sec@.entries;
                assert(es.take(j + 1) =~= es.take(j as int) + seq![es[j as int]]);
                lemma_serialize_entries_concat(es.take(j as int), seq![es[j as int]]);
                lemma_serialize_entries_one(es[j as int]);
                assert(serialize_entry(es[j as int]) =~= e@.key + seq![32u8, 61u8, 32u8]
                    + e@.value + seq![10u8]);
                assert(out@ =~= base + serialize_entries(es.take(j + 1)));
            }
            j = j + 1;
        }
        proof {
            let ss = file@;
            assert(sec@.entries.take(sec@.entries.len() as int) =~= sec@.entries);
            assert(ss.take(i + 1) =~= ss.take(i as int) + seq![ss[i as int]]);
            lemma_serialize_sections_concat(ss.take(i as int), seq![ss[i as int]], marker@);
            lemma_serialize_sections_one(ss[i as int], marker@);
            assert(out@ =~= serialize_sections(ss.take(i as int), marker@)
                + serialize_section(ss[i as int], marker@));
        }
        i = i + 1;
    }
    proof {
        assert(file@.take(file@.len() as int) =~= file@);
    }
    out
}

/// Applies one line to the file being built; `false` is a parse error.
#[verifier::loop_isolation(false)]
fn apply_line(file: &mut CredentialFile, line: &[u8], marker: &[u8]) -> (ok: bool)
    ensures
        ok == (parse_step(old(file)@, line@, marker@) is Some),
        ok ==> Some(final(file)@) == parse_step(old(file)@, line@, marker@),
{
    let ghost acc: Seq<SectionV> = file@;
    let t = trim_slice(line);
    if t.len() == 0 {
        return true;
    }
    let c0 = t[0];
    if c0 == 59 || c0 == 35 {
        return true;
    }
    if c0 == 91 {
        if t[t.len() - 1] != 93 {
            return false;
        }
        let inner = &t[1..t.len() - 1];
        let n = trim_slice(inner);
        if n.len() == 0 {
            return false;
        }
        let mut x: usize = 0;
        while x < n.len()
            invariant
                x <= n@.len(),
                forall|j: int| 0 <= j < x ==> n@[j] != 91 && n@[j] != 93,
            decreases n@.len() - x,
        {
            if n[x] == 91 || n[x] == 93 {
                assert(!ok_name_chars(n@));
                return false;
            }
            x = x + 1;
        }
        assert(ok_name_chars(n@));
        if bytes_eq(n, marker) {
            return false;
        }
        let mut si: usize = 0;
        while si < file.sections.len()
            invariant
                si <= file.sections@.len(),
                file@ == acc,
                acc.len() == file.sections@.len(),
                forall|j: int| 0 <= j < acc.len() ==> acc[j] == file.sections@[j]@,
                forall|j: int| 0 <= j < si ==> acc[j].name != n@,
            decreases file.sections@.len() - si,
        {
            if bytes_eq(file.sections[si].name.as_slice(), n) {
                proof {
                    lemma_sec_index_some(acc, n@, si as int);
                }
                return false;
            }
            si = si + 1;
        }
        proof {
            lemma_sec_index_none(acc, n@);
        }
        let name = vstd::slice::slice_to_vec(n);
        file.sections.push(Section { name, entries: Vec::new() });
        proof {
            assert(file.sections@.last()@.entries =~= Seq::<EntryV>::empty());
            assert(file@ =~= acc.push(SectionV { name: n@, entries: Seq::empty() }));
        }
        return true;
    }
    let mut p: usize = 0;
    while p < t.len() && t[p] != 61
        invariant
            p <= t@.len(),
            forall|j: int| 0 <= j < p ==> t@[j] != 61,
        decreases t@.len() - p,
    {
        p = p + 1;
    }
    if p == t.len() {
        proof {
            lemma_find_byte_none(t@, 61);
        }
        return false;
    }
    proof {
        lemma_find_byte_some(t@, 61, p as int);
    }
    let kpart = &t[0..p];
    let vpart = &t[p + 1..t.len()];
    let k = trim_slice(kpart);
    let v = trim_slice(vpart);
    if k.len() == 0 {
        return false;
    }
    if file.sections.len() == 0 {
        assert(acc.len() == 0);
        let mut es: Vec<Entry> = Vec::new();
        es.push(Entry { key: vstd::slice::slice_to_vec(k), value: vstd::slice::slice_to_vec(v) });
        file.sections.push(Section { name: vstd::slice::slice_to_vec(marker), entries: es });
        proof {
            assert(file.sections@.last()@.entries =~= seq![EntryV { key: k@, value: v@ }]);
            assert(file@ =~= seq![
                SectionV { name: marker@, entries: seq![EntryV { key: k@, value: v@ }] },
            ]);
        }
        return true;
    }
    let li = file.sections.len() - 1;
    let ghost lastv: SectionV = acc.last();
    assert(lastv == file.sections@[li as int]@);
    let mut kj: usize = 0;
    let nentries = file.sections[li].entries.len();
    while kj < nentries
        invariant
            kj <= lastv.entries.len(),
            nentries == lastv.entries.len(),
            file@ == acc,
            li == acc.len() - 1,
            lastv == file.sections@[li as int]@,
            forall|j: int| 0 <= j < kj ==> lastv.entries[j].key != k@,
        decreases lastv.entries.len() - kj,
    {
        if bytes_eq(file.sections[li].entries[kj].key.as_slice(), k) {
            proof {
                assert(lastv.entries[kj as int].key == k@);
                lemma_key_index_some(lastv.entries, k@, kj as int);
            }
            return false;
        }
        kj = kj + 1;
    }
    proof {
        lemma_key_index_none(lastv.entries, k@);
    }
    match file.sections.pop() {
        Some(mut sec) => {
            assert(sec@ == lastv);
            sec.entries.push(
                Entry { key: vstd::slice::slice_to_vec(k), value: vstd::slice::slice_to_vec(v) },
            );
            proof {
                assert(sec@.entries =~= lastv.entries.push(EntryV { key: k@, value: v@ }));
            }
            let ghost secg: SectionV = sec@;
            file.sections.push(sec);
            proof {
                assert(file@ =~= acc.update(
                    acc.len() - 1,
                    SectionV {
                        name: lastv.name,
                        entries: lastv.entries.push(EntryV { key: k@, value: v@ }),
                    },
                ));
            }
            true
        },
        None => {
            proof {
                assert(false);
            }
            false
        },
    }
}

/// Parses the bytes of a credential file under the given marker name.
///
/// Success yields exactly the meaning `parse_spec` gives the bytes; every
/// malformed input is rejected with a parse error.
#[verifier::loop_isolation(false)]
pub fn parse(input: &[u8], marker: &[u8]) -> (r: Result<CredentialFile, RotateError>)
    ensures
        match r {
            Ok(f) => parse_spec(input@, marker@) == Some(f@),
            Err(e) => parse_spec(input@, marker@) is None && e == RotateError::Parse,
        },
{
    let mut file = CredentialFile { sections: Vec::new() };
    let mut i: usize = 0;
    let ghost m: Seq<u8> = marker@;
    let ghost whole: Seq<u8> = input@;
    proof {
        assert(file@ =~= Seq::<SectionV>::empty());
        assert(whole.subrange(0, whole.len() as int) =~= whole);
    }
    loop
        invariant
            i <= whole.len(),
            input@ == whole,
            marker@ == m,
            parse_spec(whole, m) == parse_lines(
                split_lines(whole.subrange(i as int, whole.len() as int)),
                m,
                file@,
            ),
        decreases whole.len() - i,
    {
        let mut j: usize = i;
        while j < input.len() && input[j] != 10
            invariant
                i <= j <= whole.len(),
                forall|t: int| i <= t < j ==> whole[t] != 10,
            decreases whole.len() - j,
        {
            j = j + 1;
        }
        let line = &input[i..j];
        let ghost rem: Seq<u8> = whole.subrange(i as int, whole.len() as int);
        let ghost acc: Seq<SectionV> = file@;
        let ok = apply_line(&mut file, line, marker);
        if j == input.len() {
            proof {
                lemma_split_single(line@);
                assert(rem =~= line@);
                assert(parse_lines(seq![line@], m, acc) == match parse_step(acc, line@, m) {
                    None => None::<Seq<SectionV>>,
                    Some(a2) => parse_lines(seq![line@].drop_first(), m, a2),
                });
                assert(seq![line@].drop_first() =~= Seq::<Seq<u8>>::empty());
            }
            if ok {
                return Ok(file);
            } else {
                return Err(RotateError::Parse);
            }
        }
        proof {
            let rest = whole.subrange(j + 1, whole.len() as int);
            assert(rem =~= line@ + seq![10u8] + rest);
            lemma_split_prepend(line@, rest);
            assert(split_lines(rem) == seq![line@] + split_lines(rest));
            lemma_split_lines_len(rest);
            assert((seq![line@] + split_lines(rest))[0] == line@);
            assert((seq![line@] + split_lines(rest)).drop_first() =~= split_lines(rest));
        }
        if !ok {
            return Err(RotateError::Parse);
        }
        i = j + 1;
    }
}

/// Trimming never introduces a byte.
proof fn lemma_trim_start_no_byte(s: Seq<u8>, b: u8)
    requires
        forall|j: int| 0 <= j < s.len() ==> s[j] != b,
    ensures
        forall|j: int| 0 <= j < trim_start(s).len() ==> trim_start(s)[j] != b,
    decreases s.len(),
{
    if s.len() > 0 && is_ws(s[0]) {
        assert(forall|j: int| 0 <= j < s.drop_first().len() ==> s.drop_first()[j] != b);
        lemma_trim_start_no_byte(s.drop_first(), b);
        assert(trim_start(s) == trim_start(s.drop_first()));
        assert(forall|j: int|
            0 <= j < trim_start(s).len() ==> trim_start(s)[j] == trim_start(s.drop_first())[j]);
    } else {
        assert(trim_start(s) == s);
    }
}

/// Trimming never introduces a byte.
proof fn lemma_trim_end_no_byte(s: Seq<u8>, b: u8)
    requires
        forall|j: int| 0 <= j < s.len() ==> s[j] != b,
    ensures
        forall|j: int| 0 <= j < trim_end(s).len() ==> trim_end(s)[j] != b,
    decreases s.len(),
{
    if s.len() > 0 && is_ws(s[s.len() - 1]) {
        assert(forall|j: int| 0 <= j < s.drop_last().len() ==> s.drop_last()[j] != b);
        lemma_trim_end_no_byte(s.drop_last(), b);
        assert(trim_end(s) == trim_end(s.drop_last()));
        assert(forall|j: int|
            0 <= j < trim_end(s).len() ==> trim_end(s)[j] == trim_end(s.drop_last())[j]);
    } else {
        assert(trim_end(s) == s);
    }
}

/// Trimming never introduces a byte.
pub proof fn lemma_trim_no_byte(s: Seq<u8>, b: u8)
    requires
        forall|j: int| 0 <= j < s.len() ==> s[j] != b,
    ensures
        forall|j: int| 0 <= j < trim(s).len() ==> trim(s)[j] != b,
{
    lemma_trim_start_no_byte(s, b);
    lemma_trim_end_no_byte(trim_start(s), b);
}

/// A non-empty trim starts with a non-whitespace byte.
proof fn lemma_trim_start_first(s: Seq<u8>)
    ensures
        trim_start(s).len() > 0 ==> !is_ws(trim_start(s)[0]),
    decreases s.len(),
{
    if s.len() > 0 && is_ws(s[0]) {
        lemma_trim_start_first(s.drop_first());
    }
}

/// A non-empty trim ends with a non-whitespace byte.
proof fn lemma_trim_end_last(s: Seq<u8>)
    ensures
        trim_end(s).len() > 0 ==> !is_ws(trim_end(s)[trim_end(s).len() - 1]),
    decreases s.len(),
{
    if s.len() > 0 && is_ws(s[s.len() - 1]) {
        lemma_trim_end_last(s.drop_last());
    }
}

/// Trimming from the end keeps the first byte.
proof fn lemma_trim_end_first(s: Seq<u8>)
    ensures
        trim_end(s).len() > 0 ==> s.len() > 0 && trim_end(s)[0] == s[0],
    decreases s.len(),
{
    if s.len() > 0 && is_ws(s[s.len() - 1]) {
        lemma_trim_end_first(s.drop_last());
    }
}

/// A non-empty trim has non-whitespace ends, and keeps the first byte of an
/// already left-trimmed string.
pub proof fn lemma_trim_edges(s: Seq<u8>)
    ensures
        trim(s).len() > 0 ==> !is_ws(trim(s)[0]) && !is_ws(trim(s)[trim(s).len() - 1]),
        (s.len() > 0 && !is_ws(s[0]) && trim(s).len() > 0) ==> trim(s)[0] == s[0],
{
    lemma_trim_start_first(s);
    lemma_trim_end_last(trim_start(s));
    lemma_trim_end_first(trim_start(s));
    if s.len() > 0 && !is_ws(s[0]) {
        assert(trim_start(s) == s);
    }
}

/// Equal names give equal section indices.
proof fn lemma_sec_index_by_names(a: Seq<SectionV>, b: Seq<SectionV>, n: Seq<u8>)
    requires
        a.len() == b.len(),
        forall|i: int| 0 <= i < a.len() ==> a[i].name == b[i].name,
    ensures
        sec_index(a, n) == sec_index(b, n),
{
    crate::store::lemma_sec_index(a, n);
    crate::store::lemma_sec_index(b, n);
}

/// Equal keys give equal entry indices.
proof fn lemma_key_index_by_keys(a: Seq<EntryV>, b: Seq<EntryV>, k: Seq<u8>)
    requires
        a.len() == b.len(),
        forall|i: int| 0 <= i < a.len() ==> a[i].key == b[i].key,
    ensures
        key_index(a, k) == key_index(b, k),
{
    crate::store::lemma_key_index(a, k);
    crate::store::lemma_key_index(b, k);
}

/// One accepted line keeps the file well-formed.
#[verifier::rlimit(100)]
proof fn lemma_parse_step_wf(acc: Seq<SectionV>, line: Seq<u8>, m: Seq<u8>)
    requires
        wf_file(acc, m),
        forall|j: int| 0 <= j < line.len() ==> line[j] != 10,
        parse_step(acc, line, m) is Some,
    ensures
        wf_file(parse_step(acc, line, m).unwrap(), m),
{
    let t = trim(line);
    lemma_trim_no_byte(line, 10);
    lemma_trim_edges(line);
    if t.len() == 0 || t[0] == 59 || t[0] == 35 {
    } else if t[0] == 91 {
        let inner = t.subrange(1, t.len() - 1);
        let n = trim(inner);
        assert(forall|j: int| 0 <= j < inner.len() ==> inner[j] != 10);
        lemma_trim_no_byte(inner, 10);
        lemma_trim_edges(inner);
        assert(valid_name(n));
        crate::store::lemma_sec_index(acc, n);
        let out = acc.push(SectionV { name: n, entries: Seq::<EntryV>::empty() });
        assert(forall|i: int| 0 <= i < acc.len() ==> out[i] == acc[i]);
        assert(wf_file(out, m));
    } else {
        let p = find_byte(t, 61).unwrap();
        lemma_find_byte_char(t, 61);
        let kpart = t.subrange(0, p);
        let vpart = t.subrange(p + 1, t.len() as int);
        let k = trim(kpart);
        let v = trim(vpart);
        assert(forall|j: int| 0 <= j < kpart.len() ==> kpart[j] != 10 && kpart[j] != 61);
        lemma_trim_no_byte(kpart, 10);
        lemma_trim_no_byte(kpart, 61);
        lemma_trim_edges(kpart);
        assert(kpart.len() > 0 && kpart[0] == t[0]);
        assert(!is_ws(t[0]));
        assert(k.len() > 0 ==> k[0] == t[0]);
        assert(forall|j: int| 0 <= j < vpart.len() ==> vpart[j] != 10);
        lemma_trim_no_byte(vpart, 10);
        lemma_trim_edges(vpart);
        assert(valid_value(v));
        if k.len() > 0 {
            assert(valid_key(k));
            if acc.len() == 0 {
                let out = seq![SectionV { name: m, entries: seq![EntryV { key: k, value: v }] }];
                assert(wf_entries(out[0].entries));
                assert(wf_file(out, m));
            } else {
                let last = acc.last();
                if key_index(last.entries, k) is None {
                    crate::store::lemma_key_index(last.entries, k);
                    let es2 = last.entries.push(EntryV { key: k, value: v });
                    assert(forall|i: int| 0 <= i < last.entries.len() ==> es2[i] == last.entries[i]);
                    assert(wf_entries(es2));
                    let out = acc.update(acc.len() - 1, SectionV { name: last.name, entries: es2 });
                    assert(forall|i: int| 0 <= i < acc.len() - 1 ==> out[i] == acc[i]);
                    assert(out[acc.len() - 1].name == acc[acc.len() - 1].name);
                    assert(wf_file(out, m));
                }
            }
        }
    }
}

/// Every accepted file is well-formed.
proof fn lemma_parse_lines_wf(lines: Seq<Seq<u8>>, m: Seq<u8>, acc: Seq<SectionV>)
    requires
        wf_file(acc, m),
        forall|i: int, j: int|
            0 <= i < lines.len() && 0 <= j < lines[i].len() ==> lines[i][j] != 10,
        parse_lines(lines, m, acc) is Some,
    ensures
        wf_file(parse_lines(lines, m, acc).unwrap(), m),
    decreases lines.len(),
{
    if lines.len() > 0 {
        lemma_parse_step_wf(acc, lines[0], m);
        let acc2 = parse_step(acc, lines[0], m).unwrap();
        assert(forall|i: int, j: int|
            0 <= i < lines.drop_first().len() && 0 <= j < lines.drop_first()[i].len()
                ==> lines.drop_first()[i][j] != 10);
        lemma_parse_lines_wf(lines.drop_first(), m, acc2);
    }
}

/// Whatever parses from bytes is a well-formed file.
pub proof fn lemma_parse_wf(s: Seq<u8>, m: Seq<u8>)
    requires
        parse_spec(s, m) is Some,
    ensures
        wf_file(parse_spec(s, m).unwrap(), m),
{
    lemma_split_lines_no_nl(s);
    assert(wf_file(Seq::<SectionV>::empty(), m));
    lemma_parse_lines_wf(split_lines(s), m, Seq::<SectionV>::empty());
}

/// Loading a file and writing it straight back reproduces bytes with the
/// same meaning: they parse to exactly the file that was loaded.
pub proof fn lemma_load_then_write(text: Seq<u8>, m: Seq<u8>, f: Seq<SectionV>)
    requires
        parse_spec(text, m) == Some(f),
    ensures
        wf_file(f, m),
        parse_spec(serialize_sections(f, m), m) == Some(f),
{
    lemma_parse_wf(text, m);
    lemma_write_then_load(f, m);
}

/// Upserting keeps the file well-formed when the section already exists, or
/// when the new section name is valid and not the reserved marker.
pub proof fn lemma_set_wf(ss: Seq<SectionV>, m: Seq<u8>, n: Seq<u8>, k: Seq<u8>, v: Seq<u8>)
    requires
        wf_file(ss, m),
        valid_key(k),
        valid_value(v),
        sec_index(ss, n) is Some || (valid_name(n) && n != m),
    ensures
        wf_file(crate::store::spec_set(ss, n, k, v), m),
{
    let out = crate::store::spec_set(ss, n, k, v);
    crate::store::lemma_sec_index(ss, n);
    match sec_index(ss, n) {
        None => {
            assert(forall|i: int| 0 <= i < ss.len() ==> out[i] == ss[i]);
            assert(out[ss.len() as int].name == n);
            assert(wf_entries(out[ss.len() as int].entries));
            assert(wf_file(out, m));
        },
        Some(i) => {
            let es = ss[i].entries;
            crate::store::lemma_key_index(es, k);
            match key_index(es, k) {
                None => {
                    let es2 = es.push(EntryV { key: k, value: v });
                    assert(forall|t: int| 0 <= t < es.len() ==> es2[t] == es[t]);
                    assert(wf_entries(es2));
                },
                Some(j) => {
                    let es2 = es.update(j, EntryV { key: k, value: v });
                    assert(forall|t: int| 0 <= t < es.len() && t != j ==> es2[t] == es[t]);
                    assert(es2[j].key == es[j].key);
                    assert(forall|t: int| 0 <= t < es.len() ==> es2[t].key == es[t].key);
                    assert(wf_entries(es2));
                },
            }
            assert(forall|t: int| 0 <= t < ss.len() && t != i ==> out[t] == ss[t]);
            assert(out[i].name == ss[i].name);
            assert(wf_file(out, m));
        },
    }
}

/// What upserting does to every later lookup: the written pair reads back,
/// and every other profile and field is untouched.
pub proof fn lemma_set_then_get(ss: Seq<SectionV>, n: Seq<u8>, k: Seq<u8>, v: Seq<u8>)
    ensures
        crate::store::lookup(crate::store::spec_set(ss, n, k, v), n, k) == Some(v),
        forall|k2: Seq<u8>| k2 != k ==> #[trigger] crate::store::lookup(
            crate::store::spec_set(ss, n, k, v),
            n,
            k2,
        ) == crate::store::lookup(ss, n, k2),
        forall|n2: Seq<u8>, k2: Seq<u8>| n2 != n ==> #[trigger] crate::store::lookup(
            crate::store::spec_set(ss, n, k, v),
            n2,
            k2,
        ) == crate::store::lookup(ss, n2, k2),
        forall|i: int|
            0 <= i < ss.len() && ss[i].name != n ==> #[trigger] crate::store::spec_set(
                ss,
                n,
                k,
                v,
            )[i] == ss[i],
{
    let out = crate::store::spec_set(ss, n, k, v);
    crate::store::lemma_sec_index(ss, n);
    match sec_index(ss, n) {
        None => {
            assert(forall|i: int| 0 <= i < ss.len() ==> out[i] == ss[i]);
            lemma_sec_index_some(out, n, ss.len() as int);
            lemma_key_index_some(out[ss.len() as int].entries, k, 0);
            assert(crate::store::lookup(out, n, k) == Some(v));
            assert forall|n2: Seq<u8>, k2: Seq<u8>| n2 != n implies #[trigger] crate::store::lookup(
                out,
                n2,
                k2,
            ) == crate::store::lookup(ss, n2, k2) by {
                crate::store::lemma_sec_index(ss, n2);
                crate::store::lemma_sec_index(out, n2);
                match sec_index(ss, n2) {
                    Some(i2) => {
                        lemma_sec_index_some(out, n2, i2);
                    },
                    None => {
                        assert(forall|i: int| 0 <= i < out.len() ==> out[i].name != n2);
                        lemma_sec_index_none(out, n2);
                    },
                }
            }
            assert forall|k2: Seq<u8>| k2 != k implies #[trigger] crate::store::lookup(
                out,
                n,
                k2,
            ) == crate::store::lookup(ss, n, k2) by {
                lemma_sec_index_some(out, n, ss.len() as int);
                crate::store::lemma_key_index(out[ss.len() as int].entries, k2);
                lemma_key_index_none(out[ss.len() as int].entries, k2);
                crate::store::lemma_sec_index(ss, n);
            }
        },
        Some(i) => {
            let es = ss[i].entries;
            crate::store::lemma_key_index(es, k);
            assert(out.len() == ss.len());
            assert(forall|t: int| 0 <= t < ss.len() && t != i ==> out[t] == ss[t]);
            assert(forall|t: int| 0 <= t < ss.len() ==> out[t].name == ss[t].name);
            lemma_sec_index_by_names(ss, out, n);
            let es2 = out[i].entries;
            match key_index(es, k) {
                None => {
                    assert(es2 == es.push(EntryV { key: k, value: v }));
                    assert(forall|t: int| 0 <= t < es.len() ==> es2[t] == es[t]);
                    lemma_key_index_some(es2, k, es.len() as int);
                },
                Some(j) => {
                    assert(es2 == es.update(j, EntryV { key: k, value: v }));
                    assert(forall|t: int| 0 <= t < es.len() && t != j ==> es2[t] == es[t]);
                    assert(forall|t: int| 0 <= t < es.len() ==> es2[t].key == es[t].key);
                    lemma_key_index_some(es2, k, j);
                },
            }
            assert(crate::store::lookup(out, n, k) == Some(v));
            assert forall|k2: Seq<u8>| k2 != k implies #[trigger] crate::store::lookup(
                out,
                n,
                k2,
            ) == crate::store::lookup(ss, n, k2) by {
                crate::store::lemma_key_index(es, k2);
                crate::store::lemma_key_index(es2, k2);
                match key_index(es, k) {
                    None => {
                        match key_index(es, k2) {
                            Some(j2) => {
                                lemma_key_index_some(es2, k2, j2);
                            },
                            None => {
                                assert(forall|t: int| 0 <= t < es2.len() ==> es2[t].key != k2);
                                lemma_key_index_none(es2, k2);
                            },
                        }
                    },
                    Some(j) => {
                        lemma_key_index_by_keys(es, es2, k2);
                    },
                }
            }
            assert forall|n2: Seq<u8>, k2: Seq<u8>| n2 != n implies #[trigger] crate::store::lookup(
                out,
                n2,
                k2,
            ) == crate::store::lookup(ss, n2, k2) by {
                lemma_sec_index_by_names(ss, out, n2);
                crate::store::lemma_sec_index(ss, n2);
                if sec_index(ss, n2) is Some {
                    let i2 = sec_index(ss, n2).unwrap();
                    assert(ss[i2].name == n2);
                    assert(i2 != i);
                    assert(out[i2] == ss[i2]);
                }
            }
        },
    }
}

/// How one serialised `key = value` line parses: it puts the entry at the
/// end of the current section, or opens the marker section with it.
proof fn lemma_parse_entry_line(e: EntryV, acc: Seq<SectionV>, m: Seq<u8>)
    requires
        valid_key(e.key),
        valid_value(e.value),
        acc.len() > 0 ==> key_index(acc.last().entries, e.key) is None,
    ensures
        parse_step(acc, e.key + seq![32u8, 61u8, 32u8] + e.value, m) == Some(
            if acc.len() == 0 {
                seq![SectionV { name: m, entries: seq![e] }]
            } else {
                acc.update(
                    acc.len() - 1,
                    SectionV { name: acc.last().name, entries: acc.last().entries.push(e) },
                )
            },
        ),
{
    let kl = e.key.len() as int;
    let line = e.key + seq![32u8, 61u8, 32u8] + e.value;
    let t = trim(line);
    if e.value.len() > 0 {
        assert(!is_ws(line[0]));
        assert(line[line.len() - 1] == e.value[e.value.len() - 1]);
        lemma_trim_id(line);
        assert(t == line);
    } else {
        assert(forall|j: int| kl + 2 <= j < line.len() ==> is_ws(line[j]));
        assert(!is_ws(line[0]));
        assert(line[kl + 1] == 61 && !is_ws(line[kl + 1]));
        lemma_trim_bounds(line, 0, kl + 2);
        assert(t == line.subrange(0, kl + 2));
    }
    assert(t[0] == e.key[0]);
    assert(t.len() >= kl + 2);
    assert(t[kl + 1] == 61);
    assert(forall|j: int| 0 <= j < kl ==> t[j] == e.key[j]);
    assert(t[kl] == 32);
    assert(forall|j: int| 0 <= j < kl + 1 ==> t[j] != 61);
    lemma_find_byte_some(t, 61, kl + 1);
    let kpart = t.subrange(0, kl + 1);
    assert(kpart =~= e.key + seq![32u8]);
    lemma_trim_bounds(kpart, 0, kl);
    assert(kpart.subrange(0, kl) =~= e.key);
    let vpart = t.subrange(kl + 2, t.len() as int);
    if e.value.len() > 0 {
        assert(vpart =~= seq![32u8] + e.value);
        lemma_trim_bounds(vpart, 1, vpart.len() as int);
        assert(vpart.subrange(1, vpart.len() as int) =~= e.value);
    } else {
        assert(vpart =~= Seq::<u8>::empty());
        assert(trim(vpart) =~= e.value);
    }
    assert(trim(t.subrange(0, kl + 1)) == e.key);
    assert(trim(t.subrange(kl + 2, t.len() as int)) == e.value);
    if acc.len() == 0 {
        assert(parse_step(acc, line, m) == Some(
            seq![SectionV { name: m, entries: seq![EntryV { key: e.key, value: e.value }] }],
        ));
        assert(EntryV { key: e.key, value: e.value } == e);
    } else {
        assert(parse_step(acc, line, m) == Some(
            acc.update(
                acc.len() - 1,
                SectionV {
                    name: acc.last().name,
                    entries: acc.last().entries.push(EntryV { key: e.key, value: e.value }),
                },
            ),
        ));
        assert(EntryV { key: e.key, value: e.value } == e);
    }
}

/// How one serialised `[name]` header line parses: it opens a fresh section.
proof fn lemma_parse_header_line(name: Seq<u8>, acc: Seq<SectionV>, m: Seq<u8>)
    requires
        valid_name(name),
        name != m,
        sec_index(acc, name) is None,
    ensures
        parse_step(acc, seq![91u8] + name + seq![93u8], m) == Some(
            acc.push(SectionV { name, entries: Seq::<EntryV>::empty() }),
        ),
{
    let line = seq![91u8] + name + seq![93u8];
    assert(!is_ws(line[0]));
    assert(line[line.len() - 1] == 93 && !is_ws(line[line.len() - 1]));
    lemma_trim_id(line);
    let t = trim(line);
    assert(t == line);
    assert(t[0] == 91);
    assert(t[t.len() - 1] == 93);
    let inner = t.subrange(1, t.len() - 1);
    assert(inner =~= name);
    lemma_trim_id(name);
    assert(trim(inner) == name);
    assert(ok_name_chars(name));
}

/// Entry lines ahead of further input extend the current (last) section,
/// entry by entry.
proof fn lemma_rt_entries(
    es_done: Seq<EntryV>,
    es_todo: Seq<EntryV>,
    tail: Seq<u8>,
    acc: Seq<SectionV>,
    m: Seq<u8>,
)
    requires
        acc.len() > 0,
        acc.last().entries == es_done,
        wf_entries(es_done + es_todo),
    ensures
        parse_lines(split_lines(serialize_entries(es_todo) + tail), m, acc) == parse_lines(
            split_lines(tail),
            m,
            acc.update(
                acc.len() - 1,
                SectionV { name: acc.last().name, entries: es_done + es_todo },
            ),
        ),
    decreases es_todo.len(),
{
    if es_todo.len() == 0 {
        assert(serialize_entries(es_todo) + tail =~= tail);
        assert(es_done + es_todo =~= es_done);
        assert(SectionV { name: acc.last().name, entries: es_done + es_todo } == acc.last());
        assert(acc.update(acc.len() - 1, acc.last()) =~= acc);
    } else {
        let e = es_todo[0];
        let whole = es_done + es_todo;
        assert(whole[es_done.len() as int] == e);
        assert(valid_key(e.key) && valid_value(e.value));
        let line = e.key + seq![32u8, 61u8, 32u8] + e.value;
        assert(forall|j: int| 0 <= j < line.len() ==> line[j] != 10);
        let rest = serialize_entries(es_todo.drop_first()) + tail;
        assert(serialize_entries(es_todo) + tail =~= line + seq![10u8] + rest);
        lemma_split_prepend(line, rest);
        assert(forall|t: int|
            0 <= t < es_done.len() ==> es_done[t] == whole[t] && es_done[t].key != e.key);
        lemma_key_index_none(es_done, e.key);
        lemma_parse_entry_line(e, acc, m);
        let acc2 = acc.update(
            acc.len() - 1,
            SectionV { name: acc.last().name, entries: acc.last().entries.push(e) },
        );
        lemma_split_lines_len(rest);
        assert((seq![line] + split_lines(rest))[0] == line);
        assert((seq![line] + split_lines(rest)).drop_first() =~= split_lines(rest));
        assert(parse_lines(split_lines(serialize_entries(es_todo) + tail), m, acc)
            == parse_lines(split_lines(rest), m, acc2));
        assert(acc2.len() == acc.len());
        assert(acc2.last().entries =~= es_done.push(e));
        assert(acc2.last().name == acc.last().name);
        assert(es_done.push(e) + es_todo.drop_first() =~= es_done + es_todo);
        lemma_rt_entries(es_done.push(e), es_todo.drop_first(), tail, acc2, m);
        let fin2 = acc2.update(
            acc2.len() - 1,
            SectionV { name: acc2.last().name, entries: es_done.push(e) + es_todo.drop_first() },
        );
        let fin = acc.update(
            acc.len() - 1,
            SectionV { name: acc.last().name, entries: es_done + es_todo },
        );
        assert(fin2 =~= fin);
    }
}

/// Serialised sections parse back, in order, onto what was already built.
#[verifier::rlimit(100)]
proof fn lemma_rt_sections(acc: Seq<SectionV>, todo: Seq<SectionV>, m: Seq<u8>)
    requires
        wf_file(acc + todo, m),
        acc.len() > 0 ==> forall|i: int| 0 <= i < todo.len() ==> todo[i].name != m,
    ensures
        parse_lines(split_lines(serialize_sections(todo, m)), m, acc) == Some(acc + todo),
    decreases todo.len(),
{
    let whole = acc + todo;
    if todo.len() == 0 {
        assert(serialize_sections(todo, m) =~= Seq::<u8>::empty());
        assert(split_lines(Seq::<u8>::empty()) == seq![Seq::<u8>::empty()]);
        assert(trim(Seq::<u8>::empty()) =~= Seq::<u8>::empty());
        assert(parse_step(acc, Seq::<u8>::empty(), m) == Some(acc));
        assert(seq![Seq::<u8>::empty()].drop_first() =~= Seq::<Seq<u8>>::empty());
        assert(parse_lines(Seq::<Seq<u8>>::empty(), m, acc) == Some(acc));
        assert(parse_lines(split_lines(Seq::<u8>::empty()), m, acc) == Some(acc));
        assert(acc + todo =~= acc);
    } else {
        let s0 = todo[0];
        assert(whole[acc.len() as int] == s0);
        let tail = serialize_sections(todo.drop_first(), m);
        assert(forall|j: int|
            0 <= j < todo.drop_first().len() ==> todo.drop_first()[j] == todo[j + 1]);
        if s0.name == m {
            assert(acc.len() == 0);
            assert(s0.entries.len() > 0);
            assert(wf_entries(s0.entries));
            let e0 = s0.entries[0];
            assert(valid_key(e0.key) && valid_value(e0.value));
            let line = e0.key + seq![32u8, 61u8, 32u8] + e0.value;
            assert(forall|j: int| 0 <= j < line.len() ==> line[j] != 10);
            let rest1 = serialize_entries(s0.entries.drop_first()) + tail;
            assert(serialize_entries(s0.entries) =~= serialize_entry(e0) + serialize_entries(
                s0.entries.drop_first(),
            ));
            assert(serialize_sections(todo, m) =~= line + seq![10u8] + rest1);
            lemma_split_prepend(line, rest1);
            lemma_parse_entry_line(e0, acc, m);
            let acc1 = seq![SectionV { name: m, entries: seq![e0] }];
            lemma_split_lines_len(rest1);
            assert((seq![line] + split_lines(rest1))[0] == line);
            assert((seq![line] + split_lines(rest1)).drop_first() =~= split_lines(rest1));
            assert(parse_lines(split_lines(serialize_sections(todo, m)), m, acc)
                == parse_lines(split_lines(rest1), m, acc1));
            assert(seq![e0] + s0.entries.drop_first() =~= s0.entries);
            lemma_rt_entries(seq![e0], s0.entries.drop_first(), tail, acc1, m);
            let acc2 = acc1.update(0, SectionV { name: m, entries: seq![e0] + s0.entries.drop_first() });
            assert(acc2 =~= seq![s0]);
            assert(parse_lines(split_lines(rest1), m, acc1) == parse_lines(
                split_lines(tail),
                m,
                seq![s0],
            ));
            assert(seq![s0] + todo.drop_first() =~= whole);
            assert(forall|i: int, j: int|
                0 <= i < j < whole.len() ==> whole[i].name != whole[j].name);
            assert(forall|i: int| 0 <= i < todo.drop_first().len()
                ==> todo.drop_first()[i] == whole[i + 1] && todo.drop_first()[i].name != m);
            lemma_rt_sections(seq![s0], todo.drop_first(), m);
        } else {
            assert(valid_name(s0.name));
            let hline = seq![91u8] + s0.name + seq![93u8];
            assert(forall|j: int| 0 <= j < hline.len() ==> hline[j] != 10);
            let rest1 = serialize_entries(s0.entries) + tail;
            assert(serialize_sections(todo, m) =~= hline + seq![10u8] + rest1);
            lemma_split_prepend(hline, rest1);
            assert(forall|t: int|
                0 <= t < acc.len() ==> acc[t] == whole[t] && acc[t].name != s0.name);
            lemma_sec_index_none(acc, s0.name);
            lemma_parse_header_line(s0.name, acc, m);
            let acc1 = acc.push(SectionV { name: s0.name, entries: Seq::<EntryV>::empty() });
            lemma_split_lines_len(rest1);
            assert((seq![hline] + split_lines(rest1))[0] == hline);
            assert((seq![hline] + split_lines(rest1)).drop_first() =~= split_lines(rest1));
            assert(parse_lines(split_lines(serialize_sections(todo, m)), m, acc)
                == parse_lines(split_lines(rest1), m, acc1));
            assert(Seq::<EntryV>::empty() + s0.entries =~= s0.entries);
            assert(wf_entries(s0.entries));
            lemma_rt_entries(Seq::<EntryV>::empty(), s0.entries, tail, acc1, m);
            let acc2 = acc1.update(
                acc1.len() - 1,
                SectionV { name: s0.name, entries: Seq::<EntryV>::empty() + s0.entries },
            );
            assert(acc2 =~= acc.push(s0));
            assert(parse_lines(split_lines(rest1), m, acc1) == parse_lines(
                split_lines(tail),
                m,
                acc.push(s0),
            ));
            assert(acc.push(s0) + todo.drop_first() =~= whole);
            assert(forall|i: int| 0 <= i < todo.drop_first().len()
                ==> todo.drop_first()[i] == whole[acc.len() + 1 + i]);
            if acc.push(s0).len() > 0 {
                assert(forall|i: int| 0 <= i < todo.drop_first().len()
                    ==> todo.drop_first()[i].name != m) by {
                    assert(forall|i: int|
                        0 <= i < todo.drop_first().len() ==> todo.drop_first()[i]
                            == whole[acc.len() + 1 + i] && acc.len() + 1 + i > 0);
                }
            }
            lemma_rt_sections(acc.push(s0), todo.drop_first(), m);
        }
    }
}

/// Round trip: a well-formed credential file, serialised and parsed again
/// under the same marker, comes back unchanged.
pub proof fn lemma_write_then_load(f: Seq<SectionV>, m: Seq<u8>)
    requires
        wf_file(f, m),
    ensures
        parse_spec(serialize_sections(f, m), m) == Some(f),
{
    assert(Seq::<SectionV>::empty() + f =~= f);
    lemma_rt_sections(Seq::<SectionV>::empty(), f, m);
}

} // verus!
