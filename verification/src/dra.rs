//! Compilation of accelerator requests into a Kubernetes Dynamic Resource
//! Allocation `ResourceClaimTemplate`.
use vstd::prelude::*;
use vstd::string::*;
use crate::text::{is_ascii_alnum, ascii_lower, char_is_ascii_alnum, char_ascii_lower, push_char, string_of};
use crate::sorted_map::{SortedMap, lookup, sorted_keys};
use crate::error::TeeLensError;
use crate::model::{Pod, pod_name};
use crate::accel::{requested_accelerators, requested_seq, accelerators_fit};

verus! {

/// The character a DNS label keeps for `c`: ASCII letters and digits in
/// lower case, anything else as `-`.
pub open spec fn label_char(c: char) -> char {
    if is_ascii_alnum(c) {
        ascii_lower(c)
    } else {
        '-'
    }
}

/// The text without its leading hyphens.
pub open spec fn trim_start_hyphens(s: Seq<char>) -> Seq<char>
    decreases s.len(),
{
    if s.len() > 0 && s[0] == '-' {
        trim_start_hyphens(s.drop_first())
    } else {
        s
    }
}

/// The text without its trailing hyphens.
pub open spec fn trim_end_hyphens(s: Seq<char>) -> Seq<char>
    decreases s.len(),
{
    if s.len() > 0 && s.last() == '-' {
        trim_end_hyphens(s.drop_last())
    } else {
        s
    }
}

/// The label for a text: characters mapped by `label_char`, hyphens trimmed
/// from both ends, `device` if nothing is left, else at most 63 characters.
pub open spec fn dns_label_text(input: Seq<char>) -> Seq<char> {
    let t = trim_end_hyphens(trim_start_hyphens(input.map_values(|c: char| label_char(c))));
    if t.len() == 0 {
        "device"@
    } else if t.len() <= 63 {
        t
    } else {
        t.take(63)
    }
}

/// A character allowed in a DNS label: lower-case ASCII letter, digit or hyphen.
pub open spec fn is_label_char(c: char) -> bool {
    ||| (97 <= c as int && c as int <= 122)
    ||| (48 <= c as int && c as int <= 57)
    ||| c == '-'
}

/// Trimming leading hyphens drops a prefix and leaves no leading hyphen.
pub proof fn lemma_trim_start_hyphens(s: Seq<char>) -> (k: int)
    ensures
        0 <= k <= s.len(),
        trim_start_hyphens(s) == s.skip(k),
        k < s.len() ==> s[k] != '-',
    decreases s.len(),
{
    if s.len() > 0 && s[0] == '-' {
        let k0 = lemma_trim_start_hyphens(s.drop_first());
        assert(s.drop_first().skip(k0) =~= s.skip(k0 + 1));
        k0 + 1
    } else {
        assert(s.skip(0) =~= s);
        0
    }
}

/// Trimming trailing hyphens keeps a prefix and leaves no trailing hyphen.
pub proof fn lemma_trim_end_hyphens(s: Seq<char>) -> (k: int)
    ensures
        0 <= k <= s.len(),
        trim_end_hyphens(s) == s.take(k),
        k > 0 ==> s[k - 1] != '-',
    decreases s.len(),
{
    if s.len() > 0 && s.last() == '-' {
        let k0 = lemma_trim_end_hyphens(s.drop_last());
        assert(s.drop_last().take(k0) =~= s.take(k0));
        k0
    } else {
        assert(s.take(s.len() as int) =~= s);
        s.len() as int
    }
}

/// What every label is made of: one to 63 label characters, the first of
/// them no hyphen.
pub proof fn lemma_dns_label_shape(input: Seq<char>)
    ensures
        1 <= dns_label_text(input).len() <= 63,
        dns_label_text(input)[0] != '-',
        forall|i: int| 0 <= i < dns_label_text(input).len()
            ==> is_label_char(#[trigger] dns_label_text(input)[i]),
{
    let m = input.map_values(|c: char| label_char(c));
    let ks = lemma_trim_start_hyphens(m);
    let u = m.skip(ks);
    let ke = lemma_trim_end_hyphens(u);
    let t = u.take(ke);
    assert(trim_end_hyphens(trim_start_hyphens(m)) == t);
    assert forall|i: int| 0 <= i < t.len() implies is_label_char(#[trigger] t[i]) by {
        assert(t[i] == m[ks + i]);
        let c = input[ks + i];
        if 65 <= c as int && c as int <= 90 {
            assert((c as int + 32) as char as int == c as int + 32);
        }
    }
    if t.len() == 0 {
        reveal_strlit("device");
    } else {
        assert(t[0] == m[ks]);
    }
}

/// Mapping a text made of label characters changes nothing.
proof fn lemma_label_chars_fixed(s: Seq<char>)
    requires
        forall|i: int| 0 <= i < s.len() ==> is_label_char(#[trigger] s[i]),
    ensures
        s.map_values(|c: char| label_char(c)) == s,
{
    assert(s.map_values(|c: char| label_char(c)) =~= s);
}

/// A label that does not end in a hyphen is its own label.
pub proof fn lemma_dns_label_of_label(label: Seq<char>)
    requires
        1 <= label.len() <= 63,
        label[0] != '-',
        label.last() != '-',
        forall|i: int| 0 <= i < label.len() ==> is_label_char(#[trigger] label[i]),
    ensures
        dns_label_text(label) == label,
{
    lemma_label_chars_fixed(label);
    assert(trim_start_hyphens(label) == label);
    assert(trim_end_hyphens(label) == label);
}

fn label_char_of(c: char) -> (r: char)
    ensures
        r == label_char(c),
        is_label_char(r),
{
    if char_is_ascii_alnum(c) {
        let r = char_ascii_lower(c);
        assert(is_label_char(r)) by {
            if 65 <= c as int && c as int <= 90 {
                assert((c as int + 32) as char as int == c as int + 32);
            }
        }
        r
    } else {
        '-'
    }
}

/// A name usable as a DNS label: the text mapped to lower-case ASCII letters,
/// digits and hyphens, hyphens trimmed from both ends, `device` if nothing is
/// left, and cut to 63 characters.
pub fn dns_label(input: &str) -> (label: String)
    ensures
        label@ == dns_label_text(input@),
        1 <= label@.len() <= 63,
        label@[0] != '-',
        forall|i: int| 0 <= i < label@.len() ==> is_label_char(#[trigger] label@[i]),
{
    let n = input.unicode_len();
    let ghost m_all = input@.map_values(|c: char| label_char(c));
    let mut mapped: Vec<char> = Vec::new();
    let mut i: usize = 0;
    while i < n
        invariant
            n == input@.len(),
            i <= n,
            m_all == input@.map_values(|c: char| label_char(c)),
            mapped@ == m_all.take(i as int),
            forall|j: int| 0 <= j < i ==> is_label_char(#[trigger] mapped@[j]),
        decreases n - i,
    {
        let c = label_char_of(input.get_char(i));
        mapped.push(c);
        assert(mapped@ =~= m_all.take(i + 1));
        i = i + 1;
    }
    assert(mapped@ =~= m_all);
    let ghost m = mapped@;
    assert(forall|j: int| 0 <= j < n ==> is_label_char(#[trigger] m[j]));
    // drop leading hyphens
    let mut start: usize = 0;
    assert(m.skip(0) =~= m);
    while start < n && mapped[start] == '-'
        invariant
            mapped@ == m,
            n == m.len(),
            start <= n,
            trim_start_hyphens(m) == trim_start_hyphens(m.skip(start as int)),
            forall|j: int| 0 <= j < n ==> is_label_char(#[trigger] m[j]),
        decreases n - start,
    {
        assert(m.skip(start as int).drop_first() =~= m.skip(start + 1));
        start = start + 1;
    }
    let ghost u = m.skip(start as int);
    assert(trim_start_hyphens(m) == u);
    assert(start < n ==> m[start as int] != '-');
    // drop trailing hyphens
    let mut end: usize = n;
    assert(u.take(u.len() as int) =~= u);
    while end > start && mapped[end - 1] == '-'
        invariant
            mapped@ == m,
            n == m.len(),
            start <= end <= n,
            u == m.skip(start as int),
            start < n ==> m[start as int] != '-',
            trim_end_hyphens(u) == trim_end_hyphens(u.take(end - start)),
            forall|j: int| 0 <= j < n ==> is_label_char(#[trigger] m[j]),
        decreases end - start,
    {
        assert(u.take(end - start).drop_last() =~= u.take(end - start - 1));
        end = end - 1;
    }
    let ghost t = u.take(end - start);
    assert(trim_end_hyphens(u) == t);
    if start == end {
        let r = string_of("device");
        proof {
            reveal_strlit("device");
        }
        return r;
    }
    assert(t =~= m.subrange(start as int, end as int));
    let take: usize = if end - start <= 63 { end - start } else { 63 };
    let mut r = String::new();
    let mut k: usize = 0;
    while k < take
        invariant
            mapped@ == m,
            n == m.len(),
            start < end <= n,
            t == m.subrange(start as int, end as int),
            take <= end - start,
            k <= take,
            r@ == t.take(k as int),
            m[start as int] != '-',
            forall|j: int| 0 <= j < n ==> is_label_char(#[trigger] m[j]),
        decreases take - k,
    {
        push_char(&mut r, mapped[start + k]);
        assert(r@ =~= t.take(k + 1));
        k = k + 1;
    }
    assert(t =~= m.subrange(start as int, end as int));
    assert(t.len() <= 63 ==> t.take(take as int) =~= t);
    assert(r@[0] == m[start as int]);
    r
}


/// The position of the first `=` in a text.
pub open spec fn first_eq_index(s: Seq<char>) -> Option<int>
    decreases s.len(),
{
    if s.len() == 0 {
        None
    } else if s[0] == '=' {
        Some(0)
    } else {
        match first_eq_index(s.drop_first()) {
            Some(i) => Some(i + 1),
            None => None,
        }
    }
}

proof fn lemma_first_eq_index(s: Seq<char>)
    ensures
        match first_eq_index(s) {
            Some(p) => 0 <= p < s.len() && s[p] == '=' && forall|j: int| 0 <= j < p ==> s[j] != '=',
            None => forall|j: int| 0 <= j < s.len() ==> s[j] != '=',
        },
    decreases s.len(),
{
    if s.len() > 0 {
        lemma_first_eq_index(s.drop_first());
        if s[0] != '=' {
            assert forall|j: int| 0 < j < s.len() implies s[j] == s.drop_first()[j - 1] by {}
        }
    }
}

/// The resource of a `RESOURCE=DEVICE_CLASS` entry: the text before its first `=`.
pub open spec fn entry_resource(e: Seq<char>) -> Seq<char> {
    e.take(first_eq_index(e).unwrap())
}

/// The class of a `RESOURCE=DEVICE_CLASS` entry: the text after its first `=`.
pub open spec fn entry_class(e: Seq<char>) -> Seq<char> {
    e.skip(first_eq_index(e).unwrap() + 1)
}

/// What is wrong with a `--device-class` entry.
#[derive(PartialEq, Eq, Structural, Clone, Copy, Debug)]
pub enum DeviceClassFault {
    /// No `=` in the entry.
    Malformed,
    /// Nothing before or nothing after the first `=`.
    EmptyPart,
    /// An earlier entry maps the same resource.
    Duplicate,
}

/// The fault of entry `i`, given the entries before it.
pub open spec fn entry_fault(es: Seq<Seq<char>>, i: int) -> Option<DeviceClassFault> {
    let e = es[i];
    match first_eq_index(e) {
        None => Some(DeviceClassFault::Malformed),
        Some(p) => if p == 0 || p + 1 == e.len() {
            Some(DeviceClassFault::EmptyPart)
        } else if exists|j: int| 0 <= j < i && first_eq_index(#[trigger] es[j]) is Some
            && entry_resource(es[j]) == entry_resource(e) {
            Some(DeviceClassFault::Duplicate)
        } else {
            None
        },
    }
}

/// The first faulty entry among the first `n`.
pub open spec fn first_fault(es: Seq<Seq<char>>, n: int) -> Option<int>
    decreases n,
{
    if n <= 0 {
        None
    } else {
        match first_fault(es, n - 1) {
            Some(i) => Some(i),
            None => if entry_fault(es, n - 1) is Some {
                Some(n - 1)
            } else {
                None
            },
        }
    }
}

proof fn lemma_first_fault_stable(es: Seq<Seq<char>>, a: int, b: int)
    requires
        a <= b,
        first_fault(es, a) is Some,
    ensures
        first_fault(es, b) == first_fault(es, a),
    decreases b - a,
{
    if a < b {
        lemma_first_fault_stable(es, a, b - 1);
    }
}

/// The class that the first entry for resource `k` names.
pub open spec fn class_lookup(es: Seq<Seq<char>>, k: Seq<char>) -> Option<Seq<char>>
    decreases es.len(),
{
    if es.len() == 0 {
        None
    } else if first_eq_index(es[0]) is Some && entry_resource(es[0]) == k {
        Some(entry_class(es[0]))
    } else {
        class_lookup(es.drop_first(), k)
    }
}

proof fn lemma_class_lookup_push(es: Seq<Seq<char>>, e: Seq<char>, k: Seq<char>)
    ensures
        class_lookup(es.push(e), k) == (match class_lookup(es, k) {
            Some(c) => Some(c),
            None => if first_eq_index(e) is Some && entry_resource(e) == k {
                Some(entry_class(e))
            } else {
                None
            },
        }),
    decreases es.len(),
{
    let s = es.push(e);
    if es.len() > 0 {
        assert(s[0] == es[0]);
        assert(s.drop_first() =~= es.drop_first().push(e));
        lemma_class_lookup_push(es.drop_first(), e, k);
        if !(first_eq_index(es[0]) is Some && entry_resource(es[0]) == k) {
            assert(class_lookup(s, k) == class_lookup(s.drop_first(), k));
            assert(class_lookup(es, k) == class_lookup(es.drop_first(), k));
        }
    } else {
        assert(s[0] == e);
        assert(s.drop_first() =~= Seq::<Seq<char>>::empty());
        assert(class_lookup(s.drop_first(), k) is None);
    }
}

proof fn lemma_class_lookup_some(es: Seq<Seq<char>>, k: Seq<char>)
    ensures
        class_lookup(es, k) is Some <==> exists|j: int| 0 <= j < es.len()
            && first_eq_index(#[trigger] es[j]) is Some && entry_resource(es[j]) == k,
    decreases es.len(),
{
    if es.len() > 0 {
        lemma_class_lookup_some(es.drop_first(), k);
        if exists|j: int| 0 <= j < es.len() && first_eq_index(#[trigger] es[j]) is Some
            && entry_resource(es[j]) == k {
            let j = choose|j: int| 0 <= j < es.len() && first_eq_index(#[trigger] es[j]) is Some
                && entry_resource(es[j]) == k;
            if j > 0 {
                assert(es.drop_first()[j - 1] == es[j]);
            }
        }
        if exists|j: int| 0 <= j < es.drop_first().len()
            && first_eq_index(#[trigger] es.drop_first()[j]) is Some
            && entry_resource(es.drop_first()[j]) == k {
            let j = choose|j: int| 0 <= j < es.drop_first().len()
                && first_eq_index(#[trigger] es.drop_first()[j]) is Some
                && entry_resource(es.drop_first()[j]) == k;
            assert(es[j + 1] == es.drop_first()[j]);
        }
    }
}

/// Every entry names a resource and a class, and no two entries name the
/// same resource.
pub open spec fn valid_entries(es: Seq<Seq<char>>) -> bool {
    &&& forall|i: int| 0 <= i < es.len() ==> (#[trigger] first_eq_index(es[i]) matches Some(p)
        && p != 0 && p + 1 != es[i].len())
    &&& forall|i: int, j: int| 0 <= i < es.len() && 0 <= j < es.len() && i != j
        ==> entry_resource(#[trigger] es[i]) != entry_resource(#[trigger] es[j])
}

/// An entry list has no fault exactly when it is valid.
pub proof fn lemma_no_fault_valid(es: Seq<Seq<char>>)
    ensures
        first_fault(es, es.len() as int) is None <==> valid_entries(es),
{
    lemma_no_fault_prefix(es, es.len() as int);
    if valid_entries(es) {
        assert forall|i: int| 0 <= i < es.len() implies #[trigger] entry_fault(es, i) is None by {
            assert(first_eq_index(es[i]) is Some);
            if exists|j: int| 0 <= j < i && first_eq_index(#[trigger] es[j]) is Some
                && entry_resource(es[j]) == entry_resource(es[i]) {
                let j = choose|j: int| 0 <= j < i && first_eq_index(#[trigger] es[j]) is Some
                    && entry_resource(es[j]) == entry_resource(es[i]);
                assert(entry_resource(es[j]) != entry_resource(es[i]));
            }
        }
    }
    if forall|i: int| 0 <= i < es.len() ==> #[trigger] entry_fault(es, i) is None {
        assert forall|i: int| 0 <= i < es.len() implies (#[trigger] first_eq_index(es[i]) matches Some(p)
            && p != 0 && p + 1 != es[i].len()) by {
            assert(entry_fault(es, i) is None);
        }
        assert forall|i: int, j: int| 0 <= i < es.len() && 0 <= j < es.len() && i != j
            implies entry_resource(#[trigger] es[i]) != entry_resource(#[trigger] es[j]) by {
            assert(entry_fault(es, i) is None);
            assert(entry_fault(es, j) is None);
            assert(first_eq_index(es[i]) is Some);
            assert(first_eq_index(es[j]) is Some);
        }
    }
}

proof fn lemma_no_fault_prefix(es: Seq<Seq<char>>, n: int)
    requires
        0 <= n <= es.len(),
    ensures
        first_fault(es, n) is None <==> forall|i: int| 0 <= i < n ==> #[trigger] entry_fault(es, i) is None,
    decreases n,
{
    if n > 0 {
        lemma_no_fault_prefix(es, n - 1);
        if first_fault(es, n - 1) is Some {
            let i = choose|i: int| 0 <= i < n - 1 && #[trigger] entry_fault(es, i) is Some;
        }
    }
}

/// In a valid entry list, the class of resource `k` is that of its one entry.
pub proof fn lemma_class_lookup_valid(es: Seq<Seq<char>>, i: int)
    requires
        valid_entries(es),
        0 <= i < es.len(),
    ensures
        class_lookup(es, entry_resource(es[i])) == Some(entry_class(es[i])),
    decreases es.len(),
{
    assert(first_eq_index(es[i]) is Some);
    if i == 0 {
    } else {
        let t = es.drop_first();
        assert(t[i - 1] == es[i]);
        assert(entry_resource(es[0]) != entry_resource(es[i])) by {
            assert(first_eq_index(es[0]) is Some);
        }
        assert(valid_entries(t)) by {
            assert forall|a: int| 0 <= a < t.len() implies (#[trigger] first_eq_index(t[a]) matches Some(p)
                && p != 0 && p + 1 != t[a].len()) by {
                assert(t[a] == es[a + 1]);
                assert(first_eq_index(es[a + 1]) is Some);
            }
            assert forall|a: int, b: int| 0 <= a < t.len() && 0 <= b < t.len() && a != b
                implies entry_resource(#[trigger] t[a]) != entry_resource(#[trigger] t[b]) by {
                assert(t[a] == es[a + 1]);
                assert(t[b] == es[b + 1]);
            }
        }
        lemma_class_lookup_valid(t, i - 1);
    }
}

/// In any entry list, a resource that no entry names has no class.
pub proof fn lemma_class_lookup_absent(es: Seq<Seq<char>>, k: Seq<char>)
    requires
        forall|j: int| 0 <= j < es.len() && first_eq_index(#[trigger] es[j]) is Some ==> entry_resource(es[j]) != k,
    ensures
        class_lookup(es, k) is None,
{
    lemma_class_lookup_some(es, k);
}

/// The position of the first `=` in `s`, if any.
fn find_eq(s: &str) -> (r: Option<usize>)
    ensures
        match r {
            Some(p) => first_eq_index(s@) == Some(p as int),
            None => first_eq_index(s@) is None,
        },
{
    let n = s.unicode_len();
    let mut i: usize = 0;
    assert(s@.skip(0) =~= s@);
    while i < n
        invariant
            n == s@.len(),
            i <= n,
            forall|j: int| 0 <= j < i ==> s@[j] != '=',
            first_eq_index(s@) == (match first_eq_index(s@.skip(i as int)) {
                Some(p) => Some(p + i),
                None => None,
            }),
        decreases n - i,
    {
        if s.get_char(i) == '=' {
            return Some(i);
        }
        assert(s@.skip(i as int).drop_first() =~= s@.skip(i + 1));
        i = i + 1;
    }
    None
}

/// The characters `from..to` of `s` as a new string.
fn substring(s: &str, from: usize, to: usize) -> (r: String)
    requires
        from <= to <= s@.len(),
    ensures
        r@ == s@.subrange(from as int, to as int),
{
    let mut r = String::new();
    r.append(s.substring_char(from, to));
    r
}

/// Reads `RESOURCE=DEVICE_CLASS` entries into a map from resource to
/// DeviceClass. The first faulty entry is reported: one without `=`, one
/// with nothing before or after its first `=`, or a second entry for a resource.
pub fn parse_device_classes(entries: &Vec<String>) -> (r: Result<SortedMap<String>, TeeLensError>)
    ensures
        r is Ok <==> first_fault(crate::text::views(entries@), entries@.len() as int) is None,
        r matches Ok(m) ==> sorted_keys(m@) && forall|k: Seq<char>|
            #[trigger] lookup(m@, k) == class_lookup(crate::text::views(entries@), k),
        r matches Err(e) ==> {
            let es = crate::text::views(entries@);
            let i = first_fault(es, entries@.len() as int).unwrap();
            match entry_fault(es, i).unwrap() {
                DeviceClassFault::Malformed => e matches TeeLensError::MalformedDeviceClass { entry }
                    && entry@ == es[i],
                DeviceClassFault::EmptyPart => e matches TeeLensError::EmptyDeviceClassPart { entry }
                    && entry@ == es[i],
                DeviceClassFault::Duplicate => e matches TeeLensError::DuplicateDeviceClass { resource }
                    && resource@ == entry_resource(es[i]),
            }
        },
{
    let ghost es = crate::text::views(entries@);
    let mut classes: SortedMap<String> = SortedMap::new();
    let mut i: usize = 0;
    while i < entries.len()
        invariant
            es == crate::text::views(entries@),
            i <= es.len(),
            first_fault(es, i as int) is None,
            sorted_keys(classes@),
            forall|k: Seq<char>| #[trigger] lookup(classes@, k) == class_lookup(es.take(i as int), k),
        decreases es.len() - i,
    {
        let entry = &entries[i];
        let ghost e = es[i as int];
        assert(e == entry@);
        proof {
            assert(es.take(i + 1) =~= es.take(i as int).push(e));
        }
        let n = entry.unicode_len();
        proof { lemma_first_eq_index(e); }
        match find_eq(entry.as_str()) {
            None => {
                assert(first_fault(es, i + 1) == Some(i as int));
                proof { lemma_first_fault_stable(es, i + 1, es.len() as int); }
                return Err(TeeLensError::MalformedDeviceClass { entry: entry.clone() });
            },
            Some(p) => {
                if p == 0 || p + 1 == n {
                    assert(first_fault(es, i + 1) == Some(i as int));
                    proof { lemma_first_fault_stable(es, i + 1, es.len() as int); }
                    return Err(TeeLensError::EmptyDeviceClassPart { entry: entry.clone() });
                }
                let resource = substring(entry.as_str(), 0, p);
                let class = substring(entry.as_str(), p + 1, n);
                assert(resource@ == entry_resource(e));
                assert(class@ =~= entry_class(e));
                let previous = classes.insert(resource.clone(), class);
                match previous {
                    Some(_) => {
                        proof {
                            lemma_class_lookup_some(es.take(i as int), resource@);
                            let j = choose|j: int| 0 <= j < es.take(i as int).len()
                                && first_eq_index(#[trigger] es.take(i as int)[j]) is Some
                                && entry_resource(es.take(i as int)[j]) == resource@;
                            assert(es[j] == es.take(i as int)[j]);
                            assert(entry_fault(es, i as int) == Some(DeviceClassFault::Duplicate));
                            assert(first_fault(es, i + 1) == Some(i as int));
                            lemma_first_fault_stable(es, i + 1, es.len() as int);
                        }
                        return Err(TeeLensError::DuplicateDeviceClass { resource });
                    },
                    None => {
                        proof {
                            lemma_class_lookup_some(es.take(i as int), resource@);
                            if exists|j: int| 0 <= j < i && first_eq_index(#[trigger] es[j]) is Some
                                && entry_resource(es[j]) == entry_resource(e) {
                                let j = choose|j: int| 0 <= j < i && first_eq_index(#[trigger] es[j]) is Some
                                    && entry_resource(es[j]) == entry_resource(e);
                                assert(es.take(i as int)[j] == es[j]);
                            }
                            assert(entry_fault(es, i as int) is None);
                            assert forall|k: Seq<char>| #[trigger] lookup(classes@, k)
                                == class_lookup(es.take(i + 1), k) by {
                                lemma_class_lookup_push(es.take(i as int), e, k);
                            }
                        }
                    },
                }
            },
        }
        i = i + 1;
    }
    assert(es.take(es.len() as int) =~= es);
    Ok(classes)
}


/// Exactly `count` devices of a DeviceClass.
pub struct ExactDeviceRequest {
    pub device_class_name: String,
    pub allocation_mode: String,
    pub count: u32,
}

/// One named device request of a claim.
pub struct DeviceRequest {
    pub name: String,
    pub exactly: ExactDeviceRequest,
}

/// The device requests of a claim.
pub struct DeviceClaimDevices {
    pub requests: Vec<DeviceRequest>,
}

/// A device claim.
pub struct DeviceClaim {
    pub devices: DeviceClaimDevices,
}

/// The spec of a `ResourceClaimTemplate`: the claim it stamps out.
pub struct ResourceClaimTemplateSpec {
    pub spec: DeviceClaim,
}

/// Name and annotations of the generated template.
pub struct DraMetadata {
    pub name: String,
    pub annotations: SortedMap<String>,
}

/// A Kubernetes `resource.k8s.io/v1` `ResourceClaimTemplate`. DeviceClasses
/// are supplied by the caller because they are cluster and driver specific.
pub struct ResourceClaimTemplate {
    pub api_version: String,
    pub kind: String,
    pub metadata: DraMetadata,
    pub spec: ResourceClaimTemplateSpec,
}

/// The notice annotation of every generated template.
pub open spec fn dra_notice() -> Seq<char> {
    "DeviceClasses are cluster-managed; verify driver selectors before applying."@
}

/// The default template name for a Pod: its DNS label (of `workload` for an
/// unnamed Pod) followed by `-devices`.
pub open spec fn default_template_name(pod: &Pod) -> Seq<char> {
    let base = match pod_name(pod) {
        Some(n) => n,
        None => "workload"@,
    };
    dns_label_text(base) + "-devices"@
}

/// The request for accelerator `resource`, `count` devices of `class`.
pub open spec fn is_request_for(req: DeviceRequest, resource: Seq<char>, count: u32, class: Seq<char>) -> bool {
    &&& req.name@ == dns_label_text(resource)
    &&& req.exactly.device_class_name@ == class
    &&& req.exactly.allocation_mode@ == "ExactCount"@
    &&& req.exactly.count == count
}

/// The first requested accelerator (in ascending order) without a DeviceClass.
pub open spec fn first_unmapped(req: Seq<(Seq<char>, u32)>, classes: Seq<(Seq<char>, Seq<char>)>) -> Option<int> {
    if exists|i: int| 0 <= i < req.len() && #[trigger] lookup(classes, req[i].0) is None {
        Some(choose|i: int| 0 <= i < req.len() && #[trigger] lookup(classes, req[i].0) is None
            && forall|j: int| 0 <= j < i ==> #[trigger] lookup(classes, req[j].0) is Some)
    } else {
        None
    }
}

/// Whether `t` is the template for the Pod's accelerator requests `req`
/// with DeviceClasses `classes` and template name `name`.
pub open spec fn is_claim_template(
    t: &ResourceClaimTemplate,
    req: Seq<(Seq<char>, u32)>,
    classes: Seq<(Seq<char>, Seq<char>)>,
    name: Seq<char>,
) -> bool {
    &&& t.api_version@ == "resource.k8s.io/v1"@
    &&& t.kind@ == "ResourceClaimTemplate"@
    &&& t.metadata.name@ == name
    &&& sorted_keys(t.metadata.annotations@)
    &&& t.metadata.annotations@.len() == 2
    &&& lookup(t.metadata.annotations@, "teelens.io/compiler"@) == Some("dra/v1"@)
    &&& lookup(t.metadata.annotations@, "teelens.io/notice"@) == Some(dra_notice())
    &&& t.spec.spec.devices.requests@.len() == req.len()
    &&& forall|i: int| 0 <= i < req.len() ==> is_request_for(
        #[trigger] t.spec.spec.devices.requests@[i],
        req[i].0,
        req[i].1,
        lookup(classes, req[i].0).unwrap(),
    )
}

/// Compiles the accelerator requests of a Pod into a `ResourceClaimTemplate`
/// that asks, for each requested accelerator resource in ascending order, for
/// exactly the requested count of devices of the mapped DeviceClass.
pub fn resource_claim_template(pod: &Pod, device_classes: SortedMap<String>, name: Option<String>)
    -> (r: Result<ResourceClaimTemplate, TeeLensError>)
    requires
        accelerators_fit(pod),
    ensures
        ({
            let req = requested_seq(pod);
            &&& (r matches Err(TeeLensError::NoAcceleratorRequests)) <==> req.len() == 0
            &&& req.len() > 0 && first_unmapped(req, device_classes@) is Some ==> (r matches Err(
                TeeLensError::MissingDeviceClass { resource },
            ) && resource@ == req[first_unmapped(req, device_classes@).unwrap()].0)
            &&& req.len() > 0 && first_unmapped(req, device_classes@) is None ==> (r matches Ok(t)
                && is_claim_template(&t, req, device_classes@, match name {
                    Some(n) => n@,
                    None => default_template_name(pod),
                }))
        }),
{
    let requested = requested_accelerators(pod);
    let ghost req = requested_seq(pod);
    if requested.is_empty() {
        return Err(TeeLensError::NoAcceleratorRequests);
    }
    let mut requests: Vec<DeviceRequest> = Vec::new();
    let mut i: usize = 0;
    while i < requested.len()
        invariant
            requested@ == req,
            req == requested_seq(pod),
            req.len() > 0,
            i <= req.len(),
            requests@.len() == i,
            forall|j: int| 0 <= j < i ==> #[trigger] lookup(device_classes@, req[j].0) is Some,
            forall|j: int| 0 <= j < i ==> is_request_for(
                #[trigger] requests@[j],
                req[j].0,
                req[j].1,
                lookup(device_classes@, req[j].0).unwrap(),
            ),
        decreases req.len() - i,
    {
        let resource = requested.key_at(i);
        let count = *requested.value_at(i);
        match device_classes.get(resource.as_str()) {
            None => {
                proof {
                    let ii = i as int;
                    assert(lookup(device_classes@, req[ii].0) is None);
                    assert(0 <= ii < req.len() && #[trigger] lookup(device_classes@, req[ii].0) is None
                        && forall|j: int| 0 <= j < ii ==> #[trigger] lookup(device_classes@, req[j].0) is Some);
                    let w = first_unmapped(req, device_classes@).unwrap();
                    assert(first_unmapped(req, device_classes@) is Some);
                    if w < i {
                        assert(lookup(device_classes@, req[w].0) is Some);
                    } else if w > i {
                        assert(lookup(device_classes@, req[i as int].0) is Some);
                    }
                }
                return Err(TeeLensError::MissingDeviceClass { resource: resource.clone() });
            },
            Some(class) => {
                let req_i = DeviceRequest {
                    name: dns_label(resource.as_str()),
                    exactly: ExactDeviceRequest {
                        device_class_name: class.clone(),
                        allocation_mode: string_of("ExactCount"),
                        count,
                    },
                };
                requests.push(req_i);
            },
        }
        i = i + 1;
    }
    proof {
        if first_unmapped(req, device_classes@) is Some {
            let w = choose|w: int| 0 <= w < req.len() && #[trigger] lookup(device_classes@, req[w].0) is None;
            assert(lookup(device_classes@, req[w].0) is Some);
        }
    }
    let template_name = match name {
        Some(n) => n,
        None => {
            let base: String = match &pod.metadata {
                Some(m) => match &m.name {
                    Some(n) => n.clone(),
                    None => string_of("workload"),
                },
                None => string_of("workload"),
            };
            let mut n = dns_label(base.as_str());
            n.append("-devices");
            n
        },
    };
    let mut annotations: SortedMap<String> = SortedMap::new();
    annotations.insert(string_of("teelens.io/compiler"), string_of("dra/v1"));
    annotations.insert(
        string_of("teelens.io/notice"),
        string_of("DeviceClasses are cluster-managed; verify driver selectors before applying."),
    );
    proof {
        reveal_strlit("teelens.io/compiler");
        reveal_strlit("teelens.io/notice");
        assert("teelens.io/compiler"@ != "teelens.io/notice"@) by {
            assert("teelens.io/compiler"@.len() != "teelens.io/notice"@.len());
        }
    }
    Ok(ResourceClaimTemplate {
        api_version: string_of("resource.k8s.io/v1"),
        kind: string_of("ResourceClaimTemplate"),
        metadata: DraMetadata { name: template_name, annotations },
        spec: ResourceClaimTemplateSpec {
            spec: DeviceClaim { devices: DeviceClaimDevices { requests } },
        },
    })
}

} // verus!
