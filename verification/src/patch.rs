//! Patching a Pod manifest to consume a generated `ResourceClaimTemplate`:
//! the Pod gets one claim on the template, each named container gets access
//! to it, and the converted accelerator resources leave the containers'
//! requests and limits.
use vstd::prelude::*;
use crate::text::{views, string_of, contains_text, str_eq, strictly_sorted, lemma_push_contains};
use crate::sorted_map::{SortedMap, sorted_keys, lookup, lemma_lookup_has_key, has_key};
use crate::yaml::{
    YamlValue, YamlView, yaml_view, entries_view, list_view, key_index, map_get, map_set,
    map_swap_remove, find_key, map_insert, map_remove, lemma_key_index, untag, retag,
    untag_value, wrap_value, untag_ref, lemma_untag_retag,
};
use crate::error::TeeLensError;
use crate::model::{Pod, pod_containers};
use crate::accel::{accelerators_fit, requested_seq, requested_accelerators, accelerator_requesting_containers, requesting_names};
use crate::dra::{ResourceClaimTemplate, resource_claim_template, first_unmapped, is_claim_template, default_template_name};

verus! {

/// The name of the claim that the patched Pod declares.
pub open spec fn claim_name() -> Seq<char> {
    "teelens-devices"@
}

/// The Pod-level claim on the template.
pub open spec fn pod_claim(template: Seq<char>) -> YamlView {
    YamlView::Mapping(seq![
        (YamlView::Text("name"@), YamlView::Text(claim_name())),
        (YamlView::Text("resourceClaimTemplateName"@), YamlView::Text(template)),
    ])
}

/// A container's access to the Pod-level claim.
pub open spec fn container_claim() -> YamlView {
    YamlView::Mapping(seq![(YamlView::Text("name"@), YamlView::Text(claim_name()))])
}

/// The name of a container mapping: its `name` text (under any tags), or empty.
pub open spec fn container_name(ce: Seq<(YamlView, YamlView)>) -> Seq<char> {
    match map_get(ce, "name"@) {
        Some(v) => match untag(v) {
            YamlView::Text(s) => s,
            _ => Seq::empty(),
        },
        None => Seq::empty(),
    }
}

/// The entries without those under the given keys, removed one after another.
pub open spec fn strip_keys(vals: Seq<(YamlView, YamlView)>, keys: Seq<Seq<char>>) -> Seq<(YamlView, YamlView)>
    decreases keys.len(),
{
    if keys.len() == 0 {
        vals
    } else {
        map_swap_remove(strip_keys(vals, keys.drop_last()), keys.last())
    }
}

/// A resources mapping with the given keys removed from its `field` mapping
/// (under any tags, which stay), if there is one.
pub open spec fn strip_field(res: Seq<(YamlView, YamlView)>, field: Seq<char>, keys: Seq<Seq<char>>) -> Seq<(YamlView, YamlView)> {
    match map_get(res, field) {
        Some(fv) => match untag(fv) {
            YamlView::Mapping(vals) => map_set(res, field, retag(fv, YamlView::Mapping(strip_keys(vals, keys)))),
            _ => res,
        },
        None => res,
    }
}

/// Why a Pod manifest cannot be patched.
pub enum PatchFault {
    RepeatedContainer,
    NotAMapping,
    MissingSpec,
    ExistingResourceClaims,
    MissingContainers,
    ExistingContainerClaims(Seq<char>),
    ContainersNotFound(Set<Seq<char>>),
}

/// A container after patching: unchanged unless selected; a selected one gets
/// access to the claim and loses the `keys` from its requests and limits.
/// Tags are looked through and kept.
pub open spec fn patch_container(c: YamlView, keys: Seq<Seq<char>>, selected: Seq<Seq<char>>) -> Result<YamlView, PatchFault> {
    match untag(c) {
        YamlView::Mapping(ce) => {
            let name = container_name(ce);
            if !selected.contains(name) {
                Ok(c)
            } else {
                let ce1 = match map_get(ce, "resources"@) {
                    Some(_) => ce,
                    None => ce.push((YamlView::Text("resources"@), YamlView::Mapping(Seq::empty()))),
                };
                let rv = map_get(ce1, "resources"@).unwrap();
                match untag(rv) {
                    YamlView::Mapping(re) => if map_get(re, "claims"@) is Some {
                        Err(PatchFault::ExistingContainerClaims(name))
                    } else {
                        let re1 = map_set(re, "claims"@, YamlView::List(seq![container_claim()]));
                        let re2 = strip_field(strip_field(re1, "requests"@, keys), "limits"@, keys);
                        Ok(retag(c, YamlView::Mapping(map_set(ce1, "resources"@, retag(rv, YamlView::Mapping(re2))))))
                    },
                    _ => Err(PatchFault::NotAMapping),
                }
            }
        },
        _ => Err(PatchFault::NotAMapping),
    }
}

/// All containers patched in order; the first failure is reported.
pub open spec fn patch_items(items: Seq<YamlView>, keys: Seq<Seq<char>>, selected: Seq<Seq<char>>) -> Result<Seq<YamlView>, PatchFault>
    decreases items.len(),
{
    if items.len() == 0 {
        Ok(Seq::empty())
    } else {
        match patch_items(items.drop_last(), keys, selected) {
            Err(f) => Err(f),
            Ok(done) => match patch_container(items.last(), keys, selected) {
                Err(f) => Err(f),
                Ok(c) => Ok(done.push(c)),
            },
        }
    }
}

/// The name of a container node, if it is a mapping (under any tags).
pub open spec fn item_name(v: YamlView) -> Option<Seq<char>> {
    match untag(v) {
        YamlView::Mapping(ce) => Some(container_name(ce)),
        _ => None,
    }
}

/// Whether some container is named `n`.
pub open spec fn has_container(items: Seq<YamlView>, n: Seq<char>) -> bool {
    exists|i: int| 0 <= i < items.len() && #[trigger] item_name(items[i]) == Some(n)
}

/// Selected names that no container has.
pub open spec fn missing_containers(items: Seq<YamlView>, selected: Seq<Seq<char>>) -> Set<Seq<char>> {
    selected.to_set().filter(|n: Seq<char>| !has_container(items, n))
}

/// The outcome of patching the Pod `pod` for template `template`, removing
/// the accelerator resources `keys` from the selected containers. Tags on the
/// Pod, its spec and its container list are looked through and kept.
pub open spec fn patch_outcome(pod: YamlView, template: Seq<char>, keys: Seq<Seq<char>>, selected: Seq<Seq<char>>) -> Result<YamlView, PatchFault> {
    if !selected.no_duplicates() {
        Err(PatchFault::RepeatedContainer)
    } else {
        match untag(pod) {
            YamlView::Mapping(pe) => match map_get(pe, "spec"@) {
                None => Err(PatchFault::MissingSpec),
                Some(sv) => match untag(sv) {
                    YamlView::Mapping(se) => if map_get(se, "resourceClaims"@) is Some {
                        Err(PatchFault::ExistingResourceClaims)
                    } else {
                        let se1 = map_set(se, "resourceClaims"@, YamlView::List(seq![pod_claim(template)]));
                        match map_get(se1, "containers"@) {
                            Some(cv) => match untag(cv) {
                                YamlView::List(items) => match patch_items(items, keys, selected) {
                                    Err(f) => Err(f),
                                    Ok(done) => if missing_containers(items, selected).is_empty() {
                                        Ok(retag(pod, YamlView::Mapping(map_set(pe, "spec"@, retag(sv, YamlView::Mapping(
                                            map_set(se1, "containers"@, retag(cv, YamlView::List(done))),
                                        ))))))
                                    } else {
                                        Err(PatchFault::ContainersNotFound(missing_containers(items, selected)))
                                    },
                                },
                                _ => Err(PatchFault::MissingContainers),
                            },
                            None => Err(PatchFault::MissingContainers),
                        }
                    },
                    _ => Err(PatchFault::NotAMapping),
                },
            },
            _ => Err(PatchFault::NotAMapping),
        }
    }
}

/// Whether `e` is the error that reports fault `f`.
pub open spec fn reports_fault(f: PatchFault, e: &TeeLensError) -> bool {
    match f {
        PatchFault::RepeatedContainer => e is RepeatedContainer,
        PatchFault::NotAMapping => e is NotAMapping,
        PatchFault::MissingSpec => e is MissingSpec,
        PatchFault::ExistingResourceClaims => e is ExistingResourceClaims,
        PatchFault::MissingContainers => e is MissingContainers,
        PatchFault::ExistingContainerClaims(n) => e matches TeeLensError::ExistingContainerClaims { container }
            && container@ == n,
        PatchFault::ContainersNotFound(names) => e matches TeeLensError::ContainersNotFound { missing }
            && strictly_sorted(views(missing@)) && views(missing@).to_set() == names,
    }
}

/// The keys of a sorted map, in order.
pub open spec fn map_keys<W>(s: Seq<(Seq<char>, W)>) -> Seq<Seq<char>> {
    s.map_values(|e: (Seq<char>, W)| e.0)
}

/// Removes the `keys` from the mapping under `field`, if that is a mapping.
fn strip_resources_field(re: &mut Vec<(YamlValue, YamlValue)>, field: &str, keys: &SortedMap<u32>)
    ensures
        entries_view(final(re)@) == strip_field(entries_view(old(re)@), field@, map_keys(keys@)),
{
    let ghost ev = entries_view(re@);
    let ghost ks = map_keys(keys@);
    match find_key(re, field) {
        Some(i) => {
            proof { lemma_key_index(ev, field@); }
            let (k, v) = re.remove(i);
            let ghost fv = yaml_view(v);
            proof { lemma_untag_retag(fv, fv); }
            let (tags, core) = untag_value(v);
            match core {
                YamlValue::Mapping(mut vals) => {
                    let ghost v0 = entries_view(vals@);
                    let mut j: usize = 0;
                    assert(ks.take(0) =~= Seq::<Seq<char>>::empty());
                    while j < keys.len()
                        invariant
                            ks == map_keys(keys@),
                            j <= ks.len(),
                            entries_view(vals@) == strip_keys(v0, ks.take(j as int)),
                        decreases ks.len() - j,
                    {
                        map_remove(&mut vals, keys.key_at(j).as_str());
                        assert(ks.take(j + 1).drop_last() =~= ks.take(j as int));
                        j = j + 1;
                    }
                    assert(ks.take(ks.len() as int) =~= ks);
                    let nv = wrap_value(&tags, YamlValue::Mapping(vals));
                    assert(yaml_view(nv) == retag(fv, YamlView::Mapping(strip_keys(v0, ks))));
                    re.insert(i, (k, nv));
                    assert(entries_view(re@) =~= ev.update(i as int, (ev[i as int].0, retag(fv, YamlView::Mapping(strip_keys(v0, ks))))));
                },
                other => {
                    let ghost ov = yaml_view(other);
                    let nv = wrap_value(&tags, other);
                    assert(yaml_view(nv) == retag(fv, ov));
                    re.insert(i, (k, nv));
                    assert(entries_view(re@) =~= ev);
                },
            }
        },
        None => {},
    }
}


/// The `name` text of a container mapping, or empty.
fn name_of(ce: &Vec<(YamlValue, YamlValue)>) -> (n: String)
    ensures
        n@ == container_name(entries_view(ce@)),
{
    let ghost ev = entries_view(ce@);
    match find_key(ce, "name") {
        Some(i) => {
            assert(ev[i as int].1 == yaml_view(ce@[i as int].1));
            match untag_ref(&ce[i].1) {
                YamlValue::String(s) => s.clone(),
                _ => String::new(),
            }
        },
        None => String::new(),
    }
}

/// A single-entry mapping node `name: value`-style pair of texts.
fn text_node(s: &str) -> (v: YamlValue)
    ensures
        yaml_view(v) == YamlView::Text(s@),
{
    YamlValue::String(string_of(s))
}

/// The container's access to the claim.
fn container_claim_node() -> (v: YamlValue)
    ensures
        yaml_view(v) == container_claim(),
{
    let mut e: Vec<(YamlValue, YamlValue)> = Vec::new();
    e.push((text_node("name"), text_node("teelens-devices")));
    let v = YamlValue::Mapping(e);
    assert(entries_view(e@) =~= seq![(YamlView::Text("name"@), YamlView::Text(claim_name()))]);
    v
}

/// Patches one container; see `patch_container`.
fn patch_one(item: YamlValue, keys: &SortedMap<u32>, selected: &Vec<String>) -> (r: Result<YamlValue, TeeLensError>)
    ensures
        match patch_container(yaml_view(item), map_keys(keys@), views(selected@)) {
            Ok(v) => r matches Ok(p) && yaml_view(p) == v,
            Err(f) => r matches Err(e) && reports_fault(f, &e),
        },
{
    let ghost iv = yaml_view(item);
    proof { lemma_untag_retag(iv, iv); }
    let (itags, icore) = untag_value(item);
    match icore {
        YamlValue::Mapping(mut ce) => {
            let ghost ev = entries_view(ce@);
            let name = name_of(&ce);
            if !contains_text(selected, name.as_str()) {
                let back = wrap_value(&itags, YamlValue::Mapping(ce));
                assert(yaml_view(back) == retag(iv, untag(iv)));
                return Ok(back);
            }
            let ri: usize = match find_key(&ce, "resources") {
                Some(i) => i,
                None => {
                    let fresh: Vec<(YamlValue, YamlValue)> = Vec::new();
                    assert(entries_view(fresh@) =~= Seq::empty());
                    ce.push((text_node("resources"), YamlValue::Mapping(fresh)));
                    assert(entries_view(ce@) =~= ev.push((YamlView::Text("resources"@), YamlView::Mapping(Seq::empty()))));
                    let n = ce.len() - 1;
                    proof {
                        let ev2 = entries_view(ce@);
                        lemma_key_index(ev, "resources"@);
                        lemma_key_index(ev2, "resources"@);
                        assert(ev2[n as int].0 == YamlView::Text("resources"@));
                        assert forall|j: int| 0 <= j < n implies ev2[j].0 != YamlView::Text("resources"@) by {
                            assert(ev2[j] == ev[j]);
                        }
                        match key_index(ev2, "resources"@) {
                            Some(w) => {
                                if w < n {
                                    assert(ev2[w].0 != YamlView::Text("resources"@));
                                }
                            },
                            None => {
                                assert(ev2[n as int].0 != YamlView::Text("resources"@));
                            },
                        }
                    }
                    n
                },
            };
            let ghost ev1 = entries_view(ce@);
            proof { lemma_key_index(ev1, "resources"@); }
            assert(key_index(ev1, "resources"@) == Some(ri as int));
            let (rk, rv) = ce.remove(ri);
            let ghost rvv = yaml_view(rv);
            assert(rvv == ev1[ri as int].1);
            let (rtags, rcore) = untag_value(rv);
            match rcore {
                YamlValue::Mapping(mut re) => {
                    match find_key(&re, "claims") {
                        Some(_) => {
                            return Err(TeeLensError::ExistingContainerClaims { container: name });
                        },
                        None => {},
                    }
                    let mut access: Vec<YamlValue> = Vec::new();
                    access.push(container_claim_node());
                    assert(list_view(access@) =~= seq![container_claim()]);
                    map_insert(&mut re, string_of("claims"), YamlValue::Sequence(access));
                    strip_resources_field(&mut re, "requests", keys);
                    strip_resources_field(&mut re, "limits", keys);
                    let ghost r2 = entries_view(re@);
                    let nr = wrap_value(&rtags, YamlValue::Mapping(re));
                    assert(yaml_view(nr) == retag(rvv, YamlView::Mapping(r2)));
                    ce.insert(ri, (rk, nr));
                    assert(entries_view(ce@) =~= ev1.update(ri as int, (ev1[ri as int].0, retag(rvv, YamlView::Mapping(r2)))));
                    let ghost cev = entries_view(ce@);
                    let out = wrap_value(&itags, YamlValue::Mapping(ce));
                    assert(yaml_view(out) == retag(iv, YamlView::Mapping(cev)));
                    Ok(out)
                },
                _ => Err(TeeLensError::NotAMapping),
            }
        },
        _ => Err(TeeLensError::NotAMapping),
    }
}


/// Whether some name occurs twice.
fn has_duplicate(v: &Vec<String>) -> (b: bool)
    ensures
        b == !views(v@).no_duplicates(),
{
    let ghost vs = views(v@);
    let mut i: usize = 0;
    while i < v.len()
        invariant
            vs == views(v@),
            i <= v@.len(),
            forall|a: int, b: int| 0 <= a < b < v@.len() && a < i ==> vs[a] != vs[b],
        decreases v@.len() - i,
    {
        let mut j: usize = i + 1;
        while j < v.len()
            invariant
                vs == views(v@),
                i < v@.len(),
                i + 1 <= j <= v@.len(),
                forall|a: int, b: int| 0 <= a < b < v@.len() && a < i ==> vs[a] != vs[b],
                forall|b: int| i < b < j ==> vs[i as int] != vs[b],
            decreases v@.len() - j,
        {
            if str_eq(v[i].as_str(), v[j].as_str()) {
                assert(vs[i as int] == vs[j as int]);
                return true;
            }
            j = j + 1;
        }
        i = i + 1;
    }
    assert(vs.no_duplicates()) by {
        assert forall|a: int, b: int| 0 <= a < vs.len() && 0 <= b < vs.len() && a != b implies vs[a] != vs[b] by {
            if a > b {
                assert(vs[b] != vs[a]);
            }
        }
    }
    false
}

/// The selected names not among the found ones, in ascending order.
fn missing_names(found: &Vec<String>, selected: &Vec<String>) -> (r: Vec<String>)
    ensures
        strictly_sorted(views(r@)),
        forall|n: Seq<char>| views(r@).contains(n) <==> (views(selected@).contains(n) && !views(found@).contains(n)),
{
    let mut set: SortedMap<()> = SortedMap::new();
    let mut i: usize = 0;
    while i < selected.len()
        invariant
            i <= selected@.len(),
            sorted_keys(set@),
            forall|n: Seq<char>| #[trigger] lookup(set@, n) is Some <==> (views(selected@).take(i as int).contains(n)
                && !views(found@).contains(n)),
        decreases selected@.len() - i,
    {
        let name = &selected[i];
        let ghost prefix = views(selected@).take(i as int);
        assert(views(selected@).take(i + 1) =~= prefix.push(name@));
        assert forall|n: Seq<char>| prefix.push(name@).contains(n) <==> (prefix.contains(n) || n == name@) by {
            if prefix.push(name@).contains(n) {
                let j = choose|j: int| 0 <= j < prefix.push(name@).len() && prefix.push(name@)[j] == n;
                if j < prefix.len() {
                    assert(prefix[j] == n);
                }
            }
            if prefix.contains(n) {
                let j = choose|j: int| 0 <= j < prefix.len() && prefix[j] == n;
                assert(prefix.push(name@)[j] == n);
            }
            if n == name@ {
                assert(prefix.push(name@)[prefix.len() as int] == n);
            }
        }
        if !contains_text(found, name.as_str()) {
            set.insert(name.clone(), ());
        }
        i = i + 1;
    }
    assert(views(selected@).take(selected@.len() as int) =~= views(selected@));
    let mut r: Vec<String> = Vec::new();
    let mut k: usize = 0;
    while k < set.len()
        invariant
            k <= set@.len(),
            views(r@) == map_keys(set@).take(k as int),
        decreases set@.len() - k,
    {
        let key = set.key_at(k).clone();
        assert(key@ == set@[k as int].0);
        let ghost r0 = r@;
        r.push(key);
        assert(views(r@) =~= views(r0).push(key@));
        assert(map_keys(set@).take(k + 1) =~= map_keys(set@).take(k as int).push(set@[k as int].0));
        assert(views(r@) =~= map_keys(set@).take(k + 1));
        k = k + 1;
    }
    assert(views(r@) =~= map_keys(set@));
    proof {
        assert forall|n: Seq<char>| views(r@).contains(n) <==> (views(selected@).contains(n) && !views(found@).contains(n)) by {
            lemma_lookup_has_key(set@, n);
            if views(r@).contains(n) {
                let j = choose|j: int| 0 <= j < views(r@).len() && views(r@)[j] == n;
                assert(set@[j].0 == n);
            }
            if has_key(set@, n) {
                let j = choose|j: int| 0 <= j < set@.len() && #[trigger] set@[j].0 == n;
                assert(views(r@)[j] == n);
            }
        }
    }
    r
}

proof fn lemma_patch_items_error_stays(items: Seq<YamlView>, keys: Seq<Seq<char>>, selected: Seq<Seq<char>>, a: int, b: int)
    requires
        0 <= a <= b <= items.len(),
        patch_items(items.take(a), keys, selected) is Err,
    ensures
        patch_items(items.take(b), keys, selected) == patch_items(items.take(a), keys, selected),
    decreases b - a,
{
    if a < b {
        lemma_patch_items_error_stays(items, keys, selected, a, b - 1);
        assert(items.take(b).drop_last() =~= items.take(b - 1));
    }
}

proof fn lemma_has_container_push(items: Seq<YamlView>, v: YamlView, n: Seq<char>)
    ensures
        has_container(items.push(v), n) <==> (has_container(items, n) || item_name(v) == Some(n)),
{
    let p = items.push(v);
    if has_container(p, n) {
        let j = choose|j: int| 0 <= j < p.len() && #[trigger] item_name(p[j]) == Some(n);
        if j < items.len() {
            assert(item_name(items[j]) == Some(n));
        }
    }
    if has_container(items, n) {
        let j = choose|j: int| 0 <= j < items.len() && #[trigger] item_name(items[j]) == Some(n);
        assert(item_name(p[j]) == Some(n));
    }
    if item_name(v) == Some(n) {
        assert(item_name(p[items.len() as int]) == Some(n));
    }
}

proof fn lemma_found_step(
    f0: Seq<Seq<char>>,
    f1: Seq<Seq<char>>,
    sel: Seq<Seq<char>>,
    prefix: Seq<YamlView>,
    iv: YamlView,
    added: bool,
)
    requires
        forall|n: Seq<char>| f0.contains(n) <==> (sel.contains(n) && has_container(prefix, n)),
        added ==> (item_name(iv) is Some && f1 == f0.push(item_name(iv).unwrap())
            && sel.contains(item_name(iv).unwrap())),
        !added ==> f1 == f0,
        !added ==> (item_name(iv) matches Some(nv) ==> (!sel.contains(nv) || f0.contains(nv))),
    ensures
        forall|n: Seq<char>| f1.contains(n) <==> (sel.contains(n) && has_container(prefix.push(iv), n)),
{
    assert forall|n: Seq<char>| f1.contains(n) <==> (sel.contains(n) && has_container(prefix.push(iv), n)) by {
        lemma_has_container_push(prefix, iv, n);
        if added {
            lemma_push_contains(f0, item_name(iv).unwrap(), n);
        }
    }
}

/// Patches the containers in order, and collects the names of the selected
/// containers met.
fn patch_all(items0: Vec<YamlValue>, requested_resources: &SortedMap<u32>, containers: &Vec<String>)
    -> (r: Result<(Vec<YamlValue>, Vec<String>), TeeLensError>)
    ensures
        ({
            let items = list_view(items0@);
            let keys = map_keys(requested_resources@);
            let sel = views(containers@);
            match patch_items(items, keys, sel) {
                Ok(v) => r matches Ok((done, found)) && list_view(done@) == v && forall|n: Seq<char>|
                    views(found@).contains(n) <==> (sel.contains(n) && has_container(items, n)),
                Err(f) => r matches Err(e) && reports_fault(f, &e),
            }
        }),
{
    let ghost items = list_view(items0@);
    let ghost keys = map_keys(requested_resources@);
    let ghost sel = views(containers@);
    let mut rest = items0;
    let mut done: Vec<YamlValue> = Vec::new();
    let mut found: Vec<String> = Vec::new();
    let total_len = rest.len();
    let ghost total = total_len as nat;
    let mut k: usize = 0;
    assert(items.take(0) =~= Seq::<YamlView>::empty());
    assert(list_view(done@) =~= Seq::<YamlView>::empty());
    assert(items.skip(0) =~= items);
    while rest.len() > 0
        invariant
            items == list_view(items0@),
            items.len() == total,
            total <= usize::MAX,
            k + rest@.len() == total,
            list_view(rest@) == items.skip(k as int),
            patch_items(items.take(k as int), keys, sel) == Ok::<Seq<YamlView>, PatchFault>(list_view(done@)),
            keys == map_keys(requested_resources@),
            sel == views(containers@),
            forall|n: Seq<char>| views(found@).contains(n) <==> (sel.contains(n)
                && has_container(items.take(k as int), n)),
        decreases rest@.len(),
    {
        let ghost r0 = rest@;
        let item = rest.remove(0);
        let ghost iv = yaml_view(item);
        assert(list_view(r0)[0] == iv);
        assert(items.skip(k as int)[0] == items[k as int]);
        assert(iv == items[k as int]);
        assert(list_view(rest@) =~= list_view(r0).drop_first());
        assert(items.skip(k + 1) =~= items.skip(k as int).drop_first());
        assert(items.take(k + 1).drop_last() =~= items.take(k as int));
        let name_opt: Option<String> = match untag_ref(&item) {
            YamlValue::Mapping(ce) => {
                let n = name_of(ce);
                assert(item_name(iv) == Some(n@));
                Some(n)
            },
            _ => None,
        };
        assert(name_opt is None ==> item_name(iv) is None);
        assert(items.take(k + 1).last() == iv);
        match patch_one(item, requested_resources, containers) {
            Ok(p) => {
                let ghost d0 = list_view(done@);
                done.push(p);
                assert(list_view(done@) =~= d0.push(yaml_view(p)));
                assert(patch_items(items.take(k + 1), keys, sel) == Ok::<Seq<YamlView>, PatchFault>(list_view(done@)));
                let ghost f0 = views(found@);
                let add: bool = match &name_opt {
                    Some(n) => contains_text(containers, n.as_str()) && !contains_text(&found, n.as_str()),
                    None => false,
                };
                if add {
                    let n = name_opt.unwrap();
                    found.push(n);
                }
                proof {
                    assert(items.take(k + 1) =~= items.take(k as int).push(iv));
                    if add {
                        assert(views(found@) =~= f0.push(item_name(iv).unwrap()));
                    }
                    lemma_found_step(f0, views(found@), sel, items.take(k as int), iv, add);
                }
            },
            Err(e) => {
                proof {
                    assert(patch_container(iv, keys, sel) is Err);
                    match patch_container(iv, keys, sel) {
                        Err(f) => {
                            assert(patch_items(items.take(k + 1), keys, sel) == Err::<Seq<YamlView>, PatchFault>(f));
                        },
                        Ok(_) => {},
                    }
                    lemma_patch_items_error_stays(items, keys, sel, k + 1, items.len() as int);
                    assert(items.take(items.len() as int) =~= items);
                }
                return Err(e);
            },
        }
        k = k + 1;
    }
    assert(items.take(k as int) =~= items);
    Ok((done, found))
}

/// Adds the claim on the template to a Pod manifest and grants the named
/// containers access to it, removing the converted accelerator resources from
/// their requests and limits. Refuses to overwrite existing claims.
pub fn patch_pod_for_dra(
    pod: YamlValue,
    template_name: &str,
    requested_resources: &SortedMap<u32>,
    containers: &Vec<String>,
) -> (r: Result<YamlValue, TeeLensError>)
    ensures
        match patch_outcome(yaml_view(pod), template_name@, map_keys(requested_resources@), views(containers@)) {
            Ok(v) => r matches Ok(p) && yaml_view(p) == v,
            Err(f) => r matches Err(e) && reports_fault(f, &e),
        },
{
    let ghost sel = views(containers@);
    let ghost keys = map_keys(requested_resources@);
    if has_duplicate(containers) {
        return Err(TeeLensError::RepeatedContainer);
    }
    let ghost podv = yaml_view(pod);
    let (ptags, pcore) = untag_value(pod);
    let mut pe = match pcore {
        YamlValue::Mapping(pe) => pe,
        _ => {
            return Err(TeeLensError::NotAMapping);
        },
    };
    let ghost pev = entries_view(pe@);
    let si = match find_key(&pe, "spec") {
        Some(i) => i,
        None => {
            return Err(TeeLensError::MissingSpec);
        },
    };
    proof { lemma_key_index(pev, "spec"@); }
    let (sk, sv) = pe.remove(si);
    let ghost svv = yaml_view(sv);
    assert(svv == pev[si as int].1);
    let (stags, score) = untag_value(sv);
    let mut se = match score {
        YamlValue::Mapping(se) => se,
        _ => {
            return Err(TeeLensError::NotAMapping);
        },
    };
    let ghost sev = entries_view(se@);
    match find_key(&se, "resourceClaims") {
        Some(_) => {
            return Err(TeeLensError::ExistingResourceClaims);
        },
        None => {},
    }
    // the Pod-level claim
    let mut claim: Vec<(YamlValue, YamlValue)> = Vec::new();
    claim.push((text_node("name"), text_node("teelens-devices")));
    claim.push((text_node("resourceClaimTemplateName"), text_node(template_name)));
    assert(entries_view(claim@) =~= seq![
        (YamlView::Text("name"@), YamlView::Text(claim_name())),
        (YamlView::Text("resourceClaimTemplateName"@), YamlView::Text(template_name@)),
    ]);
    let mut claims: Vec<YamlValue> = Vec::new();
    claims.push(YamlValue::Mapping(claim));
    assert(list_view(claims@) =~= seq![pod_claim(template_name@)]);
    map_insert(&mut se, string_of("resourceClaims"), YamlValue::Sequence(claims));
    let ghost sev1 = entries_view(se@);
    let ci = match find_key(&se, "containers") {
        Some(i) => i,
        None => {
            return Err(TeeLensError::MissingContainers);
        },
    };
    proof { lemma_key_index(sev1, "containers"@); }
    let (ck, cv) = se.remove(ci);
    let ghost cvv = yaml_view(cv);
    assert(cvv == sev1[ci as int].1);
    let (ctags, ccore) = untag_value(cv);
    let mut rest = match ccore {
        YamlValue::Sequence(items) => items,
        _ => {
            return Err(TeeLensError::MissingContainers);
        },
    };
    let ghost items = list_view(rest@);
    let (done, found) = match patch_all(rest, requested_resources, containers) {
        Ok(pair) => pair,
        Err(e) => {
            return Err(e);
        },
    };
    proof {
        assert(map_get(pev, "spec"@) == Some(svv));
        assert(map_get(sev, "resourceClaims"@) is None);
        assert(map_get(sev1, "containers"@) == Some(cvv));
        assert(patch_items(items, keys, sel) == Ok::<Seq<YamlView>, PatchFault>(list_view(done@)));
    }
    let missing = missing_names(&found, containers);
    if missing.len() > 0 {
        proof {
            assert(views(missing@).to_set() =~= missing_containers(items, sel));
            let n0 = views(missing@)[0];
            assert(views(missing@).contains(n0));
            assert(missing_containers(items, sel).contains(n0));
        }
        return Err(TeeLensError::ContainersNotFound { missing });
    }
    proof {
        assert(missing_containers(items, sel) =~= Set::<Seq<char>>::empty()) by {
            assert forall|n: Seq<char>| !missing_containers(items, sel).contains(n) by {
                if missing_containers(items, sel).contains(n) {
                    assert(views(missing@).contains(n));
                }
            }
        }
    }
    let ghost done_v = list_view(done@);
    let nc = wrap_value(&ctags, YamlValue::Sequence(done));
    assert(yaml_view(nc) == retag(cvv, YamlView::List(done_v)));
    se.insert(ci, (ck, nc));
    assert(entries_view(se@) =~= sev1.update(ci as int, (sev1[ci as int].0, retag(cvv, YamlView::List(done_v)))));
    let ghost se_final = entries_view(se@);
    let ns = wrap_value(&stags, YamlValue::Mapping(se));
    assert(yaml_view(ns) == retag(svv, YamlView::Mapping(se_final)));
    pe.insert(si, (sk, ns));
    assert(entries_view(pe@) =~= pev.update(si as int, (pev[si as int].0, retag(svv, YamlView::Mapping(se_final)))));
    let ghost pe_final = entries_view(pe@);
    let out = wrap_value(&ptags, YamlValue::Mapping(pe));
    assert(yaml_view(out) == retag(podv, YamlView::Mapping(pe_final)));
    Ok(out)
}


/// The template name a bundle uses.
pub open spec fn bundle_template_name(pod: &Pod, name: Option<String>) -> Seq<char> {
    match name {
        Some(n) => n@,
        None => default_template_name(pod),
    }
}

/// Compiles a `ResourceClaimTemplate` for the Pod's accelerator requests and
/// the Pod manifest patched to consume it. Every container that requests an
/// accelerator must be among `containers`.
pub fn dra_bundle(
    pod: &Pod,
    pod_yaml: YamlValue,
    device_classes: SortedMap<String>,
    name: Option<String>,
    containers: &Vec<String>,
) -> (r: Result<(ResourceClaimTemplate, YamlValue), TeeLensError>)
    requires
        ({
            let names = requesting_names(pod_containers(pod));
            let sel = views(containers@);
            names.len() == 0 || !names.to_set().filter(|n: Seq<char>| !sel.contains(n)).is_empty()
                || accelerators_fit(pod)
        }),
    ensures
        ({
            let names = requesting_names(pod_containers(pod));
            let sel = views(containers@);
            let omitted = names.to_set().filter(|n: Seq<char>| !sel.contains(n));
            let req = requested_seq(pod);
            let tname = bundle_template_name(pod, name);
            &&& r is Ok ==> forall|n: Seq<char>| names.contains(n) ==> sel.contains(n)
            &&& if names.len() == 0 {
                r matches Err(TeeLensError::NoRequestingContainers)
            } else if !omitted.is_empty() {
                r matches Err(TeeLensError::OmittedRequesters { omitted: o })
                    && strictly_sorted(views(o@)) && views(o@).to_set() == omitted
            } else if req.len() == 0 {
                r matches Err(TeeLensError::NoAcceleratorRequests)
            } else if first_unmapped(req, device_classes@) is Some {
                r matches Err(TeeLensError::MissingDeviceClass { resource })
                    && resource@ == req[first_unmapped(req, device_classes@).unwrap()].0
            } else {
                match patch_outcome(yaml_view(pod_yaml), tname, map_keys(req), sel) {
                    Ok(v) => r matches Ok((t, p)) && is_claim_template(&t, req, device_classes@, tname)
                        && yaml_view(p) == v,
                    Err(f) => r matches Err(e) && reports_fault(f, &e),
                }
            }
        }),
{
    let ghost names = requesting_names(pod_containers(pod));
    let ghost sel = views(containers@);
    let requesters = accelerator_requesting_containers(pod);
    if requesters.len() == 0 {
        return Err(TeeLensError::NoRequestingContainers);
    }
    let omitted = missing_names(containers, &requesters);
    if omitted.len() > 0 {
        proof {
            assert(views(omitted@).to_set() =~= names.to_set().filter(|n: Seq<char>| !sel.contains(n)));
        }
        proof {
            let n0 = views(omitted@)[0];
            assert(views(omitted@).contains(n0));
            assert(views(omitted@).to_set().contains(n0));
        }
        return Err(TeeLensError::OmittedRequesters { omitted });
    }
    proof {
        let om = names.to_set().filter(|n: Seq<char>| !sel.contains(n));
        assert(om =~= Set::<Seq<char>>::empty()) by {
            assert forall|m: Seq<char>| !#[trigger] om.contains(m) by {
                if om.contains(m) {
                    assert(views(omitted@).contains(m));
                }
            }
        }
    }
    let requested = requested_accelerators(pod);
    let template = match resource_claim_template(pod, device_classes, name) {
        Ok(t) => t,
        Err(e) => {
            return Err(e);
        },
    };
    let patched = match patch_pod_for_dra(pod_yaml, template.metadata.name.as_str(), &requested, containers) {
        Ok(p) => p,
        Err(e) => {
            return Err(e);
        },
    };
    Ok((template, patched))
}

} // verus!
