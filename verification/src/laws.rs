//! Properties that hold across the library: what makes a node eligible,
//! how a plan accounts for every node, what a patched container looks like,
//! how decimal text and its parse fit together, how labels are stable,
//! how plans split over nodes and totals over containers, why the order
//! of DeviceClass entries does not matter, what a patch keeps, what a check
//! reports and where the attestation policy comes from.
use vstd::prelude::*;
use crate::text::{views, decimal, parsed_u32, digits_value, is_digit, unsigned_digits, digit_char};
use crate::model::{NodeCapabilities, Container, container_requests, Pod};
use crate::accel::{accelerator_total, accelerator_requested, counts_for, requesting_names, requests_accelerator, is_accelerator};
use crate::plan::{attestation_policy_of, PlanContext, node_reasons, shortage_reasons, node_count, eligible_names, rejections};
use crate::report::{advertises, check_findings, runtime_class_matches, tee_list_text, Severity};
use crate::dra::{
    dns_label_text, lemma_dns_label_shape, lemma_dns_label_of_label, first_fault, class_lookup, first_eq_index,
    entry_resource, valid_entries, lemma_no_fault_valid, lemma_class_lookup_valid, lemma_class_lookup_absent,
};
use crate::sorted_map::{lookup, sorted_keys, lemma_sorted_extensional, lemma_lookup_sorted_index};
use crate::yaml::{
    YamlView, map_get, map_set, key_index, untag, retag, lemma_untag_retag, map_swap_remove, unique_keys, lemma_map_set_get,
    lemma_map_swap_remove, lemma_key_index,
};
use crate::dra::{ResourceClaimTemplate, is_claim_template};
use crate::patch::{
    patch_outcome, patch_items, pod_claim,
    patch_container, strip_keys, strip_field, container_claim, item_name,
};

verus! {

proof fn lemma_shortages_empty(node: &NodeCapabilities, required: Seq<(Seq<char>, u32)>)
    ensures
        shortage_reasons(node, required).len() == 0 <==> forall|i: int| 0 <= i < required.len()
            ==> node_count(node, #[trigger] required[i].0) >= required[i].1,
    decreases required.len(),
{
    if required.len() > 0 {
        let init = required.drop_last();
        lemma_shortages_empty(node, init);
        assert(shortage_reasons(node, required).len() >= shortage_reasons(node, init).len());
        if forall|i: int| 0 <= i < required.len() ==> node_count(node, #[trigger] required[i].0) >= required[i].1 {
            assert forall|i: int| 0 <= i < init.len() implies node_count(node, #[trigger] init[i].0) >= init[i].1 by {
                assert(init[i] == required[i]);
            }
            assert(node_count(node, required[required.len() - 1].0) >= required[required.len() - 1].1);
        }
        if shortage_reasons(node, required).len() == 0 {
            assert forall|i: int| 0 <= i < required.len() implies node_count(node, #[trigger] required[i].0) >= required[i].1 by {
                if i < init.len() {
                    assert(init[i] == required[i]);
                }
            }
        }
    }
}

/// What an eligible node is: a node has no reason against it exactly when
/// it has every accelerator in the required count and, for a VM workload,
/// KVM and the selected hypervisor and, if the RuntimeClass is confidential,
/// a QEMU configuration and a TEE; for a WASM workload, the WASM runtime and
/// a RuntimeClass that is not confidential.
pub proof fn law_eligible_node(node: NodeCapabilities, ctx: PlanContext)
    ensures
        node_reasons(&node, ctx).len() == 0 <==> {
            &&& forall|i: int| 0 <= i < ctx.required.len()
                ==> node_count(&node, #[trigger] ctx.required[i].0) >= ctx.required[i].1
            &&& match ctx.wasm {
                None => {
                    &&& node.kvm
                    &&& advertises(&node, ctx.hypervisor)
                    &&& ctx.confidential ==> ctx.hypervisor == Some("qemu"@) && node.tee@.len() > 0
                },
                Some(rt) => views(node.wasm_runtimes@).contains(rt) && !ctx.confidential,
            }
        },
{
    lemma_shortages_empty(&node, ctx.required);
}

proof fn lemma_shortages_same_accelerators(n1: &NodeCapabilities, n2: &NodeCapabilities, required: Seq<(Seq<char>, u32)>)
    requires
        n1.accelerators@ == n2.accelerators@,
    ensures
        shortage_reasons(n1, required) == shortage_reasons(n2, required),
    decreases required.len(),
{
    if required.len() > 0 {
        lemma_shortages_same_accelerators(n1, n2, required.drop_last());
    }
}

/// A WASM workload does not need KVM: whether a node has KVM changes
/// nothing of the reasons against placing a WASM workload on it.
pub proof fn law_wasm_placement_ignores_kvm(node: NodeCapabilities, kvm: bool, ctx: PlanContext)
    requires
        ctx.wasm is Some,
    ensures
        node_reasons(&node, ctx) == node_reasons(&NodeCapabilities { kvm, ..node }, ctx),
{
    let other = NodeCapabilities { kvm, ..node };
    lemma_shortages_same_accelerators(&node, &other, ctx.required);
    assert(other.hypervisors == node.hypervisors);
    assert(advertises(&node, ctx.hypervisor) == advertises(&other, ctx.hypervisor));
}

/// A plan accounts for every node once: each node is either eligible or
/// rejected, and every rejection gives at least one reason.
pub proof fn law_plan_accounts_for_every_node(nodes: Seq<NodeCapabilities>, ctx: PlanContext)
    ensures
        eligible_names(nodes, ctx).len() + rejections(nodes, ctx).len() == nodes.len(),
        forall|i: int| 0 <= i < rejections(nodes, ctx).len() ==> (#[trigger] rejections(nodes, ctx)[i]).1.len() > 0,
    decreases nodes.len(),
{
    if nodes.len() > 0 {
        law_plan_accounts_for_every_node(nodes.drop_last(), ctx);
        let rest = rejections(nodes.drop_last(), ctx);
        assert forall|i: int| 0 <= i < rejections(nodes, ctx).len() implies (#[trigger] rejections(nodes, ctx)[i]).1.len() > 0 by {
            if i < rest.len() {
                assert(rejections(nodes, ctx)[i] == rest[i]);
            }
        }
    }
}

proof fn lemma_strip_keys(vals: Seq<(YamlView, YamlView)>, keys: Seq<Seq<char>>)
    requires
        unique_keys(vals),
    ensures
        unique_keys(strip_keys(vals, keys)),
        forall|i: int| 0 <= i < keys.len() ==> key_index(strip_keys(vals, keys), #[trigger] keys[i]) is None,
    decreases keys.len(),
{
    if keys.len() > 0 {
        let init = keys.drop_last();
        lemma_strip_keys(vals, init);
        lemma_map_swap_remove(strip_keys(vals, init), keys.last());
        assert forall|i: int| 0 <= i < keys.len() implies key_index(strip_keys(vals, keys), #[trigger] keys[i]) is None by {
            if i < init.len() {
                assert(init[i] == keys[i]);
                assert(key_index(strip_keys(vals, init), init[i]) is None);
            }
        }
    }
}

/// A mapping field whose own mapping (under any tags) has no repeated keys,
/// if it is one.
pub open spec fn field_keys_unique(es: Seq<(YamlView, YamlView)>, field: Seq<char>) -> bool {
    match map_get(es, field) {
        Some(fv) => match untag(fv) {
            YamlView::Mapping(vals) => unique_keys(vals),
            _ => true,
        },
        None => true,
    }
}

/// None of the keys is in the mapping stored (under any tags) in `field`,
/// if that is a mapping.
pub open spec fn field_lacks_keys(es: Seq<(YamlView, YamlView)>, field: Seq<char>, keys: Seq<Seq<char>>) -> bool {
    match map_get(es, field) {
        Some(fv) => match untag(fv) {
            YamlView::Mapping(vals) => forall|i: int|
                0 <= i < keys.len() ==> map_get(vals, #[trigger] keys[i]) is None,
            _ => true,
        },
        None => true,
    }
}

proof fn lemma_strip_field(res: Seq<(YamlView, YamlView)>, field: Seq<char>, keys: Seq<Seq<char>>, other: Seq<char>)
    requires
        field_keys_unique(res, field),
        other != field,
    ensures
        map_get(strip_field(res, field, keys), other) == map_get(res, other),
        field_lacks_keys(strip_field(res, field, keys), field, keys),
{
    match map_get(res, field) {
        Some(fv) => match untag(fv) {
            YamlView::Mapping(vals) => {
                let stripped = retag(fv, YamlView::Mapping(strip_keys(vals, keys)));
                lemma_untag_retag(fv, YamlView::Mapping(strip_keys(vals, keys)));
                lemma_map_set_get(res, field, stripped, other);
                lemma_map_set_get(res, field, stripped, field);
                lemma_strip_keys(vals, keys);
            },
            _ => {},
        },
        None => {},
    }
}

/// A selected container after patching has access to the claim, and none of
/// the converted accelerator resources remain in its requests or limits
/// (where those hold no repeated keys, as YAML mappings do not). Tags on the
/// container and its mappings are looked through.
pub proof fn law_patched_container(c: YamlView, keys: Seq<Seq<char>>, selected: Seq<Seq<char>>)
    requires
        patch_container(c, keys, selected) is Ok,
        item_name(c) matches Some(n) && selected.contains(n),
        match untag(c) {
            YamlView::Mapping(ce) => match map_get(ce, "resources"@) {
                Some(rv) => match untag(rv) {
                    YamlView::Mapping(re) => field_keys_unique(re, "requests"@) && field_keys_unique(re, "limits"@),
                    _ => true,
                },
                None => true,
            },
            _ => true,
        },
    ensures
        match patch_container(c, keys, selected) {
            Ok(p) => match untag(p) {
                YamlView::Mapping(pe) => match map_get(pe, "resources"@) {
                    Some(rv) => match untag(rv) {
                        YamlView::Mapping(re) => {
                            &&& map_get(re, "claims"@) == Some(YamlView::List(seq![container_claim()]))
                            &&& field_lacks_keys(re, "requests"@, keys)
                            &&& field_lacks_keys(re, "limits"@, keys)
                        },
                        _ => false,
                    },
                    None => false,
                },
                _ => false,
            },
            Err(_) => false,
        },
{
    reveal_strlit("requests");
    reveal_strlit("limits");
    reveal_strlit("claims");
    reveal_strlit("resources");
    let ce = match untag(c) {
        YamlView::Mapping(ce) => ce,
        _ => Seq::empty(),
    };
    let ce1 = match map_get(ce, "resources"@) {
        Some(_) => ce,
        None => ce.push((YamlView::Text("resources"@), YamlView::Mapping(Seq::empty()))),
    };
    if map_get(ce, "resources"@) is None {
        lemma_key_index(ce, "resources"@);
        lemma_key_index(ce1, "resources"@);
        assert(ce1[ce.len() as int].0 == YamlView::Text("resources"@));
        match key_index(ce1, "resources"@) {
            Some(w) => {
                if w < ce.len() {
                    assert(ce[w].0 == ce1[w].0);
                }
            },
            None => {},
        }
        assert(map_get(ce1, "resources"@) == Some(YamlView::Mapping(Seq::<(YamlView, YamlView)>::empty())));
    }
    let rv = map_get(ce1, "resources"@).unwrap();
    let re = match untag(rv) {
        YamlView::Mapping(re) => re,
        _ => Seq::empty(),
    };
    if map_get(ce, "resources"@) is None {
        assert(re =~= Seq::<(YamlView, YamlView)>::empty());
        assert(key_index(re, "requests"@) is None);
        assert(key_index(re, "limits"@) is None);
        assert(field_keys_unique(re, "requests"@) && field_keys_unique(re, "limits"@));
    } else {
        assert(untag(c) == YamlView::Mapping(ce));
        assert(map_get(ce, "resources"@) == Some(rv));
        assert(untag(rv) == YamlView::Mapping(re));
        assert(field_keys_unique(re, "requests"@) && field_keys_unique(re, "limits"@));
    }
    let claims = YamlView::List(seq![container_claim()]);
    let re1 = map_set(re, "claims"@, claims);
    lemma_map_set_get(re, "claims"@, claims, "requests"@);
    lemma_map_set_get(re, "claims"@, claims, "limits"@);
    lemma_map_set_get(re, "claims"@, claims, "claims"@);
    assert("requests"@ != "claims"@) by { assert("requests"@.len() != "claims"@.len()); }
    assert("requests"@ != "limits"@) by { assert("requests"@.len() != "limits"@.len()); }
    assert("limits"@ != "claims"@) by { assert("limits"@[0] != "claims"@[0]); }
    let re_a = strip_field(re1, "requests"@, keys);
    lemma_strip_field(re1, "requests"@, keys, "claims"@);
    lemma_strip_field(re1, "requests"@, keys, "limits"@);
    let re2 = strip_field(re_a, "limits"@, keys);
    lemma_strip_field(re_a, "limits"@, keys, "claims"@);
    lemma_strip_field(re_a, "limits"@, keys, "requests"@);
    let nrv = retag(rv, YamlView::Mapping(re2));
    lemma_untag_retag(rv, YamlView::Mapping(re2));
    let pe = map_set(ce1, "resources"@, nrv);
    lemma_map_set_get(ce1, "resources"@, nrv, "resources"@);
    lemma_untag_retag(c, YamlView::Mapping(pe));
}

/// A container that is not selected comes out of the patch unchanged.
pub proof fn law_unselected_container_unchanged(c: YamlView, keys: Seq<Seq<char>>, selected: Seq<Seq<char>>)
    requires
        item_name(c) matches Some(n) && !selected.contains(n),
    ensures
        patch_container(c, keys, selected) == Ok::<YamlView, crate::patch::PatchFault>(c),
{
}

proof fn lemma_decimal_digits(n: nat)
    ensures
        decimal(n).len() > 0,
        forall|i: int| 0 <= i < decimal(n).len() ==> is_digit(#[trigger] decimal(n)[i]),
        digits_value(decimal(n)) == n,
    decreases n,
{
    if n >= 10 {
        lemma_decimal_digits(n / 10);
        let d = decimal(n);
        assert(d.drop_last() =~= decimal(n / 10));
        assert(digit_char((n % 10) as int) as int == 48 + n % 10);
        assert((n / 10) * 10 + n % 10 == n) by (nonlinear_arith);
        assert(d.last() == digit_char((n % 10) as int));
        assert(digits_value(d) == digits_value(d.drop_last()) * 10 + (d.last() as int - 48) as nat);
        assert((d.last() as int - 48) as nat == n % 10);
        assert(digits_value(d.drop_last()) == n / 10);
        assert forall|i: int| 0 <= i < d.len() implies is_digit(#[trigger] d[i]) by {
            if i < d.len() - 1 {
                assert(d[i] == decimal(n / 10)[i]);
            }
        }
    } else {
        let d = decimal(n);
        assert(digit_char(n as int) as int == 48 + n);
        assert(d.drop_last() =~= Seq::<char>::empty());
        assert(digits_value(d) == digits_value(d.drop_last()) * 10 + (d.last() as int - 48) as nat);
    }
}

/// Parsing the decimal text of a number gives the number back.
pub proof fn law_parse_decimal_roundtrip(n: u32)
    ensures
        parsed_u32(decimal(n as nat)) == Some(n),
{
    lemma_decimal_digits(n as nat);
    let d = decimal(n as nat);
    assert(is_digit(d[0]));
    assert(unsigned_digits(d) == d);
}

/// Labelling a label gives it back: a label that does not end in a hyphen
/// (truncation to 63 characters can leave one there) is its own label.
pub proof fn law_dns_label_idempotent(input: Seq<char>)
    requires
        dns_label_text(input).last() != '-',
    ensures
        dns_label_text(dns_label_text(input)) == dns_label_text(input),
{
    lemma_dns_label_shape(input);
    lemma_dns_label_of_label(dns_label_text(input));
}

/// The plan over two node lists together is the two plans joined: a node's
/// verdict and reasons depend on that node alone.
pub proof fn law_plan_splits_over_nodes(a: Seq<NodeCapabilities>, b: Seq<NodeCapabilities>, ctx: PlanContext)
    ensures
        eligible_names(a + b, ctx) == eligible_names(a, ctx) + eligible_names(b, ctx),
        rejections(a + b, ctx) == rejections(a, ctx) + rejections(b, ctx),
    decreases b.len(),
{
    if b.len() == 0 {
        assert(a + b =~= a);
        assert(eligible_names(a, ctx) + eligible_names(b, ctx) =~= eligible_names(a, ctx));
        assert(rejections(a, ctx) + rejections(b, ctx) =~= rejections(a, ctx));
    } else {
        let b0 = b.drop_last();
        law_plan_splits_over_nodes(a, b0, ctx);
        assert((a + b).drop_last() =~= a + b0);
        assert((a + b).last() == b.last());
        assert(eligible_names(a, ctx) + eligible_names(b0, ctx).push(b.last().name@)
            =~= (eligible_names(a, ctx) + eligible_names(b0, ctx)).push(b.last().name@));
        let r = (b.last().name@, node_reasons(&b.last(), ctx));
        assert(rejections(a, ctx) + rejections(b0, ctx).push(r) =~= (rejections(a, ctx) + rejections(b0, ctx)).push(r));
    }
}

/// Accelerator totals add up over containers: the containers of two lists
/// together ask for the sum of what each list asks for, and a resource is
/// requested by the joined list exactly when one of the two requests it.
pub proof fn law_accelerator_totals_add(cs1: Seq<Container>, cs2: Seq<Container>, k: Seq<char>)
    ensures
        accelerator_total(cs1 + cs2, k) == accelerator_total(cs1, k) + accelerator_total(cs2, k),
        accelerator_requested(cs1 + cs2, k) <==> (accelerator_requested(cs1, k) || accelerator_requested(cs2, k)),
    decreases cs2.len(),
{
    let cs = cs1 + cs2;
    if cs2.len() == 0 {
        assert(cs =~= cs1);
    } else {
        law_accelerator_totals_add(cs1, cs2.drop_last(), k);
        assert(cs.drop_last() =~= cs1 + cs2.drop_last());
    }
    if accelerator_requested(cs, k) {
        let (i, j) = choose|i: int, j: int|
            0 <= i < cs.len() && 0 <= j < container_requests(cs[i]).len()
                && #[trigger] counts_for(container_requests(cs[i])[j], k);
        if i < cs1.len() {
            assert(cs[i] == cs1[i]);
            assert(counts_for(container_requests(cs1[i])[j], k));
        } else {
            assert(cs[i] == cs2[i - cs1.len()]);
            assert(counts_for(container_requests(cs2[i - cs1.len()])[j], k));
        }
    }
    if accelerator_requested(cs1, k) {
        let (i, j) = choose|i: int, j: int|
            0 <= i < cs1.len() && 0 <= j < container_requests(cs1[i]).len()
                && #[trigger] counts_for(container_requests(cs1[i])[j], k);
        assert(cs[i] == cs1[i]);
        assert(counts_for(container_requests(cs[i])[j], k));
    }
    if accelerator_requested(cs2, k) {
        let (i, j) = choose|i: int, j: int|
            0 <= i < cs2.len() && 0 <= j < container_requests(cs2[i]).len()
                && #[trigger] counts_for(container_requests(cs2[i])[j], k);
        assert(cs[i + cs1.len()] == cs2[i]);
        assert(counts_for(container_requests(cs[i + cs1.len()])[j], k));
    }
}

/// Every named container that adds to an accelerator total is among the
/// requesting containers.
pub proof fn law_contributors_are_requesters(cs: Seq<Container>, i: int, j: int, k: Seq<char>)
    requires
        0 <= i < cs.len(),
        cs[i].name is Some,
        0 <= j < container_requests(cs[i]).len(),
        counts_for(container_requests(cs[i])[j], k),
    ensures
        requesting_names(cs).contains(cs[i].name.unwrap()@),
    decreases cs.len(),
{
    assert(is_accelerator(container_requests(cs[i])[j].0));
    assert(requests_accelerator(cs[i]));
    let n = cs[i].name.unwrap()@;
    if i == cs.len() - 1 {
        let rest = requesting_names(cs.drop_last());
        assert(requesting_names(cs) == rest.push(n));
        assert(rest.push(n)[rest.len() as int] == n);
    } else {
        let init = cs.drop_last();
        assert(init[i] == cs[i]);
        law_contributors_are_requesters(init, i, j, k);
        let rest = requesting_names(init);
        let w = choose|w: int| 0 <= w < rest.len() && rest[w] == n;
        match cs.last().name {
            Some(m) => if requests_accelerator(cs.last()) {
                assert(rest.push(m@)[w] == n);
            },
            None => {},
        }
    }
}

/// Whether `es2` lists the entries of `es1` in another order: entry `i` of
/// `es2` is entry `p[i]` of `es1`, and `q` undoes `p`.
pub open spec fn is_reordering(es1: Seq<Seq<char>>, es2: Seq<Seq<char>>, p: Seq<int>, q: Seq<int>) -> bool {
    &&& es1.len() == es2.len()
    &&& p.len() == es2.len()
    &&& q.len() == es1.len()
    &&& forall|i: int| 0 <= i < es2.len() ==> 0 <= #[trigger] p[i] < es1.len() && es2[i] == es1[p[i]] && q[p[i]] == i
    &&& forall|j: int| 0 <= j < es1.len() ==> 0 <= #[trigger] q[j] < es2.len() && es1[j] == es2[q[j]] && p[q[j]] == j
}

proof fn lemma_valid_reordered(es1: Seq<Seq<char>>, es2: Seq<Seq<char>>, p: Seq<int>, q: Seq<int>)
    requires
        is_reordering(es1, es2, p, q),
        valid_entries(es1),
    ensures
        valid_entries(es2),
{
    assert forall|i: int| 0 <= i < es2.len() implies (#[trigger] first_eq_index(es2[i]) matches Some(x)
        && x != 0 && x + 1 != es2[i].len()) by {
        assert(es2[i] == es1[p[i]]);
        assert(first_eq_index(es1[p[i]]) is Some);
    }
    assert forall|i: int, j: int| 0 <= i < es2.len() && 0 <= j < es2.len() && i != j
        implies entry_resource(#[trigger] es2[i]) != entry_resource(#[trigger] es2[j]) by {
        assert(es2[i] == es1[p[i]]);
        assert(es2[j] == es1[p[j]]);
        assert(p[i] != p[j]);
        assert(entry_resource(es1[p[i]]) != entry_resource(es1[p[j]]));
    }
}

/// The order of `--device-class` entries does not matter: a reordered list
/// is accepted exactly when the original is, and then names the same class
/// for every resource, so that the sorted maps read from the two are equal.
pub proof fn law_device_class_order_irrelevant(es1: Seq<Seq<char>>, es2: Seq<Seq<char>>, p: Seq<int>, q: Seq<int>)
    requires
        is_reordering(es1, es2, p, q),
    ensures
        (first_fault(es1, es1.len() as int) is None) == (first_fault(es2, es2.len() as int) is None),
        first_fault(es1, es1.len() as int) is None ==> forall|k: Seq<char>|
            #[trigger] class_lookup(es1, k) == class_lookup(es2, k),
        first_fault(es1, es1.len() as int) is None ==> forall|m1: Seq<(Seq<char>, Seq<char>)>, m2: Seq<(Seq<char>, Seq<char>)>|
            #![trigger sorted_keys(m1), sorted_keys(m2)]
            sorted_keys(m1) && sorted_keys(m2)
            && (forall|k: Seq<char>| #[trigger] lookup(m1, k) == class_lookup(es1, k))
            && (forall|k: Seq<char>| #[trigger] lookup(m2, k) == class_lookup(es2, k)) ==> m1 == m2,
{
    lemma_no_fault_valid(es1);
    lemma_no_fault_valid(es2);
    if valid_entries(es1) {
        lemma_valid_reordered(es1, es2, p, q);
    }
    if valid_entries(es2) {
        lemma_valid_reordered(es2, es1, q, p);
    }
    if valid_entries(es1) {
        assert forall|k: Seq<char>| #[trigger] class_lookup(es1, k) == class_lookup(es2, k) by {
            if exists|i: int| 0 <= i < es1.len() && first_eq_index(#[trigger] es1[i]) is Some && entry_resource(es1[i]) == k {
                let i = choose|i: int| 0 <= i < es1.len() && first_eq_index(#[trigger] es1[i]) is Some && entry_resource(es1[i]) == k;
                lemma_class_lookup_valid(es1, i);
                assert(es2[q[i]] == es1[i]);
                lemma_class_lookup_valid(es2, q[i]);
            } else {
                lemma_class_lookup_absent(es1, k);
                assert forall|j: int| 0 <= j < es2.len() && first_eq_index(#[trigger] es2[j]) is Some
                    implies entry_resource(es2[j]) != k by {
                    assert(es2[j] == es1[p[j]]);
                }
                lemma_class_lookup_absent(es2, k);
            }
        }
        assert forall|m1: Seq<(Seq<char>, Seq<char>)>, m2: Seq<(Seq<char>, Seq<char>)>|
            sorted_keys(m1) && sorted_keys(m2)
            && (forall|k: Seq<char>| #[trigger] lookup(m1, k) == class_lookup(es1, k))
            && (forall|k: Seq<char>| #[trigger] lookup(m2, k) == class_lookup(es2, k)) implies m1 == m2 by {
            assert forall|k: Seq<char>| lookup(m1, k) == lookup(m2, k) by {
                assert(class_lookup(es1, k) == class_lookup(es2, k));
            }
            lemma_sorted_extensional(m1, m2);
        }
    }
}

/// The claims a patched Pod's spec (under any tags) holds.
pub open spec fn spec_claims(pod: YamlView) -> Option<YamlView> {
    match untag(pod) {
        YamlView::Mapping(pe) => match map_get(pe, "spec"@) {
            Some(sv) => match untag(sv) {
                YamlView::Mapping(se) => map_get(se, "resourceClaims"@),
                _ => None,
            },
            None => None,
        },
        _ => None,
    }
}

/// A bundle patches the Pod with the name of the template it compiled: for
/// the template `t` that the compiler returns for name `tname`, patching with
/// `t`'s own name is patching with `tname`, and a successful patch leaves the
/// Pod's spec with one claim, on that template.
pub proof fn law_bundle_patch_uses_template_name(
    pod_yaml: YamlView,
    t: &ResourceClaimTemplate,
    req: Seq<(Seq<char>, u32)>,
    classes: Seq<(Seq<char>, Seq<char>)>,
    tname: Seq<char>,
    keys: Seq<Seq<char>>,
    sel: Seq<Seq<char>>,
)
    requires
        is_claim_template(t, req, classes, tname),
    ensures
        patch_outcome(pod_yaml, t.metadata.name@, keys, sel) == patch_outcome(pod_yaml, tname, keys, sel),
        patch_outcome(pod_yaml, tname, keys, sel) matches Ok(v)
            ==> spec_claims(v) == Some(YamlView::List(seq![pod_claim(t.metadata.name@)])),
{
    reveal_strlit("resourceClaims");
    reveal_strlit("containers");
    if patch_outcome(pod_yaml, tname, keys, sel) is Ok {
        let pe = match untag(pod_yaml) {
            YamlView::Mapping(pe) => pe,
            _ => Seq::empty(),
        };
        let sv = map_get(pe, "spec"@).unwrap();
        let se = match untag(sv) {
            YamlView::Mapping(se) => se,
            _ => Seq::empty(),
        };
        let claims = YamlView::List(seq![pod_claim(tname)]);
        let se1 = map_set(se, "resourceClaims"@, claims);
        let cv = map_get(se1, "containers"@).unwrap();
        let items = match untag(cv) {
            YamlView::List(items) => items,
            _ => Seq::empty(),
        };
        let done = match patch_items(items, keys, sel) {
            Ok(d) => d,
            Err(_) => Seq::empty(),
        };
        let se2 = map_set(se1, "containers"@, retag(cv, YamlView::List(done)));
        let nsv = retag(sv, YamlView::Mapping(se2));
        let pe2 = map_set(pe, "spec"@, nsv);
        assert(patch_outcome(pod_yaml, tname, keys, sel) == Ok::<YamlView, crate::patch::PatchFault>(
            retag(pod_yaml, YamlView::Mapping(pe2))));
        lemma_untag_retag(pod_yaml, YamlView::Mapping(pe2));
        lemma_map_set_get(pe, "spec"@, nsv, "spec"@);
        lemma_untag_retag(sv, YamlView::Mapping(se2));
        assert("containers"@ != "resourceClaims"@) by {
            assert("containers"@[0] != "resourceClaims"@[0]);
        }
        lemma_map_set_get(se1, "containers"@, retag(cv, YamlView::List(done)), "resourceClaims"@);
        lemma_map_set_get(se, "resourceClaims"@, claims, "resourceClaims"@);
    }
}

proof fn lemma_key_index_at(es: Seq<(YamlView, YamlView)>, name: Seq<char>, w: int)
    requires
        0 <= w < es.len(),
        es[w].0 == YamlView::Text(name),
        forall|x: int| 0 <= x < w ==> es[x].0 != YamlView::Text(name),
    ensures
        key_index(es, name) == Some(w),
{
    lemma_key_index(es, name);
}

/// Removing key `k` from a mapping without repeated keys leaves no entry
/// under `k`, keeps the value under every other key, and shortens the
/// mapping by exactly the one entry removed.
pub proof fn law_map_remove_keeps_other_keys(es: Seq<(YamlView, YamlView)>, k: Seq<char>, j: Seq<char>)
    requires
        unique_keys(es),
    ensures
        map_get(map_swap_remove(es, k), k) is None,
        j != k ==> map_get(map_swap_remove(es, k), j) == map_get(es, j),
        map_swap_remove(es, k).len() == if map_get(es, k) is Some { es.len() - 1 } else { es.len() as int },
{
    let t = map_swap_remove(es, k);
    lemma_key_index(es, k);
    lemma_key_index(es, j);
    lemma_key_index(t, k);
    lemma_key_index(t, j);
    match key_index(es, k) {
        Some(i) => {
            let last = es.len() - 1;
            assert(t.len() == last);
            assert forall|x: int| 0 <= x < t.len() implies t[x] == (if x == i { es[last] } else { es[x] }) by {}
            // no entry of t is under k
            match key_index(t, k) {
                Some(w) => {
                    if w == i {
                        assert(es[last].0 != es[i].0);
                    } else {
                        assert(es[w].0 != es[i].0);
                    }
                },
                None => {},
            }
            if j != k {
                match key_index(es, j) {
                    Some(w) => {
                        assert(w != i);
                        if w == last {
                            assert(t[i] == es[w]);
                            assert forall|x: int| 0 <= x < i implies t[x].0 != YamlView::Text(j) by {
                                assert(t[x] == es[x]);
                            }
                            lemma_key_index_at(t, j, i);
                        } else {
                            assert(t[w] == es[w]);
                            assert forall|x: int| 0 <= x < w implies t[x].0 != YamlView::Text(j) by {
                                if x == i {
                                    assert(es[last].0 != es[w].0);
                                } else {
                                    assert(t[x] == es[x]);
                                }
                            }
                            lemma_key_index_at(t, j, w);
                        }
                    },
                    None => {
                        match key_index(t, j) {
                            Some(w) => {
                                if w == i {
                                    assert(es[last].0 == YamlView::Text(j));
                                } else {
                                    assert(es[w].0 == YamlView::Text(j));
                                }
                            },
                            None => {},
                        }
                    },
                }
            }
        },
        None => {},
    }
}

/// Removing a list of keys from a mapping without repeated keys keeps the
/// value under every key that is not in the list.
pub proof fn law_strip_keys_keeps_other_keys(vals: Seq<(YamlView, YamlView)>, keys: Seq<Seq<char>>, j: Seq<char>)
    requires
        unique_keys(vals),
        !keys.contains(j),
    ensures
        map_get(strip_keys(vals, keys), j) == map_get(vals, j),
        unique_keys(strip_keys(vals, keys)),
    decreases keys.len(),
{
    if keys.len() > 0 {
        let init = keys.drop_last();
        assert(!init.contains(j)) by {
            if init.contains(j) {
                let x = choose|x: int| 0 <= x < init.len() && init[x] == j;
                assert(keys[x] == j);
            }
        }
        law_strip_keys_keeps_other_keys(vals, init, j);
        assert(keys.last() != j) by {
            assert(keys[keys.len() - 1] == keys.last());
        }
        lemma_map_swap_remove(strip_keys(vals, init), keys.last());
        law_map_remove_keeps_other_keys(strip_keys(vals, init), keys.last(), j);
    }
}

/// The mapping under `field` of a container's resources, tags looked through.
pub open spec fn resource_field(c: YamlView, field: Seq<char>) -> Option<Seq<(YamlView, YamlView)>> {
    match untag(c) {
        YamlView::Mapping(ce) => match map_get(ce, "resources"@) {
            Some(rv) => match untag(rv) {
                YamlView::Mapping(re) => match map_get(re, field) {
                    Some(fv) => match untag(fv) {
                        YamlView::Mapping(vals) => Some(vals),
                        _ => None,
                    },
                    None => None,
                },
                _ => None,
            },
            None => None,
        },
        _ => None,
    }
}

/// Patching a selected container removes only the converted resources from
/// its requests and limits: every other resource keeps its value (where the
/// mapping holds no repeated keys, as YAML mappings do not).
pub proof fn law_patch_keeps_other_resources(
    c: YamlView,
    keys: Seq<Seq<char>>,
    selected: Seq<Seq<char>>,
    field: Seq<char>,
    j: Seq<char>,
)
    requires
        patch_container(c, keys, selected) is Ok,
        field == "requests"@ || field == "limits"@,
        !keys.contains(j),
        match untag(c) {
            YamlView::Mapping(ce) => match map_get(ce, "resources"@) {
                Some(rv) => match untag(rv) {
                    YamlView::Mapping(re) => field_keys_unique(re, "requests"@) && field_keys_unique(re, "limits"@),
                    _ => true,
                },
                None => true,
            },
            _ => true,
        },
    ensures
        match resource_field(c, field) {
            Some(before) => match patch_container(c, keys, selected) {
                Ok(p) => resource_field(p, field) matches Some(after) && map_get(after, j) == map_get(before, j),
                Err(_) => false,
            },
            None => true,
        },
{
    reveal_strlit("requests");
    reveal_strlit("limits");
    reveal_strlit("claims");
    reveal_strlit("resources");
    if resource_field(c, field) is Some && (item_name(c) matches Some(n) && selected.contains(n)) {
        let ce = match untag(c) {
            YamlView::Mapping(ce) => ce,
            _ => Seq::empty(),
        };
        let rv = map_get(ce, "resources"@).unwrap();
        let re = match untag(rv) {
            YamlView::Mapping(re) => re,
            _ => Seq::empty(),
        };
        let fv = map_get(re, field).unwrap();
        let vals = match untag(fv) {
            YamlView::Mapping(vals) => vals,
            _ => Seq::empty(),
        };
        let claims = YamlView::List(seq![container_claim()]);
        let re1 = map_set(re, "claims"@, claims);
        assert("requests"@ != "claims"@) by { assert("requests"@.len() != "claims"@.len()); }
        assert("requests"@ != "limits"@) by { assert("requests"@.len() != "limits"@.len()); }
        assert("limits"@ != "claims"@) by { assert("limits"@[0] != "claims"@[0]); }
        lemma_map_set_get(re, "claims"@, claims, "requests"@);
        lemma_map_set_get(re, "claims"@, claims, "limits"@);
        let re_a = strip_field(re1, "requests"@, keys);
        lemma_strip_field(re1, "requests"@, keys, "limits"@);
        let re2 = strip_field(re_a, "limits"@, keys);
        lemma_strip_field(re_a, "limits"@, keys, "requests"@);
        let stripped = YamlView::Mapping(strip_keys(vals, keys));
        lemma_untag_retag(fv, stripped);
        if field == "requests"@ {
            lemma_map_set_get(re1, "requests"@, retag(fv, stripped), "requests"@);
            assert(map_get(re2, field) == Some(retag(fv, stripped)));
        } else {
            lemma_map_set_get(re_a, "limits"@, retag(fv, stripped), "limits"@);
            assert(map_get(re2, field) == Some(retag(fv, stripped)));
        }
        law_strip_keys_keeps_other_keys(vals, keys, j);
        let nrv = retag(rv, YamlView::Mapping(re2));
        lemma_untag_retag(rv, YamlView::Mapping(re2));
        let pe = map_set(ce, "resources"@, nrv);
        lemma_map_set_get(ce, "resources"@, nrv, "resources"@);
        lemma_untag_retag(c, YamlView::Mapping(pe));
    }
}

/// Patching a container list patches each container on its own: it succeeds
/// exactly when every container can be patched, and then item `i` of the
/// result is the patch of item `i`, whatever its position.
pub proof fn law_patch_items_itemwise(items: Seq<YamlView>, keys: Seq<Seq<char>>, selected: Seq<Seq<char>>)
    ensures
        patch_items(items, keys, selected) is Ok <==> forall|i: int| 0 <= i < items.len()
            ==> #[trigger] patch_container(items[i], keys, selected) is Ok,
        patch_items(items, keys, selected) matches Ok(done) ==> done.len() == items.len()
            && forall|i: int| 0 <= i < items.len()
                ==> #[trigger] patch_container(items[i], keys, selected) == Ok::<YamlView, crate::patch::PatchFault>(done[i]),
    decreases items.len(),
{
    if items.len() > 0 {
        let init = items.drop_last();
        law_patch_items_itemwise(init, keys, selected);
        assert forall|i: int| 0 <= i < init.len() implies init[i] == items[i] by {}
        if forall|i: int| 0 <= i < items.len() ==> #[trigger] patch_container(items[i], keys, selected) is Ok {
            assert forall|i: int| 0 <= i < init.len() implies #[trigger] patch_container(init[i], keys, selected) is Ok by {
                assert(patch_container(items[i], keys, selected) is Ok);
            }
            assert(patch_container(items[items.len() - 1], keys, selected) is Ok);
        }
        if patch_items(items, keys, selected) is Ok {
            let done0 = patch_items(init, keys, selected)->Ok_0;
            assert forall|i: int| 0 <= i < items.len() implies #[trigger] patch_container(items[i], keys, selected) is Ok by {
                if i < init.len() {
                    assert(patch_container(init[i], keys, selected) is Ok);
                }
            }
            match patch_items(items, keys, selected) {
                Ok(done) => {
                    assert(done == done0.push(patch_container(items.last(), keys, selected)->Ok_0));
                    assert forall|i: int| 0 <= i < items.len() implies #[trigger] patch_container(items[i], keys, selected)
                        == Ok::<YamlView, crate::patch::PatchFault>(done[i]) by {
                        if i < init.len() {
                            assert(patch_container(init[i], keys, selected) == Ok::<YamlView, crate::patch::PatchFault>(done0[i]));
                        }
                    }
                },
                Err(_) => {},
            }
        } else {
            if forall|i: int| 0 <= i < items.len() ==> #[trigger] patch_container(items[i], keys, selected) is Ok {
                assert(patch_container(items[items.len() - 1], keys, selected) is Ok);
            }
        }
    }
}

/// The container list of a Pod manifest: `spec.containers`, tags looked through.
pub open spec fn pod_container_list(pod: YamlView) -> Option<Seq<YamlView>> {
    match untag(pod) {
        YamlView::Mapping(pe) => match map_get(pe, "spec"@) {
            Some(sv) => match untag(sv) {
                YamlView::Mapping(se) => match map_get(se, "containers"@) {
                    Some(cv) => match untag(cv) {
                        YamlView::List(items) => Some(items),
                        _ => None,
                    },
                    None => None,
                },
                _ => None,
            },
            None => None,
        },
        _ => None,
    }
}

/// A patched Pod keeps its containers in place and patches every one of
/// them: its container list is as long as the original's, and container `i`
/// of it is the patch of container `i` of the original, at any position.
pub proof fn law_patched_pod_patches_every_container(
    pod: YamlView,
    template: Seq<char>,
    keys: Seq<Seq<char>>,
    selected: Seq<Seq<char>>,
)
    ensures
        patch_outcome(pod, template, keys, selected) matches Ok(v) ==> (pod_container_list(pod) matches Some(items)
            && pod_container_list(v) matches Some(out) && out.len() == items.len()
            && forall|i: int| 0 <= i < items.len()
                ==> #[trigger] patch_container(items[i], keys, selected) == Ok::<YamlView, crate::patch::PatchFault>(out[i])),
{
    reveal_strlit("resourceClaims");
    reveal_strlit("containers");
    if patch_outcome(pod, template, keys, selected) is Ok {
        let pe = match untag(pod) {
            YamlView::Mapping(pe) => pe,
            _ => Seq::empty(),
        };
        let sv = map_get(pe, "spec"@).unwrap();
        let se = match untag(sv) {
            YamlView::Mapping(se) => se,
            _ => Seq::empty(),
        };
        let claims = YamlView::List(seq![pod_claim(template)]);
        let se1 = map_set(se, "resourceClaims"@, claims);
        assert("containers"@ != "resourceClaims"@) by {
            assert("containers"@[0] != "resourceClaims"@[0]);
        }
        lemma_map_set_get(se, "resourceClaims"@, claims, "containers"@);
        let cv = map_get(se1, "containers"@).unwrap();
        let items = match untag(cv) {
            YamlView::List(items) => items,
            _ => Seq::empty(),
        };
        assert(pod_container_list(pod) == Some(items));
        let done = match patch_items(items, keys, selected) {
            Ok(d) => d,
            Err(_) => Seq::empty(),
        };
        law_patch_items_itemwise(items, keys, selected);
        let ncv = retag(cv, YamlView::List(done));
        let se2 = map_set(se1, "containers"@, ncv);
        let nsv = retag(sv, YamlView::Mapping(se2));
        let pe2 = map_set(pe, "spec"@, nsv);
        lemma_untag_retag(pod, YamlView::Mapping(pe2));
        lemma_map_set_get(pe, "spec"@, nsv, "spec"@);
        lemma_untag_retag(sv, YamlView::Mapping(se2));
        lemma_map_set_get(se1, "containers"@, ncv, "containers"@);
        lemma_untag_retag(cv, YamlView::List(done));
        assert(pod_container_list(retag(pod, YamlView::Mapping(pe2))) == Some(done));
    }
}

/// Whether nothing speaks against placing the workload on the node.
pub open spec fn node_fits(ctx: PlanContext) -> spec_fn(NodeCapabilities) -> bool {
    |n: NodeCapabilities| node_reasons(&n, ctx).len() == 0
}

/// Whether something speaks against placing the workload on the node.
pub open spec fn node_unfit(ctx: PlanContext) -> spec_fn(NodeCapabilities) -> bool {
    |n: NodeCapabilities| node_reasons(&n, ctx).len() > 0
}

/// A plan lists as eligible exactly the nodes with no reason against them,
/// by name and in inventory order, and rejects exactly the others, each with
/// its reasons, in inventory order.
pub proof fn law_plan_sorts_nodes_by_reasons(nodes: Seq<NodeCapabilities>, ctx: PlanContext)
    ensures
        eligible_names(nodes, ctx) == nodes.filter(node_fits(ctx)).map_values(|n: NodeCapabilities| n.name@),
        rejections(nodes, ctx) == nodes.filter(node_unfit(ctx)).map_values(
            |n: NodeCapabilities| (n.name@, node_reasons(&n, ctx)),
        ),
    decreases nodes.len(),
{
    if nodes.len() == 0 {
        assert(nodes.filter(node_fits(ctx)).map_values(|n: NodeCapabilities| n.name@) =~= Seq::<Seq<char>>::empty());
        assert(nodes.filter(node_unfit(ctx)).map_values(|n: NodeCapabilities| (n.name@, node_reasons(&n, ctx)))
            =~= Seq::<(Seq<char>, Seq<Seq<char>>)>::empty());
    } else {
        let init = nodes.drop_last();
        law_plan_sorts_nodes_by_reasons(init, ctx);
        let last = nodes.last();
        reveal(Seq::filter);
        let fe = init.filter(node_fits(ctx));
        let fr = init.filter(node_unfit(ctx));
        assert(nodes.filter(node_fits(ctx)) == if node_reasons(&last, ctx).len() == 0 { fe.push(last) } else { fe });
        assert(nodes.filter(node_unfit(ctx)) == if node_reasons(&last, ctx).len() > 0 { fr.push(last) } else { fr });
        assert(fe.push(last).map_values(|n: NodeCapabilities| n.name@)
            =~= fe.map_values(|n: NodeCapabilities| n.name@).push(last.name@));
        assert(fr.push(last).map_values(|n: NodeCapabilities| (n.name@, node_reasons(&n, ctx)))
            =~= fr.map_values(|n: NodeCapabilities| (n.name@, node_reasons(&n, ctx))).push(
            (last.name@, node_reasons(&last, ctx))));
    }
}

/// Whether the Pod's spec names the RuntimeClass `rc`.
pub open spec fn names_runtime_class(pod: &Pod, rc: Seq<char>) -> bool {
    pod.spec matches Some(s) && (s.runtime_class_name matches Some(n) && n@ == rc)
}

/// Whether some finding has the given code.
pub open spec fn has_code(f: Seq<(Severity, Seq<char>, Seq<char>, Seq<char>)>, code: Seq<char>) -> bool {
    exists|i: int| 0 <= i < f.len() && #[trigger] f[i].1 == code
}

proof fn lemma_has_code_concat(
    a: Seq<(Severity, Seq<char>, Seq<char>, Seq<char>)>,
    b: Seq<(Severity, Seq<char>, Seq<char>, Seq<char>)>,
    code: Seq<char>,
)
    ensures
        has_code(a + b, code) <==> (has_code(a, code) || has_code(b, code)),
{
    let c = a + b;
    if has_code(c, code) {
        let i = choose|i: int| 0 <= i < c.len() && #[trigger] c[i].1 == code;
        if i < a.len() {
            assert(a[i] == c[i]);
        } else {
            assert(b[i - a.len()] == c[i]);
        }
    }
    if has_code(a, code) {
        let i = choose|i: int| 0 <= i < a.len() && #[trigger] a[i].1 == code;
        assert(c[i] == a[i]);
    }
    if has_code(b, code) {
        let i = choose|i: int| 0 <= i < b.len() && #[trigger] b[i].1 == code;
        assert(c[i + a.len()] == b[i]);
    }
}

/// A check reports a RuntimeClass mismatch exactly when the Pod's spec does
/// not name the RuntimeClass given (an absent name is a mismatch too), and
/// then as its first finding.
pub proof fn law_runtime_class_mismatch_reported(pod: &Pod, rc: Seq<char>, node: &NodeCapabilities, hv: Option<Seq<char>>)
    ensures
        has_code(check_findings(pod, rc, node, hv), "runtime-class-mismatch"@) <==> !names_runtime_class(pod, rc),
        !names_runtime_class(pod, rc) ==> check_findings(pod, rc, node, hv)[0].1 == "runtime-class-mismatch"@,
{
    reveal_strlit("runtime-class-mismatch");
    reveal_strlit("unknown-capabilities-version");
    reveal_strlit("kvm-unavailable");
    reveal_strlit("hypervisor-unavailable");
    reveal_strlit("tee-available");
    reveal_strlit("tee-path-unverified");
    let code = "runtime-class-mismatch"@;
    let f = check_findings(pod, rc, node, hv);
    let qemu = hv == Some("qemu"@);
    let tee = node.tee@;
    let a = if !runtime_class_matches(pod, rc) {
        seq![(
            Severity::Warning,
            "runtime-class-mismatch"@,
            "The manifest RuntimeClassName does not match --runtime-class."@,
            "Use the RuntimeClass selected by the deployment."@,
        )]
    } else {
        Seq::empty()
    };
    let b = if node.api_version@ != "teelens.io/node-capabilities/v1"@ {
        seq![(
            Severity::Warning,
            "unknown-capabilities-version"@,
            node.api_version@ + " is not the supported NodeCapabilities version."@,
            "Regenerate node capabilities using a v1-compatible collector."@,
        )]
    } else {
        Seq::empty()
    };
    let c = if !node.kvm {
        seq![(
            Severity::Error,
            "kvm-unavailable"@,
            "KVM is unavailable on the selected node."@,
            "Schedule onto a node with usable KVM."@,
        )]
    } else {
        Seq::empty()
    };
    let d = if !advertises(node, hv) {
        seq![(
            Severity::Error,
            "hypervisor-unavailable"@,
            "The Kata-selected hypervisor is not advertised by the node."@,
            "Install the selected hypervisor or choose a compatible Kata configuration."@,
        )]
    } else {
        Seq::empty()
    };
    let e = if qemu && tee.len() > 0 {
        seq![(
            Severity::Info,
            "tee-available"@,
            "Node supports confidential execution via "@ + tee_list_text(tee) + "."@,
            "Verify attestation policy and measurement references before deployment."@,
        )]
    } else if hv is Some {
        seq![(
            Severity::Warning,
            "tee-path-unverified"@,
            "This hypervisor and node combination has no verified confidential-execution path in TeeLens v1."@,
            "Use a supported QEMU TDX/SEV-SNP configuration or contribute a validated adapter."@,
        )]
    } else {
        Seq::empty()
    };
    assert(f == a + b + c + d + e);
    assert(!has_code(b, code)) by {
        if has_code(b, code) {
            let i = choose|i: int| 0 <= i < b.len() && #[trigger] b[i].1 == code;
            assert(b[i].1[0] != code[0]);
        }
    }
    assert(!has_code(c, code)) by {
        if has_code(c, code) {
            let i = choose|i: int| 0 <= i < c.len() && #[trigger] c[i].1 == code;
            assert(c[i].1[0] != code[0]);
        }
    }
    assert(!has_code(d, code)) by {
        if has_code(d, code) {
            let i = choose|i: int| 0 <= i < d.len() && #[trigger] d[i].1 == code;
            assert(d[i].1[0] != code[0]);
        }
    }
    assert(!has_code(e, code)) by {
        if has_code(e, code) {
            let i = choose|i: int| 0 <= i < e.len() && #[trigger] e[i].1 == code;
            assert(e[i].1[0] != code[0]);
        }
    }
    lemma_has_code_concat(a, b, code);
    lemma_has_code_concat(a + b, c, code);
    lemma_has_code_concat(a + b + c, d, code);
    lemma_has_code_concat(a + b + c + d, e, code);
    if !names_runtime_class(pod, rc) {
        assert(a.len() == 1);
        assert(f[0] == a[0]);
        assert(has_code(a, code)) by {
            assert(a[0].1 == code);
        }
    } else {
        assert(a.len() == 0);
        assert(!has_code(a, code));
    }
}

proof fn lemma_lookup_entry<W>(s: Seq<(Seq<char>, W)>, k: Seq<char>)
    ensures
        lookup(s, k) matches Some(v) ==> exists|i: int| 0 <= i < s.len() && #[trigger] s[i] == (k, v),
    decreases s.len(),
{
    if s.len() > 0 && s[0].0 != k {
        lemma_lookup_entry(s.drop_first(), k);
        if lookup(s, k) is Some {
            let v = lookup(s, k)->Some_0;
            let i = choose|i: int| 0 <= i < s.drop_first().len() && #[trigger] s.drop_first()[i] == (k, v);
            assert(s[i + 1] == (k, v));
        }
    } else if s.len() > 0 {
        assert(s[0] == (k, s[0].1));
    }
}

/// The placement manifest's attestation policy is `v` exactly when the Pod
/// has an annotation `teelens.io/attestation-policy` with value `v`, whatever
/// other annotations it has.
pub proof fn law_attestation_policy_is_the_annotation(pod: &Pod, v: Seq<char>)
    requires
        match pod.metadata {
            Some(m) => sorted_keys(m.annotations@),
            None => true,
        },
    ensures
        attestation_policy_of(pod) == Some(v) <==> match pod.metadata {
            Some(m) => exists|i: int| 0 <= i < m.annotations@.len()
                && #[trigger] m.annotations@[i] == ("teelens.io/attestation-policy"@, v),
            None => false,
        },
{
    match pod.metadata {
        Some(m) => {
            let a = m.annotations@;
            let k = "teelens.io/attestation-policy"@;
            lemma_lookup_entry(a, k);
            if exists|i: int| 0 <= i < a.len() && #[trigger] a[i] == (k, v) {
                let i = choose|i: int| 0 <= i < a.len() && #[trigger] a[i] == (k, v);
                lemma_lookup_sorted_index(a, i);
            }
        },
        None => {},
    }
}

} // verus!
