//! Accelerator requests of a Pod: which resources count as accelerators,
//! how much of each the Pod asks for, and which containers ask.
use vstd::prelude::*;
use crate::text::{has_infix, str_contains, parsed_u32, parse_u32};
use crate::sorted_map::{SortedMap, lookup, sorted_keys, lemma_sorted_extensional};
use crate::model::{Pod, Container, pod_containers, container_requests};

verus! {

/// A resource whose name mentions `gpu` or `accelerator`.
pub open spec fn is_accelerator(r: Seq<char>) -> bool {
    has_infix(r, "gpu"@) || has_infix(r, "accelerator"@)
}

/// Whether the resource named `r` is an accelerator resource.
pub fn is_accelerator_resource(r: &str) -> (b: bool)
    ensures
        b == is_accelerator(r@),
{
    str_contains(r, "gpu") || str_contains(r, "accelerator")
}

/// Whether a request entry asks for a countable amount of accelerator `k`.
pub open spec fn counts_for(e: (Seq<char>, Seq<char>), k: Seq<char>) -> bool {
    e.0 == k && is_accelerator(k) && parsed_u32(e.1) is Some
}

/// The amount of `k` that a list of requests asks for.
pub open spec fn request_sum(reqs: Seq<(Seq<char>, Seq<char>)>, k: Seq<char>) -> nat
    decreases reqs.len(),
{
    if reqs.len() == 0 {
        0
    } else {
        request_sum(reqs.drop_last(), k) + if counts_for(reqs.last(), k) {
            parsed_u32(reqs.last().1).unwrap() as nat
        } else {
            0
        }
    }
}

/// The amount of accelerator `k` that the containers ask for together.
pub open spec fn accelerator_total(cs: Seq<Container>, k: Seq<char>) -> nat
    decreases cs.len(),
{
    if cs.len() == 0 {
        0
    } else {
        accelerator_total(cs.drop_last(), k) + request_sum(container_requests(cs.last()), k)
    }
}

/// Whether some container asks for a countable amount of accelerator `k`
/// (a request of `0` counts).
pub open spec fn accelerator_requested(cs: Seq<Container>, k: Seq<char>) -> bool {
    exists|i: int, j: int|
        0 <= i < cs.len() && 0 <= j < container_requests(cs[i]).len()
            && #[trigger] counts_for(container_requests(cs[i])[j], k)
}

/// The accelerator totals of a Pod, as a map lookup describes them.
pub open spec fn requested_lookup(pod: &Pod, k: Seq<char>) -> Option<u32> {
    if accelerator_requested(pod_containers(pod), k) {
        Some(accelerator_total(pod_containers(pod), k) as u32)
    } else {
        None
    }
}

/// The accelerator totals of a Pod in ascending resource order: the one
/// sorted entry list whose lookups are `requested_lookup`.
pub open spec fn requested_seq(pod: &Pod) -> Seq<(Seq<char>, u32)> {
    choose|s: Seq<(Seq<char>, u32)>| sorted_keys(s) && forall|k: Seq<char>|
        #[trigger] lookup(s, k) == requested_lookup(pod, k)
}

/// No accelerator total of the Pod exceeds `u32::MAX`.
pub open spec fn accelerators_fit(pod: &Pod) -> bool {
    forall|k: Seq<char>| #[trigger] accelerator_total(pod_containers(pod), k) <= u32::MAX
}

proof fn lemma_request_sum_prefix(reqs: Seq<(Seq<char>, Seq<char>)>, j: int, k: Seq<char>)
    requires
        0 <= j <= reqs.len(),
    ensures
        request_sum(reqs.take(j), k) <= request_sum(reqs, k),
    decreases reqs.len() - j,
{
    if j < reqs.len() {
        lemma_request_sum_prefix(reqs, j + 1, k);
        assert(reqs.take(j + 1).drop_last() =~= reqs.take(j));
    } else {
        assert(reqs.take(j) =~= reqs);
    }
}

proof fn lemma_total_prefix(cs: Seq<Container>, i: int, k: Seq<char>)
    requires
        0 <= i < cs.len(),
    ensures
        accelerator_total(cs.take(i), k) + request_sum(container_requests(cs[i]), k)
            <= accelerator_total(cs, k),
    decreases cs.len() - i,
{
    if i + 1 < cs.len() {
        lemma_total_prefix(cs, i + 1, k);
        assert(cs.take(i + 2).drop_last() =~= cs.take(i + 1));
        assert(cs.take(i + 1).drop_last() =~= cs.take(i));
        assert(accelerator_total(cs.take(i + 1), k) == accelerator_total(cs.take(i), k)
            + request_sum(container_requests(cs[i]), k));
    } else {
        assert(cs.drop_last() =~= cs.take(i));
    }
}

proof fn lemma_requested_prefix_step(cs: Seq<Container>, i: int, k: Seq<char>)
    requires
        0 <= i < cs.len(),
    ensures
        accelerator_requested(cs.take(i + 1), k) <==> (accelerator_requested(cs.take(i), k)
            || exists|j: int| 0 <= j < container_requests(cs[i]).len()
                && #[trigger] counts_for(container_requests(cs[i])[j], k)),
{
    let p = cs.take(i + 1);
    if accelerator_requested(p, k) {
        let (a, b) = choose|a: int, b: int|
            0 <= a < p.len() && 0 <= b < container_requests(p[a]).len()
                && #[trigger] counts_for(container_requests(p[a])[b], k);
        if a < i {
            assert(counts_for(container_requests(cs.take(i)[a])[b], k));
        } else {
            assert(counts_for(container_requests(cs[i])[b], k));
        }
    }
    if accelerator_requested(cs.take(i), k) {
        let (a, b) = choose|a: int, b: int|
            0 <= a < cs.take(i).len() && 0 <= b < container_requests(cs.take(i)[a]).len()
                && #[trigger] counts_for(container_requests(cs.take(i)[a])[b], k);
        assert(counts_for(container_requests(p[a])[b], k));
    }
    if exists|j: int| 0 <= j < container_requests(cs[i]).len()
        && #[trigger] counts_for(container_requests(cs[i])[j], k) {
        let b = choose|j: int| 0 <= j < container_requests(cs[i]).len()
            && #[trigger] counts_for(container_requests(cs[i])[j], k);
        assert(counts_for(container_requests(p[i])[b], k));
    }
}

proof fn lemma_request_sum_zero(reqs: Seq<(Seq<char>, Seq<char>)>, k: Seq<char>)
    requires
        forall|b: int| 0 <= b < reqs.len() ==> !#[trigger] counts_for(reqs[b], k),
    ensures
        request_sum(reqs, k) == 0,
    decreases reqs.len(),
{
    if reqs.len() > 0 {
        assert(!counts_for(reqs[reqs.len() - 1], k));
        lemma_request_sum_zero(reqs.drop_last(), k);
    }
}

proof fn lemma_total_zero(cs: Seq<Container>, k: Seq<char>)
    requires
        !accelerator_requested(cs, k),
    ensures
        accelerator_total(cs, k) == 0,
    decreases cs.len(),
{
    if cs.len() > 0 {
        let last = cs.len() - 1;
        assert forall|b: int| 0 <= b < container_requests(cs[last]).len()
            implies !#[trigger] counts_for(container_requests(cs[last])[b], k) by {
            if counts_for(container_requests(cs[last])[b], k) {
                assert(accelerator_requested(cs, k));
            }
        }
        lemma_request_sum_zero(container_requests(cs[last]), k);
        assert(!accelerator_requested(cs.drop_last(), k)) by {
            if accelerator_requested(cs.drop_last(), k) {
                let (a, b) = choose|a: int, b: int|
                    0 <= a < cs.drop_last().len() && 0 <= b < container_requests(cs.drop_last()[a]).len()
                        && #[trigger] counts_for(container_requests(cs.drop_last()[a])[b], k);
                assert(counts_for(container_requests(cs[a])[b], k));
            }
        }
        lemma_total_zero(cs.drop_last(), k);
    }
}

/// Where nothing was counted yet for `k`, the running sum for it is zero.
proof fn lemma_partial_zero(cs: Seq<Container>, i: int, j: int, k: Seq<char>)
    requires
        0 <= i < cs.len(),
        0 <= j <= container_requests(cs[i]).len(),
        partial_lookup(cs, i, j, k) is None,
    ensures
        accelerator_total(cs.take(i), k) + request_sum(container_requests(cs[i]).take(j), k) == 0,
{
    let reqs = container_requests(cs[i]);
    lemma_total_zero(cs.take(i), k);
    assert forall|b: int| 0 <= b < reqs.take(j).len() implies !#[trigger] counts_for(reqs.take(j)[b], k) by {
        assert(reqs.take(j)[b] == reqs[b]);
    }
    lemma_request_sum_zero(reqs.take(j), k);
}

/// The state of the summation after containers `0..i` and the first `j`
/// requests of container `i`.
spec fn partial_lookup(cs: Seq<Container>, i: int, j: int, k: Seq<char>) -> Option<u32> {
    let reqs = container_requests(cs[i]);
    if accelerator_requested(cs.take(i), k)
        || exists|b: int| 0 <= b < j && #[trigger] counts_for(reqs[b], k) {
        Some((accelerator_total(cs.take(i), k) + request_sum(reqs.take(j), k)) as u32)
    } else {
        None
    }
}

/// Sums the countable accelerator requests of all containers by resource.
/// `None` exactly when some total does not fit in `u32` (where adding up
/// the requests would overflow).
pub fn accelerator_totals(pod: &Pod) -> (r: Option<SortedMap<u32>>)
    ensures
        r is None <==> !accelerators_fit(pod),
        r matches Some(m) ==> sorted_keys(m@) && forall|k: Seq<char>|
            #[trigger] lookup(m@, k) == requested_lookup(pod, k),
{
    let ghost cs = pod_containers(pod);
    let mut m: SortedMap<u32> = SortedMap::new();
    let empty: Vec<Container> = Vec::new();
    let containers: &Vec<Container> = match &pod.spec {
        Some(spec) => &spec.containers,
        None => &empty,
    };
    assert(containers@ == cs);
    let mut i: usize = 0;
    while i < containers.len()
        invariant
            containers@ == cs,
            cs == pod_containers(pod),
            i <= cs.len(),
            sorted_keys(m@),
            forall|k: Seq<char>| #[trigger] lookup(m@, k) == (if accelerator_requested(cs.take(i as int), k) {
                Some(accelerator_total(cs.take(i as int), k) as u32)
            } else {
                None
            }),
            forall|k: Seq<char>| #[trigger] accelerator_total(cs.take(i as int), k) <= u32::MAX,
        decreases cs.len() - i,
    {
        let c = &containers[i];
        let ghost reqs = container_requests(*c);
        proof {
            assert(reqs.take(0) =~= Seq::<(Seq<char>, Seq<char>)>::empty());
            assert forall|k: Seq<char>| #[trigger] lookup(m@, k) == partial_lookup(cs, i as int, 0, k) by {}
        }
        match &c.resources {
            Some(res) => match &res.requests {
                Some(requests) => {
                    let mut j: usize = 0;
                    while j < requests.len()
                        invariant
                            containers@ == cs,
                            cs == pod_containers(pod),
                            i < cs.len(),
                            cs[i as int] == *c,
                            reqs == container_requests(*c),
                            reqs == requests@,
                            j <= reqs.len(),
                            sorted_keys(m@),
                            forall|k: Seq<char>| #[trigger] lookup(m@, k) == partial_lookup(cs, i as int, j as int, k),
                            forall|k: Seq<char>| #[trigger] accelerator_total(cs.take(i as int), k)
                                + request_sum(reqs.take(j as int), k) <= u32::MAX,
                        decreases reqs.len() - j,
                    {
                        let key = requests.key_at(j);
                        let quantity = requests.value_at(j);
                        let ghost kk = key@;
                        proof {
                            assert(reqs.take(j + 1).drop_last() =~= reqs.take(j as int));
                        }
                        if is_accelerator_resource(key.as_str()) {
                            match parse_u32(quantity.as_str()) {
                                Some(q) => {
                                    let current: u32 = match m.get(key.as_str()) {
                                        Some(v) => *v,
                                        None => 0,
                                    };
                                    proof {
                                        if partial_lookup(cs, i as int, j as int, kk) is None {
                                            lemma_partial_zero(cs, i as int, j as int, kk);
                                        }
                                        assert(current == accelerator_total(cs.take(i as int), kk)
                                            + request_sum(reqs.take(j as int), kk));
                                    }
                                    match current.checked_add(q) {
                                        Some(sum) => {
                                            m.insert(key.clone(), sum);
                                            proof {
                                                assert(counts_for(reqs[j as int], kk));
                                                assert forall|k: Seq<char>| #[trigger] lookup(m@, k)
                                                    == partial_lookup(cs, i as int, j + 1, k) by {
                                                    if k != kk {
                                                        assert(!counts_for(reqs[j as int], k));
                                                        if exists|b: int| 0 <= b < j + 1 && #[trigger] counts_for(reqs[b], k) {
                                                            let b = choose|b: int| 0 <= b < j + 1 && #[trigger] counts_for(reqs[b], k);
                                                            assert(b < j);
                                                        }
                                                    }
                                                }
                                                assert forall|k: Seq<char>| #[trigger] accelerator_total(cs.take(i as int), k)
                                                    + request_sum(reqs.take(j + 1), k) <= u32::MAX by {
                                                    if k != kk {
                                                        assert(!counts_for(reqs[j as int], k));
                                                    } else {
                                                        if !(accelerator_requested(cs.take(i as int), k)
                                                            || exists|b: int| 0 <= b < j && #[trigger] counts_for(reqs[b], k)) {
                                                            assert(lookup(m@, k) is Some);
                                                        }
                                                    }
                                                }
                                            }
                                        },
                                        None => {
                                            proof {
                                                assert(counts_for(reqs[j as int], kk));
                                                lemma_request_sum_prefix(reqs, j + 1, kk);
                                                lemma_total_prefix(cs, i as int, kk);
                                                assert(accelerator_total(cs, kk) > u32::MAX);
                                            }
                                            return None;
                                        },
                                    }
                                },
                                None => {
                                    proof {
                                        assert forall|k: Seq<char>| #[trigger] lookup(m@, k)
                                            == partial_lookup(cs, i as int, j + 1, k) by {
                                            assert(!counts_for(reqs[j as int], k));
                                            if exists|b: int| 0 <= b < j + 1 && #[trigger] counts_for(reqs[b], k) {
                                                let b = choose|b: int| 0 <= b < j + 1 && #[trigger] counts_for(reqs[b], k);
                                                assert(b < j);
                                            }
                                        }
                                        assert forall|k: Seq<char>| #[trigger] accelerator_total(cs.take(i as int), k)
                                            + request_sum(reqs.take(j + 1), k) <= u32::MAX by {
                                            assert(!counts_for(reqs[j as int], k));
                                        }
                                    }
                                },
                            }
                        } else {
                            proof {
                                assert forall|k: Seq<char>| #[trigger] lookup(m@, k)
                                    == partial_lookup(cs, i as int, j + 1, k) by {
                                    assert(!counts_for(reqs[j as int], k));
                                    if exists|b: int| 0 <= b < j + 1 && #[trigger] counts_for(reqs[b], k) {
                                        let b = choose|b: int| 0 <= b < j + 1 && #[trigger] counts_for(reqs[b], k);
                                        assert(b < j);
                                    }
                                }
                                assert forall|k: Seq<char>| #[trigger] accelerator_total(cs.take(i as int), k)
                                    + request_sum(reqs.take(j + 1), k) <= u32::MAX by {
                                    assert(!counts_for(reqs[j as int], k));
                                }
                            }
                        }
                        j = j + 1;
                    }
                    proof {
                        assert(reqs.take(reqs.len() as int) =~= reqs);
                    }
                },
                None => {
                    assert(reqs.len() == 0);
                },
            },
            None => {
                assert(reqs.len() == 0);
            },
        }
        proof {
            assert(cs.take(i + 1).drop_last() =~= cs.take(i as int));
            assert forall|k: Seq<char>| #[trigger] lookup(m@, k) == (if accelerator_requested(cs.take(i + 1), k) {
                Some(accelerator_total(cs.take(i + 1), k) as u32)
            } else {
                None
            }) by {
                lemma_requested_prefix_step(cs, i as int, k);
                assert(reqs.take(reqs.len() as int) =~= reqs);
            }
            assert forall|k: Seq<char>| #[trigger] accelerator_total(cs.take(i + 1), k) <= u32::MAX by {
                assert(reqs.take(reqs.len() as int) =~= reqs);
                assert(accelerator_total(cs.take(i + 1), k) == accelerator_total(cs.take(i as int), k) + request_sum(reqs, k));
            }
        }
        i = i + 1;
    }
    assert(cs.take(cs.len() as int) =~= cs);
    Some(m)
}


/// The accelerator resources a Pod requests, with the sum over its
/// containers of each countable request, in ascending resource order.
/// Requests whose quantity is not a plain `u32` are not counted.
pub fn requested_accelerators(pod: &Pod) -> (m: SortedMap<u32>)
    requires
        accelerators_fit(pod),
    ensures
        m@ == requested_seq(pod),
        sorted_keys(m@),
        forall|k: Seq<char>| #[trigger] lookup(m@, k) == requested_lookup(pod, k),
{
    match accelerator_totals(pod) {
        Some(m) => {
            proof {
                let s = requested_seq(pod);
                assert(sorted_keys(m@) && forall|k: Seq<char>| #[trigger] lookup(m@, k) == requested_lookup(pod, k));
                assert forall|k: Seq<char>| lookup(m@, k) == lookup(s, k) by {}
                lemma_sorted_extensional(m@, s);
            }
            m
        },
        None => SortedMap::new(),
    }
}

/// Whether a container states a request for some accelerator resource.
pub open spec fn requests_accelerator(c: Container) -> bool {
    exists|j: int| 0 <= j < container_requests(c).len()
        && is_accelerator(#[trigger] container_requests(c)[j].0)
}

/// The names, in container order, of the named containers that request an
/// accelerator resource (whatever the quantity).
pub open spec fn requesting_names(cs: Seq<Container>) -> Seq<Seq<char>>
    decreases cs.len(),
{
    if cs.len() == 0 {
        Seq::empty()
    } else {
        let rest = requesting_names(cs.drop_last());
        match cs.last().name {
            Some(n) => if requests_accelerator(cs.last()) {
                rest.push(n@)
            } else {
                rest
            },
            None => rest,
        }
    }
}

/// Whether a container requests an accelerator resource.
fn container_requests_accelerator(c: &Container) -> (b: bool)
    ensures
        b == requests_accelerator(*c),
{
    match &c.resources {
        Some(res) => match &res.requests {
            Some(requests) => {
                let mut j: usize = 0;
                while j < requests.len()
                    invariant
                        container_requests(*c) == requests@,
                        j <= requests@.len(),
                        forall|b: int| 0 <= b < j ==> !is_accelerator(#[trigger] requests@[b].0),
                    decreases requests@.len() - j,
                {
                    if is_accelerator_resource(requests.key_at(j).as_str()) {
                        return true;
                    }
                    j = j + 1;
                }
                false
            },
            None => false,
        },
        None => false,
    }
}

/// The names of the containers that request an accelerator resource.
pub fn accelerator_requesting_containers(pod: &Pod) -> (names: Vec<String>)
    ensures
        crate::text::views(names@) == requesting_names(pod_containers(pod)),
{
    let ghost cs = pod_containers(pod);
    let mut names: Vec<String> = Vec::new();
    let empty: Vec<Container> = Vec::new();
    let containers: &Vec<Container> = match &pod.spec {
        Some(spec) => &spec.containers,
        None => &empty,
    };
    let mut i: usize = 0;
    while i < containers.len()
        invariant
            containers@ == cs,
            i <= cs.len(),
            crate::text::views(names@) == requesting_names(cs.take(i as int)),
        decreases cs.len() - i,
    {
        let c = &containers[i];
        assert(cs.take(i + 1).drop_last() =~= cs.take(i as int));
        if container_requests_accelerator(c) {
            match &c.name {
                Some(n) => {
                    names.push(n.clone());
                    assert(crate::text::views(names@) =~= requesting_names(cs.take(i as int)).push(n@));
                },
                None => {},
            }
        }
        i = i + 1;
    }
    assert(cs.take(cs.len() as int) =~= cs);
    names
}

} // verus!
