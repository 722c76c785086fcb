//! YAML documents as trees, and the operations of YAML mappings: entries
//! keep their order; an insert under an existing key replaces the value in
//! place, a new key goes last; a removal moves the last entry into the gap.
//! Reading a node as a mapping, list or text looks through its tags, and an
//! edit made that way keeps them.
use vstd::prelude::*;
use crate::text::{str_eq, views};

verus! {

/// A YAML node. Numbers are kept as their YAML text, tags by name.
pub enum YamlValue {
    Null,
    Bool(bool),
    Number(String),
    String(String),
    Sequence(Vec<YamlValue>),
    Mapping(Vec<(YamlValue, YamlValue)>),
    Tagged(String, Box<YamlValue>),
}

/// A YAML node as a mathematical value.
pub enum YamlView {
    Null,
    Bool(bool),
    Number(Seq<char>),
    Text(Seq<char>),
    List(Seq<YamlView>),
    Mapping(Seq<(YamlView, YamlView)>),
    Tagged(Seq<char>, Box<YamlView>),
}

/// The mathematical value of a node.
pub open spec fn yaml_view(v: YamlValue) -> YamlView
    decreases v,
{
    match v {
        YamlValue::Null => YamlView::Null,
        YamlValue::Bool(b) => YamlView::Bool(b),
        YamlValue::Number(n) => YamlView::Number(n@),
        YamlValue::String(s) => YamlView::Text(s@),
        YamlValue::Sequence(items) => YamlView::List(list_view(items@)),
        YamlValue::Mapping(entries) => YamlView::Mapping(entries_view(entries@)),
        YamlValue::Tagged(tag, inner) => YamlView::Tagged(tag@, Box::new(yaml_view(*inner))),
    }
}

/// The values of a list of nodes.
pub open spec fn list_view(items: Seq<YamlValue>) -> Seq<YamlView>
    decreases items,
{
    Seq::new(
        items.len(),
        |i: int|
            if 0 <= i < items.len() {
                yaml_view(items[i])
            } else {
                YamlView::Null
            },
    )
}

/// The values of the entries of a mapping.
pub open spec fn entries_view(entries: Seq<(YamlValue, YamlValue)>) -> Seq<(YamlView, YamlView)>
    decreases entries,
{
    Seq::new(
        entries.len(),
        |i: int|
            if 0 <= i < entries.len() {
                (yaml_view(entries[i].0), yaml_view(entries[i].1))
            } else {
                (YamlView::Null, YamlView::Null)
            },
    )
}


/// The node under its tags: tags are looked through, as serde_yaml's
/// accessors (`as_mapping_mut`, `as_sequence_mut`, `as_str`) do.
pub open spec fn untag(v: YamlView) -> YamlView
    decreases v,
{
    match v {
        YamlView::Tagged(_, inner) => untag(*inner),
        _ => v,
    }
}

/// `v` with the node under its tags replaced by `x`, the tags kept: what an
/// edit through the accessors does to a tagged node.
pub open spec fn retag(v: YamlView, x: YamlView) -> YamlView
    decreases v,
{
    match v {
        YamlView::Tagged(t, inner) => YamlView::Tagged(t, Box::new(retag(*inner, x))),
        _ => x,
    }
}

/// `x` under the tags `tags`, the first of them outermost.
pub open spec fn wrap_tags(tags: Seq<Seq<char>>, x: YamlView) -> YamlView
    decreases tags.len(),
{
    if tags.len() == 0 {
        x
    } else {
        YamlView::Tagged(tags[0], Box::new(wrap_tags(tags.drop_first(), x)))
    }
}

/// Looking through the tags of a retagged node finds what was put there;
/// putting back the node under the tags gives the node itself.
pub proof fn lemma_untag_retag(v: YamlView, x: YamlView)
    ensures
        untag(retag(v, x)) == untag(x),
        retag(v, untag(v)) == v,
        !(untag(v) is Tagged),
    decreases v,
{
    match v {
        YamlView::Tagged(t, inner) => {
            lemma_untag_retag(*inner, x);
        },
        _ => {},
    }
}

/// Splits a node into its tags, outermost first, and the node under them.
pub fn untag_value(v: YamlValue) -> (r: (Vec<String>, YamlValue))
    ensures
        yaml_view(r.1) == untag(yaml_view(v)),
        forall|x: YamlView| #[trigger] wrap_tags(views(r.0@), x) == retag(yaml_view(v), x),
    decreases v,
{
    match v {
        YamlValue::Tagged(t, inner) => {
            let ghost tv = t@;
            let ghost iv = yaml_view(*inner);
            let (mut ts, core) = untag_value(*inner);
            let ghost ts0 = views(ts@);
            ts.insert(0, t);
            proof {
                assert(views(ts@) =~= seq![tv] + ts0);
                assert(views(ts@).drop_first() =~= ts0);
                assert forall|x: YamlView| #[trigger] wrap_tags(views(ts@), x) == retag(yaml_view(v), x) by {
                    assert(wrap_tags(ts0, x) == retag(iv, x));
                }
            }
            (ts, core)
        },
        other => {
            let ts: Vec<String> = Vec::new();
            assert(views(ts@) =~= Seq::<Seq<char>>::empty());
            (ts, other)
        },
    }
}

fn wrap_from(tags: &Vec<String>, i: usize, x: YamlValue) -> (r: YamlValue)
    requires
        i <= tags@.len(),
    ensures
        yaml_view(r) == wrap_tags(views(tags@).skip(i as int), yaml_view(x)),
    decreases tags@.len() - i,
{
    if i == tags.len() {
        assert(views(tags@).skip(i as int) =~= Seq::<Seq<char>>::empty());
        x
    } else {
        let inner = wrap_from(tags, i + 1, x);
        assert(views(tags@).skip(i as int).drop_first() =~= views(tags@).skip(i + 1));
        YamlValue::Tagged(tags[i].clone(), Box::new(inner))
    }
}

/// Puts `x` under the tags `tags`, the first of them outermost.
pub fn wrap_value(tags: &Vec<String>, x: YamlValue) -> (r: YamlValue)
    ensures
        yaml_view(r) == wrap_tags(views(tags@), yaml_view(x)),
{
    assert(views(tags@).skip(0) =~= views(tags@));
    wrap_from(tags, 0, x)
}

/// The node under the tags of `v`.
pub fn untag_ref(v: &YamlValue) -> (r: &YamlValue)
    ensures
        yaml_view(*r) == untag(yaml_view(*v)),
    decreases v,
{
    match v {
        YamlValue::Tagged(_, inner) => untag_ref(inner),
        _ => v,
    }
}

/// The position of the entry whose key is the text `name`.
pub open spec fn key_index(es: Seq<(YamlView, YamlView)>, name: Seq<char>) -> Option<int>
    decreases es.len(),
{
    if es.len() == 0 {
        None
    } else if es[0].0 == YamlView::Text(name) {
        Some(0)
    } else {
        match key_index(es.drop_first(), name) {
            Some(i) => Some(i + 1),
            None => None,
        }
    }
}

/// The value under the text key `name`.
pub open spec fn map_get(es: Seq<(YamlView, YamlView)>, name: Seq<char>) -> Option<YamlView> {
    match key_index(es, name) {
        Some(i) => Some(es[i].1),
        None => None,
    }
}

/// The entries with `v` stored under the text key `name`: in place where
/// the key is present, as a new last entry otherwise.
pub open spec fn map_set(es: Seq<(YamlView, YamlView)>, name: Seq<char>, v: YamlView) -> Seq<(YamlView, YamlView)> {
    match key_index(es, name) {
        Some(i) => es.update(i, (es[i].0, v)),
        None => es.push((YamlView::Text(name), v)),
    }
}

/// The entries without the one under the text key `name`, the last entry
/// moved into its place.
pub open spec fn map_swap_remove(es: Seq<(YamlView, YamlView)>, name: Seq<char>) -> Seq<(YamlView, YamlView)> {
    match key_index(es, name) {
        Some(i) => es.update(i, es.last()).drop_last(),
        None => es,
    }
}

pub proof fn lemma_key_index(es: Seq<(YamlView, YamlView)>, name: Seq<char>)
    ensures
        match key_index(es, name) {
            Some(i) => 0 <= i < es.len() && es[i].0 == YamlView::Text(name)
                && forall|j: int| 0 <= j < i ==> es[j].0 != YamlView::Text(name),
            None => forall|j: int| 0 <= j < es.len() ==> es[j].0 != YamlView::Text(name),
        },
    decreases es.len(),
{
    if es.len() > 0 {
        lemma_key_index(es.drop_first(), name);
        if es[0].0 != YamlView::Text(name) {
            assert forall|j: int| 0 < j < es.len() implies es[j] == es.drop_first()[j - 1] by {}
        }
    }
}

/// Reading a mapping after storing a value gives that value under its key
/// and leaves the other keys as they were.
pub proof fn lemma_map_set_get(es: Seq<(YamlView, YamlView)>, a: Seq<char>, v: YamlView, b: Seq<char>)
    ensures
        map_get(map_set(es, a, v), b) == (if a == b {
            Some(v)
        } else {
            map_get(es, b)
        }),
{
    let t = map_set(es, a, v);
    lemma_key_index(es, a);
    lemma_key_index(es, b);
    lemma_key_index(t, b);
    match key_index(es, a) {
        Some(i) => {
            assert forall|j: int| 0 <= j < t.len() implies t[j].0 == es[j].0 by {}
            if a == b {
                match key_index(t, b) {
                    Some(w) => {
                        if w < i {
                            assert(es[w].0 == YamlView::Text(b));
                        } else if w > i {
                            assert(t[i].0 == YamlView::Text(b));
                        }
                    },
                    None => {
                        assert(t[i].0 == YamlView::Text(b));
                    },
                }
            } else {
                match key_index(es, b) {
                    Some(w) => {
                        match key_index(t, b) {
                            Some(x) => {
                                if x < w {
                                    assert(es[x].0 == YamlView::Text(b));
                                } else if x > w {
                                    assert(t[w].0 == YamlView::Text(b));
                                }
                                assert(w != i);
                            },
                            None => {
                                assert(t[w].0 == YamlView::Text(b));
                            },
                        }
                    },
                    None => {
                        match key_index(t, b) {
                            Some(x) => {
                                assert(es[x].0 == YamlView::Text(b));
                            },
                            None => {},
                        }
                    },
                }
            }
        },
        None => {
            assert forall|j: int| 0 <= j < es.len() implies t[j] == es[j] by {}
            assert(t[es.len() as int].0 == YamlView::Text(a));
            if a == b {
                match key_index(t, b) {
                    Some(w) => {
                        if w < es.len() {
                            assert(es[w].0 == YamlView::Text(b));
                        }
                    },
                    None => {
                        assert(t[es.len() as int].0 == YamlView::Text(b));
                    },
                }
            } else {
                match key_index(es, b) {
                    Some(w) => {
                        match key_index(t, b) {
                            Some(x) => {
                                if x < w {
                                    assert(es[x].0 == YamlView::Text(b));
                                } else if x > w {
                                    assert(t[w].0 == YamlView::Text(b));
                                }
                            },
                            None => {
                                assert(t[w].0 == YamlView::Text(b));
                            },
                        }
                    },
                    None => {
                        match key_index(t, b) {
                            Some(x) => {
                                if x < es.len() {
                                    assert(es[x].0 == YamlView::Text(b));
                                }
                            },
                            None => {},
                        }
                    },
                }
            }
        },
    }
}

/// No key occurs twice.
pub open spec fn unique_keys(es: Seq<(YamlView, YamlView)>) -> bool {
    forall|i: int, j: int| 0 <= i < j < es.len() ==> es[i].0 != es[j].0
}

/// Removing a key from a mapping without repeated keys leaves it without
/// that key, without repeated keys, and without any key it did not have.
pub proof fn lemma_map_swap_remove(es: Seq<(YamlView, YamlView)>, k: Seq<char>)
    requires
        unique_keys(es),
    ensures
        unique_keys(map_swap_remove(es, k)),
        key_index(map_swap_remove(es, k), k) is None,
        forall|j: Seq<char>| key_index(es, j) is None ==> key_index(map_swap_remove(es, k), j) is None,
{
    let t = map_swap_remove(es, k);
    lemma_key_index(es, k);
    lemma_key_index(t, k);
    match key_index(es, k) {
        Some(i) => {
            let last = es.len() - 1;
            assert forall|x: int| 0 <= x < t.len() implies t[x] == (if x == i { es[last] } else { es[x] }) by {}
            assert forall|a: int, b: int| 0 <= a < b < t.len() implies t[a].0 != t[b].0 by {
                if a == i {
                    assert(es[b].0 != es[last].0);
                } else if b == i {
                    assert(es[a].0 != es[last].0);
                } else {
                    assert(es[a].0 != es[b].0);
                }
            }
            match key_index(t, k) {
                Some(w) => {
                    if w == i {
                        assert(es[last].0 != es[i].0);
                    } else {
                        assert(es[w].0 != es[i].0);
                    }
                },
                None => {},
            }
            assert forall|j: Seq<char>| key_index(es, j) is None implies key_index(t, j) is None by {
                lemma_key_index(es, j);
                lemma_key_index(t, j);
                match key_index(t, j) {
                    Some(w) => {
                        if w == i {
                            assert(es[last].0 == YamlView::Text(j));
                        } else {
                            assert(es[w].0 == YamlView::Text(j));
                        }
                    },
                    None => {},
                }
            }
        },
        None => {},
    }
}

/// Whether the key node is the text `name`.
fn key_is(k: &YamlValue, name: &str) -> (b: bool)
    ensures
        b == (yaml_view(*k) == YamlView::Text(name@)),
{
    match k {
        YamlValue::String(s) => str_eq(s.as_str(), name),
        _ => false,
    }
}

/// The position of the entry under the text key `name`.
pub fn find_key(es: &Vec<(YamlValue, YamlValue)>, name: &str) -> (r: Option<usize>)
    ensures
        match r {
            Some(i) => i < es@.len() && key_index(entries_view(es@), name@) == Some(i as int),
            None => key_index(entries_view(es@), name@) is None,
        },
{
    let ghost ev = entries_view(es@);
    proof { lemma_key_index(ev, name@); }
    let mut i: usize = 0;
    while i < es.len()
        invariant
            ev == entries_view(es@),
            i <= es@.len(),
            forall|j: int| 0 <= j < i ==> ev[j].0 != YamlView::Text(name@),
        decreases es@.len() - i,
    {
        assert(ev[i as int].0 == yaml_view(es@[i as int].0));
        if key_is(&es[i].0, name) {
            proof {
                lemma_key_index(ev, name@);
            }
            return Some(i);
        }
        i = i + 1;
    }
    proof {
        lemma_key_index(ev, name@);
    }
    None
}

/// Stores `v` under the text key `key`.
pub fn map_insert(es: &mut Vec<(YamlValue, YamlValue)>, key: String, v: YamlValue)
    ensures
        entries_view(final(es)@) == map_set(entries_view(old(es)@), key@, yaml_view(v)),
{
    let ghost ev = entries_view(es@);
    match find_key(es, key.as_str()) {
        Some(i) => {
            let (k, _) = es.remove(i);
            es.insert(i, (k, v));
            assert(entries_view(es@) =~= ev.update(i as int, (ev[i as int].0, yaml_view(v))));
        },
        None => {
            es.push((YamlValue::String(key), v));
            assert(entries_view(es@) =~= ev.push((YamlView::Text(key@), yaml_view(v))));
        },
    }
}

/// Removes the entry under the text key `name`, moving the last entry into
/// its place (`serde_yaml::Mapping::remove`).
pub fn map_remove(es: &mut Vec<(YamlValue, YamlValue)>, name: &str)
    ensures
        entries_view(final(es)@) == map_swap_remove(entries_view(old(es)@), name@),
{
    let ghost ev = entries_view(es@);
    match find_key(es, name) {
        Some(i) => {
            es.swap_remove(i);
            assert(entries_view(es@) =~= ev.update(i as int, ev.last()).drop_last());
        },
        None => {},
    }
}

} // verus!
