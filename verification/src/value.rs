//! The value tree produced by parsing: an ordered key-value map, a text
//! leaf, or the `Null` sentinel returned by failed lookups.

use vstd::prelude::*;

use crate::text::ci_matches;
use crate::text::fold_chars;
use crate::text::lex_leq;

verus! {

broadcast use vstd::std_specs::vec::axiom_vec_index_decreases, vstd::seq::axiom_seq_index_decreases;

/// Mathematical model of a parsed value: an ordered sequence of key-value
/// entries, a text leaf, or the null sentinel.
pub enum Vdf {
    Obj(Seq<(Seq<char>, Vdf)>),
    Text(Seq<char>),
    Null,
}

/// A parsed value. `Obj` holds its direct children in iteration order;
/// `Text` is a decoded string leaf; `Null` is only ever produced by failed
/// lookups, never by parsing.
#[derive(Debug)]
pub enum Value {
    Obj(Vec<(String, Value)>),
    Text(String),
    Null,
}

/// The model of one exec entry sequence: each key and value replaced by its view.
pub open spec fn entries_view(es: Seq<(String, Value)>) -> Seq<(Seq<char>, Vdf)> {
    Seq::new(es.len(), |i: int| (es[i].0@, es[i].1@))
}

/// The model of a value: each map's entry vector replaced by the sequence
/// of its modelled entries.
pub open spec fn value_view(v: Value) -> Vdf
    decreases v,
{
    match v {
        Value::Obj(es) => Vdf::Obj(
            Seq::new(
                es@.len(),
                |i: int|
                    if 0 <= i < es@.len() {
                        value_entry(es@[i])
                    } else {
                        (Seq::empty(), Vdf::Null)
                    },
            ),
        ),
        Value::Text(s) => Vdf::Text(s@),
        Value::Null => Vdf::Null,
    }
}

/// The model of one entry.
pub open spec fn value_entry(e: (String, Value)) -> (Seq<char>, Vdf)
    decreases e,
{
    (e.0@, value_view(e.1))
}

impl View for Value {
    type V = Vdf;

    open spec fn view(&self) -> Vdf {
        value_view(*self)
    }
}

/// The view of an `Obj` is the entry-wise view of its entry vector.
pub proof fn lemma_obj_view(es: Vec<(String, Value)>)
    ensures
        Value::Obj(es)@ == Vdf::Obj(entries_view(es@)),
{
    let v = Value::Obj(es);
    assert(v@ is Obj);
    let m = v@->Obj_0;
    assert(m.len() == es@.len());
    assert forall|i: int| 0 <= i < es@.len() implies m[i] == (es@[i].0@, es@[i].1@) by {
    }
    assert(m =~= entries_view(es@));
}

/// The direct children of a map; empty for the other variants.
pub open spec fn spec_entries(v: Vdf) -> Seq<(Seq<char>, Vdf)> {
    match v {
        Vdf::Obj(es) => es,
        _ => Seq::empty(),
    }
}

/// The first entry whose key matches up to ASCII case, or `Null`.
pub open spec fn lookup_entries(es: Seq<(Seq<char>, Vdf)>, key: Seq<char>) -> Vdf
    decreases es.len(),
{
    if es.len() == 0 {
        Vdf::Null
    } else if ci_matches(es[0].0, key) {
        es[0].1
    } else {
        lookup_entries(es.drop_first(), key)
    }
}

/// Case-insensitive lookup among a map's direct children; `Null` when the
/// key is absent or the value is not a map.
pub open spec fn spec_index(v: Vdf, key: Seq<char>) -> Vdf {
    match v {
        Vdf::Obj(es) => lookup_entries(es, key),
        _ => Vdf::Null,
    }
}

/// Whether some entry's key matches up to ASCII case.
pub open spec fn has_key(es: Seq<(Seq<char>, Vdf)>, key: Seq<char>) -> bool {
    exists|i: int| 0 <= i < es.len() && ci_matches(#[trigger] es[i].0, key)
}

pub proof fn lemma_lookup_found(es: Seq<(Seq<char>, Vdf)>, key: Seq<char>, i: int)
    requires
        0 <= i < es.len(),
        ci_matches(es[i].0, key),
        forall|j: int| 0 <= j < i ==> !ci_matches(#[trigger] es[j].0, key),
    ensures
        lookup_entries(es, key) == es[i].1,
    decreases i,
{
    if i > 0 {
        lemma_lookup_found(es.drop_first(), key, i - 1);
    }
}

pub proof fn lemma_lookup_miss(es: Seq<(Seq<char>, Vdf)>, key: Seq<char>)
    requires
        forall|j: int| 0 <= j < es.len() ==> !ci_matches(#[trigger] es[j].0, key),
    ensures
        lookup_entries(es, key) == Vdf::Null,
    decreases es.len(),
{
    if es.len() > 0 {
        lemma_lookup_miss(es.drop_first(), key);
    }
}

/// When the lookup finds something, what it finds is the value of a
/// matching entry, and some entry matches.
pub proof fn lemma_lookup_characterizes(es: Seq<(Seq<char>, Vdf)>, key: Seq<char>)
    ensures
        has_key(es, key) ==> exists|i: int|
            0 <= i < es.len() && ci_matches(#[trigger] es[i].0, key) && lookup_entries(es, key)
                == es[i].1,
        !has_key(es, key) ==> lookup_entries(es, key) == Vdf::Null,
    decreases es.len(),
{
    if es.len() > 0 && !ci_matches(es[0].0, key) {
        lemma_lookup_characterizes(es.drop_first(), key);
        if has_key(es, key) {
            let i = choose|i: int|
                0 <= i < es.len() && ci_matches(#[trigger] es[i].0, key);
            assert(ci_matches(es.drop_first()[i - 1].0, key));
            let j = choose|j: int|
                0 <= j < es.drop_first().len() && ci_matches(
                    #[trigger] es.drop_first()[j].0,
                    key,
                ) && lookup_entries(es.drop_first(), key) == es.drop_first()[j].1;
            assert(es[j + 1].0 == es.drop_first()[j].0 && es[j + 1].1 == es.drop_first()[j].1);
        }
    }
}

/// The null sentinel propagates: indexing into `Null` with any key gives
/// `Null` again, and neither text nor integer can be read from it.
pub proof fn lemma_null_propagates(key: Seq<char>)
    ensures
        spec_index(Vdf::Null, key) == Vdf::Null,
        spec_as_int(Vdf::Null) is None,
{
}

/// Keys that agree up to ASCII case look up the same child: lookup is
/// case-insensitive.
pub proof fn lemma_lookup_case_insensitive(v: Vdf, k1: Seq<char>, k2: Seq<char>)
    requires
        fold_chars(k1) == fold_chars(k2),
    ensures
        spec_index(v, k1) == spec_index(v, k2),
{
    match v {
        Vdf::Obj(es) => {
            lemma_lookup_entries_ci(es, k1, k2);
        },
        _ => {},
    }
}

proof fn lemma_lookup_entries_ci(es: Seq<(Seq<char>, Vdf)>, k1: Seq<char>, k2: Seq<char>)
    requires
        fold_chars(k1) == fold_chars(k2),
    ensures
        lookup_entries(es, k1) == lookup_entries(es, k2),
    decreases es.len(),
{
    if es.len() > 0 {
        lemma_lookup_entries_ci(es.drop_first(), k1, k2);
    }
}

/// Well-formed parsed tree: every map's entries stand in ascending key
/// order, and no entry's value is the `Null` sentinel.
pub open spec fn entries_sorted(es: Seq<(Seq<char>, Vdf)>) -> bool {
    forall|i: int, j: int|
        0 <= i < j < es.len() ==> lex_leq(#[trigger] es[i].0, #[trigger] es[j].0)
}

pub open spec fn vdf_wf(v: Vdf) -> bool
    decreases v,
{
    match v {
        Vdf::Obj(es) => entries_sorted(es) && (forall|i: int|
            0 <= i < es.len() ==> vdf_wf(#[trigger] es[i].1) && !(es[i].1 is Null)),
        Vdf::Text(_) => true,
        Vdf::Null => true,
    }
}

impl Value {
    /// Case-insensitive lookup of `key` among a map's direct children:
    /// the first match in stored order, or `Null` when the key is absent
    /// or `self` is not a map. Never fails.
    pub fn index<'a>(&'a self, key: &str) -> (r: &'a Value)
        ensures
            r@ == spec_index(self@, key@),
    {
        match self {
            Value::Obj(es) => {
                proof {
                    lemma_obj_view(*es);
                }
                let n = es.len();
                let mut i: usize = 0;
                while i < n
                    invariant
                        n == es@.len(),
                        i <= n,
                        self@ == Vdf::Obj(entries_view(es@)),
                        forall|j: int|
                            0 <= j < i ==> !ci_matches(#[trigger] entries_view(es@)[j].0, key@),
                    decreases n - i,
                {
                    if crate::text::str_ci_eq(es[i].0.as_str(), key) {
                        proof {
                            lemma_lookup_found(entries_view(es@), key@, i as int);
                        }
                        return &es[i].1;
                    }
                    i = i + 1;
                }
                proof {
                    lemma_lookup_miss(entries_view(es@), key@);
                }
                &Value::Null
            },
            Value::Null => self,
            Value::Text(_) => &Value::Null,
        }
    }

    /// The text of a string leaf; `None` for the other variants.
    pub fn as_str(&self) -> (r: Option<&str>)
        ensures
            self@ matches Vdf::Text(t) ==> r matches Some(s) && s@ == t,
            !(self@ matches Vdf::Text(_)) ==> r is None,
    {
        match self {
            Value::Text(s) => Some(s.as_str()),
            _ => None,
        }
    }

    /// The base-10 integer value of a string leaf; `None` for non-numeric
    /// or out-of-range text and for the other variants.
    pub fn as_int(&self) -> (r: Option<i64>)
        ensures
            r == spec_as_int(self@),
    {
        match self {
            Value::Text(s) => crate::text::parse_i64(s.as_str()),
            _ => None,
        }
    }

    /// The direct children of a map, in stored (sorted) order; empty for
    /// the other variants.
    pub fn iter<'a>(&'a self) -> (r: Vec<(&'a String, &'a Value)>)
        ensures
            ref_entries_view(r@) == spec_entries(self@),
    {
        let mut out: Vec<(&String, &Value)> = Vec::new();
        match self {
            Value::Obj(es) => {
                proof {
                    lemma_obj_view(*es);
                }
                let n = es.len();
                let mut i: usize = 0;
                while i < n
                    invariant
                        n == es@.len(),
                        i <= n,
                        out@.len() == i,
                        self@ == Vdf::Obj(entries_view(es@)),
                        forall|j: int|
                            0 <= j < i ==> (#[trigger] out@[j]).0@ == es@[j].0@ && out@[j].1@
                                == es@[j].1@,
                    decreases n - i,
                {
                    let e = &es[i];
                    out.push((&e.0, &e.1));
                    i = i + 1;
                }
                proof {
                    assert(ref_entries_view(out@) =~= spec_entries(self@));
                }
            },
            _ => {
                proof {
                    assert(ref_entries_view(out@) =~= spec_entries(self@));
                }
            },
        }
        out
    }
}

/// What `as_int` returns, as a function of the model.
pub open spec fn spec_as_int(v: Vdf) -> Option<i64> {
    match v {
        Vdf::Text(t) => crate::text::spec_parse_i64(t),
        _ => None,
    }
}

/// The model of a vector of borrowed entries, as handed out by `iter`.
pub open spec fn ref_entries_view(es: Seq<(&String, &Value)>) -> Seq<(Seq<char>, Vdf)> {
    Seq::new(es.len(), |i: int| (es[i].0@, es[i].1@))
}

} // verus!
