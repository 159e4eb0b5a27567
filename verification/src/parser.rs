//! The VDF parser: a single forward pass over the characters with an
//! explicit stack of partially built maps, no recursion. Quoted strings
//! are decoded (`\"`, `\\`, `\r`, `\n`); each map's entries are put into
//! ascending key order when its closing brace (or, for the root, the end
//! of input) is reached.

use vstd::prelude::*;

use crate::text::ci_matches;
use crate::text::is_vdf_ws;
use crate::text::lex_leq;
use crate::text::str_lex_leq;
use crate::value::entries_view;
use crate::value::entries_sorted;
use crate::value::has_key;
use crate::value::lemma_lookup_characterizes;
use crate::value::lemma_obj_view;
use crate::value::lookup_entries;
use crate::value::vdf_wf;
use crate::value::Value;
use crate::value::Vdf;

verus! {

/// The single failure kind of parsing: a malformed token sequence or an
/// unrecognized escape.
#[derive(Debug, PartialEq, Eq, Structural)]
pub enum VdfError {
    InvalidData,
}

/// Places `e` after every entry of the sorted sequence `t` whose key is
/// lexicographically at most `e`'s: stable insertion.
pub open spec fn sorted_insert(t: Seq<(Seq<char>, Vdf)>, e: (Seq<char>, Vdf)) -> Seq<
    (Seq<char>, Vdf),
>
    decreases t.len(),
{
    if t.len() == 0 {
        seq![e]
    } else if lex_leq(t.last().0, e.0) {
        t.push(e)
    } else {
        sorted_insert(t.drop_last(), e).push(t.last())
    }
}

/// Stable insertion sort of a map's entries by key.
pub open spec fn sort_entries(s: Seq<(Seq<char>, Vdf)>) -> Seq<(Seq<char>, Vdf)>
    decreases s.len(),
{
    if s.len() == 0 {
        Seq::empty()
    } else {
        sorted_insert(sort_entries(s.drop_last()), s.last())
    }
}

/// Lexicographic order is total.
pub proof fn lemma_lex_total(a: Seq<char>, b: Seq<char>)
    ensures
        lex_leq(a, b) || lex_leq(b, a),
    decreases a.len(),
{
    if a.len() > 0 && b.len() > 0 {
        if a[0] == b[0] {
            lemma_lex_total(a.drop_first(), b.drop_first());
        } else {
            if (a[0] as u32) == (b[0] as u32) {
                vstd::utf8::char_u32_cast(a[0], a[0] as u32);
                vstd::utf8::char_u32_cast(b[0], b[0] as u32);
            }
        }
    }
}

/// Lexicographic order is transitive.
pub proof fn lemma_lex_trans(a: Seq<char>, b: Seq<char>, c: Seq<char>)
    requires
        lex_leq(a, b),
        lex_leq(b, c),
    ensures
        lex_leq(a, c),
    decreases a.len(),
{
    if a.len() > 0 && b.len() > 0 && c.len() > 0 && a[0] == b[0] && b[0] == c[0] {
        lemma_lex_trans(a.drop_first(), b.drop_first(), c.drop_first());
    }
}

/// Length, membership and sortedness of a stable insertion step.
pub proof fn lemma_sorted_insert_props(t: Seq<(Seq<char>, Vdf)>, e: (Seq<char>, Vdf))
    ensures
        sorted_insert(t, e).len() == t.len() + 1,
        forall|x: (Seq<char>, Vdf)|
            #[trigger] sorted_insert(t, e).contains(x) <==> t.contains(x) || x == e,
        entries_sorted(t) ==> entries_sorted(sorted_insert(t, e)),
    decreases t.len(),
{
    let r = sorted_insert(t, e);
    if t.len() == 0 {
        assert forall|x: (Seq<char>, Vdf)| #[trigger] r.contains(x) implies t.contains(x) || x == e
        by {
            assert(r[0] == e);
        }
        assert(r.contains(e)) by {
            assert(r[0] == e);
        }
    } else if lex_leq(t.last().0, e.0) {
        assert forall|x: (Seq<char>, Vdf)| #[trigger] r.contains(x) implies t.contains(x) || x == e
        by {
            let i = choose|i: int| 0 <= i < r.len() && r[i] == x;
            if i < t.len() {
                assert(t[i] == x);
            }
        }
        assert forall|x: (Seq<char>, Vdf)| t.contains(x) || x == e implies #[trigger] r.contains(x)
        by {
            if t.contains(x) {
                let i = choose|i: int| 0 <= i < t.len() && t[i] == x;
                assert(r[i] == x);
            } else {
                assert(r[t.len() as int] == x);
            }
        }
        if entries_sorted(t) {
            assert forall|i: int, j: int| 0 <= i < j < r.len() implies lex_leq(
                #[trigger] r[i].0,
                #[trigger] r[j].0,
            ) by {
                if j == t.len() {
                    if i < t.len() - 1 {
                        lemma_lex_trans(t[i].0, t.last().0, e.0);
                    }
                }
            }
        }
    } else {
        lemma_sorted_insert_props(t.drop_last(), e);
        let q = sorted_insert(t.drop_last(), e);
        assert forall|x: (Seq<char>, Vdf)| #[trigger] r.contains(x) implies t.contains(x) || x == e
        by {
            let i = choose|i: int| 0 <= i < r.len() && r[i] == x;
            if i < q.len() {
                assert(q.contains(x));
                if t.drop_last().contains(x) {
                    let j = choose|j: int| 0 <= j < t.drop_last().len() && t.drop_last()[j] == x;
                    assert(t[j] == x);
                }
            } else {
                assert(x == t.last());
            }
        }
        assert forall|x: (Seq<char>, Vdf)| t.contains(x) || x == e implies #[trigger] r.contains(x)
        by {
            if x == e || t.drop_last().contains(x) {
                if t.drop_last().contains(x) {
                } else {
                }
                assert(q.contains(x));
                let i = choose|i: int| 0 <= i < q.len() && q[i] == x;
                assert(r[i] == x);
            } else if t.contains(x) {
                let i = choose|i: int| 0 <= i < t.len() && t[i] == x;
                if i < t.len() - 1 {
                    assert(t.drop_last()[i] == x);
                    assert(q.contains(x));
                    let j = choose|j: int| 0 <= j < q.len() && q[j] == x;
                    assert(r[j] == x);
                } else {
                    assert(r[q.len() as int] == x);
                }
            }
        }
        if entries_sorted(t) {
            assert(entries_sorted(t.drop_last())) by {
                assert forall|i: int, j: int|
                    0 <= i < j < t.drop_last().len() implies lex_leq(
                    #[trigger] t.drop_last()[i].0,
                    #[trigger] t.drop_last()[j].0,
                ) by {
                    assert(t[i] == t.drop_last()[i] && t[j] == t.drop_last()[j]);
                }
            }
            lemma_lex_total(t.last().0, e.0);
            assert forall|i: int, j: int| 0 <= i < j < r.len() implies lex_leq(
                #[trigger] r[i].0,
                #[trigger] r[j].0,
            ) by {
                if j == r.len() - 1 {
                    assert(r[j] == t.last());
                    assert(q.contains(q[i]));
                    if t.drop_last().contains(q[i]) {
                        let m = choose|m: int|
                            0 <= m < t.drop_last().len() && t.drop_last()[m] == q[i];
                        assert(t[m] == q[i]);
                        assert(lex_leq(t[m].0, t.last().0));
                    } else {
                        assert(q[i] == e);
                    }
                }
            }
        }
    }
}

/// Length, membership and sortedness of the insertion sort.
pub proof fn lemma_sort_entries_props(s: Seq<(Seq<char>, Vdf)>)
    ensures
        sort_entries(s).len() == s.len(),
        forall|x: (Seq<char>, Vdf)| #[trigger] sort_entries(s).contains(x) <==> s.contains(x),
        entries_sorted(sort_entries(s)),
    decreases s.len(),
{
    if s.len() > 0 {
        lemma_sort_entries_props(s.drop_last());
        lemma_sorted_insert_props(sort_entries(s.drop_last()), s.last());
        assert forall|x: (Seq<char>, Vdf)| #[trigger] sort_entries(s).contains(x) implies
            s.contains(x) by {
            if s.drop_last().contains(x) {
                let i = choose|i: int| 0 <= i < s.drop_last().len() && s.drop_last()[i] == x;
                assert(s[i] == x);
            } else {
                assert(s.last() == x || x == s.last());
            }
        }
        assert forall|x: (Seq<char>, Vdf)| s.contains(x) implies #[trigger] sort_entries(
            s,
        ).contains(x) by {
            let i = choose|i: int| 0 <= i < s.len() && s[i] == x;
            if i < s.len() - 1 {
                assert(s.drop_last()[i] == x);
            } else {
                assert(x == s.last());
            }
        }
    }
}

/// Sorting a map's entries preserves which keys can be looked up; what a
/// key finds afterwards is a value that was bound to a matching key
/// before, and when a key's matches are unambiguous the lookup result is
/// unchanged.
pub proof fn lemma_sort_preserves_lookup(es: Seq<(Seq<char>, Vdf)>, key: Seq<char>)
    ensures
        has_key(sort_entries(es), key) == has_key(es, key),
        has_key(es, key) ==> exists|i: int|
            0 <= i < es.len() && ci_matches(#[trigger] es[i].0, key) && lookup_entries(
                sort_entries(es),
                key,
            ) == es[i].1,
        !has_key(es, key) ==> lookup_entries(sort_entries(es), key) == Vdf::Null
            && lookup_entries(es, key) == Vdf::Null,
        (forall|i: int, j: int|
            0 <= i < es.len() && 0 <= j < es.len() && ci_matches(#[trigger] es[i].0, key)
                && ci_matches(#[trigger] es[j].0, key) ==> es[i].1 == es[j].1) ==> lookup_entries(
            sort_entries(es),
            key,
        ) == lookup_entries(es, key),
{
    let t = sort_entries(es);
    lemma_sort_entries_props(es);
    lemma_lookup_characterizes(es, key);
    lemma_lookup_characterizes(t, key);
    if has_key(t, key) {
        let i = choose|i: int| 0 <= i < t.len() && ci_matches(#[trigger] t[i].0, key);
        assert(t.contains(t[i]));
        assert(es.contains(t[i]));
        let j = choose|j: int| 0 <= j < es.len() && es[j] == t[i];
        assert(ci_matches(es[j].0, key));
    }
    if has_key(es, key) {
        let i = choose|i: int| 0 <= i < es.len() && ci_matches(#[trigger] es[i].0, key);
        assert(t.contains(es[i])) by {
            assert(es.contains(es[i]));
        }
        let j = choose|j: int| 0 <= j < t.len() && t[j] == es[i];
        assert(ci_matches(t[j].0, key));
        let m = choose|m: int|
            0 <= m < t.len() && ci_matches(#[trigger] t[m].0, key) && lookup_entries(t, key)
                == t[m].1;
        assert(es.contains(t[m])) by {
            assert(t.contains(t[m]));
        }
        let w = choose|w: int| 0 <= w < es.len() && es[w] == t[m];
        assert(ci_matches(es[w].0, key) && lookup_entries(t, key) == es[w].1);
        if forall|i2: int, j2: int|
            0 <= i2 < es.len() && 0 <= j2 < es.len() && ci_matches(#[trigger] es[i2].0, key)
                && ci_matches(#[trigger] es[j2].0, key) ==> es[i2].1 == es[j2].1 {
            let v = choose|v: int|
                0 <= v < es.len() && ci_matches(#[trigger] es[v].0, key) && lookup_entries(es, key)
                    == es[v].1;
            assert(es[w].1 == es[v].1);
        }
    }
}

/// Decodes a quoted string's content starting at `i` (just after the
/// opening quote): the characters up to the next unescaped quote, with
/// the four escapes decoded, together with the position after the
/// closing quote. The string also ends, without error, at the end of
/// input. `None` on an unrecognized escape.
pub open spec fn spec_parse_str(s: Seq<char>, i: int) -> Option<(Seq<char>, int)>
    decreases s.len() - i when 0 <= i
{
    if i >= s.len() {
        Some((Seq::empty(), i))
    } else if s[i] == '"' {
        Some((Seq::empty(), i + 1))
    } else if s[i] == '\\' {
        if i + 1 >= s.len() {
            Some((Seq::empty(), i + 1))
        } else {
            let c = s[i + 1];
            let d = if c == 'r' {
                '\r'
            } else if c == 'n' {
                '\n'
            } else {
                c
            };
            if c == '"' || c == '\\' || c == 'r' || c == 'n' {
                match spec_parse_str(s, i + 2) {
                    Some((rest, j)) => Some((seq![d] + rest, j)),
                    None => None,
                }
            } else {
                None
            }
        }
    } else {
        match spec_parse_str(s, i + 1) {
            Some((rest, j)) => Some((seq![s[i]] + rest, j)),
            None => None,
        }
    }
}

/// A decoded string never ends before it starts, nor after the input.
pub proof fn lemma_parse_str_bounds(s: Seq<char>, i: int)
    requires
        0 <= i <= s.len(),
    ensures
        spec_parse_str(s, i) matches Some((c, j)) ==> i <= j <= s.len(),
    decreases s.len() - i,
{
    if i < s.len() {
        if s[i] == '\\' && i + 1 < s.len() {
            if i + 2 <= s.len() {
                lemma_parse_str_bounds(s, i + 2);
            }
        } else if s[i] != '"' && s[i] != '\\' {
            lemma_parse_str_bounds(s, i + 1);
        }
    }
}

/// One state of the parse: the stack of suspended parent maps (each with
/// the key its child will be inserted under), the entries of the map
/// being built, and a key waiting for its value. The result the parse
/// reaches from that state, or `None` on malformed input.
pub open spec fn spec_parse_loop(
    s: Seq<char>,
    i: int,
    stack: Seq<(Seq<(Seq<char>, Vdf)>, Seq<char>)>,
    cur: Seq<(Seq<char>, Vdf)>,
    key: Option<Seq<char>>,
) -> Option<Vdf>
    decreases s.len() - i when 0 <= i <= s.len() via spec_parse_loop_decreases
{
    if i >= s.len() {
        if stack.len() == 0 {
            Some(Vdf::Obj(sort_entries(cur)))
        } else {
            None
        }
    } else {
        let c = s[i];
        if is_vdf_ws(c) {
            spec_parse_loop(s, i + 1, stack, cur, key)
        } else {
            match key {
                None => {
                    if c == '"' {
                        match spec_parse_str(s, i + 1) {
                            Some((content, j)) => spec_parse_loop(s, j, stack, cur, Some(content)),
                            None => None,
                        }
                    } else if c == '}' {
                        if stack.len() == 0 {
                            None
                        } else {
                            let parent = stack.last().0;
                            let pkey = stack.last().1;
                            spec_parse_loop(
                                s,
                                i + 1,
                                stack.drop_last(),
                                parent.push((pkey, Vdf::Obj(sort_entries(cur)))),
                                None,
                            )
                        }
                    } else {
                        None
                    }
                },
                Some(k) => {
                    if c == '"' {
                        match spec_parse_str(s, i + 1) {
                            Some((content, j)) => spec_parse_loop(
                                s,
                                j,
                                stack,
                                cur.push((k, Vdf::Text(content))),
                                None,
                            ),
                            None => None,
                        }
                    } else if c == '{' {
                        spec_parse_loop(s, i + 1, stack.push((cur, k)), Seq::empty(), None)
                    } else {
                        None
                    }
                },
            }
        }
    }
}

#[via_fn]
proof fn spec_parse_loop_decreases(
    s: Seq<char>,
    i: int,
    stack: Seq<(Seq<(Seq<char>, Vdf)>, Seq<char>)>,
    cur: Seq<(Seq<char>, Vdf)>,
    key: Option<Seq<char>>,
) {
    if 0 <= i < s.len() {
        lemma_parse_str_bounds(s, i + 1);
    }
}

/// What parsing a whole document yields: the root map with its entries
/// in ascending key order, or `None` on malformed input (which includes
/// an unterminated nested block).
pub open spec fn spec_parse(s: Seq<char>) -> Option<Vdf> {
    spec_parse_loop(s, 0, Seq::empty(), Seq::empty(), None)
}

/// Every value stored in a partially built map is well formed and is not
/// the null sentinel.
pub open spec fn all_entries_wf(es: Seq<(Seq<char>, Vdf)>) -> bool {
    forall|i: int| 0 <= i < es.len() ==> vdf_wf(#[trigger] es[i].1) && !(es[i].1 is Null)
}

proof fn lemma_sorted_obj_wf(es: Seq<(Seq<char>, Vdf)>)
    requires
        all_entries_wf(es),
    ensures
        vdf_wf(Vdf::Obj(sort_entries(es))),
        !(Vdf::Obj(sort_entries(es)) is Null),
{
    let t = sort_entries(es);
    lemma_sort_entries_props(es);
    assert forall|i: int| 0 <= i < t.len() implies vdf_wf(#[trigger] t[i].1) && !(t[i].1
        is Null) by {
        assert(t.contains(t[i]));
        assert(es.contains(t[i]));
        let j = choose|j: int| 0 <= j < es.len() && es[j] == t[i];
        assert(vdf_wf(es[j].1));
    }
}

/// From a state whose stored values are all well formed, a successful
/// parse yields a well-formed tree: every map sorted, no null entries.
proof fn lemma_parse_loop_wf(
    s: Seq<char>,
    i: int,
    stack: Seq<(Seq<(Seq<char>, Vdf)>, Seq<char>)>,
    cur: Seq<(Seq<char>, Vdf)>,
    key: Option<Seq<char>>,
)
    requires
        0 <= i <= s.len(),
        forall|j: int| 0 <= j < stack.len() ==> all_entries_wf(#[trigger] stack[j].0),
        all_entries_wf(cur),
    ensures
        spec_parse_loop(s, i, stack, cur, key) matches Some(v) ==> vdf_wf(v),
    decreases s.len() - i,
{
    if i >= s.len() {
        if stack.len() == 0 {
            lemma_sorted_obj_wf(cur);
        }
    } else {
        let c = s[i];
        if is_vdf_ws(c) {
            lemma_parse_loop_wf(s, i + 1, stack, cur, key);
        } else {
            match key {
                None => {
                    if c == '"' {
                        lemma_parse_str_bounds(s, i + 1);
                        match spec_parse_str(s, i + 1) {
                            Some((content, j)) => {
                                lemma_parse_loop_wf(s, j, stack, cur, Some(content));
                            },
                            None => {},
                        }
                    } else if c == '}' && stack.len() > 0 {
                        let parent = stack.last().0;
                        let pkey = stack.last().1;
                        lemma_sorted_obj_wf(cur);
                        let cur2 = parent.push((pkey, Vdf::Obj(sort_entries(cur))));
                        assert(all_entries_wf(cur2)) by {
                            assert forall|m: int| 0 <= m < cur2.len() implies vdf_wf(
                                #[trigger] cur2[m].1,
                            ) && !(cur2[m].1 is Null) by {
                                if m < parent.len() {
                                    assert(cur2[m] == parent[m]);
                                }
                            }
                        }
                        lemma_parse_loop_wf(s, i + 1, stack.drop_last(), cur2, None);
                    }
                },
                Some(k) => {
                    if c == '"' {
                        lemma_parse_str_bounds(s, i + 1);
                        match spec_parse_str(s, i + 1) {
                            Some((content, j)) => {
                                let cur2 = cur.push((k, Vdf::Text(content)));
                                assert(all_entries_wf(cur2)) by {
                                    assert forall|m: int| 0 <= m < cur2.len() implies vdf_wf(
                                        #[trigger] cur2[m].1,
                                    ) && !(cur2[m].1 is Null) by {
                                        if m < cur.len() {
                                            assert(cur2[m] == cur[m]);
                                        }
                                    }
                                }
                                lemma_parse_loop_wf(s, j, stack, cur2, None);
                            },
                            None => {},
                        }
                    } else if c == '{' {
                        let stack2 = stack.push((cur, k));
                        assert(forall|j: int|
                            0 <= j < stack2.len() ==> all_entries_wf(#[trigger] stack2[j].0)) by {
                            assert forall|j: int| 0 <= j < stack2.len() implies all_entries_wf(
                                #[trigger] stack2[j].0,
                            ) by {
                                if j < stack.len() {
                                    assert(stack2[j] == stack[j]);
                                }
                            }
                        }
                        lemma_parse_loop_wf(s, i + 1, stack2, Seq::empty(), None);
                    }
                },
            }
        }
    }
}

/// A successful parse yields a well-formed tree.
pub proof fn lemma_parse_wf(s: Seq<char>)
    ensures
        spec_parse(s) matches Some(v) ==> vdf_wf(v),
{
    lemma_parse_loop_wf(s, 0, Seq::empty(), Seq::empty(), None);
}

/// Stable insertion places the new entry at the boundary between the
/// keys at most its own and the strictly greater ones.
proof fn lemma_sorted_insert_at(t: Seq<(Seq<char>, Vdf)>, e: (Seq<char>, Vdf), p: int)
    requires
        entries_sorted(t),
        0 <= p <= t.len(),
        forall|j: int| 0 <= j < p ==> lex_leq(#[trigger] t[j].0, e.0),
        p < t.len() ==> !lex_leq(t[p].0, e.0),
    ensures
        sorted_insert(t, e) == t.subrange(0, p) + seq![e] + t.subrange(p, t.len() as int),
    decreases t.len(),
{
    if t.len() == 0 {
        assert(sorted_insert(t, e) =~= t.subrange(0, p) + seq![e] + t.subrange(p, t.len() as int));
    } else if lex_leq(t.last().0, e.0) {
        if p < t.len() {
            if p < t.len() - 1 {
                lemma_lex_trans(t[p].0, t.last().0, e.0);
            }
            assert(false);
        }
        assert(t.push(e) =~= t.subrange(0, p) + seq![e] + t.subrange(p, t.len() as int));
    } else {
        assert(p < t.len()) by {
            if p == t.len() {
                assert(lex_leq(t[t.len() - 1].0, e.0));
            }
        }
        let d = t.drop_last();
        assert(entries_sorted(d)) by {
            assert forall|i: int, j: int| 0 <= i < j < d.len() implies lex_leq(
                #[trigger] d[i].0,
                #[trigger] d[j].0,
            ) by {
                assert(t[i] == d[i] && t[j] == d[j]);
            }
        }
        assert(forall|j: int| 0 <= j < p ==> lex_leq(#[trigger] d[j].0, e.0)) by {
            assert(forall|j: int| 0 <= j < p ==> d[j] == t[j]);
        }
        lemma_sorted_insert_at(d, e, p);
        assert(sorted_insert(d, e).push(t.last()) =~= t.subrange(0, p) + seq![e] + t.subrange(
            p,
            t.len() as int,
        ));
    }
}

/// Sorts a map's entries by key, stably, smallest first.
fn sort_entries_exec(v: Vec<(String, Value)>) -> (r: Vec<(String, Value)>)
    ensures
        entries_view(r@) == sort_entries(entries_view(v@)),
{
    let ghost orig = entries_view(v@);
    let mut src = v;
    let mut out: Vec<(String, Value)> = Vec::new();
    let ghost mut k: int = 0;
    proof {
        assert(entries_view(out@) =~= sort_entries(orig.take(0)));
        assert(entries_view(src@) =~= orig);
    }
    while src.len() > 0
        invariant
            0 <= k <= orig.len(),
            src@.len() == orig.len() - k,
            entries_view(src@) =~= orig.skip(k),
            entries_view(out@) == sort_entries(orig.take(k)),
            entries_sorted(entries_view(out@)),
            out@.len() == k,
        decreases src@.len(),
    {
        let ghost old_src = src@;
        let ghost old_out = entries_view(out@);
        let e = src.remove(0);
        proof {
            assert((e.0@, e.1@) == orig[k]) by {
                assert(entries_view(old_src)[0] == orig.skip(k)[0]);
            }
            assert(entries_view(src@) =~= orig.skip(k + 1)) by {
                assert forall|j: int| 0 <= j < src@.len() implies entries_view(src@)[j] == orig.skip(
                    k + 1,
                )[j] by {
                    assert(src@[j] == old_src[j + 1]);
                    assert(entries_view(old_src)[j + 1] == orig.skip(k)[j + 1]);
                }
            }
        }
        let mut p: usize = 0;
        while p < out.len() && str_lex_leq(out[p].0.as_str(), e.0.as_str())
            invariant
                0 <= p <= out@.len(),
                old_out == entries_view(out@),
                forall|j: int| 0 <= j < p ==> lex_leq(#[trigger] old_out[j].0, e.0@),
            decreases out@.len() - p,
        {
            proof {
                assert(old_out[p as int].0 == out@[p as int].0@);
            }
            p = p + 1;
        }
        proof {
            assert(p < out@.len() ==> !lex_leq(old_out[p as int].0, e.0@)) by {
                if p < out@.len() {
                    assert(old_out[p as int].0 == out@[p as int].0@);
                }
            }
            lemma_sorted_insert_at(old_out, (e.0@, e.1@), p as int);
            lemma_sorted_insert_props(old_out, (e.0@, e.1@));
        }
        out.insert(p, e);
        proof {
            assert(entries_view(out@) =~= old_out.subrange(0, p as int) + seq![(e.0@, e.1@)]
                + old_out.subrange(p as int, old_out.len() as int));
            assert(orig.take(k + 1).drop_last() =~= orig.take(k));
            assert(orig.take(k + 1).last() == orig[k]);
            assert(entries_view(out@) == sorted_insert(sort_entries(orig.take(k)), orig[k]));
            k = k + 1;
        }
    }
    proof {
        assert(orig.take(k) =~= orig);
        assert(orig == entries_view(v@));
    }
    out
}

/// Prepends already-decoded characters to a partial string-decoding result.
spec fn with_prefix(b: Seq<char>, r: Option<(Seq<char>, int)>) -> Option<(Seq<char>, int)> {
    match r {
        Some((c, j)) => Some((b + c, j)),
        None => None,
    }
}

/// Decodes one quoted string, starting just after the opening quote.
fn parse_quoted(chars: &Vec<char>, start: usize) -> (r: Result<(String, usize), VdfError>)
    requires
        start <= chars@.len(),
    ensures
        match r {
            Ok(p) => spec_parse_str(chars@, start as int) == Some((p.0@, p.1 as int)) && start
                <= p.1 <= chars@.len(),
            Err(_) => spec_parse_str(chars@, start as int) is None,
        },
{
    let n = chars.len();
    let mut buf: Vec<char> = Vec::new();
    let mut i: usize = start;
    proof {
        assert(buf@ + spec_parse_str(chars@, i as int)->Some_0.0 =~= spec_parse_str(
            chars@,
            i as int,
        )->Some_0.0);
    }
    while i < n
        invariant
            start <= i <= n,
            n == chars@.len(),
            spec_parse_str(chars@, start as int) == with_prefix(
                buf@,
                spec_parse_str(chars@, i as int),
            ),
        decreases n - i,
    {
        let c = chars[i];
        if c == '"' {
            proof {
                assert(buf@ + Seq::<char>::empty() =~= buf@);
            }
            return Ok((crate::text::chars_to_string(&buf), i + 1));
        } else if c == '\\' {
            if i + 1 >= n {
                proof {
                    assert(buf@ + Seq::<char>::empty() =~= buf@);
                }
                return Ok((crate::text::chars_to_string(&buf), i + 1));
            }
            let c2 = chars[i + 1];
            let d: char = if c2 == 'r' {
                '\r'
            } else if c2 == 'n' {
                '\n'
            } else {
                c2
            };
            if !(c2 == '"' || c2 == '\\' || c2 == 'r' || c2 == 'n') {
                return Err(VdfError::InvalidData);
            }
            proof {
                let rest = spec_parse_str(chars@, i + 2);
                match rest {
                    Some((rc, rj)) => {
                        assert(buf@ + (seq![d] + rc) =~= buf@.push(d) + rc);
                    },
                    None => {},
                }
            }
            buf.push(d);
            i = i + 2;
        } else {
            proof {
                let rest = spec_parse_str(chars@, i + 1);
                match rest {
                    Some((rc, rj)) => {
                        assert(buf@ + (seq![c] + rc) =~= buf@.push(c) + rc);
                    },
                    None => {},
                }
            }
            buf.push(c);
            i = i + 1;
        }
    }
    proof {
        assert(buf@ + Seq::<char>::empty() =~= buf@);
    }
    Ok((crate::text::chars_to_string(&buf), i))
}

/// The model of the stack of suspended parent maps.
spec fn stack_view(st: Seq<(Vec<(String, Value)>, String)>) -> Seq<
    (Seq<(Seq<char>, Vdf)>, Seq<char>),
> {
    Seq::new(st.len(), |i: int| (entries_view(st[i].0@), st[i].1@))
}

/// The model of a pending key.
spec fn opt_view(o: Option<String>) -> Option<Seq<char>> {
    match o {
        Some(s) => Some(s@),
        None => None,
    }
}

/// Parses one VDF document: a single forward pass with an explicit stack
/// of partially built maps. Returns the root map, every map's entries in
/// ascending key order, or the single invalid-data failure on malformed
/// input, an unrecognized escape, or an unterminated nested block.
pub fn vdf_parse(input: &str) -> (r: Result<Value, VdfError>)
    ensures
        match r {
            Ok(v) => spec_parse(input@) == Some(v@) && vdf_wf(v@),
            Err(e) => spec_parse(input@) is None && e == VdfError::InvalidData,
        },
{
    let ghost s = input@;
    let chars = crate::text::str_chars(input);
    let n = chars.len();
    let mut stack: Vec<(Vec<(String, Value)>, String)> = Vec::new();
    let mut cur: Vec<(String, Value)> = Vec::new();
    let mut key: Option<String> = None;
    let mut i: usize = 0;
    proof {
        assert(stack_view(stack@) =~= Seq::<(Seq<(Seq<char>, Vdf)>, Seq<char>)>::empty());
        assert(entries_view(cur@) =~= Seq::<(Seq<char>, Vdf)>::empty());
    }
    while i < n
        invariant
            i <= n,
            n == s.len(),
            chars@ == s,
            s == input@,
            spec_parse(s) == spec_parse_loop(
                s,
                i as int,
                stack_view(stack@),
                entries_view(cur@),
                opt_view(key),
            ),
        decreases n - i,
    {
        let c = chars[i];
        if c == ' ' || c == '\t' || c == '\n' || c == '\r' || c == '\x0c' {
            let ghost old_i = i as int;
            i = i + 1;
            proof {
                assert(spec_parse_loop(
                    s,
                    old_i,
                    stack_view(stack@),
                    entries_view(cur@),
                    opt_view(key),
                ) == spec_parse_loop(
                    s,
                    i as int,
                    stack_view(stack@),
                    entries_view(cur@),
                    opt_view(key),
                ));
            }
        } else {
            let pending = key.is_none();
            if pending {
                if c == '"' {
                    match parse_quoted(&chars, i + 1) {
                        Ok(p) => {
                            let ghost old_i = i as int;
                            key = Some(p.0);
                            i = p.1;
                            proof {
                                assert(spec_parse_loop(
                                    s,
                                    old_i,
                                    stack_view(stack@),
                                    entries_view(cur@),
                                    None,
                                ) == spec_parse_loop(
                                    s,
                                    i as int,
                                    stack_view(stack@),
                                    entries_view(cur@),
                                    opt_view(key),
                                ));
                            }
                        },
                        Err(_) => {
                            return Err(VdfError::InvalidData);
                        },
                    }
                } else if c == '}' {
                    let ghost entry_stack = stack@;
                    match stack.pop() {
                        None => {
                            proof {
                                assert(stack_view(stack@).len() == 0);
                            }
                            return Err(VdfError::InvalidData);
                        },
                        Some(frame) => {
                            let ghost old_stack = stack_view(stack@.push(frame));
                            let ghost old_cur = entries_view(cur@);
                            let ghost parent_entries = entries_view(frame.0@);
                            let ghost parent_key = frame.1@;
                            proof {
                                assert(entry_stack =~= stack@.push(frame));
                                assert(stack_view(entry_stack) == old_stack);
                                assert(old_stack.last() == (parent_entries, parent_key));
                                assert(old_stack.drop_last() =~= stack_view(stack@));
                            }
                            let sorted = sort_entries_exec(cur);
                            proof {
                                lemma_obj_view(sorted);
                            }
                            let mut parent = frame.0;
                            parent.push((frame.1, Value::Obj(sorted)));
                            proof {
                                assert(entries_view(parent@) =~= parent_entries.push(
                                    (parent_key, Vdf::Obj(sort_entries(old_cur))),
                                ));
                            }
                            let ghost old_i = i as int;
                            cur = parent;
                            i = i + 1;
                            proof {
                                assert(spec_parse_loop(
                                    s,
                                    old_i,
                                    old_stack,
                                    old_cur,
                                    opt_view(key),
                                ) == spec_parse_loop(
                                    s,
                                    i as int,
                                    stack_view(stack@),
                                    entries_view(cur@),
                                    opt_view(key),
                                ));
                            }
                        },
                    }
                } else {
                    return Err(VdfError::InvalidData);
                }
            } else {
                match key {
                    None => {
                        proof {
                            assert(false);
                        }
                    },
                    Some(k) => {
                        key = None;
                        if c == '"' {
                            match parse_quoted(&chars, i + 1) {
                                Ok(p) => {
                                    let ghost old_cur = entries_view(cur@);
                                    let ghost old_i = i as int;
                                    cur.push((k, Value::Text(p.0)));
                                    i = p.1;
                                    proof {
                                        assert(entries_view(cur@) =~= old_cur.push(
                                            (k@, Vdf::Text(p.0@)),
                                        ));
                                    }
                                },
                                Err(_) => {
                                    return Err(VdfError::InvalidData);
                                },
                            }
                        } else if c == '{' {
                            let ghost old_stack = stack_view(stack@);
                            let ghost prev_view = entries_view(cur@);
                            let ghost key_view = k@;
                            let prev = cur;
                            cur = Vec::new();
                            stack.push((prev, k));
                            i = i + 1;
                            proof {
                                assert(stack_view(stack@) =~= old_stack.push(
                                    (prev_view, key_view),
                                ));
                                assert(entries_view(cur@) =~= Seq::<(Seq<char>, Vdf)>::empty());
                            }
                        } else {
                            return Err(VdfError::InvalidData);
                        }
                    },
                }
            }
        }
    }
    if stack.len() > 0 {
        proof {
            assert(stack_view(stack@).len() > 0);
        }
        return Err(VdfError::InvalidData);
    }
    let sorted = sort_entries_exec(cur);
    let root = Value::Obj(sorted);
    proof {
        lemma_obj_view(sorted);
        assert(stack_view(stack@).len() == 0);
        lemma_parse_wf(s);
    }
    Ok(root)
}

} // verus!
