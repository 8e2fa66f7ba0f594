//! The printer: renders a document as INI text, and the round-trip
//! law — re-parsing what the printer emits yields the same document
//! model.
//!
//! The layout: a `[name]` header per section, one `key = value` line
//! per entry, nested sections indented two more columns than their
//! parent with a blank line before each block, and a blank line after
//! each top-level section.

use vstd::prelude::*;

use crate::text::{
    is_ws, ws_run, tail_ws_run, trim, dist_to, split_lines, split_lines_from, valid_name,
    valid_key, value_token, lemma_ws_run, lemma_tail_ws_run, lemma_trim, lemma_dist_to,
};
use crate::ini_file::{IniFile, Section, SectionModel, DocModel, kv_map, sec_map};
use crate::grammar::{
    Rule, NodeModel, spec_classify, nodes_from, spec_content, spec_recognize, header_shape,
    header_name, eoi_node,
};
use crate::parser::{
    ParseError, RState, close_one, close_upto, push_scope, put_entry, reduce_from, spec_reduce,
    spec_parse, init_state,
};

verus! {

/// `n` spaces.
pub open spec fn spaces(n: nat) -> Seq<char>
    decreases n,
{
    if n == 0 {
        Seq::empty()
    } else {
        spaces((n - 1) as nat).push(' ')
    }
}

/// The printed header of a section at column `ind`.
pub open spec fn header_line(ind: nat, name: Seq<char>) -> Seq<char> {
    spaces(ind) + seq!['['] + name + seq![']']
}

/// The printed line of one entry at column `ind`.
pub open spec fn entry_line(ind: nat, key: Seq<char>, value: Seq<char>) -> Seq<char> {
    spaces(ind) + key + seq![' ', '=', ' '] + value
}

/// The printed lines of a section's entries, in storage order.
pub open spec fn entry_lines(kvs: Seq<(String, String)>, ind: nat) -> Seq<Seq<char>>
    decreases kvs.len(),
{
    if kvs.len() == 0 {
        Seq::empty()
    } else {
        entry_lines(kvs.drop_last(), ind).push(
            entry_line(ind, kvs.last().0@, kvs.last().1@),
        )
    }
}

/// The printed lines of a section: header, entries, then every nested
/// section two columns deeper.
pub open spec fn sec_lines(s: Section, ind: nat) -> Seq<Seq<char>>
    decreases s,
{
    seq![header_line(ind, s.name@)] + entry_lines(s.key_values@, ind + 2) + children_lines(
        s.nested_sections@,
        ind + 2,
    )
}

/// The printed lines of a list of nested sections, a blank line before
/// each block.
pub open spec fn children_lines(secs: Seq<Section>, ind: nat) -> Seq<Seq<char>>
    decreases secs,
{
    if secs.len() == 0 {
        Seq::empty()
    } else {
        children_lines(secs.drop_last(), ind) + seq![Seq::<char>::empty()] + sec_lines(
            secs.last(),
            ind,
        )
    }
}

/// The printed lines of the whole document: each top-level section
/// followed by a blank line.
pub open spec fn doc_lines(secs: Seq<Section>) -> Seq<Seq<char>>
    decreases secs,
{
    if secs.len() == 0 {
        Seq::empty()
    } else {
        doc_lines(secs.drop_last()) + sec_lines(secs.last(), 0) + seq![Seq::<char>::empty()]
    }
}

/// Lines joined back into text, each closed by a line break.
pub open spec fn unlines(ls: Seq<Seq<char>>) -> Seq<char>
    decreases ls.len(),
{
    if ls.len() == 0 {
        Seq::empty()
    } else {
        ls[0] + seq!['\n'] + unlines(ls.drop_first())
    }
}

/// What the printer emits for a document.
pub open spec fn print_doc(f: IniFile) -> Seq<char> {
    unlines(doc_lines(f.sections@))
}

/// The node the grammar reads back from a printed header.
pub open spec fn header_node(ind: nat, name: Seq<char>) -> NodeModel {
    NodeModel {
        rule: if ind == 0 {
            Rule::Section
        } else {
            Rule::NestedSection
        },
        indent: ind,
        text: name,
        value: Seq::empty(),
    }
}

/// The node the grammar reads back from a printed entry.
pub open spec fn kv_node(key: Seq<char>, value: Seq<char>) -> NodeModel {
    NodeModel { rule: Rule::KeyValue, indent: 0, text: key, value }
}

/// The nodes the recognizer yields for a section's entries.
pub open spec fn entry_nodes(kvs: Seq<(String, String)>) -> Seq<NodeModel>
    decreases kvs.len(),
{
    if kvs.len() == 0 {
        Seq::empty()
    } else {
        entry_nodes(kvs.drop_last()).push(kv_node(kvs.last().0@, kvs.last().1@))
    }
}

/// The nodes the recognizer yields for a printed section.
pub open spec fn sec_nodes(s: Section, ind: nat) -> Seq<NodeModel>
    decreases s,
{
    seq![header_node(ind, s.name@)] + entry_nodes(s.key_values@) + children_nodes(
        s.nested_sections@,
        ind + 2,
    )
}

/// The nodes the recognizer yields for a list of nested sections.
pub open spec fn children_nodes(secs: Seq<Section>, ind: nat) -> Seq<NodeModel>
    decreases secs,
{
    if secs.len() == 0 {
        Seq::empty()
    } else {
        children_nodes(secs.drop_last(), ind) + sec_nodes(secs.last(), ind)
    }
}

/// The nodes the recognizer yields for the printed document.
pub open spec fn doc_nodes(secs: Seq<Section>) -> Seq<NodeModel>
    decreases secs,
{
    if secs.len() == 0 {
        Seq::empty()
    } else {
        doc_nodes(secs.drop_last()) + sec_nodes(secs.last(), 0)
    }
}

/// No line break occurs in any of the lines.
pub open spec fn all_nf(ls: Seq<Seq<char>>) -> bool {
    forall|k: int, j: int|
        0 <= k < ls.len() && 0 <= j < ls[k].len() ==> (#[trigger] ls[k][j]) != '\n'
}

proof fn lemma_spaces(n: nat)
    ensures
        spaces(n).len() == n,
        forall|j: int| 0 <= j < n ==> (#[trigger] spaces(n)[j]) == ' ',
    decreases n,
{
    if n > 0 {
        lemma_spaces((n - 1) as nat);
    }
}


proof fn lemma_split_shift(s: Seq<char>, i: int)
    requires
        0 <= i <= s.len(),
    ensures
        split_lines_from(s, i) == split_lines_from(s.skip(i), 0),
    decreases s.len() - i,
{
    let r = s.skip(i);
    lemma_dist_to(s, i, '\n');
    lemma_dist_to(r, 0, '\n');
    let d1 = dist_to(s, i, '\n') as int;
    let d2 = dist_to(r, 0, '\n') as int;
    assert(forall|j: int| 0 <= j < r.len() ==> (#[trigger] r[j]) == s[i + j]);
    assert(d1 == d2) by {
        if d1 < d2 {
            assert(s[i + d1] == '\n');
            assert(r[d1] == '\n');
        }
        if d2 < d1 {
            assert(r[d2] == '\n');
            assert(s[i + d2] == '\n');
        }
    }
    if i + d1 >= s.len() {
        assert(s.subrange(i, s.len() as int) =~= r.subrange(0, r.len() as int));
        assert(split_lines_from(s, i) == seq![s.subrange(i, s.len() as int)]);
        assert(split_lines_from(r, 0) == seq![r.subrange(0, r.len() as int)]);
    } else {
        lemma_split_shift(s, i + d1 + 1);
        lemma_split_shift(r, d2 + 1);
        assert(s.skip(i + d1 + 1) =~= r.skip(d2 + 1));
        assert(s.subrange(i, i + d1) =~= r.subrange(0, d2));
    }
}

proof fn lemma_split_unlines(ls: Seq<Seq<char>>)
    requires
        all_nf(ls),
    ensures
        split_lines(unlines(ls)) == ls.push(Seq::empty()),
    decreases ls.len(),
{
    let s = unlines(ls);
    if ls.len() == 0 {
        assert(s.len() == 0);
        assert(dist_to(s, 0, '\n') == 0);
        assert(s.subrange(0, 0) =~= Seq::<char>::empty());
        assert(split_lines(s) == seq![s.subrange(0, 0)]);
        assert(seq![Seq::<char>::empty()] =~= ls.push(Seq::<char>::empty()));
    } else {
        let l0 = ls[0];
        let rest = ls.drop_first();
        assert(s == l0 + seq!['\n'] + unlines(rest));
        lemma_dist_to(s, 0, '\n');
        let d = dist_to(s, 0, '\n') as int;
        assert(forall|j: int| 0 <= j < l0.len() ==> (#[trigger] s[j]) == l0[j]);
        assert(s[l0.len() as int] == '\n');
        assert(forall|j: int| 0 <= j < l0.len() ==> (#[trigger] l0[j]) != '\n') by {
            assert(forall|j: int| 0 <= j < l0.len() ==> ls[0][j] == (#[trigger] l0[j]));
        }
        assert(d == l0.len()) by {
            if d < l0.len() {
                assert(s[d] == '\n');
                assert(l0[d] != '\n');
            }
            if d > l0.len() {
                assert(s[l0.len() as int] != '\n');
            }
        }
        assert(d < s.len());
        lemma_split_shift(s, d + 1);
        assert(s.skip(d + 1) =~= unlines(rest));
        assert(all_nf(rest)) by {
            assert(forall|k: int, j: int|
                0 <= k < rest.len() && 0 <= j < rest[k].len() ==> (#[trigger] rest[k][j])
                    == ls[k + 1][j]);
        }
        lemma_split_unlines(rest);
        assert(s.subrange(0, d) =~= l0);
        assert(split_lines(s) == seq![l0] + split_lines(unlines(rest)));
        assert(seq![l0] + rest.push(Seq::<char>::empty()) =~= ls.push(Seq::<char>::empty()));
    }
}

/// Pins the trimmed middle of a line that is whitespace up to `a`,
/// payload on `[a, b)`, and whitespace from `b` on.
proof fn lemma_trim_pin(l: Seq<char>, a: int, b: int)
    requires
        0 <= a < b <= l.len(),
        forall|j: int| 0 <= j < a ==> is_ws(#[trigger] l[j], false),
        forall|j: int| b <= j < l.len() ==> is_ws(#[trigger] l[j], false),
        !is_ws(l[a], false),
        !is_ws(l[b - 1], false),
    ensures
        ws_run(l, 0, false) == a,
        tail_ws_run(l, l.len() as int, false) == l.len() - b,
        trim(l, false) == l.subrange(a, b),
{
    lemma_ws_run(l, 0, false);
    lemma_tail_ws_run(l, l.len() as int, false);
    let r = ws_run(l, 0, false) as int;
    assert(r == a) by {
        if r < a {
            assert(is_ws(l[r], false));
        }
        if r > a {
            assert(is_ws(l[a], false));
        }
    }
    let t = tail_ws_run(l, l.len() as int, false) as int;
    assert(t == l.len() - b) by {
        if t < l.len() - b {
            assert(is_ws(l[l.len() - t - 1], false));
        }
        if t > l.len() - b {
            assert(is_ws(l[b - 1], false));
        }
    }
    assert(trim(l, false) =~= l.subrange(a, b));
}

proof fn lemma_classify_header_line(ind: nat, name: Seq<char>)
    requires
        valid_name(name),
    ensures
        spec_classify(header_line(ind, name)) == Ok::<Option<NodeModel>, Rule>(
            Some(header_node(ind, name)),
        ),
{
    let l = header_line(ind, name);
    lemma_spaces(ind);
    assert(l.len() == ind + name.len() + 2);
    assert forall|j: int| 0 <= j < ind implies is_ws(#[trigger] l[j], false) by {
        assert(l[j] == spaces(ind)[j]);
    }
    assert(l[ind as int] == '[');
    assert(l[l.len() - 1] == ']');
    assert(forall|j: int| 0 <= j < name.len() ==> l[ind + 1 + j] == (#[trigger] name[j]));
    lemma_trim_pin(l, ind as int, l.len() as int);
    let t = trim(l, false);
    assert(t =~= l.subrange(ind as int, l.len() as int));
    assert(t.len() == name.len() + 2);
    assert(t[0] == '[');
    assert(t[t.len() - 1] == ']');
    assert forall|j: int| 1 <= j < t.len() - 1 implies (#[trigger] t[j]) != '[' && t[j]
        != ']' by {
        assert(t[j] == l[ind + j]);
        assert(l[ind + 1 + (j - 1)] == name[j - 1]);
    }
    assert(header_shape(t));
    assert(header_name(t) =~= name);
    assert(ws_run(l, 0, false) == ind);
}

proof fn lemma_classify_entry_line(ind: nat, key: Seq<char>, value: Seq<char>)
    requires
        valid_key(key),
        value_token(value),
    ensures
        spec_classify(entry_line(ind, key, value)) == Ok::<Option<NodeModel>, Rule>(
            Some(kv_node(key, value)),
        ),
{
    let l = entry_line(ind, key, value);
    lemma_spaces(ind);
    lemma_trim(key, false);
    lemma_trim(value, false);
    assert(!is_ws(key[0], false));
    assert(!is_ws(key[key.len() - 1], false));
    assert(l.len() == ind + key.len() + 3 + value.len());
    assert forall|j: int| 0 <= j < ind implies is_ws(#[trigger] l[j], false) by {
        assert(l[j] == spaces(ind)[j]);
    }
    assert(forall|j: int| 0 <= j < key.len() ==> l[ind + j] == (#[trigger] key[j]));
    assert(l[(ind + key.len()) as int] == ' ');
    assert(l[(ind + key.len() + 1) as int] == '=');
    assert(l[(ind + key.len() + 2) as int] == ' ');
    assert(forall|j: int|
        0 <= j < value.len() ==> l[ind + key.len() + 3 + j] == (#[trigger] value[j]));
    let a = ind as int;
    let b: int = if value.len() == 0 {
        (ind + key.len() + 2) as int
    } else {
        l.len() as int
    };
    if value.len() == 0 {
        assert(!is_ws(l[b - 1], false));
        lemma_trim_pin(l, a, b);
    } else {
        assert(!is_ws(value[value.len() - 1], false));
        assert(!is_ws(l[b - 1], false));
        lemma_trim_pin(l, a, b);
    }
    let t = trim(l, false);
    assert(t =~= l.subrange(a, b));
    assert(t[0] == key[0]);
    assert(t[0] != ';' && t[0] != '[');
    assert(forall|j: int| 0 <= j < key.len() ==> (#[trigger] t[j]) == key[j]);
    assert(t[key.len() as int] == ' ');
    assert(t[key.len() as int + 1] == '=');
    lemma_dist_to(t, 0, '=');
    let e = dist_to(t, 0, '=') as int;
    assert(e == key.len() + 1) by {
        if e < key.len() + 1 {
            assert(t[e] == '=');
            if e < key.len() {
                assert(t[e] == key[e]);
            }
        }
        if e > key.len() + 1 {
            assert(t[key.len() as int + 1] != '=');
        }
    }
    assert(e < t.len());
    let sub = t.subrange(0, e);
    assert(sub.len() == key.len() + 1);
    assert(forall|j: int| 0 <= j < key.len() ==> (#[trigger] sub[j]) == key[j]);
    assert(sub[key.len() as int] == ' ');
    lemma_trim_pin(sub, 0, key.len() as int);
    assert(trim(sub, false) =~= key);
    let vsub = t.subrange(e + 1, t.len() as int);
    if value.len() == 0 {
        assert(vsub =~= Seq::<char>::empty());
        assert(trim(vsub, false) =~= value);
    } else {
        assert(vsub.len() == value.len() + 1);
        assert(vsub[0] == ' ');
        assert(forall|j: int| 0 <= j < value.len() ==> (#[trigger] vsub[j + 1]) == value[j]);
        assert(is_ws(vsub[0], false));
        assert(!is_ws(vsub[1], false));
        assert(!is_ws(vsub[vsub.len() - 1], false));
        lemma_trim_pin(vsub, 1, vsub.len() as int);
        assert(trim(vsub, false) =~= value);
    }
    assert(trim(t.subrange(0, e), false).len() > 0);
}


/// The scopes still open right after a section's nodes are folded:
/// the section itself and, below it, the chain of its last children.
pub open spec fn open_spine(s: Section, ind: nat) -> Seq<(nat, SectionModel)>
    decreases s,
{
    if s.nested_sections@.len() == 0 {
        seq![(ind, s.model())]
    } else {
        seq![
            (
                ind,
                SectionModel {
                    name: s.name@,
                    entries: kv_map(s.key_values@),
                    children: sec_map(s.nested_sections@.drop_last()),
                },
            ),
        ] + open_spine(s.nested_sections@.last(), (ind + 2) as nat)
    }
}

/// `m` with every pair of `kvs` written into it, in order.
pub open spec fn merge_entries(m: Map<Seq<char>, Seq<char>>, kvs: Seq<(String, String)>) -> Map<
    Seq<char>,
    Seq<char>,
>
    decreases kvs.len(),
{
    if kvs.len() == 0 {
        m
    } else {
        merge_entries(m, kvs.drop_last()).insert(kvs.last().0@, kvs.last().1@)
    }
}

/// `m` with every section of `secs` written into it under its name, in
/// order.
pub open spec fn merge_sections(m: Map<Seq<char>, SectionModel>, secs: Seq<Section>) -> Map<
    Seq<char>,
    SectionModel,
>
    decreases secs,
{
    if secs.len() == 0 {
        m
    } else {
        merge_sections(m, secs.drop_last()).insert(secs.last().name@, secs.last().model())
    }
}

proof fn lemma_merge_entries_empty(kvs: Seq<(String, String)>)
    ensures
        merge_entries(Map::empty(), kvs) == kv_map(kvs),
    decreases kvs.len(),
{
    if kvs.len() > 0 {
        lemma_merge_entries_empty(kvs.drop_last());
    }
}

proof fn lemma_merge_sections_empty(secs: Seq<Section>)
    ensures
        merge_sections(Map::empty(), secs) == sec_map(secs),
    decreases secs.len(),
{
    if secs.len() > 0 {
        lemma_merge_sections_empty(secs.drop_last());
    }
}

/// Closing a spine of open scopes folds it into the single section it
/// prints.
proof fn lemma_spine_collapse(
    stk: Seq<(nat, SectionModel)>,
    done: Map<Seq<char>, SectionModel>,
    s: Section,
    ind: nat,
    j: nat,
)
    requires
        j <= ind,
    ensures
        close_upto(RState { stack: stk + open_spine(s, ind), done }, j) == close_upto(
            RState { stack: stk.push((ind, s.model())), done },
            j,
        ),
    decreases s,
{
    if s.nested_sections@.len() == 0 {
        assert(stk + open_spine(s, ind) =~= stk.push((ind, s.model())));
    } else {
        let lc = s.nested_sections@.last();
        let part = SectionModel {
            name: s.name@,
            entries: kv_map(s.key_values@),
            children: sec_map(s.nested_sections@.drop_last()),
        };
        assert(stk + open_spine(s, ind) =~= (stk.push((ind, part))) + open_spine(
            lc,
            (ind + 2) as nat,
        ));
        lemma_spine_collapse(stk.push((ind, part)), done, lc, (ind + 2) as nat, j);
        let st2 = RState {
            stack: stk.push((ind, part)).push((((ind + 2) as nat), lc.model())),
            done,
        };
        assert(st2.stack.len() >= 2);
        assert(st2.stack.last() == (((ind + 2) as nat), lc.model()));
        assert(st2.stack[st2.stack.len() - 2] == (ind, part));
        assert(sec_map(s.nested_sections@.drop_last()).insert(lc.name@, lc.model()) == sec_map(
            s.nested_sections@,
        ));
        assert(close_one(st2).stack =~= stk.push((ind, s.model())));
        assert(close_one(st2) =~= RState { stack: stk.push((ind, s.model())), done });
        assert(close_upto(st2, j) == close_upto(close_one(st2), j));
    }
}

/// Closing scopes to column zero leaves no scope open.
proof fn lemma_close_all(st: RState)
    ensures
        close_upto(st, 0).stack.len() == 0,
    decreases st.stack.len(),
{
    if st.stack.len() > 0 {
        lemma_close_all(close_one(st));
    }
}

/// Folding a run of key/value nodes writes them into the innermost
/// open scope.
proof fn lemma_reduce_entries(
    nodes: Seq<NodeModel>,
    i: int,
    st: RState,
    kvs: Seq<(String, String)>,
)
    requires
        st.stack.len() > 0,
        0 <= i,
        i + entry_nodes(kvs).len() <= nodes.len(),
        forall|j: int|
            0 <= j < entry_nodes(kvs).len() ==> nodes[i + j] == entry_nodes(kvs)[j],
    ensures
        entry_nodes(kvs).len() == kvs.len(),
        reduce_from(nodes, i, st) == reduce_from(
            nodes,
            i + kvs.len(),
            RState {
                stack: st.stack.drop_last().push(
                    (
                        st.stack.last().0,
                        SectionModel {
                            entries: merge_entries(st.stack.last().1.entries, kvs),
                            ..st.stack.last().1
                        },
                    ),
                ),
                done: st.done,
            },
        ),
    decreases kvs.len(),
{
    let top = st.stack.last();
    if kvs.len() == 0 {
        assert(st.stack.drop_last().push(
            (top.0, SectionModel { entries: merge_entries(top.1.entries, kvs), ..top.1 }),
        ) =~= st.stack);
        assert(RState {
            stack: st.stack.drop_last().push(
                (top.0, SectionModel { entries: merge_entries(top.1.entries, kvs), ..top.1 }),
            ),
            done: st.done,
        } =~= st);
    } else {
        let pre = kvs.drop_last();
        assert(forall|j: int|
            0 <= j < entry_nodes(pre).len() ==> entry_nodes(pre)[j] == entry_nodes(kvs)[j]);
        lemma_reduce_entries(nodes, i, st, pre);
        let sta = RState {
            stack: st.stack.drop_last().push(
                (top.0, SectionModel { entries: merge_entries(top.1.entries, pre), ..top.1 }),
            ),
            done: st.done,
        };
        let m = i + pre.len();
        assert(entry_nodes(kvs)[kvs.len() - 1] == kv_node(kvs.last().0@, kvs.last().1@));
        assert(nodes[m] == entry_nodes(kvs)[kvs.len() - 1]);
        assert(nodes[m] == kv_node(kvs.last().0@, kvs.last().1@));
        assert(sta.stack.len() > 0);
        assert(put_entry(sta, kvs.last().0@, kvs.last().1@) =~= RState {
            stack: st.stack.drop_last().push(
                (top.0, SectionModel { entries: merge_entries(top.1.entries, kvs), ..top.1 }),
            ),
            done: st.done,
        });
        assert(reduce_from(nodes, m, sta) == reduce_from(
            nodes,
            m + 1,
            put_entry(sta, kvs.last().0@, kvs.last().1@),
        ));
    }
}

/// The state after a run of nested-section blocks is folded: all but
/// the last are written into the enclosing scope, the last stays open
/// as a spine.
pub open spec fn after_children(st: RState, secs: Seq<Section>, ind: nat) -> RState {
    if secs.len() == 0 {
        st
    } else {
        RState {
            stack: st.stack.drop_last().push(
                (
                    st.stack.last().0,
                    SectionModel {
                        children: merge_sections(st.stack.last().1.children, secs.drop_last()),
                        ..st.stack.last().1
                    },
                ),
            ) + open_spine(secs.last(), ind),
            done: st.done,
        }
    }
}

/// Folding the nodes of one printed section opens its spine on top of
/// the scopes that survive its header.
proof fn lemma_reduce_sec(nodes: Seq<NodeModel>, i: int, st: RState, s: Section, ind: nat)
    requires
        0 <= i,
        i + sec_nodes(s, ind).len() <= nodes.len(),
        forall|j: int|
            0 <= j < sec_nodes(s, ind).len() ==> nodes[i + j] == sec_nodes(s, ind)[j],
        ind > 0 ==> close_upto(st, ind).stack.len() > 0,
    ensures
        reduce_from(nodes, i, st) == reduce_from(
            nodes,
            i + sec_nodes(s, ind).len(),
            RState {
                stack: close_upto(st, ind).stack + open_spine(s, ind),
                done: close_upto(st, ind).done,
            },
        ),
    decreases s,
{
    let kvs = s.key_values@;
    let children = s.nested_sections@;
    let hn = header_node(ind, s.name@);
    assert(sec_nodes(s, ind)[0] == hn);
    assert(nodes[i] == sec_nodes(s, ind)[0]);
    let st1 = close_upto(st, ind);
    let stp = push_scope(st1, ind, s.name@);
    assert(reduce_from(nodes, i, st) == reduce_from(nodes, i + 1, stp));
    assert forall|j: int|
        0 <= j < entry_nodes(kvs).len() implies nodes[i + 1 + j] == #[trigger] entry_nodes(
        kvs,
    )[j] by {
        assert(sec_nodes(s, ind)[1 + j] == entry_nodes(kvs)[j]);
        assert(nodes[i + (1 + j)] == sec_nodes(s, ind)[1 + j]);
    }
    lemma_reduce_entries(nodes, i + 1, stp, kvs);
    lemma_merge_entries_empty(kvs);
    let fresh = SectionModel {
        name: s.name@,
        entries: kv_map(kvs),
        children: Map::empty(),
    };
    let ste = RState { stack: st1.stack.push((ind, fresh)), done: st1.done };
    assert(stp.stack.drop_last().push(
        (
            stp.stack.last().0,
            SectionModel {
                entries: merge_entries(stp.stack.last().1.entries, kvs),
                ..stp.stack.last().1
            },
        ),
    ) =~= ste.stack);
    assert(RState {
        stack: stp.stack.drop_last().push(
            (
                stp.stack.last().0,
                SectionModel {
                    entries: merge_entries(stp.stack.last().1.entries, kvs),
                    ..stp.stack.last().1
                },
            ),
        ),
        done: stp.done,
    } =~= ste);
    let ci = i + 1 + kvs.len();
    assert forall|j: int|
        0 <= j < children_nodes(children, (ind + 2) as nat).len() implies nodes[ci + j]
            == #[trigger] children_nodes(children, (ind + 2) as nat)[j] by {
        assert(sec_nodes(s, ind)[1 + entry_nodes(kvs).len() + j] == children_nodes(
            children,
            (ind + 2) as nat,
        )[j]);
        assert(nodes[i + (1 + entry_nodes(kvs).len() + j)] == sec_nodes(s, ind)[1
            + entry_nodes(kvs).len() + j]);
    }
    lemma_reduce_children(nodes, ci, ste, children, (ind + 2) as nat);
    let aft = after_children(ste, children, (ind + 2) as nat);
    if children.len() == 0 {
        assert(open_spine(s, ind) =~= seq![(ind, s.model())]);
        assert(s.model() =~= fresh);
        assert(aft.stack =~= st1.stack + open_spine(s, ind));
        assert(aft =~= RState {
            stack: st1.stack + open_spine(s, ind),
            done: st1.done,
        });
    } else {
        lemma_merge_sections_empty(children.drop_last());
        assert(ste.stack.drop_last() =~= st1.stack);
        assert(aft.stack =~= st1.stack.push(
            (
                ind,
                SectionModel {
                    name: s.name@,
                    entries: kv_map(kvs),
                    children: sec_map(children.drop_last()),
                },
            ),
        ) + open_spine(children.last(), (ind + 2) as nat));
        assert(st1.stack + open_spine(s, ind) =~= aft.stack);
        assert(aft =~= RState {
            stack: st1.stack + open_spine(s, ind),
            done: st1.done,
        });
    }
}

/// Folding the nodes of a run of nested-section blocks.
proof fn lemma_reduce_children(
    nodes: Seq<NodeModel>,
    i: int,
    st: RState,
    secs: Seq<Section>,
    ind: nat,
)
    requires
        0 <= i,
        i + children_nodes(secs, ind).len() <= nodes.len(),
        forall|j: int|
            0 <= j < children_nodes(secs, ind).len() ==> nodes[i + j] == children_nodes(
                secs,
                ind,
            )[j],
        ind > 0,
        st.stack.len() > 0,
        st.stack.last().0 < ind,
    ensures
        reduce_from(nodes, i, st) == reduce_from(
            nodes,
            i + children_nodes(secs, ind).len(),
            after_children(st, secs, ind),
        ),
    decreases secs,
{
    if secs.len() == 0 {
    } else {
        let pre = secs.drop_last();
        let top = st.stack.last();
        assert(forall|j: int|
            0 <= j < children_nodes(pre, ind).len() ==> children_nodes(pre, ind)[j]
                == children_nodes(secs, ind)[j]);
        lemma_reduce_children(nodes, i, st, pre, ind);
        let sta = after_children(st, pre, ind);
        let ci = i + children_nodes(pre, ind).len();
        assert forall|j: int|
            0 <= j < sec_nodes(secs.last(), ind).len() implies nodes[ci + j]
                == #[trigger] sec_nodes(secs.last(), ind)[j] by {
            assert(children_nodes(secs, ind)[children_nodes(pre, ind).len() + j] == sec_nodes(
                secs.last(),
                ind,
            )[j]);
            assert(nodes[i + (children_nodes(pre, ind).len() + j)] == children_nodes(
                secs,
                ind,
            )[children_nodes(pre, ind).len() + j]);
        }
        let merged = RState {
            stack: st.stack.drop_last().push(
                (
                    top.0,
                    SectionModel {
                        children: merge_sections(top.1.children, pre),
                        ..top.1
                    },
                ),
            ),
            done: st.done,
        };
        if pre.len() == 0 {
            assert(close_upto(sta, ind) == sta);
            assert(merged.stack =~= st.stack);
            assert(close_upto(st, ind) =~= merged);
        } else {
            let base = st.stack.drop_last().push(
                (
                    top.0,
                    SectionModel {
                        children: merge_sections(top.1.children, pre.drop_last()),
                        ..top.1
                    },
                ),
            );
            assert(sta.stack =~= base + open_spine(pre.last(), ind));
            lemma_spine_collapse(base, st.done, pre.last(), ind, ind);
            let st2 = RState { stack: base.push((ind, pre.last().model())), done: st.done };
            assert(st2.stack.len() >= 2);
            assert(st2.stack.last() == (ind, pre.last().model()));
            assert(st2.stack[st2.stack.len() - 2] == base.last());
            assert(close_one(st2).stack =~= merged.stack);
            assert(close_one(st2) =~= merged);
            assert(close_upto(st2, ind) == close_upto(close_one(st2), ind));
            assert(close_upto(merged, ind) == merged);
            assert(close_upto(sta, ind) == merged);
        }
        lemma_reduce_sec(nodes, ci, sta, secs.last(), ind);
        assert(close_upto(sta, ind) =~= merged);
        assert(RState {
            stack: close_upto(sta, ind).stack + open_spine(secs.last(), ind),
            done: close_upto(sta, ind).done,
        } =~= after_children(st, secs, ind));
    }
}

/// The state after a run of top-level sections is folded.
pub open spec fn after_tops(st: RState, secs: Seq<Section>) -> RState {
    if secs.len() == 0 {
        st
    } else {
        RState {
            stack: open_spine(secs.last(), 0),
            done: merge_sections(close_upto(st, 0).done, secs.drop_last()),
        }
    }
}

/// Folding the nodes of the printed document.
proof fn lemma_reduce_doc(nodes: Seq<NodeModel>, i: int, st: RState, secs: Seq<Section>)
    requires
        0 <= i,
        i + doc_nodes(secs).len() <= nodes.len(),
        forall|j: int| 0 <= j < doc_nodes(secs).len() ==> nodes[i + j] == doc_nodes(secs)[j],
    ensures
        reduce_from(nodes, i, st) == reduce_from(
            nodes,
            i + doc_nodes(secs).len(),
            after_tops(st, secs),
        ),
    decreases secs,
{
    if secs.len() == 0 {
    } else {
        let pre = secs.drop_last();
        assert(forall|j: int|
            0 <= j < doc_nodes(pre).len() ==> doc_nodes(pre)[j] == doc_nodes(secs)[j]);
        lemma_reduce_doc(nodes, i, st, pre);
        let sta = after_tops(st, pre);
        let ci = i + doc_nodes(pre).len();
        assert forall|j: int|
            0 <= j < sec_nodes(secs.last(), 0).len() implies nodes[ci + j]
                == #[trigger] sec_nodes(secs.last(), 0)[j] by {
            assert(doc_nodes(secs)[doc_nodes(pre).len() + j] == sec_nodes(secs.last(), 0)[j]);
            assert(nodes[i + (doc_nodes(pre).len() + j)] == doc_nodes(secs)[doc_nodes(
                pre,
            ).len() + j]);
        }
        lemma_reduce_sec(nodes, ci, sta, secs.last(), 0);
        if pre.len() == 0 {
            lemma_close_all(sta);
            assert(close_upto(sta, 0).stack =~= Seq::<(nat, SectionModel)>::empty());
            assert(close_upto(sta, 0).done == close_upto(st, 0).done);
            assert(RState {
                stack: close_upto(sta, 0).stack + open_spine(secs.last(), 0),
                done: close_upto(sta, 0).done,
            } =~= after_tops(st, secs));
        } else {
            assert(sta.stack =~= Seq::empty() + open_spine(pre.last(), 0));
            lemma_spine_collapse(Seq::empty(), sta.done, pre.last(), 0, 0);
            let st2 = RState {
                stack: Seq::<(nat, SectionModel)>::empty().push((0, pre.last().model())),
                done: sta.done,
            };
            assert(st2.stack.len() == 1);
            assert(st2.stack.last() == (0nat, pre.last().model()));
            assert(close_one(st2).stack =~= Seq::<(nat, SectionModel)>::empty());
            assert(close_one(st2).done == sta.done.insert(pre.last().name@, pre.last().model()));
            assert(close_upto(st2, 0) == close_upto(close_one(st2), 0));
            assert(close_upto(close_one(st2), 0) == close_one(st2));
            assert(close_upto(sta, 0).done == merge_sections(close_upto(st, 0).done, pre));
            assert(close_upto(sta, 0).stack =~= Seq::<(nat, SectionModel)>::empty());
            assert(RState {
                stack: close_upto(sta, 0).stack + open_spine(secs.last(), 0),
                done: close_upto(sta, 0).done,
            } =~= after_tops(st, secs));
        }
    }
}


proof fn lemma_all_nf_concat(a: Seq<Seq<char>>, b: Seq<Seq<char>>)
    requires
        all_nf(a),
        all_nf(b),
    ensures
        all_nf(a + b),
{
    assert forall|k: int, j: int|
        0 <= k < (a + b).len() && 0 <= j < (a + b)[k].len() implies (#[trigger] (a + b)[k][j])
            != '\n' by {
        if k < a.len() {
            assert((a + b)[k] == a[k]);
            assert(a[k][j] != '\n');
        } else {
            assert((a + b)[k] == b[k - a.len()]);
            assert(b[k - a.len()][j] != '\n');
        }
    }
}

proof fn lemma_all_nf_one(l: Seq<char>)
    requires
        forall|j: int| 0 <= j < l.len() ==> (#[trigger] l[j]) != '\n',
    ensures
        all_nf(seq![l]),
{
    assert forall|k: int, j: int|
        0 <= k < seq![l].len() && 0 <= j < seq![l][k].len() implies (#[trigger] seq![l][k][j])
            != '\n' by {
        assert(seq![l][k] == l);
    }
}

proof fn lemma_header_line_nf(ind: nat, name: Seq<char>)
    requires
        valid_name(name),
    ensures
        forall|j: int|
            0 <= j < header_line(ind, name).len() ==> (#[trigger] header_line(ind, name)[j])
                != '\n',
{
    let l = header_line(ind, name);
    lemma_spaces(ind);
    assert forall|j: int| 0 <= j < l.len() implies (#[trigger] l[j]) != '\n' by {
        if j < ind {
            assert(l[j] == spaces(ind)[j]);
        } else if j == ind {
            assert(l[j] == '[');
        } else if j < ind + 1 + name.len() {
            assert(l[j] == name[j - ind - 1]);
        } else {
            assert(l[j] == ']');
        }
    }
}

proof fn lemma_entry_line_nf(ind: nat, key: Seq<char>, value: Seq<char>)
    requires
        valid_key(key),
        value_token(value),
    ensures
        forall|j: int|
            0 <= j < entry_line(ind, key, value).len() ==> (#[trigger] entry_line(
                ind,
                key,
                value,
            )[j]) != '\n',
{
    let l = entry_line(ind, key, value);
    lemma_spaces(ind);
    assert forall|j: int| 0 <= j < l.len() implies (#[trigger] l[j]) != '\n' by {
        if j < ind {
            assert(l[j] == spaces(ind)[j]);
        } else if j < ind + key.len() {
            assert(l[j] == key[j - ind]);
        } else if j < ind + key.len() + 3 {
            assert(l[j] == seq![' ', '=', ' '][j - ind - key.len()]);
        } else {
            assert(l[j] == value[j - ind - key.len() - 3]);
        }
    }
}

proof fn lemma_entry_lines_nf(kvs: Seq<(String, String)>, ind: nat)
    requires
        forall|j: int|
            0 <= j < kvs.len() ==> valid_key((#[trigger] kvs[j]).0@) && value_token(kvs[j].1@),
    ensures
        all_nf(entry_lines(kvs, ind)),
    decreases kvs.len(),
{
    if kvs.len() > 0 {
        let pre = kvs.drop_last();
        lemma_entry_lines_nf(pre, ind);
        let last = entry_line(ind, kvs.last().0@, kvs.last().1@);
        assert(kvs[kvs.len() - 1] == kvs.last());
        lemma_entry_line_nf(ind, kvs.last().0@, kvs.last().1@);
        lemma_all_nf_one(last);
        lemma_all_nf_concat(entry_lines(pre, ind), seq![last]);
        assert(entry_lines(kvs, ind) =~= entry_lines(pre, ind) + seq![last]);
    }
}

proof fn lemma_sec_lines_nf(s: Section, ind: nat)
    requires
        s.wf(),
    ensures
        all_nf(sec_lines(s, ind)),
    decreases s,
{
    lemma_header_line_nf(ind, s.name@);
    lemma_all_nf_one(header_line(ind, s.name@));
    lemma_entry_lines_nf(s.key_values@, (ind + 2) as nat);
    lemma_children_lines_nf(s.nested_sections@, (ind + 2) as nat);
    lemma_all_nf_concat(seq![header_line(ind, s.name@)], entry_lines(s.key_values@, (ind + 2) as nat));
    lemma_all_nf_concat(
        seq![header_line(ind, s.name@)] + entry_lines(s.key_values@, (ind + 2) as nat),
        children_lines(s.nested_sections@, (ind + 2) as nat),
    );
}

proof fn lemma_children_lines_nf(secs: Seq<Section>, ind: nat)
    requires
        forall|k: int| 0 <= k < secs.len() ==> (#[trigger] secs[k]).wf(),
    ensures
        all_nf(children_lines(secs, ind)),
    decreases secs,
{
    if secs.len() > 0 {
        let pre = secs.drop_last();
        lemma_children_lines_nf(pre, ind);
        assert(secs[secs.len() - 1] == secs.last());
        lemma_sec_lines_nf(secs.last(), ind);
        lemma_all_nf_one(Seq::<char>::empty());
        lemma_all_nf_concat(children_lines(pre, ind), seq![Seq::<char>::empty()]);
        lemma_all_nf_concat(
            children_lines(pre, ind) + seq![Seq::<char>::empty()],
            sec_lines(secs.last(), ind),
        );
    }
}

proof fn lemma_doc_lines_nf(secs: Seq<Section>)
    requires
        forall|k: int| 0 <= k < secs.len() ==> (#[trigger] secs[k]).wf(),
    ensures
        all_nf(doc_lines(secs)),
    decreases secs,
{
    if secs.len() > 0 {
        let pre = secs.drop_last();
        lemma_doc_lines_nf(pre);
        assert(secs[secs.len() - 1] == secs.last());
        lemma_sec_lines_nf(secs.last(), 0);
        lemma_all_nf_one(Seq::<char>::empty());
        lemma_all_nf_concat(doc_lines(pre), sec_lines(secs.last(), 0));
        lemma_all_nf_concat(
            doc_lines(pre) + sec_lines(secs.last(), 0),
            seq![Seq::<char>::empty()],
        );
    }
}

/// Recognizing a run of printed entry lines appends their nodes.
proof fn lemma_nodes_entries(
    lines: Seq<Seq<char>>,
    i: int,
    acc: Seq<NodeModel>,
    kvs: Seq<(String, String)>,
    ind: nat,
)
    requires
        0 <= i,
        forall|j: int|
            0 <= j < kvs.len() ==> valid_key((#[trigger] kvs[j]).0@) && value_token(kvs[j].1@),
        i + entry_lines(kvs, ind).len() <= lines.len(),
        forall|j: int|
            0 <= j < entry_lines(kvs, ind).len() ==> lines[i + j] == #[trigger] entry_lines(
                kvs,
                ind,
            )[j],
    ensures
        entry_lines(kvs, ind).len() == kvs.len(),
        nodes_from(lines, i, true, acc) == nodes_from(
            lines,
            i + kvs.len(),
            true,
            acc + entry_nodes(kvs),
        ),
    decreases kvs.len(),
{
    if kvs.len() == 0 {
        assert(acc + entry_nodes(kvs) =~= acc);
    } else {
        let pre = kvs.drop_last();
        assert forall|j: int|
            0 <= j < entry_lines(pre, ind).len() implies lines[i + j] == #[trigger] entry_lines(
            pre,
            ind,
        )[j] by {
            assert(entry_lines(pre, ind)[j] == entry_lines(kvs, ind)[j]);
        }
        lemma_nodes_entries(lines, i, acc, pre, ind);
        let m = i + pre.len();
        assert(kvs[kvs.len() - 1] == kvs.last());
        assert(entry_lines(kvs, ind)[kvs.len() - 1] == entry_line(
            ind,
            kvs.last().0@,
            kvs.last().1@,
        ));
        assert(lines[m] == entry_lines(kvs, ind)[kvs.len() - 1]);
        lemma_classify_entry_line(ind, kvs.last().0@, kvs.last().1@);
        assert((acc + entry_nodes(pre)).push(kv_node(kvs.last().0@, kvs.last().1@)) =~= acc
            + entry_nodes(kvs));
    }
}

/// Recognizing one printed section appends its nodes and leaves the
/// section flag set.
proof fn lemma_nodes_sec(
    lines: Seq<Seq<char>>,
    i: int,
    seen0: bool,
    acc: Seq<NodeModel>,
    s: Section,
    ind: nat,
)
    requires
        s.wf(),
        0 <= i,
        i + sec_lines(s, ind).len() <= lines.len(),
        forall|j: int|
            0 <= j < sec_lines(s, ind).len() ==> lines[i + j] == #[trigger] sec_lines(
                s,
                ind,
            )[j],
        ind > 0 ==> seen0,
    ensures
        nodes_from(lines, i, seen0, acc) == nodes_from(
            lines,
            i + sec_lines(s, ind).len(),
            true,
            acc + sec_nodes(s, ind),
        ),
    decreases s,
{
    let kvs = s.key_values@;
    let children = s.nested_sections@;
    let sub = (ind + 2) as nat;
    let hn = header_node(ind, s.name@);
    assert(sec_lines(s, ind)[0] == header_line(ind, s.name@));
    assert(lines[i] == sec_lines(s, ind)[0]);
    lemma_classify_header_line(ind, s.name@);
    assert(nodes_from(lines, i, seen0, acc) == nodes_from(lines, i + 1, true, acc.push(hn)));
    assert forall|j: int|
        0 <= j < entry_lines(kvs, sub).len() implies lines[i + 1 + j] == #[trigger] entry_lines(
        kvs,
        sub,
    )[j] by {
        assert(sec_lines(s, ind)[1 + j] == entry_lines(kvs, sub)[j]);
        assert(lines[i + (1 + j)] == sec_lines(s, ind)[1 + j]);
    }
    lemma_nodes_entries(lines, i + 1, acc.push(hn), kvs, sub);
    let ci = i + 1 + kvs.len();
    assert forall|j: int|
        0 <= j < children_lines(children, sub).len() implies lines[ci + j]
            == #[trigger] children_lines(children, sub)[j] by {
        assert(sec_lines(s, ind)[1 + entry_lines(kvs, sub).len() + j] == children_lines(
            children,
            sub,
        )[j]);
        assert(lines[i + (1 + entry_lines(kvs, sub).len() + j)] == sec_lines(s, ind)[1
            + entry_lines(kvs, sub).len() + j]);
    }
    lemma_nodes_children(lines, ci, acc.push(hn) + entry_nodes(kvs), children, sub);
    assert(acc.push(hn) + entry_nodes(kvs) + children_nodes(children, sub) =~= acc + sec_nodes(
        s,
        ind,
    ));
}

/// Recognizing a run of printed nested-section blocks appends their
/// nodes.
proof fn lemma_nodes_children(
    lines: Seq<Seq<char>>,
    i: int,
    acc: Seq<NodeModel>,
    secs: Seq<Section>,
    ind: nat,
)
    requires
        0 <= i,
        ind > 0,
        forall|k: int| 0 <= k < secs.len() ==> (#[trigger] secs[k]).wf(),
        i + children_lines(secs, ind).len() <= lines.len(),
        forall|j: int|
            0 <= j < children_lines(secs, ind).len() ==> lines[i + j]
                == #[trigger] children_lines(secs, ind)[j],
    ensures
        nodes_from(lines, i, true, acc) == nodes_from(
            lines,
            i + children_lines(secs, ind).len(),
            true,
            acc + children_nodes(secs, ind),
        ),
    decreases secs,
{
    if secs.len() == 0 {
        assert(acc + children_nodes(secs, ind) =~= acc);
    } else {
        let pre = secs.drop_last();
        assert forall|j: int|
            0 <= j < children_lines(pre, ind).len() implies lines[i + j]
                == #[trigger] children_lines(pre, ind)[j] by {
            assert(children_lines(pre, ind)[j] == children_lines(secs, ind)[j]);
        }
        lemma_nodes_children(lines, i, acc, pre, ind);
        let p = i + children_lines(pre, ind).len();
        assert(children_lines(secs, ind)[children_lines(pre, ind).len() as int]
            == Seq::<char>::empty());
        assert(lines[p] == children_lines(secs, ind)[children_lines(pre, ind).len() as int]);
        assert(spec_classify(Seq::<char>::empty()) == Ok::<Option<NodeModel>, Rule>(None));
        assert(secs[secs.len() - 1] == secs.last());
        assert forall|j: int|
            0 <= j < sec_lines(secs.last(), ind).len() implies lines[p + 1 + j]
                == #[trigger] sec_lines(secs.last(), ind)[j] by {
            assert(children_lines(secs, ind)[children_lines(pre, ind).len() + 1 + j]
                == sec_lines(secs.last(), ind)[j]);
            assert(lines[i + (children_lines(pre, ind).len() + 1 + j)] == children_lines(
                secs,
                ind,
            )[children_lines(pre, ind).len() + 1 + j]);
        }
        lemma_nodes_sec(lines, p + 1, true, acc + children_nodes(pre, ind), secs.last(), ind);
        assert(acc + children_nodes(pre, ind) + sec_nodes(secs.last(), ind) =~= acc
            + children_nodes(secs, ind));
    }
}

/// Recognizing the printed document appends its nodes.
proof fn lemma_nodes_doc(
    lines: Seq<Seq<char>>,
    i: int,
    seen0: bool,
    acc: Seq<NodeModel>,
    secs: Seq<Section>,
)
    requires
        0 <= i,
        forall|k: int| 0 <= k < secs.len() ==> (#[trigger] secs[k]).wf(),
        i + doc_lines(secs).len() <= lines.len(),
        forall|j: int|
            0 <= j < doc_lines(secs).len() ==> lines[i + j] == #[trigger] doc_lines(secs)[j],
    ensures
        nodes_from(lines, i, seen0, acc) == nodes_from(
            lines,
            i + doc_lines(secs).len(),
            seen0 || secs.len() > 0,
            acc + doc_nodes(secs),
        ),
    decreases secs,
{
    if secs.len() == 0 {
        assert(acc + doc_nodes(secs) =~= acc);
    } else {
        let pre = secs.drop_last();
        assert forall|j: int|
            0 <= j < doc_lines(pre).len() implies lines[i + j] == #[trigger] doc_lines(
            pre,
        )[j] by {
            assert(doc_lines(pre)[j] == doc_lines(secs)[j]);
        }
        lemma_nodes_doc(lines, i, seen0, acc, pre);
        let p = i + doc_lines(pre).len();
        assert(secs[secs.len() - 1] == secs.last());
        assert forall|j: int|
            0 <= j < sec_lines(secs.last(), 0).len() implies lines[p + j]
                == #[trigger] sec_lines(secs.last(), 0)[j] by {
            assert(doc_lines(secs)[doc_lines(pre).len() + j] == sec_lines(secs.last(), 0)[j]);
            assert(lines[i + (doc_lines(pre).len() + j)] == doc_lines(secs)[doc_lines(
                pre,
            ).len() + j]);
        }
        lemma_nodes_sec(lines, p, seen0 || pre.len() > 0, acc + doc_nodes(pre), secs.last(), 0);
        let q = p + sec_lines(secs.last(), 0).len();
        assert(doc_lines(secs)[(doc_lines(pre).len() + sec_lines(secs.last(), 0).len()) as int]
            == Seq::<char>::empty());
        assert(lines[q] == doc_lines(secs)[(doc_lines(pre).len() + sec_lines(
            secs.last(),
            0,
        ).len()) as int]);
        assert(spec_classify(Seq::<char>::empty()) == Ok::<Option<NodeModel>, Rule>(None));
        assert(acc + doc_nodes(pre) + sec_nodes(secs.last(), 0) =~= acc + doc_nodes(secs));
    }
}

proof fn lemma_doc_lines_first(secs: Seq<Section>)
    requires
        secs.len() > 0,
    ensures
        doc_lines(secs).len() > 0,
        doc_lines(secs)[0] == header_line(0, secs[0].name@),
    decreases secs,
{
    let pre = secs.drop_last();
    if pre.len() == 0 {
        assert(sec_lines(secs.last(), 0)[0] == header_line(0, secs.last().name@));
        assert(doc_lines(secs)[0] == sec_lines(secs.last(), 0)[0]);
        assert(secs[0] == secs.last());
    } else {
        lemma_doc_lines_first(pre);
        assert(doc_lines(secs)[0] == doc_lines(pre)[0]);
        assert(pre[0] == secs[0]);
    }
}

/// The round-trip law: printing a well-formed, non-empty document and
/// parsing the text back yields exactly the document's model.
pub proof fn lemma_round_trip(f: IniFile)
    requires
        f.wf(),
        f.sections@.len() > 0,
    ensures
        spec_parse(print_doc(f)) == Ok::<DocModel, ParseError>(f.model()),
{
    let secs = f.sections@;
    let ls = doc_lines(secs);
    let text = print_doc(f);
    assert(forall|k: int| 0 <= k < secs.len() ==> (#[trigger] secs[k]).wf());
    lemma_doc_lines_nf(secs);
    lemma_doc_lines_first(secs);
    lemma_spaces(0);
    assert(text == ls[0] + seq!['\n'] + unlines(ls.drop_first()));
    assert(header_line(0, secs[0].name@)[0] == '[');
    assert(text[0] == '[');
    assert(!is_ws(text[0], true));
    assert(ws_run(text, 0, true) == 0);
    assert(spec_content(text) =~= text);
    lemma_split_unlines(ls);
    let lines = ls.push(Seq::<char>::empty());
    assert(split_lines(text) == lines);
    assert forall|j: int| 0 <= j < ls.len() implies lines[0 + j] == #[trigger] doc_lines(
        secs,
    )[j] by {
        assert(lines[j] == ls[j]);
    }
    lemma_nodes_doc(lines, 0, false, Seq::empty(), secs);
    let p = ls.len() as int;
    assert(lines[p] == Seq::<char>::empty());
    assert(spec_classify(Seq::<char>::empty()) == Ok::<Option<NodeModel>, Rule>(None));
    assert(Seq::empty() + doc_nodes(secs) =~= doc_nodes(secs));
    let nodes = doc_nodes(secs).push(eoi_node());
    assert(nodes_from(lines, 0, false, Seq::empty()) == nodes_from(
        lines,
        p,
        true,
        doc_nodes(secs),
    ));
    assert(nodes_from(lines, p + 1, true, doc_nodes(secs)) == Ok::<Seq<NodeModel>, ParseError>(
        nodes,
    ));
    assert(nodes_from(lines, p, true, doc_nodes(secs)) == nodes_from(
        lines,
        p + 1,
        true,
        doc_nodes(secs),
    ));
    assert(nodes_from(lines, 0, false, Seq::empty()) == Ok::<Seq<NodeModel>, ParseError>(
        nodes,
    ));
    assert(spec_recognize(text) == Ok::<Seq<NodeModel>, ParseError>(nodes));
    assert forall|j: int| 0 <= j < doc_nodes(secs).len() implies nodes[0 + j]
        == #[trigger] doc_nodes(secs)[j] by {
        assert(nodes[j] == doc_nodes(secs)[j]);
    }
    lemma_reduce_doc(nodes, 0, init_state(), secs);
    let q = doc_nodes(secs).len() as int;
    let aft = after_tops(init_state(), secs);
    assert(nodes[q] == eoi_node());
    assert(reduce_from(nodes, q, aft) == reduce_from(nodes, q + 1, aft));
    assert(close_upto(init_state(), 0) == init_state());
    assert(aft.stack =~= Seq::<(nat, SectionModel)>::empty() + open_spine(secs.last(), 0));
    lemma_spine_collapse(Seq::empty(), aft.done, secs.last(), 0, 0);
    let st2 = RState {
        stack: Seq::<(nat, SectionModel)>::empty().push((0nat, secs.last().model())),
        done: aft.done,
    };
    assert(st2.stack.len() == 1);
    assert(st2.stack.last() == (0nat, secs.last().model()));
    assert(close_one(st2).stack =~= Seq::<(nat, SectionModel)>::empty());
    assert(close_one(st2).done == aft.done.insert(secs.last().name@, secs.last().model()));
    assert(close_upto(st2, 0) == close_upto(close_one(st2), 0));
    assert(close_upto(close_one(st2), 0) == close_one(st2));
    lemma_merge_sections_empty(secs.drop_last());
    assert(secs[secs.len() - 1] == secs.last());
    assert(close_upto(aft, 0).done == sec_map(secs.drop_last()).insert(
        secs.last().name@,
        secs.last().model(),
    ));
    assert(close_upto(aft, 0).done == sec_map(secs));
    assert(reduce_from(nodes, q + 1, aft) == Ok::<DocModel, ParseError>(
        DocModel { sections: sec_map(secs) },
    ));
    assert(spec_reduce(nodes) == Ok::<DocModel, ParseError>(
        DocModel { sections: sec_map(secs) },
    ));
    assert(f.model() == DocModel { sections: sec_map(secs) });
}


/// Indentation stays within the machine's range all the way down.
pub open spec fn fits(s: Section, ind: nat) -> bool
    decreases s,
{
    ind + 2 <= usize::MAX && forall|j: int|
        0 <= j < s.nested_sections@.len() ==> fits(
            #[trigger] s.nested_sections@[j],
            (ind + 2) as nat,
        )
}

proof fn lemma_unlines_concat(a: Seq<Seq<char>>, b: Seq<Seq<char>>)
    ensures
        unlines(a + b) == unlines(a) + unlines(b),
    decreases a.len(),
{
    if a.len() == 0 {
        assert(a + b =~= b);
        assert(unlines(a) + unlines(b) =~= unlines(b));
    } else {
        assert((a + b).drop_first() =~= a.drop_first() + b);
        lemma_unlines_concat(a.drop_first(), b);
        assert((a + b)[0] == a[0]);
        assert(a[0] + seq!['\n'] + (unlines(a.drop_first()) + unlines(b)) =~= (a[0]
            + seq!['\n'] + unlines(a.drop_first())) + unlines(b));
    }
}


proof fn lemma_unlines_one(l: Seq<char>)
    ensures
        unlines(seq![l]) == l + seq!['\n'],
{
    assert(seq![l].drop_first() =~= Seq::<Seq<char>>::empty());
    assert(unlines(Seq::<Seq<char>>::empty()) =~= Seq::<char>::empty());
    assert(unlines(seq![l]) =~= l + seq!['\n']);
}

/// Appends `n` spaces.
#[verifier::loop_isolation(false)]
fn push_spaces(out: &mut String, n: usize)
    ensures
        final(out)@ == old(out)@ + spaces(n as nat),
{
    let mut i: usize = 0;
    proof {
        assert(out@ =~= old(out)@ + spaces(0));
    }
    while i < n
        invariant
            i <= n,
            out@ == old(out)@ + spaces(i as nat),
        decreases n - i,
    {
        out.append(" ");
        proof {
            reveal_strlit(" ");
            assert(" "@ =~= seq![' ']);
            assert(spaces((i + 1) as nat) =~= spaces(i as nat).push(' '));
            assert((old(out)@ + spaces(i as nat)) + " "@ =~= old(out)@ + spaces(
                (i + 1) as nat,
            ));
        }
        i = i + 1;
    }
}

/// Appends a section header and closes the line.
#[verifier::loop_isolation(false)]
fn push_header_line(out: &mut String, name: &String, ind: usize)
    ensures
        final(out)@ == old(out)@ + header_line(ind as nat, name@) + seq!['\n'],
{
    push_spaces(out, ind);
    out.append("[");
    out.append(name.as_str());
    out.append("]\n");
    proof {
        reveal_strlit("[");
        reveal_strlit("]\n");
        assert("["@ =~= seq!['[']);
        assert("]\n"@ =~= seq![']', '\n']);
        assert((((old(out)@ + spaces(ind as nat)) + seq!['[']) + name@) + seq![']', '\n']
            =~= old(out)@ + header_line(ind as nat, name@) + seq!['\n']);
    }
}

/// Appends one `key = value` line.
#[verifier::loop_isolation(false)]
fn push_entry_line(out: &mut String, key: &String, value: &String, ind: usize)
    ensures
        final(out)@ == old(out)@ + entry_line(ind as nat, key@, value@) + seq!['\n'],
{
    push_spaces(out, ind);
    out.append(key.as_str());
    out.append(" = ");
    out.append(value.as_str());
    out.append("\n");
    proof {
        reveal_strlit(" = ");
        reveal_strlit("\n");
        assert(" = "@ =~= seq![' ', '=', ' ']);
        assert("\n"@ =~= seq!['\n']);
        assert(((((old(out)@ + spaces(ind as nat)) + key@) + seq![' ', '=', ' ']) + value@)
            + seq!['\n'] =~= old(out)@ + entry_line(ind as nat, key@, value@) + seq!['\n']);
    }
}

/// Appends a whole section in the printer's layout.
#[verifier::loop_isolation(false)]
fn print_section_into(out: &mut String, s: &Section, ind: usize)
    requires
        fits(*s, ind as nat),
    ensures
        final(out)@ == old(out)@ + unlines(sec_lines(*s, ind as nat)),
    decreases *s,
{
    let ghost sub = (ind as nat + 2) as nat;
    push_header_line(out, &s.name, ind);
    proof {
        lemma_unlines_one(header_line(ind as nat, s.name@));
        assert(out@ =~= old(out)@ + unlines(seq![header_line(ind as nat, s.name@)]));
    }
    let ghost base = out@;
    let n = s.key_values.len();
    let mut i: usize = 0;
    proof {
        assert(entry_lines(s.key_values@.take(0), sub) =~= Seq::<Seq<char>>::empty());
        assert(out@ =~= base + unlines(entry_lines(s.key_values@.take(0), sub)));
    }
    while i < n
        invariant
            i <= n,
            n == s.key_values@.len(),
            out@ == base + unlines(entry_lines(s.key_values@.take(i as int), sub)),
        decreases n - i,
    {
        push_entry_line(out, &s.key_values[i].0, &s.key_values[i].1, ind + 2);
        proof {
            let pre = s.key_values@.take(i as int);
            let cur = s.key_values@.take(i + 1);
            assert(cur.drop_last() =~= pre);
            assert(cur.last() == s.key_values@[i as int]);
            assert(entry_lines(cur, sub) =~= entry_lines(pre, sub) + seq![
                entry_line(sub, s.key_values@[i as int].0@, s.key_values@[i as int].1@),
            ]);
            lemma_unlines_concat(
                entry_lines(pre, sub),
                seq![entry_line(sub, s.key_values@[i as int].0@, s.key_values@[i as int].1@)],
            );
            lemma_unlines_one(
                entry_line(sub, s.key_values@[i as int].0@, s.key_values@[i as int].1@),
            );
            assert(out@ =~= base + unlines(entry_lines(cur, sub)));
        }
        i = i + 1;
    }
    proof {
        assert(s.key_values@.take(n as int) =~= s.key_values@);
    }
    let ghost base2 = out@;
    let m = s.nested_sections.len();
    let mut k: usize = 0;
    proof {
        assert(children_lines(s.nested_sections@.take(0), sub) =~= Seq::<Seq<char>>::empty());
        assert(out@ =~= base2 + unlines(children_lines(s.nested_sections@.take(0), sub)));
    }
    while k < m
        invariant
            k <= m,
            m == s.nested_sections@.len(),
            out@ == base2 + unlines(children_lines(s.nested_sections@.take(k as int), sub)),
        decreases m - k,
    {
        out.append("\n");
        print_section_into(out, &s.nested_sections[k], ind + 2);
        proof {
            reveal_strlit("\n");
            assert("\n"@ =~= seq!['\n']);
            let pre = s.nested_sections@.take(k as int);
            let cur = s.nested_sections@.take(k + 1);
            assert(cur.drop_last() =~= pre);
            assert(cur.last() == s.nested_sections@[k as int]);
            assert(children_lines(cur, sub) =~= children_lines(pre, sub) + (seq![
                Seq::<char>::empty(),
            ] + sec_lines(s.nested_sections@[k as int], sub)));
            lemma_unlines_concat(
                children_lines(pre, sub),
                seq![Seq::<char>::empty()] + sec_lines(s.nested_sections@[k as int], sub),
            );
            lemma_unlines_concat(
                seq![Seq::<char>::empty()],
                sec_lines(s.nested_sections@[k as int], sub),
            );
            lemma_unlines_one(Seq::<char>::empty());
            assert(unlines(seq![Seq::<char>::empty()]) =~= seq!['\n']);
            assert(out@ =~= base2 + unlines(children_lines(cur, sub)));
        }
        k = k + 1;
    }
    proof {
        assert(s.nested_sections@.take(m as int) =~= s.nested_sections@);
        assert(out@ =~= old(out)@ + (unlines(seq![header_line(ind as nat, s.name@)]) + (unlines(
            entry_lines(s.key_values@, sub),
        ) + unlines(children_lines(s.nested_sections@, sub)))));
        lemma_unlines_concat(
            seq![header_line(ind as nat, s.name@)],
            entry_lines(s.key_values@, sub) + children_lines(s.nested_sections@, sub),
        );
        lemma_unlines_concat(
            entry_lines(s.key_values@, sub),
            children_lines(s.nested_sections@, sub),
        );
        assert(sec_lines(*s, ind as nat) =~= seq![header_line(ind as nat, s.name@)] + (
        entry_lines(s.key_values@, sub) + children_lines(s.nested_sections@, sub)));
    }
}

impl IniFile {
    /// Renders the document in the printer's layout: `[section]`
    /// headers, `key = value` lines, nested sections indented two more
    /// columns after a blank line, and a blank line after each
    /// top-level section.  Parsing the result back yields this
    /// document's model (`lemma_round_trip`).
    #[verifier::loop_isolation(false)]
    pub fn to_ini_string(&self) -> (r: String)
        requires
            forall|j: int|
                0 <= j < self.sections@.len() ==> fits(#[trigger] self.sections@[j], 0),
        ensures
            r@ == print_doc(*self),
    {
        let mut out = String::new();
        let n = self.sections.len();
        let mut i: usize = 0;
        proof {
            assert(doc_lines(self.sections@.take(0)) =~= Seq::<Seq<char>>::empty());
            assert(out@ =~= unlines(doc_lines(self.sections@.take(0))));
        }
        while i < n
            invariant
                i <= n,
                n == self.sections@.len(),
                out@ == unlines(doc_lines(self.sections@.take(i as int))),
            decreases n - i,
        {
            print_section_into(&mut out, &self.sections[i], 0);
            out.append("\n");
            proof {
                reveal_strlit("\n");
                assert("\n"@ =~= seq!['\n']);
                let pre = self.sections@.take(i as int);
                let cur = self.sections@.take(i + 1);
                assert(cur.drop_last() =~= pre);
                assert(cur.last() == self.sections@[i as int]);
                assert(doc_lines(cur) =~= doc_lines(pre) + (sec_lines(
                    self.sections@[i as int],
                    0,
                ) + seq![Seq::<char>::empty()]));
                lemma_unlines_concat(
                    doc_lines(pre),
                    sec_lines(self.sections@[i as int], 0) + seq![Seq::<char>::empty()],
                );
                lemma_unlines_concat(
                    sec_lines(self.sections@[i as int], 0),
                    seq![Seq::<char>::empty()],
                );
                lemma_unlines_one(Seq::<char>::empty());
            assert(unlines(seq![Seq::<char>::empty()]) =~= seq!['\n']);
                assert(out@ =~= unlines(doc_lines(cur)));
            }
            i = i + 1;
        }
        proof {
            assert(self.sections@.take(n as int) =~= self.sections@);
        }
        out
    }
}

} // verus!
