//! The tree reducer: folds the rule-tagged parse tree produced by the
//! grammar recognizer into the document model, classifying the
//! structural violations that the grammar alone cannot reject.
//!
//! The reducer walks the children of the `file` node in order and keeps
//! a stack of open scopes.  A top-level header closes every open scope
//! and opens a fresh one; a nested header closes the scopes indented at
//! least as far as itself and opens a child scope; a key/value pair
//! lands in the innermost open scope.  A closed scope folds into its
//! parent — or into the document when it is top level — under its name,
//! and a later section of the same name replaces the earlier one.

use vstd::prelude::*;

use crate::grammar::{
    Rule, NodeModel, ParseTree, IniParser, nodes_ok, node_ok, spec_recognize,
};
use crate::ini_file::{
    IniFile, Section, SectionModel, DocModel, sec_map, sec_names_unique, upsert_section,
    upsert_kv,
};

verus! {

/// Everything that can go wrong while parsing.
#[derive(Clone, Copy, Debug, PartialEq, Eq, Structural)]
pub enum ParseError {
    /// The text does not match the grammar: the 1-based line (counted
    /// from the first non-blank content) and the rule expected there.
    SyntaxError { line: usize, expected: Rule },
    /// A key/value pair or a nested section appeared before any section
    /// header opened a scope.
    KeyValueOutsideSection,
    /// The reducer met a parse-tree node whose rule it does not fold:
    /// a defect in the tree, not malformed input.
    UnexpectedRule(Rule),
}

/// The reducer's working state: the open scopes, outermost first, each
/// with the column of its header, and the finished top-level sections.
#[verifier::ext_equal]
pub ghost struct RState {
    pub stack: Seq<(nat, SectionModel)>,
    pub done: Map<Seq<char>, SectionModel>,
}

/// The state before any node is folded.
pub open spec fn init_state() -> RState {
    RState { stack: Seq::empty(), done: Map::empty() }
}

/// Close the innermost open scope: fold it into its parent under its
/// name, or into the document when it is top level.
pub open spec fn close_one(st: RState) -> RState
    recommends
        st.stack.len() > 0,
{
    let top = st.stack.last();
    if st.stack.len() == 1 {
        RState { stack: st.stack.drop_last(), done: st.done.insert(top.1.name, top.1) }
    } else {
        let pi = st.stack.len() - 2;
        let parent = st.stack[pi];
        RState {
            stack: st.stack.drop_last().update(
                pi,
                (
                    parent.0,
                    SectionModel {
                        children: parent.1.children.insert(top.1.name, top.1),
                        ..parent.1
                    },
                ),
            ),
            done: st.done,
        }
    }
}

/// Close open scopes until the innermost one sits strictly left of
/// column `ind`.
pub open spec fn close_upto(st: RState, ind: nat) -> RState
    decreases st.stack.len(),
{
    if st.stack.len() > 0 && st.stack.last().0 >= ind {
        close_upto(close_one(st), ind)
    } else {
        st
    }
}

/// Open a fresh, empty scope named `name` at column `ind`.
pub open spec fn push_scope(st: RState, ind: nat, name: Seq<char>) -> RState {
    RState {
        stack: st.stack.push(
            (ind, SectionModel { name, entries: Map::empty(), children: Map::empty() }),
        ),
        done: st.done,
    }
}

/// Store an entry in the innermost open scope; a later entry with the
/// same key wins.
pub open spec fn put_entry(st: RState, key: Seq<char>, value: Seq<char>) -> RState
    recommends
        st.stack.len() > 0,
{
    let top = st.stack.last();
    RState {
        stack: st.stack.drop_last().push(
            (top.0, SectionModel { entries: top.1.entries.insert(key, value), ..top.1 }),
        ),
        done: st.done,
    }
}

/// The reducer's walk over the parse tree's nodes from position `i` in
/// state `st`.
pub open spec fn reduce_from(nodes: Seq<NodeModel>, i: int, st: RState) -> Result<
    DocModel,
    ParseError,
>
    decreases nodes.len() - i,
{
    if i < 0 || i >= nodes.len() {
        Ok(DocModel { sections: close_upto(st, 0).done })
    } else {
        let n = nodes[i];
        match n.rule {
            Rule::Section => reduce_from(
                nodes,
                i + 1,
                push_scope(close_upto(st, 0), n.indent, n.text),
            ),
            Rule::NestedSection => {
                let st2 = close_upto(st, n.indent);
                if st2.stack.len() == 0 {
                    Err(ParseError::KeyValueOutsideSection)
                } else {
                    reduce_from(nodes, i + 1, push_scope(st2, n.indent, n.text))
                }
            },
            Rule::KeyValue => {
                if st.stack.len() == 0 {
                    Err(ParseError::KeyValueOutsideSection)
                } else {
                    reduce_from(nodes, i + 1, put_entry(st, n.text, n.value))
                }
            },
            Rule::Comment => reduce_from(nodes, i + 1, st),
            Rule::Eoi => reduce_from(nodes, i + 1, st),
            _ => Err(ParseError::UnexpectedRule(n.rule)),
        }
    }
}

/// What reducing a parse tree yields.
pub open spec fn spec_reduce(nodes: Seq<NodeModel>) -> Result<DocModel, ParseError> {
    reduce_from(nodes, 0, init_state())
}

/// What parsing an input yields: recognition followed by reduction, or
/// the first error of either stage.
pub open spec fn spec_parse(s: Seq<char>) -> Result<DocModel, ParseError> {
    match spec_recognize(s) {
        Ok(ns) => spec_reduce(ns),
        Err(e) => Err(e),
    }
}

/// The mathematical image of the executable stack.
pub open spec fn stack_model(st: Seq<(usize, Section)>) -> Seq<(nat, SectionModel)> {
    st.map_values(|p: (usize, Section)| (p.0 as nat, p.1.model()))
}

/// The mathematical image of the executable reducer state.
pub open spec fn cur_state(stack: Seq<(usize, Section)>, done: Seq<Section>) -> RState {
    RState { stack: stack_model(stack), done: sec_map(done) }
}

/// Every open scope keeps its keys and names unique.
pub open spec fn stack_keyed(st: Seq<(usize, Section)>) -> bool {
    forall|j: int| 0 <= j < st.len() ==> (#[trigger] st[j]).1.keyed()
}

/// Every open scope satisfies the full invariant.
pub open spec fn stack_wf(st: Seq<(usize, Section)>) -> bool {
    forall|j: int| 0 <= j < st.len() ==> (#[trigger] st[j]).1.wf()
}

/// The finished sections have unique names and unique contents.
pub open spec fn done_keyed(d: Seq<Section>) -> bool {
    sec_names_unique(d) && forall|j: int| 0 <= j < d.len() ==> (#[trigger] d[j]).keyed()
}

pub open spec fn done_wf(d: Seq<Section>) -> bool {
    forall|j: int| 0 <= j < d.len() ==> (#[trigger] d[j]).wf()
}

/// Close the innermost open scope.
fn close_one_exec(stack: &mut Vec<(usize, Section)>, done: &mut Vec<Section>)
    requires
        old(stack)@.len() > 0,
        stack_keyed(old(stack)@),
        done_keyed(old(done)@),
    ensures
        cur_state(final(stack)@, final(done)@) == close_one(cur_state(old(stack)@, old(done)@)),
        final(stack)@.len() == old(stack)@.len() - 1,
        stack_keyed(final(stack)@),
        done_keyed(final(done)@),
        stack_wf(old(stack)@) && done_wf(old(done)@) ==> stack_wf(final(stack)@) && done_wf(
            final(done)@,
        ),
{
    let ghost st0 = cur_state(old(stack)@, old(done)@);
    let popped = stack.pop();
    match popped {
        Some(p) => {
            let sec = p.1;
            proof {
                assert(st0.stack.last() == (p.0 as nat, sec.model()));
                assert(stack@ =~= old(stack)@.drop_last());
            }
            if stack.len() == 0 {
                upsert_section(done, sec);
                proof {
                    assert(stack_model(stack@) =~= st0.stack.drop_last());
                    assert(cur_state(stack@, done@) =~= close_one(st0));
                }
            } else {
                let q = stack.pop();
                match q {
                    Some(qp) => {
                        let pind = qp.0;
                        let mut parent = qp.1;
                        let ghost pm = parent.model();
                        upsert_section(&mut parent.nested_sections, sec);
                        proof {
                            assert(parent.model() =~= SectionModel {
                                children: pm.children.insert(st0.stack.last().1.name, st0.stack.last().1),
                                ..pm
                            });
                        }
                        stack.push((pind, parent));
                        proof {
                            assert(stack_model(stack@) =~= close_one(st0).stack);
                            assert(cur_state(stack@, done@) =~= close_one(st0));
                        }
                    },
                    None => {
                        proof {
                            assert(false);
                        }
                    },
                }
            }
        },
        None => {
            proof {
                assert(false);
            }
        },
    }
}

/// Close open scopes until the innermost one sits strictly left of
/// column `ind`.
#[verifier::loop_isolation(false)]
fn close_upto_exec(stack: &mut Vec<(usize, Section)>, done: &mut Vec<Section>, ind: usize)
    requires
        stack_keyed(old(stack)@),
        done_keyed(old(done)@),
    ensures
        cur_state(final(stack)@, final(done)@) == close_upto(
            cur_state(old(stack)@, old(done)@),
            ind as nat,
        ),
        ind == 0 ==> final(stack)@.len() == 0,
        stack_keyed(final(stack)@),
        done_keyed(final(done)@),
        stack_wf(old(stack)@) && done_wf(old(done)@) ==> stack_wf(final(stack)@) && done_wf(
            final(done)@,
        ),
{
    let ghost st0 = cur_state(old(stack)@, old(done)@);
    while stack.len() > 0 && stack[stack.len() - 1].0 >= ind
        invariant
            stack_keyed(stack@),
            done_keyed(done@),
            close_upto(cur_state(stack@, done@), ind as nat) == close_upto(st0, ind as nat),
            stack_wf(old(stack)@) && done_wf(old(done)@) ==> stack_wf(stack@) && done_wf(done@),
        decreases stack@.len(),
    {
        proof {
            assert(cur_state(stack@, done@).stack.last().0 == stack@.last().0 as nat);
        }
        close_one_exec(stack, done);
    }
    proof {
        assert(close_upto(cur_state(stack@, done@), ind as nat) == cur_state(stack@, done@));
    }
}

/// Folds a parse tree into the document model: the tree reducer.
///
/// The result equals the reducer's walk over the tree's nodes; on a
/// tree the recognizer built this never reports an error, and the
/// document satisfies the model's invariants.
#[verifier::loop_isolation(false)]
pub fn reduce(tree: &ParseTree) -> (r: Result<IniFile, ParseError>)
    ensures
        match spec_reduce(tree@) {
            Ok(d) => r matches Ok(f) && f.model() == d && f.keyed() && (nodes_ok(tree@)
                ==> f.wf()),
            Err(e) => r == Err::<IniFile, ParseError>(e),
        },
{
    let n = tree.nodes.len();
    let mut stack: Vec<(usize, Section)> = Vec::new();
    let mut done: Vec<Section> = Vec::new();
    let mut i: usize = 0;
    proof {
        assert(stack_model(stack@) =~= init_state().stack);
        assert(cur_state(stack@, done@) =~= init_state());
    }
    while i < n
        invariant
            i <= n,
            n == tree.nodes@.len(),
            stack_keyed(stack@),
            done_keyed(done@),
            nodes_ok(tree@) ==> stack_wf(stack@) && done_wf(done@),
            reduce_from(tree@, 0, init_state()) == reduce_from(
                tree@,
                i as int,
                cur_state(stack@, done@),
            ),
        decreases n - i,
    {
        let node = &tree.nodes[i];
        proof {
            assert(tree@[i as int] == tree.nodes@[i as int]@);
        }
        match node.rule {
            Rule::Section => {
                close_upto_exec(&mut stack, &mut done, 0);
                let fresh = Section {
                    name: node.text.clone(),
                    key_values: Vec::new(),
                    nested_sections: Vec::new(),
                };
                proof {
                    assert(fresh.model() =~= SectionModel {
                        name: node.text@,
                        entries: Map::empty(),
                        children: Map::empty(),
                    });
                }
                let ghost stc = cur_state(stack@, done@);
                stack.push((node.indent, fresh));
                proof {
                    assert(stack_model(stack@) =~= push_scope(
                        stc,
                        node@.indent,
                        node@.text,
                    ).stack);
                    assert(cur_state(stack@, done@) =~= push_scope(stc, node@.indent, node@.text));
                }
            },
            Rule::NestedSection => {
                close_upto_exec(&mut stack, &mut done, node.indent);
                if stack.len() == 0 {
                    return Err(ParseError::KeyValueOutsideSection);
                }
                let fresh = Section {
                    name: node.text.clone(),
                    key_values: Vec::new(),
                    nested_sections: Vec::new(),
                };
                proof {
                    assert(fresh.model() =~= SectionModel {
                        name: node.text@,
                        entries: Map::empty(),
                        children: Map::empty(),
                    });
                }
                let ghost stc = cur_state(stack@, done@);
                stack.push((node.indent, fresh));
                proof {
                    assert(stack_model(stack@) =~= push_scope(
                        stc,
                        node@.indent,
                        node@.text,
                    ).stack);
                    assert(cur_state(stack@, done@) =~= push_scope(stc, node@.indent, node@.text));
                }
            },
            Rule::KeyValue => {
                if stack.len() == 0 {
                    return Err(ParseError::KeyValueOutsideSection);
                }
                proof {
                    assert(nodes_ok(tree@) ==> node_ok(tree@[i as int]));
                }
                let ghost stc = cur_state(stack@, done@);
                let popped = stack.pop();
                match popped {
                    Some(p) => {
                        let ind = p.0;
                        let mut sec = p.1;
                        let ghost sm = sec.model();
                        upsert_kv(&mut sec.key_values, node.text.clone(), node.value.clone());
                        proof {
                            assert(sec.model() =~= SectionModel {
                                entries: sm.entries.insert(node@.text, node@.value),
                                ..sm
                            });
                        }
                        stack.push((ind, sec));
                        proof {
                            assert(stc.stack.last() == (ind as nat, sm));
                            assert(stack_model(stack@) =~= put_entry(
                                stc,
                                node@.text,
                                node@.value,
                            ).stack);
                            assert(cur_state(stack@, done@) =~= put_entry(
                                stc,
                                node@.text,
                                node@.value,
                            ));
                        }
                    },
                    None => {
                        proof {
                            assert(false);
                        }
                    },
                }
            },
            Rule::Comment => {},
            Rule::Eoi => {},
            Rule::IniFile => {
                return Err(ParseError::UnexpectedRule(node.rule));
            },
            Rule::SectionName => {
                return Err(ParseError::UnexpectedRule(node.rule));
            },
            Rule::Key => {
                return Err(ParseError::UnexpectedRule(node.rule));
            },
            Rule::Value => {
                return Err(ParseError::UnexpectedRule(node.rule));
            },
        }
        i = i + 1;
    }
    let ghost curb = cur_state(stack@, done@);
    close_upto_exec(&mut stack, &mut done, 0);
    proof {
        assert(stack_model(stack@).len() == 0);
        assert(close_upto(cur_state(stack@, done@), 0) == cur_state(stack@, done@));
        assert(close_upto(curb, 0).done == sec_map(done@));
        assert(spec_reduce(tree@) == Ok::<DocModel, ParseError>(
            DocModel { sections: close_upto(curb, 0).done },
        ));
    }
    let f = IniFile { sections: done };
    proof {
        assert(f.model() =~= DocModel { sections: close_upto(curb, 0).done });
    }
    Ok(f)
}

impl IniFile {
    /// Parses a string representation of an INI file and returns the
    /// `IniFile`, or the first error: a `SyntaxError` where the text
    /// does not match the grammar, and a structural error where the
    /// tree cannot be folded.
    pub fn from_str(input: &str) -> (r: Result<IniFile, ParseError>)
        ensures
            match spec_parse(input@) {
                Ok(d) => r matches Ok(f) && f.model() == d && f.wf(),
                Err(e) => r == Err::<IniFile, ParseError>(e),
            },
    {
        match IniParser::recognize(input) {
            Ok(tree) => reduce(&tree),
            Err(e) => Err(e),
        }
    }
}

/// Parses INI text into a document: the library's entry point.
pub fn parse(input: &str) -> (r: Result<IniFile, ParseError>)
    ensures
        match spec_parse(input@) {
            Ok(d) => r matches Ok(f) && f.model() == d && f.wf(),
            Err(e) => r == Err::<IniFile, ParseError>(e),
        },
{
    IniFile::from_str(input)
}


} // verus!
