use vstd::prelude::*;
use vstd::seq_lib::*;
use vstd::string::StrSliceExecFns;
use vstd::string::StringExecFns;
use crate::resolver::{subst, effective_pairs, replace_placeholders};
use crate::results::{ComponentCode, ResultMapping};
use crate::strutil::str_eq;
use crate::table::ReplacementTable;

verus! {

/// An in-memory directory tree: what stands under one directory.
pub enum FsNode {
    File { name: String, contents: String },
    Dir { name: String, entries: Vec<FsNode> },
}

/// The separator between the account and the derived path of a key.
pub open spec fn separator(web_engine: bool) -> Seq<char> {
    if web_engine {
        "/"@
    } else {
        "/widget/"@
    }
}

/// The extension segment of a file name: what follows the last dot, or the
/// whole name when it holds no dot.
pub open spec fn ext_of(name: Seq<char>) -> Seq<char> {
    match name.index_of_last('.') {
        Some(i) => name.skip(i + 1),
        None => name,
    }
}

/// The stem of a file name: what precedes the last dot, inner dots kept;
/// empty when the name holds no dot.
pub open spec fn stem_of(name: Seq<char>) -> Seq<char> {
    match name.index_of_last('.') {
        Some(i) => name.take(i),
        None => Seq::empty(),
    }
}

/// A file is discovered exactly when its extension segment is one of the two
/// recognized source extensions.
pub open spec fn accepted(name: Seq<char>) -> bool {
    ext_of(name) == "jsx"@ || ext_of(name) == "tsx"@
}

/// The component key a discovered file is exposed under.
pub open spec fn key_of(
    account: Seq<char>,
    web_engine: bool,
    prefix: Seq<char>,
    stem: Seq<char>,
) -> Seq<char> {
    account + separator(web_engine) + prefix + stem
}

/// What walking one entry yields: a discovered file contributes its key and
/// substituted contents, any other file nothing, and a directory whatever
/// walking its entries under the extended prefix yields.
pub open spec fn walk_node_spec(
    node: FsNode,
    account: Seq<char>,
    prefix: Seq<char>,
    web_engine: bool,
    table: Seq<(Seq<char>, Seq<char>)>,
) -> Map<Seq<char>, Seq<char>>
    decreases node,
{
    match node {
        FsNode::File { name, contents } => {
            if accepted(name@) {
                Map::empty().insert(
                    key_of(account, web_engine, prefix, stem_of(name@)),
                    subst(contents@, effective_pairs(table, account)),
                )
            } else {
                Map::empty()
            }
        },
        FsNode::Dir { name, entries } => walk_entries_spec(
            entries@,
            account,
            prefix + name@ + "."@,
            web_engine,
            table,
        ),
    }
}

/// What walking a list of entries yields: the union of the entries' results
/// in order, a later entry overriding an earlier one on a key collision.
pub open spec fn walk_entries_spec(
    nodes: Seq<FsNode>,
    account: Seq<char>,
    prefix: Seq<char>,
    web_engine: bool,
    table: Seq<(Seq<char>, Seq<char>)>,
) -> Map<Seq<char>, Seq<char>>
    decreases nodes,
{
    if nodes.len() == 0 {
        Map::empty()
    } else {
        walk_entries_spec(nodes.drop_last(), account, prefix, web_engine, table)
            .union_prefer_right(
            walk_node_spec(nodes.last(), account, prefix, web_engine, table),
        )
    }
}

/// The keys a walk of one entry contributes: one per recognized source file.
pub open spec fn node_keys(
    node: FsNode,
    account: Seq<char>,
    prefix: Seq<char>,
    web_engine: bool,
) -> Set<Seq<char>>
    decreases node,
{
    match node {
        FsNode::File { name, contents } => {
            if accepted(name@) {
                Set::empty().insert(key_of(account, web_engine, prefix, stem_of(name@)))
            } else {
                Set::empty()
            }
        },
        FsNode::Dir { name, entries } => entries_keys(
            entries@,
            account,
            prefix + name@ + "."@,
            web_engine,
        ),
    }
}

/// The keys a walk of a list of entries contributes.
pub open spec fn entries_keys(
    nodes: Seq<FsNode>,
    account: Seq<char>,
    prefix: Seq<char>,
    web_engine: bool,
) -> Set<Seq<char>>
    decreases nodes,
{
    if nodes.len() == 0 {
        Set::empty()
    } else {
        entries_keys(nodes.drop_last(), account, prefix, web_engine).union(
            node_keys(nodes.last(), account, prefix, web_engine),
        )
    }
}

/// A walk exposes exactly the keys of the recognized source files: a file
/// whose extension is not recognized contributes nothing, and which keys
/// appear does not depend on the replacement table.
pub proof fn lemma_walk_node_domain(
    node: FsNode,
    account: Seq<char>,
    prefix: Seq<char>,
    web_engine: bool,
    table: Seq<(Seq<char>, Seq<char>)>,
)
    ensures
        walk_node_spec(node, account, prefix, web_engine, table).dom() =~= node_keys(
            node,
            account,
            prefix,
            web_engine,
        ),
    decreases node,
{
    match node {
        FsNode::File { name, contents } => {},
        FsNode::Dir { name, entries } => {
            lemma_walk_entries_domain(entries@, account, prefix + name@ + "."@, web_engine, table);
        },
    }
}

/// See `lemma_walk_node_domain`.
pub proof fn lemma_walk_entries_domain(
    nodes: Seq<FsNode>,
    account: Seq<char>,
    prefix: Seq<char>,
    web_engine: bool,
    table: Seq<(Seq<char>, Seq<char>)>,
)
    ensures
        walk_entries_spec(nodes, account, prefix, web_engine, table).dom() =~= entries_keys(
            nodes,
            account,
            prefix,
            web_engine,
        ),
    decreases nodes,
{
    if nodes.len() > 0 {
        lemma_walk_entries_domain(nodes.drop_last(), account, prefix, web_engine, table);
        lemma_walk_node_domain(nodes.last(), account, prefix, web_engine, table);
        broadcast use vstd::map_lib::lemma_union_dom;

    }
}

/// Every key a walk contributes starts with the account and the separator.
pub proof fn lemma_node_keys_shape(
    node: FsNode,
    account: Seq<char>,
    prefix: Seq<char>,
    web_engine: bool,
    k: Seq<char>,
)
    requires
        node_keys(node, account, prefix, web_engine).contains(k),
    ensures
        exists|p: Seq<char>, s: Seq<char>| k == key_of(account, web_engine, p, s),
    decreases node,
{
    match node {
        FsNode::File { name, contents } => {
            assert(k == key_of(account, web_engine, prefix, stem_of(name@)));
        },
        FsNode::Dir { name, entries } => {
            lemma_entries_keys_shape(entries@, account, prefix + name@ + "."@, web_engine, k);
        },
    }
}

/// See `lemma_node_keys_shape`.
pub proof fn lemma_entries_keys_shape(
    nodes: Seq<FsNode>,
    account: Seq<char>,
    prefix: Seq<char>,
    web_engine: bool,
    k: Seq<char>,
)
    requires
        entries_keys(nodes, account, prefix, web_engine).contains(k),
    ensures
        exists|p: Seq<char>, s: Seq<char>| k == key_of(account, web_engine, p, s),
    decreases nodes,
{
    if nodes.len() > 0 {
        if entries_keys(nodes.drop_last(), account, prefix, web_engine).contains(k) {
            lemma_entries_keys_shape(nodes.drop_last(), account, prefix, web_engine, k);
        } else {
            lemma_node_keys_shape(nodes.last(), account, prefix, web_engine, k);
        }
    }
}

/// Keys derived under two different accounts never collide, as long as
/// neither account contains the separator character `/`.
pub proof fn lemma_distinct_accounts_distinct_keys(
    account1: Seq<char>,
    account2: Seq<char>,
    web_engine: bool,
    prefix1: Seq<char>,
    stem1: Seq<char>,
    prefix2: Seq<char>,
    stem2: Seq<char>,
)
    requires
        account1 != account2,
        !account1.contains('/'),
        !account2.contains('/'),
    ensures
        key_of(account1, web_engine, prefix1, stem1) != key_of(account2, web_engine, prefix2, stem2),
{
    reveal_strlit("/");
    reveal_strlit("/widget/");
    let sep = separator(web_engine);
    assert(sep[0] == '/');
    let k1 = key_of(account1, web_engine, prefix1, stem1);
    let k2 = key_of(account2, web_engine, prefix2, stem2);
    if k1 == k2 {
        let l1 = account1.len() as int;
        let l2 = account2.len() as int;
        if l1 == l2 {
            assert(account1 =~= account2) by {
                assert forall|t: int| 0 <= t < l1 implies account1[t] == account2[t] by {
                    assert(k1[t] == account1[t]);
                    assert(k2[t] == account2[t]);
                }
            }
        } else if l1 < l2 {
            assert(k1[l1] == sep[0]);
            assert(k2[l1] == account2[l1]);
            assert(account2[l1] != '/') by {
                if account2[l1] == '/' {
                    assert(account2.contains('/'));
                }
            }
        } else {
            assert(k2[l2] == sep[0]);
            assert(k1[l2] == account1[l2]);
            assert(account1[l2] != '/') by {
                if account1[l2] == '/' {
                    assert(account1.contains('/'));
                }
            }
        }
    }
}

/// Walks of two bindings under different accounts expose disjoint key sets,
/// as long as neither account contains `/`: aggregating them never collides.
pub proof fn lemma_disjoint_accounts_no_collision(
    nodes1: Seq<FsNode>,
    nodes2: Seq<FsNode>,
    account1: Seq<char>,
    account2: Seq<char>,
    prefix1: Seq<char>,
    prefix2: Seq<char>,
    web_engine: bool,
    table1: Seq<(Seq<char>, Seq<char>)>,
    table2: Seq<(Seq<char>, Seq<char>)>,
)
    requires
        account1 != account2,
        !account1.contains('/'),
        !account2.contains('/'),
    ensures
        walk_entries_spec(nodes1, account1, prefix1, web_engine, table1).dom().disjoint(
            walk_entries_spec(nodes2, account2, prefix2, web_engine, table2).dom(),
        ),
{
    lemma_walk_entries_domain(nodes1, account1, prefix1, web_engine, table1);
    lemma_walk_entries_domain(nodes2, account2, prefix2, web_engine, table2);
    let d1 = walk_entries_spec(nodes1, account1, prefix1, web_engine, table1).dom();
    let d2 = walk_entries_spec(nodes2, account2, prefix2, web_engine, table2).dom();
    assert forall|k: Seq<char>| d1.contains(k) implies !d2.contains(k) by {
        if d2.contains(k) {
            lemma_entries_keys_shape(nodes1, account1, prefix1, web_engine, k);
            lemma_entries_keys_shape(nodes2, account2, prefix2, web_engine, k);
            let (p1, s1) = choose|p: Seq<char>, s: Seq<char>|
                k == key_of(account1, web_engine, p, s);
            let (p2, s2) = choose|p: Seq<char>, s: Seq<char>|
                k == key_of(account2, web_engine, p, s);
            lemma_distinct_accounts_distinct_keys(
                account1,
                account2,
                web_engine,
                p1,
                s1,
                p2,
                s2,
            );
        }
    }
}

/// Splits a file name: `Some(stem)` when the extension segment is
/// recognized, `None` otherwise.
#[verifier::loop_isolation(false)]
pub fn accepted_stem(name: &str) -> (r: Option<String>)
    ensures
        r is Some <==> accepted(name@),
        r is Some ==> r->0@ == stem_of(name@),
{
    let n = name.unicode_len();
    let mut j: usize = n;
    let mut has_dot = false;
    let mut dot_pos: usize = 0;
    while j > 0 && !has_dot
        invariant
            j <= n,
            !has_dot ==> forall|t: int| j <= t < n ==> name@[t] != '.',
            has_dot ==> dot_pos < n && name@[dot_pos as int] == '.' && (forall|t: int|
                dot_pos < t < n ==> name@[t] != '.'),
        decreases j,
    {
        j = j - 1;
        if name.get_char(j) == '.' {
            has_dot = true;
            dot_pos = j;
        }
    }
    proof {
        name@.index_of_last_ensures('.');
        if has_dot {
            match name@.index_of_last('.') {
                Some(i) => {
                    assert(i == dot_pos) by {
                        if i < dot_pos {
                            assert(name@[dot_pos as int] != '.');
                        }
                        if i > dot_pos {
                            assert(name@[i] != '.');
                        }
                    }
                },
                None => {
                    assert(name@.contains('.')) by {
                        assert(name@[dot_pos as int] == '.');
                    }
                    assert(false);
                },
            }
        } else {
            match name@.index_of_last('.') {
                Some(i) => {
                    assert(name@[i] != '.');
                    assert(false);
                },
                None => {},
            }
        }
    }
    let ext: &str = if has_dot {
        name.substring_char(dot_pos + 1, n)
    } else {
        name
    };
    proof {
        if has_dot {
            assert(ext@ =~= ext_of(name@));
        }
    }
    if str_eq(ext, "jsx") || str_eq(ext, "tsx") {
        let stem: &str = if has_dot {
            name.substring_char(0, dot_pos)
        } else {
            ""
        };
        proof {
            if has_dot {
                assert(stem@ =~= stem_of(name@));
            } else {
                reveal_strlit("");
                assert(stem@ =~= stem_of(name@));
            }
        }
        Some(String::from_str(stem))
    } else {
        None
    }
}

/// Builds the component key of a discovered file.
pub fn build_key(account: &str, web_engine: bool, prefix: &str, stem: &str) -> (r: String)
    ensures
        r@ == key_of(account@, web_engine, prefix@, stem@),
{
    let mut s = String::from_str(account);
    if web_engine {
        s.append("/");
    } else {
        s.append("/widget/");
    }
    s.append(prefix);
    s.append(stem);
    proof {
        assert(s@ =~= key_of(account@, web_engine, prefix@, stem@));
    }
    s
}

/// Walks the entries of one directory: every recognized source file beneath
/// them is discovered, its contents substituted under the account, and the
/// result inserted under its component key into `components`; a later entry
/// overrides an earlier one on a key collision.
#[verifier::loop_isolation(false)]
pub fn load_components(
    entries: &Vec<FsNode>,
    prefix: &str,
    account: &str,
    web_engine: bool,
    components: &mut ResultMapping,
    replacements_map: &ReplacementTable,
)
    requires
        old(components).wf(),
    ensures
        final(components).wf(),
        final(components)@ == old(components)@.union_prefer_right(
            walk_entries_spec(entries@, account@, prefix@, web_engine, replacements_map@),
        ),
    decreases entries@,
{
    let n = entries.len();
    let mut i: usize = 0;
    proof {
        assert(old(components)@.union_prefer_right(Map::<Seq<char>, Seq<char>>::empty())
            =~= old(components)@);
    }
    while i < n
        invariant
            i <= n,
            components.wf(),
            components@ == old(components)@.union_prefer_right(
                walk_entries_spec(
                    entries@.take(i as int),
                    account@,
                    prefix@,
                    web_engine,
                    replacements_map@,
                ),
            ),
        decreases n - i,
    {
        let ghost walked = walk_entries_spec(
            entries@.take(i as int),
            account@,
            prefix@,
            web_engine,
            replacements_map@,
        );
        let ghost node = entries@[i as int];
        let ghost node_result = walk_node_spec(
            node,
            account@,
            prefix@,
            web_engine,
            replacements_map@,
        );
        match &entries[i] {
            FsNode::File { name, contents } => {
                match accepted_stem(name.as_str()) {
                    Some(stem) => {
                        let key = build_key(account, web_engine, prefix, stem.as_str());
                        let code = replace_placeholders(
                            contents.as_str(),
                            account,
                            replacements_map,
                        );
                        let ghost before = components@;
                        components.insert(key, ComponentCode { code });
                        proof {
                            assert(node_result =~= Map::<Seq<char>, Seq<char>>::empty().insert(
                                key@,
                                subst(contents@, effective_pairs(replacements_map@, account@)),
                            ));
                            assert(components@ =~= old(components)@.union_prefer_right(
                                walked.union_prefer_right(node_result),
                            ));
                        }
                    },
                    None => {
                        proof {
                            assert(node_result =~= Map::<Seq<char>, Seq<char>>::empty());
                            assert(walked.union_prefer_right(node_result) =~= walked);
                        }
                    },
                }
            },
            FsNode::Dir { name, entries: child_entries } => {
                let mut child_prefix = String::from_str(prefix);
                child_prefix.append(name.as_str());
                child_prefix.append(".");
                proof {
                    assert(child_prefix@ =~= prefix@ + name@ + "."@);
                    assert(decreases_to!(entries@ => node));
                    assert(decreases_to!(node => *child_entries));
                    assert(decreases_to!(*child_entries => child_entries@));
                }
                let ghost before = components@;
                load_components(
                    child_entries,
                    child_prefix.as_str(),
                    account,
                    web_engine,
                    components,
                    replacements_map,
                );
                proof {
                    assert(node_result == walk_entries_spec(
                        child_entries@,
                        account@,
                        prefix@ + name@ + "."@,
                        web_engine,
                        replacements_map@,
                    ));
                    assert(components@ =~= old(components)@.union_prefer_right(
                        walked.union_prefer_right(node_result),
                    ));
                }
            },
        }
        proof {
            assert(entries@.take(i + 1) =~= entries@.take(i as int).push(node));
            assert(entries@.take(i + 1).drop_last() =~= entries@.take(i as int));
            assert(walk_entries_spec(
                entries@.take(i + 1),
                account@,
                prefix@,
                web_engine,
                replacements_map@,
            ) == walked.union_prefer_right(node_result));
        }
        i = i + 1;
    }
    proof {
        assert(entries@.take(n as int) =~= entries@);
    }
}

/// One binding's full walk: every component of the tree under the binding's
/// root, keyed under the account with an empty starting prefix.
pub fn handle_request(
    entries: &Vec<FsNode>,
    account: &str,
    web_engine: bool,
    replacements_map: &ReplacementTable,
) -> (r: ResultMapping)
    ensures
        r.wf(),
        r@ == walk_entries_spec(
            entries@,
            account@,
            Seq::<char>::empty(),
            web_engine,
            replacements_map@,
        ),
{
    let mut components = ResultMapping::new();
    let empty_prefix = String::new();
    load_components(
        entries,
        empty_prefix.as_str(),
        account,
        web_engine,
        &mut components,
        replacements_map,
    );
    proof {
        assert(Map::<Seq<char>, Seq<char>>::empty().union_prefer_right(
            walk_entries_spec(
                entries@,
                account@,
                Seq::<char>::empty(),
                web_engine,
                replacements_map@,
            ),
        ) =~= walk_entries_spec(
            entries@,
            account@,
            Seq::<char>::empty(),
            web_engine,
            replacements_map@,
        ));
    }
    components
}

} // verus!
