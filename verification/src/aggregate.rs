use vstd::prelude::*;
use crate::results::ResultMapping;
use crate::table::ReplacementTable;
use crate::walker::{FsNode, walk_entries_spec, handle_request};

verus! {

/// One configured binding: a directory exposed under an account namespace.
#[derive(Debug)]
pub struct AccountPath {
    pub path: String,
    pub account: String,
}

/// Why one binding's directory tree could not be read.
#[derive(Debug)]
pub enum DiscoveryError {
    /// The directory itself could not be listed.
    DirectoryUnreadable { path: String, detail: String },
    /// An entry's name or type could not be determined.
    EntryUnreadable { path: String, detail: String },
    /// A file could not be opened or read.
    FileUnreadable { path: String, detail: String },
}

impl Clone for DiscoveryError {
    fn clone(&self) -> (r: Self)
        ensures
            r == *self,
    {
        match self {
            DiscoveryError::DirectoryUnreadable { path, detail } => {
                DiscoveryError::DirectoryUnreadable { path: path.clone(), detail: detail.clone() }
            },
            DiscoveryError::EntryUnreadable { path, detail } => {
                DiscoveryError::EntryUnreadable { path: path.clone(), detail: detail.clone() }
            },
            DiscoveryError::FileUnreadable { path, detail } => {
                DiscoveryError::FileUnreadable { path: path.clone(), detail: detail.clone() }
            },
        }
    }
}

/// One binding together with what reading its directory tree yielded.
pub struct BindingSource {
    pub binding: AccountPath,
    pub entries: Result<Vec<FsNode>, DiscoveryError>,
}

/// The failure of a whole request: the binding whose tree could not be read,
/// and why.
#[derive(Debug)]
pub struct BindingFailed {
    pub account: String,
    pub path: String,
    pub cause: DiscoveryError,
}

/// Every binding's tree was read.
pub open spec fn all_readable(sources: Seq<BindingSource>) -> bool {
    forall|i: int| 0 <= i < sources.len() ==> (#[trigger] sources[i]).entries is Ok
}

/// What aggregating readable bindings yields: the union of the bindings'
/// walks in list order, a later binding overriding an earlier one on a key
/// collision.
pub open spec fn aggregate_spec(
    sources: Seq<BindingSource>,
    web_engine: bool,
    table: Seq<(Seq<char>, Seq<char>)>,
) -> Map<Seq<char>, Seq<char>>
    decreases sources.len(),
{
    if sources.len() == 0 {
        Map::empty()
    } else {
        aggregate_spec(sources.drop_last(), web_engine, table).union_prefer_right(
            walk_entries_spec(
                sources.last().entries->Ok_0@,
                sources.last().binding.account@,
                Seq::<char>::empty(),
                web_engine,
                table,
            ),
        )
    }
}

/// What one readable binding's walk yields.
pub open spec fn binding_result(
    source: BindingSource,
    web_engine: bool,
    table: Seq<(Seq<char>, Seq<char>)>,
) -> Map<Seq<char>, Seq<char>> {
    walk_entries_spec(
        source.entries->Ok_0@,
        source.binding.account@,
        Seq::<char>::empty(),
        web_engine,
        table,
    )
}

/// Aggregating two readable bindings under different accounts never
/// collides, as long as neither account contains `/`: each binding's records
/// all survive unchanged in the merged mapping.
pub proof fn lemma_aggregate_disjoint_accounts(
    s1: BindingSource,
    s2: BindingSource,
    web_engine: bool,
    table: Seq<(Seq<char>, Seq<char>)>,
)
    requires
        s1.entries is Ok,
        s2.entries is Ok,
        s1.binding.account@ != s2.binding.account@,
        !s1.binding.account@.contains('/'),
        !s2.binding.account@.contains('/'),
    ensures
        ({
            let m1 = binding_result(s1, web_engine, table);
            let m2 = binding_result(s2, web_engine, table);
            let m = aggregate_spec(seq![s1, s2], web_engine, table);
            &&& m1.dom().disjoint(m2.dom())
            &&& forall|k: Seq<char>| #[trigger]
                m1.contains_key(k) ==> m.contains_key(k) && m[k] == m1[k]
            &&& forall|k: Seq<char>| #[trigger]
                m2.contains_key(k) ==> m.contains_key(k) && m[k] == m2[k]
        }),
{
    let m1 = binding_result(s1, web_engine, table);
    let m2 = binding_result(s2, web_engine, table);
    crate::walker::lemma_disjoint_accounts_no_collision(
        s1.entries->Ok_0@,
        s2.entries->Ok_0@,
        s1.binding.account@,
        s2.binding.account@,
        Seq::<char>::empty(),
        Seq::<char>::empty(),
        web_engine,
        table,
        table,
    );
    lemma_aggregate_two(s1, s2, web_engine, table);
}

/// In an aggregation of two readable bindings every record of the later
/// binding is present in the merged mapping, and a record of the earlier
/// binding survives exactly where the later binding does not override it:
/// a key collision is resolved last-write-wins.
pub proof fn lemma_aggregate_two(
    s1: BindingSource,
    s2: BindingSource,
    web_engine: bool,
    table: Seq<(Seq<char>, Seq<char>)>,
)
    ensures
        ({
            let m1 = binding_result(s1, web_engine, table);
            let m2 = binding_result(s2, web_engine, table);
            let m = aggregate_spec(seq![s1, s2], web_engine, table);
            &&& m == m1.union_prefer_right(m2)
            &&& forall|k: Seq<char>| #[trigger]
                m2.contains_key(k) ==> m.contains_key(k) && m[k] == m2[k]
            &&& forall|k: Seq<char>| #[trigger]
                m1.contains_key(k) && !m2.contains_key(k) ==> m.contains_key(k) && m[k] == m1[k]
        }),
{
    let m1 = binding_result(s1, web_engine, table);
    let m2 = binding_result(s2, web_engine, table);
    let both = seq![s1, s2];
    assert(both.drop_last() =~= seq![s1]);
    assert(both.last() == s2);
    assert(seq![s1].drop_last() =~= Seq::<BindingSource>::empty());
    assert(seq![s1].last() == s1);
    assert(aggregate_spec(Seq::<BindingSource>::empty(), web_engine, table) == Map::<
        Seq<char>,
        Seq<char>,
    >::empty());
    assert(Map::<Seq<char>, Seq<char>>::empty().union_prefer_right(m1) =~= m1);
    assert(aggregate_spec(seq![s1], web_engine, table) == Map::<
        Seq<char>,
        Seq<char>,
    >::empty().union_prefer_right(m1));
    assert(aggregate_spec(both, web_engine, table) == aggregate_spec(
        seq![s1],
        web_engine,
        table,
    ).union_prefer_right(m2));
}

/// Walks every binding in list order and merges the results.  The first
/// binding whose tree could not be read fails the whole request: its error
/// is returned in place of any mapping, and no later binding contributes.
#[verifier::loop_isolation(false)]
pub fn aggregate(
    sources: &Vec<BindingSource>,
    web_engine: bool,
    replacements_map: &ReplacementTable,
) -> (r: Result<ResultMapping, BindingFailed>)
    ensures
        r is Ok <==> all_readable(sources@),
        r is Ok ==> r->Ok_0.wf() && r->Ok_0@ == aggregate_spec(
            sources@,
            web_engine,
            replacements_map@,
        ),
        r is Err ==> exists|i: int|
            0 <= i < sources@.len() && (#[trigger] sources@[i]).entries is Err && (forall|k: int|
                0 <= k < i ==> (#[trigger] sources@[k]).entries is Ok)
                && r->Err_0.account@ == sources@[i].binding.account@ && r->Err_0.path@
                == sources@[i].binding.path@ && r->Err_0.cause == sources@[i].entries->Err_0,
{
    let mut total = ResultMapping::new();
    let n = sources.len();
    let mut i: usize = 0;
    proof {
        assert(aggregate_spec(sources@.take(0), web_engine, replacements_map@) =~= Map::<
            Seq<char>,
            Seq<char>,
        >::empty());
    }
    while i < n
        invariant
            i <= n,
            total.wf(),
            forall|k: int| 0 <= k < i ==> (#[trigger] sources@[k]).entries is Ok,
            total@ == aggregate_spec(sources@.take(i as int), web_engine, replacements_map@),
        decreases n - i,
    {
        let ghost so_far = aggregate_spec(sources@.take(i as int), web_engine, replacements_map@);
        match &sources[i].entries {
            Ok(entries) => {
                let part = handle_request(
                    entries,
                    sources[i].binding.account.as_str(),
                    web_engine,
                    replacements_map,
                );
                total.extend(part);
                proof {
                    assert(sources@.take(i + 1) =~= sources@.take(i as int).push(
                        sources@[i as int],
                    ));
                    assert(sources@.take(i + 1).drop_last() =~= sources@.take(i as int));
                    assert(aggregate_spec(sources@.take(i + 1), web_engine, replacements_map@)
                        == so_far.union_prefer_right(
                        walk_entries_spec(
                            sources@[i as int].entries->Ok_0@,
                            sources@[i as int].binding.account@,
                            Seq::<char>::empty(),
                            web_engine,
                            replacements_map@,
                        ),
                    ));
                }
            },
            Err(e) => {
                let failure = BindingFailed {
                    account: sources[i].binding.account.clone(),
                    path: sources[i].binding.path.clone(),
                    cause: e.clone(),
                };
                proof {
                    assert((#[trigger] sources@[i as int]).entries is Err && (forall|k: int|
                        0 <= k < i as int ==> (#[trigger] sources@[k]).entries is Ok)
                        && failure.account@ == sources@[i as int].binding.account@ && failure.path@
                        == sources@[i as int].binding.path@ && failure.cause
                        == sources@[i as int].entries->Err_0);
                }
                return Err(failure);
            },
        }
        i = i + 1;
    }
    proof {
        assert(sources@.take(n as int) =~= sources@);
    }
    Ok(total)
}

} // verus!
