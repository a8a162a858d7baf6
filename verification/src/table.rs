use vstd::prelude::*;
use vstd::string::StringExecFns;
use crate::mapping::{pairs_map, distinct_keys, lemma_pairs_map_domain, lemma_pairs_map_index};
use crate::resolver::reserved_token;
use crate::strutil::str_eq;

verus! {

/// A user-supplied substitution table: keys in the `${name}` token form they
/// are looked up under in source text, each bound to its replacement value.
/// Later insertions override earlier ones, so keys stay pairwise distinct.
#[derive(Debug)]
pub struct ReplacementTable {
    entries: Vec<(String, String)>,
}

impl View for ReplacementTable {
    type V = Seq<(Seq<char>, Seq<char>)>;

    closed spec fn view(&self) -> Seq<(Seq<char>, Seq<char>)> {
        self.entries@.map_values(|p: (String, String)| (p.0@, p.1@))
    }
}

impl ReplacementTable {
    /// Keys are pairwise distinct.
    pub open spec fn wf(&self) -> bool {
        distinct_keys(self@)
    }

    pub open spec fn spec_has_key(&self, key: Seq<char>) -> bool {
        exists|i: int| 0 <= i < self@.len() && self@[i].0 == key
    }

    pub open spec fn spec_key_index(&self, key: Seq<char>) -> int {
        choose|i: int| 0 <= i < self@.len() && self@[i].0 == key
    }

    pub fn new() -> (r: ReplacementTable)
        ensures
            r@ == Seq::<(Seq<char>, Seq<char>)>::empty(),
            r.wf(),
    {
        let r = ReplacementTable { entries: Vec::new() };
        proof {
            assert(r@ =~= Seq::<(Seq<char>, Seq<char>)>::empty());
        }
        r
    }

    /// Bind `key` to `value`: the binding is updated in place when the key is
    /// already present, appended otherwise.
    #[verifier::loop_isolation(false)]
    pub fn insert(&mut self, key: String, value: String)
        requires
            old(self).wf(),
        ensures
            final(self).wf(),
            old(self).spec_has_key(key@) ==> final(self)@ == old(self)@.update(
                old(self).spec_key_index(key@),
                (key@, value@),
            ),
            !old(self).spec_has_key(key@) ==> final(self)@ == old(self)@.push((key@, value@)),
    {
        let n = self.entries.len();
        let mut i: usize = 0;
        while i < n
            invariant
                n == self.entries.len(),
                i <= n,
                *self == *old(self),
                forall|k: int| 0 <= k < i ==> old(self)@[k].0 != key@,
            decreases n - i,
        {
            if str_eq(self.entries[i].0.as_str(), key.as_str()) {
                proof {
                    assert(old(self)@[i as int].0 == key@);
                    assert(old(self).spec_has_key(key@));
                    let j = old(self).spec_key_index(key@);
                    assert(0 <= j < old(self)@.len() && old(self)@[j].0 == key@);
                    assert(j == i as int) by {
                        if j < i as int {
                            assert(old(self)@[j].0 != old(self)@[i as int].0);
                        }
                        if j > i as int {
                            assert(old(self)@[i as int].0 != old(self)@[j].0);
                        }
                    }
                }
                self.entries[i] = (key, value);
                proof {
                    assert(self@ =~= old(self)@.update(i as int, (key@, value@)));
                    assert forall|a: int, b: int|
                        0 <= a < b < self@.len() implies self@[a].0 != self@[b].0 by {
                        assert(self@[a].0 == old(self)@[a].0);
                        assert(self@[b].0 == old(self)@[b].0);
                        assert(old(self)@[a].0 != old(self)@[b].0);
                    }
                }
                return ;
            }
            i = i + 1;
        }
        self.entries.push((key, value));
        proof {
            assert(self@ =~= old(self)@.push((key@, value@)));
        }
    }

    pub fn len(&self) -> (n: usize)
        ensures
            n == self@.len(),
    {
        self.entries.len()
    }

    pub fn key_at(&self, i: usize) -> (k: &String)
        requires
            i < self@.len(),
        ensures
            k@ == self@[i as int].0,
    {
        &self.entries[i].0
    }

    pub fn value_at(&self, i: usize) -> (v: &String)
        requires
            i < self@.len(),
        ensures
            v@ == self@[i as int].1,
    {
        &self.entries[i].1
    }
}

/// Raw replacement-file key `k` in the `${k}` token form under which it is
/// looked up in source text.
pub open spec fn tokenize(key: Seq<char>) -> Seq<char> {
    "${"@ + key + "}"@
}

pub proof fn lemma_tokenize_injective(k1: Seq<char>, k2: Seq<char>)
    requires
        tokenize(k1) == tokenize(k2),
    ensures
        k1 == k2,
{
    reveal_strlit("${");
    reveal_strlit("}");
    assert(k1 =~= tokenize(k1).subrange(2, tokenize(k1).len() - 1));
    assert(k2 =~= tokenize(k2).subrange(2, tokenize(k2).len() - 1));
}

/// The reserved account token is exactly the raw key `REPL_ACCOUNT` in token form.
pub proof fn lemma_reserved_token_form()
    ensures
        reserved_token() == tokenize("REPL_ACCOUNT"@),
{
    reveal_strlit("${REPL_ACCOUNT}");
    reveal_strlit("REPL_ACCOUNT");
    reveal_strlit("${");
    reveal_strlit("}");
    assert(reserved_token() =~= tokenize("REPL_ACCOUNT"@));
}

/// Builds `${key}` as a string.
pub fn tokenize_exec(key: &str) -> (r: String)
    ensures
        r@ == tokenize(key@),
{
    let mut s = String::from_str("${");
    s.append(key);
    s.append("}");
    proof {
        assert(s@ =~= tokenize(key@));
    }
    s
}

#[verifier::external_type_specification]
#[verifier::external_body]
pub struct ExSerdeJsonError(serde_json::Error);

/// What `serde_json::from_str::<HashMap<String, String>>` yields on a given
/// text: `None` when the text is not a JSON object of string values, else the
/// denoted string-to-string mapping.  The result depends on the text alone.
pub uninterp spec fn json_string_map_of(s: Seq<char>) -> Option<Map<Seq<char>, Seq<char>>>;

/// Relies on `serde_json::from_str` with target type `HashMap<String,
/// String>`: it succeeds exactly when the text is a JSON object whose values
/// are all strings, and then yields that object as a map with distinct keys.
/// The order in which the hash map hands the pairs out is left open.
#[verifier::external_body]
fn parse_string_object(s: &str) -> (r: Result<Vec<(String, String)>, serde_json::Error>)
    ensures
        r is Ok <==> json_string_map_of(s@) is Some,
        r is Ok ==> distinct_keys(r->Ok_0@.map_values(|p: (String, String)| (p.0@, p.1@))),
        r is Ok ==> pairs_map(r->Ok_0@.map_values(|p: (String, String)| (p.0@, p.1@)))
            == json_string_map_of(s@)->0,
{
    match serde_json::from_str::<std::collections::HashMap<String, String>>(s) {
        Ok(m) => Ok(m.into_iter().collect()),
        Err(e) => Err(e),
    }
}

/// Why a replacement file was rejected.
#[derive(Debug, PartialEq, Eq, Structural)]
pub enum ReplacementError {
    /// The text is not a JSON object of string values.
    InvalidJson,
    /// The object binds the reserved key `REPL_ACCOUNT`.
    ReservedKey,
}

/// Turns the text of a replacement file into a `ReplacementTable`, each key
/// wrapped into its `${key}` token form.  A text that is not a JSON object of
/// string values is rejected as `InvalidJson`; one that binds the reserved
/// key `REPL_ACCOUNT` is rejected as `ReservedKey`.
#[verifier::loop_isolation(false)]
pub fn read_replacements(contents: &str) -> (r: Result<ReplacementTable, ReplacementError>)
    ensures
        r is Ok <==> (json_string_map_of(contents@) is Some
            && !json_string_map_of(contents@)->0.contains_key("REPL_ACCOUNT"@)),
        r is Err ==> ((r->Err_0 == ReplacementError::InvalidJson) <==> json_string_map_of(
            contents@,
        ) is None),
        r is Ok ==> ({
            let m = json_string_map_of(contents@)->0;
            let t = pairs_map(r->Ok_0@);
            &&& r->Ok_0.wf()
            &&& forall|k: Seq<char>| #[trigger]
                m.contains_key(k) ==> t.contains_key(tokenize(k)) && t[tokenize(k)] == m[k]
            &&& forall|tk: Seq<char>| #[trigger]
                t.contains_key(tk) ==> exists|k: Seq<char>| m.contains_key(k) && tk == tokenize(k)
        }),
{
    let pairs = match parse_string_object(contents) {
        Ok(ps) => ps,
        Err(_) => {
            return Err(ReplacementError::InvalidJson);
        },
    };
    let ghost raw = pairs@.map_values(|p: (String, String)| (p.0@, p.1@));
    let ghost m = json_string_map_of(contents@)->0;
    let mut table = ReplacementTable::new();
    let n = pairs.len();
    let mut i: usize = 0;
    while i < n
        invariant
            n == pairs@.len(),
            i <= n,
            raw == pairs@.map_values(|p: (String, String)| (p.0@, p.1@)),
            distinct_keys(raw),
            pairs_map(raw) == m,
            table.wf(),
            table@ == raw.take(i as int).map_values(
                |p: (Seq<char>, Seq<char>)| (tokenize(p.0), p.1),
            ),
            forall|k: int| 0 <= k < i ==> (#[trigger] raw[k]).0 != "REPL_ACCOUNT"@,
        decreases n - i,
    {
        let token = tokenize_exec(pairs[i].0.as_str());
        if str_eq(token.as_str(), "${REPL_ACCOUNT}") {
            proof {
                lemma_reserved_token_form();
                assert(token@ == reserved_token());
                assert(tokenize(raw[i as int].0) == tokenize("REPL_ACCOUNT"@));
                lemma_tokenize_injective(raw[i as int].0, "REPL_ACCOUNT"@);
                lemma_pairs_map_domain(raw, "REPL_ACCOUNT"@);
                assert(m.contains_key("REPL_ACCOUNT"@));
            }
            return Err(ReplacementError::ReservedKey);
        }
        proof {
            lemma_reserved_token_form();
            if raw[i as int].0 == "REPL_ACCOUNT"@ {
                assert(token@ == reserved_token());
                assert(false);
            }
            if table.spec_has_key(token@) {
                let k = table.spec_key_index(token@);
                assert(table@[k].0 == tokenize(raw[k].0));
                lemma_tokenize_injective(raw[k].0, raw[i as int].0);
                assert(false);
            }
        }
        let value = pairs[i].1.clone();
        table.insert(token, value);
        proof {
            assert(raw.take(i + 1) =~= raw.take(i as int).push(raw[i as int]));
            assert(table@ =~= raw.take(i + 1).map_values(
                |p: (Seq<char>, Seq<char>)| (tokenize(p.0), p.1),
            ));
        }
        i = i + 1;
    }
    proof {
        assert(raw.take(n as int) =~= raw);
        lemma_pairs_map_domain(raw, "REPL_ACCOUNT"@);
        assert(!m.contains_key("REPL_ACCOUNT"@));
        let tok_pairs = raw.map_values(|p: (Seq<char>, Seq<char>)| (tokenize(p.0), p.1));
        assert(table@ == tok_pairs);
        let t = pairs_map(table@);
        assert forall|k: Seq<char>| #[trigger]
            m.contains_key(k) implies t.contains_key(tokenize(k)) && t[tokenize(k)] == m[k] by {
            lemma_pairs_map_domain(raw, k);
            let j = choose|j: int| 0 <= j < raw.len() && raw[j].0 == k;
            assert(table@[j] == (tokenize(k), raw[j].1));
            lemma_pairs_map_index(table@, j);
            lemma_pairs_map_index(raw, j);
        }
        assert forall|tk: Seq<char>| #[trigger]
            t.contains_key(tk) implies exists|k: Seq<char>|
            m.contains_key(k) && tk == tokenize(k) by {
            lemma_pairs_map_domain(table@, tk);
            let j = choose|j: int| 0 <= j < table@.len() && table@[j].0 == tk;
            assert(table@[j].0 == tokenize(raw[j].0));
            lemma_pairs_map_domain(raw, raw[j].0);
            assert(m.contains_key(raw[j].0) && tk == tokenize(raw[j].0));
        }
    }
    Ok(table)
}

} // verus!
