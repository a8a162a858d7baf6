use vstd::prelude::*;
use vstd::seq_lib::*;
use vstd::string::StrSliceExecFns;
use vstd::string::StringExecFns;
use crate::strutil::str_eq;
use crate::table::ReplacementTable;

verus! {

/// The token that is always bound to the account of the current binding.
/// It is reserved: a user-supplied table never takes effect for it.
pub open spec fn reserved_token() -> Seq<char> {
    "${REPL_ACCOUNT}"@
}

/// A replacement key matches at the start of `text` when it is a non-empty
/// prefix of it.  Empty keys never match, so substitution always consumes
/// at least one character per applied replacement.
pub open spec fn match_at(text: Seq<char>, key: Seq<char>) -> bool {
    0 < key.len() <= text.len() && text.take(key.len() as int) == key
}

/// The first pair of `pairs` whose key matches at the start of `text`.
pub open spec fn find_match(pairs: Seq<(Seq<char>, Seq<char>)>, text: Seq<char>) -> Option<
    (Seq<char>, Seq<char>),
>
    decreases pairs.len(),
{
    if pairs.len() == 0 {
        None
    } else if match_at(text, pairs.first().0) {
        Some(pairs.first())
    } else {
        find_match(pairs.drop_first(), text)
    }
}

pub proof fn lemma_find_match(pairs: Seq<(Seq<char>, Seq<char>)>, text: Seq<char>)
    ensures
        match find_match(pairs, text) {
            Some(kv) => pairs.contains(kv) && match_at(text, kv.0),
            None => forall|j: int|
                0 <= j < pairs.len() ==> !match_at(text, #[trigger] pairs[j].0),
        },
    decreases pairs.len(),
{
    if pairs.len() == 0 {
    } else if match_at(text, pairs.first().0) {
        assert(pairs[0] == pairs.first());
        assert(pairs.contains(pairs.first()));
    } else {
        lemma_find_match(pairs.drop_first(), text);
        match find_match(pairs.drop_first(), text) {
            Some(kv) => {
                let i = choose|i: int|
                    0 <= i < pairs.drop_first().len() && pairs.drop_first()[i] == kv;
                assert(pairs[i + 1] == kv);
                assert(pairs.contains(kv));
            },
            None => {
                assert forall|j: int|
                    0 <= j < pairs.len() implies !match_at(text, #[trigger] pairs[j].0) by {
                    if j > 0 {
                        assert(pairs.drop_first()[j - 1] == pairs[j]);
                    }
                }
            },
        }
    }
}

/// When the first `j` keys do not match and the key of pair `j` does,
/// `find_match` returns pair `j`.
pub proof fn lemma_find_match_first(pairs: Seq<(Seq<char>, Seq<char>)>, text: Seq<char>, j: int)
    requires
        0 <= j < pairs.len(),
        match_at(text, pairs[j].0),
        forall|k: int| 0 <= k < j ==> !match_at(text, #[trigger] pairs[k].0),
    ensures
        find_match(pairs, text) == Some(pairs[j]),
    decreases j,
{
    if j == 0 {
        assert(pairs.first() == pairs[0]);
    } else {
        assert(!match_at(text, pairs.first().0));
        assert forall|k: int|
            0 <= k < j - 1 implies !match_at(text, #[trigger] pairs.drop_first()[k].0) by {
            assert(pairs.drop_first()[k] == pairs[k + 1]);
        }
        assert(pairs.drop_first()[j - 1] == pairs[j]);
        lemma_find_match_first(pairs.drop_first(), text, j - 1);
    }
}

/// When no key of `pairs` matches at the start of `text`, `find_match` is `None`.
pub proof fn lemma_find_match_none(pairs: Seq<(Seq<char>, Seq<char>)>, text: Seq<char>)
    requires
        forall|k: int| 0 <= k < pairs.len() ==> !match_at(text, #[trigger] pairs[k].0),
    ensures
        find_match(pairs, text) is None,
{
    lemma_find_match(pairs, text);
    if find_match(pairs, text) is Some {
        let kv = find_match(pairs, text)->0;
        let i = choose|i: int| 0 <= i < pairs.len() && pairs[i] == kv;
        assert(!match_at(text, pairs[i].0));
    }
}

/// One left-to-right pass over `text`: at each position the first pair whose
/// key matches is applied, its value is emitted, and scanning resumes after
/// the consumed key.  Replaced text is never scanned again, so substitution
/// is non-recursive.  Positions where no key matches are copied verbatim.
pub open spec fn subst(text: Seq<char>, pairs: Seq<(Seq<char>, Seq<char>)>) -> Seq<char>
    decreases text.len(),
{
    if text.len() == 0 {
        Seq::empty()
    } else {
        match find_match(pairs, text) {
            Some(kv) => {
                proof {
                    lemma_find_match(pairs, text);
                }
                kv.1 + subst(text.skip(kv.0.len() as int), pairs)
            },
            None => seq![text[0]] + subst(text.drop_first(), pairs),
        }
    }
}

/// The table actually used for substitution: the user-supplied pairs with any
/// binding of the reserved account token removed, then the reserved token
/// bound to the account itself.
pub open spec fn effective_pairs(pairs: Seq<(Seq<char>, Seq<char>)>, account: Seq<char>) -> Seq<
    (Seq<char>, Seq<char>),
> {
    pairs.filter(|p: (Seq<char>, Seq<char>)| p.0 != reserved_token()).push(
        (reserved_token(), account),
    )
}

/// `key` occurs somewhere in `text`.
pub open spec fn occurs_in(text: Seq<char>, key: Seq<char>) -> bool {
    exists|i: int| 0 <= i <= text.len() && match_at(text.skip(i), key)
}

/// Text in which no key of the table occurs is returned unchanged by
/// substitution.  In particular malformed or unknown tokens, which are no
/// key of the table, are left verbatim.
pub proof fn lemma_subst_untouched(text: Seq<char>, pairs: Seq<(Seq<char>, Seq<char>)>)
    requires
        forall|j: int| 0 <= j < pairs.len() ==> !occurs_in(text, #[trigger] pairs[j].0),
    ensures
        subst(text, pairs) == text,
    decreases text.len(),
{
    if text.len() == 0 {
        assert(subst(text, pairs) =~= text);
    } else {
        assert forall|j: int|
            0 <= j < pairs.len() implies !match_at(text, #[trigger] pairs[j].0) by {
            assert(text.skip(0) =~= text);
            if match_at(text, pairs[j].0) {
                assert(match_at(text.skip(0), pairs[j].0));
                assert(occurs_in(text, pairs[j].0));
            }
        }
        lemma_find_match_none(pairs, text);
        assert forall|j: int|
            0 <= j < pairs.len() implies !occurs_in(text.drop_first(), #[trigger] pairs[j].0) by {
            if occurs_in(text.drop_first(), pairs[j].0) {
                let i = choose|i: int|
                    0 <= i <= text.drop_first().len() && match_at(
                        text.drop_first().skip(i),
                        pairs[j].0,
                    );
                assert(text.drop_first().skip(i) =~= text.skip(i + 1));
                assert(match_at(text.skip(i + 1), pairs[j].0));
                assert(occurs_in(text, pairs[j].0));
            }
        }
        lemma_subst_untouched(text.drop_first(), pairs);
        assert(subst(text, pairs) =~= text);
    }
}

/// The effective table always binds the reserved account token to the account
/// passed in, whatever the user-supplied table held: the reserved binding is
/// present, and no pair binds the reserved token to anything else.
pub proof fn lemma_effective_account(pairs: Seq<(Seq<char>, Seq<char>)>, account: Seq<char>)
    ensures
        ({
            let eff = effective_pairs(pairs, account);
            &&& eff.len() > 0
            &&& eff.last() == (reserved_token(), account)
            &&& forall|j: int|
                0 <= j < eff.len() && (#[trigger] eff[j]).0 == reserved_token() ==> eff[j].1
                    == account
        }),
{
    broadcast use vstd::seq_lib::group_filter_ensures;

    let pred = |p: (Seq<char>, Seq<char>)| p.0 != reserved_token();
    let filtered = pairs.filter(pred);
    let eff = effective_pairs(pairs, account);
    assert forall|j: int|
        0 <= j < eff.len() && (#[trigger] eff[j]).0 == reserved_token() implies eff[j].1
        == account by {
        if j < filtered.len() {
            assert(filtered.contains(filtered[j]));
            assert(pred(filtered[j]));
        }
    }
}

/// Substitution with an empty user table is the identity on text that does
/// not contain the reserved account token.
pub proof fn lemma_subst_empty_table_identity(text: Seq<char>, account: Seq<char>)
    requires
        !occurs_in(text, reserved_token()),
    ensures
        subst(text, effective_pairs(Seq::empty(), account)) == text,
{
    broadcast use vstd::seq_lib::group_filter_ensures;

    let pred = |p: (Seq<char>, Seq<char>)| p.0 != reserved_token();
    let eff = effective_pairs(Seq::empty(), account);
    assert(Seq::<(Seq<char>, Seq<char>)>::empty().filter(pred).len() == 0);
    assert(eff =~= seq![(reserved_token(), account)]);
    assert forall|j: int| 0 <= j < eff.len() implies !occurs_in(text, #[trigger] eff[j].0) by {
        assert(eff[j].0 == reserved_token());
    }
    lemma_subst_untouched(text, eff);
}

/// The views of a vector of string pairs.
pub open spec fn views_of(ps: Seq<(String, String)>) -> Seq<(Seq<char>, Seq<char>)> {
    ps.map_values(|p: (String, String)| (p.0@, p.1@))
}

/// The effective table of a user table and an account, as concrete strings,
/// in the order substitution tries them.
#[verifier::loop_isolation(false)]
fn build_effective(table: &ReplacementTable, account: &str) -> (r: Vec<(String, String)>)
    ensures
        views_of(r@) == effective_pairs(table@, account@),
{
    broadcast use vstd::seq_lib::group_filter_ensures;

    let ghost pred = |p: (Seq<char>, Seq<char>)| p.0 != reserved_token();
    let mut eff: Vec<(String, String)> = Vec::new();
    let n = table.len();
    let mut i: usize = 0;
    proof {
        assert(views_of(eff@) =~= table@.take(0).filter(pred));
    }
    while i < n
        invariant
            i <= n,
            views_of(eff@) == table@.take(i as int).filter(pred),
        decreases n - i,
    {
        let ghost s = table@.take(i as int);
        let ghost tv = table@[i as int];
        if !str_eq(table.key_at(i).as_str(), "${REPL_ACCOUNT}") {
            let key = table.key_at(i).clone();
            let value = table.value_at(i).clone();
            let ghost old_eff = eff@;
            eff.push((key, value));
            proof {
                assert(views_of(eff@) =~= views_of(old_eff).push(tv));
            }
        }
        proof {
            reveal(Seq::filter);
            assert(table@.take(i + 1) =~= s.push(tv));
            assert(s.push(tv).drop_last() =~= s);
            assert(s.push(tv).last() == tv);
            if pred(tv) {
                assert(s.push(tv).filter(pred) == s.filter(pred).push(tv));
            } else {
                assert(s.push(tv).filter(pred) == s.filter(pred));
            }
        }
        i = i + 1;
    }
    let reserved = String::from_str("${REPL_ACCOUNT}");
    let account_value = String::from_str(account);
    let ghost old_eff = eff@;
    eff.push((reserved, account_value));
    proof {
        assert(table@.take(n as int) =~= table@);
        assert(views_of(eff@) =~= views_of(old_eff).push((reserved_token(), account@)));
    }
    eff
}

/// Does `key` match at position `i` of `code`?
#[verifier::loop_isolation(false)]
fn is_match_at(code: &str, i: usize, key: &str) -> (b: bool)
    requires
        i <= code@.len(),
    ensures
        b == match_at(code@.skip(i as int), key@),
{
    let n = code.unicode_len();
    let klen = key.unicode_len();
    if klen == 0 || klen > n - i {
        return false;
    }
    let mut k: usize = 0;
    while k < klen
        invariant
            k <= klen,
            forall|t: int| 0 <= t < k ==> code@[i + t] == key@[t],
        decreases klen - k,
    {
        if code.get_char(i + k) != key.get_char(k) {
            proof {
                assert(code@.skip(i as int).take(klen as int)[k as int] == code@[i + k]);
            }
            return false;
        }
        k = k + 1;
    }
    proof {
        assert(code@.skip(i as int).take(klen as int) =~= key@);
    }
    true
}

/// The index of the first pair of `eff` whose key matches at position `i` of `code`.
#[verifier::loop_isolation(false)]
fn find_match_exec(code: &str, i: usize, eff: &Vec<(String, String)>) -> (r: Option<usize>)
    requires
        i <= code@.len(),
    ensures
        match r {
            Some(j) => j < eff@.len() && find_match(views_of(eff@), code@.skip(i as int)) == Some(
                views_of(eff@)[j as int],
            ),
            None => find_match(views_of(eff@), code@.skip(i as int)) is None,
        },
{
    let n = eff.len();
    let mut j: usize = 0;
    while j < n
        invariant
            j <= n,
            forall|k: int| 0 <= k < j ==> !match_at(code@.skip(i as int), views_of(eff@)[k].0),
        decreases n - j,
    {
        if is_match_at(code, i, eff[j].0.as_str()) {
            proof {
                lemma_find_match_first(views_of(eff@), code@.skip(i as int), j as int);
            }
            return Some(j);
        }
        j = j + 1;
    }
    proof {
        lemma_find_match_none(views_of(eff@), code@.skip(i as int));
    }
    None
}

/// Replaces every recognized placeholder in `code`: each occurrence of a key
/// of the effective table (the user table with the reserved `${REPL_ACCOUNT}`
/// token bound to `account`) is replaced by its value, in one left-to-right
/// pass; everything else, malformed tokens included, is copied verbatim.
#[verifier::loop_isolation(false)]
pub fn replace_placeholders(code: &str, account: &str, replacements_map: &ReplacementTable) -> (r:
    String)
    ensures
        r@ == subst(code@, effective_pairs(replacements_map@, account@)),
{
    let eff = build_effective(replacements_map, account);
    let ghost eps = effective_pairs(replacements_map@, account@);
    let n = code.unicode_len();
    let mut out = String::new();
    let mut i: usize = 0;
    proof {
        assert(code@.skip(0) =~= code@);
        assert(Seq::<char>::empty() + subst(code@, eps) =~= subst(code@, eps));
    }
    while i < n
        invariant
            i <= n,
            subst(code@, eps) == out@ + subst(code@.skip(i as int), eps),
        decreases n - i,
    {
        let ghost text = code@.skip(i as int);
        match find_match_exec(code, i, &eff) {
            Some(j) => {
                let klen = eff[j].0.unicode_len();
                let ghost old_out = out@;
                proof {
                    lemma_find_match(eps, text);
                    assert(match_at(text, eps[j as int].0));
                    assert(klen == eps[j as int].0.len());
                    assert(subst(text, eps) == eps[j as int].1 + subst(
                        text.skip(klen as int),
                        eps,
                    ));
                    assert(text.skip(klen as int) =~= code@.skip(i + klen));
                }
                out.append(eff[j].1.as_str());
                proof {
                    assert(out@ == old_out + eps[j as int].1);
                    assert(old_out + (eps[j as int].1 + subst(code@.skip(i + klen), eps)) =~= (
                    old_out + eps[j as int].1) + subst(code@.skip(i + klen), eps));
                }
                i = i + klen;
            },
            None => {
                let c = code.get_char(i);
                let ghost old_out = out@;
                out.push(c);
                proof {
                    assert(subst(text, eps) == seq![text[0]] + subst(text.drop_first(), eps));
                    assert(text[0] == code@[i as int]);
                    assert(text.drop_first() =~= code@.skip(i + 1));
                    assert(out@ =~= old_out + seq![c]);
                    assert(old_out + (seq![text[0]] + subst(code@.skip(i + 1), eps)) =~= (old_out
                        + seq![text[0]]) + subst(code@.skip(i + 1), eps));
                }
                i = i + 1;
            },
        }
    }
    proof {
        assert(code@.skip(n as int) =~= Seq::<char>::empty());
        assert(subst(Seq::<char>::empty(), eps) == Seq::<char>::empty());
        assert(out@ + Seq::<char>::empty() =~= out@);
    }
    out
}

} // verus!
