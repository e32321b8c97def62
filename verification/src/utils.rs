//! What commit types and commit scopes have in common.

use vstd::prelude::*;

verus! {

/// A commit type that the user's configuration names.
pub type UserProvidedCommitType = crate::commit_types::CommitType;

/// A commit scope that the user's configuration or history names.
pub type UserProvidedCommitScope = crate::commit_scopes::scope::CommitScope;

/// A name with its description, as plain text.
pub struct EntityView {
    pub name: Seq<char>,
    pub description: Seq<char>,
}

/// Something that is shown to the user as a name and a description.
pub trait PrintableEntity {
    /// The name and the description that the value shows.
    spec fn entity(&self) -> EntityView;

    fn name(&self) -> (r: &str)
        ensures
            r@ == self.entity().name,
    ;

    fn description(&self) -> (r: &str)
        ensures
            r@ == self.entity().description,
    ;
}

/// `a` is listed strictly before `b`: by name, and under one name by
/// description.
pub open spec fn entity_lt(a: EntityView, b: EntityView) -> bool {
    crate::text::lex_lt(a.name, b.name) || (a.name == b.name && crate::text::lex_lt(
        a.description,
        b.description,
    ))
}

/// `a` is listed before `b` or equals it.
pub open spec fn entity_le(a: EntityView, b: EntityView) -> bool {
    !entity_lt(b, a)
}

/// The names and descriptions of the values of `v`, in order.
pub open spec fn entities<T: PrintableEntity>(v: Seq<T>) -> Seq<EntityView> {
    Seq::new(v.len(), |i: int| v[i].entity())
}

/// Each entry of `s` is listed before the next one or equals it.
pub open spec fn sorted(s: Seq<EntityView>) -> bool {
    forall|i: int, j: int| 0 <= i < j < s.len() ==> entity_le(s[i], s[j])
}

/// Two different entries are listed one before the other.
pub proof fn lemma_entity_lt_total(a: EntityView, b: EntityView)
    ensures
        a == b || entity_lt(a, b) || entity_lt(b, a),
{
    crate::text::lemma_lex_lt_total(a.name, b.name);
    crate::text::lemma_lex_lt_total(a.description, b.description);
}

/// Two entries are never each listed before the other.
pub proof fn lemma_entity_lt_asymmetric(a: EntityView, b: EntityView)
    ensures
        !(entity_lt(a, b) && entity_lt(b, a)),
{
    crate::text::lemma_lex_lt_asymmetric(a.name, b.name);
    crate::text::lemma_lex_lt_asymmetric(a.description, b.description);
    crate::text::lemma_lex_lt_irreflexive(a.name);
}

/// The order of the listing is transitive.
pub proof fn lemma_entity_lt_transitive(a: EntityView, b: EntityView, c: EntityView)
    requires
        entity_lt(a, b),
        entity_lt(b, c),
    ensures
        entity_lt(a, c),
{
    if crate::text::lex_lt(a.name, b.name) && crate::text::lex_lt(b.name, c.name) {
        crate::text::lemma_lex_lt_transitive(a.name, b.name, c.name);
    } else if a.name == b.name && b.name == c.name {
        crate::text::lemma_lex_lt_transitive(a.description, b.description, c.description);
    }
}

/// "Before or equal" is transitive too.
pub proof fn lemma_entity_le_transitive(a: EntityView, b: EntityView, c: EntityView)
    requires
        entity_le(a, b),
        entity_le(b, c),
    ensures
        entity_le(a, c),
{
    lemma_entity_lt_total(a, b);
    lemma_entity_lt_total(b, c);
    if entity_lt(c, a) {
        if a == b {
        } else if b == c {
        } else {
            lemma_entity_lt_transitive(c, a, b);
        }
    }
}

/// A list has one sorted arrangement: two sorted lists with the same entries
/// are the same list.
pub proof fn lemma_sorted_unique(a: Seq<EntityView>, b: Seq<EntityView>)
    requires
        sorted(a),
        sorted(b),
        a.to_multiset() == b.to_multiset(),
    ensures
        a == b,
    decreases a.len(),
{
    broadcast use vstd::seq_lib::group_to_multiset_ensures;

    a.to_multiset_ensures();
    b.to_multiset_ensures();
    assert(a.len() == b.len());
    if a.len() > 0 {
        let x = a[0];
        let y = b[0];
        assert(a.contains(x));
        assert(b.contains(y));
        assert(b.to_multiset().count(x) > 0);
        assert(a.to_multiset().count(y) > 0);
        assert(b.contains(x));
        assert(a.contains(y));
        let i = choose|i: int| 0 <= i < b.len() && b[i] == x;
        let j = choose|j: int| 0 <= j < a.len() && a[j] == y;
        if i > 0 {
            assert(entity_le(y, x));
        }
        if j > 0 {
            assert(entity_le(x, y));
        }
        lemma_entity_lt_total(x, y);
        lemma_entity_lt_asymmetric(x, y);
        assert(x == y);
        vstd::seq_lib::to_multiset_remove(a, 0);
        vstd::seq_lib::to_multiset_remove(b, 0);
        assert(a.remove(0) =~= a.drop_first());
        assert(b.remove(0) =~= b.drop_first());
        assert(sorted(a.drop_first())) by {
            assert forall|i: int, j: int| 0 <= i < j < a.drop_first().len() implies entity_le(
                a.drop_first()[i],
                a.drop_first()[j],
            ) by {
                assert(entity_le(a[i + 1], a[j + 1]));
            }
        }
        assert(sorted(b.drop_first())) by {
            assert forall|i: int, j: int| 0 <= i < j < b.drop_first().len() implies entity_le(
                b.drop_first()[i],
                b.drop_first()[j],
            ) by {
                assert(entity_le(b[i + 1], b[j + 1]));
            }
        }
        lemma_sorted_unique(a.drop_first(), b.drop_first());
        assert(a =~= seq![x] + a.drop_first());
        assert(b =~= seq![y] + b.drop_first());
    } else {
        assert(a =~= b);
    }
}

/// Whether `a` and `b` show the same name and description.
pub fn same_entity<T: PrintableEntity>(a: &T, b: &T) -> (r: bool)
    ensures
        r == (a.entity() == b.entity()),
{
    crate::text::str_eq(a.name(), b.name()) && crate::text::str_eq(
        a.description(),
        b.description(),
    )
}

/// Whether `a` is listed strictly before `b`.
pub fn listed_before<T: PrintableEntity>(a: &T, b: &T) -> (r: bool)
    ensures
        r == entity_lt(a.entity(), b.entity()),
{
    if crate::text::str_lt(a.name(), b.name()) {
        true
    } else if crate::text::str_eq(a.name(), b.name()) {
        crate::text::str_lt(a.description(), b.description())
    } else {
        false
    }
}

/// Whether one of `v` shows the name and description `e`.
pub fn holds_entity<T: PrintableEntity>(v: &Vec<T>, e: &T) -> (r: bool)
    ensures
        r == entities(v@).contains(e.entity()),
{
    let mut i: usize = 0;
    while i < v.len()
        invariant
            i <= v@.len(),
            forall|j: int| 0 <= j < i ==> entities(v@)[j] != e.entity(),
        decreases v@.len() - i,
    {
        if same_entity(&v[i], e) {
            assert(entities(v@)[i as int] == e.entity());
            return true;
        }
        i = i + 1;
    }
    false
}

/// The entries of `s` without repetitions: each entry stays where it first
/// occurs.
pub open spec fn unique(s: Seq<EntityView>) -> Seq<EntityView>
    decreases s.len(),
{
    if s.len() == 0 {
        Seq::empty()
    } else if unique(s.drop_last()).contains(s.last()) {
        unique(s.drop_last())
    } else {
        unique(s.drop_last()).push(s.last())
    }
}

/// `unique` holds no entry twice, and holds exactly the entries of the list.
pub proof fn lemma_unique(s: Seq<EntityView>)
    ensures
        unique(s).no_duplicates(),
        forall|e: EntityView| unique(s).contains(e) <==> s.contains(e),
    decreases s.len(),
{
    if s.len() > 0 {
        let init = s.drop_last();
        let last = s.last();
        lemma_unique(init);
        assert forall|e: EntityView| unique(s).contains(e) <==> s.contains(e) by {
            if s.contains(e) {
                let i = choose|i: int| 0 <= i < s.len() && s[i] == e;
                if i < init.len() {
                    assert(init[i] == e);
                    assert(init.contains(e));
                }
            }
            if init.contains(e) {
                let i = choose|i: int| 0 <= i < init.len() && init[i] == e;
                assert(s[i] == e);
            }
            if e == last {
                assert(s[s.len() - 1] == e);
            }
            if !unique(init).contains(last) {
                let u = unique(init);
                if u.push(last).contains(e) {
                    let i = choose|i: int| 0 <= i < u.push(last).len() && u.push(last)[i] == e;
                    if i < u.len() {
                        assert(u[i] == e);
                    }
                }
                if u.contains(e) {
                    let i = choose|i: int| 0 <= i < u.len() && u[i] == e;
                    assert(u.push(last)[i] == e);
                }
                assert(u.push(last)[u.len() as int] == last);
            }
        }
    }
}

/// Drops every entry that shows the same name and description as an earlier
/// one.
pub fn unique_entities<T: PrintableEntity>(v: Vec<T>) -> (r: Vec<T>)
    ensures
        entities(r@) == unique(entities(v@)),
        entities(r@).no_duplicates(),
        forall|e: EntityView| entities(r@).contains(e) <==> entities(v@).contains(e),
{
    let ghost all = entities(v@);
    let mut rest = v;
    let mut out: Vec<T> = Vec::new();
    let ghost mut done: int = 0;
    assert(all.take(0) =~= Seq::<EntityView>::empty());
    assert(all.skip(0) =~= all);
    assert(entities(out@) =~= Seq::<EntityView>::empty());
    while rest.len() > 0
        invariant
            0 <= done <= all.len(),
            rest@.len() + done == all.len(),
            entities(rest@) == all.skip(done),
            entities(out@) == unique(all.take(done)),
        decreases rest@.len(),
    {
        let ghost before = entities(rest@);
        let ghost kept = entities(out@);
        let x = rest.remove(0);
        proof {
            assert(before[0] == x.entity());
            assert(all[done] == x.entity());
            assert(entities(rest@) =~= all.skip(done + 1)) by {
                assert forall|j: int| 0 <= j < entities(rest@).len() implies entities(rest@)[j]
                    == all.skip(done + 1)[j] by {
                    assert(before[j + 1] == all.skip(done)[j + 1]);
                }
            }
            assert(all.take(done + 1).drop_last() =~= all.take(done));
            assert(all.take(done + 1).last() == x.entity());
        }
        if !holds_entity(&out, &x) {
            out.push(x);
            proof {
                assert(entities(out@) =~= kept.push(all[done]));
            }
        }
        proof {
            done = done + 1;
        }
    }
    proof {
        assert(all.take(done) =~= all);
        lemma_unique(all);
    }
    out
}

/// Sorts `v` by name, and entries of one name by description.
pub fn sort_entities<T: PrintableEntity>(v: Vec<T>) -> (r: Vec<T>)
    ensures
        sorted(entities(r@)),
        entities(r@).to_multiset() == entities(v@).to_multiset(),
{
    let ghost all = entities(v@);
    let mut rest = v;
    let mut out: Vec<T> = Vec::new();
    let ghost mut done: int = 0;
    assert(all.take(0) =~= Seq::<EntityView>::empty());
    assert(all.skip(0) =~= all);
    assert(entities(out@) =~= Seq::<EntityView>::empty());
    while rest.len() > 0
        invariant
            0 <= done <= all.len(),
            rest@.len() + done == all.len(),
            entities(rest@) == all.skip(done),
            sorted(entities(out@)),
            entities(out@).to_multiset() == all.take(done).to_multiset(),
        decreases rest@.len(),
    {
        let ghost before = entities(rest@);
        let ghost kept = entities(out@);
        let x = rest.remove(0);
        proof {
            assert(before[0] == x.entity());
            assert(all[done] == x.entity());
            assert(entities(rest@) =~= all.skip(done + 1)) by {
                assert forall|j: int| 0 <= j < entities(rest@).len() implies entities(rest@)[j]
                    == all.skip(done + 1)[j] by {
                    assert(before[j + 1] == all.skip(done)[j + 1]);
                }
            }
        }
        let mut pos: usize = 0;
        while pos < out.len() && !listed_before(&x, &out[pos])
            invariant
                pos <= out@.len(),
                kept == entities(out@),
                forall|k: int| 0 <= k < pos ==> entity_le(kept[k], x.entity()),
            decreases out@.len() - pos,
        {
            pos = pos + 1;
        }
        let ghost e = x.entity();
        out.insert(pos, x);
        proof {
            let now = entities(out@);
            assert(now =~= kept.insert(pos as int, e));
            vstd::seq_lib::to_multiset_insert(kept, pos as int, e);
            assert(all.take(done + 1) =~= all.take(done).push(e));
            vstd::seq_lib::to_multiset_build(all.take(done), e);
            assert forall|i: int, j: int| 0 <= i < j < now.len() implies entity_le(
                now[i],
                now[j],
            ) by {
                if j == pos {
                    assert(now[i] == kept[i]);
                } else if i == pos {
                    assert(now[j] == kept[j - 1]);
                    assert(entity_lt(e, kept[pos as int]));
                    lemma_entity_lt_asymmetric(e, kept[pos as int]);
                    if j - 1 > pos {
                        assert(entity_le(kept[pos as int], kept[j - 1]));
                        lemma_entity_le_transitive(e, kept[pos as int], kept[j - 1]);
                    }
                } else {
                    let a = if i < pos { i } else { i - 1 };
                    let b = if j < pos { j } else { j - 1 };
                    assert(now[i] == kept[a]);
                    assert(now[j] == kept[b]);
                    assert(entity_le(kept[a], kept[b]));
                }
            }
            done = done + 1;
        }
    }
    proof {
        assert(all.take(done) =~= all);
    }
    out
}

/// Why a repository cannot be worked on.
#[derive(Debug, Clone, Copy, PartialEq, Eq)]
pub enum RepoError {
    /// The repository has no working tree.
    Bare,
}

impl RepoError {
    /// The message for the user.
    pub fn message(&self) -> (r: String)
        ensures
            r@ == "Bare repositories are not supported"@,
    {
        "Bare repositories are not supported".to_owned()
    }
}

/// Accepts a repository unless it is bare.
pub fn validate_repo(is_bare: bool) -> (r: Result<(), RepoError>)
    ensures
        r == if is_bare {
            Err::<(), RepoError>(RepoError::Bare)
        } else {
            Ok::<(), RepoError>(())
        },
{
    if is_bare {
        Err(RepoError::Bare)
    } else {
        Ok(())
    }
}

} // verus!
