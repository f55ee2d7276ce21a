//! The lexical scope tree of a body.

use crate::ids::ScopeId;
use crate::model::Scope;
use vstd::prelude::*;

verus! {

/// `start` and its ancestors, innermost first, following at most `fuel`
/// parent links and stopping at a scope the table does not hold.
pub open spec fn ancestor_seq(scopes: Seq<Scope>, start: ScopeId, fuel: nat) -> Seq<ScopeId>
    decreases fuel,
{
    if fuel == 0 || start@ >= scopes.len() {
        seq![]
    } else {
        seq![start] + match scopes[start@ as int].parent {
            None => seq![],
            Some(parent) => ancestor_seq(scopes, parent, (fuel - 1) as nat),
        }
    }
}

/// `start` and all of its ancestors, innermost first.
pub open spec fn ancestors(scopes: Seq<Scope>, start: ScopeId) -> Seq<ScopeId> {
    ancestor_seq(scopes, start, scopes.len())
}

/// The number of leading scopes of `chain` that `outer` does not contain.
pub open spec fn exited_count(chain: Seq<ScopeId>, outer: Seq<ScopeId>) -> nat
    decreases chain.len(),
{
    if chain.len() == 0 || outer.contains(chain[0]) {
        0
    } else {
        1 + exited_count(chain.drop_first(), outer)
    }
}

/// The scopes left when control moves from scope `source` to scope `target`:
/// the ancestors of `source`, innermost first, up to the first one that also
/// encloses `target`.
pub open spec fn exited_scope_seq(scopes: Seq<Scope>, source: ScopeId, target: ScopeId) -> Option<Seq<ScopeId>> {
    if source@ >= scopes.len() || target@ >= scopes.len() {
        None
    } else {
        let chain = ancestors(scopes, source);
        Some(chain.take(exited_count(chain, ancestors(scopes, target)) as int))
    }
}

/// `start` and its ancestors, innermost first.
pub fn scope_chain(scopes: &Vec<Scope>, start: ScopeId) -> (chain: Vec<ScopeId>)
    requires
        scopes@.len() <= u32::MAX,
    ensures
        chain@ == ancestors(scopes@, start),
{
    let mut chain: Vec<ScopeId> = Vec::new();
    let mut current = Some(start);
    let mut fuel = scopes.len();
    loop
        invariant
            fuel <= scopes@.len(),
            chain@ + match current {
                None => seq![],
                Some(scope) => ancestor_seq(scopes@, scope, fuel as nat),
            } == ancestors(scopes@, start),
        ensures
            chain@ == ancestors(scopes@, start),
        decreases fuel,
    {
        let scope = match current {
            None => {
                assert(chain@ + seq![] =~= chain@);
                break;
            },
            Some(scope) => scope,
        };
        if fuel == 0 || scope.index() >= scopes.len() {
            assert(chain@ + seq![] =~= chain@);
            break;
        }
        let ghost rest = match scopes@[scope@ as int].parent {
            None => seq![],
            Some(parent) => ancestor_seq(scopes@, parent, (fuel - 1) as nat),
        };
        chain.push(scope);
        assert(chain@ + rest =~= old_chain_plus(chain@.drop_last(), scope, rest));
        current = scopes[scope.index()].parent;
        fuel = fuel - 1;
    }
    chain
}

spec fn old_chain_plus(prefix: Seq<ScopeId>, scope: ScopeId, rest: Seq<ScopeId>) -> Seq<ScopeId> {
    prefix + (seq![scope] + rest)
}

/// Whether `chain` lists `scope`.
fn chain_contains(chain: &Vec<ScopeId>, scope: ScopeId) -> (found: bool)
    ensures
        found == chain@.contains(scope),
{
    let mut index: usize = 0;
    while index < chain.len()
        invariant
            index <= chain@.len(),
            forall|i: int| 0 <= i < index ==> chain@[i] != scope,
        decreases chain@.len() - index,
    {
        if chain[index] == scope {
            return true;
        }
        index = index + 1;
    }
    false
}

/// The scopes left when control moves from scope `source` to scope
/// `target`, innermost first, or `None` when either scope is unknown.
pub fn exited_scopes(scopes: &Vec<Scope>, source: ScopeId, target: ScopeId) -> (exited: Option<Vec<ScopeId>>)
    requires
        scopes@.len() <= u32::MAX,
    ensures
        match exited {
            None => exited_scope_seq(scopes@, source, target) is None,
            Some(list) => exited_scope_seq(scopes@, source, target) == Some(list@),
        },
{
    if source.index() >= scopes.len() || target.index() >= scopes.len() {
        return None;
    }
    let chain = scope_chain(scopes, source);
    let outer = scope_chain(scopes, target);
    let mut exited: Vec<ScopeId> = Vec::new();
    let mut index: usize = 0;
    let mut reached = false;
    assert(chain@.skip(0) =~= chain@);
    while index < chain.len() && !reached
        invariant
            index <= chain@.len(),
            exited@ == chain@.take(index as int),
            exited_count(chain@, outer@) == index + exited_count(chain@.skip(index as int), outer@),
            reached ==> index < chain@.len() && outer@.contains(chain@[index as int]),
        decreases chain@.len() - index + (if reached { 0int } else { 1int }),
    {
        if chain_contains(&outer, chain[index]) {
            reached = true;
            continue;
        }
        proof {
            let rest = chain@.skip(index as int);
            assert(rest.drop_first() =~= chain@.skip(index + 1));
        }
        exited.push(chain[index]);
        assert(exited@ =~= chain@.take(index + 1));
        index = index + 1;
    }
    proof {
        let rest = chain@.skip(index as int);
        if index < chain@.len() {
            assert(rest[0] == chain@[index as int]);
        } else {
            assert(rest.len() == 0);
        }
    }
    Some(exited)
}

} // verus!
