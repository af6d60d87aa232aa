//! Named bindings and the symbol table.
//!
//! A [`VarTable`] keeps its bindings sorted strictly by identifier, so no
//! two entries ever share a name.  `add` refuses an existing identifier,
//! `store` inserts or replaces, and `merge` folds another table in, the
//! other table's bindings winning on collision.

use vstd::prelude::*;

verus! {

use crate::errors::VarError;
use crate::strutil::{lex_lt, str_compare, StrOrder};
use crate::token::{Token, TokenV};

/// An identifier bound to the expression it held when stored.
#[derive(Debug, PartialEq)]
pub struct Variable {
    /// The name the binding is looked up by.
    pub id: String,
    /// The bound expression, fully evaluated at storage time.
    pub tokens: Token,
}

/// The mathematical content of a binding.
#[verifier::ext_equal]
pub struct VariableV {
    pub id: Seq<char>,
    pub tokens: TokenV,
}

impl View for Variable {
    type V = VariableV;

    open spec fn view(&self) -> VariableV {
        VariableV { id: self.id@, tokens: self.tokens@ }
    }
}

impl Variable {
    /// Creates a binding of `value` under `id`.
    pub fn new(id: &str, value: Token) -> (r: Variable)
        ensures
            r@.id == id@,
            r@.tokens == value@,
            value.wf() ==> r.tokens.wf(),
    {
        Variable { id: crate::strutil::copy_string_str(id), tokens: value }
    }

    /// A structural copy of the binding.
    pub fn dup(&self) -> (r: Variable)
        ensures
            r@ == self@,
            self.tokens.wf() ==> r.tokens.wf(),
    {
        Variable { id: crate::strutil::copy_string(&self.id), tokens: self.tokens.dup() }
    }
}

/// Identifiers strictly ascend through the table.
pub open spec fn tbl_sorted(tbl: Seq<VariableV>) -> bool {
    forall|i: int, j: int|
        0 <= i < j < tbl.len() ==> lex_lt(#[trigger] tbl[i].id, #[trigger] tbl[j].id)
}

/// The first binding under `id`, scanning from the front.
pub open spec fn lookup_v(tbl: Seq<VariableV>, id: Seq<char>) -> Option<VariableV>
    decreases tbl.len(),
{
    if tbl.len() == 0 {
        Option::None
    } else if tbl[0].id == id {
        Option::Some(tbl[0])
    } else {
        lookup_v(tbl.drop_first(), id)
    }
}

/// Insert-or-replace at the sorted position.
pub open spec fn store_v(tbl: Seq<VariableV>, entry: VariableV) -> Seq<VariableV>
    decreases tbl.len(),
{
    if tbl.len() == 0 {
        seq![entry]
    } else if lex_lt(tbl[0].id, entry.id) {
        seq![tbl[0]] + store_v(tbl.drop_first(), entry)
    } else if tbl[0].id == entry.id {
        seq![entry] + tbl.drop_first()
    } else {
        seq![entry] + tbl
    }
}

/// Removal of the first binding under `id`.
pub open spec fn remove_v(tbl: Seq<VariableV>, id: Seq<char>) -> Seq<VariableV>
    decreases tbl.len(),
{
    if tbl.len() == 0 {
        tbl
    } else if tbl[0].id == id {
        tbl.drop_first()
    } else {
        seq![tbl[0]] + remove_v(tbl.drop_first(), id)
    }
}

/// Folding a list of bindings into a table, one store after another.
pub open spec fn merge_v(tbl: Seq<VariableV>, vs: Seq<VariableV>) -> Seq<VariableV>
    decreases vs.len(),
{
    if vs.len() == 0 {
        tbl
    } else {
        merge_v(store_v(tbl, vs[0]), vs.drop_first())
    }
}

/// Where a scan stopped determines what `lookup_v` returns.
pub proof fn lemma_lookup_at(tbl: Seq<VariableV>, id: Seq<char>, p: int)
    requires
        0 <= p <= tbl.len(),
        forall|k: int| 0 <= k < p ==> (#[trigger] tbl[k].id) != id,
        p < tbl.len() ==> tbl[p].id == id,
    ensures
        p < tbl.len() ==> lookup_v(tbl, id) == Option::Some(tbl[p]),
        p == tbl.len() ==> lookup_v(tbl, id) is None,
    decreases p,
{
    if p == 0 {
        if 0 < tbl.len() {
        } else {
        }
    } else {
        let t = tbl.drop_first();
        assert(forall|k: int| 0 <= k < p - 1 ==> (#[trigger] t[k].id) == tbl[k + 1].id);
        lemma_lookup_at(t, id, p - 1);
    }
}

/// A scan that found no match at all.
pub proof fn lemma_lookup_none(tbl: Seq<VariableV>, id: Seq<char>)
    requires
        forall|k: int| 0 <= k < tbl.len() ==> (#[trigger] tbl[k].id) != id,
    ensures
        lookup_v(tbl, id) is None,
{
    lemma_lookup_at(tbl, id, tbl.len() as int);
}

/// In a sorted table, a scan that stopped without a match proves absence.
pub proof fn lemma_lookup_absent(tbl: Seq<VariableV>, id: Seq<char>, p: int)
    requires
        tbl_sorted(tbl),
        0 <= p <= tbl.len(),
        forall|k: int| 0 <= k < p ==> lex_lt((#[trigger] tbl[k].id), id),
        p < tbl.len() ==> !lex_lt(tbl[p].id, id) && tbl[p].id != id,
    ensures
        lookup_v(tbl, id) is None,
{
    assert forall|k: int| 0 <= k < tbl.len() implies (#[trigger] tbl[k].id) != id by {
        if k < p {
            crate::strutil::lemma_lex_asymmetric(tbl[k].id, id);
        } else if k == p {
        } else {
            if !lex_lt(id, tbl[p].id) {
                crate::strutil::lemma_lex_connected(tbl[p].id, id);
            }
            assert(lex_lt(tbl[p].id, tbl[k].id));
            crate::strutil::lemma_lex_transitive(id, tbl[p].id, tbl[k].id);
            crate::strutil::lemma_lex_asymmetric(id, tbl[k].id);
        }
    }
    lemma_lookup_none(tbl, id);
}

/// Where a sorted scan stopped determines the shape of `store_v`.
pub proof fn lemma_store_at(tbl: Seq<VariableV>, entry: VariableV, p: int)
    requires
        0 <= p <= tbl.len(),
        forall|k: int| 0 <= k < p ==> lex_lt((#[trigger] tbl[k].id), entry.id),
        p < tbl.len() ==> !lex_lt(tbl[p].id, entry.id),
    ensures
        p < tbl.len() && tbl[p].id == entry.id ==> store_v(tbl, entry) == tbl.update(p, entry),
        !(p < tbl.len() && tbl[p].id == entry.id) ==> store_v(tbl, entry) == tbl.insert(p, entry),
    decreases p,
{
    if p == 0 {
        if tbl.len() == 0 {
            assert(store_v(tbl, entry) =~= tbl.insert(0, entry));
        } else if tbl[0].id == entry.id {
            crate::strutil::lemma_lex_irreflexive(entry.id);
            assert(store_v(tbl, entry) =~= tbl.update(0, entry));
        } else {
            assert(store_v(tbl, entry) =~= tbl.insert(0, entry));
        }
    } else {
        let t = tbl.drop_first();
        assert(forall|k: int| 0 <= k < p - 1 ==> (#[trigger] t[k].id) == tbl[k + 1].id);
        lemma_store_at(t, entry, p - 1);
        assert(tbl[0].id != entry.id) by {
            crate::strutil::lemma_lex_irreflexive(entry.id);
            assert(lex_lt(tbl[0].id, entry.id));
        }
        if p < tbl.len() && tbl[p].id == entry.id {
            assert(store_v(t, entry) == t.update(p - 1, entry));
            assert(store_v(tbl, entry) =~= tbl.update(p, entry));
        } else {
            assert(store_v(t, entry) == t.insert(p - 1, entry));
            assert(store_v(tbl, entry) =~= tbl.insert(p, entry));
        }
    }
}

/// Where a scan stopped determines the shape of `remove_v`.
pub proof fn lemma_remove_at(tbl: Seq<VariableV>, id: Seq<char>, p: int)
    requires
        0 <= p < tbl.len(),
        forall|k: int| 0 <= k < p ==> (#[trigger] tbl[k].id) != id,
        tbl[p].id == id,
    ensures
        remove_v(tbl, id) == tbl.remove(p),
    decreases p,
{
    if p == 0 {
        assert(remove_v(tbl, id) =~= tbl.remove(0));
    } else {
        let t = tbl.drop_first();
        assert(forall|k: int| 0 <= k < p - 1 ==> (#[trigger] t[k].id) == tbl[k + 1].id);
        lemma_remove_at(t, id, p - 1);
        assert(remove_v(tbl, id) =~= tbl.remove(p));
    }
}

/// Processing one more binding of a merge is one more store.
pub proof fn lemma_merge_push(tbl: Seq<VariableV>, vs: Seq<VariableV>, v: VariableV)
    ensures
        merge_v(tbl, vs.push(v)) == store_v(merge_v(tbl, vs), v),
    decreases vs.len(),
{
    if vs.len() == 0 {
        assert(vs.push(v).drop_first() =~= Seq::<VariableV>::empty());
        assert(vs.push(v)[0] == v);
        assert(merge_v(store_v(tbl, v), Seq::<VariableV>::empty()) == store_v(tbl, v));
    } else {
        assert(vs.push(v)[0] == vs[0]);
        assert(vs.push(v).drop_first() =~= vs.drop_first().push(v));
        lemma_merge_push(store_v(tbl, vs[0]), vs.drop_first(), v);
    }
}

/// An ordered collection of bindings, one per identifier.
#[derive(Debug, PartialEq)]
pub struct VarTable {
    /// The bindings, sorted strictly by identifier.
    pub variables: Vec<Variable>,
}

impl View for VarTable {
    type V = Seq<VariableV>;

    open spec fn view(&self) -> Seq<VariableV> {
        Seq::new(self.variables@.len(), |i: int| self.variables@[i]@)
    }
}

impl VarTable {
    /// The table invariant: sorted identifiers and well-formed bindings.
    pub open spec fn wf(&self) -> bool {
        &&& tbl_sorted(self@)
        &&& forall|i: int|
            0 <= i < self.variables@.len() ==> (#[trigger] self.variables@[i]).tokens.wf()
    }

    /// Creates an empty table.
    pub fn new() -> (r: VarTable)
        ensures
            r.wf(),
            r@ =~= Seq::<VariableV>::empty(),
    {
        VarTable { variables: Vec::new() }
    }

    /// A structural copy of the table.
    pub fn dup(&self) -> (r: VarTable)
        ensures
            r@ == self@,
            self.wf() ==> r.wf(),
    {
        let mut vars: Vec<Variable> = Vec::new();
        let n = self.variables.len();
        let mut i: usize = 0;
        while i < n
            invariant
                n == self.variables.len(),
                0 <= i <= n,
                vars@.len() == i,
                forall|k: int| 0 <= k < i ==> (#[trigger] vars@[k])@ == self.variables@[k]@,
                forall|k: int|
                    0 <= k < i ==> (#[trigger] self.variables@[k]).tokens.wf() ==> vars@[k].tokens.wf(),
            decreases n - i,
        {
            vars.push(self.variables[i].dup());
            i += 1;
        }
        let r = VarTable { variables: vars };
        proof {
            assert(r@ =~= self@);
        }
        r
    }

    /// The scan shared by the mutating operations: the index of the first
    /// identifier not below `id`, and whether it equals `id`.
    fn seek(&self, id: &str) -> (r: (usize, bool))
        requires
            self.wf(),
        ensures
            0 <= r.0 <= self@.len(),
            forall|k: int| 0 <= k < r.0 ==> lex_lt((#[trigger] self@[k].id), id@),
            r.0 < self@.len() ==> !lex_lt(self@[r.0 as int].id, id@),
            r.1 == (r.0 < self@.len() && self@[r.0 as int].id == id@),
            r.1 ==> self@[r.0 as int].id == id@,
            forall|k: int| 0 <= k < r.0 ==> (#[trigger] self@[k].id) != id@,
        {
        let n = self.variables.len();
        let mut i: usize = 0;
        while i < n
            invariant
                self.wf(),
                n == self.variables.len(),
                n == self@.len(),
                0 <= i <= n,
                forall|k: int| 0 <= k < i ==> lex_lt((#[trigger] self@[k].id), id@),
            decreases n - i,
        {
            match str_compare(self.variables[i].id.as_str(), id) {
                StrOrder::Before => {
                    i += 1;
                },
                StrOrder::Same => {
                    proof {
                        lemma_ids_distinct(self@, id@, i as int);
                    }
                    return (i, true);
                },
                StrOrder::After => {
                    proof {
                        crate::strutil::lemma_lex_asymmetric(id@, self@[i as int].id);
                        lemma_ids_distinct(self@, id@, i as int);
                    }
                    return (i, false);
                },
            }
        }
        proof {
            lemma_ids_distinct(self@, id@, n as int);
        }
        (n, false)
    }

    /// Adds a binding, failing if the identifier already exists.
    pub fn add(&mut self, var: Variable) -> (r: Result<(), VarError>)
        requires
            old(self).wf(),
            var.tokens.wf(),
        ensures
            final(self).wf(),
            lookup_v(old(self)@, var@.id) is Some ==> (r matches Err(
                VarError::AlreadyDefined(m),
            ) && m@ == var@.id && final(self)@ == old(self)@),
            lookup_v(old(self)@, var@.id) is None ==> (r matches Ok(u) && final(self)@ == store_v(
                old(self)@,
                var@,
            )),
    {
        let (pos, found) = self.seek(var.id.as_str());
        if found {
            proof {
                lemma_lookup_at(self@, var@.id, pos as int);
            }
            Err(VarError::AlreadyDefined(crate::strutil::copy_string(&var.id)))
        } else {
            proof {
                lemma_lookup_absent(self@, var@.id, pos as int);
            }
            proof {
                lemma_store_at(self@, var@, pos as int);
                lemma_sorted_insert(self@, var@, pos as int);
            }
            let ghost pre = self@;
            self.variables.insert(pos, var);
            proof {
                assert(self@ =~= pre.insert(pos as int, var@));
            }
            Ok(())
        }
    }

    /// Stores a binding, replacing any existing one under the same
    /// identifier.
    pub fn store(&mut self, var: Variable) -> (r: Result<(), VarError>)
        requires
            old(self).wf(),
            var.tokens.wf(),
        ensures
            final(self).wf(),
            r matches Ok(u),
            final(self)@ == store_v(old(self)@, var@),
    {
        let (pos, found) = self.seek(var.id.as_str());
        proof {
            lemma_store_at(self@, var@, pos as int);
        }
        if found {
            let ghost pre = self@;
            self.variables.remove(pos);
            self.variables.insert(pos, var);
            proof {
                assert(self@ =~= pre.update(pos as int, var@));
                lemma_sorted_update(pre, var@, pos as int);
            }
            Ok(())
        } else {
            proof {
                lemma_sorted_insert(self@, var@, pos as int);
            }
            let ghost pre = self@;
            self.variables.insert(pos, var);
            proof {
                assert(self@ =~= pre.insert(pos as int, var@));
            }
            Ok(())
        }
    }

    /// Removes the binding under `id`, failing if there is none.
    pub fn remove(&mut self, id: &str) -> (r: Result<(), VarError>)
        requires
            old(self).wf(),
        ensures
            final(self).wf(),
            lookup_v(old(self)@, id@) is None ==> (r matches Err(VarError::NotFound(m)) && m@
                == id@ && final(self)@ == old(self)@),
            lookup_v(old(self)@, id@) is Some ==> (r matches Ok(u) && final(self)@ == remove_v(
                old(self)@,
                id@,
            )),
    {
        let (pos, found) = self.seek(id);
        if found {
            proof {
                lemma_lookup_at(self@, id@, pos as int);
                lemma_remove_at(self@, id@, pos as int);
            }
            let ghost pre = self@;
            self.variables.remove(pos);
            proof {
                assert(self@ =~= pre.remove(pos as int));
                lemma_sorted_remove(pre, pos as int);
            }
            Ok(())
        } else {
            proof {
                lemma_lookup_absent(self@, id@, pos as int);
            }
            Err(VarError::NotFound(crate::strutil::copy_string_str(id)))
        }
    }

    /// Looks up the binding under `id`, returning a copy of it.
    pub fn get(&mut self, id: &str) -> (r: Result<Variable, VarError>)
        requires
            old(self).wf(),
        ensures
            final(self)@ == old(self)@,
            final(self).wf(),
            lookup_v(old(self)@, id@) is None ==> (r matches Err(VarError::NotFound(m)) && m@
                == id@),
            lookup_v(old(self)@, id@) matches Some(v) ==> (r matches Ok(var) && var@ == v
                && var.tokens.wf()),
    {
        let (pos, found) = self.seek(id);
        if found {
            proof {
                lemma_lookup_at(self@, id@, pos as int);
            }
            Ok(self.variables[pos].dup())
        } else {
            proof {
                lemma_lookup_absent(self@, id@, pos as int);
            }
            Err(VarError::NotFound(crate::strutil::copy_string_str(id)))
        }
    }

    /// Merges another table in, its bindings winning on collision.
    pub fn merge(&mut self, vartable: &VarTable) -> (r: Result<(), VarError>)
        requires
            old(self).wf(),
            vartable.wf(),
        ensures
            final(self).wf(),
            r matches Ok(u),
            final(self)@ == merge_v(old(self)@, vartable@),
    {
        let n = vartable.variables.len();
        let mut i: usize = 0;
        while i < n
            invariant
                self.wf(),
                vartable.wf(),
                n == vartable.variables.len(),
                n == vartable@.len(),
                0 <= i <= n,
                self@ == merge_v(old(self)@, vartable@.take(i as int)),
            decreases n - i,
        {
            let var = vartable.variables[i].dup();
            proof {
                assert(vartable@[i as int].tokens == vartable.variables@[i as int].tokens@);
            }
            let res = self.store(var);
            proof {
                lemma_merge_push(old(self)@, vartable@.take(i as int), vartable@[i as int]);
                assert(vartable@.take(i as int).push(vartable@[i as int]) =~= vartable@.take(
                    i + 1,
                ));
            }
            i += 1;
        }
        proof {
            assert(vartable@.take(n as int) =~= vartable@);
        }
        Ok(())
    }
}

/// In a sorted table, identifiers before the stop point differ from the key.
proof fn lemma_ids_distinct(tbl: Seq<VariableV>, id: Seq<char>, p: int)
    requires
        0 <= p <= tbl.len(),
        forall|k: int| 0 <= k < p ==> lex_lt((#[trigger] tbl[k].id), id),
    ensures
        forall|k: int| 0 <= k < p ==> (#[trigger] tbl[k].id) != id,
{
    assert forall|k: int| 0 <= k < p implies (#[trigger] tbl[k].id) != id by {
        crate::strutil::lemma_lex_asymmetric(tbl[k].id, id);
    }
}

/// Inserting at the scan's stop point keeps the table sorted.
proof fn lemma_sorted_insert(tbl: Seq<VariableV>, entry: VariableV, p: int)
    requires
        tbl_sorted(tbl),
        0 <= p <= tbl.len(),
        forall|k: int| 0 <= k < p ==> lex_lt((#[trigger] tbl[k].id), entry.id),
        p < tbl.len() ==> !lex_lt(tbl[p].id, entry.id),
        p < tbl.len() ==> tbl[p].id != entry.id,
    ensures
        tbl_sorted(tbl.insert(p, entry)),
{
    let out = tbl.insert(p, entry);
    assert forall|i: int, j: int| 0 <= i < j < out.len() implies lex_lt(
        (#[trigger] out[i].id),
        (#[trigger] out[j].id),
    ) by {
        if p < tbl.len() && !lex_lt(entry.id, tbl[p].id) {
            crate::strutil::lemma_lex_connected(tbl[p].id, entry.id);
        }
        if i < p && j == p {
        } else if i == p && j > p {
            if j - 1 > p {
                crate::strutil::lemma_lex_transitive(entry.id, tbl[p].id, tbl[j - 1].id);
            }
        } else if i < p && j > p {
        } else {
        }
    }
}

/// Replacing a binding under the same identifier keeps the table sorted.
proof fn lemma_sorted_update(tbl: Seq<VariableV>, entry: VariableV, p: int)
    requires
        tbl_sorted(tbl),
        0 <= p < tbl.len(),
        tbl[p].id == entry.id,
    ensures
        tbl_sorted(tbl.update(p, entry)),
{
}

/// Removing a binding keeps the table sorted.
proof fn lemma_sorted_remove(tbl: Seq<VariableV>, p: int)
    requires
        tbl_sorted(tbl),
        0 <= p < tbl.len(),
    ensures
        tbl_sorted(tbl.remove(p)),
{
    let out = tbl.remove(p);
    assert forall|i: int, j: int| 0 <= i < j < out.len() implies lex_lt(
        (#[trigger] out[i].id),
        (#[trigger] out[j].id),
    ) by {
        if i < p && j < p {
        } else if i < p {
            assert(out[j] == tbl[j + 1]);
        } else {
            assert(out[i] == tbl[i + 1] && out[j] == tbl[j + 1]);
        }
    }
}

} // verus!
