//! The session: rendering settings, the symbol table, and the answer
//! history that `@` references resolve against.
//!
//! Only the plain data lives here; reading and writing session files is the
//! host's business.

use vstd::prelude::*;

verus! {

use crate::token::{Token, TokenV};
use crate::variable::{VarTable, VariableV};

/// Default number of decimal places to render.  Does not affect the
/// precision of exact calculations.
pub const DEFAULT_DECIMAL_PLACES: u32 = 6;

/// Default number of history entries to render.
pub const DEFAULT_HISTORY_DEPTH: u32 = 1000;

/// The opaque identifier of a history entry (a 128-bit token minted by the
/// host).
#[derive(Debug, Clone, Copy, PartialEq, Eq, Structural, Hash)]
pub struct AnswerId(pub u128);

/// One past calculation: its identifier, its expression tree, and the text
/// it rendered to at the time.
#[derive(Debug, PartialEq)]
pub struct HistoryEntry {
    /// Identifier of the entry.
    pub entry_uuid: AnswerId,
    /// The full expression, normally an equality of input and result.
    pub expression: Token,
    /// Rendition of the expression at the time of calculation.
    pub rendition: String,
}

/// The mathematical content of a history entry.
#[verifier::ext_equal]
pub struct HistoryEntryV {
    pub id: u128,
    pub expression: TokenV,
    pub rendition: Seq<char>,
}

impl View for HistoryEntry {
    type V = HistoryEntryV;

    open spec fn view(&self) -> HistoryEntryV {
        HistoryEntryV { id: self.entry_uuid.0, expression: self.expression@, rendition: self.rendition@ }
    }
}

impl HistoryEntry {
    /// Creates an entry from an expression, rendering it with the session's
    /// settings; the identifier is minted by the host.
    pub fn new(expression: &Token, session: &Session, entry_uuid: AnswerId) -> (r: HistoryEntry)
        requires
            expression.wf(),
            session.wf(),
        ensures
            r.expression.wf(),
            r@.id == entry_uuid.0,
            r@.expression == expression@,
            r@.rendition == crate::token::render_token_v(expression@, session@),
    {
        HistoryEntry {
            entry_uuid,
            expression: expression.dup(),
            rendition: expression.to_string(session),
        }
    }

    /// The rendition recorded when the entry was created.
    pub fn to_string(&self) -> (r: String)
        ensures
            r@ == self@.rendition,
    {
        crate::strutil::copy_string(&self.rendition)
    }

    /// The expression to evaluate when this entry is referenced: the left
    /// side of an equality, or the whole expression otherwise.
    pub fn without_equality(&self) -> (r: Token)
        requires
            self.expression.wf(),
        ensures
            r.wf(),
            r@ == (match self@.expression {
                TokenV::Equality(l, _) => *l,
                _ => self@.expression,
            }),
    {
        match &self.expression {
            Token::Equality(l, _) => l.dup(),
            _ => self.expression.dup(),
        }
    }

    /// Renders the entry without an equal sign nor everything right of it;
    /// the whole expression if there is no equality.
    pub fn render_without_equality(&self, session: &Session) -> (r: String)
        requires
            self.expression.wf(),
            session.wf(),
        ensures
            r@ == crate::token::render_token_v(
                match self@.expression {
                    TokenV::Equality(l, _) => *l,
                    _ => self@.expression,
                },
                session@,
            ),
    {
        match &self.expression {
            Token::Equality(l, _) => l.to_string(session),
            _ => self.expression.to_string(session),
        }
    }

    /// A structural copy of the entry.
    pub fn dup(&self) -> (r: HistoryEntry)
        ensures
            r@ == self@,
            self.expression.wf() ==> r.expression.wf(),
    {
        HistoryEntry {
            entry_uuid: self.entry_uuid,
            expression: self.expression.dup(),
            rendition: crate::strutil::copy_string(&self.rendition),
        }
    }
}

/// All semi-global settings and state of one calculator session.
#[derive(Debug, PartialEq)]
pub struct Session {
    /// Number of decimal places to render.
    pub decimal_places: u32,
    /// Number of history entries to render.
    pub history_depth: u32,
    /// Variables stored in the session.
    pub vartable: VarTable,
    /// History entries of this session, oldest first.
    pub entries: Vec<HistoryEntry>,
    /// Entries carried over from previous sessions, oldest first.
    pub previous_entries: Vec<HistoryEntry>,
}

/// The mathematical content of a session.
#[verifier::ext_equal]
pub struct SessionV {
    pub decimal_places: u32,
    pub history_depth: u32,
    pub vartable: Seq<VariableV>,
    pub entries: Seq<HistoryEntryV>,
    pub previous: Seq<HistoryEntryV>,
}

impl View for Session {
    type V = SessionV;

    open spec fn view(&self) -> SessionV {
        SessionV {
            decimal_places: self.decimal_places,
            history_depth: self.history_depth,
            vartable: self.vartable@,
            entries: Seq::new(self.entries@.len(), |i: int| self.entries@[i]@),
            previous: Seq::new(self.previous_entries@.len(), |i: int| self.previous_entries@[i]@),
        }
    }
}

/// The position of the first entry with the given identifier, or `-1`.
pub open spec fn first_pos_id(s: Seq<HistoryEntryV>, id: u128) -> int
    decreases s.len(),
{
    if s.len() == 0 {
        -1
    } else if s[0].id == id {
        0
    } else {
        let r = first_pos_id(s.drop_first(), id);
        if r < 0 {
            -1
        } else {
            r + 1
        }
    }
}

/// What `first_pos_id` means, occurrence by occurrence.
pub proof fn lemma_first_pos_charn(s: Seq<HistoryEntryV>, id: u128)
    ensures
        first_pos_id(s, id) >= 0 ==> {
            &&& first_pos_id(s, id) < s.len()
            &&& s[first_pos_id(s, id)].id == id
            &&& forall|k: int| 0 <= k < first_pos_id(s, id) ==> (#[trigger] s[k].id) != id
        },
        first_pos_id(s, id) < 0 ==> forall|k: int| 0 <= k < s.len() ==> (#[trigger] s[k].id) != id,
    decreases s.len(),
{
    if s.len() > 0 && s[0].id != id {
        let t = s.drop_first();
        lemma_first_pos_charn(t, id);
        assert(forall|k: int| 0 <= k < s.len() - 1 ==> (#[trigger] t[k]) == s[k + 1]);
        if first_pos_id(s, id) >= 0 {
            assert(s[first_pos_id(s, id)] == t[first_pos_id(t, id)]);
            assert forall|k: int| 0 <= k < first_pos_id(s, id) implies (#[trigger] s[k].id)
                != id by {
                if k > 0 {
                    assert(s[k] == t[k - 1]);
                }
            }
        } else {
            assert forall|k: int| 0 <= k < s.len() implies (#[trigger] s[k].id) != id by {
                if k > 0 {
                    assert(s[k] == t[k - 1]);
                }
            }
        }
    }
}

/// The inverse index (counted back from the most recent entry) of the entry
/// with the given identifier: current entries first, then previous sessions.
pub open spec fn inv_index_of(sess: SessionV, id: u128) -> Option<int> {
    let p = first_pos_id(sess.entries, id);
    let q = first_pos_id(sess.previous, id);
    if p >= 0 {
        Option::Some(sess.entries.len() - 1 - p)
    } else if q >= 0 {
        Option::Some(sess.entries.len() + sess.previous.len() - 1 - q)
    } else {
        Option::None
    }
}

/// The entry an inverse index denotes, counting back through the current
/// entries and then the previous sessions' entries.
pub open spec fn entry_at_inv(sess: SessionV, inv: int) -> Option<HistoryEntryV> {
    if inv >= sess.previous.len() + sess.entries.len() || inv < 0 {
        Option::None
    } else if inv + 1 <= sess.entries.len() {
        Option::Some(sess.entries[sess.entries.len() - 1 - inv])
    } else {
        Option::Some(sess.previous[sess.previous.len() - (inv + 1 - sess.entries.len())])
    }
}

/// The entry with the given identifier: current entries first, then
/// previous sessions.
pub open spec fn entry_of_id(sess: SessionV, id: u128) -> Option<HistoryEntryV> {
    let p = first_pos_id(sess.entries, id);
    let q = first_pos_id(sess.previous, id);
    if p >= 0 {
        Option::Some(sess.entries[p])
    } else if q >= 0 {
        Option::Some(sess.previous[q])
    } else {
        Option::None
    }
}

impl Session {
    /// The session invariant: the symbol table is well-formed and every
    /// recorded expression satisfies the number engine's invariant.
    pub open spec fn wf(&self) -> bool {
        &&& self.vartable.wf()
        &&& self.entries@.len() + self.previous_entries@.len() < usize::MAX
        &&& forall|i: int|
            0 <= i < self.entries@.len() ==> (#[trigger] self.entries@[i]).expression.wf()
        &&& forall|i: int|
            0 <= i < self.previous_entries@.len() ==> (#[trigger] self.previous_entries@[
                i
            ]).expression.wf()
    }

    /// Creates a new session with default settings and empty state.
    pub fn new() -> (r: Session)
        ensures
            r.wf(),
            r@.decimal_places == DEFAULT_DECIMAL_PLACES,
            r@.history_depth == DEFAULT_HISTORY_DEPTH,
            r@.vartable =~= Seq::<VariableV>::empty(),
            r@.entries =~= Seq::<HistoryEntryV>::empty(),
            r@.previous =~= Seq::<HistoryEntryV>::empty(),
    {
        Session {
            decimal_places: DEFAULT_DECIMAL_PLACES,
            history_depth: DEFAULT_HISTORY_DEPTH,
            vartable: VarTable::new(),
            entries: Vec::new(),
            previous_entries: Vec::new(),
        }
    }

    /// Adds an entry to the current session.
    pub fn add_entry(&mut self, history_entry: &HistoryEntry)
        requires
            old(self).wf(),
            old(self)@.entries.len() + old(self)@.previous.len() + 1 < usize::MAX,
            history_entry.expression.wf(),
        ensures
            final(self).wf(),
            final(self)@.entries =~= old(self)@.entries.push(history_entry@),
            final(self)@.previous == old(self)@.previous,
            final(self)@.vartable == old(self)@.vartable,
            final(self)@.decimal_places == old(self)@.decimal_places,
            final(self)@.history_depth == old(self)@.history_depth,
    {
        self.entries.push(history_entry.dup());
        proof {
            assert(final(self)@.previous =~= old(self)@.previous);
        }
    }

    /// Returns all previous entries followed by all current entries.
    pub fn get_entries(&self) -> (r: Vec<HistoryEntry>)
        requires
            self.wf(),
        ensures
            Seq::new(r@.len(), |i: int| r@[i]@) =~= self@.previous + self@.entries,
    {
        let mut total: Vec<HistoryEntry> = Vec::new();
        let np = self.previous_entries.len();
        let mut i: usize = 0;
        while i < np
            invariant
                self.wf(),
                np == self.previous_entries.len(),
                0 <= i <= np,
                total@.len() == i,
                forall|k: int| 0 <= k < i ==> (#[trigger] total@[k])@ == self.previous_entries@[k]@,
            decreases np - i,
        {
            total.push(self.previous_entries[i].dup());
            i += 1;
        }
        let ne = self.entries.len();
        let mut j: usize = 0;
        while j < ne
            invariant
                self.wf(),
                np == self.previous_entries.len(),
                ne == self.entries.len(),
                0 <= j <= ne,
                total@.len() == np + j,
                forall|k: int|
                    0 <= k < np ==> (#[trigger] total@[k])@ == self.previous_entries@[k]@,
                forall|k: int| np <= k < np + j ==> (#[trigger] total@[k])@ == self.entries@[k - np]@,
            decreases ne - j,
        {
            total.push(self.entries[j].dup());
            j += 1;
        }
        total
    }

    /// Gets a copy of the entry at the given inverse index, newest first.
    pub fn get_entry_inv_index(&self, inverse_index: usize) -> (r: Option<HistoryEntry>)
        requires
            self.wf(),
        ensures
            match entry_at_inv(self@, inverse_index as int) {
                Option::Some(e) => r matches Some(entry) && entry@ == e && entry.expression.wf(),
                Option::None => r is None,
            },
    {
        let np = self.previous_entries.len();
        let ne = self.entries.len();
        if inverse_index >= np && inverse_index - np >= ne {
            return None;
        }
        let inv = inverse_index + 1;
        if inv > ne {
            let index = np - (inv - ne);
            Some(self.previous_entries[index].dup())
        } else {
            let index = ne - inv;
            Some(self.entries[index].dup())
        }
    }

    /// Gets the inverse index of the entry with the given identifier.
    pub fn get_inv_index_from_uuid(&self, uuid: AnswerId) -> (r: Option<usize>)
        requires
            self.wf(),
        ensures
            match inv_index_of(self@, uuid.0) {
                Option::Some(k) => r matches Some(v) && v == k,
                Option::None => r is None,
            },
    {
        proof {
            lemma_first_pos_charn(self@.entries, uuid.0);
            lemma_first_pos_charn(self@.previous, uuid.0);
        }
        let ne = self.entries.len();
        let mut i: usize = 0;
        while i < ne
            invariant
                self.wf(),
                ne == self.entries.len(),
                0 <= i <= ne,
                forall|k: int| 0 <= k < i ==> (#[trigger] self@.entries[k].id) != uuid.0,
            decreases ne - i,
        {
            if self.entries[i].entry_uuid.0 == uuid.0 {
                proof {
                    assert(self@.entries[i as int].id == uuid.0);
                    lemma_first_pos_charn(self@.entries, uuid.0);
                    assert(first_pos_id(self@.entries, uuid.0) == i as int);
                }
                return Some(ne - i - 1);
            }
            i += 1;
        }
        proof {
            assert(first_pos_id(self@.entries, uuid.0) < 0);
        }
        let np = self.previous_entries.len();
        let mut j: usize = 0;
        while j < np
            invariant
                self.wf(),
                ne == self.entries.len(),
                np == self.previous_entries.len(),
                0 <= j <= np,
                first_pos_id(self@.entries, uuid.0) < 0,
                forall|k: int| 0 <= k < j ==> (#[trigger] self@.previous[k].id) != uuid.0,
            decreases np - j,
        {
            if self.previous_entries[j].entry_uuid.0 == uuid.0 {
                proof {
                    assert(self@.previous[j as int].id == uuid.0);
                    lemma_first_pos_charn(self@.previous, uuid.0);
                    assert(first_pos_id(self@.previous, uuid.0) == j as int);
                }
                return Some(ne + np - j - 1);
            }
            j += 1;
        }
        proof {
            assert(first_pos_id(self@.previous, uuid.0) < 0);
        }
        None
    }

    /// Gets a copy of the entry with the given identifier.
    pub fn get_entry_from_uuid(&self, uuid: AnswerId) -> (r: Option<HistoryEntry>)
        requires
            self.wf(),
        ensures
            match entry_of_id(self@, uuid.0) {
                Option::Some(e) => r matches Some(entry) && entry@ == e && entry.expression.wf(),
                Option::None => r is None,
            },
    {
        proof {
            lemma_first_pos_charn(self@.entries, uuid.0);
            lemma_first_pos_charn(self@.previous, uuid.0);
        }
        let ne = self.entries.len();
        let mut i: usize = 0;
        while i < ne
            invariant
                self.wf(),
                ne == self.entries.len(),
                0 <= i <= ne,
                forall|k: int| 0 <= k < i ==> (#[trigger] self@.entries[k].id) != uuid.0,
            decreases ne - i,
        {
            if self.entries[i].entry_uuid.0 == uuid.0 {
                proof {
                    assert(self@.entries[i as int].id == uuid.0);
                    lemma_first_pos_charn(self@.entries, uuid.0);
                    assert(first_pos_id(self@.entries, uuid.0) == i as int);
                }
                return Some(self.entries[i].dup());
            }
            i += 1;
        }
        proof {
            assert(first_pos_id(self@.entries, uuid.0) < 0);
        }
        let np = self.previous_entries.len();
        let mut j: usize = 0;
        while j < np
            invariant
                self.wf(),
                ne == self.entries.len(),
                np == self.previous_entries.len(),
                0 <= j <= np,
                first_pos_id(self@.entries, uuid.0) < 0,
                forall|k: int| 0 <= k < j ==> (#[trigger] self@.previous[k].id) != uuid.0,
            decreases np - j,
        {
            if self.previous_entries[j].entry_uuid.0 == uuid.0 {
                proof {
                    assert(self@.previous[j as int].id == uuid.0);
                    lemma_first_pos_charn(self@.previous, uuid.0);
                    assert(first_pos_id(self@.previous, uuid.0) == j as int);
                }
                return Some(self.previous_entries[j].dup());
            }
            j += 1;
        }
        proof {
            assert(first_pos_id(self@.previous, uuid.0) < 0);
        }
        None
    }
}

} // verus!
