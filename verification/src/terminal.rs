//! A dynamic, user-selectable list for a display collaborator.
//!
//! The terminal holds identifier-keyed rows and a transcript: the lines
//! handed out for display, in order. Writing those lines to a real
//! screen, and coloring them, is the display collaborator's business
//! outside this crate; here the list and the transcript are plain values
//! with exact contracts.

use vstd::prelude::*;

verus! {

/// A selectable list of rows keyed by identifier, plus the transcript of
/// lines handed to the display so far.
pub struct Terminal {
    /// The rows, keyed by identifier; identifiers are unique.
    pub data: Vec<(u64, String)>,
    /// The lines handed to the display, oldest first: prompts and
    /// freshly inserted content.
    pub transcript: Vec<String>,
}

/// The map a sequence of rows denotes: each identifier to its content.
pub open spec fn rows_map(s: Seq<(u64, String)>) -> Map<u64, Seq<char>>
    decreases s.len(),
{
    if s.len() == 0 {
        Map::empty()
    } else {
        rows_map(s.drop_last()).insert(s.last().0, s.last().1@)
    }
}

/// An identifier is a key of `rows_map(s)` exactly when some row holds
/// it.
pub proof fn lemma_rows_map_membership(s: Seq<(u64, String)>, k: u64)
    ensures
        rows_map(s).contains_key(k) <==> exists|i: int| 0 <= i < s.len() && (#[trigger] s[i]).0
            == k,
    decreases s.len(),
{
    if s.len() > 0 {
        lemma_rows_map_membership(s.drop_last(), k);
        if s.last().0 == k {
            assert(s[s.len() - 1].0 == k);
        } else if exists|i: int| 0 <= i < s.len() && (#[trigger] s[i]).0 == k {
            let i = choose|i: int| 0 <= i < s.len() && (#[trigger] s[i]).0 == k;
            assert(i < s.len() - 1);
            assert(s.drop_last()[i].0 == k);
        }
    }
}

/// Under unique identifiers, the map sends each row's identifier to that
/// row's content.
pub proof fn lemma_rows_map_value(s: Seq<(u64, String)>, i: int)
    requires
        0 <= i < s.len(),
        forall|j: int, k: int|
            0 <= j < s.len() && 0 <= k < s.len() && j != k ==> (#[trigger] s[j]).0 != (
            #[trigger] s[k]).0,
    ensures
        rows_map(s).contains_key(s[i].0),
        rows_map(s)[s[i].0] == s[i].1@,
    decreases s.len(),
{
    if i == s.len() - 1 {
        assert(s.last() == s[i]);
    } else {
        assert(forall|j: int, k: int|
            0 <= j < s.drop_last().len() && 0 <= k < s.drop_last().len() && j != k
                ==> (#[trigger] s.drop_last()[j]).0 != (#[trigger] s.drop_last()[k]).0);
        lemma_rows_map_value(s.drop_last(), i);
        assert(s.drop_last()[i] == s[i]);
        assert(s.last().0 != s[i].0);
    }
}

/// Removing row `i` removes exactly its identifier from the denoted map,
/// provided identifiers are unique.
proof fn lemma_rows_map_remove(s: Seq<(u64, String)>, i: int)
    requires
        0 <= i < s.len(),
        forall|j: int, k: int|
            0 <= j < s.len() && 0 <= k < s.len() && j != k ==> (#[trigger] s[j]).0 != (
            #[trigger] s[k]).0,
    ensures
        rows_map(s.remove(i)) == rows_map(s).remove(s[i].0),
    decreases s.len(),
{
    if i == s.len() - 1 {
        assert(s.remove(i) =~= s.drop_last());
        lemma_rows_map_membership(s.drop_last(), s[i].0);
        assert(forall|j: int|
            0 <= j < s.drop_last().len() ==> (#[trigger] s.drop_last()[j]).0 != s[i].0);
        assert(!rows_map(s.drop_last()).contains_key(s[i].0));
        assert(rows_map(s).remove(s[i].0) =~= rows_map(s.drop_last()));
    } else {
        let t = s.remove(i);
        assert(t.len() == s.len() - 1);
        assert(t.drop_last() =~= s.drop_last().remove(i));
        assert(t.last() == s.last());
        assert(forall|j: int, k: int|
            0 <= j < s.drop_last().len() && 0 <= k < s.drop_last().len() && j != k
                ==> (#[trigger] s.drop_last()[j]).0 != (#[trigger] s.drop_last()[k]).0);
        lemma_rows_map_remove(s.drop_last(), i);
        assert(s.drop_last()[i] == s[i]);
        assert(s.last().0 != s[i].0);
        assert(rows_map(t) == rows_map(s.drop_last()).remove(s[i].0).insert(
            s.last().0,
            s.last().1@,
        ));
        assert(rows_map(s).remove(s[i].0) =~= rows_map(s.drop_last()).remove(s[i].0).insert(
            s.last().0,
            s.last().1@,
        ));
    }
}

impl Terminal {
    /// Identifiers are pairwise distinct.
    pub open spec fn wf(self) -> bool {
        forall|j: int, k: int|
            0 <= j < self.data@.len() && 0 <= k < self.data@.len() && j != k
                ==> (#[trigger] self.data@[j]).0 != (#[trigger] self.data@[k]).0
    }

    /// The rows as a map from identifier to content.
    pub open spec fn as_map(self) -> Map<u64, Seq<char>> {
        rows_map(self.data@)
    }

    /// An empty list with an empty transcript.
    pub fn new() -> (t: Terminal)
        ensures
            t.wf(),
            t.data@.len() == 0,
            t.transcript@.len() == 0,
            t.as_map() == Map::<u64, Seq<char>>::empty(),
    {
        Terminal { data: Vec::new(), transcript: Vec::new() }
    }

    /// Hands a prompt line to the display; the rows stay as they were.
    pub fn with_prompt(&mut self, prompt: String) -> (r: Result<(), &'static str>)
        ensures
            final(self).data@ == old(self).data@,
            final(self).transcript@ == old(self).transcript@.push(prompt),
            r is Ok,
    {
        self.transcript.push(prompt);
        Ok(())
    }

    /// The index of the row under `identifier`, if the list has one.
    fn find(&self, identifier: u64) -> (r: Option<usize>)
        ensures
            match r {
                Some(i) => i < self.data@.len() && self.data@[i as int].0 == identifier,
                None => forall|j: int|
                    0 <= j < self.data@.len() ==> (#[trigger] self.data@[j]).0 != identifier,
            },
    {
        let n = self.data.len();
        let mut i: usize = 0;
        while i < n
            invariant
                0 <= i <= n,
                n == self.data@.len(),
                forall|j: int| 0 <= j < i ==> (#[trigger] self.data@[j]).0 != identifier,
            decreases n - i,
        {
            if self.data[i].0 == identifier {
                return Some(i);
            }
            i += 1;
        }
        None
    }

    /// Adds a new row and hands its content to the display; refused when
    /// the identifier is already taken, and then nothing changes.
    pub fn insert(&mut self, identifier: u64, content: String) -> (r: Result<(), &'static str>)
        requires
            old(self).wf(),
        ensures
            final(self).wf(),
            r is Ok <==> !old(self).as_map().contains_key(identifier),
            r is Ok ==> final(self).as_map() == old(self).as_map().insert(identifier, content@)
                && final(self).data@ == old(self).data@.push((identifier, content))
                && final(self).transcript@ == old(self).transcript@.push(content),
            r is Err ==> final(self).data@ == old(self).data@
                && final(self).transcript@ == old(self).transcript@,
    {
        proof {
            lemma_rows_map_membership(self.data@, identifier);
        }
        match self.find(identifier) {
            Some(_) => Err("Key Already exists."),
            None => {
                self.transcript.push(content.clone());
                self.data.push((identifier, content));
                proof {
                    assert(self.data@.drop_last() =~= old(self).data@);
                }
                Ok(())
            },
        }
    }

    /// Sets the content under `identifier`, adding the row when it is
    /// new; the display is not told.
    pub fn modify(&mut self, identifier: u64, content: String) -> (r: Result<(), &'static str>)
        requires
            old(self).wf(),
        ensures
            final(self).wf(),
            final(self).as_map() == old(self).as_map().insert(identifier, content@),
            final(self).transcript@ == old(self).transcript@,
            r is Ok,
    {
        match self.find(identifier) {
            Some(i) => {
                proof {
                    lemma_rows_map_remove(self.data@, i as int);
                }
                let ghost mid = self.data@.remove(i as int);
                self.data.remove(i);
                self.data.push((identifier, content));
                proof {
                    assert(self.data@.drop_last() =~= mid);
                    lemma_rows_map_membership(mid, identifier);
                    assert(forall|j: int, k: int|
                        0 <= j < mid.len() && 0 <= k < mid.len() && j != k ==> (
                        #[trigger] mid[j]).0 != (#[trigger] mid[k]).0) by {
                        assert(forall|j: int| 0 <= j < i as int ==> mid[j] == old(self).data@[j]);
                        assert(forall|j: int|
                            i as int <= j < mid.len() ==> mid[j] == old(self).data@[j + 1]);
                    }
                    assert(final(self).as_map() == rows_map(mid).insert(identifier, content@));
                    assert(rows_map(mid) == old(self).as_map().remove(identifier)) by {
                        assert(old(self).data@[i as int].0 == identifier);
                    }
                    assert(old(self).as_map().remove(identifier).insert(identifier, content@)
                        =~= old(self).as_map().insert(identifier, content@));
                }
                Ok(())
            },
            None => {
                self.data.push((identifier, content));
                proof {
                    assert(self.data@.drop_last() =~= old(self).data@);
                }
                Ok(())
            },
        }
    }

    /// Takes the row under `identifier` out and returns its content;
    /// refused when no such row exists, and then nothing changes.
    pub fn remove(&mut self, identifier: u64) -> (r: Result<String, &'static str>)
        requires
            old(self).wf(),
        ensures
            final(self).wf(),
            final(self).transcript@ == old(self).transcript@,
            match r {
                Ok(content) => old(self).as_map().contains_key(identifier) && content@ == old(
                    self,
                ).as_map()[identifier] && final(self).as_map() == old(self).as_map().remove(
                    identifier,
                ),
                Err(_) => !old(self).as_map().contains_key(identifier) && final(self).data@ == old(
                    self,
                ).data@,
            },
    {
        proof {
            lemma_rows_map_membership(self.data@, identifier);
        }
        match self.find(identifier) {
            Some(i) => {
                proof {
                    lemma_rows_map_value(self.data@, i as int);
                    lemma_rows_map_remove(self.data@, i as int);
                }
                let row = self.data.remove(i);
                proof {
                    let t = self.data@;
                    let s = old(self).data@;
                    assert(forall|j: int| 0 <= j < i as int ==> #[trigger] t[j] == s[j]);
                    assert(forall|j: int|
                        i as int <= j < t.len() ==> #[trigger] t[j] == s[j + 1]);
                }
                Ok(row.1)
            },
            None => Err("Identifier doesn't exist in the map."),
        }
    }

    /// Borrows the content under `identifier`; refused when no such row
    /// exists.
    pub fn get(&mut self, identifier: &u64) -> (r: Result<&String, &'static str>)
        requires
            old(self).wf(),
        ensures
            *final(self) == *old(self),
            match r {
                Ok(content) => old(self).as_map().contains_key(*identifier) && content@ == old(
                    self,
                ).as_map()[*identifier],
                Err(_) => !old(self).as_map().contains_key(*identifier),
            },
    {
        proof {
            lemma_rows_map_membership(self.data@, *identifier);
        }
        match self.find(*identifier) {
            Some(i) => {
                proof {
                    lemma_rows_map_value(self.data@, i as int);
                }
                Ok(&self.data[i].1)
            },
            None => Err("Unable to get the value of designated identifier"),
        }
    }
}

} // verus!
