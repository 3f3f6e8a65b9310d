use vstd::prelude::*;
use vstd::std_specs::vec::vec_index_mut;

verus! {

/// One registered identifier: its name, the captured body, the buffer offset
/// at which its definition started, and whether the definition is still open.
pub struct FnEntry {
    pub name: char,
    pub body: Vec<char>,
    pub start: usize,
    pub creating: bool,
}

/// Mathematical model of the table: the stored bodies with their start
/// offsets, and the set of identifiers whose definition is still open.
pub ghost struct FnTableModel {
    pub funcs: Map<char, (Seq<char>, int)>,
    pub creating: Set<char>,
}

pub open spec fn funcs_of(s: Seq<FnEntry>) -> Map<char, (Seq<char>, int)>
    decreases s.len(),
{
    if s.len() == 0 {
        Map::empty()
    } else {
        funcs_of(s.drop_last()).insert(
            s.last().name,
            (s.last().body@, s.last().start as int),
        )
    }
}

pub open spec fn creating_of(s: Seq<FnEntry>) -> Set<char>
    decreases s.len(),
{
    if s.len() == 0 {
        Set::empty()
    } else if s.last().creating {
        creating_of(s.drop_last()).insert(s.last().name)
    } else {
        creating_of(s.drop_last()).remove(s.last().name)
    }
}

pub open spec fn distinct_names(s: Seq<FnEntry>) -> bool {
    forall|i: int, j: int| 0 <= i < j < s.len() ==> s[i].name != s[j].name
}

/// Registry of character-named functions: each maps to a captured body and a
/// defining start offset; identifiers mid-definition are not yet callable.
pub struct FnTable {
    entries: Vec<FnEntry>,
}

impl View for FnTable {
    type V = FnTableModel;

    closed spec fn view(&self) -> FnTableModel {
        FnTableModel { funcs: funcs_of(self.entries@), creating: creating_of(self.entries@) }
    }
}

proof fn lemma_entry_view(s: Seq<FnEntry>, i: int)
    requires
        distinct_names(s),
        0 <= i < s.len(),
    ensures
        funcs_of(s).contains_key(s[i].name),
        funcs_of(s)[s[i].name] == (s[i].body@, s[i].start as int),
        creating_of(s).contains(s[i].name) == s[i].creating,
    decreases s.len(),
{
    if i == s.len() - 1 {
        assert(s.last() == s[i]);
    } else {
        assert(distinct_names(s.drop_last()));
        lemma_entry_view(s.drop_last(), i);
        assert(s.drop_last()[i] == s[i]);
        assert(s.last().name != s[i].name);
    }
}

proof fn lemma_no_entry(s: Seq<FnEntry>, c: char)
    requires
        forall|i: int| 0 <= i < s.len() ==> s[i].name != c,
    ensures
        !funcs_of(s).contains_key(c),
        !creating_of(s).contains(c),
    decreases s.len(),
{
    if s.len() > 0 {
        lemma_no_entry(s.drop_last(), c);
    }
}

proof fn lemma_update_view(s: Seq<FnEntry>, i: int, e: FnEntry)
    requires
        distinct_names(s),
        0 <= i < s.len(),
        e.name == s[i].name,
    ensures
        distinct_names(s.update(i, e)),
        funcs_of(s.update(i, e)) == funcs_of(s).insert(e.name, (e.body@, e.start as int)),
        creating_of(s.update(i, e)) == (if e.creating {
            creating_of(s).insert(e.name)
        } else {
            creating_of(s).remove(e.name)
        }),
    decreases s.len(),
{
    let s2 = s.update(i, e);
    assert(distinct_names(s2));
    if i == s.len() - 1 {
        assert(s2.drop_last() =~= s.drop_last());
        assert(s2.last() == e);
        assert(s.last() == s[i]);
        assert(funcs_of(s2) =~= funcs_of(s).insert(e.name, (e.body@, e.start as int)));
        if e.creating {
            assert(creating_of(s2) =~= creating_of(s).insert(e.name));
        } else {
            assert(creating_of(s2) =~= creating_of(s).remove(e.name));
        }
    } else {
        assert(distinct_names(s.drop_last()));
        lemma_update_view(s.drop_last(), i, e);
        assert(s2.drop_last() =~= s.drop_last().update(i, e));
        assert(s2.last() == s.last());
        assert(s.last().name != e.name);
        assert(funcs_of(s2) =~= funcs_of(s).insert(e.name, (e.body@, e.start as int)));
        if e.creating {
            assert(creating_of(s2) =~= creating_of(s).insert(e.name));
        } else {
            assert(creating_of(s2) =~= creating_of(s).remove(e.name));
        }
    }
}

proof fn lemma_push_view(s: Seq<FnEntry>, e: FnEntry)
    ensures
        funcs_of(s.push(e)) == funcs_of(s).insert(e.name, (e.body@, e.start as int)),
        creating_of(s.push(e)) == (if e.creating {
            creating_of(s).insert(e.name)
        } else {
            creating_of(s).remove(e.name)
        }),
{
    assert(s.push(e).drop_last() =~= s);
    assert(s.push(e).last() == e);
}

proof fn lemma_put_view(s0: Seq<FnEntry>, s1: Seq<FnEntry>, c: char)
    requires
        distinct_names(s0),
        s1.len() == s0.len(),
        forall|t: int|
            0 <= t < s0.len() ==> #[trigger] s1[t].name == s0[t].name && s1[t].start
                == s0[t].start && s1[t].creating == s0[t].creating,
        forall|t: int|
            0 <= t < s0.len() ==> #[trigger] s1[t].body@ == (if s0[t].creating {
                s0[t].body@.push(c)
            } else {
                s0[t].body@
            }),
    ensures
        distinct_names(s1),
        creating_of(s1) == creating_of(s0),
        funcs_of(s1).dom() == funcs_of(s0).dom(),
        forall|k: char|
            funcs_of(s0).dom().contains(k) ==> #[trigger] funcs_of(s1)[k] == (if creating_of(
                s0,
            ).contains(k) {
                (funcs_of(s0)[k].0.push(c), funcs_of(s0)[k].1)
            } else {
                funcs_of(s0)[k]
            }),
    decreases s0.len(),
{
    if s0.len() == 0 {
        assert(funcs_of(s1).dom() =~= funcs_of(s0).dom());
        assert(creating_of(s1) =~= creating_of(s0));
    } else {
        let n = s0.len() - 1;
        assert(distinct_names(s0.drop_last()));
        assert(forall|t: int|
            0 <= t < s0.drop_last().len() ==> #[trigger] s1.drop_last()[t] == s1[t]);
        lemma_put_view(s0.drop_last(), s1.drop_last(), c);
        assert(s0.last() == s0[n]);
        assert(s1.last() == s1[n]);
        lemma_entry_view(s0, n);
        assert(creating_of(s1) =~= creating_of(s0));
        assert(funcs_of(s1).dom() =~= funcs_of(s0).dom());
        assert forall|k: char| funcs_of(s0).dom().contains(k) implies #[trigger] funcs_of(s1)[k]
            == (if creating_of(s0).contains(k) {
            (funcs_of(s0)[k].0.push(c), funcs_of(s0)[k].1)
        } else {
            funcs_of(s0)[k]
        }) by {
            if k == s0[n].name {
                assert(funcs_of(s1)[k] == (s1[n].body@, s1[n].start as int));
                assert(creating_of(s0).contains(k) == s0[n].creating);
            } else {
                assert(funcs_of(s1)[k] == funcs_of(s1.drop_last())[k]);
                assert(funcs_of(s0)[k] == funcs_of(s0.drop_last())[k]);
                assert(funcs_of(s0.drop_last()).dom().contains(k));
                if creating_of(s0).contains(k) {
                    assert(creating_of(s0.drop_last()).contains(k));
                } else {
                    assert(!creating_of(s0.drop_last()).contains(k));
                }
            }
        }
    }
}

impl FnTable {
    /// Internal invariant: no two stored entries share a name.
    pub closed spec fn wf(&self) -> bool {
        distinct_names(self.entries@)
    }

    /// An empty table: no functions, nothing mid-definition.
    pub fn new() -> (t: FnTable)
        ensures
            t.wf(),
            t@.funcs == Map::<char, (Seq<char>, int)>::empty(),
            t@.creating == Set::<char>::empty(),
    {
        FnTable { entries: Vec::new() }
    }

    /// The index of the entry named `c`, if any.
    fn find_idx(&self, c: char) -> (r: Option<usize>)
        ensures
            match r {
                Some(i) => i < self.entries@.len() && self.entries@[i as int].name == c,
                None => forall|j: int| 0 <= j < self.entries@.len() ==> self.entries@[j].name != c,
            },
    {
        let mut i: usize = 0;
        while i < self.entries.len()
            invariant
                i <= self.entries@.len(),
                forall|j: int| 0 <= j < i ==> self.entries@[j].name != c,
            decreases self.entries@.len() - i,
        {
            if self.entries[i].name == c {
                return Some(i);
            }
            i += 1;
        }
        None
    }

    /// Whether a function named `c` is stored (complete or mid-definition).
    pub fn contains_fn(&self, c: char) -> (r: bool)
        requires
            self.wf(),
        ensures
            r == self@.funcs.contains_key(c),
    {
        match self.find_idx(c) {
            Some(i) => {
                proof {
                    lemma_entry_view(self.entries@, i as int);
                }
                true
            },
            None => {
                proof {
                    lemma_no_entry(self.entries@, c);
                }
                false
            },
        }
    }

    /// Whether `c` is currently mid-definition.
    pub fn is_creating(&self, c: char) -> (r: bool)
        requires
            self.wf(),
        ensures
            r == self@.creating.contains(c),
    {
        match self.find_idx(c) {
            Some(i) => {
                proof {
                    lemma_entry_view(self.entries@, i as int);
                }
                self.entries[i].creating
            },
            None => {
                proof {
                    lemma_no_entry(self.entries@, c);
                }
                false
            },
        }
    }

    /// Whether any identifier is currently mid-definition.
    pub fn any_creating(&self) -> (r: bool)
        requires
            self.wf(),
        ensures
            r == exists|c: char| self@.creating.contains(c),
    {
        let mut i: usize = 0;
        while i < self.entries.len()
            invariant
                self.wf(),
                i <= self.entries@.len(),
                forall|j: int| 0 <= j < i ==> !self.entries@[j].creating,
            decreases self.entries@.len() - i,
        {
            if self.entries[i].creating {
                proof {
                    lemma_entry_view(self.entries@, i as int);
                    assert(self@.creating.contains(self.entries@[i as int].name));
                }
                return true;
            }
            i += 1;
        }
        proof {
            assert forall|c: char| !self@.creating.contains(c) by {
                lemma_creating_needs_flag(self.entries@, c);
            }
        }
        false
    }

    /// The stored body and start offset of `c`, unless `c` is still
    /// mid-definition (a being-defined identifier is not yet callable).
    pub fn get(&self, c: char) -> (r: Option<(Vec<char>, usize)>)
        requires
            self.wf(),
        ensures
            match r {
                Some(p) => !self@.creating.contains(c) && self@.funcs.contains_key(c) && p.0@
                    == self@.funcs[c].0 && p.1 as int == self@.funcs[c].1,
                None => self@.creating.contains(c) || !self@.funcs.contains_key(c),
            },
    {
        match self.find_idx(c) {
            Some(i) => {
                proof {
                    lemma_entry_view(self.entries@, i as int);
                }
                if self.entries[i].creating {
                    None
                } else {
                    let body = copy_chars(&self.entries[i].body);
                    Some((body, self.entries[i].start))
                }
            },
            None => {
                proof {
                    lemma_no_entry(self.entries@, c);
                }
                None
            },
        }
    }

    /// Open (or reopen) a definition for `c`: an empty body, start offset `i`,
    /// and the mid-definition mark set.
    pub fn begin(&mut self, c: char, i: usize)
        requires
            old(self).wf(),
        ensures
            final(self).wf(),
            final(self)@.funcs == old(self)@.funcs.insert(c, (Seq::<char>::empty(), i as int)),
            final(self)@.creating == old(self)@.creating.insert(c),
    {
        let e = FnEntry { name: c, body: Vec::new(), start: i, creating: true };
        match self.find_idx(c) {
            Some(j) => {
                proof {
                    lemma_update_view(self.entries@, j as int, e);
                }
                let slot = vec_index_mut(&mut self.entries, j);
                *slot = e;
            },
            None => {
                proof {
                    lemma_push_view(self.entries@, e);
                    assert(distinct_names(self.entries@.push(e)));
                }
                self.entries.push(e);
            },
        }
    }

    /// Close the definition of `c`; the entry and its accumulated body remain.
    pub fn end(&mut self, c: char)
        requires
            old(self).wf(),
        ensures
            final(self).wf(),
            final(self)@.funcs == old(self)@.funcs,
            final(self)@.creating == old(self)@.creating.remove(c),
    {
        match self.find_idx(c) {
            Some(j) => {
                let ghost s0 = self.entries@;
                let slot = vec_index_mut(&mut self.entries, j);
                slot.creating = false;
                proof {
                    let e2 = self.entries@[j as int];
                    assert(e2.name == c && e2.body@ == s0[j as int].body@ && e2.start
                        == s0[j as int].start && !e2.creating);
                    lemma_update_view(s0, j as int, e2);
                    assert(self.entries@ =~= s0.update(j as int, e2));
                    lemma_entry_view(s0, j as int);
                    assert(funcs_of(s0).insert(c, (e2.body@, e2.start as int)) =~= funcs_of(s0));
                }
            },
            None => {
                proof {
                    lemma_no_entry(self.entries@, c);
                    assert(creating_of(self.entries@).remove(c) =~= creating_of(self.entries@));
                }
            },
        }
    }

    /// Append `c` to the body of every identifier currently mid-definition.
    pub fn put(&mut self, c: char)
        requires
            old(self).wf(),
        ensures
            final(self).wf(),
            final(self)@.creating == old(self)@.creating,
            final(self)@.funcs.dom() == old(self)@.funcs.dom(),
            forall|k: char|
                old(self)@.funcs.dom().contains(k) ==> #[trigger] final(self)@.funcs[k] == (
                if old(self)@.creating.contains(k) {
                    (old(self)@.funcs[k].0.push(c), old(self)@.funcs[k].1)
                } else {
                    old(self)@.funcs[k]
                }),
    {
        let ghost s0 = self.entries@;
        let mut i: usize = 0;
        while i < self.entries.len()
            invariant
                i <= s0.len(),
                self.entries@.len() == s0.len(),
                forall|t: int|
                    0 <= t < s0.len() ==> self.entries@[t].name == (#[trigger] s0[t]).name
                        && self.entries@[t].start == s0[t].start && self.entries@[t].creating
                        == s0[t].creating,
                forall|t: int|
                    0 <= t < i ==> self.entries@[t].body@ == (if (#[trigger] s0[t]).creating {
                        s0[t].body@.push(c)
                    } else {
                        s0[t].body@
                    }),
                forall|t: int|
                    i <= t < s0.len() ==> self.entries@[t].body@ == (#[trigger] s0[t]).body@,
            decreases s0.len() - i,
        {
            let ghost pre = self.entries@;
            let cr = self.entries[i].creating;
            if cr {
                let mut b = copy_chars(&self.entries[i].body);
                b.push(c);
                let name = self.entries[i].name;
                let st = self.entries[i].start;
                let slot = vec_index_mut(&mut self.entries, i);
                *slot = FnEntry { name, body: b, start: st, creating: true };
                proof {
                    assert(self.entries@[i as int].body@ == pre[i as int].body@.push(c));
                    assert(self.entries@[i as int].name == pre[i as int].name);
                    assert(self.entries@[i as int].start == pre[i as int].start);
                    assert(self.entries@[i as int].creating == pre[i as int].creating);
                }
            }
            proof {
                assert forall|t: int|
                    0 <= t < i + 1 implies self.entries@[t].body@ == (if (
                #[trigger] s0[t]).creating {
                    s0[t].body@.push(c)
                } else {
                    s0[t].body@
                }) by {
                    if t < i {
                        assert(self.entries@[t] == pre[t]);
                    } else {
                        assert(pre[t].body@ == s0[t].body@);
                        assert(s0[t].creating == cr);
                    }
                }
            }
            i += 1;
        }
        proof {
            lemma_put_view(s0, self.entries@, c);
        }
    }

    /// If `from` has a stored entry, clone its body and start offset wholesale
    /// onto `to` (an independent copy); otherwise do nothing. The set of
    /// mid-definition marks is untouched.
    pub fn copy_fn(&mut self, from: char, to: char)
        requires
            old(self).wf(),
        ensures
            final(self).wf(),
            final(self)@.creating == old(self)@.creating,
            old(self)@.funcs.contains_key(from) ==> final(self)@.funcs == old(self)@.funcs.insert(
                to,
                old(self)@.funcs[from],
            ),
            !old(self)@.funcs.contains_key(from) ==> final(self)@.funcs == old(self)@.funcs,
    {
        match self.find_idx(from) {
            Some(j) => {
                proof {
                    lemma_entry_view(self.entries@, j as int);
                }
                let body2 = copy_chars(&self.entries[j].body);
                let st = self.entries[j].start;
                match self.find_idx(to) {
                    Some(t) => {
                        let ghost s0 = self.entries@;
                        proof {
                            lemma_entry_view(s0, t as int);
                        }
                        let slot = vec_index_mut(&mut self.entries, t);
                        slot.body = body2;
                        slot.start = st;
                        proof {
                            let e2 = self.entries@[t as int];
                            lemma_update_view(s0, t as int, e2);
                            assert(self.entries@ =~= s0.update(t as int, e2));
                            if e2.creating {
                                assert(creating_of(s0).insert(to) =~= creating_of(s0));
                            } else {
                                assert(creating_of(s0).remove(to) =~= creating_of(s0));
                            }
                        }
                    },
                    None => {
                        let e = FnEntry { name: to, body: body2, start: st, creating: false };
                        proof {
                            lemma_no_entry(self.entries@, to);
                            lemma_push_view(self.entries@, e);
                            assert(distinct_names(self.entries@.push(e)));
                            assert(creating_of(self.entries@).remove(to) =~= creating_of(
                                self.entries@,
                            ));
                        }
                        self.entries.push(e);
                    },
                }
            },
            None => {
                proof {
                    lemma_no_entry(self.entries@, from);
                }
            },
        }
    }
}

proof fn lemma_creating_needs_flag(s: Seq<FnEntry>, c: char)
    requires
        forall|j: int| 0 <= j < s.len() ==> !s[j].creating,
    ensures
        !creating_of(s).contains(c),
    decreases s.len(),
{
    if s.len() > 0 {
        lemma_creating_needs_flag(s.drop_last(), c);
    }
}

/// An independent copy of a character buffer.
fn copy_chars(v: &Vec<char>) -> (r: Vec<char>)
    ensures
        r@ == v@,
{
    let mut out: Vec<char> = Vec::new();
    let mut i: usize = 0;
    while i < v.len()
        invariant
            i <= v@.len(),
            out@ == v@.take(i as int),
        decreases v@.len() - i,
    {
        out.push(v[i]);
        proof {
            assert(out@ =~= v@.take(i + 1));
        }
        i += 1;
    }
    proof {
        assert(v@.take(v@.len() as int) =~= v@);
    }
    out
}

} // verus!
