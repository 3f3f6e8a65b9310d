use vstd::prelude::*;
use vstd::map::*;

use crate::Error;

verus! {

#[verifier::external_type_specification]
#[verifier::external_body]
#[verifier::reject_recursive_types(L)]
#[verifier::reject_recursive_types(R)]
#[verifier::reject_recursive_types(LS)]
#[verifier::reject_recursive_types(RS)]
pub struct ExBiHashMap<L, R, LS, RS>(bimap::BiHashMap<L, R, LS, RS>);

/// The pairs a position bimap holds, as a map from left position to right
/// position.
/// The concrete bimap type the pairing map is built on.
pub type PosBiMap = bimap::BiHashMap<usize, usize>;

pub uninterp spec fn bimap_pairs(m: PosBiMap) -> Map<int, int>;

/// The map that holds no pairs at all.
pub open spec fn no_pairs() -> Map<int, int> {
    Map::empty()
}

/// Relies on bimap::BiHashMap::new: the fresh bimap holds no pairs.
#[verifier::external_body]
fn bm_new() -> (m: PosBiMap)
    ensures
        bimap_pairs(m) == no_pairs(),
{
    bimap::BiHashMap::new()
}

/// Relies on bimap::BiHashMap::insert: when neither side of the pair is
/// already present, the pair is added and nothing is overwritten.
#[verifier::external_body]
fn bm_insert(m: &mut PosBiMap, l: usize, r: usize)
    requires
        !bimap_pairs(*old(m)).dom().contains(l as int),
        forall|k: int|
            bimap_pairs(*old(m)).dom().contains(k) ==> bimap_pairs(*old(m))[k] != r as int,
    ensures
        bimap_pairs(*final(m)) == bimap_pairs(*old(m)).insert(l as int, r as int),
{
    m.insert(l, r);
}

/// Relies on bimap::BiHashMap::get_by_left: returns the right value stored
/// for the given left value, if any.
#[verifier::external_body]
fn bm_get_by_left(m: &PosBiMap, l: usize) -> (r: Option<usize>)
    ensures
        match r {
            Some(v) => bimap_pairs(*m).dom().contains(l as int) && bimap_pairs(*m)[l as int]
                == v as int,
            None => !bimap_pairs(*m).dom().contains(l as int),
        },
{
    m.get_by_left(&l).copied()
}

/// Relies on bimap::BiHashMap::get_by_right: returns the left value stored
/// for the given right value, if any.
#[verifier::external_body]
fn bm_get_by_right(m: &PosBiMap, r: usize) -> (l: Option<usize>)
    ensures
        match l {
            Some(v) => bimap_pairs(*m).dom().contains(v as int) && bimap_pairs(*m)[v as int]
                == r as int,
            None => forall|k: int|
                bimap_pairs(*m).dom().contains(k) ==> bimap_pairs(*m)[k] != r as int,
        },
{
    m.get_by_right(&r).copied()
}

/// Relies on bimap::BiHashMap::iter: yields every stored pair exactly once,
/// in no promised order.
#[verifier::external_body]
fn bm_pairs(m: &PosBiMap) -> (v: Vec<(usize, usize)>)
    ensures
        forall|i: int|
            0 <= i < v@.len() ==> bimap_pairs(*m).dom().contains((#[trigger] v@[i]).0 as int)
                && bimap_pairs(*m)[v@[i].0 as int] == v@[i].1 as int,
        forall|k: int|
            bimap_pairs(*m).dom().contains(k) ==> exists|i: int|
                0 <= i < v@.len() && (#[trigger] v@[i]).0 as int == k,
        forall|i: int, j: int| 0 <= i < j < v@.len() ==> v@[i].0 != v@[j].0,
{
    m.iter().map(|(l, r)| (*l, *r)).collect()
}

/// The scanner state after reading a prefix of the buffer: the pairs found so
/// far, the stack of open loop brackets, the pending opener of each singleton
/// family, and the position of the first unmatched loop closer, if one was
/// seen.
pub ghost struct ScanState {
    pub pairs: Map<int, int>,
    pub stack: Seq<int>,
    pub comment: Option<int>,
    pub quote: Option<int>,
    pub percent: Option<int>,
    pub zero: Option<int>,
    pub fail: Option<int>,
}

pub open spec fn scan_init() -> ScanState {
    ScanState {
        pairs: Map::empty(),
        stack: Seq::empty(),
        comment: None,
        quote: None,
        percent: None,
        zero: None,
        fail: None,
    }
}

/// One step of the scan: position `i` holds character `c`. A comment marker
/// is always special; a quote marker only outside a comment; the conditional
/// marker, the decimal-zero marker and the loop brackets only outside both.
pub open spec fn scan_step(st: ScanState, c: char, i: int) -> ScanState {
    if st.fail is Some {
        st
    } else if c == '^' {
        match st.comment {
            None => ScanState { comment: Some(i), ..st },
            Some(o) => ScanState { comment: None, pairs: st.pairs.insert(o, i), ..st },
        }
    } else if st.comment is Some {
        st
    } else if c == '"' {
        match st.quote {
            None => ScanState { quote: Some(i), ..st },
            Some(o) => ScanState { quote: None, pairs: st.pairs.insert(o, i), ..st },
        }
    } else if st.quote is Some {
        st
    } else if c == '%' {
        match st.percent {
            None => ScanState { percent: Some(i), ..st },
            Some(o) => ScanState { percent: None, pairs: st.pairs.insert(o, i), ..st },
        }
    } else if c == '0' {
        match st.zero {
            None => ScanState { zero: Some(i), ..st },
            Some(o) => ScanState { zero: None, pairs: st.pairs.insert(o, i), ..st },
        }
    } else if c == '[' {
        ScanState { stack: st.stack.push(i), ..st }
    } else if c == ']' {
        if st.stack.len() == 0 {
            ScanState { fail: Some(i), ..st }
        } else {
            ScanState {
                stack: st.stack.drop_last(),
                pairs: st.pairs.insert(st.stack.last(), i),
                ..st
            }
        }
    } else {
        st
    }
}

/// The scanner state after reading the whole of `code`.
pub open spec fn scan(code: Seq<char>) -> ScanState
    decreases code.len(),
{
    if code.len() <= 0 {
        scan_init()
    } else {
        scan_step(scan(code.drop_last()), code.last(), code.len() - 1)
    }
}

/// `p` is an opener waiting for its closer.
pub open spec fn pending(st: ScanState, p: int) -> bool {
    st.stack.contains(p) || st.comment == Some(p) || st.quote == Some(p) || st.percent == Some(p)
        || st.zero == Some(p)
}

/// `v` is the right position of some pair of `m`.
pub open spec fn in_range(m: Map<int, int>, v: int) -> bool {
    exists|k: int| #[trigger] m.dom().contains(k) && m[k] == v
}

/// What holds of every scanner state reached after `i` characters: openers
/// stand strictly left of their closers and of the read prefix, no position
/// is in two pairs, and every pending opener is distinct from every other and
/// still unpaired.
pub open spec fn scan_inv(st: ScanState, i: int) -> bool {
    st.fail is None ==> {
        &&& forall|k: int|
            #[trigger] st.pairs.dom().contains(k) ==> 0 <= k && k < st.pairs[k] && st.pairs[k] < i
        &&& forall|k1: int, k2: int|
            st.pairs.dom().contains(k1) && st.pairs.dom().contains(k2) && #[trigger] st.pairs[k1]
                == #[trigger] st.pairs[k2] ==> k1 == k2
        &&& forall|j1: int, j2: int|
            0 <= j1 < j2 < st.stack.len() ==> #[trigger] st.stack[j1] < #[trigger] st.stack[j2]
        &&& forall|j: int| 0 <= j < st.stack.len() ==> 0 <= #[trigger] st.stack[j] < i
        &&& (st.comment matches Some(o) ==> 0 <= o < i && !st.stack.contains(o) && st.quote
            != Some(o) && st.percent != Some(o) && st.zero != Some(o))
        &&& (st.quote matches Some(o) ==> 0 <= o < i && !st.stack.contains(o) && st.percent
            != Some(o) && st.zero != Some(o))
        &&& (st.percent matches Some(o) ==> 0 <= o < i && !st.stack.contains(o) && st.zero
            != Some(o))
        &&& (st.zero matches Some(o) ==> 0 <= o < i && !st.stack.contains(o))
        &&& forall|p: int|
            #[trigger] pending(st, p) ==> !st.pairs.dom().contains(p) && !in_range(st.pairs, p)
    }
}

proof fn lemma_scan_step_inv(st: ScanState, c: char, i: int)
    requires
        scan_inv(st, i),
        0 <= i,
    ensures
        scan_inv(scan_step(st, c, i), i + 1),
{
    let st2 = scan_step(st, c, i);
    if st.fail is Some || st2.fail is Some {
        return ;
    }
    assert forall|p: int| #[trigger] pending(st2, p) implies !st2.pairs.dom().contains(p)
        && !in_range(st2.pairs, p) by {
        if st2.stack.contains(p) {
            let j = choose|j: int| 0 <= j < st2.stack.len() && st2.stack[j] == p;
            if c == '[' && st.comment is None && st.quote is None {
                if j < st.stack.len() {
                    assert(st.stack[j] == p);
                    assert(pending(st, p));
                } else {
                    assert(p == i);
                }
            } else if c == ']' && st.comment is None && st.quote is None {
                assert(st.stack[j] == p);
                assert(pending(st, p));
                assert(st.stack.last() != p);
            } else {
                assert(st.stack[j] == p);
                assert(pending(st, p));
            }
        } else {
            if st2.comment == Some(p) || st2.quote == Some(p) || st2.percent == Some(p)
                || st2.zero == Some(p) {
                if st.comment == Some(p) || st.quote == Some(p) || st.percent == Some(p)
                    || st.zero == Some(p) {
                    assert(pending(st, p));
                } else {
                    assert(p == i);
                }
            }
        }
        if p == i {
            assert(!st2.pairs.dom().contains(p) && !in_range(st2.pairs, p)) by {
                assert(!st.pairs.dom().contains(i));
                assert forall|k: int| #[trigger] st2.pairs.dom().contains(k) implies st2.pairs[k]
                    != i by {
                    assert(st.pairs.dom().contains(k) && st.pairs[k] < i);
                }
            }
        }
    }
    if c == ']' && st.comment is None && st.quote is None && st.stack.len() > 0 {
        let o = st.stack.last();
        assert(st.stack.contains(o));
        assert(pending(st, o));
        assert forall|j1: int, j2: int| 0 <= j1 < j2 < st2.stack.len() implies #[trigger] st2
            .stack[j1] < #[trigger] st2.stack[j2] by {
            assert(st.stack[j1] == st2.stack[j1]);
            assert(st.stack[j2] == st2.stack[j2]);
        }
    }
}

proof fn lemma_scan_unfold(code: Seq<char>, i: int)
    requires
        0 <= i < code.len(),
    ensures
        scan(code.take(i + 1)) == scan_step(scan(code.take(i)), code[i], i),
{
    assert(code.take(i + 1).drop_last() =~= code.take(i));
    assert(code.take(i + 1).last() == code[i]);
}

proof fn lemma_scan_fail_sticky(code: Seq<char>, k: int)
    requires
        0 <= k <= code.len(),
        scan(code.take(k)).fail is Some,
    ensures
        scan(code).fail == scan(code.take(k)).fail,
    decreases code.len() - k,
{
    if k < code.len() {
        lemma_scan_unfold(code, k);
        lemma_scan_fail_sticky(code, k + 1);
    } else {
        assert(code.take(k) =~= code);
    }
}

/// Well-formedness of a pairing relation: every opener stands strictly left
/// of its closer, positions fit in the buffer index type, and no two openers
/// share a closer.
pub open spec fn map_wf(m: Map<int, int>) -> bool {
    &&& forall|k: int| #[trigger] m.dom().contains(k) ==> 0 <= k && k < m[k] && m[k] <= usize::MAX
    &&& forall|k1: int, k2: int|
        m.dom().contains(k1) && m.dom().contains(k2) && #[trigger] m[k1] == #[trigger] m[k2]
            ==> k1 == k2
}

/// The pairing relation that remains after dropping every pair with an
/// endpoint left of `s` and shifting both endpoints down by `s`.
pub open spec fn offset_pairs(m: Map<int, int>, s: int) -> Map<int, int> {
    Map::new(
        |k: int| k >= 0 && m.dom().contains(k + s) && m[k + s] >= s,
        |k: int| m[k + s] - s,
    )
}

/// The one-to-one, bidirectional map from the position of each opening
/// symbol to the position of its matching closing symbol, built once per
/// character buffer and immutable afterwards.
pub struct PairingMap {
    inner: PosBiMap,
}

impl View for PairingMap {
    type V = Map<int, int>;

    closed spec fn view(&self) -> Map<int, int> {
        bimap_pairs(self.inner)
    }
}

pub open spec fn opt_rel(a: Option<usize>, b: Option<int>) -> bool {
    match a {
        Some(v) => b == Some(v as int),
        None => b is None,
    }
}

impl PairingMap {
    pub open spec fn wf(&self) -> bool {
        map_wf(self@)
    }

    /// Scan `code` left to right and collect the four pairing families; a
    /// loop closer with no pending opener aborts construction. The result is
    /// exactly what the abstract scan of the whole buffer yields.
    pub fn build(code: &Vec<char>) -> (r: Result<PairingMap, Error>)
        ensures
            match r {
                Ok(pm) => pm.wf() && scan(code@).fail is None && pm@ == scan(code@).pairs,
                Err(e) => match (scan(code@).fail, e) {
                    (Some(p), Error::MismatchedBrackets(q)) => p == q as int,
                    _ => false,
                },
            },
    {
        let mut inner = bm_new();
        let mut brackstack: Vec<usize> = Vec::new();
        let mut last_comment: Option<usize> = None;
        let mut last_quote: Option<usize> = None;
        let mut last_percent: Option<usize> = None;
        let mut last_zero: Option<usize> = None;
        let n = code.len();
        let mut i: usize = 0;
        while i < n
            invariant
                i <= n,
                n == code@.len(),
                scan(code@.take(i as int)).fail is None,
                scan_inv(scan(code@.take(i as int)), i as int),
                bimap_pairs(inner) == scan(code@.take(i as int)).pairs,
                brackstack@.len() == scan(code@.take(i as int)).stack.len(),
                forall|j: int|
                    0 <= j < brackstack@.len() ==> #[trigger] brackstack@[j] as int == scan(
                        code@.take(i as int),
                    ).stack[j],
                opt_rel(last_comment, scan(code@.take(i as int)).comment),
                opt_rel(last_quote, scan(code@.take(i as int)).quote),
                opt_rel(last_percent, scan(code@.take(i as int)).percent),
                opt_rel(last_zero, scan(code@.take(i as int)).zero),
            decreases n - i,
        {
            let ghost st = scan(code@.take(i as int));
            proof {
                lemma_scan_unfold(code@, i as int);
                lemma_scan_step_inv(st, code@[i as int], i as int);
            }
            let c = code[i];
            if c == '^' {
                match last_comment {
                    None => {
                        last_comment = Some(i);
                    },
                    Some(o) => {
                        proof {
                            assert(pending(st, o as int));
                        }
                        last_comment = None;
                        bm_insert(&mut inner, o, i);
                    },
                }
            } else if last_comment.is_some() {
            } else if c == '\u{22}' {
                match last_quote {
                    None => {
                        last_quote = Some(i);
                    },
                    Some(o) => {
                        proof {
                            assert(pending(st, o as int));
                        }
                        last_quote = None;
                        bm_insert(&mut inner, o, i);
                    },
                }
            } else if last_quote.is_some() {
            } else if c == '%' {
                match last_percent {
                    None => {
                        last_percent = Some(i);
                    },
                    Some(o) => {
                        proof {
                            assert(pending(st, o as int));
                        }
                        last_percent = None;
                        bm_insert(&mut inner, o, i);
                    },
                }
            } else if c == '0' {
                match last_zero {
                    None => {
                        last_zero = Some(i);
                    },
                    Some(o) => {
                        proof {
                            assert(pending(st, o as int));
                        }
                        last_zero = None;
                        bm_insert(&mut inner, o, i);
                    },
                }
            } else if c == '[' {
                brackstack.push(i);
            } else if c == ']' {
                match brackstack.pop() {
                    None => {
                        proof {
                            lemma_scan_fail_sticky(code@, i as int + 1);
                        }
                        return Err(Error::MismatchedBrackets(i));
                    },
                    Some(o) => {
                        proof {
                            assert(st.stack[st.stack.len() - 1] == o as int);
                            assert(st.stack.contains(o as int));
                            assert(pending(st, o as int));
                        }
                        bm_insert(&mut inner, o, i);
                    },
                }
            }
            i += 1;
        }
        proof {
            assert(code@.take(n as int) =~= code@);
        }
        Ok(PairingMap { inner })
    }

    /// The closer paired with the opener at `l`, if `l` opens a pair.
    pub fn get_by_left(&self, l: usize) -> (r: Option<usize>)
        ensures
            match r {
                Some(v) => self@.contains_key(l as int) && self@[l as int] == v as int,
                None => !self@.contains_key(l as int),
            },
    {
        bm_get_by_left(&self.inner, l)
    }

    /// The opener paired with the closer at `r`, if `r` closes a pair.
    pub fn get_by_right(&self, r: usize) -> (l: Option<usize>)
        ensures
            match l {
                Some(v) => self@.contains_key(v as int) && self@[v as int] == r as int,
                None => forall|k: int| self@.contains_key(k) ==> self@[k] != r as int,
            },
    {
        bm_get_by_right(&self.inner, r)
    }

    /// The derived map for a buffer that starts `start` positions into this
    /// one: only pairs with both endpoints at or beyond `start` remain, each
    /// endpoint shifted down by `start`.
    pub fn offset(&self, start: usize) -> (r: PairingMap)
        requires
            self.wf(),
        ensures
            r.wf(),
            r@ == offset_pairs(self@, start as int),
    {
        let ghost m = self@;
        let ghost s = start as int;
        let pv = bm_pairs(&self.inner);
        let mut out = bm_new();
        let mut i: usize = 0;
        while i < pv.len()
            invariant
                i <= pv@.len(),
                self.wf(),
                m == self@,
                s == start as int,
                forall|j: int|
                    0 <= j < pv@.len() ==> m.dom().contains((#[trigger] pv@[j]).0 as int)
                        && m[pv@[j].0 as int] == pv@[j].1 as int,
                forall|k: int|
                    m.dom().contains(k) ==> exists|j: int|
                        0 <= j < pv@.len() && (#[trigger] pv@[j]).0 as int == k,
                forall|j1: int, j2: int| 0 <= j1 < j2 < pv@.len() ==> pv@[j1].0 != pv@[j2].0,
                bimap_pairs(out) == shifted(pv@.take(i as int), s),
            decreases pv@.len() - i,
        {
            let (l, r) = pv[i];
            proof {
                assert(pv@.take(i as int + 1).drop_last() =~= pv@.take(i as int));
                assert(pv@.take(i as int + 1).last() == pv@[i as int]);
                if l >= start && r >= start {
                    if bimap_pairs(out).dom().contains(l as int - s) {
                        lemma_shifted_src(pv@.take(i as int), s, l as int - s);
                    }
                    if in_range(bimap_pairs(out), r as int - s) {
                        lemma_shifted_range(pv@.take(i as int), s, r as int - s);
                    }
                }
            }
            if l >= start && r >= start {
                bm_insert(&mut out, l - start, r - start);
            }
            i += 1;
        }
        proof {
            assert(pv@.take(pv@.len() as int) =~= pv@);
            let res = bimap_pairs(out);
            let want = offset_pairs(m, s);
            assert forall|x: int| #[trigger] res.dom().contains(x) implies want.dom().contains(
                x,
            ) && res[x] == want[x] by {
                lemma_shifted_src(pv@, s, x);
            }
            assert forall|x: int| #[trigger] want.dom().contains(x) implies res.dom().contains(
                x,
            ) by {
                let j = choose|j: int| 0 <= j < pv@.len() && (pv@[j]).0 as int == x + s;
                lemma_shifted_has(pv@, s, j);
            }
            assert(res.dom() =~= want.dom());
            assert(res =~= want);
            assert forall|k1: int, k2: int|
                want.dom().contains(k1) && want.dom().contains(k2) && #[trigger] want[k1]
                    == #[trigger] want[k2] implies k1 == k2 by {
                assert(m.dom().contains(k1 + s) && m.dom().contains(k2 + s));
                assert(m[k1 + s] == m[k2 + s]);
            }
        }
        PairingMap { inner: out }
    }
}

/// The pairing relation that a list of pairs yields after dropping those
/// with an endpoint left of `s` and shifting the rest down by `s`.
pub open spec fn shifted(pvs: Seq<(usize, usize)>, s: int) -> Map<int, int>
    decreases pvs.len(),
{
    if pvs.len() == 0 {
        Map::empty()
    } else {
        let rest = shifted(pvs.drop_last(), s);
        if pvs.last().0 as int >= s && pvs.last().1 as int >= s {
            rest.insert(pvs.last().0 as int - s, pvs.last().1 as int - s)
        } else {
            rest
        }
    }
}

proof fn lemma_shifted_src(pvs: Seq<(usize, usize)>, s: int, x: int)
    requires
        shifted(pvs, s).dom().contains(x),
    ensures
        exists|j: int|
            0 <= j < pvs.len() && (#[trigger] pvs[j]).0 as int == x + s && pvs[j].1 as int >= s
                && pvs[j].0 as int >= s && pvs[j].1 as int == shifted(pvs, s)[x] + s,
    decreases pvs.len(),
{
    let n = pvs.len() - 1;
    if pvs.last().0 as int >= s && pvs.last().1 as int >= s && pvs.last().0 as int - s == x {
        assert((pvs[n]).0 as int == x + s && pvs[n].1 as int >= s && pvs[n].0 as int >= s
            && pvs[n].1 as int == shifted(pvs, s)[x] + s);
    } else {
        lemma_shifted_src(pvs.drop_last(), s, x);
        let j = choose|j: int|
            0 <= j < pvs.drop_last().len() && (#[trigger] pvs.drop_last()[j]).0 as int == x + s
                && pvs.drop_last()[j].1 as int >= s && pvs.drop_last()[j].0 as int >= s
                && pvs.drop_last()[j].1 as int == shifted(pvs.drop_last(), s)[x] + s;
        assert(pvs[j] == pvs.drop_last()[j]);
        assert((pvs[j]).0 as int == x + s && pvs[j].1 as int >= s && pvs[j].0 as int >= s
            && pvs[j].1 as int == shifted(pvs, s)[x] + s);
    }
}

proof fn lemma_shifted_range(pvs: Seq<(usize, usize)>, s: int, y: int)
    requires
        in_range(shifted(pvs, s), y),
    ensures
        exists|j: int|
            0 <= j < pvs.len() && (#[trigger] pvs[j]).1 as int == y + s && pvs[j].0 as int >= s,
    decreases pvs.len(),
{
    let k = choose|k: int| #[trigger]
        shifted(pvs, s).dom().contains(k) && shifted(pvs, s)[k] == y;
    lemma_shifted_src(pvs, s, k);
    let j = choose|j: int|
        0 <= j < pvs.len() && (#[trigger] pvs[j]).0 as int == k + s && pvs[j].1 as int >= s
            && pvs[j].0 as int >= s && pvs[j].1 as int == shifted(pvs, s)[k] + s;
    assert((pvs[j]).1 as int == y + s && pvs[j].0 as int >= s);
}

proof fn lemma_shifted_has(pvs: Seq<(usize, usize)>, s: int, j: int)
    requires
        0 <= j < pvs.len(),
        pvs[j].0 as int >= s,
        pvs[j].1 as int >= s,
        forall|a: int, b: int| 0 <= a < b < pvs.len() ==> pvs[a].0 != pvs[b].0,
    ensures
        shifted(pvs, s).dom().contains(pvs[j].0 as int - s),
        shifted(pvs, s)[pvs[j].0 as int - s] == pvs[j].1 as int - s,
    decreases pvs.len(),
{
    let n = pvs.len() - 1;
    if j == n {
    } else {
        assert(forall|a: int, b: int|
            0 <= a < b < pvs.drop_last().len() ==> pvs.drop_last()[a].0 != pvs.drop_last()[b].0);
        lemma_shifted_has(pvs.drop_last(), s, j);
        assert(pvs.drop_last()[j] == pvs[j]);
        assert(pvs[j].0 != pvs[n].0);
    }
}

/// Law: pairings are bidirectional. In a well-formed pairing map a closer
/// belongs to exactly one opener, so looking an opener up by its closer and
/// that closer up by the opener leads back to the position one started from.
pub proof fn lemma_pairing_bidirectional(pm: &PairingMap, l: int, r: int)
    requires
        pm.wf(),
        pm@.contains_key(l),
        pm@[l] == r,
    ensures
        forall|l2: int| pm@.contains_key(l2) && #[trigger] pm@[l2] == r ==> l2 == l,
{
}

} // verus!
