use vstd::prelude::*;

use crate::websocket::HttpHeader;

verus! {

/// The map that a list of `(name, value)` pairs gives when they are inserted in order.
pub open spec fn pairs_to_map(pairs: Seq<(Seq<char>, Seq<char>)>) -> Map<Seq<char>, Seq<char>>
    decreases pairs.len(),
{
    if pairs.len() == 0 {
        Map::empty()
    } else {
        pairs_to_map(pairs.drop_last()).insert(pairs.last().0, pairs.last().1)
    }
}

/// No name occurs twice.
pub open spec fn names_distinct(pairs: Seq<(Seq<char>, Seq<char>)>) -> bool {
    forall|i: int, j: int| 0 <= i < j < pairs.len() ==> pairs[i].0 != pairs[j].0
}

/// The request headers, keyed by name; a later header replaces an earlier one of the same name.
pub struct HeaderMap {
    entries: Vec<HttpHeader>,
}

proof fn lemma_map_contains(pairs: Seq<(Seq<char>, Seq<char>)>, k: Seq<char>)
    ensures
        pairs_to_map(pairs).contains_key(k) <==> exists|i: int|
            0 <= i < pairs.len() && #[trigger] pairs[i].0 == k,
    decreases pairs.len(),
{
    if pairs.len() > 0 {
        let init = pairs.drop_last();
        lemma_map_contains(init, k);
        if pairs_to_map(pairs).contains_key(k) && pairs.last().0 != k {
            let i = choose|i: int| 0 <= i < init.len() && #[trigger] init[i].0 == k;
            assert(pairs[i].0 == k);
        }
        if exists|i: int| 0 <= i < pairs.len() && #[trigger] pairs[i].0 == k {
            let i = choose|i: int| 0 <= i < pairs.len() && #[trigger] pairs[i].0 == k;
            if i < pairs.len() - 1 {
                assert(init[i].0 == k);
            }
        }
    }
}

proof fn lemma_map_index(pairs: Seq<(Seq<char>, Seq<char>)>, i: int)
    requires
        names_distinct(pairs),
        0 <= i < pairs.len(),
    ensures
        pairs_to_map(pairs).contains_key(pairs[i].0),
        pairs_to_map(pairs)[pairs[i].0] == pairs[i].1,
    decreases pairs.len(),
{
    let init = pairs.drop_last();
    if i < pairs.len() - 1 {
        assert(names_distinct(init));
        lemma_map_index(init, i);
        assert(pairs[i].0 != pairs.last().0);
    }
}

proof fn lemma_map_update(pairs: Seq<(Seq<char>, Seq<char>)>, i: int, v: Seq<char>)
    requires
        names_distinct(pairs),
        0 <= i < pairs.len(),
    ensures
        pairs_to_map(pairs.update(i, (pairs[i].0, v))) =~= pairs_to_map(pairs).insert(
            pairs[i].0,
            v,
        ),
    decreases pairs.len(),
{
    let k = pairs[i].0;
    let upd = pairs.update(i, (k, v));
    let init = pairs.drop_last();
    if i == pairs.len() - 1 {
        assert(upd.drop_last() =~= init);
    } else {
        assert(names_distinct(init));
        lemma_map_update(init, i, v);
        assert(upd.drop_last() =~= init.update(i, (k, v)));
        assert(pairs.last().0 != k);
    }
}

/// After `insert`, `get` of the inserted name gives the inserted value, and `get` of any
/// other name gives what it gave before.
pub proof fn law_get_after_insert(
    before: HeaderMap,
    after: HeaderMap,
    name: Seq<char>,
    value: Seq<char>,
    other: Seq<char>,
)
    requires
        after@ == before@.insert(name, value),
    ensures
        after@.contains_key(name),
        after@[name] == value,
        other != name ==> (after@.contains_key(other) == before@.contains_key(other)),
        other != name && before@.contains_key(other) ==> after@[other] == before@[other],
{
}

impl View for HeaderMap {
    type V = Map<Seq<char>, Seq<char>>;

    closed spec fn view(&self) -> Map<Seq<char>, Seq<char>> {
        pairs_to_map(self.pairs())
    }
}

impl HeaderMap {
    /// The `(name, value)` pairs held, in order.
    pub closed spec fn pairs(&self) -> Seq<(Seq<char>, Seq<char>)> {
        self.entries@.map_values(|h: HttpHeader| (h.name@, h.value@))
    }

    /// No name is held twice.
    pub closed spec fn wf(&self) -> bool {
        names_distinct(self.pairs())
    }

    /// An empty map.
    pub fn new() -> (m: Self)
        ensures
            m.wf(),
            m@ == Map::<Seq<char>, Seq<char>>::empty(),
    {
        let m = HeaderMap { entries: Vec::new() };
        assert(m.pairs() =~= Seq::<(Seq<char>, Seq<char>)>::empty());
        m
    }

    /// The index of the entry named `name`, if any.
    fn find(&self, name: &String) -> (res: Option<usize>)
        requires
            self.wf(),
        ensures
            match res {
                Some(i) => i < self.entries@.len() && self.pairs()[i as int].0 == name@,
                None => forall|i: int|
                    0 <= i < self.pairs().len() ==> #[trigger] self.pairs()[i].0 != name@,
            },
    {
        let n = self.entries.len();
        let mut i: usize = 0;
        while i < n
            invariant
                n == self.entries@.len(),
                self.pairs().len() == n,
                i <= n,
                forall|k: int| 0 <= k < i ==> #[trigger] self.pairs()[k].0 != name@,
            decreases n - i,
        {
            if self.entries[i].name == *name {
                return Some(i);
            }
            i = i + 1;
        }
        None
    }

    /// The value held under `name`.
    pub fn get(&self, name: &String) -> (res: Option<&String>)
        requires
            self.wf(),
        ensures
            match res {
                Some(v) => self@.contains_key(name@) && v@ == self@[name@],
                None => !self@.contains_key(name@),
            },
    {
        proof {
            lemma_map_contains(self.pairs(), name@);
        }
        match self.find(name) {
            Some(i) => {
                proof {
                    lemma_map_index(self.pairs(), i as int);
                }
                Some(&self.entries[i].value)
            },
            None => None,
        }
    }

    /// Holds `header.value` under `header.name`, replacing what was held there.
    pub fn insert(&mut self, header: HttpHeader)
        requires
            old(self).wf(),
        ensures
            final(self).wf(),
            final(self)@ == old(self)@.insert(header.name@, header.value@),
    {
        let ghost old_pairs = self.pairs();
        let ghost k = header.name@;
        let ghost v = header.value@;
        match self.find(&header.name) {
            Some(i) => {
                self.entries.set(i, header);
                proof {
                    assert(self.pairs() =~= old_pairs.update(i as int, (k, v)));
                    lemma_map_update(old_pairs, i as int, v);
                }
            },
            None => {
                self.entries.push(header);
                proof {
                    assert(self.pairs() =~= old_pairs.push((k, v)));
                    assert(self.pairs().drop_last() =~= old_pairs);
                }
            },
        }
    }
}

} // verus!
