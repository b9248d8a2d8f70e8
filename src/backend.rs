//! The store that commands act on: a map from keys to frames, and a map from
//! keys to field tables.
use vstd::prelude::*;
use crate::frame::{RespFrame, RespMap, Value, map_get};
use crate::wire::map_insert;

verus! {

/// The model of a store: `values` in key order; `tables` one per key, in the
/// order the keys were first written.
pub struct StoreView {
    pub values: Seq<(Seq<char>, Value)>,
    pub tables: Seq<(Seq<char>, Seq<(Seq<char>, Value)>)>,
}

/// Position of `k` among the table keys (their number where it is absent).
pub open spec fn table_pos(ts: Seq<(Seq<char>, Seq<(Seq<char>, Value)>)>, k: Seq<char>, i: int) -> int
    decreases ts.len() - i,
{
    if i < 0 || i >= ts.len() {
        ts.len() as int
    } else if ts[i].0 == k {
        i
    } else {
        table_pos(ts, k, i + 1)
    }
}

pub open spec fn table_get(ts: Seq<(Seq<char>, Seq<(Seq<char>, Value)>)>, k: Seq<char>) -> Option<Seq<(Seq<char>, Value)>> {
    let p = table_pos(ts, k, 0);
    if p < ts.len() { Some(ts[p].1) } else { None }
}

/// Setting a field in the table of `k`, which is made where it is missing.
pub open spec fn table_set(ts: Seq<(Seq<char>, Seq<(Seq<char>, Value)>)>, k: Seq<char>, f: Seq<char>, v: Value)
    -> Seq<(Seq<char>, Seq<(Seq<char>, Value)>)> {
    let p = table_pos(ts, k, 0);
    if p < ts.len() {
        ts.update(p, (k, map_insert(ts[p].1, f, v)))
    } else {
        ts.push((k, map_insert(Seq::empty(), f, v)))
    }
}

/// An in-memory store. Writes to one key replace what was there; nothing
/// expires.
pub struct Backend {
    map: RespMap,
    hmap: Vec<(String, RespMap)>,
}

impl Backend {
    pub closed spec fn view(&self) -> StoreView {
        StoreView {
            values: self.map.entries_view(),
            tables: Seq::new(self.hmap@.len(), |i: int| (self.hmap@[i].0@, self.hmap@[i].1.entries_view())),
        }
    }

    pub fn new() -> (r: Self)
        ensures
            r.view().values == Seq::<(Seq<char>, Value)>::empty(),
            r.view().tables == Seq::<(Seq<char>, Seq<(Seq<char>, Value)>)>::empty(),
    {
        let r = Backend { map: RespMap::new(), hmap: Vec::new() };
        assert(r.view().tables =~= Seq::<(Seq<char>, Seq<(Seq<char>, Value)>)>::empty());
        r
    }

    /// A copy of the value stored under `key`.
    pub fn get(&self, key: &String) -> (r: Option<RespFrame>)
        ensures
            match r {
                Some(f) => map_get(self.view().values, key@) == Some(f.view()),
                None => map_get(self.view().values, key@) is None,
            },
    {
        match self.map.get(key) {
            Some(f) => Some(f.deep_clone()),
            None => None,
        }
    }

    pub fn set(&mut self, key: String, value: RespFrame)
        ensures
            final(self).view().values == map_insert(old(self).view().values, key@, value.view()),
            final(self).view().tables == old(self).view().tables,
    {
        self.map.insert(key, value);
        assert(self.view().tables =~= old(self).view().tables);
    }

    fn table_index(&self, key: &String) -> (r: usize)
        ensures
            r == table_pos(self.view().tables, key@, 0),
            r <= self.hmap@.len(),
            r < self.hmap@.len() ==> self.hmap@[r as int].0@ == key@,
    {
        let ghost ts = self.view().tables;
        let mut i: usize = 0;
        while i < self.hmap.len()
            invariant
                i <= self.hmap@.len(),
                ts == self.view().tables,
                table_pos(ts, key@, 0) == table_pos(ts, key@, i as int),
            decreases self.hmap@.len() - i,
        {
            if self.hmap[i].0 == *key {
                return i;
            }
            i += 1;
        }
        i
    }

    /// A copy of the field table of `key`.
    pub fn hgetall(&self, key: &String) -> (r: Option<RespMap>)
        ensures
            match r {
                Some(m) => table_get(self.view().tables, key@) == Some(m.entries_view()),
                None => table_get(self.view().tables, key@) is None,
            },
    {
        let i = self.table_index(key);
        if i < self.hmap.len() {
            Some(self.hmap[i].1.deep_clone())
        } else {
            None
        }
    }

    /// A copy of the value of `field` in the table of `key`.
    pub fn hget(&self, key: &String, field: &String) -> (r: Option<RespFrame>)
        ensures
            match r {
                Some(f) => table_get(self.view().tables, key@) matches Some(t) && map_get(t, field@) == Some(f.view()),
                None => match table_get(self.view().tables, key@) {
                    Some(t) => map_get(t, field@) is None,
                    None => true,
                },
            },
    {
        let i = self.table_index(key);
        if i < self.hmap.len() {
            match self.hmap[i].1.get(field) {
                Some(f) => Some(f.deep_clone()),
                None => None,
            }
        } else {
            None
        }
    }

    pub fn hset(&mut self, key: String, field: String, value: RespFrame)
        ensures
            final(self).view().tables == table_set(old(self).view().tables, key@, field@, value.view()),
            final(self).view().values == old(self).view().values,
    {
        let ghost ts = self.view().tables;
        let ghost kv = key@;
        let ghost fv = field@;
        let ghost vv = value.view();
        let i = self.table_index(&key);
        if i < self.hmap.len() {
            assert(ts[i as int].1 == self.hmap@[i as int].1.entries_view());
            let (k, mut t) = self.hmap.remove(i);
            assert(k@ == kv);
            t.insert(field, value);
            self.hmap.insert(i, (k, t));
            assert(self.view().tables =~= ts.update(i as int, (kv, map_insert(ts[i as int].1, fv, vv))));
        } else {
            let mut t = RespMap::new();
            t.insert(field, value);
            self.hmap.push((key, t));
            assert(self.view().tables =~= ts.push((kv, map_insert(Seq::empty(), fv, vv))));
        }
    }
}

} // verus!
