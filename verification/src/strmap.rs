//! A string-keyed, string-valued mapping with last-write-wins inserts.
//! It backs request headers, extracted path parameters and per-route
//! configuration state, and is viewed as a `Map<Seq<char>, Seq<char>>`.

use vstd::prelude::*;

verus! {

use crate::text::str_eq;

/// The mapping described by a sequence of pairs, later pairs
/// overriding earlier ones with the same key.
pub open spec fn map_of_pairs(ps: Seq<(String, String)>) -> Map<Seq<char>, Seq<char>>
    decreases ps.len(),
{
    if ps.len() == 0 {
        Map::empty()
    } else {
        map_of_pairs(ps.drop_last()).insert(ps.last().0@, ps.last().1@)
    }
}

/// An insertion-ordered list of key/value pairs read as a map.
#[derive(Clone, Debug)]
pub struct StrMap {
    pairs: Vec<(String, String)>,
}

impl View for StrMap {
    type V = Map<Seq<char>, Seq<char>>;

    closed spec fn view(&self) -> Map<Seq<char>, Seq<char>> {
        map_of_pairs(self.pairs@)
    }
}

impl StrMap {
    pub fn new() -> (r: StrMap)
        ensures
            r@ == Map::<Seq<char>, Seq<char>>::empty(),
    {
        StrMap { pairs: Vec::new() }
    }

    pub fn insert(&mut self, key: String, value: String)
        ensures
            final(self)@ == old(self)@.insert(key@, value@),
    {
        let ghost ps0 = self.pairs@;
        self.pairs.push((key, value));
        proof {
            assert(self.pairs@.drop_last() =~= ps0);
        }
    }

    pub fn get(&self, key: &str) -> (r: Option<String>)
        ensures
            match r {
                Some(v) => self@.contains_key(key@) && v@ == self@[key@],
                None => !self@.contains_key(key@),
            },
    {
        let n = self.pairs.len();
        let mut i: usize = n;
        proof {
            assert(self.pairs@.take(n as int) =~= self.pairs@);
        }
        while i > 0
            invariant
                i <= n,
                n == self.pairs@.len(),
                self@.contains_key(key@) == map_of_pairs(self.pairs@.take(i as int)).contains_key(
                    key@,
                ),
                self@.contains_key(key@) ==> self@[key@] == map_of_pairs(
                    self.pairs@.take(i as int),
                )[key@],
            decreases i,
        {
            proof {
                assert(self.pairs@.take(i as int).drop_last() =~= self.pairs@.take(i - 1));
                assert(self.pairs@.take(i as int).last() == self.pairs@[i - 1]);
            }
            if str_eq(key, self.pairs[i - 1].0.as_str()) {
                return Some(self.pairs[i - 1].1.clone());
            }
            i = i - 1;
        }
        proof {
            assert(self.pairs@.take(0) =~= Seq::<(String, String)>::empty());
        }
        None
    }
}

} // verus!
